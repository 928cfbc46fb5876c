use laurus::multi_term::{collect_top_terms, rewrite_terms_from_enum, RewriteMethod};
use laurus::pattern::PatternError;
use laurus::prefix::PrefixQuery;
use laurus::regexp::RegexpQuery;
use laurus::terms::{PrefixTermsEnum, TermDictionary, TermStats, TermsEnum};
use laurus::wildcard::{compile_pattern, literal_prefix, WildcardQuery};

fn dict(terms: &[(&str, u64)]) -> TermDictionary {
    TermDictionary::from_sorted(
        terms
            .iter()
            .map(|(t, f)| TermStats::new(t.to_string(), *f))
            .collect(),
    )
    .expect("sorted terms")
}

fn texts(v: &[TermStats]) -> Vec<String> {
    v.iter().map(|t| t.term.clone()).collect()
}

#[test]
fn test_prefix_query_creation() {
    let query = PrefixQuery::new("field", "pre").with_boost_bits(2.0f32.to_bits());

    assert_eq!(query.field(), "field");
    assert_eq!(query.prefix(), "pre");
    assert_eq!(f32::from_bits(query.boost_bits()), 2.0);
}

#[test]
fn test_regexp_query_creation() {
    let query = RegexpQuery::new("field", "^abc.*").unwrap();
    assert_eq!(query.field(), "field");
    assert_eq!(query.pattern(), "^abc.*");
    assert_eq!(f32::from_bits(query.boost_bits()), 1.0);
}

#[test]
fn test_prefix_extraction() {
    let query = RegexpQuery::new("f", "^abc.*").unwrap();
    assert_eq!(query.extract_prefix().as_deref(), Some("abc"));

    let query = RegexpQuery::new("f", "abc.*").unwrap();
    assert_eq!(query.extract_prefix(), None); // No anchor

    let query = RegexpQuery::new("f", "^abc\\.def").unwrap();
    assert_eq!(query.extract_prefix().as_deref(), Some("abc.def"));

    let query = RegexpQuery::new("f", "^a(b|c)").unwrap();
    assert_eq!(query.extract_prefix().as_deref(), Some("a"));
}

#[test]
fn test_wildcard_query_creation() {
    let query = WildcardQuery::new("content", "hello*").unwrap();

    assert_eq!(query.field(), "content");
    assert_eq!(query.pattern(), "hello*");
    assert_eq!(f32::from_bits(query.boost_bits()), 1.0);
}

#[test]
fn test_wildcard_query_with_boost() {
    let query = WildcardQuery::new("content", "test?")
        .unwrap()
        .with_boost_bits(2.5f32.to_bits());

    assert_eq!(f32::from_bits(query.boost_bits()), 2.5);
}

#[test]
fn test_wildcard_pattern_compilation() {
    // Test simple wildcard
    let query = WildcardQuery::new("field", "hello*").unwrap();
    assert!(query.matches("hello"));
    assert!(query.matches("helloworld"));
    assert!(!query.matches("hell"));

    // Test question mark
    let query = WildcardQuery::new("field", "h?llo").unwrap();
    assert!(query.matches("hello"));
    assert!(query.matches("hallo"));
    assert!(query.matches("hxllo"));
    assert!(!query.matches("heello"));

    // Test combination
    let query = WildcardQuery::new("field", "h*l?o").unwrap();
    assert!(query.matches("hello"));
    assert!(query.matches("hallo"));
    assert!(query.matches("heeello"));
    assert!(query.matches("hllo")); // Actually matches because ? can be 'l'
}

#[test]
fn test_escaped_wildcards() {
    let query = WildcardQuery::new("field", "hello\\*world").unwrap();
    assert!(query.matches("hello*world"));
    assert!(!query.matches("helloworld"));
    assert!(!query.matches("hello123world"));

    let query = WildcardQuery::new("field", "hello\\?world").unwrap();
    assert!(query.matches("hello?world"));
    assert!(!query.matches("helloxworld"));
}

#[test]
fn test_special_regex_characters() {
    let query = WildcardQuery::new("field", "hello.world").unwrap();
    assert!(query.matches("hello.world"));
    assert!(!query.matches("helloxworld"));

    let query = WildcardQuery::new("field", "hello+world").unwrap();
    assert!(query.matches("hello+world"));
    assert!(!query.matches("helloworld"));
}

#[test]
fn wildcard_regex_exact() {
    assert_eq!(compile_pattern("a*b?c"), "^a.*b.c$");
    assert_eq!(compile_pattern("x.y(z)"), "^x\\.y\\(z\\)$");
    assert_eq!(compile_pattern("a\\*"), "^a\\*$");
    assert_eq!(compile_pattern("end\\"), "^end\\$");
    assert_eq!(compile_pattern(""), "^$");
}

#[test]
fn invalid_patterns_are_rejected() {
    match RegexpQuery::new("f", "a(") {
        Err(PatternError::InvalidRegexpPattern(p)) => assert_eq!(p, "a("),
        _ => panic!("expected an invalid pattern"),
    }
    // a trailing backslash escapes the end anchor: still a valid regex
    assert!(WildcardQuery::new("f", "abc\\").is_ok());
    match WildcardQuery::new("f", "a{") {
        Ok(_) => {}
        Err(PatternError::InvalidWildcardPattern(p)) => assert_eq!(p, "a{"),
        Err(_) => panic!("wrong error"),
    }
}

#[test]
fn prefix_enumeration_over_dictionary() {
    let d = dict(&[("apple", 3), ("apply", 1), ("apt", 2), ("banana", 5), ("band", 4)]);
    let q = PrefixQuery::new("f", "ap");
    assert_eq!(texts(&q.enumerate_terms(&d)), vec!["apple", "apply", "apt"]);
    let q = PrefixQuery::new("f", "ban");
    assert_eq!(texts(&q.enumerate_terms(&d)), vec!["banana", "band"]);
    let q = PrefixQuery::new("f", "c");
    assert!(q.enumerate_terms(&d).is_empty());
    // a limit caps the terms returned
    let q = PrefixQuery::new("f", "ap")
        .with_rewrite_method(RewriteMethod::TopTermsScoring { max_expansions: 1 });
    assert_eq!(texts(&q.enumerate_terms(&d)), vec!["apple"]);
    let q = PrefixQuery::new("f", "ap")
        .with_rewrite_method(RewriteMethod::TopTermsScoring { max_expansions: 0 });
    assert!(q.enumerate_terms(&d).is_empty());
    let q = PrefixQuery::new("f", "")
        .with_rewrite_method(RewriteMethod::TopTermsScoring { max_expansions: 3 });
    assert_eq!(texts(&q.enumerate_terms(&d)), vec!["apple", "apply", "apt"]);
    let rewritten = PrefixQuery::new("f", "ap")
        .with_boost_bits(3.0f32.to_bits())
        .rewrite(&d);
    assert_eq!(rewritten.terms, vec!["apple", "apply", "apt"]);
    assert_eq!(f32::from_bits(rewritten.boost_bits), 3.0);
    let empty = PrefixQuery::new("f", "zz").with_boost_bits(3.0f32.to_bits()).rewrite(&d);
    assert!(empty.terms.is_empty());
    assert_eq!(f32::from_bits(empty.boost_bits), 1.0);
}

#[test]
fn wildcard_and_regexp_enumeration() {
    let d = dict(&[("cat", 1), ("cats", 2), ("cut", 3), ("dog", 4)]);
    let q = WildcardQuery::new("f", "c?t").unwrap();
    assert_eq!(texts(&q.enumerate_terms(&d)), vec!["cat", "cut"]);
    let q = WildcardQuery::new("f", "*t*").unwrap();
    assert_eq!(texts(&q.enumerate_terms(&d)), vec!["cat", "cats", "cut"]);
    let q = RegexpQuery::new("f", "^ca").unwrap();
    assert_eq!(texts(&q.enumerate_terms(&d)), vec!["cat", "cats"]);
    let q = RegexpQuery::new("f", "o").unwrap();
    assert_eq!(texts(&q.enumerate_terms(&d)), vec!["dog"]);
    let q = WildcardQuery::new("f", "*")
        .unwrap()
        .with_rewrite_method(RewriteMethod::TopTermsBlended { max_expansions: 2 });
    assert_eq!(texts(&q.enumerate_terms(&d)), vec!["cat", "cats"]);
}

#[test]
fn top_terms_keep_rarest() {
    let terms = vec![
        TermStats::new("a".to_string(), 5),
        TermStats::new("b".to_string(), 1),
        TermStats::new("c".to_string(), 3),
        TermStats::new("d".to_string(), 1),
    ];
    let top = collect_top_terms(terms.clone(), 2);
    assert_eq!(texts(&top), vec!["b", "d"]);
    let top = collect_top_terms(terms.clone(), 3);
    assert_eq!(texts(&top), vec!["c", "b", "d"]);
    assert!(collect_top_terms(terms.clone(), 0).is_empty());
    let all = rewrite_terms_from_enum(RewriteMethod::ConstantScore, terms.clone());
    assert_eq!(texts(&all), vec!["a", "b", "c", "d"]);
}

#[test]
fn rewrite_method_properties() {
    assert_eq!(RewriteMethod::default(), RewriteMethod::TopTermsBlended { max_expansions: 50 });
    assert_eq!(RewriteMethod::ConstantScore.max_expansions(), None);
    assert_eq!(RewriteMethod::TopTermsScoring { max_expansions: 7 }.max_expansions(), Some(7));
    assert!(RewriteMethod::ConstantScore.is_constant_score());
    assert!(!RewriteMethod::BooleanQuery.is_top_terms());
    assert!(RewriteMethod::TopTermsBlended { max_expansions: 1 }.is_top_terms());
}

#[test]
fn terms_enum_cursor() {
    let d = dict(&[("a", 1), ("b", 2), ("c", 3)]);
    let mut e = TermsEnum::new(&d);
    assert!(e.current().is_none());
    assert_eq!(e.next().unwrap().term, "a");
    assert!(e.seek("bb") == false);
    assert_eq!(e.current().unwrap().term, "c");
    assert!(e.next().is_none());
    let mut e = TermsEnum::new(&d);
    assert!(e.seek_exact("b"));
    let mut p = PrefixTermsEnum::new(TermsEnum::new(&d), "b".to_string());
    assert_eq!(p.current().unwrap().term, "b");
    assert!(p.next().is_none());
    assert!(!p.seek_exact("a"));
    assert!(TermDictionary::from_sorted(vec![
        TermStats::new("b".to_string(), 1),
        TermStats::new("a".to_string(), 1)
    ])
    .is_none());
}

#[test]
fn limits_cap_pattern_enumeration() {
    let d = dict(&[("cat", 1), ("cats", 2), ("cut", 3), ("dog", 4)]);
    let q = WildcardQuery::new("f", "c*")
        .unwrap()
        .with_rewrite_method(RewriteMethod::TopTermsBlended { max_expansions: 1 });
    assert_eq!(texts(&q.enumerate_terms(&d)), vec!["cat"]);
    let q = RegexpQuery::new("f", "^c")
        .unwrap()
        .with_rewrite_method(RewriteMethod::TopTermsScoring { max_expansions: 2 });
    assert_eq!(texts(&q.enumerate_terms(&d)), vec!["cat", "cats"]);
    let q = RegexpQuery::new("f", "t")
        .unwrap()
        .with_rewrite_method(RewriteMethod::TopTermsScoring { max_expansions: 0 });
    assert!(q.enumerate_terms(&d).is_empty());
}

#[test]
fn escaped_wildcards_find_their_terms() {
    let d = dict(&[("hello", 1), ("hello*world", 2), ("hello\\x", 3), ("helloworld", 4)]);
    let q = WildcardQuery::new("f", "hello\\*world")
        .unwrap()
        .with_rewrite_method(RewriteMethod::BooleanQuery);
    assert_eq!(texts(&q.enumerate_terms(&d)), vec!["hello*world"]);
    let q = WildcardQuery::new("f", "hello\\?world").unwrap();
    assert!(q.enumerate_terms(&d).is_empty());
    assert_eq!(literal_prefix("hello\\*world"), "hello*world");
    assert_eq!(literal_prefix("a\\db*"), "a");
    assert_eq!(literal_prefix("ab?c"), "ab");
}

#[test]
fn regexp_prefix_is_constant() {
    let prefix = |p: &str| RegexpQuery::new("f", p).unwrap().extract_prefix();
    assert_eq!(prefix("^ab?").as_deref(), Some("a"));
    assert_eq!(prefix("^ab*c").as_deref(), Some("a"));
    assert_eq!(prefix("^ab{0,2}").as_deref(), Some("a"));
    assert_eq!(prefix("^ab+").as_deref(), Some("ab"));
    assert_eq!(prefix("^\\d+"), None);
    assert_eq!(prefix("^a\\w"), Some("a".to_string()));
    assert_eq!(prefix("^a\\.?"), Some("a".to_string()));
    assert_eq!(prefix("^ab|cd"), None);
    assert_eq!(prefix("^ab[|]"), None);
    let d = dict(&[("5x", 1), ("a", 2), ("ab", 3), ("b", 4), ("cd", 5)]);
    let q = RegexpQuery::new("f", "^\\d").unwrap();
    assert_eq!(texts(&q.enumerate_terms(&d)), vec!["5x"]);
    let q = RegexpQuery::new("f", "^ab?").unwrap();
    assert_eq!(texts(&q.enumerate_terms(&d)), vec!["a", "ab"]);
    let q = RegexpQuery::new("f", "^ab|cd").unwrap();
    assert_eq!(texts(&q.enumerate_terms(&d)), vec!["ab", "cd"]);
}
