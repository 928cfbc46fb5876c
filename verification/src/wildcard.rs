//! Wildcard queries: `*` matches any run of characters, `?` exactly one,
//! and a backslash escapes the character after it.

use vstd::prelude::*;
use vstd::string::StringExecFns;

use crate::multi_term::{
    disjunction_of, strings_view, term_texts, RewriteMethod, TermDisjunction, DEFAULT_BOOST_BITS,
};
use crate::pattern::{
    enumerate_pattern_terms, is_meta, is_meta_char, pattern_enumeration, pattern_is_valid, pattern_matches,
    regex_literal_text,
    regex_accepts, regex_matches, PatternError,
};
use crate::terms::{stats_view, TermDictionary, TermStats};
use crate::text::{chars_of, owned, string_push};

verus! {

/// Characters that have a meaning in a regular expression and stand for
/// themselves in a wildcard pattern.
pub open spec fn is_regex_special(c: char) -> bool {
    c == '^' || c == '$' || c == '.' || c == '+' || c == '(' || c == ')' || c == '[' || c == ']'
        || c == '{' || c == '}' || c == '|'
}

/// The regular expression body for the wildcard pattern `p`.
pub open spec fn wildcard_body(p: Seq<char>) -> Seq<char>
    decreases p.len(),
{
    if p.len() == 0 {
        Seq::empty()
    } else if p[0] == '\\' {
        if p.len() >= 2 {
            seq!['\\', p[1]] + wildcard_body(p.skip(2))
        } else {
            seq!['\\']
        }
    } else if p[0] == '*' {
        seq!['.', '*'] + wildcard_body(p.skip(1))
    } else if p[0] == '?' {
        seq!['.'] + wildcard_body(p.skip(1))
    } else if is_regex_special(p[0]) {
        seq!['\\', p[0]] + wildcard_body(p.skip(1))
    } else {
        seq![p[0]] + wildcard_body(p.skip(1))
    }
}

/// The anchored regular expression for the wildcard pattern `p`.
pub open spec fn wildcard_regex(p: Seq<char>) -> Seq<char> {
    seq!['^'] + wildcard_body(p) + seq!['$']
}

/// A wildcard pattern without `*`, `?` or `\\` stands for its own text:
/// its regular expression is `^`, a run of literal characters that spells
/// the pattern (every character with a meaning in a regular expression
/// escaped), and `$`.
pub proof fn lemma_plain_pattern_is_literal(p: Seq<char>)
    requires
        forall|i: int| 0 <= i < p.len() ==> #[trigger] p[i] != '*' && p[i] != '?' && p[i] != '\\',
    ensures
        regex_literal_text(wildcard_body(p)) == Some(p),
        wildcard_regex(p) == seq!['^'] + wildcard_body(p) + seq!['$'],
    decreases p.len(),
{
    if p.len() > 0 {
        let rest = p.skip(1);
        assert forall|i: int| 0 <= i < rest.len() implies #[trigger] rest[i] != '*' && rest[i] != '?'
            && rest[i] != '\\' by {
            assert(rest[i] == p[i + 1]);
        }
        lemma_plain_pattern_is_literal(rest);
        let c = p[0];
        assert(c != '*' && c != '?' && c != '\\');
        let b = wildcard_body(p);
        if is_regex_special(c) {
            assert(b == seq!['\\', c] + wildcard_body(rest));
            assert(b.skip(2) =~= wildcard_body(rest));
            assert(b[0] == '\\' && b[1] == c);
        } else {
            assert(b == seq![c] + wildcard_body(rest));
            assert(b.skip(1) =~= wildcard_body(rest));
            assert(b[0] == c);
        }
        assert(seq![c] + rest =~= p);
    } else {
        assert(wildcard_body(p) =~= Seq::<char>::empty());
    }
}

/// In a wildcard pattern `*` stands for any run of characters (`.*`) and
/// `?` for any one character (`.`), wherever they stand; a backslash keeps
/// the character after it as it is.
pub proof fn lemma_wildcards_translate(a: Seq<char>, q: Seq<char>, c: char)
    requires
        forall|i: int| 0 <= i < a.len() ==> #[trigger] a[i] != '\\',
    ensures
        wildcard_body(a + seq!['*'] + q) == wildcard_body(a) + seq!['.', '*'] + wildcard_body(q),
        wildcard_body(a + seq!['?'] + q) == wildcard_body(a) + seq!['.'] + wildcard_body(q),
        wildcard_body(a + seq!['\\', c] + q) == wildcard_body(a) + seq!['\\', c] + wildcard_body(q),
    decreases a.len(),
{
    if a.len() == 0 {
        assert(a + seq!['*'] + q =~= seq!['*'] + q);
        assert((seq!['*'] + q).skip(1) =~= q);
        assert(a + seq!['?'] + q =~= seq!['?'] + q);
        assert((seq!['?'] + q).skip(1) =~= q);
        assert(a + seq!['\\', c] + q =~= seq!['\\', c] + q);
        assert((seq!['\\', c] + q).skip(2) =~= q);
        assert(wildcard_body(a) =~= Seq::<char>::empty());
        assert(Seq::<char>::empty() + seq!['.', '*'] + wildcard_body(q) =~= seq!['.', '*'] + wildcard_body(q));
        assert(Seq::<char>::empty() + seq!['.'] + wildcard_body(q) =~= seq!['.'] + wildcard_body(q));
        assert(Seq::<char>::empty() + seq!['\\', c] + wildcard_body(q) =~= seq!['\\', c] + wildcard_body(q));
    } else {
        let r = a.skip(1);
        assert forall|i: int| 0 <= i < r.len() implies #[trigger] r[i] != '\\' by {
            assert(r[i] == a[i + 1]);
        }
        lemma_wildcards_translate(r, q, c);
        assert(a[0] != '\\');
        assert((a + seq!['*'] + q).skip(1) =~= r + seq!['*'] + q);
        assert((a + seq!['?'] + q).skip(1) =~= r + seq!['?'] + q);
        assert((a + seq!['\\', c] + q).skip(1) =~= r + seq!['\\', c] + q);
        assert((a + seq!['*'] + q)[0] == a[0]);
        assert((a + seq!['?'] + q)[0] == a[0]);
        assert((a + seq!['\\', c] + q)[0] == a[0]);
        let h = if a[0] == '*' {
            seq!['.', '*']
        } else if a[0] == '?' {
            seq!['.']
        } else if is_regex_special(a[0]) {
            seq!['\\', a[0]]
        } else {
            seq![a[0]]
        };
        assert(wildcard_body(a) == h + wildcard_body(r));
        assert(wildcard_body(a + seq!['*'] + q) == h + wildcard_body(r + seq!['*'] + q));
        assert(wildcard_body(a + seq!['?'] + q) == h + wildcard_body(r + seq!['?'] + q));
        assert(wildcard_body(a + seq!['\\', c] + q) == h + wildcard_body(r + seq!['\\', c] + q));
        assert(h + (wildcard_body(r) + seq!['.', '*'] + wildcard_body(q)) =~= h + wildcard_body(r) + seq!['.', '*'] + wildcard_body(q));
        assert(h + (wildcard_body(r) + seq!['.'] + wildcard_body(q)) =~= h + wildcard_body(r) + seq!['.'] + wildcard_body(q));
        assert(h + (wildcard_body(r) + seq!['\\', c] + wildcard_body(q)) =~= h + wildcard_body(r) + seq!['\\', c] + wildcard_body(q));
    }
}

/// The characters that every term the pattern matches starts with: those
/// of `p` before the first `*`, `?` or `[`, with each escape of a
/// character that stands for itself replaced by that character; any other
/// escape ends the prefix, as the regular expression reads it as a class.
pub open spec fn wildcard_literal_prefix(p: Seq<char>) -> Seq<char>
    decreases p.len(),
{
    if p.len() == 0 || p[0] == '*' || p[0] == '?' || p[0] == '[' {
        Seq::empty()
    } else if p[0] == '\\' {
        if p.len() >= 2 && is_meta_char(p[1]) {
            seq![p[1]] + wildcard_literal_prefix(p.skip(2))
        } else {
            Seq::empty()
        }
    } else {
        seq![p[0]] + wildcard_literal_prefix(p.skip(1))
    }
}

/// The literal prefix that narrows the term scan, when it is not empty.
pub open spec fn wildcard_literal(p: Seq<char>) -> Option<Seq<char>> {
    if wildcard_literal_prefix(p).len() > 0 {
        Some(wildcard_literal_prefix(p))
    } else {
        None
    }
}

/// The anchored regular expression that a wildcard pattern stands for.
pub fn compile_pattern(pattern: &str) -> (r: String)
    ensures
        r@ == wildcard_regex(pattern@),
{
    let chars = chars_of(pattern);
    let ghost p = pattern@;
    let mut out = String::new();
    string_push(&mut out, '^');
    let mut i: usize = 0;
    assert(p.skip(0) =~= p);
    while i < chars.len()
        invariant
            chars@ == p,
            i <= chars.len(),
            seq!['^'] + wildcard_body(p) == out@ + wildcard_body(p.skip(i as int)),
        decreases chars.len() - i,
    {
        let c = chars[i];
        let ghost rest = p.skip(i as int);
        assert(rest[0] == c);
        if c == '\\' {
            if i + 1 < chars.len() {
                string_push(&mut out, '\\');
                string_push(&mut out, chars[i + 1]);
                assert(rest.skip(2) =~= p.skip(i + 2));
                assert(rest[1] == chars@[i + 1]);
                i = i + 2;
            } else {
                string_push(&mut out, '\\');
                assert(p.skip(i + 1) =~= Seq::<char>::empty());
                i = i + 1;
            }
        } else {
            if c == '*' {
                string_push(&mut out, '.');
                string_push(&mut out, '*');
            } else if c == '?' {
                string_push(&mut out, '.');
            } else if c == '^' || c == '$' || c == '.' || c == '+' || c == '(' || c == ')' || c
                == '[' || c == ']' || c == '{' || c == '}' || c == '|' {
                string_push(&mut out, '\\');
                string_push(&mut out, c);
            } else {
                string_push(&mut out, c);
            }
            assert(rest.skip(1) =~= p.skip(i + 1));
            i = i + 1;
        }
    }
    assert(p.skip(i as int) =~= Seq::<char>::empty());
    string_push(&mut out, '$');
    out
}

/// The literal prefix of a wildcard pattern.
pub fn literal_prefix(pattern: &str) -> (r: String)
    ensures
        r@ == wildcard_literal_prefix(pattern@),
{
    let chars = chars_of(pattern);
    let ghost p = pattern@;
    let mut i: usize = 0;
    let mut out = String::new();
    assert(p.skip(0) =~= p);
    while i < chars.len()
        invariant
            chars@ == p,
            i <= chars.len(),
            wildcard_literal_prefix(p) == out@ + wildcard_literal_prefix(p.skip(i as int)),
        ensures
            wildcard_literal_prefix(p) == out@ + wildcard_literal_prefix(p.skip(i as int)),
            wildcard_literal_prefix(p.skip(i as int)) == Seq::<char>::empty(),
        decreases chars.len() - i,
    {
        let c = chars[i];
        let ghost rest = p.skip(i as int);
        assert(rest[0] == c);
        if c == '*' || c == '?' || c == '[' {
            break;
        }
        if c == '\\' {
            if i + 1 < chars.len() && is_meta(chars[i + 1]) {
                assert(rest[1] == chars@[i + 1]);
                assert(rest.skip(2) =~= p.skip(i + 2));
                string_push(&mut out, chars[i + 1]);
                assert(wildcard_literal_prefix(rest) == seq![chars@[i + 1]] + wildcard_literal_prefix(p.skip(i + 2)));
                i = i + 2;
            } else {
                break;
            }
        } else {
            assert(rest.skip(1) =~= p.skip(i + 1));
            string_push(&mut out, c);
            i = i + 1;
        }
    }
    if i == chars.len() {
        assert(p.skip(i as int) =~= Seq::<char>::empty());
    }
    assert(out@ + Seq::<char>::empty() =~= out@);
    out
}

/// A query that matches terms against a wildcard pattern.
#[derive(Debug)]
pub struct WildcardQuery {
    field: String,
    pattern: String,
    regex: String,
    boost_bits: u32,
    rewrite_method: RewriteMethod,
}

impl WildcardQuery {
    #[verifier::type_invariant]
    spec fn compiled(self) -> bool {
        self.regex@ == wildcard_regex(self.pattern@) && regex_accepts(self.regex@)
    }

    /// The field searched.
    pub closed spec fn spec_field(&self) -> Seq<char> {
        self.field@
    }

    /// The wildcard pattern.
    pub closed spec fn spec_pattern(&self) -> Seq<char> {
        self.pattern@
    }

    /// The boost, as IEEE 754 single-precision bits.
    pub closed spec fn spec_boost_bits(&self) -> u32 {
        self.boost_bits
    }

    /// The rewrite method.
    pub closed spec fn spec_rewrite_method(&self) -> RewriteMethod {
        self.rewrite_method
    }

    /// Create a new wildcard query with boost 1.0 and the default rewrite
    /// method. Fails when the regular expression the pattern stands for is
    /// not valid.
    pub fn new(field: &str, pattern: &str) -> (r: Result<WildcardQuery, PatternError>)
        ensures
            r is Ok <==> regex_accepts(wildcard_regex(pattern@)),
            r matches Ok(q) ==> {
                &&& q.spec_field() == field@
                &&& q.spec_pattern() == pattern@
                &&& q.spec_boost_bits() == DEFAULT_BOOST_BITS
                &&& q.spec_rewrite_method() == (RewriteMethod::TopTermsBlended {
                    max_expansions: 50,
                })
            },
            r matches Err(e) ==> (e matches PatternError::InvalidWildcardPattern(p) && p@
                == pattern@),
    {
        let regex = compile_pattern(pattern);
        if !pattern_is_valid(regex.as_str()) {
            return Err(PatternError::InvalidWildcardPattern(owned(pattern)));
        }
        Ok(
            WildcardQuery {
                field: owned(field),
                pattern: owned(pattern),
                regex,
                boost_bits: DEFAULT_BOOST_BITS,
                rewrite_method: RewriteMethod::default_method(),
            },
        )
    }

    /// Set the boost factor, given as IEEE 754 single-precision bits.
    pub fn with_boost_bits(self, boost_bits: u32) -> (q: WildcardQuery)
        ensures
            q.spec_field() == self.spec_field(),
            q.spec_pattern() == self.spec_pattern(),
            q.spec_boost_bits() == boost_bits,
            q.spec_rewrite_method() == self.spec_rewrite_method(),
    {
        proof {
            use_type_invariant(&self);
        }
        WildcardQuery { boost_bits, ..self }
    }

    /// Set the rewrite method.
    pub fn with_rewrite_method(self, rewrite_method: RewriteMethod) -> (q: WildcardQuery)
        ensures
            q.spec_field() == self.spec_field(),
            q.spec_pattern() == self.spec_pattern(),
            q.spec_boost_bits() == self.spec_boost_bits(),
            q.spec_rewrite_method() == rewrite_method,
    {
        proof {
            use_type_invariant(&self);
        }
        WildcardQuery { rewrite_method, ..self }
    }

    /// Get the field name.
    pub fn field(&self) -> (f: &str)
        ensures
            f@ == self.spec_field(),
    {
        self.field.as_str()
    }

    /// Get the wildcard pattern.
    pub fn pattern(&self) -> (p: &str)
        ensures
            p@ == self.spec_pattern(),
    {
        self.pattern.as_str()
    }

    /// Get the boost, as IEEE 754 single-precision bits.
    pub fn boost_bits(&self) -> (b: u32)
        ensures
            b == self.spec_boost_bits(),
    {
        self.boost_bits
    }

    /// Get the rewrite method.
    pub fn rewrite_method(&self) -> (m: RewriteMethod)
        ensures
            m == self.spec_rewrite_method(),
    {
        self.rewrite_method
    }

    /// Whether the query has no pattern.
    pub fn is_empty(&self) -> (b: bool)
        ensures
            b == (self.spec_pattern().len() == 0),
    {
        self.pattern.as_str().is_empty()
    }

    /// A description of the query.
    pub fn description(&self) -> (d: String)
        ensures
            d@ == "WildcardQuery(field: "@ + self.spec_field() + ", pattern: "@
                + self.spec_pattern() + ")"@,
    {
        let mut d = owned("WildcardQuery(field: ");
        d.append(self.field.as_str());
        d.append(", pattern: ");
        d.append(self.pattern.as_str());
        d.append(")");
        d
    }

    /// Check if a term matches the wildcard pattern.
    pub fn matches(&self, term: &str) -> (b: bool)
        ensures
            b == regex_matches(wildcard_regex(self.spec_pattern()), term@),
    {
        proof {
            use_type_invariant(self);
        }
        pattern_matches(self.regex.as_str(), term)
    }

    /// Enumerate the terms of the field's dictionary that match the pattern.
    /// When the pattern starts with literal characters, only the terms that
    /// start with them are scanned.
    pub fn enumerate_terms(&self, dict: &TermDictionary) -> (r: Vec<TermStats>)
        requires
            dict.wf(),
        ensures
            stats_view(r@) == pattern_enumeration(
                dict@,
                wildcard_regex(self.spec_pattern()),
                wildcard_literal(self.spec_pattern()),
                self.spec_rewrite_method().spec_max_expansions(),
            ),
    {
        proof {
            use_type_invariant(self);
        }
        let prefix = literal_prefix(self.pattern.as_str());
        let limit = self.rewrite_method.max_expansions();
        if prefix.as_str().is_empty() {
            enumerate_pattern_terms(dict, self.regex.as_str(), None, limit)
        } else {
            enumerate_pattern_terms(dict, self.regex.as_str(), Some(prefix.as_str()), limit)
        }
    }

    /// Rewrite into a disjunction of the matching terms.
    pub fn rewrite(&self, dict: &TermDictionary) -> (q: TermDisjunction)
        requires
            dict.wf(),
        ensures
            q.field@ == self.spec_field(),
            ({
                let m = pattern_enumeration(
                    dict@,
                    wildcard_regex(self.spec_pattern()),
                    wildcard_literal(self.spec_pattern()),
                    self.spec_rewrite_method().spec_max_expansions(),
                );
                &&& strings_view(q.terms@) == term_texts(m)
                &&& q.boost_bits == if m.len() == 0 {
                    DEFAULT_BOOST_BITS
                } else {
                    self.spec_boost_bits()
                }
            }),
    {
        let matching = self.enumerate_terms(dict);
        disjunction_of(self.field.as_str(), self.boost_bits, &matching)
    }
}

} // verus!
