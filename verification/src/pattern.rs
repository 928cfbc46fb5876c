//! Regular-expression matching of terms, through the `regex` crate, and the
//! enumeration of the dictionary terms that a pattern matches.

use vstd::prelude::*;

use crate::prefix::{block_end, lemma_prefix_block, terms_with_prefix};
use crate::seqs::{cap_of, lemma_filter_block, lemma_filter_none, lemma_filter_push, lemma_limited_scan, take_up_to};
use crate::terms::{stats_view, TermDictionary, TermStats};
use crate::text::{is_prefix, str_starts_with};

verus! {

#[verifier::external_type_specification]
#[verifier::external_body]
pub struct ExRegexError(regex::Error);

/// Whether `regex::Regex::new` accepts `pattern`.
pub uninterp spec fn regex_accepts(pattern: Seq<char>) -> bool;

/// Whether `regex::Regex::is_match` finds a match of the compiled `pattern`
/// somewhere in `text`.
pub uninterp spec fn regex_matches(pattern: Seq<char>, text: Seq<char>) -> bool;

/// Compiles `pattern` with `regex::Regex::new` and, when that succeeds,
/// tests `text` with `Regex::is_match`. The contract claims that compiling
/// succeeds exactly for the patterns `regex_accepts` names, and that the
/// answer is `regex_matches` of the pattern and the text; both depend on the
/// pattern and text alone.
#[verifier::external_body]
pub(crate) fn regex_is_match(pattern: &str, text: &str) -> (r: Result<bool, regex::Error>)
    ensures
        r is Ok <==> regex_accepts(pattern@),
        r matches Ok(b) ==> b == regex_matches(pattern@, text@),
{
    match regex::Regex::new(pattern) {
        Ok(re) => Ok(re.is_match(text)),
        Err(e) => Err(e),
    }
}

/// Errors of building a pattern query.
#[derive(Debug, Clone)]
pub enum PatternError {
    /// The wildcard pattern does not become a valid regular expression.
    InvalidWildcardPattern(String),
    /// The regular expression is not valid.
    InvalidRegexpPattern(String),
}

/// Whether `regex` accepts `pattern`.
pub fn pattern_is_valid(pattern: &str) -> (b: bool)
    ensures
        b == regex_accepts(pattern@),
{
    regex_is_match(pattern, "").is_ok()
}

/// Whether the valid pattern matches the text.
pub fn pattern_matches(pattern: &str, text: &str) -> (b: bool)
    requires
        regex_accepts(pattern@),
    ensures
        b == regex_matches(pattern@, text@),
{
    match regex_is_match(pattern, text) {
        Ok(b) => b,
        Err(_) => false,
    }
}

/// The characters that a backslash escapes to themselves in a regular
/// expression: after a backslash, any other character names a class, an
/// assertion or a code point.
pub open spec fn is_meta_char(c: char) -> bool {
    c == '\\' || c == '.' || c == '+' || c == '*' || c == '?' || c == '(' || c == ')' || c == '|'
        || c == '[' || c == ']' || c == '{' || c == '}' || c == '^' || c == '$' || c == '#' || c
        == '&' || c == '-' || c == '~'
}

/// A backslash turns only punctuation into itself: an escaped letter or
/// digit names a class, an assertion or a code point instead.
pub proof fn lemma_meta_chars_are_punctuation(c: char)
    requires
        is_meta_char(c),
    ensures
        !('a' <= c <= 'z' || 'A' <= c <= 'Z' || '0' <= c <= '9'),
        c != ' ',
{
}

/// The characters with a meaning of their own in a regular expression
/// outside a character class.
pub open spec fn is_syntax_char(c: char) -> bool {
    c == '\\' || c == '.' || c == '+' || c == '*' || c == '?' || c == '(' || c == ')' || c == '|'
        || c == '[' || c == ']' || c == '{' || c == '}' || c == '^' || c == '$'
}

/// The text that the regular expression `r` stands for when `r` is a run
/// of literal characters: characters without a meaning of their own, and
/// metacharacters escaped by a backslash. `None` where `r` holds any other
/// syntax (an unescaped metacharacter, or an escape naming a class or an
/// assertion).
pub open spec fn regex_literal_text(r: Seq<char>) -> Option<Seq<char>>
    decreases r.len(),
{
    if r.len() == 0 {
        Some(Seq::empty())
    } else if r[0] == '\\' {
        if r.len() >= 2 && is_meta_char(r[1]) {
            match regex_literal_text(r.skip(2)) {
                Some(t) => Some(seq![r[1]] + t),
                None => None,
            }
        } else {
            None
        }
    } else if is_syntax_char(r[0]) {
        None
    } else {
        match regex_literal_text(r.skip(1)) {
            Some(t) => Some(seq![r[0]] + t),
            None => None,
        }
    }
}

/// Whether a backslash escapes `c` to itself.
pub fn is_meta(c: char) -> (b: bool)
    ensures
        b == is_meta_char(c),
{
    c == '\\' || c == '.' || c == '+' || c == '*' || c == '?' || c == '(' || c == ')' || c == '|'
        || c == '[' || c == ']' || c == '{' || c == '}' || c == '^' || c == '$' || c == '#' || c
        == '&' || c == '-' || c == '~'
}

/// Terms whose text the pattern matches.
pub open spec fn matched_by(pattern: Seq<char>) -> spec_fn((Seq<char>, u64)) -> bool {
    |t: (Seq<char>, u64)| regex_matches(pattern, t.0)
}

/// The terms a pattern enumeration looks at: with a literal prefix, the
/// terms that start with it; without one, every term.
pub open spec fn scan_candidates(s: Seq<(Seq<char>, u64)>, literal: Option<Seq<char>>) -> Seq<
    (Seq<char>, u64),
> {
    match literal {
        None => s,
        Some(p) => terms_with_prefix(s, p),
    }
}

/// The terms a pattern enumeration returns: those it looks at that the
/// pattern matches, in dictionary order, at most `limit` of them.
pub open spec fn pattern_enumeration(
    s: Seq<(Seq<char>, u64)>,
    pattern: Seq<char>,
    literal: Option<Seq<char>>,
    limit: Option<usize>,
) -> Seq<(Seq<char>, u64)> {
    take_up_to(scan_candidates(s, literal).filter(matched_by(pattern)), cap_of(limit))
}

/// Scan the dictionary from `from`, gathering the terms the pattern
/// matches; stop at the end, at a term without the literal prefix (if
/// there is one), or once `limit` terms are gathered. Returns the gathered
/// terms, where the scan ended, and whether it stopped at the limit.
fn scan_terms(
    dict: &TermDictionary,
    pattern: &str,
    literal: Option<&str>,
    from: usize,
    limit: Option<usize>,
) -> (r: (Vec<TermStats>, usize, bool))
    requires
        dict.wf(),
        regex_accepts(pattern@),
        from <= dict@.len(),
    ensures
        ({
            let (out, end, full) = r;
            let s = dict@;
            let seen = s.subrange(from as int, end as int);
            &&& from <= end <= s.len()
            &&& stats_view(out@) == seen.filter(matched_by(pattern@))
            &&& literal matches Some(p) ==> forall|i: int|
                from <= i < end ==> is_prefix(p@, #[trigger] s[i].0)
            &&& !full ==> (end == s.len() || (literal matches Some(p) && !is_prefix(
                p@,
                s[end as int].0,
            )))
            &&& !full ==> (limit matches Some(l) ==> out@.len() <= l)
            &&& full ==> (limit matches Some(l) && out@.len() == l)
        }),
{
    let ghost s = dict@;
    let ghost pred = matched_by(pattern@);
    let mut out: Vec<TermStats> = Vec::new();
    let mut j: usize = from;
    let mut full = false;
    proof {
        lemma_filter_none(s.subrange(from as int, from as int), pred);
    }
    assert(stats_view(out@) =~= s.subrange(from as int, from as int).filter(pred));
    while j < dict.len()
        invariant_except_break
            from <= j <= s.len(),
            s == dict@,
            dict.wf(),
            regex_accepts(pattern@),
            pred == matched_by(pattern@),
            stats_view(out@) == s.subrange(from as int, j as int).filter(pred),
            literal matches Some(p) ==> forall|i: int|
                from <= i < j ==> is_prefix(p@, #[trigger] s[i].0),
            limit matches Some(l) ==> out@.len() <= l,
            !full,
        ensures
            from <= j <= s.len(),
            stats_view(out@) == s.subrange(from as int, j as int).filter(pred),
            literal matches Some(p) ==> forall|i: int|
                from <= i < j ==> is_prefix(p@, #[trigger] s[i].0),
            !full ==> (j == s.len() || (literal matches Some(p) && !is_prefix(p@, s[j as int].0))),
            !full ==> (limit matches Some(l) ==> out@.len() <= l),
            full ==> (limit matches Some(l) && out@.len() == l),
        decreases s.len() - j,
    {
        if let Some(l) = limit {
            if out.len() >= l {
                full = true;
                break;
            }
        }
        let t = dict.get(j);
        if let Some(p) = literal {
            if !str_starts_with(t.term.as_str(), p) {
                break;
            }
        }
        let ghost before = stats_view(out@);
        let ghost sub = s.subrange(from as int, j as int);
        if pattern_matches(pattern, t.term.as_str()) {
            out.push(t.duplicate());
        }
        proof {
            assert(s.subrange(from as int, j + 1) =~= sub.push(s[j as int]));
            lemma_filter_push(sub, s[j as int], pred);
            if pred(s[j as int]) {
                assert(stats_view(out@) =~= before.push(s[j as int]));
            } else {
                assert(stats_view(out@) =~= before);
            }
        }
        j = j + 1;
    }
    (out, j, full)
}

/// The terms of the dictionary that the valid regular expression `pattern`
/// matches, in dictionary order, at most `limit` of them. With a literal
/// prefix, only the terms that start with it are looked at: the scan starts
/// at the first term that does not come before it and stops at the first
/// term without it.
pub fn enumerate_pattern_terms(
    dict: &TermDictionary,
    pattern: &str,
    literal: Option<&str>,
    limit: Option<usize>,
) -> (r: Vec<TermStats>)
    requires
        dict.wf(),
        regex_accepts(pattern@),
    ensures
        stats_view(r@) == pattern_enumeration(
            dict@,
            pattern@,
            match literal {
                Some(p) => Some(p@),
                None => None,
            },
            limit,
        ),
{
    let ghost s = dict@;
    let ghost pred = matched_by(pattern@);
    match literal {
        Some(p) => {
            let lb = dict.lower_bound(p);
            let (out, end, full) = scan_terms(dict, pattern, literal, lb, limit);
            proof {
                let pp = |t: (Seq<char>, u64)| is_prefix(p@, t.0);
                let e = block_end(s, p@, lb as int, end as int);
                lemma_prefix_block(s, p@, lb as int, e);
                lemma_filter_block(s, pp, lb as int, e);
                let b = s.subrange(lb as int, e);
                assert(terms_with_prefix(s, p@) == b);
                if !full {
                    assert(e == end);
                }
                assert(b.take(end - lb) =~= s.subrange(lb as int, end as int));
                lemma_limited_scan(b, end - lb, pred, limit, full);
            }
            out
        },
        None => {
            let (out, end, full) = scan_terms(dict, pattern, None, 0, limit);
            proof {
                assert(s.take(end as int) =~= s.subrange(0, end as int));
                lemma_limited_scan(s, end as int, pred, limit, full);
            }
            out
        },
    }
}

} // verus!
