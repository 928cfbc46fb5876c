//! Regular-expression queries.

use vstd::prelude::*;
use vstd::string::StringExecFns;

use crate::multi_term::{
    disjunction_of, strings_view, term_texts, RewriteMethod, TermDisjunction, DEFAULT_BOOST_BITS,
};
use crate::pattern::{
    enumerate_pattern_terms, is_meta, is_meta_char, pattern_enumeration, pattern_is_valid,
    regex_accepts, regex_literal_text, PatternError,
};
use crate::terms::{stats_view, TermDictionary, TermStats};
use crate::text::{chars_of, owned, string_push};

verus! {

/// Characters that end the constant prefix of a regular expression.
pub open spec fn ends_literal(c: char) -> bool {
    c == '.' || c == '+' || c == '*' || c == '?' || c == '(' || c == ')' || c == '|' || c == '['
        || c == ']' || c == '{' || c == '}' || c == '^' || c == '$'
}

/// Whether `c`, after an item, lets that item occur zero times.
pub open spec fn may_skip(c: char) -> bool {
    c == '?' || c == '*' || c == '{'
}

/// The characters that every string matched from the start of `p` starts
/// with: the literal characters of `p` (a backslash escape of a character
/// that stands for itself counting as that character), up to the first
/// special character, an escape that stands for a class or an assertion,
/// or a character that a following `?`, `*` or `{` may skip.
pub open spec fn literal_run(p: Seq<char>) -> Seq<char>
    decreases p.len(),
{
    if p.len() == 0 {
        Seq::empty()
    } else if p[0] == '\\' {
        if p.len() >= 2 && is_meta_char(p[1]) && !(p.len() >= 3 && may_skip(p[2])) {
            seq![p[1]] + literal_run(p.skip(2))
        } else {
            Seq::empty()
        }
    } else if ends_literal(p[0]) || (p.len() >= 2 && may_skip(p[1])) {
        Seq::empty()
    } else {
        seq![p[0]] + literal_run(p.skip(1))
    }
}

/// The literal run of `s` is spelled by a run of literal characters at
/// the start of `s` (its first `k` characters), and no `?`, `*` or `{`
/// follows that run to make its last character optional.
pub proof fn lemma_literal_run_spelled(s: Seq<char>) -> (k: int)
    ensures
        0 <= k <= s.len(),
        regex_literal_text(s.take(k)) == Some(literal_run(s)),
        0 < k < s.len() ==> !(s[k] == '?' || s[k] == '*' || s[k] == '{'),
    decreases s.len(),
{
    if s.len() == 0 {
        assert(s.take(0) =~= Seq::<char>::empty());
        0
    } else if s[0] == '\\' {
        if s.len() >= 2 && is_meta_char(s[1]) && !(s.len() >= 3 && may_skip(s[2])) {
            let rest = s.skip(2);
            let k1 = lemma_literal_run_spelled(rest);
            let k = k1 + 2;
            let t = s.take(k);
            assert(t[0] == '\\' && t[1] == s[1]);
            assert(t.skip(2) =~= rest.take(k1));
            if 0 < k1 < rest.len() {
                assert(rest[k1] == s[k]);
            }
            k
        } else {
            assert(s.take(0) =~= Seq::<char>::empty());
            0
        }
    } else if ends_literal(s[0]) || (s.len() >= 2 && may_skip(s[1])) {
        assert(s.take(0) =~= Seq::<char>::empty());
        0
    } else {
        let rest = s.skip(1);
        let k1 = lemma_literal_run_spelled(rest);
        let k = k1 + 1;
        let t = s.take(k);
        assert(t[0] == s[0]);
        assert(t.skip(1) =~= rest.take(k1));
        if 0 < k1 < rest.len() {
            assert(rest[k1] == s[k]);
        }
        k
    }
}

/// The constant prefix of a pattern is spelled by the pattern itself: the
/// pattern starts with `^` and then a run of literal characters (no
/// metacharacter unescaped, no escape naming a class) whose text is the
/// prefix, and no `?`, `*` or `{` right after that run makes its last
/// character optional.
pub proof fn lemma_prefix_is_literal(p: Seq<char>)
    requires
        regexp_literal(p) is Some,
    ensures
        p.len() > 0 && p[0] == '^',
        exists|k: int|
            1 <= k <= p.len() && #[trigger] regex_literal_text(p.subrange(1, k)) == regexp_literal(p)
                && (1 < k < p.len() ==> !(p[k] == '?' || p[k] == '*' || p[k] == '{')),
{
    let s = p.skip(1);
    let k = lemma_literal_run_spelled(s);
    assert(p.subrange(1, k + 1) =~= s.take(k));
    if 0 < k < s.len() {
        assert(s[k] == p[k + 1]);
    }
    assert(regex_literal_text(p.subrange(1, k + 1)) == regexp_literal(p));
}

/// Whether `p`, read from nesting depth `depth`, has a `|` outside every
/// group (escaped characters skipped); a `)` at depth 0 leaves it at 0.
pub open spec fn alt_at_top(p: Seq<char>, depth: nat) -> bool
    decreases p.len(),
{
    if p.len() == 0 {
        false
    } else if p[0] == '\\' {
        if p.len() >= 2 {
            alt_at_top(p.skip(2), depth)
        } else {
            false
        }
    } else if p[0] == '(' {
        alt_at_top(p.skip(1), depth + 1)
    } else if p[0] == ')' {
        alt_at_top(p.skip(1), if depth > 0 { (depth - 1) as nat } else { 0 })
    } else if p[0] == '|' && depth == 0 {
        true
    } else {
        alt_at_top(p.skip(1), depth)
    }
}

/// Whether `p` may offer an alternative that need not start with its
/// literal run: a `|` outside every group, or any `|` in a pattern with a
/// character class (where a parenthesis may stand for itself).
pub open spec fn may_branch(p: Seq<char>) -> bool {
    alt_at_top(p, 0) || (p.contains('|') && p.contains('['))
}

/// The constant prefix of a pattern anchored by a leading `^`: its literal
/// run, when that is not empty and no alternative may skip it.
pub open spec fn regexp_literal(p: Seq<char>) -> Option<Seq<char>> {
    if p.len() > 0 && p[0] == '^' && !may_branch(p) && literal_run(p.skip(1)).len() > 0 {
        Some(literal_run(p.skip(1)))
    } else {
        None
    }
}

/// Whether `chars` holds `c`.
fn contains_char(chars: &Vec<char>, c: char) -> (b: bool)
    ensures
        b == chars@.contains(c),
{
    let mut k: usize = 0;
    while k < chars.len()
        invariant
            k <= chars.len(),
            forall|m: int| 0 <= m < k ==> chars@[m] != c,
        decreases chars.len() - k,
    {
        if chars[k] == c {
            assert(chars@[k as int] == c);
            return true;
        }
        k = k + 1;
    }
    false
}

/// Whether `chars` has a `|` outside every group.
fn top_level_alternation(chars: &Vec<char>) -> (b: bool)
    ensures
        b == alt_at_top(chars@, 0),
{
    let ghost p = chars@;
    let n = chars.len();
    let mut i: usize = 0;
    let mut depth: usize = 0;
    assert(p.skip(0) =~= p);
    while i < n
        invariant
            p == chars@,
            n == p.len(),
            i <= n,
            depth <= i,
            alt_at_top(p, 0) == alt_at_top(p.skip(i as int), depth as nat),
        decreases n - i,
    {
        let c = chars[i];
        let ghost rest = p.skip(i as int);
        assert(rest[0] == c);
        if c == '\\' {
            if i + 1 < n {
                assert(rest.skip(2) =~= p.skip(i + 2));
                i = i + 2;
            } else {
                return false;
            }
        } else if c == '(' {
            assert(rest.skip(1) =~= p.skip(i + 1));
            depth = depth + 1;
            i = i + 1;
        } else if c == ')' {
            assert(rest.skip(1) =~= p.skip(i + 1));
            if depth > 0 {
                depth = depth - 1;
            }
            i = i + 1;
        } else if c == '|' && depth == 0 {
            return true;
        } else {
            assert(rest.skip(1) =~= p.skip(i + 1));
            i = i + 1;
        }
    }
    assert(p.skip(i as int) =~= Seq::<char>::empty());
    false
}

/// A query that matches terms against a regular expression.
#[derive(Debug)]
pub struct RegexpQuery {
    field: String,
    pattern: String,
    boost_bits: u32,
    rewrite_method: RewriteMethod,
}

impl RegexpQuery {
    #[verifier::type_invariant]
    spec fn valid(self) -> bool {
        regex_accepts(self.pattern@)
    }

    /// The field searched.
    pub closed spec fn spec_field(&self) -> Seq<char> {
        self.field@
    }

    /// The regular expression.
    pub closed spec fn spec_pattern(&self) -> Seq<char> {
        self.pattern@
    }

    /// The boost, as IEEE 754 single-precision bits.
    pub closed spec fn spec_boost_bits(&self) -> u32 {
        self.boost_bits
    }

    /// The rewrite method.
    pub closed spec fn spec_rewrite_method(&self) -> RewriteMethod {
        self.rewrite_method
    }

    /// Create a new regexp query with boost 1.0 and the default rewrite
    /// method. Fails when the pattern is not a valid regular expression.
    pub fn new(field: &str, pattern: &str) -> (r: Result<RegexpQuery, PatternError>)
        ensures
            r is Ok <==> regex_accepts(pattern@),
            r matches Ok(q) ==> {
                &&& q.spec_field() == field@
                &&& q.spec_pattern() == pattern@
                &&& q.spec_boost_bits() == DEFAULT_BOOST_BITS
                &&& q.spec_rewrite_method() == (RewriteMethod::TopTermsBlended {
                    max_expansions: 50,
                })
            },
            r matches Err(e) ==> (e matches PatternError::InvalidRegexpPattern(p) && p@
                == pattern@),
    {
        if !pattern_is_valid(pattern) {
            return Err(PatternError::InvalidRegexpPattern(owned(pattern)));
        }
        Ok(
            RegexpQuery {
                field: owned(field),
                pattern: owned(pattern),
                boost_bits: DEFAULT_BOOST_BITS,
                rewrite_method: RewriteMethod::default_method(),
            },
        )
    }

    /// Set the boost factor, given as IEEE 754 single-precision bits.
    pub fn with_boost_bits(self, boost_bits: u32) -> (q: RegexpQuery)
        ensures
            q.spec_field() == self.spec_field(),
            q.spec_pattern() == self.spec_pattern(),
            q.spec_boost_bits() == boost_bits,
            q.spec_rewrite_method() == self.spec_rewrite_method(),
    {
        proof {
            use_type_invariant(&self);
        }
        RegexpQuery { boost_bits, ..self }
    }

    /// Set the rewrite method.
    pub fn with_rewrite_method(self, rewrite_method: RewriteMethod) -> (q: RegexpQuery)
        ensures
            q.spec_field() == self.spec_field(),
            q.spec_pattern() == self.spec_pattern(),
            q.spec_boost_bits() == self.spec_boost_bits(),
            q.spec_rewrite_method() == rewrite_method,
    {
        proof {
            use_type_invariant(&self);
        }
        RegexpQuery { rewrite_method, ..self }
    }

    /// Get the field name.
    pub fn field(&self) -> (f: &str)
        ensures
            f@ == self.spec_field(),
    {
        self.field.as_str()
    }

    /// Get the pattern.
    pub fn pattern(&self) -> (p: &str)
        ensures
            p@ == self.spec_pattern(),
    {
        self.pattern.as_str()
    }

    /// Get the boost, as IEEE 754 single-precision bits.
    pub fn boost_bits(&self) -> (b: u32)
        ensures
            b == self.spec_boost_bits(),
    {
        self.boost_bits
    }

    /// Get the rewrite method.
    pub fn rewrite_method(&self) -> (m: RewriteMethod)
        ensures
            m == self.spec_rewrite_method(),
    {
        self.rewrite_method
    }

    /// Whether the query has no pattern.
    pub fn is_empty(&self) -> (b: bool)
        ensures
            b == (self.spec_pattern().len() == 0),
    {
        self.pattern.as_str().is_empty()
    }

    /// A description of the query.
    pub fn description(&self) -> (d: String)
        ensures
            d@ == "RegexpQuery(field: "@ + self.spec_field() + ", pattern: "@ + self.spec_pattern()
                + ")"@,
    {
        let mut d = owned("RegexpQuery(field: ");
        d.append(self.field.as_str());
        d.append(", pattern: ");
        d.append(self.pattern.as_str());
        d.append(")");
        d
    }

    /// The constant prefix of the pattern, which narrows the term scan:
    /// the literal characters after a leading `^` that every match starts
    /// with.
    pub fn extract_prefix(&self) -> (r: Option<String>)
        ensures
            r matches Some(s) ==> regexp_literal(self.spec_pattern()) == Some(s@),
            r is None ==> regexp_literal(self.spec_pattern()) is None,
    {
        let chars = chars_of(self.pattern.as_str());
        let ghost p = self.pattern@;
        if chars.len() == 0 || chars[0] != '^' {
            return None;
        }
        if top_level_alternation(&chars) || (contains_char(&chars, '|') && contains_char(
            &chars,
            '[',
        )) {
            return None;
        }
        let mut prefix = String::new();
        let mut i: usize = 1;
        while i < chars.len()
            invariant
                chars@ == p,
                1 <= i <= chars.len(),
                literal_run(p.skip(1)) == prefix@ + literal_run(p.skip(i as int)),
            ensures
                literal_run(p.skip(1)) == prefix@ + literal_run(p.skip(i as int)),
                literal_run(p.skip(i as int)) == Seq::<char>::empty(),
            decreases chars.len() - i,
        {
            let c = chars[i];
            let ghost rest = p.skip(i as int);
            assert(rest[0] == c);
            if c == '\\' {
                if i + 1 < chars.len() && is_meta(chars[i + 1]) && !(i + 2 < chars.len() && (
                chars[i + 2] == '?' || chars[i + 2] == '*' || chars[i + 2] == '{')) {
                    assert(rest[1] == chars@[i + 1]);
                    assert(i + 2 < chars.len() ==> rest[2] == chars@[i + 2]);
                    assert(rest.skip(2) =~= p.skip(i + 2));
                    string_push(&mut prefix, chars[i + 1]);
                    i = i + 2;
                } else {
                    assert(i + 1 < chars.len() ==> rest[1] == chars@[i + 1]);
                    assert(i + 2 < chars.len() ==> rest[2] == chars@[i + 2]);
                    break;
                }
            } else if c == '.' || c == '+' || c == '*' || c == '?' || c == '(' || c == ')' || c
                == '|' || c == '[' || c == ']' || c == '{' || c == '}' || c == '^' || c == '$' || (
            i + 1 < chars.len() && (chars[i + 1] == '?' || chars[i + 1] == '*' || chars[i + 1]
                == '{')) {
                assert(i + 1 < chars.len() ==> rest[1] == chars@[i + 1]);
                break;
            } else {
                assert(i + 1 < chars.len() ==> rest[1] == chars@[i + 1]);
                assert(rest.skip(1) =~= p.skip(i + 1));
                string_push(&mut prefix, c);
                i = i + 1;
            }
        }
        if i == chars.len() {
            assert(p.skip(i as int) =~= Seq::<char>::empty());
        }
        assert(prefix@ + Seq::<char>::empty() =~= prefix@);
        if prefix.as_str().is_empty() {
            None
        } else {
            Some(prefix)
        }
    }

    /// Enumerate the terms of the field's dictionary that the pattern
    /// matches. When the pattern has a constant prefix, only the terms that
    /// start with it are scanned.
    pub fn enumerate_terms(&self, dict: &TermDictionary) -> (r: Vec<TermStats>)
        requires
            dict.wf(),
        ensures
            stats_view(r@) == pattern_enumeration(
                dict@,
                self.spec_pattern(),
                regexp_literal(self.spec_pattern()),
                self.spec_rewrite_method().spec_max_expansions(),
            ),
    {
        proof {
            use_type_invariant(self);
        }
        let limit = self.rewrite_method.max_expansions();
        match self.extract_prefix() {
            Some(prefix) => enumerate_pattern_terms(
                dict,
                self.pattern.as_str(),
                Some(prefix.as_str()),
                limit,
            ),
            None => enumerate_pattern_terms(dict, self.pattern.as_str(), None, limit),
        }
    }

    /// Rewrite into a disjunction of the matching terms.
    pub fn rewrite(&self, dict: &TermDictionary) -> (q: TermDisjunction)
        requires
            dict.wf(),
        ensures
            q.field@ == self.spec_field(),
            ({
                let m = pattern_enumeration(
                    dict@,
                    self.spec_pattern(),
                    regexp_literal(self.spec_pattern()),
                    self.spec_rewrite_method().spec_max_expansions(),
                );
                &&& strings_view(q.terms@) == term_texts(m)
                &&& q.boost_bits == if m.len() == 0 {
                    DEFAULT_BOOST_BITS
                } else {
                    self.spec_boost_bits()
                }
            }),
    {
        let matching = self.enumerate_terms(dict);
        disjunction_of(self.field.as_str(), self.boost_bits, &matching)
    }
}

} // verus!
