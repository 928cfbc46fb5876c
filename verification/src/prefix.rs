//! Prefix queries: terms that start with a given prefix.

use vstd::prelude::*;
use vstd::string::StringExecFns;

use crate::multi_term::{
    disjunction_of, strings_view, term_texts, RewriteMethod, TermDisjunction, DEFAULT_BOOST_BITS,
};
use crate::seqs::{cap_of, lemma_filter_block, take_up_to};
use crate::terms::{stats_view, TermDictionary, TermStats};
use crate::text::{is_prefix, lemma_prefix_convex, lemma_prefix_not_before, owned, str_starts_with};

verus! {

/// The terms of `s` that start with `p`, in order.
pub open spec fn terms_with_prefix(s: Seq<(Seq<char>, u64)>, p: Seq<char>) -> Seq<(Seq<char>, u64)> {
    s.filter(|t: (Seq<char>, u64)| is_prefix(p, t.0))
}

/// A query that matches terms starting with a specific prefix.
#[derive(Debug, Clone)]
pub struct PrefixQuery {
    field: String,
    prefix: String,
    boost_bits: u32,
    rewrite_method: RewriteMethod,
}

impl PrefixQuery {
    /// The field searched.
    pub closed spec fn spec_field(&self) -> Seq<char> {
        self.field@
    }

    /// The prefix searched for.
    pub closed spec fn spec_prefix(&self) -> Seq<char> {
        self.prefix@
    }

    /// The boost, as IEEE 754 single-precision bits.
    pub closed spec fn spec_boost_bits(&self) -> u32 {
        self.boost_bits
    }

    /// The rewrite method.
    pub closed spec fn spec_rewrite_method(&self) -> RewriteMethod {
        self.rewrite_method
    }

    /// Create a new prefix query with boost 1.0 and the default rewrite
    /// method.
    pub fn new(field: &str, prefix: &str) -> (q: PrefixQuery)
        ensures
            q.spec_field() == field@,
            q.spec_prefix() == prefix@,
            q.spec_boost_bits() == DEFAULT_BOOST_BITS,
            q.spec_rewrite_method() == (RewriteMethod::TopTermsBlended { max_expansions: 50 }),
    {
        PrefixQuery {
            field: owned(field),
            prefix: owned(prefix),
            boost_bits: DEFAULT_BOOST_BITS,
            rewrite_method: RewriteMethod::default_method(),
        }
    }

    /// Set the boost factor, given as IEEE 754 single-precision bits.
    pub fn with_boost_bits(self, boost_bits: u32) -> (q: PrefixQuery)
        ensures
            q.spec_field() == self.spec_field(),
            q.spec_prefix() == self.spec_prefix(),
            q.spec_boost_bits() == boost_bits,
            q.spec_rewrite_method() == self.spec_rewrite_method(),
    {
        PrefixQuery { boost_bits, ..self }
    }

    /// Set the rewrite method.
    pub fn with_rewrite_method(self, rewrite_method: RewriteMethod) -> (q: PrefixQuery)
        ensures
            q.spec_field() == self.spec_field(),
            q.spec_prefix() == self.spec_prefix(),
            q.spec_boost_bits() == self.spec_boost_bits(),
            q.spec_rewrite_method() == rewrite_method,
    {
        PrefixQuery { rewrite_method, ..self }
    }

    /// Get the prefix.
    pub fn prefix(&self) -> (p: &str)
        ensures
            p@ == self.spec_prefix(),
    {
        self.prefix.as_str()
    }

    /// Get the field name.
    pub fn field(&self) -> (f: &str)
        ensures
            f@ == self.spec_field(),
    {
        self.field.as_str()
    }

    /// Get the boost, as IEEE 754 single-precision bits.
    pub fn boost_bits(&self) -> (b: u32)
        ensures
            b == self.spec_boost_bits(),
    {
        self.boost_bits
    }

    /// Get the rewrite method.
    pub fn rewrite_method(&self) -> (m: RewriteMethod)
        ensures
            m == self.spec_rewrite_method(),
    {
        self.rewrite_method
    }

    /// Whether the query has no prefix.
    pub fn is_empty(&self) -> (b: bool)
        ensures
            b == (self.spec_prefix().len() == 0),
    {
        self.prefix.as_str().is_empty()
    }

    /// A description of the query.
    pub fn description(&self) -> (d: String)
        ensures
            d@ == "PrefixQuery(field: "@ + self.spec_field() + ", prefix: "@ + self.spec_prefix()
                + ")"@,
    {
        let mut d = owned("PrefixQuery(field: ");
        d.append(self.field.as_str());
        d.append(", prefix: ");
        d.append(self.prefix.as_str());
        d.append(")");
        d
    }

    /// Enumerate the terms of the field's dictionary that start with the
    /// prefix, in dictionary order; under a rewrite method with a limit, at
    /// most the limit of them (the first ones).
    pub fn enumerate_terms(&self, dict: &TermDictionary) -> (r: Vec<TermStats>)
        requires
            dict.wf(),
        ensures
            stats_view(r@) == take_up_to(
                terms_with_prefix(dict@, self.spec_prefix()),
                cap_of(self.spec_rewrite_method().spec_max_expansions()),
            ),
    {
        let ghost s = dict@;
        let ghost p = self.prefix@;
        let ghost pred = |t: (Seq<char>, u64)| is_prefix(p, t.0);
        let limit = self.rewrite_method.max_expansions();
        let lb = dict.lower_bound(self.prefix.as_str());
        let mut results: Vec<TermStats> = Vec::new();
        let mut j: usize = lb;
        let mut full = false;
        assert(stats_view(results@) =~= s.subrange(lb as int, j as int));
        while j < dict.len()
            invariant_except_break
                lb <= j <= dict@.len(),
                s == dict@,
                dict.wf(),
                p == self.prefix@,
                stats_view(results@) == s.subrange(lb as int, j as int),
                forall|i: int| lb <= i < j ==> is_prefix(p, #[trigger] s[i].0),
                limit == self.rewrite_method.spec_max_expansions(),
                limit matches Some(l) ==> results@.len() <= l,
                !full,
            ensures
                lb <= j <= dict@.len(),
                stats_view(results@) == s.subrange(lb as int, j as int),
                forall|i: int| lb <= i < j ==> is_prefix(p, #[trigger] s[i].0),
                full ==> (limit matches Some(l) && results@.len() == l),
                !full ==> (j == s.len() || !is_prefix(p, s[j as int].0)),
                !full ==> (limit matches Some(l) ==> results@.len() <= l),
            decreases dict@.len() - j,
        {
            if let Some(l) = limit {
                if results.len() >= l {
                    full = true;
                    break;
                }
            }
            let t = dict.get(j);
            if !str_starts_with(t.term.as_str(), self.prefix.as_str()) {
                break;
            }
            let ghost old_results = results@;
            results.push(t.duplicate());
            assert(stats_view(results@) =~= stats_view(old_results).push(s[j as int]));
            assert(s.subrange(lb as int, j + 1) =~= s.subrange(lb as int, j as int).push(
                s[j as int],
            ));
            j = j + 1;
        }
        proof {
            // the matching terms form the block [lb, e) of the dictionary
            let e = block_end(s, p, lb as int, j as int);
            lemma_prefix_block(s, p, lb as int, e);
            lemma_filter_block(s, pred, lb as int, e);
            assert(terms_with_prefix(s, p) == s.subrange(lb as int, e));
            if full {
                assert(s.subrange(lb as int, e).take(j - lb) =~= s.subrange(lb as int, j as int));
            } else {
                assert(e == j);
            }
        }
        results
    }

    /// Rewrite into a disjunction of the matching terms.
    pub fn rewrite(&self, dict: &TermDictionary) -> (q: TermDisjunction)
        requires
            dict.wf(),
        ensures
            q.field@ == self.spec_field(),
            ({
                let m = take_up_to(
                    terms_with_prefix(dict@, self.spec_prefix()),
                    cap_of(self.spec_rewrite_method().spec_max_expansions()),
                );
                &&& strings_view(q.terms@) == term_texts(m)
                &&& q.boost_bits == if m.len() == 0 {
                    DEFAULT_BOOST_BITS
                } else {
                    self.spec_boost_bits()
                }
            }),
    {
        let matching = self.enumerate_terms(dict);
        disjunction_of(self.field.as_str(), self.boost_bits, &matching)
    }
}

/// In a sorted dictionary, the terms with prefix `p` are those from the
/// lower bound of `p` up to the first term after it without the prefix.
pub(crate) proof fn lemma_prefix_block(s: Seq<(Seq<char>, u64)>, p: Seq<char>, lb: int, e: int)
    requires
        crate::terms::strictly_sorted(s),
        crate::terms::is_lower_bound(s, p, lb),
        lb <= e <= s.len(),
        forall|i: int| lb <= i < e ==> is_prefix(p, #[trigger] s[i].0),
        e == s.len() || !is_prefix(p, s[e].0),
    ensures
        forall|i: int| 0 <= i < s.len() ==> (is_prefix(p, #[trigger] s[i].0) <==> lb <= i < e),
{
    assert forall|i: int| 0 <= i < s.len() implies (is_prefix(p, #[trigger] s[i].0) <==> lb <= i
        < e) by {
        if i < lb && is_prefix(p, s[i].0) {
            lemma_prefix_not_before(p, s[i].0);
        }
        if i > e && e < s.len() && is_prefix(p, s[i].0) {
            assert(crate::text::seq_lt(s[e].0, s[i].0));
            lemma_prefix_convex(p, s[e].0, s[i].0);
        }
    }
}

/// The end of the run of prefixed terms that starts at `lb` and reaches `j`.
pub(crate) proof fn block_end(s: Seq<(Seq<char>, u64)>, p: Seq<char>, lb: int, j: int) -> (e: int)
    requires
        lb <= j <= s.len(),
        forall|i: int| lb <= i < j ==> is_prefix(p, #[trigger] s[i].0),
    ensures
        j <= e <= s.len(),
        forall|i: int| lb <= i < e ==> is_prefix(p, #[trigger] s[i].0),
        e == s.len() || !is_prefix(p, s[e].0),
    decreases s.len() - j,
{
    if j == s.len() || !is_prefix(p, s[j].0) {
        j
    } else {
        block_end(s, p, lb, j + 1)
    }
}

} // verus!
