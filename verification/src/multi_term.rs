//! Rewrite strategies of multi-term queries and the selection of the terms
//! that a multi-term query expands to.

use vstd::prelude::*;
use vstd::multiset::Multiset;

use crate::terms::{stats_view, TermStats};
use crate::text::{lemma_seq_lt_irreflexive, lemma_seq_lt_total, lemma_seq_lt_transitive, seq_lt, str_lt};

verus! {

/// Rewrite strategies for multi-term queries.
///
/// These strategies determine how a multi-term query is converted into a
/// simpler query for execution: a boolean query with one term clause per
/// matching term.
#[derive(Debug, Clone, Copy, PartialEq, Eq, Structural)]
pub enum RewriteMethod {
    /// Collect the top N terms by score, then create a boolean query.
    TopTermsScoring { max_expansions: usize },
    /// Collect the top N terms by document frequency.
    TopTermsBlended { max_expansions: usize },
    /// All matching terms get a constant score equal to the query boost.
    ConstantScore,
    /// A boolean query with all matching terms.
    BooleanQuery,
}

impl RewriteMethod {
    /// The limit on expanded terms that this method sets, if any.
    pub open spec fn spec_max_expansions(self) -> Option<usize> {
        match self {
            RewriteMethod::TopTermsScoring { max_expansions } => Some(max_expansions),
            RewriteMethod::TopTermsBlended { max_expansions } => Some(max_expansions),
            RewriteMethod::ConstantScore => None,
            RewriteMethod::BooleanQuery => None,
        }
    }

    /// The default method: top terms blended, at most 50 terms.
    pub fn default_method() -> (m: RewriteMethod)
        ensures
            m == (RewriteMethod::TopTermsBlended { max_expansions: 50 }),
    {
        RewriteMethod::TopTermsBlended { max_expansions: 50 }
    }

    /// Get the maximum number of terms to expand to, if applicable.
    pub fn max_expansions(&self) -> (r: Option<usize>)
        ensures
            r == self.spec_max_expansions(),
    {
        match self {
            RewriteMethod::TopTermsScoring { max_expansions } => Some(*max_expansions),
            RewriteMethod::TopTermsBlended { max_expansions } => Some(*max_expansions),
            RewriteMethod::ConstantScore => None,
            RewriteMethod::BooleanQuery => None,
        }
    }

    /// Check if this rewrite method uses constant scoring.
    pub fn is_constant_score(&self) -> (b: bool)
        ensures
            b == (*self == RewriteMethod::ConstantScore),
    {
        match self {
            RewriteMethod::ConstantScore => true,
            _ => false,
        }
    }

    /// Check if this rewrite method limits the number of expanded terms.
    pub fn is_top_terms(&self) -> (b: bool)
        ensures
            b == (self is TopTermsScoring || self is TopTermsBlended),
            b == self.spec_max_expansions() is Some,
    {
        match self {
            RewriteMethod::TopTermsScoring { .. } => true,
            RewriteMethod::TopTermsBlended { .. } => true,
            _ => false,
        }
    }
}

impl Default for RewriteMethod {
    fn default() -> (m: RewriteMethod)
        ensures
            m == (RewriteMethod::TopTermsBlended { max_expansions: 50 }),
    {
        RewriteMethod::default_method()
    }
}

/// The order in which top-terms collection ranks terms: `a` ranks below `b`
/// when `a` occurs in more documents, or in as many and its text comes
/// first.
pub open spec fn rank_lt(a: (Seq<char>, u64), b: (Seq<char>, u64)) -> bool {
    a.1 > b.1 || (a.1 == b.1 && seq_lt(a.0, b.0))
}

/// `a` does not rank above `b`.
pub open spec fn rank_le(a: (Seq<char>, u64), b: (Seq<char>, u64)) -> bool {
    !rank_lt(b, a)
}

/// The sequence ascends in rank.
pub open spec fn rank_sorted(s: Seq<(Seq<char>, u64)>) -> bool {
    forall|i: int, j: int| 0 <= i < j < s.len() ==> rank_le(#[trigger] s[i], #[trigger] s[j])
}

/// `top` holds the `k` highest-ranked terms of `all` (all of them when
/// there are fewer), ascending in rank: what remains of `all` without `top`
/// ranks nowhere above any term of `top`.
pub open spec fn is_top_k(
    all: Seq<(Seq<char>, u64)>,
    k: int,
    top: Seq<(Seq<char>, u64)>,
) -> bool {
    &&& top.len() == if all.len() < k { all.len() as int } else { k }
    &&& rank_sorted(top)
    &&& exists|rest: Seq<(Seq<char>, u64)>|
        {
            &&& #[trigger] rest.to_multiset().add(top.to_multiset()) == all.to_multiset()
            &&& forall|i: int, j: int|
                0 <= i < rest.len() && 0 <= j < top.len() ==> rank_le(
                    #[trigger] rest[i],
                    #[trigger] top[j],
                )
        }
}

proof fn lemma_rank_transitive(a: (Seq<char>, u64), b: (Seq<char>, u64), c: (Seq<char>, u64))
    ensures
        rank_lt(a, b) && rank_lt(b, c) ==> rank_lt(a, c),
        rank_le(a, b) && rank_le(b, c) ==> rank_le(a, c),
        rank_lt(a, b) && rank_le(b, c) ==> rank_lt(a, c),
        rank_le(a, b) && rank_lt(b, c) ==> rank_lt(a, c),
{
    lemma_rank_total(a, b);
    lemma_rank_total(b, c);
    lemma_rank_total(a, c);
    if a.1 == b.1 && b.1 == c.1 {
        if seq_lt(a.0, b.0) && seq_lt(b.0, c.0) {
            lemma_seq_lt_transitive(a.0, b.0, c.0);
        }
        if seq_lt(b.0, a.0) && seq_lt(c.0, b.0) {
            lemma_seq_lt_transitive(c.0, b.0, a.0);
        }
        if a.0 == b.0 || b.0 == c.0 {
            lemma_seq_lt_irreflexive(a.0);
        }
    }
}

proof fn lemma_rank_total(a: (Seq<char>, u64), b: (Seq<char>, u64))
    ensures
        rank_le(a, b) || rank_le(b, a),
        !(rank_lt(a, b) && rank_lt(b, a)),
        !rank_lt(a, a),
        rank_le(a, b) && rank_le(b, a) ==> a == b,
        rank_lt(a, b) ==> rank_le(a, b),
{
    lemma_seq_lt_total(a.0, b.0);
    lemma_seq_lt_irreflexive(a.0);
}

/// Insert `t` into the rank-ascending `v`, after the terms that do not rank
/// above it.
fn insert_ranked(v: &mut Vec<TermStats>, t: TermStats)
    requires
        rank_sorted(stats_view(old(v)@)),
    ensures
        final(v)@.len() == old(v)@.len() + 1,
        rank_sorted(stats_view(final(v)@)),
        stats_view(final(v)@).to_multiset() == stats_view(old(v)@).to_multiset().insert(t@),
{
    let ghost s = stats_view(v@);
    let mut p: usize = 0;
    while p < v.len()
        invariant
            p <= v.len(),
            s == stats_view(v@),
            rank_sorted(s),
            forall|q: int| 0 <= q < p ==> rank_le(#[trigger] s[q], t@),
        ensures
            p <= v.len(),
            s == stats_view(v@),
            forall|q: int| 0 <= q < p ==> rank_le(#[trigger] s[q], t@),
            p < v.len() ==> rank_lt(t@, s[p as int]),
        decreases v.len() - p,
    {
        let below = v[p].doc_freq > t.doc_freq || (v[p].doc_freq == t.doc_freq && !str_lt(
            t.term.as_str(),
            v[p].term.as_str(),
        ));
        // v[p] ranks at or below t exactly when t does not rank below v[p]
        proof {
            lemma_rank_total(s[p as int], t@);
            lemma_seq_lt_total(t@.0, s[p as int].0);
        }
        if !below {
            assert(rank_lt(t@, s[p as int]));
            break;
        }
        assert(rank_le(s[p as int], t@));
        p = p + 1;
    }
    proof {
        if p < s.len() {
            assert(rank_lt(t@, s[p as int]));
        }
    }
    let ghost tv = t@;
    v.insert(p, t);
    proof {
        let ns = stats_view(v@);
        assert(ns =~= s.insert(p as int, tv));
        s.insert_ensures(p as int, tv);
        vstd::seq_lib::to_multiset_insert(s, p as int, tv);
        assert forall|i: int, j: int| 0 <= i < j < ns.len() implies rank_le(
            #[trigger] ns[i],
            #[trigger] ns[j],
        ) by {
            if j < p {
            } else if j == p {
                assert(rank_le(s[i], tv));
            } else if i < p {
                lemma_rank_transitive(s[i], tv, s[j - 1]);
                assert(rank_lt(tv, s[p as int]));
                lemma_rank_transitive(tv, s[p as int], s[j - 1]);
                lemma_rank_total(tv, s[j - 1]);
            } else if i == p {
                lemma_rank_transitive(tv, s[p as int], s[j - 1]);
                lemma_rank_total(tv, s[p as int]);
                lemma_rank_total(tv, s[j - 1]);
            } else {
            }
        }
    }
}

/// Keep the `max_expansions` highest-ranked terms of an enumeration: the
/// terms in the fewest documents, and among terms in as many documents the
/// ones whose text comes last. They come back ascending in rank, that is
/// from the most frequent to the least frequent.
pub fn collect_top_terms(terms: Vec<TermStats>, max_expansions: usize) -> (top: Vec<TermStats>)
    ensures
        is_top_k(stats_view(terms@), max_expansions as int, stats_view(top@)),
{
    let mut sorted: Vec<TermStats> = Vec::new();
    let mut i: usize = 0;
    let ghost all = stats_view(terms@);
    assert(all.take(0) =~= stats_view(sorted@));
    while i < terms.len()
        invariant
            i <= terms.len(),
            all == stats_view(terms@),
            rank_sorted(stats_view(sorted@)),
            stats_view(sorted@).to_multiset() == all.take(i as int).to_multiset(),
            stats_view(sorted@).len() == i,
        decreases terms.len() - i,
    {
        insert_ranked(&mut sorted, terms[i].duplicate());
        proof {
            assert(all.take(i + 1) =~= all.take(i as int).push(all[i as int]));
            vstd::seq_lib::to_multiset_build(all.take(i as int), all[i as int]);
            vstd::seq_lib::to_multiset_len(stats_view(sorted@));
            vstd::seq_lib::to_multiset_len(all.take(i + 1));
        }
        i = i + 1;
    }
    assert(all.take(terms.len() as int) =~= all);
    let n = sorted.len();
    let keep = if n < max_expansions { n } else { max_expansions };
    let top = copy_from(&sorted, n - keep);
    proof {
        vstd::seq_lib::to_multiset_len(all);
        vstd::seq_lib::to_multiset_len(stats_view(sorted@));
        lemma_suffix_is_top_k(stats_view(sorted@), all, max_expansions as int);
    }
    top
}

/// Copies of the terms of `v` from position `from` on.
fn copy_from(v: &Vec<TermStats>, from: usize) -> (r: Vec<TermStats>)
    requires
        from <= v.len(),
    ensures
        stats_view(r@) == stats_view(v@).subrange(from as int, v@.len() as int),
{
    let mut r: Vec<TermStats> = Vec::new();
    let mut j: usize = from;
    assert(stats_view(r@) =~= stats_view(v@).subrange(from as int, from as int));
    while j < v.len()
        invariant
            from <= j <= v.len(),
            stats_view(r@) == stats_view(v@).subrange(from as int, j as int),
        decreases v.len() - j,
    {
        let ghost old_r = r@;
        let t = v[j].duplicate();
        r.push(t);
        assert(stats_view(r@) =~= stats_view(old_r).push(t@));
        assert(stats_view(v@).subrange(from as int, j + 1) =~= stats_view(v@).subrange(
            from as int,
            j as int,
        ).push(stats_view(v@)[j as int]));
        j = j + 1;
    }
    r
}

/// The last `k` terms of a rank-ascending permutation of `all` are its top
/// `k` terms.
#[verifier::rlimit(40)]
proof fn lemma_suffix_is_top_k(ss: Seq<(Seq<char>, u64)>, all: Seq<(Seq<char>, u64)>, k: int)
    requires
        rank_sorted(ss),
        ss.to_multiset() == all.to_multiset(),
        ss.len() == all.len(),
        k >= 0,
    ensures
        is_top_k(all, k, ss.subrange(ss.len() - (if ss.len() < k { ss.len() as int } else { k }), ss.len() as int)),
{
    let n = ss.len() as int;
    let keep = if n < k { n } else { k };
    let tv = ss.subrange(n - keep, n);
    let rest = ss.subrange(0, n - keep);
    assert(ss =~= rest + tv);
    vstd::seq_lib::lemma_multiset_commutative(rest, tv);
    assert forall|a: int, b: int| 0 <= a < b < tv.len() implies rank_le(
        #[trigger] tv[a],
        #[trigger] tv[b],
    ) by {
        assert(tv[a] == ss[n - keep + a]);
        assert(tv[b] == ss[n - keep + b]);
    }
    assert forall|a: int, b: int| 0 <= a < rest.len() && 0 <= b < tv.len() implies rank_le(
        #[trigger] rest[a],
        #[trigger] tv[b],
    ) by {
        assert(rest[a] == ss[a]);
        assert(tv[b] == ss[n - keep + b]);
    }
    assert(rest.to_multiset().add(tv.to_multiset()) == all.to_multiset());
    assert(tv.len() == keep);
    assert({
        &&& rest.to_multiset().add(tv.to_multiset()) == all.to_multiset()
        &&& forall|i: int, j: int|
            0 <= i < rest.len() && 0 <= j < tv.len() ==> rank_le(#[trigger] rest[i], #[trigger] tv[j])
    });
}

/// The terms a multi-term query expands to when a terms enumeration
/// supplies them: the top terms for the top-terms methods, all terms in
/// enumeration order otherwise.
pub fn rewrite_terms_from_enum(method: RewriteMethod, terms: Vec<TermStats>) -> (r: Vec<TermStats>)
    ensures
        method.spec_max_expansions() matches Some(k) ==> is_top_k(
            stats_view(terms@),
            k as int,
            stats_view(r@),
        ),
        method.spec_max_expansions() is None ==> r@ == terms@,
{
    match method {
        RewriteMethod::TopTermsScoring { max_expansions } => collect_top_terms(terms, max_expansions),
        RewriteMethod::TopTermsBlended { max_expansions } => collect_top_terms(terms, max_expansions),
        _ => terms,
    }
}


/// The boost 1.0, as the bits of an IEEE 754 single-precision number.
pub const DEFAULT_BOOST_BITS: u32 = 0x3F80_0000u32;

/// What a multi-term query rewrites to: a boolean query whose clauses are
/// optional term queries, one per expanded term, on one field. With no
/// terms it matches nothing.
#[derive(Debug, Clone)]
pub struct TermDisjunction {
    /// The field of every term clause.
    pub field: String,
    /// The expanded terms, in clause order.
    pub terms: Vec<String>,
    /// The boost of the boolean query, as IEEE 754 single-precision bits.
    pub boost_bits: u32,
}

/// The texts of a sequence of term statistics.
pub open spec fn term_texts(s: Seq<(Seq<char>, u64)>) -> Seq<Seq<char>> {
    s.map_values(|t: (Seq<char>, u64)| t.0)
}

/// The views of a sequence of strings.
pub open spec fn strings_view(s: Seq<String>) -> Seq<Seq<char>> {
    s.map_values(|t: String| t@)
}

/// Build the rewritten query of a multi-term query from its matching terms:
/// an empty boolean query (default boost) when there are none, else one
/// optional clause per term and the query's boost.
pub fn disjunction_of(field: &str, boost_bits: u32, matching: &Vec<TermStats>) -> (q: TermDisjunction)
    ensures
        q.field@ == field@,
        strings_view(q.terms@) == term_texts(stats_view(matching@)),
        q.boost_bits == if matching@.len() == 0 {
            DEFAULT_BOOST_BITS
        } else {
            boost_bits
        },
{
    let mut terms: Vec<String> = Vec::new();
    let mut i: usize = 0;
    while i < matching.len()
        invariant
            i <= matching.len(),
            strings_view(terms@) == term_texts(stats_view(matching@)).take(i as int),
        decreases matching.len() - i,
    {
        let ghost old_terms = terms@;
        terms.push(matching[i].term.clone());
        assert(strings_view(terms@) =~= strings_view(old_terms).push(matching@[i as int].term@));
        assert(term_texts(stats_view(matching@)).take(i + 1) =~= term_texts(
            stats_view(matching@),
        ).take(i as int).push(matching@[i as int].term@));
        i = i + 1;
    }
    assert(term_texts(stats_view(matching@)).take(matching@.len() as int) =~= term_texts(
        stats_view(matching@),
    ));
    let boost = if matching.len() == 0 {
        DEFAULT_BOOST_BITS
    } else {
        boost_bits
    };
    TermDisjunction { field: crate::text::owned(field), terms, boost_bits: boost }
}

} // verus!
