//! Term dictionaries and term enumerations.
//!
//! A [`TermDictionary`] holds the terms of one field in strictly increasing
//! lexicographic order, each with its document frequency. A [`TermsEnum`]
//! walks it like a cursor; a [`PrefixTermsEnum`] restricts the walk to the
//! terms that start with a prefix.

use vstd::prelude::*;

use crate::text::{
    is_prefix, lemma_seq_lt_total, lemma_seq_lt_transitive, seq_lt, str_eq, str_lt, str_starts_with,
};

verus! {

/// A term with the number of documents that contain it.
#[derive(Debug, Clone)]
pub struct TermStats {
    /// The term text.
    pub term: String,
    /// Number of documents containing the term.
    pub doc_freq: u64,
}

impl View for TermStats {
    type V = (Seq<char>, u64);

    open spec fn view(&self) -> (Seq<char>, u64) {
        (self.term@, self.doc_freq)
    }
}

impl TermStats {
    /// Create term statistics.
    pub fn new(term: String, doc_freq: u64) -> (t: TermStats)
        ensures
            t.term == term,
            t.doc_freq == doc_freq,
    {
        TermStats { term, doc_freq }
    }

    /// A copy of these statistics.
    pub fn duplicate(&self) -> (t: TermStats)
        ensures
            t@ == self@,
    {
        TermStats { term: self.term.clone(), doc_freq: self.doc_freq }
    }
}

/// The views of a sequence of term statistics.
pub open spec fn stats_view(s: Seq<TermStats>) -> Seq<(Seq<char>, u64)> {
    s.map_values(|t: TermStats| t@)
}

/// Terms strictly increase along the sequence.
pub open spec fn strictly_sorted(s: Seq<(Seq<char>, u64)>) -> bool {
    forall|i: int, j: int| 0 <= i < j < s.len() ==> seq_lt(#[trigger] s[i].0, #[trigger] s[j].0)
}

/// The number of terms of `s` that come strictly before `target`, when `s`
/// is strictly sorted: the position at which `target` is, or would be.
pub open spec fn is_lower_bound(s: Seq<(Seq<char>, u64)>, target: Seq<char>, pos: int) -> bool {
    &&& 0 <= pos <= s.len()
    &&& forall|i: int| 0 <= i < pos ==> seq_lt(#[trigger] s[i].0, target)
    &&& forall|i: int| pos <= i < s.len() ==> !seq_lt(#[trigger] s[i].0, target)
}

/// The terms of one field, strictly increasing.
#[derive(Debug, Clone)]
pub struct TermDictionary {
    terms: Vec<TermStats>,
}

impl View for TermDictionary {
    type V = Seq<(Seq<char>, u64)>;

    closed spec fn view(&self) -> Seq<(Seq<char>, u64)> {
        stats_view(self.terms@)
    }
}

impl TermDictionary {
    /// The terms strictly increase.
    pub open spec fn wf(&self) -> bool {
        strictly_sorted(self@)
    }

    /// An empty dictionary.
    pub fn new() -> (d: TermDictionary)
        ensures
            d.wf(),
            d@ == Seq::<(Seq<char>, u64)>::empty(),
    {
        let d = TermDictionary { terms: Vec::new() };
        assert(stats_view(d.terms@) =~= Seq::<(Seq<char>, u64)>::empty());
        d
    }

    /// A dictionary of the given terms, which must strictly increase;
    /// `None` when they do not.
    pub fn from_sorted(terms: Vec<TermStats>) -> (d: Option<TermDictionary>)
        ensures
            d is Some <==> strictly_sorted(stats_view(terms@)),
            d matches Some(d) ==> d@ == stats_view(terms@) && d.wf(),
    {
        let mut i: usize = 1;
        if terms.len() == 0 {
            let d = TermDictionary { terms };
            return Some(d);
        }
        while i < terms.len()
            invariant
                1 <= i <= terms.len(),
                forall|a: int, b: int|
                    0 <= a < b < i ==> seq_lt(
                        #[trigger] stats_view(terms@)[a].0,
                        #[trigger] stats_view(terms@)[b].0,
                    ),
            decreases terms.len() - i,
        {
            if !str_lt(terms[i - 1].term.as_str(), terms[i].term.as_str()) {
                assert(!seq_lt(
                    stats_view(terms@)[i - 1].0,
                    stats_view(terms@)[i as int].0,
                ));
                return None;
            }
            assert forall|a: int, b: int| 0 <= a < b < i + 1 implies seq_lt(
                #[trigger] stats_view(terms@)[a].0,
                #[trigger] stats_view(terms@)[b].0,
            ) by {
                if b == i && a < i - 1 {
                    lemma_seq_lt_transitive(
                        stats_view(terms@)[a].0,
                        stats_view(terms@)[i - 1].0,
                        stats_view(terms@)[b].0,
                    );
                }
            }
            i = i + 1;
        }
        Some(TermDictionary { terms })
    }

    /// Number of terms.
    pub fn len(&self) -> (n: usize)
        ensures
            n == self@.len(),
    {
        self.terms.len()
    }

    /// The statistics of the term at position `i`.
    pub fn get(&self, i: usize) -> (t: &TermStats)
        requires
            i < self@.len(),
        ensures
            t@ == self@[i as int],
    {
        &self.terms[i]
    }

    /// The position of the first term that does not come before `target`.
    pub fn lower_bound(&self, target: &str) -> (pos: usize)
        requires
            self.wf(),
        ensures
            is_lower_bound(self@, target@, pos as int),
    {
        let mut lo: usize = 0;
        let mut hi: usize = self.terms.len();
        while lo < hi
            invariant
                0 <= lo <= hi <= self.terms.len(),
                strictly_sorted(self@),
                self@ == stats_view(self.terms@),
                forall|i: int| 0 <= i < lo ==> seq_lt(#[trigger] self@[i].0, target@),
                forall|i: int| hi <= i < self@.len() ==> !seq_lt(#[trigger] self@[i].0, target@),
            decreases hi - lo,
        {
            let mid = lo + (hi - lo) / 2;
            if str_lt(self.terms[mid].term.as_str(), target) {
                assert forall|i: int| 0 <= i < mid + 1 implies seq_lt(
                    #[trigger] self@[i].0,
                    target@,
                ) by {
                    if i < mid {
                        lemma_seq_lt_transitive(self@[i].0, self@[mid as int].0, target@);
                    }
                }
                lo = mid + 1;
            } else {
                assert forall|i: int| mid <= i < self@.len() implies !seq_lt(
                    #[trigger] self@[i].0,
                    target@,
                ) by {
                    if i > mid && seq_lt(self@[i].0, target@) {
                        lemma_seq_lt_total(self@[mid as int].0, target@);
                        lemma_seq_lt_transitive(self@[mid as int].0, self@[i].0, target@);
                        if self@[mid as int].0 == target@ {
                            lemma_seq_lt_total(self@[mid as int].0, self@[i].0);
                        }
                    }
                }
                hi = mid;
            }
        }
        lo
    }
}

/// A cursor over a term dictionary.
///
/// Before the first call of `next` or `seek` it stands before the first
/// term; `next` then moves to the first term, and later to the following
/// ones; `seek` moves to the first term that does not come before its target.
#[derive(Debug)]
pub struct TermsEnum<'a> {
    dict: &'a TermDictionary,
    started: bool,
    pos: usize,
}

impl<'a> TermsEnum<'a> {
    /// The terms walked over.
    pub closed spec fn terms(&self) -> Seq<(Seq<char>, u64)> {
        self.dict@
    }

    /// The position of the cursor: `None` before the first term, else an
    /// index between 0 and the number of terms (the end).
    pub closed spec fn position(&self) -> Option<int> {
        if self.started {
            Some(self.pos as int)
        } else {
            None
        }
    }

    /// The cursor stays within the dictionary.
    pub closed spec fn wf(&self) -> bool {
        self.dict.wf() && self.pos <= self.dict@.len() && (!self.started ==> self.pos == 0)
    }

    /// A cursor standing before the first term of `dict`.
    pub fn new(dict: &'a TermDictionary) -> (e: TermsEnum<'a>)
        requires
            dict.wf(),
        ensures
            e.wf(),
            e.terms() == dict@,
            e.position() is None,
    {
        TermsEnum { dict, started: false, pos: 0 }
    }

    /// The term at the cursor, if the cursor stands on one.
    pub fn current(&self) -> (t: Option<&TermStats>)
        requires
            self.wf(),
        ensures
            t is Some <==> (self.position() matches Some(p) && p < self.terms().len()),
            t matches Some(t) ==> t@ == self.terms()[self.position()->0],
    {
        if self.started && self.pos < self.dict.len() {
            Some(self.dict.get(self.pos))
        } else {
            None
        }
    }

    /// Move to the next term and return it; `None` once past the last term.
    pub fn next(&mut self) -> (t: Option<TermStats>)
        requires
            old(self).wf(),
        ensures
            final(self).wf(),
            final(self).terms() == old(self).terms(),
            final(self).position() == Some(
                match old(self).position() {
                    None => 0int,
                    Some(p) => if p < old(self).terms().len() {
                        p + 1
                    } else {
                        p
                    },
                },
            ),
            t is Some <==> final(self).position()->0 < final(self).terms().len(),
            t matches Some(t) ==> t@ == final(self).terms()[final(self).position()->0],
    {
        if !self.started {
            self.started = true;
            self.pos = 0;
        } else if self.pos < self.dict.len() {
            self.pos = self.pos + 1;
        }
        if self.pos < self.dict.len() {
            Some(self.dict.get(self.pos).duplicate())
        } else {
            None
        }
    }

    /// Move to the first term that does not come before `target`; return
    /// whether that term is `target` itself.
    pub fn seek(&mut self, target: &str) -> (found: bool)
        requires
            old(self).wf(),
        ensures
            final(self).wf(),
            final(self).terms() == old(self).terms(),
            final(self).position() matches Some(p) && is_lower_bound(
                final(self).terms(),
                target@,
                p,
            ),
            found == (final(self).position()->0 < final(self).terms().len()
                && final(self).terms()[final(self).position()->0].0 == target@),
    {
        let pos = self.dict.lower_bound(target);
        self.started = true;
        self.pos = pos;
        if pos < self.dict.len() {
            str_eq(self.dict.get(pos).term.as_str(), target)
        } else {
            false
        }
    }

    /// Move to `term` if the dictionary holds it, and return whether it does.
    /// The cursor ends where [`TermsEnum::seek`] would put it.
    pub fn seek_exact(&mut self, term: &str) -> (found: bool)
        requires
            old(self).wf(),
        ensures
            final(self).wf(),
            final(self).terms() == old(self).terms(),
            final(self).position() matches Some(p) && is_lower_bound(
                final(self).terms(),
                term@,
                p,
            ),
            found == (final(self).position()->0 < final(self).terms().len()
                && final(self).terms()[final(self).position()->0].0 == term@),
    {
        self.seek(term)
    }
}

/// A terms enumeration that yields only the terms starting with a prefix.
#[derive(Debug)]
pub struct PrefixTermsEnum<'a> {
    inner: TermsEnum<'a>,
    prefix: String,
}

impl<'a> PrefixTermsEnum<'a> {
    /// The underlying enumeration.
    pub closed spec fn inner(&self) -> TermsEnum<'a> {
        self.inner
    }

    /// The prefix every yielded term starts with.
    pub closed spec fn prefix(&self) -> Seq<char> {
        self.prefix@
    }

    /// Wrap `inner`, seeking it to `prefix`.
    pub fn new(inner: TermsEnum<'a>, prefix: String) -> (e: PrefixTermsEnum<'a>)
        requires
            inner.wf(),
        ensures
            e.inner().wf(),
            e.prefix() == prefix@,
            e.inner().terms() == inner.terms(),
            e.inner().position() matches Some(p) && is_lower_bound(inner.terms(), prefix@, p),
    {
        let mut inner = inner;
        let _ = inner.seek(prefix.as_str());
        PrefixTermsEnum { inner, prefix }
    }

    /// Advance the underlying enumeration; return its term when that term
    /// starts with the prefix.
    pub fn next(&mut self) -> (t: Option<TermStats>)
        requires
            old(self).inner().wf(),
        ensures
            final(self).inner().wf(),
            final(self).prefix() == old(self).prefix(),
            final(self).inner().terms() == old(self).inner().terms(),
            final(self).inner().position() == Some(
                match old(self).inner().position() {
                    None => 0int,
                    Some(p) => if p < old(self).inner().terms().len() {
                        p + 1
                    } else {
                        p
                    },
                },
            ),
            ({
                let p = final(self).inner().position()->0;
                let ts = final(self).inner().terms();
                t is Some <==> (p < ts.len() && is_prefix(final(self).prefix(), ts[p].0))
            }),
            t matches Some(t) ==> t@ == final(self).inner().terms()[final(self).inner().position()->0],
    {
        match self.inner.next() {
            Some(stats) => {
                if str_starts_with(stats.term.as_str(), self.prefix.as_str()) {
                    Some(stats)
                } else {
                    None
                }
            },
            None => None,
        }
    }

    /// Seek the underlying enumeration to `target`, or to the prefix when
    /// `target` comes before it.
    pub fn seek(&mut self, target: &str) -> (found: bool)
        requires
            old(self).inner().wf(),
        ensures
            final(self).inner().wf(),
            final(self).prefix() == old(self).prefix(),
            final(self).inner().terms() == old(self).inner().terms(),
            ({
                let goal = if seq_lt(target@, old(self).prefix()) {
                    old(self).prefix()
                } else {
                    target@
                };
                &&& final(self).inner().position() matches Some(p) && is_lower_bound(
                    final(self).inner().terms(),
                    goal,
                    p,
                )
                &&& found == (final(self).inner().position()->0 < final(self).inner().terms().len()
                    && final(self).inner().terms()[final(self).inner().position()->0].0 == goal)
            }),
    {
        if str_lt(target, self.prefix.as_str()) {
            self.inner.seek(self.prefix.as_str())
        } else {
            self.inner.seek(target)
        }
    }

    /// `false` for a term without the prefix (the enumeration is left where
    /// it stands); otherwise the underlying `seek_exact`.
    pub fn seek_exact(&mut self, term: &str) -> (found: bool)
        requires
            old(self).inner().wf(),
        ensures
            final(self).inner().wf(),
            final(self).prefix() == old(self).prefix(),
            final(self).inner().terms() == old(self).inner().terms(),
            !is_prefix(old(self).prefix(), term@) ==> !found && final(self).inner().position()
                == old(self).inner().position(),
            is_prefix(old(self).prefix(), term@) ==> {
                &&& final(self).inner().position() matches Some(p) && is_lower_bound(
                    final(self).inner().terms(),
                    term@,
                    p,
                )
                &&& found == (final(self).inner().position()->0 < final(self).inner().terms().len()
                    && final(self).inner().terms()[final(self).inner().position()->0].0 == term@)
            },
    {
        if !str_starts_with(term, self.prefix.as_str()) {
            return false;
        }
        self.inner.seek_exact(term)
    }

    /// The underlying current term, when it starts with the prefix.
    pub fn current(&self) -> (t: Option<&TermStats>)
        requires
            self.inner().wf(),
        ensures
            t is Some <==> (self.inner().position() matches Some(p) && p
                < self.inner().terms().len() && is_prefix(
                self.prefix(),
                self.inner().terms()[p].0,
            )),
            t matches Some(t) ==> t@ == self.inner().terms()[self.inner().position()->0],
    {
        match self.inner.current() {
            Some(stats) => {
                if str_starts_with(stats.term.as_str(), self.prefix.as_str()) {
                    Some(stats)
                } else {
                    None
                }
            },
            None => None,
        }
    }
}

} // verus!
