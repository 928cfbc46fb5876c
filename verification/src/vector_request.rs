//! Vector search requests: index kinds, request defaults, field selection
//! and metadata filters.

use vstd::prelude::*;
use crate::text::{is_prefix, str_eq, str_starts_with};
use crate::vector_query::strings_view;

verus! {

/// The kind of index behind a vector field.
#[derive(Debug, Clone, Copy, PartialEq, Eq, Structural)]
pub enum VectorIndexKind {
    /// Exact search over every vector.
    Flat,
    /// Hierarchical navigable small-world graph.
    Hnsw,
    /// Inverted file of clustered vectors.
    Ivf,
}

/// The default number of links per node of an HNSW index.
pub fn default_getting_m() -> (m: usize)
    ensures
        m == 16,
{
    16
}

/// The default candidate list size while building an HNSW index.
pub fn default_getting_ef_construction() -> (ef: usize)
    ensures
        ef == 200,
{
    200
}

/// The default number of clusters of an IVF index.
pub fn default_getting_n_clusters() -> (n: usize)
    ensures
        n == 100,
{
    100
}

/// The default number of clusters an IVF search probes.
pub fn default_getting_n_probe() -> (n: usize)
    ensures
        n == 1,
{
    1
}

/// The default number of results of a search.
pub fn default_query_limit() -> (n: usize)
    ensures
        n == 10,
{
    10
}

/// The default constant `k` of reciprocal rank fusion.
pub fn default_rrf_k() -> (k: usize)
    ensures
        k == 60,
{
    60
}

/// How the terms of a match query combine.
#[derive(Debug, Clone, Copy, PartialEq, Eq, Structural)]
pub enum MatchOperator {
    Or,
    And,
}

/// The default operator of a match query: any term may match.
pub fn default_operator_or() -> (op: MatchOperator)
    ensures
        op == MatchOperator::Or,
{
    MatchOperator::Or
}

/// Which vector fields a search covers.
#[derive(Debug, Clone)]
pub enum FieldSelector {
    /// The field with exactly this name; it must be registered.
    Exact(String),
    /// Every registered field whose name starts with this prefix.
    Prefix(String),
}

/// How the scores of several query vectors combine.
#[derive(Debug, Clone, Copy, PartialEq, Eq, Structural)]
pub enum VectorScoreMode {
    /// The weighted scores add up.
    WeightedSum,
    /// The best weighted score counts.
    MaxSim,
    /// Token-level interaction; not supported by the search.
    LateInteraction,
}

impl Default for VectorScoreMode {
    fn default() -> (m: Self)
        ensures
            m == VectorScoreMode::WeightedSum,
    {
        VectorScoreMode::WeightedSum
    }
}

/// Why a field selection failed: the exact field named is not registered.
#[derive(Debug, Clone)]
pub enum FieldSelectionError {
    FieldNotRegistered(String),
}

/// `acc` extended, in order, by the names of `names` that start with
/// `prefix` and are not in it yet.
pub open spec fn add_prefixed(acc: Seq<Seq<char>>, names: Seq<Seq<char>>, prefix: Seq<char>) -> Seq<
    Seq<char>,
>
    decreases names.len(),
{
    if names.len() == 0 {
        acc
    } else {
        let a = add_prefixed(acc, names.drop_last(), prefix);
        let n = names.last();
        if is_prefix(prefix, n) && !a.contains(n) {
            a.push(n)
        } else {
            a
        }
    }
}

/// The fields that the selectors pick out of the registered field names
/// `registered`, in the order of the selectors (and, for a prefix, of
/// `registered`), each once; or the first exact name that is not
/// registered.
pub open spec fn select_fields(registered: Seq<Seq<char>>, selectors: Seq<FieldSelector>) -> Result<
    Seq<Seq<char>>,
    Seq<char>,
>
    decreases selectors.len(),
{
    if selectors.len() == 0 {
        Ok(Seq::empty())
    } else {
        match select_fields(registered, selectors.drop_last()) {
            Err(e) => Err(e),
            Ok(acc) => match selectors.last() {
                FieldSelector::Exact(name) => if registered.contains(name@) {
                    if acc.contains(name@) {
                        Ok(acc)
                    } else {
                        Ok(acc.push(name@))
                    }
                } else {
                    Err(name@)
                },
                FieldSelector::Prefix(prefix) => Ok(add_prefixed(acc, registered, prefix@)),
            },
        }
    }
}

/// Whether the names `v` hold `name`.
pub fn names_contain(v: &Vec<String>, name: &str) -> (b: bool)
    ensures
        b == strings_view(v@).contains(name@),
{
    let ghost sv = strings_view(v@);
    let mut i: usize = 0;
    while i < v.len()
        invariant
            i <= v@.len(),
            sv == strings_view(v@),
            forall|j: int| 0 <= j < i ==> sv[j] != name@,
        decreases v.len() - i,
    {
        if str_eq(v[i].as_str(), name) {
            assert(sv[i as int] == name@);
            return true;
        }
        i = i + 1;
    }
    false
}

fn add_prefixed_names(acc: &mut Vec<String>, names: &Vec<String>, prefix: &str)
    ensures
        strings_view(final(acc)@) == add_prefixed(strings_view(old(acc)@), strings_view(names@), prefix@),
{
    let ghost start = strings_view(acc@);
    let ghost nv = strings_view(names@);
    let mut i: usize = 0;
    while i < names.len()
        invariant
            i <= names@.len(),
            nv == strings_view(names@),
            strings_view(acc@) == add_prefixed(start, nv.take(i as int), prefix@),
        decreases names.len() - i,
    {
        assert(nv.take(i + 1).drop_last() =~= nv.take(i as int));
        assert(nv.take(i + 1).last() == nv[i as int]);
        let name = names[i].as_str();
        if str_starts_with(name, prefix) && !names_contain(acc, name) {
            let ghost before = strings_view(acc@);
            acc.push(crate::text::owned(name));
            assert(strings_view(acc@) =~= before.push(nv[i as int]));
        }
        i = i + 1;
    }
    assert(nv.take(nv.len() as int) =~= nv);
}

/// The fields that `selectors` pick out of the registered fields
/// `registered`: an exact selector adds its field, which must be
/// registered; a prefix selector adds every registered field that starts
/// with its prefix, in the order of `registered`; no field is added twice.
pub fn apply_field_selectors(registered: &Vec<String>, selectors: &Vec<FieldSelector>) -> (r: Result<
    Vec<String>,
    FieldSelectionError,
>)
    ensures
        match r {
            Ok(v) => select_fields(strings_view(registered@), selectors@) == Ok::<
                Seq<Seq<char>>,
                Seq<char>,
            >(strings_view(v@)),
            Err(FieldSelectionError::FieldNotRegistered(name)) => select_fields(
                strings_view(registered@),
                selectors@,
            ) == Err::<Seq<Seq<char>>, Seq<char>>(name@),
        },
{
    let ghost reg = strings_view(registered@);
    let mut result: Vec<String> = Vec::new();
    let mut i: usize = 0;
    assert(strings_view(result@) =~= Seq::<Seq<char>>::empty());
    while i < selectors.len()
        invariant
            i <= selectors@.len(),
            reg == strings_view(registered@),
            select_fields(reg, selectors@.take(i as int)) == Ok::<Seq<Seq<char>>, Seq<char>>(
                strings_view(result@),
            ),
        decreases selectors.len() - i,
    {
        assert(selectors@.take(i + 1).drop_last() =~= selectors@.take(i as int));
        assert(selectors@.take(i + 1).last() == selectors@[i as int]);
        match &selectors[i] {
            FieldSelector::Exact(name) => {
                if names_contain(registered, name.as_str()) {
                    if !names_contain(&result, name.as_str()) {
                        let ghost before = strings_view(result@);
                        result.push(crate::text::owned(name.as_str()));
                        assert(strings_view(result@) =~= before.push(name@));
                    }
                } else {
                    let missing = crate::text::owned(name.as_str());
                    proof {
                        lemma_select_fields_error_sticks(reg, selectors@, i as int + 1);
                    }
                    return Err(FieldSelectionError::FieldNotRegistered(missing));
                }
            },
            FieldSelector::Prefix(prefix) => {
                add_prefixed_names(&mut result, registered, prefix.as_str());
            },
        }
        i = i + 1;
    }
    assert(selectors@.take(selectors@.len() as int) =~= selectors@);
    Ok(result)
}

/// Once selecting fails on the first selectors, it fails with the same
/// name on all of them.
pub proof fn lemma_select_fields_error_sticks(
    registered: Seq<Seq<char>>,
    selectors: Seq<FieldSelector>,
    k: int,
)
    requires
        0 <= k <= selectors.len(),
        select_fields(registered, selectors.take(k)) is Err,
    ensures
        select_fields(registered, selectors) == select_fields(registered, selectors.take(k)),
    decreases selectors.len() - k,
{
    if k < selectors.len() {
        assert(selectors.take(k + 1).drop_last() =~= selectors.take(k));
        lemma_select_fields_error_sticks(registered, selectors, k + 1);
    } else {
        assert(selectors.take(k) =~= selectors);
    }
}

proof fn lemma_add_prefixed_distinct(acc: Seq<Seq<char>>, names: Seq<Seq<char>>, prefix: Seq<char>)
    requires
        acc.no_duplicates(),
    ensures
        add_prefixed(acc, names, prefix).no_duplicates(),
    decreases names.len(),
{
    if names.len() > 0 {
        lemma_add_prefixed_distinct(acc, names.drop_last(), prefix);
        let a = add_prefixed(acc, names.drop_last(), prefix);
        let n = names.last();
        if is_prefix(prefix, n) && !a.contains(n) {
            assert forall|i: int, j: int| 0 <= i < j < a.push(n).len() implies a.push(n)[i] != a.push(
                n,
            )[j] by {
                if j == a.len() {
                    assert(a[i] != n);
                }
            }
        }
    }
}

/// Selecting fields picks no field twice.
pub proof fn lemma_select_fields_distinct(registered: Seq<Seq<char>>, selectors: Seq<FieldSelector>)
    ensures
        select_fields(registered, selectors) matches Ok(v) ==> v.no_duplicates(),
    decreases selectors.len(),
{
    if selectors.len() > 0 {
        lemma_select_fields_distinct(registered, selectors.drop_last());
        match select_fields(registered, selectors.drop_last()) {
            Err(_) => {},
            Ok(acc) => match selectors.last() {
                FieldSelector::Exact(name) => {
                    if !acc.contains(name@) {
                        assert forall|i: int, j: int| 0 <= i < j < acc.push(name@).len() implies acc.push(
                            name@,
                        )[i] != acc.push(name@)[j] by {
                            if j == acc.len() {
                                assert(acc[i] != name@);
                            }
                        }
                    }
                },
                FieldSelector::Prefix(prefix) => {
                    lemma_add_prefixed_distinct(acc, registered, prefix@);
                },
            },
        }
    }
}

/// The fields a search covers: those its selectors pick, or the default
/// fields where it gives no selectors.
pub fn resolve_fields(
    registered: &Vec<String>,
    default_fields: &Vec<String>,
    selectors: &Option<Vec<FieldSelector>>,
) -> (r: Result<Vec<String>, FieldSelectionError>)
    ensures
        match selectors {
            None => r matches Ok(v) && strings_view(v@) == strings_view(default_fields@),
            Some(sel) => match r {
                Ok(v) => select_fields(strings_view(registered@), sel@) == Ok::<
                    Seq<Seq<char>>,
                    Seq<char>,
                >(strings_view(v@)),
                Err(FieldSelectionError::FieldNotRegistered(name)) => select_fields(
                    strings_view(registered@),
                    sel@,
                ) == Err::<Seq<Seq<char>>, Seq<char>>(name@),
            },
        },
{
    match selectors {
        Some(sel) => apply_field_selectors(registered, sel),
        None => {
            let mut out: Vec<String> = Vec::new();
            let mut i: usize = 0;
            while i < default_fields.len()
                invariant
                    i <= default_fields@.len(),
                    strings_view(out@) == strings_view(default_fields@).take(i as int),
                decreases default_fields.len() - i,
            {
                let ghost before = strings_view(out@);
                out.push(crate::text::owned(default_fields[i].as_str()));
                assert(strings_view(out@) =~= before.push(default_fields@[i as int]@));
                assert(strings_view(default_fields@).take(i + 1) =~= strings_view(
                    default_fields@,
                ).take(i as int).push(default_fields@[i as int]@));
                i = i + 1;
            }
            assert(strings_view(default_fields@).take(default_fields@.len() as int) =~= strings_view(
                default_fields@,
            ));
            Ok(out)
        },
    }
}

/// Whether a query vector restricted to the fields `restriction` (all
/// fields where there is none) applies to the field `field_name`.
pub open spec fn applies_to(restriction: Option<Seq<Seq<char>>>, field_name: Seq<char>) -> bool {
    match restriction {
        None => true,
        Some(fields) => fields.contains(field_name),
    }
}

/// The restriction of a query vector by the texts of its field names.
pub open spec fn restriction_view(r: Option<Vec<String>>) -> Option<Seq<Seq<char>>> {
    match r {
        None => None,
        Some(v) => Some(strings_view(v@)),
    }
}

/// The positions, in order, of the query vectors (given by their field
/// restrictions) that apply to `field_name`.
pub open spec fn applicable_positions(rs: Seq<Option<Vec<String>>>, field_name: Seq<char>) -> Seq<
    usize,
>
    decreases rs.len(),
{
    if rs.len() == 0 {
        Seq::empty()
    } else if applies_to(restriction_view(rs.last()), field_name) {
        applicable_positions(rs.drop_last(), field_name).push((rs.len() - 1) as usize)
    } else {
        applicable_positions(rs.drop_last(), field_name)
    }
}

/// The positions of the query vectors that search the field `field_name`:
/// those restricted to a list of fields that holds it, and those with no
/// restriction.
pub fn query_vectors_for_field(restrictions: &Vec<Option<Vec<String>>>, field_name: &str) -> (r: Vec<
    usize,
>)
    ensures
        r@ == applicable_positions(restrictions@, field_name@),
{
    let mut r: Vec<usize> = Vec::new();
    let mut i: usize = 0;
    while i < restrictions.len()
        invariant
            i <= restrictions@.len(),
            r@ == applicable_positions(restrictions@.take(i as int), field_name@),
        decreases restrictions.len() - i,
    {
        assert(restrictions@.take(i + 1).drop_last() =~= restrictions@.take(i as int));
        assert(restrictions@.take(i + 1).last() == restrictions@[i as int]);
        let applies = match &restrictions[i] {
            None => true,
            Some(fields) => names_contain(fields, field_name),
        };
        if applies {
            r.push(i);
        }
        i = i + 1;
    }
    assert(restrictions@.take(restrictions@.len() as int) =~= restrictions@);
    r
}

/// A metadata filter: every key must carry exactly the given value.
#[derive(Debug, Clone)]
pub struct MetadataFilter {
    pub equals: Vec<(String, String)>,
}

/// The text pairs of a list of key-value strings.
pub open spec fn pairs_view(v: Seq<(String, String)>) -> Seq<(Seq<char>, Seq<char>)> {
    v.map_values(|p: (String, String)| (p.0@, p.1@))
}

/// Whether `metadata` holds every key-value pair of `equals`.
pub open spec fn metadata_matches(
    equals: Seq<(Seq<char>, Seq<char>)>,
    metadata: Seq<(Seq<char>, Seq<char>)>,
) -> bool {
    forall|i: int| 0 <= i < equals.len() ==> metadata.contains(#[trigger] equals[i])
}

impl MetadataFilter {
    /// The filter with no condition.
    pub fn new() -> (f: Self)
        ensures
            f.equals@.len() == 0,
    {
        MetadataFilter { equals: Vec::new() }
    }

    /// Whether the filter sets no condition.
    pub fn is_empty(&self) -> (b: bool)
        ensures
            b == (self.equals@.len() == 0),
    {
        self.equals.len() == 0
    }

    /// Whether the metadata `metadata` (key-value pairs) meets every
    /// condition of the filter.
    pub fn matches(&self, metadata: &Vec<(String, String)>) -> (b: bool)
        ensures
            b == metadata_matches(pairs_view(self.equals@), pairs_view(metadata@)),
    {
        let ghost eq = pairs_view(self.equals@);
        let ghost md = pairs_view(metadata@);
        let mut i: usize = 0;
        while i < self.equals.len()
            invariant
                i <= self.equals@.len(),
                eq == pairs_view(self.equals@),
                md == pairs_view(metadata@),
                forall|k: int| 0 <= k < i ==> md.contains(#[trigger] eq[k]),
            decreases self.equals.len() - i,
        {
            let key = self.equals[i].0.as_str();
            let value = self.equals[i].1.as_str();
            let mut found = false;
            let mut j: usize = 0;
            while j < metadata.len()
                invariant
                    j <= metadata@.len(),
                    eq == pairs_view(self.equals@),
                    md == pairs_view(metadata@),
                    i < self.equals@.len(),
                    key@ == eq[i as int].0,
                    value@ == eq[i as int].1,
                    found == md.take(j as int).contains(eq[i as int]),
                decreases metadata.len() - j,
            {
                proof {
                    assert(md.take(j + 1) =~= md.take(j as int).push(md[j as int]));
                    vstd::seq_lib::lemma_seq_contains_after_push(
                        md.take(j as int),
                        md[j as int],
                        eq[i as int],
                    );
                }
                if !found && str_eq(metadata[j].0.as_str(), key) && str_eq(
                    metadata[j].1.as_str(),
                    value,
                ) {
                    found = true;
                }
                j = j + 1;
            }
            assert(md.take(md.len() as int) =~= md);
            if !found {
                return false;
            }
            i = i + 1;
        }
        true
    }
}

/// A filter of documents and of their fields by metadata.
#[derive(Debug, Clone)]
pub struct VectorFilter {
    pub document: MetadataFilter,
    pub field: MetadataFilter,
}

impl VectorFilter {
    /// The filter with no condition.
    pub fn new() -> (f: Self)
        ensures
            f.document.equals@.len() == 0,
            f.field.equals@.len() == 0,
    {
        VectorFilter { document: MetadataFilter::new(), field: MetadataFilter::new() }
    }

    /// Whether the filter sets no condition at all.
    pub fn is_empty(&self) -> (b: bool)
        ensures
            b == (self.document.equals@.len() == 0 && self.field.equals@.len() == 0),
    {
        self.document.is_empty() && self.field.is_empty()
    }
}

} // verus!
