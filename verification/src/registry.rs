//! The registry of documents with vectors: for each document its version,
//! its metadata and the entries of its vector fields, and the map from
//! external ids (the `_id` metadata) to document ids.

use vstd::prelude::*;
use crate::seqs::{assoc_map, fold_insert, keys_distinct, lemma_assoc_at};
use crate::text::{owned, str_eq};
use crate::vector_request::{metadata_matches, pairs_view, MetadataFilter, VectorFilter};
use crate::vector_query::strings_view;

verus! {

/// A field of a document as the registry sees it: name, version, vector
/// count, weight (the bits of an `f32`) and metadata.
pub type FieldView = (Seq<char>, u64, usize, u32, Seq<(Seq<char>, Seq<char>)>);

/// A document as the registry sees it: id, version, metadata, and its
/// fields by name.
pub type DocView = (u64, u64, Seq<(Seq<char>, Seq<char>)>, Map<Seq<char>, FieldView>);

/// The entry of one vector field of a document.
#[derive(Debug, Clone)]
pub struct FieldEntry {
    pub field_name: String,
    pub version: u64,
    pub vector_count: usize,
    /// The bits of the field's `f32` weight.
    pub weight_bits: u32,
    pub metadata: Vec<(String, String)>,
}

/// The entry of one document.
#[derive(Debug, Clone)]
pub struct DocumentEntry {
    pub doc_id: u64,
    pub version: u64,
    pub metadata: Vec<(String, String)>,
    pub fields: Vec<FieldEntry>,
}

/// A field entry by its parts.
pub open spec fn field_view(f: FieldEntry) -> FieldView {
    (f.field_name@, f.version, f.vector_count, f.weight_bits, pairs_view(f.metadata@))
}

/// The field entries of a list, each keyed by its name.
pub open spec fn field_pairs(v: Seq<FieldEntry>) -> Seq<(Seq<char>, FieldView)> {
    v.map_values(|f: FieldEntry| (f.field_name@, field_view(f)))
}

/// A document entry by its parts.
pub open spec fn doc_view(d: DocumentEntry) -> DocView {
    (d.doc_id, d.version, pairs_view(d.metadata@), assoc_map(field_pairs(d.fields@)))
}

/// A document entry whose metadata keys and field names are each distinct.
pub open spec fn doc_wf(d: DocumentEntry) -> bool {
    &&& keys_distinct(pairs_view(d.metadata@))
    &&& keys_distinct(field_pairs(d.fields@))
    &&& forall|i: int|
        0 <= i < d.fields@.len() ==> keys_distinct(pairs_view((#[trigger] d.fields@[i]).metadata@))
}

/// The external id of a document: the value of its `_id` metadata.
pub open spec fn external_id_of(md: Seq<(Seq<char>, Seq<char>)>) -> Option<Seq<char>> {
    if assoc_map(md).contains_key("_id"@) {
        Some(assoc_map(md)["_id"@])
    } else {
        None
    }
}

/// A copy of a list of key-value strings.
pub fn copy_pairs(v: &Vec<(String, String)>) -> (r: Vec<(String, String)>)
    ensures
        pairs_view(r@) == pairs_view(v@),
{
    let mut r: Vec<(String, String)> = Vec::new();
    let mut i: usize = 0;
    while i < v.len()
        invariant
            i <= v@.len(),
            pairs_view(r@) == pairs_view(v@).take(i as int),
        decreases v.len() - i,
    {
        let ghost before = pairs_view(r@);
        r.push((owned(v[i].0.as_str()), owned(v[i].1.as_str())));
        assert(pairs_view(r@) =~= before.push((v@[i as int].0@, v@[i as int].1@)));
        assert(pairs_view(v@).take(i + 1) =~= pairs_view(v@).take(i as int).push(
            (v@[i as int].0@, v@[i as int].1@),
        ));
        i = i + 1;
    }
    assert(pairs_view(v@).take(v@.len() as int) =~= pairs_view(v@));
    r
}

/// The value of the first pair of `md` with key `key`, if any.
pub fn metadata_get(md: &Vec<(String, String)>, key: &str) -> (r: Option<String>)
    requires
        keys_distinct(pairs_view(md@)),
    ensures
        match r {
            None => !assoc_map(pairs_view(md@)).contains_key(key@),
            Some(v) => assoc_map(pairs_view(md@)).contains_key(key@) && assoc_map(
                pairs_view(md@),
            )[key@] == v@,
        },
{
    let ghost pv = pairs_view(md@);
    let mut i: usize = 0;
    while i < md.len()
        invariant
            i <= md@.len(),
            pv == pairs_view(md@),
            keys_distinct(pv),
            forall|j: int| 0 <= j < i ==> pv[j].0 != key@,
        decreases md.len() - i,
    {
        if str_eq(md[i].0.as_str(), key) {
            proof {
                lemma_assoc_at(pv, i as int);
            }
            return Some(owned(md[i].1.as_str()));
        }
        i = i + 1;
    }
    proof {
        if assoc_map(pv).contains_key(key@) {
            let j = choose|j: int| 0 <= j < pv.len() && pv[j].0 == key@;
            assert(pv[j].0 != key@);
        }
    }
    None
}

impl FieldEntry {
    /// A copy of the entry.
    pub fn duplicate(&self) -> (r: FieldEntry)
        ensures
            field_view(r) == field_view(*self),
    {
        FieldEntry {
            field_name: owned(self.field_name.as_str()),
            version: self.version,
            vector_count: self.vector_count,
            weight_bits: self.weight_bits,
            metadata: copy_pairs(&self.metadata),
        }
    }
}

impl DocumentEntry {
    /// A copy of the entry.
    pub fn duplicate(&self) -> (r: DocumentEntry)
        ensures
            doc_view(r) == doc_view(*self),
            doc_wf(*self) ==> doc_wf(r),
    {
        let mut fields: Vec<FieldEntry> = Vec::new();
        let mut i: usize = 0;
        while i < self.fields.len()
            invariant
                i <= self.fields@.len(),
                fields@.len() == i,
                forall|j: int| 0 <= j < i ==> field_view(#[trigger] fields@[j]) == field_view(
                    self.fields@[j],
                ),
            decreases self.fields.len() - i,
        {
            fields.push(self.fields[i].duplicate());
            i = i + 1;
        }
        assert(field_pairs(fields@) =~= field_pairs(self.fields@));
        let r = DocumentEntry {
            doc_id: self.doc_id,
            version: self.version,
            metadata: copy_pairs(&self.metadata),
            fields,
        };
        proof {
            if doc_wf(*self) {
                assert forall|j: int| 0 <= j < r.fields@.len() implies keys_distinct(
                    pairs_view((#[trigger] r.fields@[j]).metadata@),
                ) by {
                    assert(field_view(r.fields@[j]) == field_view(self.fields@[j]));
                    assert(keys_distinct(pairs_view(self.fields@[j].metadata@)));
                }
            }
        }
        r
    }
}


/// The documents of a list, each keyed by its id.
pub open spec fn entry_pairs(v: Seq<DocumentEntry>) -> Seq<(u64, DocView)> {
    v.map_values(|d: DocumentEntry| (d.doc_id, doc_view(d)))
}

/// The pairs of a list of external ids and document ids.
pub open spec fn ext_pairs(v: Seq<(String, u64)>) -> Seq<(Seq<char>, u64)> {
    v.map_values(|p: (String, u64)| (p.0@, p.1))
}

/// The fields of an upserted document: each entry of `fields` under its
/// name with version `version`, a later entry winning over an earlier one
/// with the same name.
pub open spec fn fields_with_version(fields: Seq<FieldEntry>, version: u64) -> Map<
    Seq<char>,
    FieldView,
> {
    fold_insert(
        fields.map_values(
            |f: FieldEntry|
                (
                    f.field_name@,
                    (f.field_name@, version, f.vector_count, f.weight_bits, pairs_view(f.metadata@)),
                ),
        ),
    )
}

/// Restoring a registry from the documents of its snapshot gives back the
/// same documents.
pub proof fn lemma_snapshot_restores_entries(snapshot: Seq<DocumentEntry>, entries: Map<u64, DocView>)
    requires
        keys_distinct(entry_pairs(snapshot)),
        assoc_map(entry_pairs(snapshot)) == entries,
    ensures
        fold_insert(entry_pairs(snapshot)) == entries,
{
    crate::seqs::lemma_fold_insert_distinct(entry_pairs(snapshot));
}

/// Why a registry operation failed.
#[derive(Debug, Clone, Copy, PartialEq, Eq, Structural)]
pub enum RegistryError {
    /// No document with this id is registered.
    NotFound(u64),
}

/// The registry of documents with vectors.
#[derive(Debug)]
pub struct DocumentVectorRegistry {
    entries: Vec<DocumentEntry>,
    external_ids: Vec<(String, u64)>,
    next_version: u64,
}

impl DocumentVectorRegistry {
    /// The registered documents by id.
    pub closed spec fn spec_entries(&self) -> Map<u64, DocView> {
        assoc_map(entry_pairs(self.entries@))
    }

    /// The document id of each external id.
    pub closed spec fn spec_external_ids(&self) -> Map<Seq<char>, u64> {
        assoc_map(ext_pairs(self.external_ids@))
    }

    /// The last version handed out (0 before the first).
    pub closed spec fn spec_next_version(&self) -> u64 {
        self.next_version
    }

    /// The registry's internal consistency.
    pub closed spec fn wf(&self) -> bool {
        &&& keys_distinct(entry_pairs(self.entries@))
        &&& keys_distinct(ext_pairs(self.external_ids@))
        &&& forall|i: int| 0 <= i < self.entries@.len() ==> doc_wf(#[trigger] self.entries@[i])
    }

    /// An empty registry.
    pub fn new() -> (r: Self)
        ensures
            r.wf(),
            r.spec_entries() == Map::<u64, DocView>::empty(),
            r.spec_external_ids() == Map::<Seq<char>, u64>::empty(),
            r.spec_next_version() == 0,
    {
        let r = DocumentVectorRegistry {
            entries: Vec::new(),
            external_ids: Vec::new(),
            next_version: 0,
        };
        assert(r.spec_entries() =~= Map::<u64, DocView>::empty());
        assert(r.spec_external_ids() =~= Map::<Seq<char>, u64>::empty());
        r
    }

    fn entry_index(&self, doc_id: u64) -> (r: Option<usize>)
        requires
            self.wf(),
        ensures
            match r {
                None => !self.spec_entries().contains_key(doc_id),
                Some(i) => i < self.entries@.len() && self.entries@[i as int].doc_id == doc_id,
            },
    {
        let ghost ep = entry_pairs(self.entries@);
        let mut i: usize = 0;
        while i < self.entries.len()
            invariant
                i <= self.entries@.len(),
                ep == entry_pairs(self.entries@),
                forall|j: int| 0 <= j < i ==> ep[j].0 != doc_id,
            decreases self.entries.len() - i,
        {
            if self.entries[i].doc_id == doc_id {
                return Some(i);
            }
            i = i + 1;
        }
        proof {
            if self.spec_entries().contains_key(doc_id) {
                let j = choose|j: int| 0 <= j < ep.len() && ep[j].0 == doc_id;
                assert(ep[j].0 != doc_id);
            }
        }
        None
    }

    fn external_index(&self, external_id: &str) -> (r: Option<usize>)
        requires
            self.wf(),
        ensures
            match r {
                None => !self.spec_external_ids().contains_key(external_id@),
                Some(i) => i < self.external_ids@.len() && self.external_ids@[i as int].0@
                    == external_id@,
            },
    {
        let ghost xp = ext_pairs(self.external_ids@);
        let mut i: usize = 0;
        while i < self.external_ids.len()
            invariant
                i <= self.external_ids@.len(),
                xp == ext_pairs(self.external_ids@),
                forall|j: int| 0 <= j < i ==> xp[j].0 != external_id@,
            decreases self.external_ids.len() - i,
        {
            if str_eq(self.external_ids[i].0.as_str(), external_id) {
                return Some(i);
            }
            i = i + 1;
        }
        proof {
            if self.spec_external_ids().contains_key(external_id@) {
                let j = choose|j: int| 0 <= j < xp.len() && xp[j].0 == external_id@;
                assert(xp[j].0 != external_id@);
            }
        }
        None
    }

    /// The last version handed out (0 before the first).
    pub fn last_version(&self) -> (v: u64)
        ensures
            v == self.spec_next_version(),
    {
        self.next_version
    }

    /// Whether a document with id `doc_id` is registered.
    pub fn contains(&self, doc_id: u64) -> (b: bool)
        requires
            self.wf(),
        ensures
            b == self.spec_entries().contains_key(doc_id),
    {
        match self.entry_index(doc_id) {
            None => false,
            Some(i) => {
                proof {
                    lemma_assoc_at(entry_pairs(self.entries@), i as int);
                }
                true
            },
        }
    }

    /// A copy of the entry of document `doc_id`, if it is registered.
    pub fn get(&self, doc_id: u64) -> (r: Option<DocumentEntry>)
        requires
            self.wf(),
        ensures
            match r {
                None => !self.spec_entries().contains_key(doc_id),
                Some(d) => self.spec_entries().contains_key(doc_id) && doc_view(d)
                    == self.spec_entries()[doc_id],
            },
    {
        match self.entry_index(doc_id) {
            None => None,
            Some(i) => {
                proof {
                    lemma_assoc_at(entry_pairs(self.entries@), i as int);
                }
                Some(self.entries[i].duplicate())
            },
        }
    }

    /// The document registered under the external id `external_id`, if any.
    pub fn get_doc_id_by_external_id(&self, external_id: &str) -> (r: Option<u64>)
        requires
            self.wf(),
        ensures
            match r {
                None => !self.spec_external_ids().contains_key(external_id@),
                Some(id) => self.spec_external_ids().contains_key(external_id@)
                    && self.spec_external_ids()[external_id@] == id,
            },
    {
        match self.external_index(external_id) {
            None => None,
            Some(i) => {
                proof {
                    lemma_assoc_at(ext_pairs(self.external_ids@), i as int);
                }
                Some(self.external_ids[i].1)
            },
        }
    }

    fn put_entry(&mut self, d: DocumentEntry)
        requires
            old(self).wf(),
            doc_wf(d),
        ensures
            final(self).wf(),
            final(self).spec_entries() == old(self).spec_entries().insert(d.doc_id, doc_view(d)),
            final(self).spec_external_ids() == old(self).spec_external_ids(),
            final(self).spec_next_version() == old(self).spec_next_version(),
    {
        let ghost ep = entry_pairs(self.entries@);
        let ghost pair = (d.doc_id, doc_view(d));
        match self.entry_index(d.doc_id) {
            Some(i) => {
                proof {
                    crate::seqs::lemma_assoc_update(ep, i as int, pair);
                }
                self.entries.set(i, d);
                assert(entry_pairs(self.entries@) =~= ep.update(i as int, pair));
            },
            None => {
                proof {
                    crate::seqs::lemma_assoc_push(ep, pair);
                }
                self.entries.push(d);
                assert(entry_pairs(self.entries@) =~= ep.push(pair));
            },
        }
    }

    fn put_external(&mut self, external_id: String, doc_id: u64)
        requires
            old(self).wf(),
        ensures
            final(self).wf(),
            final(self).spec_external_ids() == old(self).spec_external_ids().insert(
                external_id@,
                doc_id,
            ),
            final(self).spec_entries() == old(self).spec_entries(),
            final(self).spec_next_version() == old(self).spec_next_version(),
    {
        let ghost xp = ext_pairs(self.external_ids@);
        let ghost pair = (external_id@, doc_id);
        match self.external_index(external_id.as_str()) {
            Some(i) => {
                proof {
                    crate::seqs::lemma_assoc_update(xp, i as int, pair);
                }
                self.external_ids.set(i, (external_id, doc_id));
                assert(ext_pairs(self.external_ids@) =~= xp.update(i as int, pair));
            },
            None => {
                proof {
                    crate::seqs::lemma_assoc_push(xp, pair);
                }
                self.external_ids.push((external_id, doc_id));
                assert(ext_pairs(self.external_ids@) =~= xp.push(pair));
            },
        }
    }

    /// Registers (or replaces) document `doc_id` with the given field
    /// entries and metadata under a new version, which it returns: one past
    /// the last version handed out. Each field entry takes the new version;
    /// of two entries with the same field name the later one stays. Where
    /// the metadata has an `_id`, that external id now maps to `doc_id`.
    pub fn upsert(&mut self, doc_id: u64, fields: &Vec<FieldEntry>, metadata: Vec<(String, String)>) -> (version: u64)
        requires
            old(self).wf(),
            old(self).spec_next_version() < u64::MAX,
            keys_distinct(pairs_view(metadata@)),
            forall|i: int|
                0 <= i < fields@.len() ==> keys_distinct(pairs_view((#[trigger] fields@[i]).metadata@)),
        ensures
            final(self).wf(),
            version == old(self).spec_next_version() + 1,
            final(self).spec_next_version() == version,
            final(self).spec_entries() == old(self).spec_entries().insert(
                doc_id,
                (doc_id, version, pairs_view(metadata@), fields_with_version(fields@, version)),
            ),
            final(self).spec_external_ids() == match external_id_of(pairs_view(metadata@)) {
                Some(x) => old(self).spec_external_ids().insert(x, doc_id),
                None => old(self).spec_external_ids(),
            },
    {
        let version = self.next_version + 1;
        self.next_version = version;
        let map = versioned_fields(fields, version);
        let external = metadata_get(&metadata, "_id");
        let entry = DocumentEntry { doc_id, version, metadata, fields: map };
        self.put_entry(entry);
        match external {
            Some(x) => {
                self.put_external(x, doc_id);
            },
            None => {},
        }
        version
    }

    fn remove_external(&mut self, external_id: &str)
        requires
            old(self).wf(),
        ensures
            final(self).wf(),
            final(self).spec_external_ids() == old(self).spec_external_ids().remove(external_id@),
            final(self).spec_entries() == old(self).spec_entries(),
            final(self).spec_next_version() == old(self).spec_next_version(),
    {
        let ghost xp = ext_pairs(self.external_ids@);
        match self.external_index(external_id) {
            Some(i) => {
                proof {
                    crate::seqs::lemma_assoc_remove(xp, i as int);
                }
                self.external_ids.remove(i);
                assert(ext_pairs(self.external_ids@) =~= xp.remove(i as int));
            },
            None => {
                assert(assoc_map(xp).remove(external_id@) =~= assoc_map(xp));
            },
        }
    }

    /// Unregisters document `doc_id`, and the external id in its metadata
    /// (whatever document that external id maps to). Fails where the
    /// document is not registered, changing nothing.
    pub fn delete(&mut self, doc_id: u64) -> (r: Result<(), RegistryError>)
        requires
            old(self).wf(),
        ensures
            final(self).wf(),
            final(self).spec_next_version() == old(self).spec_next_version(),
            !old(self).spec_entries().contains_key(doc_id) ==> {
                &&& r == Err::<(), RegistryError>(RegistryError::NotFound(doc_id))
                &&& final(self).spec_entries() == old(self).spec_entries()
                &&& final(self).spec_external_ids() == old(self).spec_external_ids()
            },
            old(self).spec_entries().contains_key(doc_id) ==> {
                &&& r is Ok
                &&& final(self).spec_entries() == old(self).spec_entries().remove(doc_id)
                &&& final(self).spec_external_ids() == match external_id_of(
                    old(self).spec_entries()[doc_id].2,
                ) {
                    Some(x) => old(self).spec_external_ids().remove(x),
                    None => old(self).spec_external_ids(),
                }
            },
    {
        let ghost ep = entry_pairs(self.entries@);
        match self.entry_index(doc_id) {
            None => Err(RegistryError::NotFound(doc_id)),
            Some(i) => {
                proof {
                    lemma_assoc_at(ep, i as int);
                    crate::seqs::lemma_assoc_remove(ep, i as int);
                }
                let entry = self.entries.remove(i);
                assert(entry_pairs(self.entries@) =~= ep.remove(i as int));
                assert(doc_wf(entry));
                assert forall|k: int| 0 <= k < self.entries@.len() implies doc_wf(
                    #[trigger] self.entries@[k],
                ) by {
                    if k < i {
                        assert(self.entries@[k] == old(self).entries@[k]);
                    } else {
                        assert(self.entries@[k] == old(self).entries@[k + 1]);
                    }
                }
                match metadata_get(&entry.metadata, "_id") {
                    Some(x) => {
                        self.remove_external(x.as_str());
                    },
                    None => {},
                }
                Ok(())
            },
        }
    }

    /// The ids among `doc_ids` of registered documents.
    pub fn filter_existing(&self, doc_ids: &[u64]) -> (r: std::collections::HashSet<u64>)
        requires
            self.wf(),
        ensures
            r@ == Set::new(
                |id: u64| doc_ids@.contains(id) && self.spec_entries().contains_key(id),
            ),
    {
        broadcast use vstd::std_specs::hash::group_hash_axioms;

        let mut r: std::collections::HashSet<u64> = std::collections::HashSet::new();
        let mut i: usize = 0;
        while i < doc_ids.len()
            invariant
                i <= doc_ids@.len(),
                self.wf(),
                r@ == Set::new(
                    |id: u64| doc_ids@.take(i as int).contains(id) && self.spec_entries().contains_key(
                        id,
                    ),
                ),
            decreases doc_ids.len() - i,
        {
            let id = doc_ids[i];
            let ghost before = r@;
            proof {
                assert(doc_ids@.take(i + 1) =~= doc_ids@.take(i as int).push(id));
                assert forall|x: u64| #[trigger] doc_ids@.take(i + 1).contains(x) == (doc_ids@.take(
                    i as int,
                ).contains(x) || x == id) by {
                    vstd::seq_lib::lemma_seq_contains_after_push(doc_ids@.take(i as int), id, x);
                }
            }
            if self.contains(id) {
                r.insert(id);
                assert(r@ =~= Set::new(
                    |x: u64| doc_ids@.take(i + 1).contains(x) && self.spec_entries().contains_key(x),
                ));
            } else {
                assert(r@ =~= Set::new(
                    |x: u64| doc_ids@.take(i + 1).contains(x) && self.spec_entries().contains_key(x),
                ));
            }
            i = i + 1;
        }
        assert(doc_ids@.take(doc_ids@.len() as int) =~= doc_ids@);
        r
    }

    /// The number of registered documents.
    pub fn document_count(&self) -> (n: usize)
        requires
            self.wf(),
        ensures
            n == self.spec_entries().len(),
    {
        proof {
            crate::seqs::lemma_assoc_len(entry_pairs(self.entries@));
        }
        self.entries.len()
    }

    /// For each registered document that passes the document part of
    /// `filter`, the fields among `target_fields` that it has and whose
    /// metadata passes the field part; documents with no such field are
    /// left out. An empty part of the filter lets everything pass.
    pub fn filter_matches(&self, filter: &VectorFilter, target_fields: &Vec<String>) -> (r: Vec<
        (u64, Vec<String>),
    >)
        requires
            self.wf(),
        ensures
            keys_distinct(matches_pairs(r@)),
            assoc_map(matches_pairs(r@)) == filter_result(
                self.spec_entries(),
                *filter,
                strings_view(target_fields@),
            ),
    {
        let ghost ep = entry_pairs(self.entries@);
        let ghost targets = strings_view(target_fields@);
        let mut r: Vec<(u64, Vec<String>)> = Vec::new();
        let mut i: usize = 0;
        proof {
            crate::seqs::lemma_assoc_empty(ep.take(0));
            crate::seqs::lemma_assoc_empty(matches_pairs(r@));
            assert(filter_result(assoc_map(ep.take(0)), *filter, targets) =~= Map::<
                u64,
                Set<Seq<char>>,
            >::empty());
        }
        while i < self.entries.len()
            invariant
                i <= self.entries@.len(),
                self.wf(),
                ep == entry_pairs(self.entries@),
                targets == strings_view(target_fields@),
                keys_distinct(matches_pairs(r@)),
                assoc_map(matches_pairs(r@)) == filter_result(
                    assoc_map(ep.take(i as int)),
                    *filter,
                    targets,
                ),
            decreases self.entries.len() - i,
        {
            let d = &self.entries[i];
            let ghost dv = doc_view(*d);
            let ghost prefix = ep.take(i as int);
            proof {
                assert(ep.take(i + 1) =~= prefix.push((d.doc_id, dv)));
                assert(keys_distinct(prefix));
                if assoc_map(prefix).contains_key(d.doc_id) {
                    let k = choose|k: int| 0 <= k < prefix.len() && prefix[k].0 == d.doc_id;
                    assert(ep[k].0 != ep[i as int].0);
                }
                crate::seqs::lemma_assoc_push(prefix, (d.doc_id, dv));
            }
            let passes = filter.document.is_empty() || filter.document.matches(&d.metadata);
            if passes {
                let matched = self.matched_in(i, filter, target_fields);
                if matched.len() > 0 {
                    let ghost rp = matches_pairs(r@);
                    proof {
                        let ms = strings_view(matched@).to_set();
                        assert(ms.contains(strings_view(matched@)[0]));
                        if assoc_map(rp).contains_key(d.doc_id) {
                            assert(assoc_map(prefix).contains_key(d.doc_id));
                        }
                        crate::seqs::lemma_assoc_push(rp, (d.doc_id, ms));
                        assert(filter_result(assoc_map(ep.take(i + 1)), *filter, targets)
                            =~= filter_result(assoc_map(prefix), *filter, targets).insert(
                            d.doc_id,
                            ms,
                        ));
                    }
                    r.push((d.doc_id, matched));
                    assert(matches_pairs(r@) =~= rp.push(
                        (d.doc_id, strings_view(matched@).to_set()),
                    ));
                } else {
                    proof {
                        assert(matched_fields(*filter, targets, dv) =~= Set::<Seq<char>>::empty());
                        assert(filter_result(assoc_map(ep.take(i + 1)), *filter, targets)
                            =~= filter_result(assoc_map(prefix), *filter, targets));
                    }
                }
            } else {
                assert(filter_result(assoc_map(ep.take(i + 1)), *filter, targets) =~= filter_result(
                    assoc_map(prefix),
                    *filter,
                    targets,
                ));
            }
            i = i + 1;
        }
        assert(ep.take(self.entries@.len() as int) =~= ep);
        r
    }

    fn matched_in(&self, i: usize, filter: &VectorFilter, target_fields: &Vec<String>) -> (m: Vec<
        String,
    >)
        requires
            self.wf(),
            i < self.entries@.len(),
        ensures
            strings_view(m@).to_set() == matched_fields(
                *filter,
                strings_view(target_fields@),
                doc_view(self.entries@[i as int]),
            ),
    {
        let d = &self.entries[i];
        let ghost dv = doc_view(*d);
        let ghost targets = strings_view(target_fields@);
        let ghost fp = field_pairs(d.fields@);
        assert(doc_wf(*d));
        let mut m: Vec<String> = Vec::new();
        let mut j: usize = 0;
        assert(strings_view(m@).to_set() =~= Set::<Seq<char>>::empty());
        while j < target_fields.len()
            invariant
                j <= target_fields@.len(),
                targets == strings_view(target_fields@),
                fp == field_pairs(d.fields@),
                dv == doc_view(*d),
                doc_wf(*d),
                strings_view(m@).to_set() == Set::new(
                    |t: Seq<char>|
                        targets.take(j as int).contains(t) && dv.3.contains_key(t) && field_passes(
                            *filter,
                            dv.3[t],
                        ),
                ),
            decreases target_fields.len() - j,
        {
            let t = target_fields[j].as_str();
            let ghost before = strings_view(m@);
            proof {
                assert(targets.take(j + 1) =~= targets.take(j as int).push(t@));
                assert forall|x: Seq<char>| #[trigger] targets.take(j + 1).contains(x) == (
                targets.take(j as int).contains(x) || x == t@) by {
                    vstd::seq_lib::lemma_seq_contains_after_push(targets.take(j as int), t@, x);
                }
            }
            let mut keep = false;
            let found = find_field(&d.fields, t);
            match found {
                Some(k) => {
                    proof {
                        lemma_assoc_at(fp, k as int);
                    }
                    let fe = &d.fields[k];
                    assert(keys_distinct(pairs_view(d.fields@[k as int].metadata@)));
                    if filter.field.is_empty() || filter.field.matches(&fe.metadata) {
                        keep = true;
                    }
                    assert(keep == field_passes(*filter, dv.3[t@]));
                },
                None => {},
            }
            if found.is_none() {
                assert(!dv.3.contains_key(t@));
            }
            if keep && !crate::vector_request::names_contain(&m, t) {
                m.push(owned(t));
                proof {
                    assert(strings_view(m@) =~= before.push(t@));
                    assert forall|x: Seq<char>| #[trigger] strings_view(m@).contains(x) == (
                    before.contains(x) || x == t@) by {
                        vstd::seq_lib::lemma_seq_contains_after_push(before, t@, x);
                    }
                }
            }
            proof {
                let goal = Set::new(
                    |x: Seq<char>|
                        targets.take(j + 1).contains(x) && dv.3.contains_key(x) && field_passes(
                            *filter,
                            dv.3[x],
                        ),
                );
                assert(keep == (dv.3.contains_key(t@) && field_passes(*filter, dv.3[t@])));
                let old_goal = Set::new(
                    |x: Seq<char>|
                        targets.take(j as int).contains(x) && dv.3.contains_key(x) && field_passes(
                            *filter,
                            dv.3[x],
                        ),
                );
                assert(before.to_set() == old_goal);
                assert forall|x: Seq<char>| #[trigger] strings_view(m@).to_set().contains(x)
                    == goal.contains(x) by {
                    assert(before.to_set().contains(x) == before.contains(x));
                    assert(strings_view(m@).to_set().contains(x) == strings_view(m@).contains(x));
                    assert(targets.take(j + 1).contains(x) == (targets.take(j as int).contains(x)
                        || x == t@));
                    if x == t@ {
                        if keep {
                            assert(strings_view(m@).contains(t@));
                        } else {
                            assert(!old_goal.contains(x));
                            assert(!strings_view(m@).contains(x));
                        }
                    } else {
                        assert(strings_view(m@).contains(x) == before.contains(x));
                        assert(old_goal.contains(x) == goal.contains(x));
                    }
                }
                assert(strings_view(m@).to_set() =~= goal);
            }
            j = j + 1;
        }
        assert(targets.take(target_fields@.len() as int) =~= targets);
        assert(strings_view(m@).to_set() =~= matched_fields(*filter, targets, dv));
        m
    }

    /// Copies of the registered documents, one per id, for a snapshot.
    pub fn snapshot_entries(&self) -> (r: Vec<DocumentEntry>)
        requires
            self.wf(),
        ensures
            keys_distinct(entry_pairs(r@)),
            assoc_map(entry_pairs(r@)) == self.spec_entries(),
            forall|i: int| 0 <= i < r@.len() ==> doc_wf(#[trigger] r@[i]),
    {
        let mut r: Vec<DocumentEntry> = Vec::new();
        let mut i: usize = 0;
        while i < self.entries.len()
            invariant
                i <= self.entries@.len(),
                self.wf(),
                entry_pairs(r@) == entry_pairs(self.entries@).take(i as int),
                forall|k: int| 0 <= k < r@.len() ==> doc_wf(#[trigger] r@[k]),
            decreases self.entries.len() - i,
        {
            let d = self.entries[i].duplicate();
            let ghost before = entry_pairs(r@);
            assert(doc_wf(self.entries@[i as int]));
            r.push(d);
            assert(entry_pairs(r@) =~= before.push((d.doc_id, doc_view(d))));
            assert(entry_pairs(self.entries@).take(i + 1) =~= entry_pairs(self.entries@).take(
                i as int,
            ).push((d.doc_id, doc_view(d))));
            i = i + 1;
        }
        assert(entry_pairs(self.entries@).take(self.entries@.len() as int) =~= entry_pairs(
            self.entries@,
        ));
        r
    }

    /// The registry that a snapshot's documents describe: each document
    /// under its id (a later one winning over an earlier one with the same
    /// id), the external ids found in their metadata, and the highest
    /// version among them as the last version handed out.
    pub fn from_entries(entries: Vec<DocumentEntry>) -> (r: Self)
        requires
            forall|i: int| 0 <= i < entries@.len() ==> doc_wf(#[trigger] entries@[i]),
        ensures
            r.wf(),
            r.spec_entries() == fold_insert(entry_pairs(entries@)),
            r.spec_external_ids() == external_fold(entries@),
            r.spec_next_version() == max_version(entries@),
    {
        let mut reg = DocumentVectorRegistry::new();
        let mut i: usize = 0;
        while i < entries.len()
            invariant
                i <= entries@.len(),
                forall|k: int| 0 <= k < entries@.len() ==> doc_wf(#[trigger] entries@[k]),
                reg.wf(),
                reg.spec_entries() == fold_insert(entry_pairs(entries@.take(i as int))),
                reg.spec_external_ids() == external_fold(entries@.take(i as int)),
                reg.spec_next_version() == max_version(entries@.take(i as int)),
            decreases entries.len() - i,
        {
            let d = entries[i].duplicate();
            let ghost t = entries@.take(i + 1);
            assert(t.drop_last() =~= entries@.take(i as int));
            assert(t.last() == entries@[i as int]);
            assert(entry_pairs(t).drop_last() =~= entry_pairs(entries@.take(i as int)));
            assert(doc_wf(entries@[i as int]));
            if d.version > reg.next_version {
                reg.next_version = d.version;
            }
            let external = metadata_get(&d.metadata, "_id");
            let doc_id = d.doc_id;
            reg.put_entry(d);
            match external {
                Some(x) => {
                    reg.put_external(x, doc_id);
                },
                None => {},
            }
            i = i + 1;
        }
        assert(entries@.take(entries@.len() as int) =~= entries@);
        reg
    }
}

/// Whether a document's metadata passes the document part of `filter`.
pub open spec fn doc_passes(filter: VectorFilter, d: DocView) -> bool {
    filter.document.equals@.len() == 0 || metadata_matches(pairs_view(filter.document.equals@), d.2)
}

/// Whether a field's metadata passes the field part of `filter`.
pub open spec fn field_passes(filter: VectorFilter, f: FieldView) -> bool {
    filter.field.equals@.len() == 0 || metadata_matches(pairs_view(filter.field.equals@), f.4)
}

/// The target fields of a document that it has and whose metadata passes
/// the field part of `filter`.
pub open spec fn matched_fields(filter: VectorFilter, targets: Seq<Seq<char>>, d: DocView) -> Set<
    Seq<char>,
> {
    Set::new(
        |t: Seq<char>| targets.contains(t) && d.3.contains_key(t) && field_passes(filter, d.3[t]),
    )
}

/// For each document that passes the document part of `filter` and has at
/// least one matched target field, those fields.
pub open spec fn filter_result(
    entries: Map<u64, DocView>,
    filter: VectorFilter,
    targets: Seq<Seq<char>>,
) -> Map<u64, Set<Seq<char>>> {
    Map::new(
        |id: u64|
            entries.contains_key(id) && doc_passes(filter, entries[id]) && !matched_fields(
                filter,
                targets,
                entries[id],
            ).is_empty(),
        |id: u64| matched_fields(filter, targets, entries[id]),
    )
}

/// The documents of a filter result, each with the set of its fields.
pub open spec fn matches_pairs(v: Seq<(u64, Vec<String>)>) -> Seq<(u64, Set<Seq<char>>)> {
    v.map_values(|p: (u64, Vec<String>)| (p.0, strings_view(p.1@).to_set()))
}

/// The highest version of the documents of `s` (0 where there are none).
pub open spec fn max_version(s: Seq<DocumentEntry>) -> u64
    decreases s.len(),
{
    if s.len() == 0 {
        0
    } else if s.last().version > max_version(s.drop_last()) {
        s.last().version
    } else {
        max_version(s.drop_last())
    }
}

/// The external ids of the documents of `s`, each mapped to its document,
/// a later document winning over an earlier one with the same external id.
pub open spec fn external_fold(s: Seq<DocumentEntry>) -> Map<Seq<char>, u64>
    decreases s.len(),
{
    if s.len() == 0 {
        Map::empty()
    } else {
        match external_id_of(pairs_view(s.last().metadata@)) {
            Some(x) => external_fold(s.drop_last()).insert(x, s.last().doc_id),
            None => external_fold(s.drop_last()),
        }
    }
}

/// The position of the field entry named `name`, if any.
fn find_field(v: &Vec<FieldEntry>, name: &str) -> (r: Option<usize>)
    ensures
        match r {
            None => !assoc_map(field_pairs(v@)).contains_key(name@),
            Some(j) => j < v@.len() && field_pairs(v@)[j as int].0 == name@,
        },
{
    let ghost fp = field_pairs(v@);
    let mut j: usize = 0;
    while j < v.len()
        invariant
            j <= v@.len(),
            fp == field_pairs(v@),
            forall|k: int| 0 <= k < j ==> fp[k].0 != name@,
        decreases v.len() - j,
    {
        if str_eq(v[j].field_name.as_str(), name) {
            return Some(j);
        }
        j = j + 1;
    }
    proof {
        if assoc_map(fp).contains_key(name@) {
            let k = choose|k: int| 0 <= k < fp.len() && fp[k].0 == name@;
            assert(fp[k].0 != name@);
        }
    }
    None
}

/// The field entries of `fields`, each with version `version`, one per
/// field name (a later entry winning over an earlier one).
fn versioned_fields(fields: &Vec<FieldEntry>, version: u64) -> (r: Vec<FieldEntry>)
    requires
        forall|i: int|
            0 <= i < fields@.len() ==> keys_distinct(pairs_view((#[trigger] fields@[i]).metadata@)),
    ensures
        keys_distinct(field_pairs(r@)),
        assoc_map(field_pairs(r@)) == fields_with_version(fields@, version),
        forall|i: int| 0 <= i < r@.len() ==> keys_distinct(pairs_view((#[trigger] r@[i]).metadata@)),
{
    let ghost vp = fields@.map_values(
        |f: FieldEntry|
            (
                f.field_name@,
                (f.field_name@, version, f.vector_count, f.weight_bits, pairs_view(f.metadata@)),
            ),
    );
    let mut out: Vec<FieldEntry> = Vec::new();
    proof {
        crate::seqs::lemma_assoc_empty(field_pairs(out@));
    }
    let mut i: usize = 0;
    while i < fields.len()
        invariant
            i <= fields@.len(),
            vp == fields@.map_values(
                |f: FieldEntry|
                    (
                        f.field_name@,
                        (
                            f.field_name@,
                            version,
                            f.vector_count,
                            f.weight_bits,
                            pairs_view(f.metadata@),
                        ),
                    ),
            ),
            forall|k: int|
                0 <= k < fields@.len() ==> keys_distinct(pairs_view((#[trigger] fields@[k]).metadata@)),
            keys_distinct(field_pairs(out@)),
            assoc_map(field_pairs(out@)) == fold_insert(vp.take(i as int)),
            forall|k: int| 0 <= k < out@.len() ==> keys_distinct(pairs_view((#[trigger] out@[k]).metadata@)),
        decreases fields.len() - i,
    {
        let mut e = fields[i].duplicate();
        e.version = version;
        let ghost pair = (e.field_name@, field_view(e));
        assert(pair == vp[i as int]);
        assert(vp.take(i + 1).drop_last() =~= vp.take(i as int));
        assert(vp.take(i + 1).last() == vp[i as int]);
        assert(keys_distinct(pairs_view(fields@[i as int].metadata@)));
        let ghost fp = field_pairs(out@);
        let found = find_field(&out, e.field_name.as_str());
        match found {
            Some(j) => {
                proof {
                    crate::seqs::lemma_assoc_update(fp, j as int, pair);
                }
                out.set(j, e);
                assert(field_pairs(out@) =~= fp.update(j as int, pair));
            },
            None => {
                proof {
                    crate::seqs::lemma_assoc_push(fp, pair);
                }
                out.push(e);
                assert(field_pairs(out@) =~= fp.push(pair));
            },
        }
        i = i + 1;
    }
    assert(vp.take(fields@.len() as int) =~= vp);
    out
}

} // verus!
