//! Documents: named fields, each holding a value.
//!
//! Floating-point and date-time values are held by what stands for them:
//! the IEEE 754 bits of a float, and the microseconds since the Unix epoch
//! of a UTC date-time.

use vstd::prelude::*;
use crate::field::{
    BlobOption, BooleanOption, DateTimeOption, FieldOption, FloatOption, GeoOption, IntegerOption,
    TextOption,
};
use crate::seqs::{assoc_map, keys_distinct, lemma_assoc_at, lemma_assoc_remove};
use crate::text::{owned, str_eq};

verus! {

/// The value of a field of a document.
#[derive(Debug, Clone)]
pub enum DataValue {
    Null,
    Bool(bool),
    Int64(i64),
    /// A float, as the bits of an IEEE 754 double.
    Float64(u64),
    /// A keyword, id or other text that is not tokenized.
    String(String),
    /// Text to index in full and to embed.
    Text(String),
    /// Binary content to embed, with its MIME type if known.
    Bytes(Vec<u8>, Option<String>),
    /// A vector, each component as the bits of an IEEE 754 single.
    Vector(Vec<u32>),
    /// A list of strings (such as tags).
    List(Vec<String>),
    /// A UTC date-time, as microseconds since the Unix epoch.
    DateTime(i64),
    /// A geographic point: latitude and longitude, as the bits of IEEE 754
    /// doubles.
    Geo(u64, u64),
}

impl DataValue {
    /// The text of a `Text` or `String` value.
    pub fn as_text(&self) -> (r: Option<&str>)
        ensures
            match *self {
                DataValue::Text(s) => r matches Some(t) && t@ == s@,
                DataValue::String(s) => r matches Some(t) && t@ == s@,
                _ => r is None,
            },
    {
        match self {
            DataValue::Text(s) => Some(s.as_str()),
            DataValue::String(s) => Some(s.as_str()),
            _ => None,
        }
    }

    /// The integer of an `Int64` value.
    pub fn as_integer(&self) -> (r: Option<i64>)
        ensures
            match *self {
                DataValue::Int64(i) => r == Some(i),
                _ => r is None,
            },
    {
        match self {
            DataValue::Int64(i) => Some(*i),
            _ => None,
        }
    }

    /// The bits of the float of a `Float64` value.
    pub fn as_float(&self) -> (r: Option<u64>)
        ensures
            match *self {
                DataValue::Float64(f) => r == Some(f),
                _ => r is None,
            },
    {
        match self {
            DataValue::Float64(f) => Some(*f),
            _ => None,
        }
    }

    /// The flag of a `Bool` value.
    pub fn as_boolean(&self) -> (r: Option<bool>)
        ensures
            match *self {
                DataValue::Bool(b) => r == Some(b),
                _ => r is None,
            },
    {
        match self {
            DataValue::Bool(b) => Some(*b),
            _ => None,
        }
    }

    /// The microseconds of a `DateTime` value.
    pub fn as_datetime(&self) -> (r: Option<i64>)
        ensures
            match *self {
                DataValue::DateTime(t) => r == Some(t),
                _ => r is None,
            },
    {
        match self {
            DataValue::DateTime(t) => Some(*t),
            _ => None,
        }
    }

    /// The components of a `Vector` value.
    pub fn as_vector_ref(&self) -> (r: Option<&Vec<u32>>)
        ensures
            match *self {
                DataValue::Vector(v) => r matches Some(w) && w@ == v@,
                _ => r is None,
            },
    {
        match self {
            DataValue::Vector(v) => Some(v),
            _ => None,
        }
    }

    /// The bytes of a `Bytes` value.
    pub fn as_bytes_ref(&self) -> (r: Option<&[u8]>)
        ensures
            match *self {
                DataValue::Bytes(b, _) => r matches Some(w) && w@ == b@,
                _ => r is None,
            },
    {
        match self {
            DataValue::Bytes(b, _) => Some(b.as_slice()),
            _ => None,
        }
    }

    /// The latitude and longitude bits of a `Geo` value.
    pub fn as_geo(&self) -> (r: Option<(u64, u64)>)
        ensures
            match *self {
                DataValue::Geo(lat, lon) => r == Some((lat, lon)),
                _ => r is None,
            },
    {
        match self {
            DataValue::Geo(lat, lon) => Some((*lat, *lon)),
            _ => None,
        }
    }
}

/// The fields of a list of named values, by name.
pub open spec fn fields_pairs(v: Seq<(String, DataValue)>) -> Seq<(Seq<char>, DataValue)> {
    v.map_values(|p: (String, DataValue)| (p.0@, p.1))
}

/// A document: an optional id and named fields, each name once.
#[derive(Debug, Clone)]
pub struct Document {
    pub id: Option<String>,
    fields: Vec<(String, DataValue)>,
}

impl Document {
    /// The document's fields by name.
    pub closed spec fn spec_fields(&self) -> Map<Seq<char>, DataValue> {
        assoc_map(fields_pairs(self.fields@))
    }

    /// The document's internal consistency: each field name once.
    pub closed spec fn wf(&self) -> bool {
        keys_distinct(fields_pairs(self.fields@))
    }

    /// The document's id as text, if it has one.
    pub closed spec fn spec_id(&self) -> Option<Seq<char>> {
        match self.id {
            Some(s) => Some(s@),
            None => None,
        }
    }

    /// A document with no id and no field.
    pub fn new() -> (d: Self)
        ensures
            d.wf(),
            d.spec_id() is None,
            d.spec_fields() == Map::<Seq<char>, DataValue>::empty(),
    {
        let d = Document { id: None, fields: Vec::new() };
        assert(d.spec_fields() =~= Map::<Seq<char>, DataValue>::empty());
        d
    }

    /// A document with the given id and no field.
    pub fn new_with_id(id: &str) -> (d: Self)
        ensures
            d.wf(),
            d.spec_id() == Some(id@),
            d.spec_fields() == Map::<Seq<char>, DataValue>::empty(),
    {
        let d = Document { id: Some(owned(id)), fields: Vec::new() };
        assert(d.spec_fields() =~= Map::<Seq<char>, DataValue>::empty());
        d
    }

    /// The document with its id set to `id`.
    pub fn set_id(self, id: &str) -> (d: Self)
        requires
            self.wf(),
        ensures
            d.wf(),
            d.spec_id() == Some(id@),
            d.spec_fields() == self.spec_fields(),
    {
        Document { id: Some(owned(id)), fields: self.fields }
    }

    fn field_index(&self, name: &str) -> (r: Option<usize>)
        requires
            self.wf(),
        ensures
            match r {
                None => !self.spec_fields().contains_key(name@),
                Some(i) => i < self.fields@.len() && self.fields@[i as int].0@ == name@,
            },
    {
        let ghost fp = fields_pairs(self.fields@);
        let mut i: usize = 0;
        while i < self.fields.len()
            invariant
                i <= self.fields@.len(),
                fp == fields_pairs(self.fields@),
                forall|j: int| 0 <= j < i ==> fp[j].0 != name@,
            decreases self.fields.len() - i,
        {
            if str_eq(self.fields[i].0.as_str(), name) {
                return Some(i);
            }
            i = i + 1;
        }
        proof {
            if self.spec_fields().contains_key(name@) {
                let j = choose|j: int| 0 <= j < fp.len() && fp[j].0 == name@;
                assert(fp[j].0 != name@);
            }
        }
        None
    }

    /// The document with field `name` set to `value` (replacing the value
    /// it had).
    pub fn add_field(self, name: &str, value: DataValue) -> (d: Self)
        requires
            self.wf(),
        ensures
            d.wf(),
            d.spec_id() == self.spec_id(),
            d.spec_fields() == self.spec_fields().insert(name@, value),
    {
        let mut d = self;
        let ghost fp = fields_pairs(d.fields@);
        let ghost pair = (name@, value);
        match d.field_index(name) {
            Some(i) => {
                proof {
                    crate::seqs::lemma_assoc_update(fp, i as int, pair);
                }
                d.fields.set(i, (owned(name), value));
                assert(fields_pairs(d.fields@) =~= fp.update(i as int, pair));
            },
            None => {
                proof {
                    crate::seqs::lemma_assoc_push(fp, pair);
                }
                d.fields.push((owned(name), value));
                assert(fields_pairs(d.fields@) =~= fp.push(pair));
            },
        }
        d
    }

    /// The document with text field `name` set to `text`.
    pub fn add_text(self, name: &str, text: &str) -> (d: Self)
        requires
            self.wf(),
        ensures
            d.wf(),
            d.spec_id() == self.spec_id(),
            d.spec_fields().dom() == self.spec_fields().dom().insert(name@),
            d.spec_fields()[name@] matches DataValue::Text(s) && s@ == text@,
            forall|k: Seq<char>| k != name@ && #[trigger] self.spec_fields().contains_key(k) ==> d.spec_fields()[k]
                == self.spec_fields()[k],
    {
        let v = DataValue::Text(owned(text));
        let d = self.add_field(name, v);
        proof {
            assert(self.spec_fields().insert(name@, v).dom() =~= self.spec_fields().dom().insert(name@));
        }
        d
    }

    /// The document with integer field `name` set to `value`.
    pub fn add_integer(self, name: &str, value: i64) -> (d: Self)
        requires
            self.wf(),
        ensures
            d.wf(),
            d.spec_id() == self.spec_id(),
            d.spec_fields() == self.spec_fields().insert(name@, DataValue::Int64(value)),
    {
        self.add_field(name, DataValue::Int64(value))
    }

    /// The document with float field `name` set to the float whose bits are
    /// `bits`.
    pub fn add_float(self, name: &str, bits: u64) -> (d: Self)
        requires
            self.wf(),
        ensures
            d.wf(),
            d.spec_id() == self.spec_id(),
            d.spec_fields() == self.spec_fields().insert(name@, DataValue::Float64(bits)),
    {
        self.add_field(name, DataValue::Float64(bits))
    }

    /// The document with boolean field `name` set to `value`.
    pub fn add_boolean(self, name: &str, value: bool) -> (d: Self)
        requires
            self.wf(),
        ensures
            d.wf(),
            d.spec_id() == self.spec_id(),
            d.spec_fields() == self.spec_fields().insert(name@, DataValue::Bool(value)),
    {
        self.add_field(name, DataValue::Bool(value))
    }

    /// The document with date-time field `name` set to `micros`
    /// microseconds since the Unix epoch.
    pub fn add_datetime(self, name: &str, micros: i64) -> (d: Self)
        requires
            self.wf(),
        ensures
            d.wf(),
            d.spec_id() == self.spec_id(),
            d.spec_fields() == self.spec_fields().insert(name@, DataValue::DateTime(micros)),
    {
        self.add_field(name, DataValue::DateTime(micros))
    }

    /// The document with vector field `name` set to the vector whose
    /// components have the bits `vector`.
    pub fn add_vector(self, name: &str, vector: Vec<u32>) -> (d: Self)
        requires
            self.wf(),
        ensures
            d.wf(),
            d.spec_id() == self.spec_id(),
            d.spec_fields().dom() == self.spec_fields().dom().insert(name@),
            d.spec_fields()[name@] matches DataValue::Vector(v) && v@ == vector@,
            forall|k: Seq<char>| k != name@ && #[trigger] self.spec_fields().contains_key(k) ==> d.spec_fields()[k]
                == self.spec_fields()[k],
    {
        let ghost vv = vector@;
        let v = DataValue::Vector(vector);
        let d = self.add_field(name, v);
        proof {
            assert(self.spec_fields().insert(name@, v).dom() =~= self.spec_fields().dom().insert(name@));
        }
        d
    }

    /// The document with geo field `name` set to the point whose latitude
    /// and longitude have the bits `lat` and `lon`.
    pub fn add_geo(self, name: &str, lat: u64, lon: u64) -> (d: Self)
        requires
            self.wf(),
        ensures
            d.wf(),
            d.spec_id() == self.spec_id(),
            d.spec_fields() == self.spec_fields().insert(name@, DataValue::Geo(lat, lon)),
    {
        self.add_field(name, DataValue::Geo(lat, lon))
    }

    /// The document with binary field `name` set to `data`, of no known
    /// MIME type.
    pub fn add_bytes(self, name: &str, data: Vec<u8>) -> (d: Self)
        requires
            self.wf(),
        ensures
            d.wf(),
            d.spec_id() == self.spec_id(),
            d.spec_fields().dom() == self.spec_fields().dom().insert(name@),
            d.spec_fields()[name@] matches DataValue::Bytes(b, m) && b@ == data@ && m is None,
            forall|k: Seq<char>| k != name@ && #[trigger] self.spec_fields().contains_key(k) ==> d.spec_fields()[k]
                == self.spec_fields()[k],
    {
        let v = DataValue::Bytes(data, None);
        let d = self.add_field(name, v);
        proof {
            assert(self.spec_fields().insert(name@, v).dom() =~= self.spec_fields().dom().insert(name@));
        }
        d
    }

    /// The value of field `name`, if the document has it.
    pub fn get(&self, name: &str) -> (r: Option<&DataValue>)
        requires
            self.wf(),
        ensures
            match r {
                None => !self.spec_fields().contains_key(name@),
                Some(v) => self.spec_fields().contains_key(name@) && *v == self.spec_fields()[name@],
            },
    {
        match self.field_index(name) {
            None => None,
            Some(i) => {
                proof {
                    lemma_assoc_at(fields_pairs(self.fields@), i as int);
                }
                Some(&self.fields[i].1)
            },
        }
    }

    /// The value of field `name`, if the document has it.
    pub fn get_field(&self, name: &str) -> (r: Option<&DataValue>)
        requires
            self.wf(),
        ensures
            match r {
                None => !self.spec_fields().contains_key(name@),
                Some(v) => self.spec_fields().contains_key(name@) && *v == self.spec_fields()[name@],
            },
    {
        self.get(name)
    }

    /// Whether the document has field `name`.
    pub fn has_field(&self, name: &str) -> (b: bool)
        requires
            self.wf(),
        ensures
            b == self.spec_fields().contains_key(name@),
    {
        match self.field_index(name) {
            None => false,
            Some(i) => {
                proof {
                    lemma_assoc_at(fields_pairs(self.fields@), i as int);
                }
                true
            },
        }
    }

    /// The names of the document's fields, each once.
    pub fn field_names(&self) -> (r: Vec<&str>)
        requires
            self.wf(),
        ensures
            r@.len() == self.spec_fields().len(),
            forall|i: int| 0 <= i < r@.len() ==> self.spec_fields().contains_key(#[trigger] r@[i]@),
            forall|i: int, j: int| 0 <= i < j < r@.len() ==> r@[i]@ != r@[j]@,
    {
        let ghost fp = fields_pairs(self.fields@);
        let mut r: Vec<&str> = Vec::new();
        let mut i: usize = 0;
        while i < self.fields.len()
            invariant
                i <= self.fields@.len(),
                fp == fields_pairs(self.fields@),
                keys_distinct(fp),
                r@.len() == i,
                forall|k: int| 0 <= k < i ==> (#[trigger] r@[k])@ == fp[k].0,
            decreases self.fields.len() - i,
        {
            r.push(self.fields[i].0.as_str());
            i = i + 1;
        }
        proof {
            crate::seqs::lemma_assoc_len(fp);
            assert forall|k: int| 0 <= k < r@.len() implies self.spec_fields().contains_key(
                #[trigger] r@[k]@,
            ) by {
                lemma_assoc_at(fp, k);
            }
        }
        r
    }

    /// The number of fields.
    pub fn len(&self) -> (n: usize)
        requires
            self.wf(),
        ensures
            n == self.spec_fields().len(),
    {
        proof {
            crate::seqs::lemma_assoc_len(fields_pairs(self.fields@));
        }
        self.fields.len()
    }

    /// Whether the document has no field.
    pub fn is_empty(&self) -> (b: bool)
        requires
            self.wf(),
        ensures
            b == (self.spec_fields().len() == 0),
    {
        proof {
            crate::seqs::lemma_assoc_len(fields_pairs(self.fields@));
        }
        self.fields.len() == 0
    }
}

/// How a schema declares a field, as far as reading documents back goes.
#[derive(Debug, Clone, Copy, PartialEq, Eq, Structural)]
pub enum DeclaredField {
    /// A vector field.
    Vector,
    /// A lexical field with its options.
    Lexical(FieldOption),
}

/// A schema's declarations by field name.
pub open spec fn declarations(v: Seq<(String, DeclaredField)>) -> Seq<(Seq<char>, DeclaredField)> {
    v.map_values(|p: (String, DeclaredField)| (p.0@, p.1))
}

/// The declaration of field `name`, if the schema has one.
pub open spec fn declaration_of(schema: Seq<(Seq<char>, DeclaredField)>, name: Seq<char>) -> Option<
    DeclaredField,
> {
    if assoc_map(schema).contains_key(name) {
        Some(assoc_map(schema)[name])
    } else {
        None
    }
}

/// Whether a field declared as `decl` stays in a document read back: a
/// vector field does; a lexical field when its values are stored; a field
/// the schema does not declare only when it is the system field `_id`.
pub open spec fn kept_on_read(decl: Option<DeclaredField>, name: Seq<char>) -> bool {
    match decl {
        Some(DeclaredField::Vector) => true,
        Some(DeclaredField::Lexical(o)) => o.spec_stored(),
        None => name == seq!['_', 'i', 'd'],
    }
}

/// Reading a document back keeps a lexical field exactly when its options
/// store its values (whatever the options say of indexing), always keeps a
/// vector field, and keeps an undeclared field only when it is `_id`.
pub proof fn lemma_read_back_keeps_stored(name: Seq<char>, o: FieldOption)
    ensures
        kept_on_read(Some(DeclaredField::Lexical(o)), name) == match o {
            FieldOption::Text(t) => t.stored,
            FieldOption::Integer(t) => t.stored,
            FieldOption::Float(t) => t.stored,
            FieldOption::Boolean(t) => t.stored,
            FieldOption::Blob(t) => t.stored,
            FieldOption::DateTime(t) => t.stored,
            FieldOption::Geo(t) => t.stored,
        },
        kept_on_read(Some(DeclaredField::Vector), name),
        kept_on_read(None, name) <==> name =~= seq!['_', 'i', 'd'],
{
    o.lemma_stored_is_the_stored_flag();
}

/// The declaration of field `name` in `schema`.
fn find_declaration(schema: &Vec<(String, DeclaredField)>, name: &str) -> (r: Option<DeclaredField>)
    requires
        keys_distinct(declarations(schema@)),
    ensures
        r == declaration_of(declarations(schema@), name@),
{
    let ghost sp = declarations(schema@);
    let mut i: usize = 0;
    while i < schema.len()
        invariant
            i <= schema@.len(),
            sp == declarations(schema@),
            keys_distinct(sp),
            forall|j: int| 0 <= j < i ==> sp[j].0 != name@,
        decreases schema.len() - i,
    {
        if str_eq(schema[i].0.as_str(), name) {
            proof {
                lemma_assoc_at(sp, i as int);
            }
            return Some(schema[i].1);
        }
        i = i + 1;
    }
    proof {
        if assoc_map(sp).contains_key(name@) {
            let j = choose|j: int| 0 <= j < sp.len() && sp[j].0 == name@;
            assert(sp[j].0 != name@);
        }
    }
    None
}

impl Document {
    /// The document as it is read back under a schema: the fields that
    /// [`kept_on_read`] keeps, with their values, and the same id.
    pub fn retained_by_schema(self, schema: &Vec<(String, DeclaredField)>) -> (d: Document)
        requires
            self.wf(),
            keys_distinct(declarations(schema@)),
        ensures
            d.wf(),
            d.spec_id() == self.spec_id(),
            d.spec_fields() == self.spec_fields().restrict(
                Set::new(|n: Seq<char>| kept_on_read(declaration_of(declarations(schema@), n), n)),
            ),
    {
        let ghost orig = self.spec_fields();
        let ghost fp0 = fields_pairs(self.fields@);
        let ghost sp = declarations(schema@);
        let ghost id0 = self.spec_id();
        let mut d = self;
        let mut i: usize = d.fields.len();
        while i > 0
            invariant
                i <= d.fields@.len(),
                d.wf(),
                d.spec_id() == id0,
                sp == declarations(schema@),
                keys_distinct(sp),
                fields_pairs(d.fields@).take(i as int) == fp0.take(i as int),
                i <= fp0.len(),
                forall|n: Seq<char>|
                    #[trigger] d.spec_fields().contains_key(n) <==> (orig.contains_key(n) && (
                    kept_on_read(declaration_of(sp, n), n) || exists|j: int|
                        0 <= j < i && fp0[j].0 == n)),
                forall|n: Seq<char>|
                    #[trigger] d.spec_fields().contains_key(n) ==> d.spec_fields()[n] == orig[n],
            decreases i,
        {
            let ghost fp = fields_pairs(d.fields@);
            let ghost n0 = fp[i - 1].0;
            let ghost before = d.spec_fields();
            assert(fp.take(i as int)[i - 1] == fp0.take(i as int)[i - 1]);
            assert(n0 == fp0[i - 1].0);
            assert(d.fields@[i - 1].0@ == n0);
            proof {
                reveal_strlit("_id");
            }
            let decl = find_declaration(schema, d.fields[i - 1].0.as_str());
            let keep = match decl {
                Some(DeclaredField::Vector) => true,
                Some(DeclaredField::Lexical(o)) => o.is_stored(),
                None => str_eq(d.fields[i - 1].0.as_str(), "_id"),
            };
            assert(decl == declaration_of(sp, n0));
            assert(decl is None ==> ("_id"@ == seq!['_', 'i', 'd']));
            assert(keep == kept_on_read(declaration_of(sp, n0), n0));
            if !keep {
                proof {
                    lemma_assoc_remove(fp, i - 1);
                }
                d.fields.remove(i - 1);
                assert(fields_pairs(d.fields@) =~= fp.remove(i - 1));
                assert(d.spec_fields() == before.remove(n0));
                assert(fields_pairs(d.fields@).take(i - 1) =~= fp0.take(i - 1)) by {
                    assert(fields_pairs(d.fields@).take(i - 1) =~= fp.take(i - 1));
                    assert(fp.take(i - 1) =~= fp.take(i as int).take(i - 1));
                    assert(fp0.take(i - 1) =~= fp0.take(i as int).take(i - 1));
                }
                assert forall|n: Seq<char>| #[trigger] d.spec_fields().contains_key(n) <==> (
                orig.contains_key(n) && (kept_on_read(declaration_of(sp, n), n) || exists|j: int|
                    0 <= j < i - 1 && fp0[j].0 == n)) by {
                    assert(before.contains_key(n) <==> (orig.contains_key(n) && (kept_on_read(
                        declaration_of(sp, n),
                        n,
                    ) || exists|j: int| 0 <= j < i && fp0[j].0 == n)));
                    if exists|j: int| 0 <= j < i - 1 && fp0[j].0 == n {
                        let j = choose|j: int| 0 <= j < i - 1 && fp0[j].0 == n;
                        assert(0 <= j < i && fp0[j].0 == n);
                    }
                    if n == n0 {
                        if exists|j: int| 0 <= j < i - 1 && fp0[j].0 == n {
                            let j = choose|j: int| 0 <= j < i - 1 && fp0[j].0 == n;
                            assert(fp[j] == fp0[j]) by {
                                assert(fp.take(i as int)[j] == fp0.take(i as int)[j]);
                            }
                            assert(fp[j].0 == fp[i - 1].0);
                        }
                    } else {
                        if exists|j: int| 0 <= j < i && fp0[j].0 == n {
                            let j = choose|j: int| 0 <= j < i && fp0[j].0 == n;
                            assert(j != i - 1);
                        }
                    }
                }
            } else {
                assert(fields_pairs(d.fields@).take(i - 1) =~= fp0.take(i - 1)) by {
                    assert(fp.take(i - 1) =~= fp.take(i as int).take(i - 1));
                    assert(fp0.take(i - 1) =~= fp0.take(i as int).take(i - 1));
                }
                assert forall|n: Seq<char>| #[trigger] d.spec_fields().contains_key(n) <==> (
                orig.contains_key(n) && (kept_on_read(declaration_of(sp, n), n) || exists|j: int|
                    0 <= j < i - 1 && fp0[j].0 == n)) by {
                    if exists|j: int| 0 <= j < i && fp0[j].0 == n {
                        let j = choose|j: int| 0 <= j < i && fp0[j].0 == n;
                        if j == i - 1 {
                            assert(n == n0);
                        }
                    }
                }
            }
            i = i - 1;
        }
        assert(d.spec_fields() =~= orig.restrict(
            Set::new(|n: Seq<char>| kept_on_read(declaration_of(sp, n), n)),
        ));
        d
    }
}

impl Default for Document {
    fn default() -> (d: Self)
        ensures
            d.wf(),
            d.spec_id() is None,
            d.spec_fields() == Map::<Seq<char>, DataValue>::empty(),
    {
        Document::new()
    }
}

/// Builds documents field by field. The field options are taken for their
/// type only: how a field is indexed is set by the schema.
#[derive(Debug)]
pub struct DocumentBuilder {
    document: Document,
}

impl DocumentBuilder {
    /// The document built so far.
    pub closed spec fn spec_document(&self) -> Document {
        self.document
    }

    /// A builder of an empty document.
    pub fn new() -> (b: Self)
        ensures
            b.spec_document().wf(),
            b.spec_document().spec_id() is None,
            b.spec_document().spec_fields() == Map::<Seq<char>, DataValue>::empty(),
    {
        DocumentBuilder { document: Document::new() }
    }

    /// Sets text field `name` to `value`.
    pub fn add_text(self, name: &str, value: &str, _option: TextOption) -> (b: Self)
        requires
            self.spec_document().wf(),
        ensures
            b.spec_document().wf(),
            b.spec_document().spec_id() == self.spec_document().spec_id(),
            b.spec_document().spec_fields().dom() == self.spec_document().spec_fields().dom().insert(name@),
            b.spec_document().spec_fields()[name@] matches DataValue::Text(s) && s@ == value@,
            forall|k: Seq<char>|
                k != name@ && #[trigger] self.spec_document().spec_fields().contains_key(k)
                    ==> b.spec_document().spec_fields()[k] == self.spec_document().spec_fields()[k],
    {
        DocumentBuilder { document: self.document.add_text(name, value) }
    }

    /// Sets integer field `name` to `value`.
    pub fn add_integer(self, name: &str, value: i64, _option: IntegerOption) -> (b: Self)
        requires
            self.spec_document().wf(),
        ensures
            b.spec_document().wf(),
            b.spec_document().spec_id() == self.spec_document().spec_id(),
            b.spec_document().spec_fields() == self.spec_document().spec_fields().insert(
                name@,
                DataValue::Int64(value),
            ),
    {
        DocumentBuilder { document: self.document.add_integer(name, value) }
    }

    /// Sets float field `name` to the float whose bits are `bits`.
    pub fn add_float(self, name: &str, bits: u64, _option: FloatOption) -> (b: Self)
        requires
            self.spec_document().wf(),
        ensures
            b.spec_document().wf(),
            b.spec_document().spec_id() == self.spec_document().spec_id(),
            b.spec_document().spec_fields() == self.spec_document().spec_fields().insert(
                name@,
                DataValue::Float64(bits),
            ),
    {
        DocumentBuilder { document: self.document.add_float(name, bits) }
    }

    /// Sets boolean field `name` to `value`.
    pub fn add_boolean(self, name: &str, value: bool, _option: BooleanOption) -> (b: Self)
        requires
            self.spec_document().wf(),
        ensures
            b.spec_document().wf(),
            b.spec_document().spec_id() == self.spec_document().spec_id(),
            b.spec_document().spec_fields() == self.spec_document().spec_fields().insert(
                name@,
                DataValue::Bool(value),
            ),
    {
        DocumentBuilder { document: self.document.add_boolean(name, value) }
    }

    /// Sets date-time field `name` to `micros` microseconds since the epoch.
    pub fn add_datetime(self, name: &str, micros: i64, _option: DateTimeOption) -> (b: Self)
        requires
            self.spec_document().wf(),
        ensures
            b.spec_document().wf(),
            b.spec_document().spec_id() == self.spec_document().spec_id(),
            b.spec_document().spec_fields() == self.spec_document().spec_fields().insert(
                name@,
                DataValue::DateTime(micros),
            ),
    {
        DocumentBuilder { document: self.document.add_datetime(name, micros) }
    }

    /// Sets geo field `name` to the point with latitude and longitude bits
    /// `lat` and `lon`.
    pub fn add_geo(self, name: &str, lat: u64, lon: u64, _option: GeoOption) -> (b: Self)
        requires
            self.spec_document().wf(),
        ensures
            b.spec_document().wf(),
            b.spec_document().spec_id() == self.spec_document().spec_id(),
            b.spec_document().spec_fields() == self.spec_document().spec_fields().insert(
                name@,
                DataValue::Geo(lat, lon),
            ),
    {
        DocumentBuilder { document: self.document.add_geo(name, lat, lon) }
    }

    /// Sets binary field `name` to `data` of MIME type `mime_type`.
    pub fn add_blob(self, name: &str, mime_type: &str, data: Vec<u8>, _option: BlobOption) -> (b: Self)
        requires
            self.spec_document().wf(),
        ensures
            b.spec_document().wf(),
            b.spec_document().spec_id() == self.spec_document().spec_id(),
            b.spec_document().spec_fields().dom() == self.spec_document().spec_fields().dom().insert(name@),
            b.spec_document().spec_fields()[name@] matches DataValue::Bytes(d, Some(m)) && d@ == data@
                && m@ == mime_type@,
            forall|k: Seq<char>|
                k != name@ && #[trigger] self.spec_document().spec_fields().contains_key(k)
                    ==> b.spec_document().spec_fields()[k] == self.spec_document().spec_fields()[k],
    {
        let v = DataValue::Bytes(data, Some(owned(mime_type)));
        let d = self.document.add_field(name, v);
        proof {
            assert(self.document.spec_fields().insert(name@, v).dom() =~= self.document.spec_fields().dom().insert(name@));
        }
        DocumentBuilder { document: d }
    }

    /// The document built.
    pub fn build(self) -> (d: Document)
        ensures
            d == self.spec_document(),
    {
        self.document
    }
}

impl Default for DocumentBuilder {
    fn default() -> (b: Self)
        ensures
            b.spec_document().wf(),
            b.spec_document().spec_fields() == Map::<Seq<char>, DataValue>::empty(),
    {
        DocumentBuilder::new()
    }
}

} // verus!
