//! Vector fields: their statistics, where their files go, and checking a
//! document's fields against the registered ones.

use vstd::prelude::*;
use crate::text::{owned, string_from_chars};
use crate::vector_query::strings_view;
use crate::vector_request::names_contain;

verus! {

/// Basic statistics of a vector field.
#[derive(Debug, Clone, Copy, PartialEq, Eq, Structural)]
pub struct VectorFieldStats {
    pub vector_count: usize,
    pub dimension: usize,
}

impl Default for VectorFieldStats {
    fn default() -> (s: Self)
        ensures
            s == (VectorFieldStats { vector_count: 0, dimension: 0 }),
    {
        VectorFieldStats { vector_count: 0, dimension: 0 }
    }
}

/// A character kept in a storage name: an ASCII letter or digit, `-` or `_`.
pub open spec fn storage_char(c: char) -> bool {
    ('a' <= c && c <= 'z') || ('A' <= c && c <= 'Z') || ('0' <= c && c <= '9') || c == '-' || c
        == '_'
}

/// A field name with every character that a storage name does not keep
/// replaced by `_`.
pub open spec fn sanitized(name: Seq<char>) -> Seq<char> {
    name.map_values(|c: char| if storage_char(c) { c } else { '_' })
}

/// The storage prefix of a field: `vector_fields/` and its sanitized name
/// (`field` for an empty name).
pub open spec fn storage_prefix(name: Seq<char>) -> Seq<char> {
    "vector_fields/"@ + if name.len() == 0 {
        "field"@
    } else {
        sanitized(name)
    }
}

/// Where the files of field `field_name` are kept.
pub fn field_storage_prefix(field_name: &str) -> (p: String)
    ensures
        p@ == storage_prefix(field_name@),
{
    let chars = crate::text::chars_of(field_name);
    let mut clean: Vec<char> = Vec::new();
    let mut i: usize = 0;
    while i < chars.len()
        invariant
            i <= chars@.len(),
            chars@ == field_name@,
            clean@ == sanitized(chars@.take(i as int)),
        decreases chars.len() - i,
    {
        let c = chars[i];
        let keep = ('a' <= c && c <= 'z') || ('A' <= c && c <= 'Z') || ('0' <= c && c <= '9') || c
            == '-' || c == '_';
        clean.push(if keep { c } else { '_' });
        assert(sanitized(chars@.take(i + 1)) =~= sanitized(chars@.take(i as int)).push(
            if storage_char(c) { c } else { '_' },
        ));
        i = i + 1;
    }
    assert(chars@.take(chars@.len() as int) =~= chars@);
    let mut p = owned("vector_fields/");
    if clean.len() == 0 {
        p.append("field");
    } else {
        let s = string_from_chars(clean.as_slice());
        p.append(s.as_str());
    }
    p
}

/// Why a document's fields were refused: the first one that is not
/// registered.
#[derive(Debug, Clone)]
pub enum FieldCheckError {
    NotRegistered(String),
}

/// Checks that every field of a document (`document_fields`, in the order
/// given) is registered; the first that is not is the error.
pub fn validate_document_fields(registered: &Vec<String>, document_fields: &Vec<String>) -> (r: Result<
    (),
    FieldCheckError,
>)
    ensures
        match r {
            Ok(()) => forall|i: int|
                0 <= i < document_fields@.len() ==> strings_view(registered@).contains(
                    (#[trigger] document_fields@[i])@,
                ),
            Err(FieldCheckError::NotRegistered(name)) => exists|i: int|
                {
                    &&& 0 <= i < document_fields@.len()
                    &&& (#[trigger] document_fields@[i])@ == name@
                    &&& !strings_view(registered@).contains(name@)
                    &&& forall|j: int|
                        0 <= j < i ==> strings_view(registered@).contains(
                            (#[trigger] document_fields@[j])@,
                        )
                },
        },
{
    let mut i: usize = 0;
    while i < document_fields.len()
        invariant
            i <= document_fields@.len(),
            forall|j: int|
                0 <= j < i ==> strings_view(registered@).contains((#[trigger] document_fields@[j])@),
        decreases document_fields.len() - i,
    {
        if !names_contain(registered, document_fields[i].as_str()) {
            let name = owned(document_fields[i].as_str());
            assert(document_fields@[i as int]@ == name@);
            return Err(FieldCheckError::NotRegistered(name));
        }
        i = i + 1;
    }
    Ok(())
}

} // verus!
