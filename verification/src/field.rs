//! Field values and field options for lexical indexing.
//!
//! A [`Field`] combines a [`FieldValue`] with the [`FieldOption`] that says
//! how it is indexed and stored. Floating-point and date-time values are
//! held by what stands for them: the IEEE 754 bits of a float, and the
//! microseconds since the Unix epoch of a UTC date-time.

use vstd::prelude::*;

use crate::text::{chars_of, owned};

verus! {

/// Numeric type classification for numeric range queries.
#[derive(Debug, Clone, Copy, PartialEq, Eq, Structural)]
pub enum NumericType {
    /// Integer type (i64).
    Integer,
    /// Float type (f64).
    Float,
}

/// The default of the `indexed` and `stored` flags: `true`.
pub fn default_true() -> (b: bool)
    ensures
        b,
{
    true
}

/// Options for Text fields.
#[derive(Debug, Clone, Copy, PartialEq, Eq, Structural)]
pub struct TextOption {
    /// Whether to index this field for search.
    pub indexed: bool,
    /// Whether to store the field value as given.
    pub stored: bool,
    /// Whether to store term vectors.
    pub term_vectors: bool,
}

impl Default for TextOption {
    fn default() -> (o: TextOption)
        ensures
            o == (TextOption { indexed: true, stored: true, term_vectors: false }),
    {
        TextOption { indexed: default_true(), stored: default_true(), term_vectors: false }
    }
}

/// Option for Blob fields.
#[derive(Debug, Clone, Copy, PartialEq, Eq, Structural)]
pub struct BlobOption {
    /// If true, the value is stored.
    pub stored: bool,
}

impl Default for BlobOption {
    fn default() -> (o: BlobOption)
        ensures
            o == (BlobOption { stored: true }),
    {
        BlobOption { stored: true }
    }
}

impl BlobOption {
    /// Create a new blob option: stored.
    pub fn new() -> (o: BlobOption)
        ensures
            o == (BlobOption { stored: true }),
    {
        BlobOption::default()
    }
}

/// Options for Integer fields.
#[derive(Debug, Clone, Copy, PartialEq, Eq, Structural)]
pub struct IntegerOption {
    /// Whether to index this field for range queries.
    pub indexed: bool,
    /// Whether to store the value as given.
    pub stored: bool,
}

impl Default for IntegerOption {
    fn default() -> (o: IntegerOption)
        ensures
            o == (IntegerOption { indexed: true, stored: true }),
    {
        IntegerOption { indexed: default_true(), stored: default_true() }
    }
}

/// Options for Float fields.
#[derive(Debug, Clone, Copy, PartialEq, Eq, Structural)]
pub struct FloatOption {
    /// Whether to index this field for range queries.
    pub indexed: bool,
    /// Whether to store the value as given.
    pub stored: bool,
}

impl Default for FloatOption {
    fn default() -> (o: FloatOption)
        ensures
            o == (FloatOption { indexed: true, stored: true }),
    {
        FloatOption { indexed: default_true(), stored: default_true() }
    }
}

/// Options for Boolean fields.
#[derive(Debug, Clone, Copy, PartialEq, Eq, Structural)]
pub struct BooleanOption {
    /// Whether to index this field.
    pub indexed: bool,
    /// Whether to store the value as given.
    pub stored: bool,
}

impl Default for BooleanOption {
    fn default() -> (o: BooleanOption)
        ensures
            o == (BooleanOption { indexed: true, stored: true }),
    {
        BooleanOption { indexed: default_true(), stored: default_true() }
    }
}

/// Options for DateTime fields.
#[derive(Debug, Clone, Copy, PartialEq, Eq, Structural)]
pub struct DateTimeOption {
    /// Whether to index this field for range queries.
    pub indexed: bool,
    /// Whether to store the value as given.
    pub stored: bool,
}

impl Default for DateTimeOption {
    fn default() -> (o: DateTimeOption)
        ensures
            o == (DateTimeOption { indexed: true, stored: true }),
    {
        DateTimeOption { indexed: default_true(), stored: default_true() }
    }
}

/// Options for Geo (geographic point) fields.
#[derive(Debug, Clone, Copy, PartialEq, Eq, Structural)]
pub struct GeoOption {
    /// Whether to index this field for geo queries.
    pub indexed: bool,
    /// Whether to store the value as given.
    pub stored: bool,
}

impl Default for GeoOption {
    fn default() -> (o: GeoOption)
        ensures
            o == (GeoOption { indexed: true, stored: true }),
    {
        GeoOption { indexed: default_true(), stored: default_true() }
    }
}

/// Unified field option type that wraps all field-specific options.
#[derive(Debug, Clone, Copy, PartialEq, Eq, Structural)]
pub enum FieldOption {
    /// Options for text fields.
    Text(TextOption),
    /// Options for integer fields.
    Integer(IntegerOption),
    /// Options for float fields.
    Float(FloatOption),
    /// Options for boolean fields.
    Boolean(BooleanOption),
    /// Options for blob fields.
    Blob(BlobOption),
    /// Options for datetime fields.
    DateTime(DateTimeOption),
    /// Options for geographic point fields.
    Geo(GeoOption),
}

impl Default for FieldOption {
    fn default() -> (o: FieldOption)
        ensures
            o == FieldOption::Text(TextOption { indexed: true, stored: true, term_vectors: false }),
    {
        FieldOption::Text(TextOption::default())
    }
}

impl FieldOption {
    /// Whether values of the field are stored.
    pub open spec fn spec_stored(self) -> bool {
        match self {
            FieldOption::Text(o) => o.stored,
            FieldOption::Integer(o) => o.stored,
            FieldOption::Float(o) => o.stored,
            FieldOption::Boolean(o) => o.stored,
            FieldOption::Blob(o) => o.stored,
            FieldOption::DateTime(o) => o.stored,
            FieldOption::Geo(o) => o.stored,
        }
    }

    /// Whether values of the field are stored.
    pub fn is_stored(&self) -> (b: bool)
        ensures
            b == self.spec_stored(),
    {
        match self {
            FieldOption::Text(o) => o.stored,
            FieldOption::Integer(o) => o.stored,
            FieldOption::Float(o) => o.stored,
            FieldOption::Boolean(o) => o.stored,
            FieldOption::Blob(o) => o.stored,
            FieldOption::DateTime(o) => o.stored,
            FieldOption::Geo(o) => o.stored,
        }
    }

    /// Whether a field is stored is its own option's `stored` flag, for
    /// every kind of field: the `indexed` flag has no say in it.
    pub proof fn lemma_stored_is_the_stored_flag(self)
        ensures
            match self {
                FieldOption::Text(o) => self.spec_stored() == o.stored,
                FieldOption::Integer(o) => self.spec_stored() == o.stored,
                FieldOption::Float(o) => self.spec_stored() == o.stored,
                FieldOption::Boolean(o) => self.spec_stored() == o.stored,
                FieldOption::Blob(o) => self.spec_stored() == o.stored,
                FieldOption::DateTime(o) => self.spec_stored() == o.stored,
                FieldOption::Geo(o) => self.spec_stored() == o.stored,
            },
            forall|o: IntegerOption| #![auto]
                FieldOption::Integer(o).spec_stored() == o.stored,
            forall|o: TextOption| #![auto]
                FieldOption::Text(o).spec_stored() == o.stored,
    {
    }

    /// The default option for a value: the default option of the value's
    /// type; text options for a null value.
    pub open spec fn spec_from_field_value(value: FieldValue) -> FieldOption {
        match value {
            FieldValue::Text(_) => FieldOption::Text(
                TextOption { indexed: true, stored: true, term_vectors: false },
            ),
            FieldValue::Integer(_) => FieldOption::Integer(IntegerOption { indexed: true, stored: true }),
            FieldValue::Float(_) => FieldOption::Float(FloatOption { indexed: true, stored: true }),
            FieldValue::Boolean(_) => FieldOption::Boolean(BooleanOption { indexed: true, stored: true }),
            FieldValue::DateTime(_) => FieldOption::DateTime(
                DateTimeOption { indexed: true, stored: true },
            ),
            FieldValue::Geo(_, _) => FieldOption::Geo(GeoOption { indexed: true, stored: true }),
            FieldValue::Blob(_, _) => FieldOption::Blob(BlobOption { stored: true }),
            FieldValue::Null => FieldOption::Text(
                TextOption { indexed: true, stored: true, term_vectors: false },
            ),
        }
    }

    /// Create a default option based on the field value type.
    pub fn from_field_value(value: &FieldValue) -> (o: FieldOption)
        ensures
            o == FieldOption::spec_from_field_value(*value),
    {
        match value {
            FieldValue::Text(_) => FieldOption::Text(TextOption::default()),
            FieldValue::Integer(_) => FieldOption::Integer(IntegerOption::default()),
            FieldValue::Float(_) => FieldOption::Float(FloatOption::default()),
            FieldValue::Boolean(_) => FieldOption::Boolean(BooleanOption::default()),
            FieldValue::DateTime(_) => FieldOption::DateTime(DateTimeOption::default()),
            FieldValue::Geo(_, _) => FieldOption::Geo(GeoOption::default()),
            FieldValue::Blob(_, _) => FieldOption::Blob(BlobOption::default()),
            FieldValue::Null => FieldOption::Text(TextOption::default()),
        }
    }
}

/// Represents a value for a field in a document.
#[derive(Debug, Clone)]
pub enum FieldValue {
    /// Text value.
    Text(String),
    /// Integer value.
    Integer(i64),
    /// Floating point value, as the bits of an IEEE 754 double.
    Float(u64),
    /// Boolean value.
    Boolean(bool),
    /// UTC date-time, as microseconds since the Unix epoch.
    DateTime(i64),
    /// Geographic point: latitude and longitude, as the bits of IEEE 754
    /// doubles.
    Geo(u64, u64),
    /// Blob value (MIME type, data).
    Blob(String, Vec<u8>),
    /// Null value.
    Null,
}

/// ASCII letters in lower case, other characters unchanged.
pub open spec fn ascii_lower(s: Seq<char>) -> Seq<char> {
    s.map_values(|c: char| lower_ascii_char(c))
}

/// An ASCII capital letter in lower case; other characters unchanged.
pub open spec fn lower_ascii_char(c: char) -> char {
    if 'A' <= c <= 'Z' {
        ((c as int) + 32) as char
    } else {
        c
    }
}

/// The words read as `true`.
pub open spec fn is_true_word(w: Seq<char>) -> bool {
    w == "true"@ || w == "t"@ || w == "yes"@ || w == "y"@ || w == "1"@ || w == "on"@
}

/// The words read as `false`.
pub open spec fn is_false_word(w: Seq<char>) -> bool {
    w == "false"@ || w == "f"@ || w == "no"@ || w == "n"@ || w == "0"@ || w == "off"@
}

/// A character in lower case, for ASCII letters.
fn lower_char(c: char) -> (r: char)
    ensures
        r == lower_ascii_char(c),
{
    if 'A' <= c && c <= 'Z' {
        let b = c as u8;
        assert(b as int == c as int);
        let r = (b + 32) as char;
        assert(r as int == c as int + 32);
        r
    } else {
        c
    }
}

/// Whether the characters `cs` are the characters of `w`.
fn chars_equal(cs: &Vec<char>, w: &str) -> (b: bool)
    ensures
        b == (cs@ == w@),
{
    let wc = chars_of(w);
    if cs.len() != wc.len() {
        return false;
    }
    let mut i: usize = 0;
    while i < cs.len()
        invariant
            cs.len() == wc.len(),
            wc@ == w@,
            i <= cs.len(),
            forall|j: int| 0 <= j < i ==> cs@[j] == wc@[j],
        decreases cs.len() - i,
    {
        if cs[i] != wc[i] {
            return false;
        }
        i = i + 1;
    }
    assert(cs@ =~= wc@);
    true
}

/// Read text as a boolean, ignoring the case of ASCII letters.
pub fn parse_boolean_text(s: &str) -> (r: Option<bool>)
    ensures
        r == (if is_true_word(ascii_lower(s@)) {
            Some(true)
        } else if is_false_word(ascii_lower(s@)) {
            Some(false)
        } else {
            None
        }),
{
    let cs = chars_of(s);
    let mut lower: Vec<char> = Vec::new();
    let mut i: usize = 0;
    while i < cs.len()
        invariant
            cs@ == s@,
            i <= cs.len(),
            lower@ == ascii_lower(s@).take(i as int),
        decreases cs.len() - i,
    {
        lower.push(lower_char(cs[i]));
        assert(lower@ =~= ascii_lower(s@).take(i + 1));
        i = i + 1;
    }
    assert(lower@ =~= ascii_lower(s@));
    proof {
        reveal_strlit("true");
        reveal_strlit("t");
        reveal_strlit("yes");
        reveal_strlit("y");
        reveal_strlit("1");
        reveal_strlit("on");
        reveal_strlit("false");
        reveal_strlit("f");
        reveal_strlit("no");
        reveal_strlit("n");
        reveal_strlit("0");
        reveal_strlit("off");
    }
    if chars_equal(&lower, "true") || chars_equal(&lower, "t") || chars_equal(&lower, "yes")
        || chars_equal(&lower, "y") || chars_equal(&lower, "1") || chars_equal(&lower, "on") {
        Some(true)
    } else if chars_equal(&lower, "false") || chars_equal(&lower, "f") || chars_equal(&lower, "no")
        || chars_equal(&lower, "n") || chars_equal(&lower, "0") || chars_equal(&lower, "off") {
        Some(false)
    } else {
        None
    }
}

/// Whether chrono reads `text` as a UTC date-time
/// (`str::parse::<chrono::DateTime<chrono::Utc>>` succeeds).
pub uninterp spec fn chrono_parses_utc(text: Seq<char>) -> bool;

/// The RFC 3339 text that chrono gives for the UTC date-time `secs`
/// seconds after the Unix epoch, when chrono can represent that instant.
pub uninterp spec fn chrono_rfc3339_of_secs(secs: i64) -> Option<Seq<char>>;

/// Parses `text` with `str::parse::<chrono::DateTime<chrono::Utc>>` and
/// says whether that succeeded. The contract claims only that the answer is
/// a function of the text alone.
#[verifier::external_body]
fn parses_as_utc(text: &str) -> (b: bool)
    ensures
        b == chrono_parses_utc(text@),
{
    text.parse::<chrono::DateTime<chrono::Utc>>().is_ok()
}

/// Makes the UTC date-time `secs` seconds after the Unix epoch with
/// `chrono::DateTime::from_timestamp` (`None` out of chrono's range) and
/// renders it with `DateTime::to_rfc3339`. The contract claims only that
/// the result is a function of `secs` alone.
#[verifier::external_body]
fn rfc3339_of_secs(secs: i64) -> (r: Option<String>)
    ensures
        match r {
            Some(s) => chrono_rfc3339_of_secs(secs) == Some(s@),
            None => chrono_rfc3339_of_secs(secs) is None,
        },
{
    match chrono::DateTime::from_timestamp(secs, 0) {
        Some(dt) => Some(dt.to_rfc3339()),
        None => None,
    }
}

impl FieldValue {
    /// The text, if this is a text value.
    pub fn as_text(&self) -> (r: Option<&str>)
        ensures
            r matches Some(t) ==> (*self matches FieldValue::Text(s) && t@ == s@),
            r is None ==> !(*self is Text),
    {
        match self {
            FieldValue::Text(s) => Some(s.as_str()),
            _ => None,
        }
    }

    /// The RFC 3339 text of a date-time: a text that chrono reads as a UTC
    /// date-time, as it is; an integer, as seconds since the Unix epoch,
    /// rendered by chrono (none out of chrono's range); nothing for other
    /// values.
    pub fn as_datetime(&self) -> (r: Option<String>)
        ensures
            match *self {
                FieldValue::Text(t) => (r is Some <==> chrono_parses_utc(t@)) && (r matches Some(s)
                    ==> s@ == t@),
                FieldValue::Integer(i) => (r is Some <==> chrono_rfc3339_of_secs(i) is Some) && (
                r matches Some(s) ==> chrono_rfc3339_of_secs(i) == Some(s@)),
                _ => r is None,
            },
    {
        match self {
            FieldValue::Text(s) => {
                if parses_as_utc(s.as_str()) {
                    Some(owned(s.as_str()))
                } else {
                    None
                }
            },
            FieldValue::Integer(timestamp) => rfc3339_of_secs(*timestamp),
            _ => None,
        }
    }

    /// Convert to boolean: a boolean value itself; an integer is true when
    /// not zero; a text is read as one of the words true, t, yes, y, 1, on,
    /// false, f, no, n, 0, off, in any letter case.
    pub fn as_boolean(&self) -> (r: Option<bool>)
        ensures
            r == match *self {
                FieldValue::Boolean(b) => Some(b),
                FieldValue::Text(s) => if is_true_word(ascii_lower(s@)) {
                    Some(true)
                } else if is_false_word(ascii_lower(s@)) {
                    Some(false)
                } else {
                    None
                },
                FieldValue::Integer(i) => Some(i != 0),
                _ => None,
            },
    {
        match self {
            FieldValue::Boolean(b) => Some(*b),
            FieldValue::Text(s) => parse_boolean_text(s.as_str()),
            FieldValue::Integer(i) => Some(*i != 0),
            _ => None,
        }
    }

    /// The MIME type and the data, if this is a blob value.
    pub fn as_blob(&self) -> (r: Option<(&str, &[u8])>)
        ensures
            r matches Some(p) ==> (*self matches FieldValue::Blob(m, d) && p.0@ == m@ && p.1@
                == d@),
            r is None ==> !(*self is Blob),
    {
        match self {
            FieldValue::Blob(mime, data) => Some((mime.as_str(), data.as_slice())),
            _ => None,
        }
    }

    /// The latitude and longitude bits, if this is a geographic point.
    pub fn as_geo(&self) -> (r: Option<(u64, u64)>)
        ensures
            r == match *self {
                FieldValue::Geo(lat, lon) => Some((lat, lon)),
                _ => None,
            },
    {
        match self {
            FieldValue::Geo(lat, lon) => Some((*lat, *lon)),
            _ => None,
        }
    }
}

/// A field combines a value with indexing options.
#[derive(Debug, Clone)]
pub struct Field {
    /// The field value.
    pub value: FieldValue,
    /// The field indexing options.
    pub option: FieldOption,
}

impl Field {
    /// Create a new field with a value and option.
    pub fn new(value: FieldValue, option: FieldOption) -> (f: Field)
        ensures
            f.value == value,
            f.option == option,
    {
        Field { value, option }
    }

    /// Create a field with the option inferred from the value type.
    pub fn with_default_option(value: FieldValue) -> (f: Field)
        ensures
            f.value == value,
            f.option == FieldOption::spec_from_field_value(value),
    {
        let option = FieldOption::from_field_value(&value);
        Field { value, option }
    }
}

} // verus!
