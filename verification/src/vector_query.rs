//! The vector query language.
//!
//! A query is one or more clauses separated by whitespace, with whitespace
//! allowed before the first and after the last. A clause is
//! `field:~"text"`, optionally followed by a boost `^weight`:
//!
//! - the field name is made of ASCII letters, digits, `_` and `.`; without
//!   it (`~"text"`) the clause goes to the parser's first default field;
//! - the text is everything between the double quotes (it holds no `"`);
//! - the weight is digits, optionally followed by `.` and digits.
//!
//! The weight is handed back as it was written; it is 1 where none is given.

use vstd::prelude::*;
use crate::text::string_from_chars;

verus! {

/// Whitespace between clauses.
pub open spec fn is_space(c: char) -> bool {
    c == ' ' || c == '\t' || c == '\n' || c == '\r'
}

/// A character of a field name.
pub open spec fn is_field_char(c: char) -> bool {
    ('a' <= c && c <= 'z') || ('A' <= c && c <= 'Z') || ('0' <= c && c <= '9') || c == '_' || c
        == '.'
}

/// A decimal digit.
pub open spec fn is_digit(c: char) -> bool {
    '0' <= c && c <= '9'
}

/// The first position at or after `i` whose character is not whitespace.
pub open spec fn space_end(s: Seq<char>, i: int) -> int
    decreases s.len() - i,
{
    if i < 0 || i >= s.len() || !is_space(s[i]) {
        i
    } else {
        space_end(s, i + 1)
    }
}

/// The first position at or after `i` whose character is not part of a
/// field name.
pub open spec fn field_end(s: Seq<char>, i: int) -> int
    decreases s.len() - i,
{
    if i < 0 || i >= s.len() || !is_field_char(s[i]) {
        i
    } else {
        field_end(s, i + 1)
    }
}

/// The first position at or after `i` whose character is not a digit.
pub open spec fn digits_end(s: Seq<char>, i: int) -> int
    decreases s.len() - i,
{
    if i < 0 || i >= s.len() || !is_digit(s[i]) {
        i
    } else {
        digits_end(s, i + 1)
    }
}

/// The first position at or after `i` holding a double quote, or the end.
pub open spec fn quote_end(s: Seq<char>, i: int) -> int
    decreases s.len() - i,
{
    if i < 0 || i >= s.len() || s[i] == '"' {
        i
    } else {
        quote_end(s, i + 1)
    }
}

/// A clause as written: the field name if one is given, the text, and the
/// weight if one is given.
pub type RawClause = (Option<Seq<char>>, Seq<char>, Option<Seq<char>>);

/// The weight that starts at `i` (just after a `^`), with the position
/// after it; `None` where no weight is written there.
pub open spec fn weight_at(s: Seq<char>, i: int) -> Option<(Seq<char>, int)> {
    let d = digits_end(s, i);
    if d == i {
        None
    } else if d < s.len() && s[d] == '.' {
        let f = digits_end(s, d + 1);
        if f == d + 1 {
            None
        } else {
            Some((s.subrange(i, f), f))
        }
    } else {
        Some((s.subrange(i, d), d))
    }
}

/// The clause that starts at `i`, with the position after it; `None` where
/// no clause is written there.
pub open spec fn clause_at(s: Seq<char>, i: int) -> Option<(RawClause, int)> {
    let f = field_end(s, i);
    let has_field = f > i;
    let j = if has_field {
        f + 1
    } else {
        i
    };
    if has_field && !(f < s.len() && s[f] == ':') {
        None
    } else if !(j + 1 < s.len() && s[j] == '~' && s[j + 1] == '"') {
        None
    } else {
        let t = quote_end(s, j + 2);
        if t >= s.len() {
            None
        } else {
            let field = if has_field {
                Some(s.subrange(i, f))
            } else {
                None
            };
            let text = s.subrange(j + 2, t);
            let m = t + 1;
            if m < s.len() && s[m] == '^' {
                match weight_at(s, m + 1) {
                    None => None,
                    Some((w, e)) => Some(((field, text, Some(w)), e)),
                }
            } else {
                Some(((field, text, None), m))
            }
        }
    }
}

/// Each scan stops at or after where it starts, and within the text.
pub proof fn lemma_scan_bounds(s: Seq<char>, i: int)
    requires
        0 <= i <= s.len(),
    ensures
        i <= space_end(s, i) <= s.len(),
        i <= field_end(s, i) <= s.len(),
        i <= digits_end(s, i) <= s.len(),
        i <= quote_end(s, i) <= s.len(),
    decreases s.len() - i,
{
    if i < s.len() {
        lemma_scan_bounds(s, i + 1);
    }
}

/// A clause takes at least one character.
pub proof fn lemma_clause_advances(s: Seq<char>, i: int)
    requires
        0 <= i <= s.len(),
    ensures
        clause_at(s, i) matches Some((_, e)) ==> i < e <= s.len(),
{
    lemma_scan_bounds(s, i);
    let f = field_end(s, i);
    if f + 1 <= s.len() {
        lemma_scan_bounds(s, f + 1);
    }
    let j = if f > i {
        f + 1
    } else {
        i
    };
    if j + 2 <= s.len() {
        lemma_scan_bounds(s, j + 2);
        let t = quote_end(s, j + 2);
        if t + 2 <= s.len() {
            lemma_scan_bounds(s, t + 2);
            let d = digits_end(s, t + 2);
            if d + 1 <= s.len() {
                lemma_scan_bounds(s, d + 1);
            }
        }
    }
}

/// The clauses from position `i` on, where `i` is not at whitespace; `None`
/// where the rest is not a whitespace-separated run of clauses.
pub open spec fn clauses_from(s: Seq<char>, i: int) -> Option<Seq<RawClause>>
    decreases s.len() - i,
{
    if i < 0 || i >= s.len() {
        Some(Seq::empty())
    } else {
        match clause_at(s, i) {
            None => None,
            Some((c, e)) => {
                proof {
                    lemma_clause_advances(s, i);
                }
                if e >= s.len() {
                    Some(seq![c])
                } else if !is_space(s[e]) {
                    None
                } else {
                    proof {
                        lemma_scan_bounds(s, e);
                    }
                    match clauses_from(s, space_end(s, e)) {
                        None => None,
                        Some(cs) => Some(seq![c] + cs),
                    }
                }
            },
        }
    }
}

/// The clauses of a query as written; `None` on a syntax error.
pub open spec fn query_clauses(s: Seq<char>) -> Option<Seq<RawClause>> {
    clauses_from(s, space_end(s, 0))
}


/// Why a vector query was refused.
#[derive(Debug, Clone, Copy, PartialEq, Eq, Structural)]
pub enum VectorQueryError {
    /// The text is not a run of clauses.
    Syntax,
    /// The query holds no clause.
    NoClauses,
    /// A clause names no field and the parser has no default field.
    NoDefaultField,
}

/// One clause of a parsed query: the field it searches, the text to embed,
/// and the weight as written (`None` for the default weight 1).
#[derive(Debug, Clone)]
pub struct QueryClause {
    pub field: String,
    pub text: String,
    pub weight: Option<String>,
}

/// A parsed clause by its field, text and written weight.
pub open spec fn clause_view(c: QueryClause) -> (Seq<char>, Seq<char>, Option<Seq<char>>) {
    (
        c.field@,
        c.text@,
        match c.weight {
            Some(w) => Some(w@),
            None => None,
        },
    )
}

/// The clause a written clause becomes: its field, or else the first
/// default field.
pub open spec fn resolve_clause(r: RawClause, defaults: Seq<Seq<char>>) -> (
    Seq<char>,
    Seq<char>,
    Option<Seq<char>>,
) {
    (
        match r.0 {
            Some(f) => f,
            None => defaults[0],
        },
        r.1,
        r.2,
    )
}

/// What parsing the query `s` with the default fields `defaults` gives.
pub open spec fn parse_query(s: Seq<char>, defaults: Seq<Seq<char>>) -> Result<
    Seq<(Seq<char>, Seq<char>, Option<Seq<char>>)>,
    VectorQueryError,
> {
    match query_clauses(s) {
        None => Err(VectorQueryError::Syntax),
        Some(raws) => if raws.len() == 0 {
            Err(VectorQueryError::NoClauses)
        } else if defaults.len() == 0 && exists|i: int|
            0 <= i < raws.len() && (#[trigger] raws[i]).0 is None {
            Err(VectorQueryError::NoDefaultField)
        } else {
            Ok(raws.map_values(|r: RawClause| resolve_clause(r, defaults)))
        },
    }
}

fn char_is_space(c: char) -> (b: bool)
    ensures
        b == is_space(c),
{
    c == ' ' || c == '\t' || c == '\n' || c == '\r'
}

fn char_is_field(c: char) -> (b: bool)
    ensures
        b == is_field_char(c),
{
    ('a' <= c && c <= 'z') || ('A' <= c && c <= 'Z') || ('0' <= c && c <= '9') || c == '_' || c
        == '.'
}

fn char_is_digit(c: char) -> (b: bool)
    ensures
        b == is_digit(c),
{
    '0' <= c && c <= '9'
}

fn scan_space(s: &[char], i: usize) -> (r: usize)
    requires
        i <= s@.len(),
    ensures
        r == space_end(s@, i as int),
{
    let mut j = i;
    while j < s.len() && char_is_space(s[j])
        invariant
            i <= j <= s@.len(),
            space_end(s@, j as int) == space_end(s@, i as int),
        decreases s.len() - j,
    {
        j = j + 1;
    }
    j
}

fn scan_field(s: &[char], i: usize) -> (r: usize)
    requires
        i <= s@.len(),
    ensures
        r == field_end(s@, i as int),
{
    let mut j = i;
    while j < s.len() && char_is_field(s[j])
        invariant
            i <= j <= s@.len(),
            field_end(s@, j as int) == field_end(s@, i as int),
        decreases s.len() - j,
    {
        j = j + 1;
    }
    j
}

fn scan_digits(s: &[char], i: usize) -> (r: usize)
    requires
        i <= s@.len(),
    ensures
        r == digits_end(s@, i as int),
{
    let mut j = i;
    while j < s.len() && char_is_digit(s[j])
        invariant
            i <= j <= s@.len(),
            digits_end(s@, j as int) == digits_end(s@, i as int),
        decreases s.len() - j,
    {
        j = j + 1;
    }
    j
}

fn scan_quote(s: &[char], i: usize) -> (r: usize)
    requires
        i <= s@.len(),
    ensures
        r == quote_end(s@, i as int),
{
    let mut j = i;
    while j < s.len() && s[j] != '"'
        invariant
            i <= j <= s@.len(),
            quote_end(s@, j as int) == quote_end(s@, i as int),
        decreases s.len() - j,
    {
        j = j + 1;
    }
    j
}

fn sub_chars(s: &[char], i: usize, j: usize) -> (v: Vec<char>)
    requires
        i <= j <= s@.len(),
    ensures
        v@ == s@.subrange(i as int, j as int),
{
    vstd::slice::slice_to_vec(vstd::slice::slice_subrange(s, i, j))
}

/// A written clause with its parts held as characters.
type ExecClause = (Option<Vec<char>>, Vec<char>, Option<Vec<char>>);

spec fn exec_clause_view(c: ExecClause) -> RawClause {
    (
        match c.0 {
            Some(f) => Some(f@),
            None => None,
        },
        c.1@,
        match c.2 {
            Some(w) => Some(w@),
            None => None,
        },
    )
}

fn read_weight(s: &[char], i: usize) -> (r: Option<(Vec<char>, usize)>)
    requires
        i <= s@.len(),
    ensures
        match r {
            None => weight_at(s@, i as int) is None,
            Some((w, e)) => e <= s@.len() && weight_at(s@, i as int) == Some((w@, e as int)),
        },
{
    proof {
        lemma_scan_bounds(s@, i as int);
    }
    let d = scan_digits(s, i);
    if d == i {
        return None;
    }
    if d < s.len() && s[d] == '.' {
        proof {
            lemma_scan_bounds(s@, d + 1);
        }
        let f = scan_digits(s, d + 1);
        if f == d + 1 {
            return None;
        }
        Some((sub_chars(s, i, f), f))
    } else {
        Some((sub_chars(s, i, d), d))
    }
}

fn read_clause(s: &[char], i: usize) -> (r: Option<(ExecClause, usize)>)
    requires
        i <= s@.len(),
    ensures
        match r {
            None => clause_at(s@, i as int) is None,
            Some((c, e)) => e <= s@.len() && clause_at(s@, i as int) == Some(
                (exec_clause_view(c), e as int),
            ),
        },
{
    proof {
        lemma_scan_bounds(s@, i as int);
    }
    let f = scan_field(s, i);
    let has_field = f > i;
    if has_field && !(f < s.len() && s[f] == ':') {
        return None;
    }
    let j = if has_field {
        f + 1
    } else {
        i
    };
    if !(j < s.len() && s.len() - j > 1 && s[j] == '~' && s[j + 1] == '"') {
        return None;
    }
    proof {
        lemma_scan_bounds(s@, j + 2);
    }
    let t = scan_quote(s, j + 2);
    if t >= s.len() {
        return None;
    }
    let field = if has_field {
        Some(sub_chars(s, i, f))
    } else {
        None
    };
    let text = sub_chars(s, j + 2, t);
    let m = t + 1;
    if m < s.len() && s[m] == '^' {
        match read_weight(s, m + 1) {
            None => None,
            Some((w, e)) => Some(((field, text, Some(w)), e)),
        }
    } else {
        Some(((field, text, None), m))
    }
}

/// The clauses of a query as written; `None` on a syntax error.
fn read_clauses(s: &[char]) -> (r: Option<Vec<ExecClause>>)
    ensures
        match r {
            None => query_clauses(s@) is None,
            Some(v) => query_clauses(s@) == Some(v@.map_values(|c: ExecClause| exec_clause_view(c))),
        },
{
    let mut out: Vec<ExecClause> = Vec::new();
    proof {
        lemma_scan_bounds(s@, 0);
    }
    let mut i = scan_space(s, 0);
    while i < s.len()
        invariant
            i <= s@.len(),
            query_clauses(s@) == match clauses_from(s@, i as int) {
                None => None,
                Some(cs) => Some(out@.map_values(|c: ExecClause| exec_clause_view(c)) + cs),
            },
        decreases s.len() - i,
    {
        let ghost ov = out@.map_values(|c: ExecClause| exec_clause_view(c));
        proof {
            lemma_clause_advances(s@, i as int);
        }
        match read_clause(s, i) {
            None => {
                return None;
            },
            Some((c, e)) => {
                let ghost cv = exec_clause_view(c);
                out.push(c);
                assert(out@.map_values(|c: ExecClause| exec_clause_view(c)) =~= ov.push(cv));
                if e >= s.len() {
                    assert(ov + seq![cv] =~= ov.push(cv));
                    return Some(out);
                }
                if !char_is_space(s[e]) {
                    return None;
                }
                proof {
                    lemma_scan_bounds(s@, e as int);
                    match clauses_from(s@, space_end(s@, e as int)) {
                        None => {},
                        Some(cs) => {
                            assert(ov + (seq![cv] + cs) =~= ov.push(cv) + cs);
                        },
                    }
                }
                i = scan_space(s, e);
            },
        }
    }
    assert(out@.map_values(|c: ExecClause| exec_clause_view(c)) + Seq::<RawClause>::empty()
        =~= out@.map_values(|c: ExecClause| exec_clause_view(c)));
    Some(out)
}


/// The texts of a list of strings.
pub open spec fn strings_view(v: Seq<String>) -> Seq<Seq<char>> {
    v.map_values(|x: String| x@)
}

/// Parses vector queries, sending clauses without a field to its first
/// default field.
#[derive(Debug, Clone)]
pub struct VectorQueryParser {
    default_fields: Vec<String>,
}

impl VectorQueryParser {
    /// The default fields, in order.
    pub closed spec fn spec_default_fields(&self) -> Seq<Seq<char>> {
        strings_view(self.default_fields@)
    }

    /// A parser with no default field.
    pub fn new() -> (p: Self)
        ensures
            p.spec_default_fields() == Seq::<Seq<char>>::empty(),
    {
        let p = VectorQueryParser { default_fields: Vec::new() };
        assert(p.spec_default_fields() =~= Seq::<Seq<char>>::empty());
        p
    }

    /// The parser with `field` as its only default field.
    pub fn with_default_field(self, field: &str) -> (p: Self)
        ensures
            p.spec_default_fields() == seq![field@],
    {
        let mut fields: Vec<String> = Vec::new();
        fields.push(crate::text::owned(field));
        let p = VectorQueryParser { default_fields: fields };
        assert(p.spec_default_fields() =~= seq![field@]);
        p
    }

    /// The parser with `fields` as its default fields.
    pub fn with_default_fields(self, fields: Vec<String>) -> (p: Self)
        ensures
            p.spec_default_fields() == strings_view(fields@),
    {
        VectorQueryParser { default_fields: fields }
    }

    /// The default fields, in order.
    pub fn default_fields(&self) -> (v: &Vec<String>)
        ensures
            strings_view(v@) == self.spec_default_fields(),
    {
        &self.default_fields
    }

    /// The clauses of the query `query_str`, each with its field resolved.
    /// Fails on a syntax error, on a query without clauses, and on a clause
    /// without a field when the parser has no default field.
    pub fn parse(&self, query_str: &str) -> (r: Result<Vec<QueryClause>, VectorQueryError>)
        ensures
            match r {
                Ok(v) => parse_query(query_str@, self.spec_default_fields()) == Ok::<
                    Seq<(Seq<char>, Seq<char>, Option<Seq<char>>)>,
                    VectorQueryError,
                >(v@.map_values(|c: QueryClause| clause_view(c))),
                Err(e) => parse_query(query_str@, self.spec_default_fields()) == Err::<
                    Seq<(Seq<char>, Seq<char>, Option<Seq<char>>)>,
                    VectorQueryError,
                >(e),
            },
    {
        let chars = crate::text::chars_of(query_str);
        let raws = match read_clauses(chars.as_slice()) {
            None => {
                return Err(VectorQueryError::Syntax);
            },
            Some(v) => v,
        };
        let ghost rv = raws@.map_values(|c: ExecClause| exec_clause_view(c));
        let ghost defaults = self.spec_default_fields();
        if raws.len() == 0 {
            return Err(VectorQueryError::NoClauses);
        }
        let mut out: Vec<QueryClause> = Vec::new();
        let mut i: usize = 0;
        while i < raws.len()
            invariant
                i <= raws@.len(),
                rv == raws@.map_values(|c: ExecClause| exec_clause_view(c)),
                defaults == self.spec_default_fields(),
                query_clauses(query_str@) == Some(rv),
                rv.len() > 0,
                forall|k: int| 0 <= k < i ==> (#[trigger] rv[k]).0 is Some || defaults.len() > 0,
                out@.map_values(|c: QueryClause| clause_view(c)) == rv.take(i as int).map_values(
                    |r: RawClause| resolve_clause(r, defaults),
                ),
            decreases raws.len() - i,
        {
            let ghost ov = out@.map_values(|c: QueryClause| clause_view(c));
            let field = match &raws[i].0 {
                Some(f) => string_from_chars(f.as_slice()),
                None => {
                    if self.default_fields.len() == 0 {
                        proof {
                            assert(rv[i as int].0 is None);
                            assert(defaults.len() == 0);
                        }
                        return Err(VectorQueryError::NoDefaultField);
                    }
                    let d = crate::text::owned(self.default_fields[0].as_str());
                    assert(d@ == defaults[0]);
                    d
                },
            };
            let text = string_from_chars(raws[i].1.as_slice());
            let weight = match &raws[i].2 {
                Some(w) => Some(string_from_chars(w.as_slice())),
                None => None,
            };
            let clause = QueryClause { field, text, weight };
            proof {
                assert(clause_view(clause) == resolve_clause(rv[i as int], defaults));
            }
            out.push(clause);
            proof {
                assert(rv.take(i + 1) =~= rv.take(i as int).push(rv[i as int]));
                assert(out@.map_values(|c: QueryClause| clause_view(c)) =~= ov.push(
                    clause_view(clause),
                ));
                assert(rv.take(i + 1).map_values(|r: RawClause| resolve_clause(r, defaults))
                    =~= rv.take(i as int).map_values(|r: RawClause| resolve_clause(r, defaults)).push(
                    resolve_clause(rv[i as int], defaults),
                ));
            }
            i = i + 1;
        }
        proof {
            assert(rv.take(rv.len() as int) =~= rv);
            if defaults.len() == 0 {
                assert forall|k: int| 0 <= k < rv.len() implies !((#[trigger] rv[k]).0 is None) by {
                }
            }
        }
        Ok(out)
    }
}

impl Default for VectorQueryParser {
    fn default() -> (p: Self)
        ensures
            p.spec_default_fields() == Seq::<Seq<char>>::empty(),
    {
        Self::new()
    }
}


/// Every character of `s` is a digit.
pub open spec fn all_digits(s: Seq<char>) -> bool {
    forall|i: int| 0 <= i < s.len() ==> is_digit(#[trigger] s[i])
}

/// A weight as the language writes it: digits, or digits, a dot and digits.
pub open spec fn valid_weight(w: Seq<char>) -> bool {
    ||| (w.len() > 0 && all_digits(w))
    ||| exists|k: int|
        0 < k && k + 1 < w.len() && #[trigger] w[k] == '.' && all_digits(w.take(k)) && all_digits(
            w.skip(k + 1),
        )
}

/// A clause that can be written in the language: a non-empty field name of
/// field characters (if any), a text without double quotes, and a weight
/// in the language's form (if any).
pub open spec fn valid_clause(c: RawClause) -> bool {
    &&& match c.0 {
        Some(f) => f.len() > 0 && forall|i: int| 0 <= i < f.len() ==> is_field_char(#[trigger] f[i]),
        None => true,
    }
    &&& forall|i: int| 0 <= i < c.1.len() ==> #[trigger] c.1[i] != '"'
    &&& match c.2 {
        Some(w) => valid_weight(w),
        None => true,
    }
}

/// How a clause is written: `field:~"text"^weight`, without the parts it
/// does not have.
pub open spec fn render_clause(c: RawClause) -> Seq<char> {
    let field_part = match c.0 {
        Some(f) => f.push(':'),
        None => Seq::empty(),
    };
    let weight_part = match c.2 {
        Some(w) => seq!['^'] + w,
        None => Seq::empty(),
    };
    field_part + seq!['~', '"'] + c.1 + seq!['"'] + weight_part
}

/// How a query is written: its clauses, one space between two.
pub open spec fn render_query(cs: Seq<RawClause>) -> Seq<char>
    decreases cs.len(),
{
    if cs.len() == 0 {
        Seq::empty()
    } else if cs.len() == 1 {
        render_clause(cs[0])
    } else {
        render_clause(cs[0]) + seq![' '] + render_query(cs.drop_first())
    }
}

proof fn lemma_field_end_at(s: Seq<char>, i: int, j: int)
    requires
        0 <= i <= j <= s.len(),
        forall|k: int| i <= k < j ==> is_field_char(#[trigger] s[k]),
        j == s.len() || !is_field_char(s[j]),
    ensures
        field_end(s, i) == j,
    decreases j - i,
{
    if i < j {
        lemma_field_end_at(s, i + 1, j);
    }
}

proof fn lemma_digits_end_at(s: Seq<char>, i: int, j: int)
    requires
        0 <= i <= j <= s.len(),
        forall|k: int| i <= k < j ==> is_digit(#[trigger] s[k]),
        j == s.len() || !is_digit(s[j]),
    ensures
        digits_end(s, i) == j,
    decreases j - i,
{
    if i < j {
        lemma_digits_end_at(s, i + 1, j);
    }
}

proof fn lemma_quote_end_at(s: Seq<char>, i: int, j: int)
    requires
        0 <= i <= j < s.len(),
        forall|k: int| i <= k < j ==> #[trigger] s[k] != '"',
        s[j] == '"',
    ensures
        quote_end(s, i) == j,
    decreases j - i,
{
    if i < j {
        lemma_quote_end_at(s, i + 1, j);
    }
}

proof fn lemma_weight_at(s: Seq<char>, i: int, w: Seq<char>)
    requires
        0 <= i,
        i + w.len() <= s.len(),
        s.subrange(i, i + w.len()) == w,
        valid_weight(w),
        i + w.len() == s.len() || s[i + w.len()] == ' ',
    ensures
        weight_at(s, i) == Some((w, i + w.len())),
{
    let n = w.len() as int;
    if n > 0 && all_digits(w) {
        assert forall|k: int| i <= k < i + n implies is_digit(#[trigger] s[k]) by {
            assert(s[k] == w[k - i]);
        }
        lemma_digits_end_at(s, i, i + n);
    } else {
        let k = choose|k: int|
            0 < k && k + 1 < w.len() && #[trigger] w[k] == '.' && all_digits(w.take(k))
                && all_digits(w.skip(k + 1));
        assert forall|x: int| i <= x < i + k implies is_digit(#[trigger] s[x]) by {
            assert(s[x] == w[x - i]);
            assert(w.take(k)[x - i] == w[x - i]);
        }
        assert(s[i + k] == w[k]);
        lemma_digits_end_at(s, i, i + k);
        assert forall|x: int| i + k + 1 <= x < i + n implies is_digit(#[trigger] s[x]) by {
            assert(s[x] == w[x - i]);
            assert(w.skip(k + 1)[x - i - k - 1] == w[x - i]);
        }
        lemma_digits_end_at(s, i + k + 1, i + n);
        assert(s.subrange(i, i + n) =~= w);
    }
}

proof fn lemma_clause_at_rendered(s: Seq<char>, p: int, c: RawClause)
    requires
        valid_clause(c),
        0 <= p,
        p + render_clause(c).len() <= s.len(),
        s.subrange(p, p + render_clause(c).len()) == render_clause(c),
        p + render_clause(c).len() == s.len() || s[p + render_clause(c).len()] == ' ',
    ensures
        clause_at(s, p) == Some((c, p + render_clause(c).len())),
{
    let r = render_clause(c);
    let end = p + r.len();
    assert forall|k: int| 0 <= k < r.len() implies s[p + k] == #[trigger] r[k] by {
        assert(s.subrange(p, end)[k] == s[p + k]);
    }
    let fl: int = match c.0 {
        Some(f) => f.len() as int + 1,
        None => 0,
    };
    match c.0 {
        Some(f) => {
            assert forall|k: int| p <= k < p + f.len() implies is_field_char(#[trigger] s[k]) by {
                assert(r[k - p] == f[k - p]);
                assert(s[p + (k - p)] == r[k - p]);
            }
            assert(r[f.len() as int] == ':');
            assert(s[p + f.len()] == ':');
            lemma_field_end_at(s, p, p + f.len());
            assert(s.subrange(p, p + f.len()) =~= f) by {
                assert forall|k: int| 0 <= k < f.len() implies s.subrange(p, p + f.len())[k]
                    == f[k] by {
                    assert(r[k] == f[k]);
                    assert(s[p + k] == r[k]);
                }
            }
        },
        None => {
            assert(r[0] == '~');
            assert(s[p] == '~');
            lemma_field_end_at(s, p, p);
        },
    }
    let j = p + fl;
    assert(r[fl] == '~' && r[fl + 1] == '"');
    assert(s[j] == '~' && s[j + 1] == '"');
    let tl = c.1.len() as int;
    assert forall|k: int| j + 2 <= k < j + 2 + tl implies #[trigger] s[k] != '"' by {
        assert(r[k - p] == c.1[k - j - 2]);
        assert(s[p + (k - p)] == r[k - p]);
    }
    assert(r[fl + 2 + tl] == '"');
    assert(s[j + 2 + tl] == '"');
    lemma_quote_end_at(s, j + 2, j + 2 + tl);
    assert(s.subrange(j + 2, j + 2 + tl) =~= c.1) by {
        assert forall|k: int| 0 <= k < tl implies s.subrange(j + 2, j + 2 + tl)[k] == c.1[k] by {
            assert(r[fl + 2 + k] == c.1[k]);
            assert(s[p + (fl + 2 + k)] == r[fl + 2 + k]);
        }
    }
    let m = j + 3 + tl;
    match c.2 {
        Some(w) => {
            assert(r[m - p] == '^');
            assert(s[m] == '^');
            assert(s.subrange(m + 1, m + 1 + w.len()) =~= w) by {
                assert forall|k: int| 0 <= k < w.len() implies s.subrange(
                    m + 1,
                    m + 1 + w.len(),
                )[k] == w[k] by {
                    assert(r[m - p + 1 + k] == w[k]);
                    assert(s[p + (m - p + 1 + k)] == r[m - p + 1 + k]);
                }
            }
            assert(end == m + 1 + w.len());
            lemma_weight_at(s, m + 1, w);
        },
        None => {
            assert(end == m);
        },
    }
}

proof fn lemma_rendered_starts_unspaced(c: RawClause)
    requires
        valid_clause(c),
    ensures
        render_clause(c).len() > 0,
        !is_space(render_clause(c)[0]),
{
    match c.0 {
        Some(f) => {
            assert(render_clause(c)[0] == f[0]);
        },
        None => {},
    }
}

proof fn lemma_clauses_from_rendered(s: Seq<char>, p: int, cs: Seq<RawClause>)
    requires
        0 <= p <= s.len(),
        s.skip(p) == render_query(cs),
        forall|i: int| 0 <= i < cs.len() ==> valid_clause(#[trigger] cs[i]),
    ensures
        clauses_from(s, p) == Some(cs),
    decreases cs.len(),
{
    if cs.len() == 0 {
        assert(s.skip(p).len() == 0);
        assert(cs =~= Seq::<RawClause>::empty());
    } else {
        let c = cs[0];
        assert(valid_clause(c));
        let r = render_clause(c);
        let e = p + r.len();
        lemma_rendered_starts_unspaced(c);
        if cs.len() == 1 {
            assert(s.skip(p) == r);
            assert(s.subrange(p, e) =~= r) by {
                assert forall|k: int| 0 <= k < r.len() implies s.subrange(p, e)[k] == r[k] by {
                    assert(s.skip(p)[k] == s[p + k]);
                }
            }
            lemma_clause_at_rendered(s, p, c);
            assert(cs =~= seq![c]);
        } else {
            let rest = cs.drop_first();
            let whole = render_query(cs);
            assert(whole == r + seq![' '] + render_query(rest));
            assert(s.subrange(p, e) =~= r) by {
                assert forall|k: int| 0 <= k < r.len() implies s.subrange(p, e)[k] == r[k] by {
                    assert(s.skip(p)[k] == s[p + k]);
                    assert(whole[k] == r[k]);
                }
            }
            assert(s[e] == ' ') by {
                assert(s.skip(p)[r.len() as int] == s[e]);
                assert(whole[r.len() as int] == ' ');
            }
            lemma_clause_at_rendered(s, p, c);
            assert forall|i: int| 0 <= i < rest.len() implies valid_clause(#[trigger] rest[i]) by {
                assert(rest[i] == cs[i + 1]);
            }
            assert(s.skip(e + 1) =~= render_query(rest)) by {
                assert forall|k: int| 0 <= k < s.skip(e + 1).len() implies s.skip(e + 1)[k]
                    == render_query(rest)[k] by {
                    assert(s.skip(p)[r.len() + 1 + k] == s[e + 1 + k]);
                    assert(whole[r.len() + 1 + k] == render_query(rest)[k]);
                }
            }
            lemma_rendered_starts_unspaced(rest[0]);
            if rest.len() == 1 {
                assert(render_query(rest) == render_clause(rest[0]));
            } else {
                assert(render_query(rest)[0] == render_clause(rest[0])[0]);
            }
            assert(s[e + 1] == render_query(rest)[0]);
            assert(!is_space(s[e + 1]));
            assert(space_end(s, e + 1) == e + 1);
            assert(space_end(s, e) == e + 1);
            lemma_clauses_from_rendered(s, e + 1, rest);
            assert(cs =~= seq![c] + rest);
        }
    }
}

/// Parsing a query written from well-formed clauses gives those clauses
/// back, in order.
pub proof fn lemma_parse_rendered(cs: Seq<RawClause>)
    requires
        forall|i: int| 0 <= i < cs.len() ==> valid_clause(#[trigger] cs[i]),
    ensures
        query_clauses(render_query(cs)) == Some(cs),
{
    let s = render_query(cs);
    if cs.len() > 0 {
        lemma_rendered_starts_unspaced(cs[0]);
        if cs.len() > 1 {
            assert(s[0] == render_clause(cs[0])[0]);
        }
        assert(space_end(s, 0) == 0);
    } else {
        assert(space_end(s, 0) == 0);
    }
    assert(s.skip(0) =~= s);
    lemma_clauses_from_rendered(s, 0, cs);
}


/// A parser given a query written from one or more well-formed clauses
/// gives back those clauses with their fields resolved, as long as each
/// clause names a field or the parser has a default field.
pub proof fn lemma_parse_query_rendered(cs: Seq<RawClause>, defaults: Seq<Seq<char>>)
    requires
        cs.len() > 0,
        forall|i: int| 0 <= i < cs.len() ==> valid_clause(#[trigger] cs[i]),
        defaults.len() > 0 || forall|i: int| 0 <= i < cs.len() ==> (#[trigger] cs[i]).0 is Some,
    ensures
        parse_query(render_query(cs), defaults) == Ok::<
            Seq<(Seq<char>, Seq<char>, Option<Seq<char>>)>,
            VectorQueryError,
        >(cs.map_values(|r: RawClause| resolve_clause(r, defaults))),
{
    lemma_parse_rendered(cs);
}

} // verus!
