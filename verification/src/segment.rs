//! Segment files of stored documents.
//!
//! A segment holds the documents of a contiguous batch of document ids in
//! one file. Each document is kept as its serialized payload; the file is
//! a record count followed by the records in ascending id order.

use vstd::prelude::*;
use vstd::bytes::{
    spec_u32_from_le_bytes, spec_u32_to_le_bytes, spec_u64_from_le_bytes, spec_u64_to_le_bytes,
    u32_from_le_bytes, u32_to_le_bytes, u64_from_le_bytes, u64_to_le_bytes,
    lemma_auto_spec_u32_to_from_le_bytes, lemma_auto_spec_u64_to_from_le_bytes,
};
use vstd::slice::{slice_subrange, slice_to_vec};
use crate::seqs::{assoc_map, keys_distinct};

verus! {

/// The character of a decimal digit.
pub open spec fn digit_char(d: int) -> char {
    if d == 0 {
        '0'
    } else if d == 1 {
        '1'
    } else if d == 2 {
        '2'
    } else if d == 3 {
        '3'
    } else if d == 4 {
        '4'
    } else if d == 5 {
        '5'
    } else if d == 6 {
        '6'
    } else if d == 7 {
        '7'
    } else if d == 8 {
        '8'
    } else {
        '9'
    }
}

/// The decimal digits of `n`, most significant first, without leading zeros.
pub open spec fn decimal(n: nat) -> Seq<char>
    decreases n,
{
    if n < 10 {
        seq![digit_char(n as int)]
    } else {
        decimal(n / 10).push(digit_char((n % 10) as int))
    }
}

/// `s` preceded by as many `'0'` as it takes to reach `width` characters.
pub open spec fn zero_padded(s: Seq<char>, width: nat) -> Seq<char> {
    if s.len() >= width {
        s
    } else {
        Seq::new((width - s.len()) as nat, |i: int| '0') + s
    }
}

/// The name of the file of the segment with the given id.
pub open spec fn segment_file_name(id: u32) -> Seq<char> {
    "doc_segment_"@ + zero_padded(decimal(id as nat), 6) + ".docs"@
}

fn digit(d: u32) -> (c: char)
    requires
        d < 10,
    ensures
        c == digit_char(d as int),
{
    if d == 0 {
        '0'
    } else if d == 1 {
        '1'
    } else if d == 2 {
        '2'
    } else if d == 3 {
        '3'
    } else if d == 4 {
        '4'
    } else if d == 5 {
        '5'
    } else if d == 6 {
        '6'
    } else if d == 7 {
        '7'
    } else if d == 8 {
        '8'
    } else {
        '9'
    }
}

/// Appends the decimal digits of `n` to `out`.
fn push_decimal(out: &mut Vec<char>, n: u32)
    ensures
        final(out)@ == old(out)@ + decimal(n as nat),
    decreases n,
{
    if n < 10 {
        out.push(digit(n));
    } else {
        push_decimal(out, n / 10);
        out.push(digit(n % 10));
    }
}

/// The decimal digits of `n`, left-padded with zeros to `width` characters.
pub fn zero_padded_decimal(n: u32, width: usize) -> (s: Vec<char>)
    ensures
        s@ == zero_padded(decimal(n as nat), width as nat),
{
    let mut digits: Vec<char> = Vec::new();
    push_decimal(&mut digits, n);
    assert(digits@ =~= decimal(n as nat));
    if digits.len() >= width {
        return digits;
    }
    let missing = width - digits.len();
    let mut s: Vec<char> = Vec::new();
    let mut i: usize = 0;
    while i < missing
        invariant
            i <= missing,
            s@ =~= Seq::new(i as nat, |k: int| '0'),
        decreases missing - i,
    {
        s.push('0');
        i = i + 1;
    }
    let mut j: usize = 0;
    while j < digits.len()
        invariant
            j <= digits.len(),
            s@ =~= Seq::new(missing as nat, |k: int| '0') + digits@.take(j as int),
        decreases digits.len() - j,
    {
        s.push(digits[j]);
        assert(digits@.take(j + 1) =~= digits@.take(j as int).push(digits@[j as int]));
        j = j + 1;
    }
    assert(digits@.take(digits@.len() as int) =~= digits@);
    s
}

/// A segment of stored documents: the documents whose ids lie between
/// `start_doc_id` and `end_doc_id`, `doc_count` of them.
#[derive(Debug, Clone, Copy, PartialEq, Eq, Structural)]
pub struct DocumentSegment {
    pub id: u32,
    pub start_doc_id: u64,
    pub end_doc_id: u64,
    pub doc_count: usize,
}

impl DocumentSegment {
    /// Whether `doc_id` lies in the segment's id range.
    pub open spec fn spec_contains(self, doc_id: u64) -> bool {
        self.start_doc_id <= doc_id <= self.end_doc_id
    }

    /// The name of the segment's file: `doc_segment_`, the id in at least
    /// six decimal digits, and `.docs`.
    pub fn file_name(&self) -> (name: String)
        ensures
            name@ == segment_file_name(self.id),
    {
        let digits = zero_padded_decimal(self.id, 6);
        let mut name = crate::text::owned("doc_segment_");
        let tail = crate::text::string_from_chars(digits.as_slice());
        name.append(tail.as_str());
        name.append(".docs");
        name
    }

    /// Whether `doc_id` lies in the segment's id range, both ends counted.
    pub fn contains(&self, doc_id: u64) -> (b: bool)
        ensures
            b == self.spec_contains(doc_id),
    {
        doc_id >= self.start_doc_id && doc_id <= self.end_doc_id
    }
}


/// A stored document: its id and its serialized payload.
pub open spec fn record_view(r: (u64, Vec<u8>)) -> (u64, Seq<u8>) {
    (r.0, r.1@)
}

/// The stored documents of a list, each by its id and payload bytes.
pub open spec fn records_view(v: Seq<(u64, Vec<u8>)>) -> Seq<(u64, Seq<u8>)> {
    v.map_values(|r: (u64, Vec<u8>)| record_view(r))
}

/// The bytes of one record: the id and the payload length as little-endian
/// 64-bit integers, then the payload.
pub open spec fn encode_record(r: (u64, Seq<u8>)) -> Seq<u8> {
    spec_u64_to_le_bytes(r.0) + spec_u64_to_le_bytes(r.1.len() as u64) + r.1
}

/// The bytes of a run of records, one after another.
pub open spec fn encode_records(rs: Seq<(u64, Seq<u8>)>) -> Seq<u8>
    decreases rs.len(),
{
    if rs.len() == 0 {
        Seq::empty()
    } else {
        encode_records(rs.drop_last()) + encode_record(rs.last())
    }
}

/// The bytes of a segment file holding the records `rs`: their count as a
/// little-endian 32-bit integer, then the records.
pub open spec fn segment_bytes(rs: Seq<(u64, Seq<u8>)>) -> Seq<u8> {
    spec_u32_to_le_bytes(rs.len() as u32) + encode_records(rs)
}

/// The record at the start of `b`, with the bytes after it; `None` where
/// `b` ends before the record does.
pub open spec fn read_record(b: Seq<u8>) -> Option<((u64, Seq<u8>), Seq<u8>)> {
    if b.len() < 16 {
        None
    } else {
        let id = spec_u64_from_le_bytes(b.subrange(0, 8));
        let n = spec_u64_from_le_bytes(b.subrange(8, 16));
        if b.len() - 16 < n {
            None
        } else {
            Some(((id, b.subrange(16, 16 + n)), b.skip(16 + n)))
        }
    }
}

/// The first `count` records at the start of `b`; `None` where `b` ends
/// before they do.
pub open spec fn parse_records(b: Seq<u8>, count: nat) -> Option<Seq<(u64, Seq<u8>)>>
    decreases count,
{
    if count == 0 {
        Some(Seq::empty())
    } else {
        match read_record(b) {
            None => None,
            Some((r, rest)) => match parse_records(rest, (count - 1) as nat) {
                None => None,
                Some(rs) => Some(seq![r] + rs),
            },
        }
    }
}

/// The records of a segment file, as many as its count says; `None` where
/// the file ends before they do. Bytes after the last record are ignored.
pub open spec fn parse_segment(b: Seq<u8>) -> Option<Seq<(u64, Seq<u8>)>> {
    if b.len() < 4 {
        None
    } else {
        parse_records(b.skip(4), spec_u32_from_le_bytes(b.subrange(0, 4)) as nat)
    }
}

/// Reading the records one after another, the payload of the first one with
/// id `doc_id` (`Some(None)` where none of the `count` records has it);
/// `None` where the bytes end before that record, or before the last one
/// when there is no such record.
pub open spec fn lookup_records(b: Seq<u8>, count: nat, doc_id: u64) -> Option<Option<Seq<u8>>>
    decreases count,
{
    if count == 0 {
        Some(None)
    } else {
        match read_record(b) {
            None => None,
            Some((r, rest)) => if r.0 == doc_id {
                Some(Some(r.1))
            } else {
                lookup_records(rest, (count - 1) as nat, doc_id)
            },
        }
    }
}

/// `lookup_records` over the records of a segment file.
pub open spec fn lookup_segment(b: Seq<u8>, doc_id: u64) -> Option<Option<Seq<u8>>> {
    if b.len() < 4 {
        None
    } else {
        lookup_records(b.skip(4), spec_u32_from_le_bytes(b.subrange(0, 4)) as nat, doc_id)
    }
}

/// Why a segment could not be written or read.
#[derive(Debug, Clone, PartialEq, Eq, Structural)]
pub enum SegmentError {
    /// A segment must hold at least one document.
    EmptySegment,
    /// A segment holds at most `u32::MAX` documents.
    TooManyDocuments,
    /// The segment file ends in the middle of a record.
    Truncated,
}


/// The payload of the first record of `rs` with id `doc_id`, if any.
pub open spec fn first_payload(rs: Seq<(u64, Seq<u8>)>, doc_id: u64) -> Option<Seq<u8>>
    decreases rs.len(),
{
    if rs.len() == 0 {
        None
    } else if rs[0].0 == doc_id {
        Some(rs[0].1)
    } else {
        first_payload(rs.drop_first(), doc_id)
    }
}

/// The bytes of a list of records, in order.
pub fn encode_segment(records: &Vec<(u64, Vec<u8>)>) -> (b: Vec<u8>)
    requires
        records.len() <= u32::MAX,
    ensures
        b@ == segment_bytes(records_view(records@)),
{
    let ghost rv = records_view(records@);
    let count = records.len() as u32;
    let mut out = u32_to_le_bytes(count);
    let mut i: usize = 0;
    while i < records.len()
        invariant
            i <= records.len(),
            rv == records_view(records@),
            count == records@.len(),
            out@ == spec_u32_to_le_bytes(count) + encode_records(rv.take(i as int)),
        decreases records.len() - i,
    {
        let mut id_bytes = u64_to_le_bytes(records[i].0);
        out.append(&mut id_bytes);
        let payload = &records[i].1;
        let mut len_bytes = u64_to_le_bytes(payload.len() as u64);
        out.append(&mut len_bytes);
        let ghost before = out@;
        out.extend_from_slice(payload.as_slice());
        proof {
            assert(out@ =~= before + payload@);
            assert(rv.take(i + 1).drop_last() =~= rv.take(i as int));
            assert(rv.take(i + 1).last() == record_view(records@[i as int]));
            assert(out@ =~= spec_u32_to_le_bytes(count) + encode_records(rv.take(i + 1)));
        }
        i = i + 1;
    }
    assert(rv.take(records@.len() as int) =~= rv);
    out
}

/// The record that starts at `pos` in `bytes`, with the position after it.
fn read_record_at(bytes: &[u8], pos: usize) -> (r: Option<((u64, Vec<u8>), usize)>)
    requires
        pos <= bytes@.len(),
    ensures
        match r {
            None => read_record(bytes@.skip(pos as int)) is None,
            Some((rec, next)) => {
                &&& pos <= next <= bytes@.len()
                &&& read_record(bytes@.skip(pos as int)) == Some(
                    (record_view(rec), bytes@.skip(next as int)),
                )
            },
        },
{
    let ghost b = bytes@.skip(pos as int);
    if bytes.len() - pos < 16 {
        return None;
    }
    let id = u64_from_le_bytes(slice_subrange(bytes, pos, pos + 8));
    let n = u64_from_le_bytes(slice_subrange(bytes, pos + 8, pos + 16));
    assert(bytes@.subrange(pos as int, pos + 8) =~= b.subrange(0, 8));
    assert(bytes@.subrange(pos + 8, pos + 16) =~= b.subrange(8, 16));
    let avail = bytes.len() - pos - 16;
    if (avail as u64) < n {
        return None;
    }
    let end = pos + 16 + (n as usize);
    let payload = slice_to_vec(slice_subrange(bytes, pos + 16, end));
    assert(payload@ =~= b.subrange(16, 16 + n));
    assert(bytes@.skip(end as int) =~= b.skip(16 + n));
    Some(((id, payload), end))
}

/// The records of a segment file.
pub fn decode_segment(bytes: &[u8]) -> (r: Result<Vec<(u64, Vec<u8>)>, SegmentError>)
    ensures
        match r {
            Ok(v) => parse_segment(bytes@) == Some(records_view(v@)),
            Err(e) => parse_segment(bytes@) is None && e == SegmentError::Truncated,
        },
{
    let ghost b = bytes@;
    if bytes.len() < 4 {
        return Err(SegmentError::Truncated);
    }
    let count = u32_from_le_bytes(slice_subrange(bytes, 0, 4));
    assert(bytes@.subrange(0, 4) =~= b.subrange(0, 4));
    let mut pos: usize = 4;
    let mut out: Vec<(u64, Vec<u8>)> = Vec::new();
    let mut i: u32 = 0;
    while i < count
        invariant
            b == bytes@,
            4 <= pos <= b.len(),
            i <= count,
            b.len() >= 4,
            count == spec_u32_from_le_bytes(b.subrange(0, 4)),
            parse_segment(b) == match parse_records(b.skip(pos as int), (count - i) as nat) {
                None => None,
                Some(rs) => Some(records_view(out@) + rs),
            },
        decreases count - i,
    {
        match read_record_at(bytes, pos) {
            None => {
                return Err(SegmentError::Truncated);
            },
            Some((rec, next)) => {
                proof {
                    let rest_count = (count - i - 1) as nat;
                    assert(parse_records(b.skip(pos as int), (count - i) as nat) == match parse_records(
                        b.skip(next as int),
                        rest_count,
                    ) {
                        None => None,
                        Some(rs) => Some(seq![record_view(rec)] + rs),
                    });
                    let ghost old_view = records_view(out@);
                    assert(records_view(out@.push(rec)) =~= old_view.push(record_view(rec)));
                    match parse_records(b.skip(next as int), rest_count) {
                        None => {},
                        Some(rs) => {
                            assert(old_view + (seq![record_view(rec)] + rs) =~= old_view.push(
                                record_view(rec),
                            ) + rs);
                        },
                    }
                }
                out.push(rec);
                pos = next;
                i = i + 1;
            },
        }
    }
    assert(records_view(out@) + Seq::<(u64, Seq<u8>)>::empty() =~= records_view(out@));
    Ok(out)
}

/// Reading the records of a segment file one after another, the payload of
/// the first one with id `doc_id`.
pub fn lookup_in_segment(bytes: &[u8], doc_id: u64) -> (r: Result<Option<Vec<u8>>, SegmentError>)
    ensures
        match r {
            Ok(found) => lookup_segment(bytes@, doc_id) == Some(
                match found {
                    None => None,
                    Some(p) => Some(p@),
                },
            ),
            Err(e) => lookup_segment(bytes@, doc_id) is None && e == SegmentError::Truncated,
        },
{
    let ghost b = bytes@;
    if bytes.len() < 4 {
        return Err(SegmentError::Truncated);
    }
    let count = u32_from_le_bytes(slice_subrange(bytes, 0, 4));
    assert(bytes@.subrange(0, 4) =~= b.subrange(0, 4));
    let mut pos: usize = 4;
    let mut i: u32 = 0;
    while i < count
        invariant
            b == bytes@,
            4 <= pos <= b.len(),
            i <= count,
            b.len() >= 4,
            count == spec_u32_from_le_bytes(b.subrange(0, 4)),
            lookup_segment(b, doc_id) == lookup_records(
                b.skip(pos as int),
                (count - i) as nat,
                doc_id,
            ),
        decreases count - i,
    {
        match read_record_at(bytes, pos) {
            None => {
                return Err(SegmentError::Truncated);
            },
            Some((rec, next)) => {
                if rec.0 == doc_id {
                    return Ok(Some(rec.1));
                }
                pos = next;
                i = i + 1;
            },
        }
    }
    Ok(None)
}


/// Whether every payload of `rs` has a length that a 64-bit integer holds.
pub open spec fn payload_lengths_fit(rs: Seq<(u64, Seq<u8>)>) -> bool {
    forall|i: int| 0 <= i < rs.len() ==> #[trigger] rs[i].1.len() <= u64::MAX
}

proof fn lemma_encode_records_front(r: (u64, Seq<u8>), rs: Seq<(u64, Seq<u8>)>)
    ensures
        encode_records(seq![r] + rs) == encode_record(r) + encode_records(rs),
    decreases rs.len(),
{
    let whole = seq![r] + rs;
    if rs.len() == 0 {
        assert(whole.drop_last() =~= Seq::<(u64, Seq<u8>)>::empty());
        assert(whole.last() == r);
        assert(encode_records(whole.drop_last()) =~= Seq::<u8>::empty());
        assert(encode_records(whole) =~= encode_record(r));
        assert(encode_record(r) + encode_records(rs) =~= encode_record(r));
    } else {
        assert(whole.drop_last() =~= seq![r] + rs.drop_last());
        assert(whole.last() == rs.last());
        lemma_encode_records_front(r, rs.drop_last());
        assert(encode_records(whole) =~= encode_record(r) + encode_records(rs.drop_last())
            + encode_record(rs.last()));
        assert(encode_records(whole) =~= encode_record(r) + encode_records(rs));
    }
}

proof fn lemma_read_encoded_record(r: (u64, Seq<u8>), rest: Seq<u8>)
    requires
        r.1.len() <= u64::MAX,
    ensures
        read_record(encode_record(r) + rest) == Some((r, rest)),
{
    lemma_auto_spec_u64_to_from_le_bytes();
    let b = encode_record(r) + rest;
    let n = r.1.len() as u64;
    assert(spec_u64_to_le_bytes(r.0).len() == 8);
    assert(spec_u64_to_le_bytes(n).len() == 8);
    assert(b.subrange(0, 8) =~= spec_u64_to_le_bytes(r.0));
    assert(b.subrange(8, 16) =~= spec_u64_to_le_bytes(n));
    assert(b.subrange(16, 16 + n) =~= r.1);
    assert(b.skip(16 + n) =~= rest);
}

proof fn lemma_parse_encoded(rs: Seq<(u64, Seq<u8>)>, rest: Seq<u8>)
    requires
        payload_lengths_fit(rs),
    ensures
        parse_records(encode_records(rs) + rest, rs.len()) == Some(rs),
    decreases rs.len(),
{
    if rs.len() == 0 {
        assert(parse_records(encode_records(rs) + rest, 0) == Some(Seq::<(u64, Seq<u8>)>::empty()));
        assert(rs =~= Seq::<(u64, Seq<u8>)>::empty());
    } else {
        let r = rs[0];
        let tail = rs.drop_first();
        assert(rs =~= seq![r] + tail);
        lemma_encode_records_front(r, tail);
        assert(payload_lengths_fit(tail)) by {
            assert forall|i: int| 0 <= i < tail.len() implies #[trigger] tail[i].1.len()
                <= u64::MAX by {
                assert(tail[i] == rs[i + 1]);
            }
        }
        assert(rs[0].1.len() <= u64::MAX);
        let tail_bytes = encode_records(tail) + rest;
        assert(encode_records(rs) + rest =~= encode_record(r) + tail_bytes);
        lemma_read_encoded_record(r, tail_bytes);
        lemma_parse_encoded(tail, rest);
    }
}

proof fn lemma_lookup_encoded(rs: Seq<(u64, Seq<u8>)>, rest: Seq<u8>, doc_id: u64)
    requires
        payload_lengths_fit(rs),
    ensures
        lookup_records(encode_records(rs) + rest, rs.len(), doc_id) == Some(
            first_payload(rs, doc_id),
        ),
    decreases rs.len(),
{
    if rs.len() > 0 {
        let r = rs[0];
        let tail = rs.drop_first();
        assert(rs =~= seq![r] + tail);
        lemma_encode_records_front(r, tail);
        assert(payload_lengths_fit(tail)) by {
            assert forall|i: int| 0 <= i < tail.len() implies #[trigger] tail[i].1.len()
                <= u64::MAX by {
                assert(tail[i] == rs[i + 1]);
            }
        }
        assert(rs[0].1.len() <= u64::MAX);
        let tail_bytes = encode_records(tail) + rest;
        assert(encode_records(rs) + rest =~= encode_record(r) + tail_bytes);
        lemma_read_encoded_record(r, tail_bytes);
        lemma_lookup_encoded(tail, rest, doc_id);
    }
}

proof fn lemma_segment_header(rs: Seq<(u64, Seq<u8>)>)
    requires
        rs.len() <= u32::MAX,
    ensures
        segment_bytes(rs).len() >= 4,
        spec_u32_from_le_bytes(segment_bytes(rs).subrange(0, 4)) == rs.len(),
        segment_bytes(rs).skip(4) == encode_records(rs) + Seq::<u8>::empty(),
{
    lemma_auto_spec_u32_to_from_le_bytes();
    let b = segment_bytes(rs);
    assert(spec_u32_to_le_bytes(rs.len() as u32).len() == 4);
    assert(b.subrange(0, 4) =~= spec_u32_to_le_bytes(rs.len() as u32));
    assert(b.skip(4) =~= encode_records(rs) + Seq::<u8>::empty());
}

/// Reading a segment file gives back, in order, the records it was written
/// from.
pub proof fn lemma_segment_roundtrip(rs: Seq<(u64, Seq<u8>)>)
    requires
        rs.len() <= u32::MAX,
        payload_lengths_fit(rs),
    ensures
        parse_segment(segment_bytes(rs)) == Some(rs),
{
    lemma_segment_header(rs);
    lemma_parse_encoded(rs, Seq::<u8>::empty());
}

/// Looking a document up in a segment file gives the payload of the first
/// record written with its id, and nothing where no record has it.
pub proof fn lemma_segment_lookup(rs: Seq<(u64, Seq<u8>)>, doc_id: u64)
    requires
        rs.len() <= u32::MAX,
        payload_lengths_fit(rs),
    ensures
        lookup_segment(segment_bytes(rs), doc_id) == Some(first_payload(rs, doc_id)),
{
    lemma_segment_header(rs);
    lemma_lookup_encoded(rs, Seq::<u8>::empty(), doc_id);
}


/// The ids of `rs` are strictly ascending.
pub open spec fn ids_ascending(rs: Seq<(u64, Seq<u8>)>) -> bool {
    forall|i: int, j: int| 0 <= i < j < rs.len() ==> rs[i].0 < rs[j].0
}

/// Every record of `a` occurs in `b`.
pub open spec fn records_within(a: Seq<(u64, Seq<u8>)>, b: Seq<(u64, Seq<u8>)>) -> bool {
    forall|i: int| 0 <= i < a.len() ==> b.contains(#[trigger] a[i])
}

/// `a` and `b` hold the same records, as many of them.
pub open spec fn same_records(a: Seq<(u64, Seq<u8>)>, b: Seq<(u64, Seq<u8>)>) -> bool {
    &&& a.len() == b.len()
    &&& records_within(a, b)
    &&& records_within(b, a)
}

proof fn lemma_sorted_insert(dv: Seq<(u64, Seq<u8>)>, i: int, ov: Seq<(u64, Seq<u8>)>, p: int)
    requires
        keys_distinct(dv),
        0 <= i < dv.len(),
        ov.len() == i,
        0 <= p <= ov.len(),
        ids_ascending(ov),
        records_within(dv.take(i), ov),
        records_within(ov, dv.take(i)),
        forall|q: int| 0 <= q < p ==> ov[q].0 < dv[i].0,
        p < ov.len() ==> ov[p].0 >= dv[i].0,
    ensures
        ids_ascending(ov.insert(p, dv[i])),
        records_within(dv.take(i + 1), ov.insert(p, dv[i])),
        records_within(ov.insert(p, dv[i]), dv.take(i + 1)),
{
    let r = dv[i];
    let id = r.0;
    let nv = ov.insert(p, r);
    let before = dv.take(i);
    let taken = dv.take(i + 1);
    assert(taken =~= before.push(r));
    assert forall|q: int| p <= q < ov.len() implies ov[q].0 > id by {
        assert(before.contains(ov[q]));
        let w = choose|k: int| 0 <= k < before.len() && before[k] == ov[q];
        assert(dv[w] == ov[q]);
        assert(dv[w].0 != id);
        if q > p {
            assert(ov[p].0 < ov[q].0);
        }
    }
    assert forall|a: int, b: int| 0 <= a < b < nv.len() implies nv[a].0 < nv[b].0 by {
        if b < p {
        } else if b == p {
        } else if a < p {
            assert(nv[b] == ov[b - 1]);
        } else if a == p {
            assert(nv[b] == ov[b - 1]);
        } else {
            assert(nv[a] == ov[a - 1] && nv[b] == ov[b - 1]);
        }
    }
    assert forall|k: int| 0 <= k < taken.len() implies nv.contains(#[trigger] taken[k]) by {
        if k == i {
            assert(nv[p] == taken[k]);
        } else {
            assert(taken[k] == before[k]);
            assert(ov.contains(before[k]));
            let j = choose|j: int| 0 <= j < ov.len() && ov[j] == before[k];
            if j < p {
                assert(nv[j] == taken[k]);
            } else {
                assert(nv[j + 1] == taken[k]);
            }
        }
    }
    assert forall|j: int| 0 <= j < nv.len() implies taken.contains(#[trigger] nv[j]) by {
        if j == p {
            assert(taken[i] == nv[j]);
        } else {
            let oj = if j < p {
                j
            } else {
                j - 1
            };
            assert(nv[j] == ov[oj]);
            assert(before.contains(ov[oj]));
            let k = choose|k: int| 0 <= k < before.len() && before[k] == ov[oj];
            assert(taken[k] == nv[j]);
        }
    }
}

/// The records of `docs`, in ascending id order.
pub fn sort_by_id(docs: &Vec<(u64, Vec<u8>)>) -> (out: Vec<(u64, Vec<u8>)>)
    requires
        keys_distinct(records_view(docs@)),
    ensures
        ids_ascending(records_view(out@)),
        same_records(records_view(docs@), records_view(out@)),
{
    let ghost dv = records_view(docs@);
    let mut out: Vec<(u64, Vec<u8>)> = Vec::new();
    let mut i: usize = 0;
    while i < docs.len()
        invariant
            i <= docs.len(),
            dv == records_view(docs@),
            keys_distinct(dv),
            out.len() == i,
            ids_ascending(records_view(out@)),
            records_within(dv.take(i as int), records_view(out@)),
            records_within(records_view(out@), dv.take(i as int)),
        decreases docs.len() - i,
    {
        let ghost ov = records_view(out@);
        let id = docs[i].0;
        let mut p: usize = 0;
        while p < out.len() && out[p].0 < id
            invariant
                p <= out.len(),
                ov == records_view(out@),
                forall|q: int| 0 <= q < p ==> ov[q].0 < id,
            decreases out.len() - p,
        {
            p = p + 1;
        }
        let payload = docs[i].1.clone();
        assert(payload@ =~= docs@[i as int].1@);
        proof {
            lemma_sorted_insert(dv, i as int, ov, p as int);
        }
        out.insert(p, (id, payload));
        assert(records_view(out@) =~= ov.insert(p as int, dv[i as int]));
        i = i + 1;
    }
    assert(dv.take(docs@.len() as int) =~= dv);
    out
}


/// Whether `seg` and `bytes` are what writing the records `docs` as segment
/// `segment_id` gives: the records in ascending id order, and the segment
/// that covers their ids.
pub open spec fn written_segment(
    docs: Seq<(u64, Seq<u8>)>,
    segment_id: u32,
    seg: DocumentSegment,
    bytes: Seq<u8>,
) -> bool {
    exists|s: Seq<(u64, Seq<u8>)>|
        {
            &&& ids_ascending(s)
            &&& same_records(docs, s)
            &&& #[trigger] segment_bytes(s) == bytes
            &&& seg.id == segment_id
            &&& seg.start_doc_id == s[0].0
            &&& seg.end_doc_id == s.last().0
            &&& seg.doc_count == docs.len()
        }
}

/// The payload of the record of `docs` with id `doc_id`, if one has it.
pub open spec fn payload_of(docs: Seq<(u64, Seq<u8>)>, doc_id: u64) -> Option<Seq<u8>> {
    if exists|k: int| 0 <= k < docs.len() && docs[k].0 == doc_id {
        Some(docs[choose|k: int| 0 <= k < docs.len() && docs[k].0 == doc_id].1)
    } else {
        None
    }
}

/// Writes document segments.
#[derive(Debug)]
pub struct DocumentSegmentWriter {}

impl DocumentSegmentWriter {
    /// A segment writer.
    pub fn new() -> (w: Self) {
        DocumentSegmentWriter {  }
    }

    /// The segment with id `segment_id` that holds the documents `docs`
    /// (each an id and its serialized payload), and the bytes of its file:
    /// the documents in ascending id order. Fails on an empty batch, and on
    /// one of more than `u32::MAX` documents.
    pub fn write_segment(&self, segment_id: u32, docs: &Vec<(u64, Vec<u8>)>) -> (r: Result<
        (DocumentSegment, Vec<u8>),
        SegmentError,
    >)
        requires
            keys_distinct(records_view(docs@)),
        ensures
            docs.len() == 0 ==> r == Err::<(DocumentSegment, Vec<u8>), _>(
                SegmentError::EmptySegment,
            ),
            docs.len() > u32::MAX ==> r == Err::<(DocumentSegment, Vec<u8>), _>(
                SegmentError::TooManyDocuments,
            ),
            0 < docs.len() <= u32::MAX ==> r is Ok,
            r matches Ok((seg, bytes)) ==> written_segment(
                records_view(docs@),
                segment_id,
                seg,
                bytes@,
            ),
    {
        if docs.len() == 0 {
            return Err(SegmentError::EmptySegment);
        }
        let sorted = sort_by_id(docs);
        let ghost s = records_view(sorted@);
        let n = sorted.len();
        let start_doc_id = sorted[0].0;
        let end_doc_id = sorted[n - 1].0;
        let segment = DocumentSegment { id: segment_id, start_doc_id, end_doc_id, doc_count: n };
        if n > 4294967295 {
            return Err(SegmentError::TooManyDocuments);
        }
        let bytes = encode_segment(&sorted);
        assert(segment_bytes(s) == bytes@);
        Ok((segment, bytes))
    }
}

proof fn lemma_first_payload_ascending(s: Seq<(u64, Seq<u8>)>, doc_id: u64)
    requires
        ids_ascending(s),
    ensures
        forall|j: int| 0 <= j < s.len() && s[j].0 == doc_id ==> first_payload(s, doc_id) == Some(
            s[j].1,
        ),
        (forall|j: int| 0 <= j < s.len() ==> s[j].0 != doc_id) ==> first_payload(s, doc_id)
            is None,
    decreases s.len(),
{
    if s.len() > 0 {
        let t = s.drop_first();
        assert(ids_ascending(t)) by {
            assert forall|a: int, b: int| 0 <= a < b < t.len() implies t[a].0 < t[b].0 by {
                assert(t[a] == s[a + 1] && t[b] == s[b + 1]);
            }
        }
        lemma_first_payload_ascending(t, doc_id);
        assert forall|j: int| 0 <= j < s.len() && s[j].0 == doc_id implies first_payload(
            s,
            doc_id,
        ) == Some(s[j].1) by {
            if j > 0 {
                assert(s[0].0 < s[j].0);
                assert(t[j - 1] == s[j]);
            }
        }
        if forall|j: int| 0 <= j < s.len() ==> s[j].0 != doc_id {
            assert forall|j: int| 0 <= j < t.len() implies t[j].0 != doc_id by {
                assert(t[j] == s[j + 1]);
            }
        }
    }
}

/// Looking a document up in the file that writing a batch of documents gave
/// finds the payload it was written with, and nothing for an id that was
/// not in the batch.
pub proof fn lemma_written_segment_lookup(
    docs: Seq<(u64, Seq<u8>)>,
    segment_id: u32,
    seg: DocumentSegment,
    bytes: Seq<u8>,
    doc_id: u64,
)
    requires
        keys_distinct(docs),
        docs.len() <= u32::MAX,
        payload_lengths_fit(docs),
        written_segment(docs, segment_id, seg, bytes),
    ensures
        lookup_segment(bytes, doc_id) == Some(payload_of(docs, doc_id)),
{
    let s = choose|s: Seq<(u64, Seq<u8>)>|
        {
            &&& ids_ascending(s)
            &&& same_records(docs, s)
            &&& #[trigger] segment_bytes(s) == bytes
            &&& seg.id == segment_id
            &&& seg.start_doc_id == s[0].0
            &&& seg.end_doc_id == s.last().0
            &&& seg.doc_count == docs.len()
        };
    assert(payload_lengths_fit(s)) by {
        assert forall|j: int| 0 <= j < s.len() implies #[trigger] s[j].1.len() <= u64::MAX by {
            assert(docs.contains(s[j]));
            let k = choose|k: int| 0 <= k < docs.len() && docs[k] == s[j];
            assert(docs[k].1.len() <= u64::MAX);
        }
    }
    lemma_segment_lookup(s, doc_id);
    lemma_first_payload_ascending(s, doc_id);
    if exists|k: int| 0 <= k < docs.len() && docs[k].0 == doc_id {
        let k = choose|k: int| 0 <= k < docs.len() && docs[k].0 == doc_id;
        assert(s.contains(docs[k]));
        let j = choose|j: int| 0 <= j < s.len() && s[j] == docs[k];
        assert(first_payload(s, doc_id) == Some(s[j].1));
    } else {
        assert forall|j: int| 0 <= j < s.len() implies s[j].0 != doc_id by {
            assert(docs.contains(s[j]));
            let k = choose|k: int| 0 <= k < docs.len() && docs[k] == s[j];
            assert(docs[k].0 != doc_id);
        }
    }
}

/// A document of a written batch lies in the range of the segment written,
/// and looking it up in the segment's file gives the payload it was written
/// with.
pub proof fn lemma_written_document_readable(
    docs: Seq<(u64, Seq<u8>)>,
    segment_id: u32,
    seg: DocumentSegment,
    bytes: Seq<u8>,
    doc_id: u64,
)
    requires
        keys_distinct(docs),
        docs.len() <= u32::MAX,
        payload_lengths_fit(docs),
        written_segment(docs, segment_id, seg, bytes),
        assoc_map(docs).contains_key(doc_id),
    ensures
        seg.spec_contains(doc_id),
        lookup_segment(bytes, doc_id) == Some(Some(assoc_map(docs)[doc_id])),
{
    lemma_written_segment_lookup(docs, segment_id, seg, bytes, doc_id);
    let k = choose|k: int| 0 <= k < docs.len() && docs[k].0 == doc_id;
    crate::seqs::lemma_assoc_at(docs, k);
    let s = choose|s: Seq<(u64, Seq<u8>)>|
        {
            &&& ids_ascending(s)
            &&& same_records(docs, s)
            &&& #[trigger] segment_bytes(s) == bytes
            &&& seg.id == segment_id
            &&& seg.start_doc_id == s[0].0
            &&& seg.end_doc_id == s.last().0
            &&& seg.doc_count == docs.len()
        };
    assert(s.contains(docs[k]));
    let j = choose|j: int| 0 <= j < s.len() && s[j] == docs[k];
    if j > 0 {
        assert(s[0].0 < s[j].0);
    }
    if j < s.len() - 1 {
        assert(s[j].0 < s[s.len() - 1].0);
    }
    let p = choose|p: int| 0 <= p < docs.len() && docs[p].0 == doc_id;
    assert(p == k);
}

/// Reads the documents of one segment from the bytes of its file.
#[derive(Debug)]
pub struct DocumentSegmentReader {
    segment: DocumentSegment,
}

impl DocumentSegmentReader {
    /// A reader of the given segment.
    pub fn new(segment: DocumentSegment) -> (r: Self)
        ensures
            r.spec_segment() == segment,
    {
        DocumentSegmentReader { segment }
    }

    /// The segment read.
    pub closed spec fn spec_segment(&self) -> DocumentSegment {
        self.segment
    }

    /// The segment read.
    pub fn segment(&self) -> (s: DocumentSegment)
        ensures
            s == self.spec_segment(),
    {
        self.segment
    }

    /// The payload of document `doc_id` in the segment's file `file`:
    /// nothing where the id is outside the segment's range; else the
    /// payload of the first record with that id, read in order, and an
    /// error where the file ends before that record (or before its last
    /// record, when there is none).
    pub fn get_document(&self, file: &[u8], doc_id: u64) -> (r: Result<
        Option<Vec<u8>>,
        SegmentError,
    >)
        ensures
            !self.spec_segment().spec_contains(doc_id) ==> r == Ok::<Option<Vec<u8>>, SegmentError>(
                None,
            ),
            self.spec_segment().spec_contains(doc_id) ==> match r {
                Ok(found) => lookup_segment(file@, doc_id) == Some(
                    match found {
                        None => None,
                        Some(p) => Some(p@),
                    },
                ),
                Err(e) => lookup_segment(file@, doc_id) is None && e == SegmentError::Truncated,
            },
    {
        if !self.segment.contains(doc_id) {
            return Ok(None);
        }
        lookup_in_segment(file, doc_id)
    }

    /// All records of the segment's file `file`, in file order.
    pub fn read_all(&self, file: &[u8]) -> (r: Result<Vec<(u64, Vec<u8>)>, SegmentError>)
        ensures
            match r {
                Ok(v) => parse_segment(file@) == Some(records_view(v@)),
                Err(e) => parse_segment(file@) is None && e == SegmentError::Truncated,
            },
    {
        decode_segment(file)
    }
}


/// The segments of `segs` whose id range holds `doc_id`, newest first.
pub open spec fn containing_newest_first(segs: Seq<DocumentSegment>, doc_id: u64) -> Seq<
    DocumentSegment,
>
    decreases segs.len(),
{
    if segs.len() == 0 {
        Seq::empty()
    } else if segs.last().spec_contains(doc_id) {
        seq![segs.last()] + containing_newest_first(segs.drop_last(), doc_id)
    } else {
        containing_newest_first(segs.drop_last(), doc_id)
    }
}

/// The first id to hand out after the given segments: one past the
/// highest last id of a segment, and at least 1.
pub open spec fn next_id_after(segs: Seq<DocumentSegment>) -> int
    decreases segs.len(),
{
    if segs.len() == 0 {
        1
    } else {
        let rest = next_id_after(segs.drop_last());
        if segs.last().end_doc_id >= rest {
            segs.last().end_doc_id + 1
        } else {
            rest
        }
    }
}

/// The last id of a written segment is the highest id of its documents.
proof fn lemma_written_end(docs: Seq<(u64, Seq<u8>)>, segment_id: u32, seg: DocumentSegment, bytes: Seq<u8>)
    requires
        written_segment(docs, segment_id, seg, bytes),
        docs.len() > 0,
    ensures
        exists|k: int| 0 <= k < docs.len() && #[trigger] docs[k].0 == seg.end_doc_id,
        forall|i: int| 0 <= i < docs.len() ==> #[trigger] docs[i].0 <= seg.end_doc_id,
{
    let s = choose|s: Seq<(u64, Seq<u8>)>|
        {
            &&& ids_ascending(s)
            &&& same_records(docs, s)
            &&& #[trigger] segment_bytes(s) == bytes
            &&& seg.id == segment_id
            &&& seg.start_doc_id == s[0].0
            &&& seg.end_doc_id == s.last().0
            &&& seg.doc_count == docs.len()
        };
    assert(docs.contains(s[s.len() - 1]));
    let k = choose|k: int| 0 <= k < docs.len() && docs[k] == s[s.len() - 1];
    assert(docs[k].0 == seg.end_doc_id);
    assert forall|i: int| 0 <= i < docs.len() implies #[trigger] docs[i].0 <= seg.end_doc_id by {
        assert(s.contains(docs[i]));
        let j = choose|j: int| 0 <= j < s.len() && s[j] == docs[i];
        if j < s.len() - 1 {
            assert(s[j].0 < s[s.len() - 1].0);
        }
    }
}

/// Reopening a committed store: a store that tracks its ids and has no
/// pending documents gets its next document id back from its segments
/// alone, as a store read from its manifest does.
pub proof fn lemma_reopen_next_id(st: UnifiedDocumentStore)
    requires
        st.ids_tracked(),
        st.spec_pending().is_empty(),
    ensures
        next_id_after(st.spec_segments()) == st.spec_next_doc_id(),
{
    let n = st.spec_next_doc_id();
    if n != 1 {
        assert(!st.spec_pending().contains_key((n - 1) as u64));
    }
    lemma_next_id_is(st.spec_segments(), n as int);
}

/// [`next_id_after`] is at least 1, above every last id of a segment, and
/// either 1 or one past such a last id.
proof fn lemma_next_id_bounds(segs: Seq<DocumentSegment>)
    ensures
        next_id_after(segs) >= 1,
        forall|i: int| 0 <= i < segs.len() ==> #[trigger] segs[i].end_doc_id < next_id_after(segs),
        next_id_after(segs) == 1 || exists|i: int|
            0 <= i < segs.len() && #[trigger] segs[i].end_doc_id == next_id_after(segs) - 1,
    decreases segs.len(),
{
    if segs.len() > 0 {
        let init = segs.drop_last();
        lemma_next_id_bounds(init);
        assert forall|i: int| 0 <= i < segs.len() implies #[trigger] segs[i].end_doc_id
            < next_id_after(segs) by {
            if i < segs.len() - 1 {
                assert(segs[i] == init[i]);
            }
        }
        if segs.last().end_doc_id < next_id_after(init) && next_id_after(init) != 1 {
            let j = choose|j: int| 0 <= j < init.len() && #[trigger] init[j].end_doc_id
                == next_id_after(init) - 1;
            assert(segs[j] == init[j]);
        }
    }
}

/// The next id after some segments is `n` when every last id of a segment
/// lies below `n` and `n` is 1 or one past such a last id.
proof fn lemma_next_id_is(segs: Seq<DocumentSegment>, n: int)
    requires
        n >= 1,
        forall|i: int| 0 <= i < segs.len() ==> #[trigger] segs[i].end_doc_id < n,
        n == 1 || exists|i: int| 0 <= i < segs.len() && #[trigger] segs[i].end_doc_id == n - 1,
    ensures
        next_id_after(segs) == n,
{
    lemma_next_id_bounds(segs);
    if n != 1 {
        let w = choose|i: int| 0 <= i < segs.len() && #[trigger] segs[i].end_doc_id == n - 1;
        assert(segs[w].end_doc_id < next_id_after(segs));
    }
    if next_id_after(segs) != 1 {
        let w = choose|i: int| 0 <= i < segs.len() && #[trigger] segs[i].end_doc_id
            == next_id_after(segs) - 1;
        assert(segs[w].end_doc_id < n);
    }
}

/// The document store: committed segments, the documents added since the
/// last commit, and the counters for the next document and segment ids.
/// Reading and writing the files is left to the caller, which hands the
/// store the bytes it read and writes the bytes the store gives back.
#[derive(Debug)]
pub struct UnifiedDocumentStore {
    segments: Vec<DocumentSegment>,
    next_segment_id: u32,
    pending_docs: Vec<(u64, Vec<u8>)>,
    next_doc_id: u64,
}

impl UnifiedDocumentStore {
    /// The committed segments, oldest first.
    pub closed spec fn spec_segments(&self) -> Seq<DocumentSegment> {
        self.segments@
    }

    /// The documents not yet written to a segment, by id.
    pub closed spec fn spec_pending(&self) -> Map<u64, Seq<u8>> {
        assoc_map(records_view(self.pending_docs@))
    }

    /// The id the next added document gets.
    pub closed spec fn spec_next_doc_id(&self) -> u64 {
        self.next_doc_id
    }

    /// The id the next written segment gets.
    pub closed spec fn spec_next_segment_id(&self) -> u32 {
        self.next_segment_id
    }

    /// The store's internal consistency.
    pub closed spec fn wf(&self) -> bool {
        keys_distinct(records_view(self.pending_docs@))
    }

    /// Every id the store holds lies below the next document id, which is
    /// one past the highest of them (or 1 when it holds none). Every way of
    /// building and changing a store keeps this, but adding a segment of
    /// documents with ids not yet handed out.
    pub open spec fn ids_tracked(&self) -> bool {
        &&& self.spec_next_doc_id() >= 1
        &&& forall|k: u64| #[trigger]
            self.spec_pending().contains_key(k) ==> k < self.spec_next_doc_id()
        &&& forall|i: int|
            0 <= i < self.spec_segments().len() ==> #[trigger] self.spec_segments()[i].end_doc_id
                < self.spec_next_doc_id()
        &&& (self.spec_next_doc_id() == 1 || self.spec_pending().contains_key(
            (self.spec_next_doc_id() - 1) as u64,
        ) || exists|i: int|
            0 <= i < self.spec_segments().len() && #[trigger] self.spec_segments()[i].end_doc_id
                == self.spec_next_doc_id() - 1)
    }

    /// An empty store: no segments, no pending documents; the first
    /// document gets id 1 and the first segment id 0.
    pub fn new() -> (st: Self)
        ensures
            st.wf(),
            st.spec_segments() == Seq::<DocumentSegment>::empty(),
            st.spec_pending() == Map::<u64, Seq<u8>>::empty(),
            st.spec_next_doc_id() == 1,
            st.spec_next_segment_id() == 0,
            st.ids_tracked(),
    {
        let st = UnifiedDocumentStore {
            segments: Vec::new(),
            next_segment_id: 0,
            pending_docs: Vec::new(),
            next_doc_id: 1,
        };
        assert(st.spec_pending() =~= Map::<u64, Seq<u8>>::empty());
        st
    }

    /// The store that a manifest describes: its segments and segment
    /// counter, no pending documents, and the next document id one past
    /// the highest id of a segment (at least 1).
    pub fn from_manifest(segments: Vec<DocumentSegment>, next_segment_id: u32) -> (st: Self)
        requires
            forall|i: int| 0 <= i < segments.len() ==> #[trigger] segments[i].end_doc_id < u64::MAX,
        ensures
            st.wf(),
            st.spec_segments() == segments@,
            st.spec_pending() == Map::<u64, Seq<u8>>::empty(),
            st.spec_next_doc_id() == next_id_after(segments@),
            st.spec_next_segment_id() == next_segment_id,
            st.ids_tracked(),
    {
        let mut next_doc_id: u64 = 1;
        let mut i: usize = 0;
        while i < segments.len()
            invariant
                i <= segments.len(),
                forall|j: int| 0 <= j < segments.len() ==> #[trigger] segments[j].end_doc_id
                    < u64::MAX,
                next_doc_id == next_id_after(segments@.take(i as int)),
            decreases segments.len() - i,
        {
            assert(segments@.take(i + 1).drop_last() =~= segments@.take(i as int));
            if segments[i].end_doc_id >= next_doc_id {
                next_doc_id = segments[i].end_doc_id + 1;
            }
            i = i + 1;
        }
        assert(segments@.take(segments@.len() as int) =~= segments@);
        let st = UnifiedDocumentStore {
            segments,
            next_segment_id,
            pending_docs: Vec::new(),
            next_doc_id,
        };
        assert(st.spec_pending() =~= Map::<u64, Seq<u8>>::empty());
        proof {
            lemma_next_id_bounds(segments@);
        }
        st
    }

    /// The id the next added document gets.
    pub fn next_doc_id(&self) -> (id: u64)
        ensures
            id == self.spec_next_doc_id(),
    {
        self.next_doc_id
    }

    /// The id the next written segment gets.
    pub fn next_segment_id(&self) -> (id: u32)
        ensures
            id == self.spec_next_segment_id(),
    {
        self.next_segment_id
    }

    /// The committed segments, oldest first.
    pub fn segments(&self) -> (s: &[DocumentSegment])
        ensures
            s@ == self.spec_segments(),
    {
        self.segments.as_slice()
    }

    /// The documents not yet written to a segment, each an id and a payload.
    pub fn pending_documents(&self) -> (v: &Vec<(u64, Vec<u8>)>)
        requires
            self.wf(),
        ensures
            keys_distinct(records_view(v@)),
            assoc_map(records_view(v@)) == self.spec_pending(),
    {
        &self.pending_docs
    }

    fn pending_index(&self, doc_id: u64) -> (r: Option<usize>)
        requires
            self.wf(),
        ensures
            match r {
                None => !self.spec_pending().contains_key(doc_id),
                Some(i) => i < self.pending_docs@.len() && self.pending_docs@[i as int].0 == doc_id,
            },
    {
        let ghost v = records_view(self.pending_docs@);
        let mut i: usize = 0;
        while i < self.pending_docs.len()
            invariant
                i <= self.pending_docs@.len(),
                v == records_view(self.pending_docs@),
                forall|j: int| 0 <= j < i ==> v[j].0 != doc_id,
            decreases self.pending_docs.len() - i,
        {
            if self.pending_docs[i].0 == doc_id {
                return Some(i);
            }
            i = i + 1;
        }
        None
    }

    fn insert_pending(&mut self, doc_id: u64, payload: Vec<u8>)
        requires
            old(self).wf(),
        ensures
            final(self).wf(),
            final(self).spec_pending() == old(self).spec_pending().insert(doc_id, payload@),
            final(self).spec_segments() == old(self).spec_segments(),
            final(self).spec_next_doc_id() == old(self).spec_next_doc_id(),
            final(self).spec_next_segment_id() == old(self).spec_next_segment_id(),
    {
        let ghost v = records_view(self.pending_docs@);
        let ghost pv = payload@;
        match self.pending_index(doc_id) {
            Some(i) => {
                proof {
                    crate::seqs::lemma_assoc_update(v, i as int, (doc_id, pv));
                }
                self.pending_docs.set(i, (doc_id, payload));
                assert(records_view(self.pending_docs@) =~= v.update(i as int, (doc_id, pv)));
            },
            None => {
                proof {
                    crate::seqs::lemma_assoc_push(v, (doc_id, pv));
                }
                self.pending_docs.push((doc_id, payload));
                assert(records_view(self.pending_docs@) =~= v.push((doc_id, pv)));
            },
        }
    }

    /// Adds a document with the next id, which it returns; the counter moves
    /// one past it.
    pub fn add_document(&mut self, payload: Vec<u8>) -> (doc_id: u64)
        requires
            old(self).wf(),
            old(self).spec_next_doc_id() < u64::MAX,
        ensures
            final(self).wf(),
            doc_id == old(self).spec_next_doc_id(),
            final(self).spec_next_doc_id() == doc_id + 1,
            final(self).spec_pending() == old(self).spec_pending().insert(doc_id, payload@),
            final(self).spec_segments() == old(self).spec_segments(),
            final(self).spec_next_segment_id() == old(self).spec_next_segment_id(),
            old(self).ids_tracked() ==> final(self).ids_tracked(),
            old(self).ids_tracked() ==> !old(self).spec_pending().contains_key(doc_id),
            old(self).ids_tracked() ==> forall|i: int|
                0 <= i < old(self).spec_segments().len() ==> !(
                #[trigger] old(self).spec_segments()[i]).spec_contains(doc_id),
    {
        let doc_id = self.next_doc_id;
        self.next_doc_id = self.next_doc_id + 1;
        self.insert_pending(doc_id, payload);
        assert(self.spec_pending().contains_key(doc_id));
        doc_id
    }

    /// Adds (or replaces) the document with a given id; the counter moves
    /// past that id when it had not yet.
    pub fn put_document_with_id(&mut self, doc_id: u64, payload: Vec<u8>)
        requires
            old(self).wf(),
            doc_id < u64::MAX,
        ensures
            final(self).wf(),
            final(self).spec_pending() == old(self).spec_pending().insert(doc_id, payload@),
            final(self).spec_next_doc_id() == if doc_id >= old(self).spec_next_doc_id() {
                (doc_id + 1) as u64
            } else {
                old(self).spec_next_doc_id()
            },
            final(self).spec_segments() == old(self).spec_segments(),
            final(self).spec_next_segment_id() == old(self).spec_next_segment_id(),
            old(self).ids_tracked() ==> final(self).ids_tracked(),
    {
        self.insert_pending(doc_id, payload);
        assert(self.spec_pending().contains_key(doc_id));
        if doc_id >= self.next_doc_id {
            self.next_doc_id = doc_id + 1;
        }
    }

    /// The pending document with id `doc_id`, if there is one.
    pub fn pending_document(&self, doc_id: u64) -> (r: Option<Vec<u8>>)
        requires
            self.wf(),
        ensures
            match r {
                None => !self.spec_pending().contains_key(doc_id),
                Some(p) => self.spec_pending().contains_key(doc_id) && self.spec_pending()[doc_id]
                    == p@,
            },
    {
        match self.pending_index(doc_id) {
            None => None,
            Some(i) => {
                let ghost v = records_view(self.pending_docs@);
                proof {
                    let j = choose|j: int| 0 <= j < v.len() && v[j].0 == doc_id;
                    assert(v[i as int].0 == doc_id);
                    assert(j == i);
                }
                let p = self.pending_docs[i].1.clone();
                assert(p@ =~= v[i as int].1);
                Some(p)
            },
        }
    }

    /// Writes the documents `docs` as the next segment: on success the
    /// segment joins the store's segments, the segment counter moves on, and
    /// the segment is returned with the bytes of its file; on failure the
    /// store is unchanged.
    pub fn add_segment(&mut self, docs: &Vec<(u64, Vec<u8>)>) -> (r: Result<
        (DocumentSegment, Vec<u8>),
        SegmentError,
    >)
        requires
            old(self).wf(),
            keys_distinct(records_view(docs@)),
            old(self).spec_next_segment_id() < u32::MAX,
        ensures
            final(self).wf(),
            final(self).spec_pending() == old(self).spec_pending(),
            final(self).spec_next_doc_id() == old(self).spec_next_doc_id(),
            docs.len() == 0 ==> r == Err::<(DocumentSegment, Vec<u8>), _>(
                SegmentError::EmptySegment,
            ),
            docs.len() > u32::MAX ==> r == Err::<(DocumentSegment, Vec<u8>), _>(
                SegmentError::TooManyDocuments,
            ),
            0 < docs.len() <= u32::MAX ==> r is Ok,
            old(self).ids_tracked() && (forall|i: int|
                0 <= i < docs@.len() ==> (#[trigger] docs@[i]).0 < old(self).spec_next_doc_id())
                ==> final(self).ids_tracked(),
            match r {
                Ok((seg, bytes)) => {
                    &&& written_segment(
                        records_view(docs@),
                        old(self).spec_next_segment_id(),
                        seg,
                        bytes@,
                    )
                    &&& final(self).spec_segments() == old(self).spec_segments().push(seg)
                    &&& final(self).spec_next_segment_id() == old(self).spec_next_segment_id() + 1
                },
                Err(_) => {
                    &&& final(self).spec_segments() == old(self).spec_segments()
                    &&& final(self).spec_next_segment_id() == old(self).spec_next_segment_id()
                },
            },
    {
        let writer = DocumentSegmentWriter::new();
        match writer.write_segment(self.next_segment_id, docs) {
            Err(e) => Err(e),
            Ok((seg, bytes)) => {
                let ghost old_segs = self.segments@;
                let ghost sid = self.next_segment_id;
                let ghost was_tracked = self.ids_tracked();
                let ghost before = *self;
                self.segments.push(seg);
                self.next_segment_id = self.next_segment_id + 1;
                proof {
                    let dv = records_view(docs@);
                    let n = self.next_doc_id;
                    let segs = self.segments@;
                    if was_tracked && (forall|i: int| 0 <= i < docs@.len() ==> (#[trigger] docs@[i]).0 < n) {
                        lemma_written_end(dv, sid, seg, bytes@);
                        let k = choose|k: int| 0 <= k < dv.len() && #[trigger] dv[k].0 == seg.end_doc_id;
                        assert(dv[k].0 == docs@[k].0);
                        assert(seg.end_doc_id < n);
                        assert(segs == old_segs.push(seg));
                        assert forall|i: int| 0 <= i < segs.len() implies #[trigger] segs[i].end_doc_id < n by {
                            if i < old_segs.len() {
                                assert(segs[i] == old_segs[i]);
                                assert(before.spec_segments()[i].end_doc_id < n);
                            } else {
                                assert(segs[i] == seg);
                            }
                        }
                        assert(self.spec_pending() == before.spec_pending());
                        if n != 1 && !self.spec_pending().contains_key((n - 1) as u64) {
                            let w = choose|i: int| 0 <= i < before.spec_segments().len() && #[trigger] before.spec_segments()[i].end_doc_id == n - 1;
                            assert(segs[w] == old_segs[w]);
                            assert(self.spec_segments()[w].end_doc_id == n - 1);
                        }
                        assert(self.spec_next_doc_id() >= 1);
                        assert(forall|kk: u64| #[trigger] self.spec_pending().contains_key(kk) ==> kk < self.spec_next_doc_id());
                        assert(forall|i: int| 0 <= i < self.spec_segments().len() ==> #[trigger] self.spec_segments()[i].end_doc_id < self.spec_next_doc_id());
                        assert(self.ids_tracked());
                    }
                }
                Ok((seg, bytes))
            },
        }
    }

    /// Writes the pending documents as the next segment, if there are any;
    /// they leave the pending set either way.
    pub fn flush_pending(&mut self) -> (r: Result<Option<(DocumentSegment, Vec<u8>)>, SegmentError>)
        requires
            old(self).wf(),
            old(self).spec_next_segment_id() < u32::MAX,
        ensures
            final(self).wf(),
            final(self).spec_pending() == Map::<u64, Seq<u8>>::empty(),
            final(self).spec_next_doc_id() == old(self).spec_next_doc_id(),
            old(self).ids_tracked() && r is Ok ==> final(self).ids_tracked(),
            old(self).ids_tracked() && r is Ok ==> next_id_after(final(self).spec_segments())
                == final(self).spec_next_doc_id(),
            old(self).spec_pending().is_empty() ==> {
                &&& r == Ok::<Option<(DocumentSegment, Vec<u8>)>, SegmentError>(None)
                &&& final(self).spec_segments() == old(self).spec_segments()
                &&& final(self).spec_next_segment_id() == old(self).spec_next_segment_id()
            },
            match r {
                Ok(Some((seg, bytes))) => {
                    &&& old(self).spec_pending().len() > 0
                    &&& final(self).spec_segments() == old(self).spec_segments().push(seg)
                    &&& final(self).spec_next_segment_id() == old(self).spec_next_segment_id() + 1
                    &&& exists|docs: Seq<(u64, Seq<u8>)>|
                        {
                            &&& keys_distinct(docs)
                            &&& #[trigger] assoc_map(docs) == old(self).spec_pending()
                            &&& written_segment(
                                docs,
                                old(self).spec_next_segment_id(),
                                seg,
                                bytes@,
                            )
                        }
                },
                Ok(None) => old(self).spec_pending().is_empty(),
                Err(_) => {
                    &&& final(self).spec_segments() == old(self).spec_segments()
                    &&& final(self).spec_next_segment_id() == old(self).spec_next_segment_id()
                },
            },
    {
        let ghost v = records_view(self.pending_docs@);
        let ghost tracked_before = self.ids_tracked();
        let ghost before = *self;
        let ghost pending_before = self.spec_pending();
        let ghost segs_before = self.segments@;
        let ghost sid = self.next_segment_id;
        if self.pending_docs.len() == 0 {
            assert(self.spec_pending() =~= Map::<u64, Seq<u8>>::empty());
            proof {
                if tracked_before {
                    lemma_reopen_next_id(*self);
                }
            }
            return Ok(None);
        }
        proof {
            assert(self.spec_pending().contains_key(v[0].0));
            assert(!self.spec_pending().is_empty());
        }
        let mut docs: Vec<(u64, Vec<u8>)> = Vec::new();
        std::mem::swap(&mut docs, &mut self.pending_docs);
        assert(self.spec_pending() =~= Map::<u64, Seq<u8>>::empty());
        match self.add_segment(&docs) {
            Err(e) => Err(e),
            Ok((seg, bytes)) => {
                proof {
                    crate::seqs::lemma_assoc_len(v);
                    if tracked_before {
                        let n = self.next_doc_id;
                        lemma_written_end(v, sid, seg, bytes@);
                        let k = choose|k: int| 0 <= k < v.len() && #[trigger] v[k].0 == seg.end_doc_id;
                        crate::seqs::lemma_assoc_at(v, k);
                        assert(pending_before.contains_key(v[k].0));
                        assert(seg.end_doc_id < n);
                        let segs = self.segments@;
                        assert(segs == segs_before.push(seg));
                        assert forall|i: int| 0 <= i < segs.len() implies #[trigger] segs[i].end_doc_id < n by {
                            if i < segs_before.len() {
                                assert(segs[i] == segs_before[i]);
                                assert(before.spec_segments()[i].end_doc_id < n);
                            } else {
                                assert(segs[i] == seg);
                            }
                        }
                        if n != 1 {
                            if pending_before.contains_key((n - 1) as u64) {
                                let j = choose|j: int| 0 <= j < v.len() && v[j].0 == (n - 1) as u64;
                                assert(v[j].0 <= seg.end_doc_id);
                                assert(segs[segs_before.len() as int].end_doc_id == n - 1);
                            } else {
                                let w = choose|i: int| 0 <= i < segs_before.len() && #[trigger] segs_before[i].end_doc_id == n - 1;
                                assert(segs[w] == segs_before[w]);
                            }
                        }
                        assert(self.ids_tracked());
                        lemma_reopen_next_id(*self);
                    }
                }
                Ok(Some((seg, bytes)))
            },
        }
    }

    /// The segments to look a document up in, newest first: those whose id
    /// range holds `doc_id`.
    pub fn segments_containing(&self, doc_id: u64) -> (r: Vec<DocumentSegment>)
        ensures
            r@ == containing_newest_first(self.spec_segments(), doc_id),
    {
        let mut r: Vec<DocumentSegment> = Vec::new();
        let mut i: usize = self.segments.len();
        assert(self.segments@.take(i as int) =~= self.segments@);
        assert(r@ + containing_newest_first(self.segments@, doc_id) =~= containing_newest_first(
            self.segments@,
            doc_id,
        ));
        while i > 0
            invariant
                i <= self.segments@.len(),
                containing_newest_first(self.segments@, doc_id) == r@
                    + containing_newest_first(self.segments@.take(i as int), doc_id),
            decreases i,
        {
            let ghost pre = self.segments@.take(i as int);
            assert(pre.drop_last() =~= self.segments@.take(i - 1));
            assert(pre.last() == self.segments@[i - 1]);
            let seg = self.segments[i - 1];
            if seg.contains(doc_id) {
                let ghost old_r = r@;
                r.push(seg);
                assert(old_r + (seq![seg] + containing_newest_first(pre.drop_last(), doc_id))
                    =~= r@ + containing_newest_first(pre.drop_last(), doc_id));
            }
            i = i - 1;
        }
        assert(r@ + containing_newest_first(self.segments@.take(0), doc_id) =~= r@);
        r
    }

    /// The segment with id `segment_id`, if the store has one.
    pub fn segment_by_id(&self, segment_id: u32) -> (r: Option<DocumentSegment>)
        ensures
            match r {
                None => forall|i: int| 0 <= i < self.spec_segments().len() ==> (
                #[trigger] self.spec_segments()[i]).id != segment_id,
                Some(seg) => exists|i: int|
                    0 <= i < self.spec_segments().len() && self.spec_segments()[i] == seg
                        && seg.id == segment_id && forall|j: int|
                        0 <= j < i ==> (#[trigger] self.spec_segments()[j]).id != segment_id,
            },
    {
        let mut i: usize = 0;
        while i < self.segments.len()
            invariant
                i <= self.segments@.len(),
                forall|j: int| 0 <= j < i ==> (#[trigger] self.segments@[j]).id != segment_id,
            decreases self.segments.len() - i,
        {
            if self.segments[i].id == segment_id {
                assert(self.spec_segments()[i as int] == self.segments@[i as int]);
                return Some(self.segments[i]);
            }
            i = i + 1;
        }
        None
    }
}


/// Whether the document described by `e` (an id, and the text of its
/// `_id` field if it has one) has the external id `external_id`.
pub open spec fn has_external_id(e: (u64, Option<String>), external_id: Seq<char>) -> bool {
    match e.1 {
        Some(s) => s@ == external_id,
        None => false,
    }
}

/// The ids of the documents of `es` with external id `external_id`, in order.
pub open spec fn ids_with_external_id(es: Seq<(u64, Option<String>)>, external_id: Seq<char>) -> Seq<
    u64,
>
    decreases es.len(),
{
    if es.len() == 0 {
        Seq::empty()
    } else if has_external_id(es.last(), external_id) {
        ids_with_external_id(es.drop_last(), external_id).push(es.last().0)
    } else {
        ids_with_external_id(es.drop_last(), external_id)
    }
}

/// The id of the first document of `entries` with external id
/// `external_id`, if any.
pub fn first_with_external_id(entries: &Vec<(u64, Option<String>)>, external_id: &str) -> (r:
    Option<u64>)
    ensures
        match r {
            None => forall|i: int|
                0 <= i < entries@.len() ==> !has_external_id(#[trigger] entries@[i], external_id@),
            Some(id) => exists|i: int|
                {
                    &&& 0 <= i < entries@.len()
                    &&& #[trigger] entries@[i].0 == id
                    &&& has_external_id(entries@[i], external_id@)
                    &&& forall|j: int|
                        0 <= j < i ==> !has_external_id(#[trigger] entries@[j], external_id@)
                },
        },
{
    let mut i: usize = 0;
    while i < entries.len()
        invariant
            i <= entries@.len(),
            forall|j: int| 0 <= j < i ==> !has_external_id(#[trigger] entries@[j], external_id@),
        decreases entries.len() - i,
    {
        let found = match &entries[i].1 {
            Some(s) => crate::text::str_eq(s.as_str(), external_id),
            None => false,
        };
        if found {
            assert(entries@[i as int].0 == entries[i as int].0);
            return Some(entries[i].0);
        }
        i = i + 1;
    }
    None
}

/// The ids of all documents of `entries` with external id `external_id`,
/// in order.
pub fn all_with_external_id(entries: &Vec<(u64, Option<String>)>, external_id: &str) -> (r: Vec<
    u64,
>)
    ensures
        r@ == ids_with_external_id(entries@, external_id@),
{
    let mut r: Vec<u64> = Vec::new();
    let mut i: usize = 0;
    while i < entries.len()
        invariant
            i <= entries@.len(),
            r@ == ids_with_external_id(entries@.take(i as int), external_id@),
        decreases entries.len() - i,
    {
        assert(entries@.take(i + 1).drop_last() =~= entries@.take(i as int));
        assert(entries@.take(i + 1).last() == entries@[i as int]);
        let found = match &entries[i].1 {
            Some(s) => crate::text::str_eq(s.as_str(), external_id),
            None => false,
        };
        if found {
            r.push(entries[i].0);
        }
        i = i + 1;
    }
    assert(entries@.take(entries@.len() as int) =~= entries@);
    r
}

} // verus!
