//! Character-sequence helpers shared by the term matching code.

use vstd::prelude::*;

verus! {

/// `p` is a prefix of `s`.
pub open spec fn is_prefix(p: Seq<char>, s: Seq<char>) -> bool {
    p.len() <= s.len() && s.subrange(0, p.len() as int) == p
}

/// Strict lexicographic order on character sequences, the order of Rust's
/// `str` comparison.
pub open spec fn seq_lt(a: Seq<char>, b: Seq<char>) -> bool
    decreases a.len(),
{
    if b.len() == 0 {
        false
    } else if a.len() == 0 {
        true
    } else if a[0] != b[0] {
        (a[0] as int) < (b[0] as int)
    } else {
        seq_lt(a.drop_first(), b.drop_first())
    }
}

/// The characters of a string slice, in order.
pub fn chars_of(s: &str) -> (v: Vec<char>)
    ensures
        v@ == s@,
{
    let mut v: Vec<char> = Vec::new();
    for c in it: s.chars()
        invariant
            v@ == it.seq().take(it.index() as int),
            it.seq() == s@,
    {
        v.push(c);
    }
    v
}


/// `String::push`: appends the character at the end of the string.
#[verifier::external_body]
pub(crate) fn string_push(s: &mut String, c: char)
    ensures
        final(s)@ == old(s)@.push(c),
{
    s.push(c)
}

/// The string whose characters are `cs`, in order.
pub fn string_from_chars(cs: &[char]) -> (s: String)
    ensures
        s@ == cs@,
{
    let mut s = String::new();
    let mut i: usize = 0;
    while i < cs.len()
        invariant
            i <= cs.len(),
            s@ == cs@.take(i as int),
        decreases cs.len() - i,
    {
        string_push(&mut s, cs[i]);
        assert(cs@.take(i + 1) =~= cs@.take(i as int).push(cs@[i as int]));
        i = i + 1;
    }
    assert(cs@.take(cs@.len() as int) =~= cs@);
    s
}

/// A copy of a string slice as an owned string.
pub fn owned(s: &str) -> (r: String)
    ensures
        r@ == s@,
{
    s.to_owned()
}

/// Whether the characters `p` start the characters `s`.
pub fn chars_start_with(s: &[char], p: &[char]) -> (b: bool)
    ensures
        b == is_prefix(p@, s@),
{
    if p.len() > s.len() {
        return false;
    }
    let mut i: usize = 0;
    while i < p.len()
        invariant
            p.len() <= s.len(),
            i <= p.len(),
            forall|j: int| 0 <= j < i ==> s@[j] == p@[j],
        decreases p.len() - i,
    {
        if s[i] != p[i] {
            assert(s@.subrange(0, p@.len() as int)[i as int] != p@[i as int]);
            return false;
        }
        i = i + 1;
    }
    assert(s@.subrange(0, p@.len() as int) =~= p@);
    true
}

/// Whether the string `s` starts with the string `p`.
pub fn str_starts_with(s: &str, p: &str) -> (b: bool)
    ensures
        b == is_prefix(p@, s@),
{
    let sc = chars_of(s);
    let pc = chars_of(p);
    chars_start_with(sc.as_slice(), pc.as_slice())
}

/// Whether `a` comes strictly before `b` in lexicographic order.
pub fn chars_lt(a: &[char], b: &[char]) -> (r: bool)
    ensures
        r == seq_lt(a@, b@),
{
    let mut i: usize = 0;
    assert(a@.skip(0) =~= a@);
    assert(b@.skip(0) =~= b@);
    while i < a.len() && i < b.len()
        invariant
            i <= a.len(),
            i <= b.len(),
            seq_lt(a@, b@) == seq_lt(a@.skip(i as int), b@.skip(i as int)),
        decreases a.len() - i,
    {
        assert(a@.skip(i as int)[0] == a@[i as int]);
        assert(b@.skip(i as int)[0] == b@[i as int]);
        assert(a@.skip(i as int).drop_first() =~= a@.skip(i + 1));
        assert(b@.skip(i as int).drop_first() =~= b@.skip(i + 1));
        if a[i] != b[i] {
            let ca = a[i];
            let cb = b[i];
            assert(ca == a@[i as int]);
            let x = ca as u32;
            let y = cb as u32;
            assert(x == ca as u32);
            proof {
                lemma_char_u32(ca);
                lemma_char_u32(cb);
            }
            return x < y;
        }
        i = i + 1;
    }
    i < b.len()
}

/// Whether the string `a` comes strictly before the string `b`.
pub fn str_lt(a: &str, b: &str) -> (r: bool)
    ensures
        r == seq_lt(a@, b@),
{
    let ac = chars_of(a);
    let bc = chars_of(b);
    chars_lt(ac.as_slice(), bc.as_slice())
}

/// Whether two strings hold the same characters.
pub fn str_eq(a: &str, b: &str) -> (r: bool)
    ensures
        r == (a@ == b@),
{
    let ac = chars_of(a);
    let bc = chars_of(b);
    if ac.len() != bc.len() {
        return false;
    }
    let mut i: usize = 0;
    while i < ac.len()
        invariant
            ac@ == a@,
            bc@ == b@,
            ac.len() == bc.len(),
            i <= ac.len(),
            forall|j: int| 0 <= j < i ==> ac@[j] == bc@[j],
        decreases ac.len() - i,
    {
        if ac[i] != bc[i] {
            return false;
        }
        i = i + 1;
    }
    assert(ac@ =~= bc@);
    true
}

/// No sequence comes before itself.
pub proof fn lemma_seq_lt_irreflexive(a: Seq<char>)
    ensures
        !seq_lt(a, a),
    decreases a.len(),
{
    if a.len() > 0 {
        lemma_seq_lt_irreflexive(a.drop_first());
    }
}

/// The lexicographic order is transitive.
pub proof fn lemma_seq_lt_transitive(a: Seq<char>, b: Seq<char>, c: Seq<char>)
    requires
        seq_lt(a, b),
        seq_lt(b, c),
    ensures
        seq_lt(a, c),
    decreases a.len(),
{
    if a.len() > 0 && b.len() > 0 && c.len() > 0 && a[0] == b[0] && b[0] == c[0] {
        lemma_seq_lt_transitive(a.drop_first(), b.drop_first(), c.drop_first());
    }
}

/// Two different sequences are ordered one way or the other, never both.
pub proof fn lemma_seq_lt_total(a: Seq<char>, b: Seq<char>)
    ensures
        a != b ==> seq_lt(a, b) || seq_lt(b, a),
        !(seq_lt(a, b) && seq_lt(b, a)),
    decreases a.len(),
{
    if a.len() > 0 && b.len() > 0 {
        if a[0] == b[0] {
            lemma_seq_lt_total(a.drop_first(), b.drop_first());
            if a.drop_first() == b.drop_first() {
                assert(a =~= seq![a[0]] + a.drop_first());
                assert(b =~= seq![b[0]] + b.drop_first());
            }
        } else {
            assert((a[0] as int) != (b[0] as int));
        }
    } else if a.len() == 0 && b.len() == 0 {
        assert(a =~= b);
    }
}

/// A sequence that has `p` as a prefix does not come before `p`.
pub proof fn lemma_prefix_not_before(p: Seq<char>, s: Seq<char>)
    requires
        is_prefix(p, s),
    ensures
        !seq_lt(s, p),
    decreases p.len(),
{
    if p.len() > 0 {
        assert(s[0] == s.subrange(0, p.len() as int)[0]);
        assert(s.drop_first().subrange(0, p.len() - 1) =~= p.drop_first());
        lemma_prefix_not_before(p.drop_first(), s.drop_first());
    }
}

/// A sequence that lies between `p` and a sequence with prefix `p` also
/// has prefix `p`.
pub proof fn lemma_prefix_convex(p: Seq<char>, b: Seq<char>, c: Seq<char>)
    requires
        !seq_lt(b, p),
        seq_lt(b, c),
        is_prefix(p, c),
    ensures
        is_prefix(p, b),
    decreases p.len(),
{
    if p.len() == 0 {
        assert(b.subrange(0, 0) =~= p);
    } else {
        assert(c[0] == c.subrange(0, p.len() as int)[0]);
        assert(c.drop_first().subrange(0, p.len() - 1) =~= p.drop_first());
        if b.len() == 0 {
        } else if b[0] != p[0] {
        } else {
            lemma_prefix_convex(p.drop_first(), b.drop_first(), c.drop_first());
            assert(b.subrange(0, p.len() as int) =~= seq![b[0]] + b.drop_first().subrange(
                0,
                p.len() - 1,
            ));
            assert(p =~= seq![p[0]] + p.drop_first());
        }
    }
}


/// A character's code point fits `u32` unchanged.
proof fn lemma_char_u32(c: char)
    ensures
        c as u32 as int == c as int,
{
    assert(0 <= c as int <= 0x10FFFF);
}

} // verus!
