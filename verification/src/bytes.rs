//! Big-endian fields and ASCII case folding over byte sequences.
use vstd::prelude::*;

verus! {

/// The big-endian 16-bit value at an index.
pub open spec fn word_at(s: Seq<u8>, i: int) -> u16 {
    (s[i] * 256 + s[i + 1]) as u16
}

/// The big-endian 32-bit value at an index.
pub open spec fn double_word_at(s: Seq<u8>, i: int) -> u32 {
    (((s[i] * 256 + s[i + 1]) * 256 + s[i + 2]) * 256 + s[i + 3]) as u32
}

/// A 16-bit value in big-endian order.
pub open spec fn word_bytes(value: u16) -> Seq<u8> {
    seq![(value / 256) as u8, (value % 256) as u8]
}

/// A 32-bit value in big-endian order.
pub open spec fn double_word_bytes(value: u32) -> Seq<u8> {
    seq![
        (value / 16777216) as u8,
        (value / 65536 % 256) as u8,
        (value / 256 % 256) as u8,
        (value % 256) as u8,
    ]
}

/// `s` with the two bytes at `at` replaced by a big-endian value.
pub open spec fn with_word(s: Seq<u8>, at: int, value: u16) -> Seq<u8> {
    s.update(at, (value / 256) as u8).update(at + 1, (value % 256) as u8)
}

/// A value written in big-endian order reads back unchanged.
pub proof fn word_reads_back(value: u16)
    ensures
        word_at(word_bytes(value), 0) == value,
{
}

/// A value written in big-endian order reads back unchanged.
pub proof fn double_word_reads_back(value: u32)
    ensures
        double_word_at(double_word_bytes(value), 0) == value,
{
}

pub fn read_word(wire: &[u8], at: usize) -> (r: u16)
    requires
        at + 1 < wire@.len(),
    ensures
        r == word_at(wire@, at as int),
{
    wire[at] as u16 * 256 + wire[at + 1] as u16
}

pub fn read_double_word(wire: &[u8], at: usize) -> (r: u32)
    requires
        at + 3 < wire@.len(),
    ensures
        r == double_word_at(wire@, at as int),
{
    ((wire[at] as u32 * 256 + wire[at + 1] as u32) * 256 + wire[at + 2] as u32) * 256 + wire[at + 3]
        as u32
}

pub fn push_word(out: &mut Vec<u8>, value: u16)
    ensures
        final(out)@ == old(out)@ + word_bytes(value),
{
    out.push((value / 256) as u8);
    out.push((value % 256) as u8);
    assert(out@ =~= old(out)@ + word_bytes(value));
}

pub fn push_double_word(out: &mut Vec<u8>, value: u32)
    ensures
        final(out)@ == old(out)@ + double_word_bytes(value),
{
    out.push((value / 16777216) as u8);
    out.push((value / 65536 % 256) as u8);
    out.push((value / 256 % 256) as u8);
    out.push((value % 256) as u8);
    assert(out@ =~= old(out)@ + double_word_bytes(value));
}

pub fn put_word(out: &mut Vec<u8>, at: usize, value: u16)
    requires
        at + 1 < old(out)@.len(),
    ensures
        final(out)@ == with_word(old(out)@, at as int, value),
{
    let length: usize = out.len();
    assert(at + 1 < length);
    out.set(at, (value / 256) as u8);
    out.set(at + 1, (value % 256) as u8);
}

pub fn push_slice(out: &mut Vec<u8>, bytes: &[u8])
    ensures
        final(out)@ == old(out)@ + bytes@,
{
    out.extend_from_slice(bytes);
    assert(out@ =~= old(out)@ + bytes@);
}

/// Whether two byte strings hold the same bytes.
pub fn same_bytes(a: &[u8], b: &[u8]) -> (r: bool)
    ensures
        r == (a@ == b@),
{
    if a.len() != b.len() {
        return false;
    }
    let mut i: usize = 0;
    while i < a.len()
        invariant
            i <= a@.len(),
            a@.len() == b@.len(),
            forall|k: int| 0 <= k < i ==> a@[k] == b@[k],
        decreases a@.len() - i,
    {
        if a[i] != b[i] {
            return false;
        }
        i += 1;
    }
    assert(a@ =~= b@);
    true
}

/// An ASCII capital letter as its small letter; any other byte as it is.
pub open spec fn fold_byte(b: u8) -> u8 {
    if 65 <= b <= 90 {
        (b + 32) as u8
    } else {
        b
    }
}

pub fn fold(b: u8) -> (r: u8)
    ensures
        r == fold_byte(b),
{
    if 65 <= b && b <= 90 {
        b + 32
    } else {
        b
    }
}

/// Two bytes fold alike exactly where they are equal, or are the capital and the
/// small form of one of the letters A to Z.
pub proof fn only_the_case_of_letters_is_folded(a: u8, b: u8)
    ensures
        fold_byte(a) == fold_byte(b) <==> {
            ||| a == b
            ||| 65 <= a <= 90 && b - a == 32
            ||| 65 <= b <= 90 && a - b == 32
        },
{
}

/// A 16-bit field counts its first byte as 256 of its second, and changing it
/// changes no other byte.
pub proof fn words_are_big_endian(s: Seq<u8>, i: int, value: u16, k: int)
    requires
        0 <= i,
        i + 1 < s.len(),
        0 <= k < s.len(),
    ensures
        word_at(s, i) == 256 * s[i] + s[i + 1],
        word_at(with_word(s, i, value), i) == value,
        with_word(s, i, value).len() == s.len(),
        k != i && k != i + 1 ==> with_word(s, i, value)[k] == s[k],
        word_bytes(value).len() == 2,
        256 * word_bytes(value)[0] + word_bytes(value)[1] == value,
{
}

/// A 32-bit field is two 16-bit fields, the upper one first.
pub proof fn double_words_are_big_endian(s: Seq<u8>, i: int, value: u32)
    requires
        0 <= i,
        i + 3 < s.len(),
    ensures
        double_word_at(s, i) == 65536 * word_at(s, i) + word_at(s, i + 2),
        double_word_bytes(value).len() == 4,
        65536 * word_at(double_word_bytes(value), 0) + word_at(double_word_bytes(value), 2)
            == value,
{
}

} // verus!
