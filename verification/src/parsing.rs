//! Building blocks for the byte-level parsers of the wire formats.
use vstd::prelude::*;

verus! {

/// The outcome of running a parser on a byte buffer that may hold only the
/// beginning of a message.
#[derive(Debug)]
pub enum Parsed<T> {
    /// A message was read from the first `consumed` bytes.
    Done(T, usize),
    /// The bytes are a proper prefix of a message: more input is needed.
    Incomplete,
    /// The bytes cannot start a message.
    Invalid,
}

impl<T: View> View for Parsed<T> {
    type V = Parsed<T::V>;

    open spec fn view(&self) -> Parsed<T::V> {
        match self {
            Parsed::Done(v, n) => Parsed::Done(v@, *n),
            Parsed::Incomplete => Parsed::Incomplete,
            Parsed::Invalid => Parsed::Invalid,
        }
    }
}

/// The big-endian 16-bit number in bytes `i` and `i + 1`.
pub open spec fn be16_at(s: Seq<u8>, i: int) -> u16 {
    (s[i] as int * 256 + s[i + 1] as int) as u16
}

/// The big-endian 32-bit number in bytes `i` to `i + 3`.
pub open spec fn be32_at(s: Seq<u8>, i: int) -> u32 {
    (s[i] as int * 16777216 + s[i + 1] as int * 65536 + s[i + 2] as int * 256
        + s[i + 3] as int) as u32
}

/// The two big-endian bytes of `v`.
pub open spec fn be16_bytes(v: u16) -> Seq<u8> {
    seq![(v / 256) as u8, (v % 256) as u8]
}

/// The four big-endian bytes of `v`.
pub open spec fn be32_bytes(v: u32) -> Seq<u8> {
    seq![
        (v / 16777216) as u8,
        ((v / 65536) % 256) as u8,
        ((v / 256) % 256) as u8,
        (v % 256) as u8,
    ]
}

pub fn read_be16(s: &[u8], i: usize) -> (v: u16)
    requires
        i + 1 < s@.len(),
    ensures
        v == be16_at(s@, i as int),
{
    (s[i] as u16) * 256 + (s[i + 1] as u16)
}

pub fn read_be32(s: &[u8], i: usize) -> (v: u32)
    requires
        i + 3 < s@.len(),
    ensures
        v == be32_at(s@, i as int),
{
    (s[i] as u32) * 16777216 + (s[i + 1] as u32) * 65536 + (s[i + 2] as u32) * 256 + (
    s[i + 3] as u32)
}

pub fn push_be16(dst: &mut Vec<u8>, v: u16)
    ensures
        final(dst)@ == old(dst)@ + be16_bytes(v),
{
    dst.push((v / 256) as u8);
    dst.push((v % 256) as u8);
    assert(final(dst)@ =~= old(dst)@ + be16_bytes(v));
}

pub fn push_be32(dst: &mut Vec<u8>, v: u32)
    ensures
        final(dst)@ == old(dst)@ + be32_bytes(v),
{
    dst.push((v / 16777216) as u8);
    dst.push(((v / 65536) % 256) as u8);
    dst.push(((v / 256) % 256) as u8);
    dst.push((v % 256) as u8);
    assert(final(dst)@ =~= old(dst)@ + be32_bytes(v));
}

/// Appends the bytes of `src` to `dst`.
pub fn push_all(dst: &mut Vec<u8>, src: &[u8])
    ensures
        final(dst)@ == old(dst)@ + src@,
{
    let mut i: usize = 0;
    while i < src.len()
        invariant
            i <= src@.len(),
            dst@ == old(dst)@ + src@.subrange(0, i as int),
        decreases src.len() - i,
    {
        dst.push(src[i]);
        i = i + 1;
        assert(dst@ =~= old(dst)@ + src@.subrange(0, i as int));
    }
    assert(src@.subrange(0, src@.len() as int) =~= src@);
}

/// A copy of bytes `start..end` of `s`.
pub fn copy_range(s: &[u8], start: usize, end: usize) -> (v: Vec<u8>)
    requires
        start <= end <= s@.len(),
    ensures
        v@ == s@.subrange(start as int, end as int),
{
    let mut v: Vec<u8> = Vec::new();
    let mut i: usize = start;
    while i < end
        invariant
            start <= i <= end,
            end <= s@.len(),
            v@ == s@.subrange(start as int, i as int),
        decreases end - i,
    {
        v.push(s[i]);
        i = i + 1;
        assert(v@ =~= s@.subrange(start as int, i as int));
    }
    v
}

} // verus!
