//! Big-endian integers and byte sequences.

use byteorder::{BigEndian, ByteOrder};
use vstd::prelude::*;

verus! {

/// The two bytes of `n`, most significant first.
pub open spec fn u16_bytes(n: u16) -> Seq<u8> {
    seq![(n / 0x100) as u8, (n % 0x100) as u8]
}

/// The four bytes of `n`, most significant first.
pub open spec fn u32_bytes(n: u32) -> Seq<u8> {
    seq![
        (n / 0x100_0000) as u8,
        (n / 0x1_0000 % 0x100) as u8,
        (n / 0x100 % 0x100) as u8,
        (n % 0x100) as u8,
    ]
}

/// The eight bytes of `n`, most significant first.
pub open spec fn u64_bytes(n: u64) -> Seq<u8> {
    u32_bytes((n / 0x1_0000_0000) as u32) + u32_bytes((n % 0x1_0000_0000) as u32)
}

/// The number that the first two bytes of `s` write, most significant first.
pub open spec fn u16_value(s: Seq<u8>) -> int {
    s[0] * 0x100 + s[1]
}

/// The number that the first four bytes of `s` write, most significant first.
pub open spec fn u32_value(s: Seq<u8>) -> int {
    s[0] * 0x100_0000 + s[1] * 0x1_0000 + s[2] * 0x100 + s[3]
}

/// The number that the first eight bytes of `s` write, most significant first.
pub open spec fn u64_value(s: Seq<u8>) -> int {
    u32_value(s) * 0x1_0000_0000 + u32_value(s.skip(4))
}

/// Reading back a written 16-bit number gives the number.
pub proof fn law_u16_round_trip(n: u16)
    ensures
        u16_bytes(n).len() == 2,
        u16_value(u16_bytes(n)) == n,
{
}

/// Reading back a written 32-bit number gives the number, whatever follows it.
pub proof fn law_u32_round_trip(n: u32, rest: Seq<u8>)
    ensures
        u32_bytes(n).len() == 4,
        u32_value(u32_bytes(n) + rest) == n,
{
    let s = u32_bytes(n) + rest;
    assert(s[0] == u32_bytes(n)[0] && s[1] == u32_bytes(n)[1]);
    assert(s[2] == u32_bytes(n)[2] && s[3] == u32_bytes(n)[3]);
}

/// Reading back a written 64-bit number gives the number.
pub proof fn law_u64_round_trip(n: u64)
    ensures
        u64_bytes(n).len() == 8,
        u64_value(u64_bytes(n)) == n,
{
    let high = (n / 0x1_0000_0000) as u32;
    let low = (n % 0x1_0000_0000) as u32;
    law_u32_round_trip(high, u32_bytes(low));
    law_u32_round_trip(low, Seq::empty());
    assert(u64_bytes(n).skip(4) == u32_bytes(low) + Seq::<u8>::empty());
}

proof fn lemma_digits(a: u8, b: u8, c: u8, d: u8, n: u32)
    requires
        n == a * 0x100_0000 + b * 0x1_0000 + c * 0x100 + d,
    ensures
        n / 0x100_0000 == a,
        n / 0x1_0000 % 0x100 == b,
        n / 0x100 % 0x100 == c,
        n % 0x100 == d,
{
    assert(n / 0x1_0000 == a * 0x100 + b);
    assert(n / 0x100 == (a * 0x100 + b) * 0x100 + c);
}

/// Writing a 32-bit number that was read gives the bytes that it was read from.
pub proof fn law_u32_written_back(s: Seq<u8>)
    requires
        s.len() >= 4,
    ensures
        0 <= u32_value(s) <= 0xffff_ffff,
        u32_bytes(u32_value(s) as u32) == s.take(4),
{
    let n = u32_value(s) as u32;
    assert(u32_value(s) <= 0xffff_ffff);
    lemma_digits(s[0], s[1], s[2], s[3], n);
    let w = u32_bytes(n);
    assert(w[0] == s[0] && w[1] == s[1] && w[2] == s[2] && w[3] == s[3]);
    assert(w =~= s.take(4));
}

/// `byteorder`'s `BigEndian::read_u16`: the number in the first two bytes. It
/// panics on fewer than two bytes, which the precondition rules out.
#[verifier::external_body]
pub(crate) fn read_u16(buf: &[u8]) -> (n: u16)
    requires
        buf@.len() >= 2,
    ensures
        n == u16_value(buf@),
{
    BigEndian::read_u16(buf)
}

/// `byteorder`'s `BigEndian::read_u32`: the number in the first four bytes. It
/// panics on fewer than four bytes, which the precondition rules out.
#[verifier::external_body]
pub(crate) fn read_u32(buf: &[u8]) -> (n: u32)
    requires
        buf@.len() >= 4,
    ensures
        n == u32_value(buf@),
{
    BigEndian::read_u32(buf)
}

/// `byteorder`'s `BigEndian::read_u64`: the number in the first eight bytes. It
/// panics on fewer than eight bytes, which the precondition rules out.
#[verifier::external_body]
pub(crate) fn read_u64(buf: &[u8]) -> (n: u64)
    requires
        buf@.len() >= 8,
    ensures
        n == u64_value(buf@),
{
    BigEndian::read_u64(buf)
}

/// `byteorder`'s `BigEndian::write_u16`, into a fresh buffer of two bytes.
#[verifier::external_body]
pub(crate) fn write_u16(n: u16) -> (buf: Vec<u8>)
    ensures
        buf@ == u16_bytes(n),
{
    let mut buf = vec![0u8; 2];
    BigEndian::write_u16(&mut buf, n);
    buf
}

/// `byteorder`'s `BigEndian::write_u32`, into a fresh buffer of four bytes.
#[verifier::external_body]
pub(crate) fn write_u32(n: u32) -> (buf: Vec<u8>)
    ensures
        buf@ == u32_bytes(n),
{
    let mut buf = vec![0u8; 4];
    BigEndian::write_u32(&mut buf, n);
    buf
}

/// `byteorder`'s `BigEndian::write_u64`, into a fresh buffer of eight bytes.
#[verifier::external_body]
pub(crate) fn write_u64(n: u64) -> (buf: Vec<u8>)
    ensures
        buf@ == u64_bytes(n),
{
    let mut buf = vec![0u8; 8];
    BigEndian::write_u64(&mut buf, n);
    buf
}

/// A copy of `buf[from..to]`.
pub(crate) fn copy_range(buf: &[u8], from: usize, to: usize) -> (copy: Vec<u8>)
    requires
        from <= to <= buf@.len(),
    ensures
        copy@ == buf@.subrange(from as int, to as int),
{
    vstd::slice::slice_to_vec(vstd::slice::slice_subrange(buf, from, to))
}

/// A vector of `n` zero bytes.
pub(crate) fn zeros(n: usize) -> (v: Vec<u8>)
    ensures
        v@ == Seq::new(n as nat, |i: int| 0u8),
{
    let v: Vec<u8> = vec![0u8; n];
    assert(v@ =~= Seq::new(n as nat, |i: int| 0u8));
    v
}

/// Appends `tail` to `out`.
pub(crate) fn append(out: &mut Vec<u8>, tail: &[u8])
    ensures
        final(out)@ == old(out)@ + tail@,
{
    out.extend_from_slice(tail);
    assert(out@ =~= old(out)@ + tail@);
}

/// Whether two byte strings are equal.
pub(crate) fn same_bytes(a: &[u8], b: &[u8]) -> (r: bool)
    ensures
        r == (a@ == b@),
{
    if a.len() != b.len() {
        return false;
    }
    let mut i: usize = 0;
    while i < a.len()
        invariant
            i <= a@.len(),
            a@.len() == b@.len(),
            forall|j: int| 0 <= j < i ==> a@[j] == b@[j],
        decreases a@.len() - i,
    {
        if a[i] != b[i] {
            return false;
        }
        i += 1;
    }
    assert(a@ =~= b@);
    true
}

/// `target` with the bytes from `at` on replaced by `block`.
pub open spec fn overwritten(target: Seq<u8>, at: int, block: Seq<u8>) -> Seq<u8> {
    target.take(at) + block + target.skip(at + block.len())
}

/// Overwriting puts each byte of the block in its place and changes nothing before or
/// behind it.
pub proof fn law_overwritten(target: Seq<u8>, at: int, block: Seq<u8>)
    requires
        0 <= at,
        at + block.len() <= target.len(),
    ensures
        overwritten(target, at, block).len() == target.len(),
        forall|i: int|
            0 <= i < target.len() ==> #[trigger] overwritten(target, at, block)[i] == if at <= i < at
                + block.len() {
                block[i - at]
            } else {
                target[i]
            },
{
}

/// Writes `block` into `target` from position `at` on.
pub(crate) fn overwrite(target: &mut Vec<u8>, at: usize, block: &[u8])
    requires
        at + block@.len() <= old(target)@.len(),
    ensures
        final(target)@ == overwritten(old(target)@, at as int, block@),
{
    let len: usize = target.len();
    let mut i: usize = 0;
    assert(overwritten(target@, at as int, block@.take(0)) =~= target@);
    while i < block.len()
        invariant
            i <= block@.len(),
            at + block@.len() <= len == old(target)@.len(),
            target@ == overwritten(old(target)@, at as int, block@.take(i as int)),
        decreases block@.len() - i,
    {
        target[at + i] = block[i];
        i += 1;
        assert(target@ =~= overwritten(old(target)@, at as int, block@.take(i as int)));
    }
    assert(block@.take(i as int) =~= block@);
}

} // verus!
