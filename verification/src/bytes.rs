//! Little-endian integers in byte buffers.
use vstd::prelude::*;

verus! {

/// The `width` low bytes of `x`, least significant first.
pub open spec fn le_bytes(x: nat, width: nat) -> Seq<u8>
    decreases width,
{
    if width == 0 {
        Seq::empty()
    } else {
        seq![(x % 256) as u8] + le_bytes(x / 256, (width - 1) as nat)
    }
}

/// The number that the bytes of `s` spell, least significant first.
pub open spec fn le_value(s: Seq<u8>) -> nat
    decreases s.len(),
{
    if s.len() == 0 {
        0
    } else {
        s[0] as nat + 256 * le_value(s.drop_first())
    }
}

/// `256` to the power `width`: one more than the largest number of `width` bytes.
pub open spec fn byte_range(width: nat) -> nat
    decreases width,
{
    if width == 0 {
        1
    } else {
        256 * byte_range((width - 1) as nat)
    }
}

pub proof fn lemma_byte_range_values()
    ensures
        byte_range(4) == 0x1_0000_0000,
        byte_range(8) == 0x1_0000_0000_0000_0000,
{
    reveal_with_fuel(byte_range, 9);
}

pub proof fn lemma_le_bytes_len(x: nat, width: nat)
    ensures
        le_bytes(x, width).len() == width,
    decreases width,
{
    if width > 0 {
        lemma_le_bytes_len(x / 256, (width - 1) as nat);
    }
}

/// A number that fits into `width` bytes comes back from them unchanged.
pub proof fn lemma_le_roundtrip(x: nat, width: nat)
    requires
        x < byte_range(width),
    ensures
        le_value(le_bytes(x, width)) == x,
    decreases width,
{
    if width > 0 {
        let rest = le_bytes(x / 256, (width - 1) as nat);
        lemma_le_roundtrip(x / 256, (width - 1) as nat);
        assert(le_bytes(x, width).drop_first() =~= rest);
        assert(le_bytes(x, width)[0] == (x % 256) as u8);
    }
}

pub proof fn lemma_le_value_bound(s: Seq<u8>)
    ensures
        le_value(s) < byte_range(s.len()),
    decreases s.len(),
{
    if s.len() > 0 {
        lemma_le_value_bound(s.drop_first());
    }
}

/// The bytes of a number are its digits to the base 256, the lowest first.
pub proof fn bytes_are_digits(x: nat, width: nat, k: nat)
    requires
        k < width,
    ensures
        le_bytes(x, width).len() == width,
        le_bytes(x, width)[k as int] == (x as int / vstd::arithmetic::power::pow(256, k)) % 256,
    decreases width,
{
    lemma_le_bytes_len(x, width);
    let rest = le_bytes(x / 256, (width - 1) as nat);
    vstd::arithmetic::power::lemma_pow0(256);
    if k == 0 {
        assert(le_bytes(x, width)[0] == (x % 256) as u8);
        assert(x as int / 1 == x);
    } else {
        let j = (k - 1) as nat;
        bytes_are_digits(x / 256, (width - 1) as nat, j);
        assert(le_bytes(x, width)[k as int] == rest[j as int]);
        vstd::arithmetic::power::lemma_pow_positive(256, j);
        reveal(vstd::arithmetic::power::pow);
        assert(vstd::arithmetic::power::pow(256, k) == 256 * vstd::arithmetic::power::pow(256, j));
        vstd::arithmetic::div_mod::lemma_div_denominator(
            x as int,
            256,
            vstd::arithmetic::power::pow(256, j),
        );
    }
}

/// Bytes come back from the number that they spell.
pub proof fn lemma_le_bytes_of_value(s: Seq<u8>)
    ensures
        le_bytes(le_value(s), s.len()) == s,
    decreases s.len(),
{
    if s.len() > 0 {
        let rest = s.drop_first();
        lemma_le_bytes_of_value(rest);
        let x = le_value(s);
        assert(x % 256 == s[0] && x / 256 == le_value(rest));
        assert(seq![s[0]] + rest =~= s);
    } else {
        assert(le_bytes(0, 0) =~= s);
    }
}

/// Whether two buffers hold the same bytes.
pub fn same_bytes(a: &[u8], b: &[u8]) -> (r: bool)
    ensures
        r == (a@ == b@),
{
    if a.len() != b.len() {
        return false;
    }
    let mut i: usize = 0;
    while i < a.len()
        invariant
            i <= a.len(),
            a.len() == b.len(),
            forall|j: int| 0 <= j < i ==> a@[j] == b@[j],
        decreases a.len() - i,
    {
        if a[i] != b[i] {
            return false;
        }
        i = i + 1;
    }
    assert(a@ =~= b@);
    true
}

/// Append `x` to `buf` as eight little-endian bytes.
pub fn put_u64(buf: &mut Vec<u8>, x: u64)
    ensures
        final(buf)@ == old(buf)@ + le_bytes(x as nat, 8),
{
    let ghost start = buf@;
    let mut rest: u64 = x;
    let mut i: usize = 0;
    while i < 8
        invariant
            i <= 8,
            start + le_bytes(x as nat, 8) == buf@ + le_bytes(rest as nat, (8 - i) as nat),
        decreases 8 - i,
    {
        let ghost before = buf@;
        let low: u8 = (rest % 256) as u8;
        buf.push(low);
        assert(before + le_bytes(rest as nat, (8 - i) as nat) =~= buf@ + le_bytes(
            (rest / 256) as nat,
            (7 - i) as nat,
        ));
        rest = rest / 256;
        i = i + 1;
    }
    assert(buf@ + le_bytes(rest as nat, 0) =~= buf@);
}

/// Append `x` to `buf` as four little-endian bytes.
pub fn put_u32(buf: &mut Vec<u8>, x: u32)
    ensures
        final(buf)@ == old(buf)@ + le_bytes(x as nat, 4),
{
    let ghost start = buf@;
    let mut rest: u32 = x;
    let mut i: usize = 0;
    while i < 4
        invariant
            i <= 4,
            start + le_bytes(x as nat, 4) == buf@ + le_bytes(rest as nat, (4 - i) as nat),
        decreases 4 - i,
    {
        let ghost before = buf@;
        let low: u8 = (rest % 256) as u8;
        buf.push(low);
        assert(before + le_bytes(rest as nat, (4 - i) as nat) =~= buf@ + le_bytes(
            (rest / 256) as nat,
            (3 - i) as nat,
        ));
        rest = rest / 256;
        i = i + 1;
    }
    assert(buf@ + le_bytes(rest as nat, 0) =~= buf@);
}

/// Append the four low bytes of the length `n` to `buf`.
pub fn put_len(buf: &mut Vec<u8>, n: usize)
    ensures
        final(buf)@ == old(buf)@ + le_bytes(n as nat, 4),
{
    let ghost start = buf@;
    let mut rest: usize = n;
    let mut i: usize = 0;
    while i < 4
        invariant
            i <= 4,
            start + le_bytes(n as nat, 4) == buf@ + le_bytes(rest as nat, (4 - i) as nat),
        decreases 4 - i,
    {
        let ghost before = buf@;
        let low: u8 = (rest % 256) as u8;
        buf.push(low);
        assert(before + le_bytes(rest as nat, (4 - i) as nat) =~= buf@ + le_bytes(
            (rest / 256) as nat,
            (3 - i) as nat,
        ));
        rest = rest / 256;
        i = i + 1;
    }
    assert(buf@ + le_bytes(rest as nat, 0) =~= buf@);
}

/// The number stored in the eight bytes of `buf` that start at `pos`.
pub fn get_u64(buf: &[u8], pos: usize) -> (x: u64)
    requires
        pos + 8 <= buf@.len(),
    ensures
        x == le_value(buf@.subrange(pos as int, pos + 8)),
{
    let ghost field = buf@.subrange(pos as int, pos + 8);
    proof {
        lemma_byte_range_values();
    }
    let mut x: u64 = 0;
    let mut i: usize = 8;
    assert(field.subrange(8, 8) =~= Seq::<u8>::empty());
    while i > 0
        invariant
            i <= 8,
            pos + 8 <= buf.len(),
            field == buf@.subrange(pos as int, pos + 8),
            x == le_value(field.subrange(i as int, 8)),
            byte_range(8) == 0x1_0000_0000_0000_0000,
        decreases i,
    {
        i = i - 1;
        let ghost part = field.subrange(i as int, 8);
        proof {
            assert(part.drop_first() =~= field.subrange(i + 1, 8));
            assert(part[0] == buf@[pos + i]);
            lemma_le_value_bound(part);
            lemma_byte_range_mono(part.len(), 8);
        }
        x = x * 256 + buf[pos + i] as u64;
    }
    assert(field.subrange(0, 8) =~= field);
    x
}

/// The number stored in the four bytes of `buf` that start at `pos`.
pub fn get_u32(buf: &[u8], pos: usize) -> (x: u32)
    requires
        pos + 4 <= buf@.len(),
    ensures
        x == le_value(buf@.subrange(pos as int, pos + 4)),
{
    let ghost field = buf@.subrange(pos as int, pos + 4);
    proof {
        lemma_byte_range_values();
    }
    let mut x: u32 = 0;
    let mut i: usize = 4;
    assert(field.subrange(4, 4) =~= Seq::<u8>::empty());
    while i > 0
        invariant
            i <= 4,
            pos + 4 <= buf.len(),
            field == buf@.subrange(pos as int, pos + 4),
            x == le_value(field.subrange(i as int, 4)),
            byte_range(4) == 0x1_0000_0000,
        decreases i,
    {
        i = i - 1;
        let ghost part = field.subrange(i as int, 4);
        proof {
            assert(part.drop_first() =~= field.subrange(i + 1, 4));
            assert(part[0] == buf@[pos + i]);
            lemma_le_value_bound(part);
            lemma_byte_range_mono(part.len(), 4);
        }
        x = x * 256 + buf[pos + i] as u32;
    }
    assert(field.subrange(0, 4) =~= field);
    x
}

pub proof fn lemma_byte_range_mono(a: nat, b: nat)
    requires
        a <= b,
    ensures
        byte_range(a) <= byte_range(b),
    decreases b,
{
    if a < b {
        lemma_byte_range_mono(a, (b - 1) as nat);
    }
}

/// Append a copy of `bytes` to `buf`.
pub fn put_bytes(buf: &mut Vec<u8>, bytes: &[u8])
    ensures
        final(buf)@ == old(buf)@ + bytes@,
{
    let ghost start = buf@;
    buf.extend_from_slice(bytes);
    assert(buf@ =~= start + bytes@);
}

/// A copy of `bytes`.
pub fn copy_bytes(bytes: &[u8]) -> (copy: Vec<u8>)
    ensures
        copy@ == bytes@,
{
    let mut copy: Vec<u8> = Vec::new();
    put_bytes(&mut copy, bytes);
    assert(copy@ =~= bytes@);
    copy
}

} // verus!
