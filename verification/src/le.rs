//! Little-endian integers: the form that virtio puts on the wire whatever the host is, and the form
//! that x86 keeps in memory.

use vstd::prelude::*;

verus! {

/// Position `0` of `s` is the least significant digit, in base 256.
pub open spec fn le_value(s: Seq<u8>) -> nat
    decreases s.len(),
{
    if s.len() == 0 {
        0
    } else {
        s[0] as nat + 256 * le_value(s.drop_first())
    }
}

/// The `n` low-order base-256 digits of `v`, least significant first.
pub open spec fn le_bytes(v: nat, n: nat) -> Seq<u8>
    decreases n,
{
    if n == 0 {
        Seq::empty()
    } else {
        seq![(v % 256) as u8] + le_bytes(v / 256, (n - 1) as nat)
    }
}

/// The number of values that `n` bytes can hold.
pub open spec fn le_bound(n: nat) -> nat
    decreases n,
{
    if n == 0 {
        1
    } else {
        256 * le_bound((n - 1) as nat)
    }
}

/// `n` bytes hold fewer than `le_bound(n)` values.
pub proof fn lemma_le_value_bound(s: Seq<u8>)
    ensures
        le_value(s) < le_bound(s.len()),
    decreases s.len(),
{
    if s.len() > 0 {
        lemma_le_value_bound(s.drop_first());
    }
}

/// Encoding gives back the length that was asked for.
pub proof fn lemma_le_bytes_len(v: nat, n: nat)
    ensures
        le_bytes(v, n).len() == n,
    decreases n,
{
    if n > 0 {
        lemma_le_bytes_len(v / 256, (n - 1) as nat);
    }
}

/// What is encoded little-endian in enough bytes is decoded to the same number.
pub proof fn lemma_le_round_trip(v: nat, n: nat)
    requires
        v < le_bound(n),
    ensures
        le_value(le_bytes(v, n)) == v,
    decreases n,
{
    if n > 0 {
        let rest = le_bytes(v / 256, (n - 1) as nat);
        lemma_le_round_trip(v / 256, (n - 1) as nat);
        assert(le_bytes(v, n).drop_first() =~= rest);
        assert(le_bytes(v, n)[0] == (v % 256) as u8);
    }
}

/// Bytes that are decoded little-endian are encoded to the same bytes.
pub proof fn lemma_le_round_trip_bytes(s: Seq<u8>)
    ensures
        le_bytes(le_value(s), s.len()) == s,
    decreases s.len(),
{
    if s.len() > 0 {
        let rest = s.drop_first();
        lemma_le_round_trip_bytes(rest);
        let v = le_value(s);
        assert(v % 256 == s[0] as nat);
        assert(v / 256 == le_value(rest));
        assert(seq![s[0]] + rest =~= s);
    }
}

/// The four field widths of the wire format, spelled out.
pub proof fn lemma_le_bounds()
    ensures
        le_bound(1) == 0x100,
        le_bound(2) == 0x1_0000,
        le_bound(4) == 0x1_0000_0000,
        le_bound(8) == 0x1_0000_0000_0000_0000,
{
    reveal_with_fuel(le_bound, 9);
}

/// The number that two bytes hold.
pub(crate) fn decode_u16(b: &[u8]) -> (v: u16)
    requires
        b@.len() == 2,
    ensures
        v == le_value(b@),
{
    proof {
        reveal_with_fuel(le_value, 3);
    }
    b[0] as u16 + 0x100 * (b[1] as u16)
}

/// The number that four bytes hold.
pub(crate) fn decode_u32(b: &[u8]) -> (v: u32)
    requires
        b@.len() == 4,
    ensures
        v == le_value(b@),
{
    proof {
        reveal_with_fuel(le_value, 5);
    }
    b[0] as u32 + 0x100 * (b[1] as u32) + 0x1_0000 * (b[2] as u32) + 0x100_0000 * (b[3] as u32)
}

/// The number that eight bytes hold.
pub(crate) fn decode_u64(b: &[u8]) -> (v: u64)
    requires
        b@.len() == 8,
    ensures
        v == le_value(b@),
{
    proof {
        reveal_with_fuel(le_value, 9);
    }
    b[0] as u64 + 0x100 * (b[1] as u64) + 0x1_0000 * (b[2] as u64) + 0x100_0000 * (b[3] as u64)
        + 0x1_0000_0000 * (b[4] as u64) + 0x100_0000_0000 * (b[5] as u64)
        + 0x1_0000_0000_0000 * (b[6] as u64) + 0x100_0000_0000_0000 * (b[7] as u64)
}

/// The wire form of a 16-bit field.
pub(crate) fn encode_u16(v: u16) -> (b: [u8; 2])
    ensures
        b@ == le_bytes(v as nat, 2),
{
    let b: [u8; 2] = [(v % 256) as u8, (v / 256) as u8];
    proof {
        reveal_with_fuel(le_bytes, 3);
        assert(b@ =~= le_bytes(v as nat, 2));
    }
    b
}

/// The wire form of a 32-bit field.
pub(crate) fn encode_u32(v: u32) -> (b: [u8; 4])
    ensures
        b@ == le_bytes(v as nat, 4),
{
    let b: [u8; 4] = [
        (v % 256) as u8,
        (v / 256 % 256) as u8,
        (v / 256 / 256 % 256) as u8,
        (v / 256 / 256 / 256) as u8,
    ];
    proof {
        reveal_with_fuel(le_bytes, 5);
        assert(b@ =~= le_bytes(v as nat, 4));
    }
    b
}

/// The wire form of a 64-bit field.
pub(crate) fn encode_u64(v: u64) -> (b: [u8; 8])
    ensures
        b@ == le_bytes(v as nat, 8),
{
    let b: [u8; 8] = [
        (v % 256) as u8,
        (v / 256 % 256) as u8,
        (v / 256 / 256 % 256) as u8,
        (v / 256 / 256 / 256 % 256) as u8,
        (v / 256 / 256 / 256 / 256 % 256) as u8,
        (v / 256 / 256 / 256 / 256 / 256 % 256) as u8,
        (v / 256 / 256 / 256 / 256 / 256 / 256 % 256) as u8,
        (v / 256 / 256 / 256 / 256 / 256 / 256 / 256) as u8,
    ];
    proof {
        reveal_with_fuel(le_bytes, 9);
        assert(b@ =~= le_bytes(v as nat, 8));
    }
    b
}


/// 256 to the power `n`.
pub open spec fn place_value(n: nat) -> nat {
    vstd::arithmetic::power::pow(256, n) as nat
}

/// The bytes of a number are its digits in base 256, the least significant first.
pub proof fn law_bytes_are_the_digits(v: nat, n: nat, i: int)
    requires
        0 <= i < n,
    ensures
        le_bytes(v, n).len() == n,
        place_value(i as nat) > 0,
        le_bytes(v, n)[i] == v as int / place_value(i as nat) as int % 256,
    decreases n,
{
    lemma_le_bytes_len(v, n);
    vstd::arithmetic::power::lemma_pow_positive(256, i as nat);
    if i == 0 {
        vstd::arithmetic::power::lemma_pow0(256);
        assert(v as int / 1 == v);
    } else {
        law_bytes_are_the_digits(v / 256, (n - 1) as nat, i - 1);
        assert(le_bytes(v, n)[i] == le_bytes(v / 256, (n - 1) as nat)[i - 1]);
        let p = place_value((i - 1) as nat) as int;
        vstd::arithmetic::power::lemma_pow_positive(256, (i - 1) as nat);
        reveal(vstd::arithmetic::power::pow);
        assert(place_value(i as nat) == 256 * p);
        vstd::arithmetic::div_mod::lemma_div_denominator(v as int, 256, p);
        assert(v as int / (256 * p) == v as int / 256 / p);
    }
}

/// The fields of the wire format, byte by byte.
pub proof fn law_fields_byte_by_byte(s: Seq<u8>)
    ensures
        s.len() == 1 ==> le_value(s) == s[0],
        s.len() == 2 ==> le_value(s) == s[0] + 0x100 * s[1],
        s.len() == 4 ==> le_value(s) == s[0] + 0x100 * s[1] + 0x1_0000 * s[2] + 0x100_0000 * s[3],
        s.len() == 8 ==> le_value(s) == s[0] + 0x100 * s[1] + 0x1_0000 * s[2] + 0x100_0000 * s[3]
            + 0x1_0000_0000 * s[4] + 0x100_0000_0000 * s[5] + 0x1_0000_0000_0000 * s[6]
            + 0x100_0000_0000_0000 * s[7],
{
    reveal_with_fuel(le_value, 9);
}

/// What is encoded is decoded to the same, and what is decoded is encoded to the same.
pub proof fn law_encoding_and_decoding_are_inverse(v: nat, n: nat, s: Seq<u8>)
    requires
        v < le_bound(n),
    ensures
        le_value(le_bytes(v, n)) == v,
        le_bytes(le_value(s), s.len()) == s,
{
    lemma_le_round_trip(v, n);
    lemma_le_round_trip_bytes(s);
}

} // verus!
