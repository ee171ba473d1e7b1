//! Integers as little-endian bytes, written to the end of a buffer and read
//! from a position in one.
use vstd::prelude::*;

verus! {

/// The four bytes of `u`, lowest first, for `u` below 2^32.
pub open spec fn bytes4(u: int) -> Seq<u8> {
    seq![
        (u % 256) as u8,
        ((u / 256) % 256) as u8,
        ((u / 65536) % 256) as u8,
        (u / 16777216) as u8,
    ]
}

/// The low four bytes of `n` in two's complement, lowest first.
pub open spec fn le4(n: int) -> Seq<u8> {
    bytes4(n % 4294967296)
}

/// The low eight bytes of `n` in two's complement, lowest first.
pub open spec fn le8(n: int) -> Seq<u8> {
    bytes4(n % 4294967296) + bytes4((n / 4294967296) % 4294967296)
}

/// The unsigned number that the four bytes from position `i` on stand for.
pub open spec fn u32_at(ba: Seq<u8>, i: int) -> int {
    ba[i] + 256 * ba[i + 1] + 65536 * ba[i + 2] + 16777216 * ba[i + 3]
}

/// The signed number that the four bytes from position `i` on stand for.
pub open spec fn i32_at(ba: Seq<u8>, i: int) -> int {
    let u = u32_at(ba, i);
    if u >= 2147483648 {
        u - 4294967296
    } else {
        u
    }
}

/// The unsigned number that the eight bytes from position `i` on stand for.
pub open spec fn u64_at(ba: Seq<u8>, i: int) -> int {
    u32_at(ba, i) + 4294967296 * u32_at(ba, i + 4)
}

/// The signed number that the eight bytes from position `i` on stand for.
pub open spec fn i64_at(ba: Seq<u8>, i: int) -> int {
    let u = u64_at(ba, i);
    if u >= 9223372036854775808 {
        u - 18446744073709551616
    } else {
        u
    }
}

/// The decimal digits of `n` in ASCII, without leading zeros.
pub open spec fn decimal(n: nat) -> Seq<u8>
    decreases n,
{
    if n < 10 {
        seq![(48 + n) as u8]
    } else {
        decimal(n / 10) + seq![(48 + n % 10) as u8]
    }
}

/// Reading back what was written gives the number again.
pub proof fn lemma_le4_round_trip(n: u32)
    ensures
        le4(n as int).len() == 4,
        u32_at(le4(n as int), 0) == n,
{
    assert(n % 256 + 256 * ((n / 256) % 256) + 65536 * ((n / 65536) % 256) + 16777216 * (n
        / 16777216) == n) by (bit_vector);
    assert(n / 16777216 < 256) by (bit_vector);
}

/// Reading back what was written gives the number again.
pub proof fn lemma_le8_round_trip(n: u64)
    ensures
        le8(n as int).len() == 8,
        u64_at(le8(n as int), 0) == n,
{
    let lo = (n % 4294967296) as u32;
    let hi = (n / 4294967296) as u32;
    lemma_le4_round_trip(lo);
    lemma_le4_round_trip(hi);
    assert(le8(n as int) =~= le4(lo as int) + le4(hi as int));
    assert(u32_at(le8(n as int), 0) == u32_at(le4(lo as int), 0));
    assert(u32_at(le8(n as int), 4) == u32_at(le4(hi as int), 0));
}

/// Appends the four bytes of `n`.
pub fn push_u32_le(w: &mut Vec<u8>, n: u32)
    ensures
        final(w)@ == old(w)@ + le4(n as int),
{
    w.push((n % 256) as u8);
    w.push(((n / 256) % 256) as u8);
    w.push(((n / 65536) % 256) as u8);
    w.push((n / 16777216) as u8);
    assert(w@ =~= old(w)@ + le4(n as int));
}

/// Appends the four bytes of `n` in two's complement.
pub fn push_i32_le(w: &mut Vec<u8>, n: i32)
    ensures
        final(w)@ == old(w)@ + le4(n as int),
{
    let wide: i64 = n as i64;
    let u: u32 = if wide < 0 {
        (wide + 4294967296) as u32
    } else {
        wide as u32
    };
    assert(u as int == (n as int) % 4294967296);
    push_u32_le(w, u);
}

/// Appends the low four bytes of `n`.
pub fn push_low4(w: &mut Vec<u8>, n: u128)
    ensures
        final(w)@ == old(w)@ + le4(n as int),
{
    let u: u128 = n % 4294967296;
    w.push((u % 256) as u8);
    w.push(((u / 256) % 256) as u8);
    w.push(((u / 65536) % 256) as u8);
    w.push((u / 16777216) as u8);
    assert(w@ =~= old(w)@ + le4(n as int));
}

/// Appends the low four bytes of a length.
pub fn push_len_le(w: &mut Vec<u8>, n: usize)
    ensures
        final(w)@ == old(w)@ + le4(n as int),
{
    push_low4(w, n as u128);
}

/// Appends the eight bytes of `n`.
pub fn push_u64_le(w: &mut Vec<u8>, n: u64)
    ensures
        final(w)@ == old(w)@ + le8(n as int),
{
    let lo: u32 = (n % 4294967296) as u32;
    let hi: u32 = (n / 4294967296) as u32;
    push_u32_le(w, lo);
    push_u32_le(w, hi);
    assert(w@ =~= old(w)@ + le8(n as int));
}

/// Appends the eight bytes of `n` in two's complement.
pub fn push_i64_le(w: &mut Vec<u8>, n: i64)
    ensures
        final(w)@ == old(w)@ + le8(n as int),
{
    let wide: i128 = n as i128;
    let u: u64 = if wide < 0 {
        (wide + 18446744073709551616) as u64
    } else {
        wide as u64
    };
    assert((u as int) % 4294967296 == (n as int) % 4294967296);
    assert(((u as int) / 4294967296) % 4294967296 == ((n as int) / 4294967296) % 4294967296);
    push_u64_le(w, u);
}

/// Appends the decimal digits of `n`.
pub fn push_decimal(w: &mut Vec<u8>, n: usize)
    ensures
        final(w)@ == old(w)@ + decimal(n as nat),
    decreases n,
{
    if n >= 10 {
        push_decimal(w, n / 10);
    }
    w.push((48 + n % 10) as u8);
    assert(w@ =~= old(w)@ + decimal(n as nat));
}

/// Overwrites the four bytes from position `at` on with the low four bytes of
/// a length.
pub fn put_len_le(w: &mut Vec<u8>, at: usize, n: usize)
    requires
        at + 4 <= old(w).len(),
    ensures
        final(w)@ == old(w)@.subrange(0, at as int) + le4(n as int) + old(w)@.subrange(
            at + 4,
            old(w)@.len() as int,
        ),
{
    let u: u64 = (n as u64) % 4294967296;
    let b0 = (u % 256) as u8;
    let b1 = ((u / 256) % 256) as u8;
    let b2 = ((u / 65536) % 256) as u8;
    let b3 = (u / 16777216) as u8;
    w[at] = b0;
    w[at + 1] = b1;
    w[at + 2] = b2;
    w[at + 3] = b3;
    assert(w@ =~= old(w)@.subrange(0, at as int) + le4(n as int) + old(w)@.subrange(
        at + 4,
        old(w)@.len() as int,
    ));
}

/// Reads four bytes at `*i` as an unsigned number and moves `*i` past them.
pub fn slurp_u32_le(ba: &[u8], i: &mut usize) -> (r: u32)
    requires
        *old(i) + 4 <= ba@.len(),
    ensures
        r == u32_at(ba@, *old(i) as int),
        *final(i) == *old(i) + 4,
{
    let at = *i;
    let r: u32 = ba[at] as u32 + 256 * (ba[at + 1] as u32) + 65536 * (ba[at + 2] as u32) + 16777216
        * (ba[at + 3] as u32);
    *i = at + 4;
    r
}

/// Reads four bytes at `*i` as a signed number and moves `*i` past them.
pub fn slurp_i32_le(ba: &[u8], i: &mut usize) -> (r: i32)
    requires
        *old(i) + 4 <= ba@.len(),
    ensures
        r == i32_at(ba@, *old(i) as int),
        *final(i) == *old(i) + 4,
{
    let u = slurp_u32_le(ba, i);
    if u >= 2147483648 {
        (u as i64 - 4294967296) as i32
    } else {
        u as i32
    }
}

/// Reads eight bytes at `*i` as an unsigned number and moves `*i` past them.
pub fn slurp_u64_le(ba: &[u8], i: &mut usize) -> (r: u64)
    requires
        *old(i) + 8 <= ba@.len(),
    ensures
        r == u64_at(ba@, *old(i) as int),
        *final(i) == *old(i) + 8,
{
    let lo = slurp_u32_le(ba, i);
    let hi = slurp_u32_le(ba, i);
    lo as u64 + 4294967296 * (hi as u64)
}

/// Reads eight bytes at `*i` as a signed number and moves `*i` past them.
pub fn slurp_i64_le(ba: &[u8], i: &mut usize) -> (r: i64)
    requires
        *old(i) + 8 <= ba@.len(),
    ensures
        r == i64_at(ba@, *old(i) as int),
        *final(i) == *old(i) + 8,
{
    let u = slurp_u64_le(ba, i);
    if u >= 9223372036854775808 {
        (u as i128 - 18446744073709551616) as i64
    } else {
        u as i64
    }
}

/// The number that the low 32 bits of `n` stand for, read with a sign.
pub open spec fn wrap_i32(n: int) -> int {
    let w = n % 4294967296;
    if w >= 2147483648 {
        w - 4294967296
    } else {
        w
    }
}

/// Cuts a number to its low 32 bits.
pub fn low_i32(n: i64) -> (r: i32)
    ensures
        r == wrap_i32(n as int),
{
    let u: u64 = if n < 0 {
        (n as i128 + 18446744073709551616) as u64
    } else {
        n as u64
    };
    assert((u as int) % 4294967296 == (n as int) % 4294967296);
    let w = u % 4294967296;
    if w >= 2147483648 {
        (w as i64 - 4294967296) as i32
    } else {
        w as i32
    }
}

/// Cuts a count to its low 32 bits.
pub fn low_i32_of_usize(n: usize) -> (r: i32)
    ensures
        r == wrap_i32(n as int),
{
    let w = (n as u64) % 4294967296;
    if w >= 2147483648 {
        (w as i64 - 4294967296) as i32
    } else {
        w as i32
    }
}

} // verus!
