//! Conversions between fixed-width integers and their byte representations,
//! most significant byte first (big endian) or least significant byte first
//! (little endian).
use vstd::arithmetic::div_mod::{
    lemma_fundamental_div_mod, lemma_fundamental_div_mod_converse, lemma_hoist_over_denominator,
    lemma_mod_breakdown, lemma_mod_multiples_vanish,
};
use vstd::prelude::*;

verus! {

/// `256` raised to the power `n`: the number of values that `n` bytes hold.
pub open spec fn pow256(n: nat) -> nat
    decreases n,
{
    if n == 0 {
        1
    } else {
        256 * pow256((n - 1) as nat)
    }
}

/// The number that the bytes of `s` stand for, least significant byte first.
pub open spec fn le_value(s: Seq<u8>) -> nat
    decreases s.len(),
{
    if s.len() == 0 {
        0
    } else {
        s[0] as nat + 256 * le_value(s.drop_first())
    }
}

/// The number that the bytes of `s` stand for, most significant byte first.
pub open spec fn be_value(s: Seq<u8>) -> nat
    decreases s.len(),
{
    if s.len() == 0 {
        0
    } else {
        256 * be_value(s.drop_last()) + s.last() as nat
    }
}

/// The `n` low bytes of `v`, least significant first. For a negative `v` these
/// are the bytes of its two's complement.
pub open spec fn le_bytes(v: int, n: nat) -> Seq<u8>
    decreases n,
{
    if n == 0 {
        seq![]
    } else {
        seq![(v % 256) as u8] + le_bytes(v / 256, (n - 1) as nat)
    }
}

/// The `n` low bytes of `v`, most significant first. For a negative `v` these
/// are the bytes of its two's complement.
pub open spec fn be_bytes(v: int, n: nat) -> Seq<u8>
    decreases n,
{
    if n == 0 {
        seq![]
    } else {
        be_bytes(v / 256, (n - 1) as nat).push((v % 256) as u8)
    }
}

/// The signed number whose `n`-byte two's complement pattern is `u`.
pub open spec fn signed_value(u: nat, n: nat) -> int {
    if 2 * u < pow256(n) {
        u as int
    } else {
        u - pow256(n)
    }
}

/// Powers of 256 are positive, and multiply by adding their exponents.
pub proof fn lemma_pow256_add(a: nat, b: nat)
    ensures
        pow256(a + b) == pow256(a) * pow256(b),
        pow256(a) > 0,
    decreases a,
{
    if a > 0 {
        lemma_pow256_add((a - 1) as nat, b);
        assert(((a - 1) as nat + b) as nat == (a + b - 1) as nat);
        assert(pow256(a + b) == 256 * pow256(((a - 1) as nat + b) as nat));
        assert(256 * (pow256((a - 1) as nat) * pow256(b)) == (256 * pow256((a - 1) as nat))
            * pow256(b)) by (nonlinear_arith);
    } else {
        assert(a + b == b);
    }
}

proof fn lemma_pow256_le8(n: nat)
    requires
        n <= 8,
    ensures
        pow256(n) <= pow256(8),
        pow256(8) == 0x1_0000_0000_0000_0000,
{
    lemma_pow256_add(n, (8 - n) as nat);
    lemma_pow256_add((8 - n) as nat, 0);
    assert(pow256(n) * pow256((8 - n) as nat) >= pow256(n)) by (nonlinear_arith)
        requires pow256((8 - n) as nat) > 0;
    reveal_with_fuel(pow256, 9);
}

/// Adding a multiple of `256^n` to a number leaves its `n` low bytes unchanged.
pub proof fn lemma_bytes_modular(v: int, k: int, n: nat)
    ensures
        le_bytes(v + k * pow256(n), n) == le_bytes(v, n),
        be_bytes(v + k * pow256(n), n) == be_bytes(v, n),
    decreases n,
{
    if n > 0 {
        let m = (n - 1) as nat;
        let j = k * pow256(m);
        assert(k * pow256(n) == 256 * j) by (nonlinear_arith)
            requires pow256(n) == 256 * pow256(m), j == k * pow256(m);
        lemma_mod_multiples_vanish(j, v, 256);
        lemma_hoist_over_denominator(v, j, 256);
        assert((v + k * pow256(n)) / 256 == v / 256 + k * pow256(m)) by {
            assert(v + k * pow256(n) == v + j * 256) by (nonlinear_arith)
                requires k * pow256(n) == 256 * j;
        }
        lemma_bytes_modular(v / 256, k, m);
    }
}

proof fn lemma_round_trip_nonneg(v: int, n: nat)
    requires
        v >= 0,
    ensures
        le_value(le_bytes(v, n)) == v % (pow256(n) as int),
        be_value(be_bytes(v, n)) == v % (pow256(n) as int),
    decreases n,
{
    if n > 0 {
        let m = (n - 1) as nat;
        lemma_round_trip_nonneg(v / 256, m);
        assert((seq![(v % 256) as u8] + le_bytes(v / 256, m)).drop_first() =~= le_bytes(v / 256, m));
        assert(be_bytes(v / 256, m).push((v % 256) as u8).drop_last() =~= be_bytes(v / 256, m));
        lemma_pow256_add(m, 0);
        lemma_mod_breakdown(v, 256, pow256(m) as int);
    } else {
        assert(v % 1 == 0);
    }
}

/// Encoding `v` in `n` bytes and decoding the result gives `v` modulo `256^n`,
/// in either byte order.
pub proof fn lemma_round_trip_mod(v: int, n: nat)
    ensures
        le_value(le_bytes(v, n)) == v % (pow256(n) as int),
        be_value(be_bytes(v, n)) == v % (pow256(n) as int),
{
    lemma_pow256_add(n, 0);
    let p = pow256(n) as int;
    lemma_fundamental_div_mod(v, p);
    let r = v % p;
    lemma_bytes_modular(r, v / p, n);
    assert(r + (v / p) * p == v) by (nonlinear_arith)
        requires v == p * (v / p) + r;
    lemma_round_trip_nonneg(r, n);
    assert(r % p == r) by {
        lemma_fundamental_div_mod_converse(r, p, 0, r);
    }
}

/// Every number that `n` bytes can hold comes back unchanged from its own
/// encoding, in either byte order.
pub proof fn lemma_round_trip_unsigned(v: int, n: nat)
    requires
        0 <= v < pow256(n),
    ensures
        le_value(le_bytes(v, n)) == v,
        be_value(be_bytes(v, n)) == v,
{
    lemma_round_trip_mod(v, n);
    lemma_fundamental_div_mod_converse(v, pow256(n) as int, 0, v);
}

/// Every number in the range of `n`-byte two's complement comes back unchanged
/// from its own encoding, in either byte order.
pub proof fn lemma_round_trip_signed(v: int, n: nat)
    requires
        -pow256(n) <= 2 * v < pow256(n),
    ensures
        signed_value(le_value(le_bytes(v, n)), n) == v,
        signed_value(be_value(be_bytes(v, n)), n) == v,
{
    lemma_round_trip_mod(v, n);
    let p = pow256(n) as int;
    if v >= 0 {
        lemma_fundamental_div_mod_converse(v, p, 0, v);
    } else {
        lemma_fundamental_div_mod_converse(v, p, -1, v + p);
    }
}

proof fn lemma_be_is_reversed_le(s: Seq<u8>)
    ensures
        be_value(s) == le_value(s.reverse()),
    decreases s.len(),
{
    if s.len() > 0 {
        lemma_be_is_reversed_le(s.drop_last());
        assert(s.reverse().drop_first() =~= s.drop_last().reverse());
    }
}

/// Reading a buffer most significant byte first gives the number that reading
/// the reversed buffer least significant byte first gives, and the other way round.
pub proof fn lemma_order_symmetry(s: Seq<u8>)
    ensures
        be_value(s) == le_value(s.reverse()),
        le_value(s) == be_value(s.reverse()),
{
    lemma_be_is_reversed_le(s);
    lemma_be_is_reversed_le(s.reverse());
    assert(s.reverse().reverse() =~= s);
}

/// The bytes of a number most significant first are its bytes least
/// significant first, reversed.
pub proof fn lemma_bytes_order_symmetry(v: int, n: nat)
    ensures
        be_bytes(v, n) == le_bytes(v, n).reverse(),
    decreases n,
{
    if n > 0 {
        lemma_bytes_order_symmetry(v / 256, (n - 1) as nat);
        assert(le_bytes(v, n).reverse() =~= le_bytes(v / 256, (n - 1) as nat).reverse().push(
            (v % 256) as u8,
        ));
    } else {
        assert(le_bytes(v, n).reverse() =~= be_bytes(v, n));
    }
}

proof fn lemma_pow256_values()
    ensures
        pow256(2) == 0x1_0000,
        pow256(4) == 0x1_0000_0000,
        pow256(8) == 0x1_0000_0000_0000_0000,
{
    reveal_with_fuel(pow256, 9);
}

/// A negative number and the same number plus `2^64` have the same low bytes.
proof fn lemma_wide_pattern_bytes(v: int, n: nat)
    requires
        n <= 8,
    ensures
        le_bytes(v + pow256(8), n) == le_bytes(v, n),
        be_bytes(v + pow256(8), n) == be_bytes(v, n),
{
    lemma_pow256_add(n, (8 - n) as nat);
    assert(n + (8 - n) as nat == 8);
    assert(pow256((8 - n) as nat) * pow256(n) == pow256(8)) by (nonlinear_arith)
        requires pow256(8) == pow256(n) * pow256((8 - n) as nat);
    lemma_bytes_modular(v, pow256((8 - n) as nat) as int, n);
}

/// The 64-bit two's complement pattern of `v`, as an unsigned number.
fn to_bits(v: i64) -> (r: u64)
    ensures
        r as int == if v < 0 {
            v + pow256(8)
        } else {
            v as int
        },
{
    proof {
        lemma_pow256_values();
    }
    if v < 0 {
        ((v + 0x7fff_ffff_ffff_ffff + 1) as u64) + 0x8000_0000_0000_0000
    } else {
        v as u64
    }
}

/// The number that at most eight bytes stand for, most significant first.
fn read_be(slice: &[u8]) -> (r: u64)
    requires
        slice@.len() <= 8,
    ensures
        r as nat == be_value(slice@),
        r < pow256(slice@.len()),
{
    let mut res: u64 = 0;
    let mut i: usize = 0;
    while i < slice.len()
        invariant
            i <= slice@.len() <= 8,
            res as nat == be_value(slice@.subrange(0, i as int)),
            res < pow256(i as nat),
        decreases slice.len() - i,
    {
        let b = slice[i];
        proof {
            lemma_pow256_le8((i + 1) as nat);
            assert(slice@.subrange(0, i + 1).drop_last() =~= slice@.subrange(0, i as int));
            assert(res * 256 + b < pow256((i + 1) as nat)) by (nonlinear_arith)
                requires
                    res < pow256(i as nat),
                    pow256((i + 1) as nat) == 256 * pow256(i as nat),
                    b < 256,
            ;
        }
        res = res * 256 + b as u64;
        i += 1;
    }
    assert(slice@.subrange(0, i as int) =~= slice@);
    res
}

/// The number that at most eight bytes stand for, least significant first.
fn read_le(slice: &[u8]) -> (r: u64)
    requires
        slice@.len() <= 8,
    ensures
        r as nat == le_value(slice@),
        r < pow256(slice@.len()),
{
    let n = slice.len();
    let mut res: u64 = 0;
    let mut i: usize = n;
    while i > 0
        invariant
            i <= n == slice@.len() <= 8,
            res as nat == le_value(slice@.subrange(i as int, n as int)),
            res < pow256((n - i) as nat),
        decreases i,
    {
        i -= 1;
        let b = slice[i];
        proof {
            lemma_pow256_le8((n - i) as nat);
            assert(slice@.subrange(i as int, n as int).drop_first() =~= slice@.subrange(
                i + 1,
                n as int,
            ));
            assert(res * 256 + b < pow256((n - i) as nat)) by (nonlinear_arith)
                requires
                    res < pow256((n - i - 1) as nat),
                    pow256((n - i) as nat) == 256 * pow256((n - i - 1) as nat),
                    b < 256,
            ;
        }
        res = res * 256 + b as u64;
    }
    assert(slice@.subrange(0, n as int) =~= slice@);
    res
}

/// Fills `out` with the low bytes of `val`, least significant first.
fn write_le(val: u64, out: &mut [u8])
    ensures
        final(out)@ == le_bytes(val as int, old(out)@.len()),
{
    let n = out.len();
    let mut v = val;
    let mut i: usize = 0;
    while i < n
        invariant
            out@.len() == n == old(out)@.len(),
            i <= n,
            out@.subrange(0, i as int) + le_bytes(v as int, (n - i) as nat) == le_bytes(
                val as int,
                n as nat,
            ),
        decreases n - i,
    {
        let ghost prev = out@;
        out[i] = (v % 256) as u8;
        proof {
            assert(out@.subrange(0, i + 1) =~= prev.subrange(0, i as int).push((v % 256) as u8));
            assert(prev.subrange(0, i as int) + le_bytes(v as int, (n - i) as nat) =~= out@.subrange(
                0,
                i + 1,
            ) + le_bytes(v as int / 256, (n - i - 1) as nat));
        }
        v = v / 256;
        i += 1;
    }
    assert(out@.subrange(0, n as int) + le_bytes(v as int, 0) =~= out@);
}

/// Fills `out` with the low bytes of `val`, most significant first.
fn write_be(val: u64, out: &mut [u8])
    ensures
        final(out)@ == be_bytes(val as int, old(out)@.len()),
{
    let n = out.len();
    let mut v = val;
    let mut i: usize = n;
    while i > 0
        invariant
            out@.len() == n == old(out)@.len(),
            i <= n,
            be_bytes(v as int, i as nat) + out@.subrange(i as int, n as int) == be_bytes(
                val as int,
                n as nat,
            ),
        decreases i,
    {
        i -= 1;
        let ghost prev = out@;
        out[i] = (v % 256) as u8;
        proof {
            assert(out@.subrange(i as int, n as int) =~= seq![(v % 256) as u8] + prev.subrange(
                i + 1,
                n as int,
            ));
            assert(be_bytes(v as int, (i + 1) as nat) + prev.subrange(i + 1, n as int)
                =~= be_bytes(v as int / 256, i as nat) + out@.subrange(i as int, n as int));
        }
        v = v / 256;
    }
    assert(be_bytes(v as int, 0) + out@.subrange(0, n as int) =~= out@);
}

/// Reads a `u16` from two bytes, most significant first.
pub fn slice_to_u16_be(slice: &[u8]) -> (r: u16)
    requires
        slice@.len() == 2,
    ensures
        r as nat == be_value(slice@),
{
    proof {
        lemma_pow256_values();
    }
    read_be(slice) as u16
}

/// Reads a `u16` from two bytes, least significant first.
pub fn slice_to_u16_le(slice: &[u8]) -> (r: u16)
    requires
        slice@.len() == 2,
    ensures
        r as nat == le_value(slice@),
{
    proof {
        lemma_pow256_values();
    }
    read_le(slice) as u16
}

/// The two bytes of a `u16`, most significant first.
pub fn u16_to_array_be(val: u16) -> (r: [u8; 2])
    ensures
        r@ == be_bytes(val as int, 2),
{
    let mut res = [0u8; 2];
    write_be(val as u64, &mut res);
    res
}

/// The two bytes of a `u16`, least significant first.
pub fn u16_to_array_le(val: u16) -> (r: [u8; 2])
    ensures
        r@ == le_bytes(val as int, 2),
{
    let mut res = [0u8; 2];
    write_le(val as u64, &mut res);
    res
}

/// Reads a `u32` from four bytes, most significant first.
pub fn slice_to_u32_be(slice: &[u8]) -> (r: u32)
    requires
        slice@.len() == 4,
    ensures
        r as nat == be_value(slice@),
{
    proof {
        lemma_pow256_values();
    }
    read_be(slice) as u32
}

/// Reads a `u32` from four bytes, least significant first.
pub fn slice_to_u32_le(slice: &[u8]) -> (r: u32)
    requires
        slice@.len() == 4,
    ensures
        r as nat == le_value(slice@),
{
    proof {
        lemma_pow256_values();
    }
    read_le(slice) as u32
}

/// The four bytes of a `u32`, most significant first.
pub fn u32_to_array_be(val: u32) -> (r: [u8; 4])
    ensures
        r@ == be_bytes(val as int, 4),
{
    let mut res = [0u8; 4];
    write_be(val as u64, &mut res);
    res
}

/// The four bytes of a `u32`, least significant first.
pub fn u32_to_array_le(val: u32) -> (r: [u8; 4])
    ensures
        r@ == le_bytes(val as int, 4),
{
    let mut res = [0u8; 4];
    write_le(val as u64, &mut res);
    res
}

/// Reads a `u64` from eight bytes, most significant first.
pub fn slice_to_u64_be(slice: &[u8]) -> (r: u64)
    requires
        slice@.len() == 8,
    ensures
        r as nat == be_value(slice@),
{
    proof {
        lemma_pow256_values();
    }
    read_be(slice) as u64
}

/// Reads a `u64` from eight bytes, least significant first.
pub fn slice_to_u64_le(slice: &[u8]) -> (r: u64)
    requires
        slice@.len() == 8,
    ensures
        r as nat == le_value(slice@),
{
    proof {
        lemma_pow256_values();
    }
    read_le(slice) as u64
}

/// The eight bytes of a `u64`, most significant first.
pub fn u64_to_array_be(val: u64) -> (r: [u8; 8])
    ensures
        r@ == be_bytes(val as int, 8),
{
    let mut res = [0u8; 8];
    write_be(val as u64, &mut res);
    res
}

/// The eight bytes of a `u64`, least significant first.
pub fn u64_to_array_le(val: u64) -> (r: [u8; 8])
    ensures
        r@ == le_bytes(val as int, 8),
{
    let mut res = [0u8; 8];
    write_le(val as u64, &mut res);
    res
}

/// Reads an `i16` from two bytes of two's complement, most significant first.
pub fn slice_to_i16_be(slice: &[u8]) -> (r: i16)
    requires
        slice@.len() == 2,
    ensures
        r as int == signed_value(be_value(slice@), 2),
{
    proof {
        lemma_pow256_values();
    }
    let u = read_be(slice);
    if u < 0x8000 {
        u as i16
    } else {
        (u as i32 - 0x1_0000) as i16
    }
}

/// Reads an `i16` from two bytes of two's complement, least significant first.
pub fn slice_to_i16_le(slice: &[u8]) -> (r: i16)
    requires
        slice@.len() == 2,
    ensures
        r as int == signed_value(le_value(slice@), 2),
{
    proof {
        lemma_pow256_values();
    }
    let u = read_le(slice);
    if u < 0x8000 {
        u as i16
    } else {
        (u as i32 - 0x1_0000) as i16
    }
}

/// The two bytes of an `i16` in two's complement, most significant first.
pub fn i16_to_array_be(val: i16) -> (r: [u8; 2])
    ensures
        r@ == be_bytes(val as int, 2),
{
    let mut res = [0u8; 2];
    write_be(to_bits(val as i64), &mut res);
    proof {
        lemma_wide_pattern_bytes(val as int, 2);
    }
    res
}

/// The two bytes of an `i16` in two's complement, least significant first.
pub fn i16_to_array_le(val: i16) -> (r: [u8; 2])
    ensures
        r@ == le_bytes(val as int, 2),
{
    let mut res = [0u8; 2];
    write_le(to_bits(val as i64), &mut res);
    proof {
        lemma_wide_pattern_bytes(val as int, 2);
    }
    res
}

/// Reads an `i32` from four bytes of two's complement, most significant first.
pub fn slice_to_i32_be(slice: &[u8]) -> (r: i32)
    requires
        slice@.len() == 4,
    ensures
        r as int == signed_value(be_value(slice@), 4),
{
    proof {
        lemma_pow256_values();
    }
    let u = read_be(slice);
    if u < 0x8000_0000 {
        u as i32
    } else {
        (u as i64 - 0x1_0000_0000) as i32
    }
}

/// Reads an `i32` from four bytes of two's complement, least significant first.
pub fn slice_to_i32_le(slice: &[u8]) -> (r: i32)
    requires
        slice@.len() == 4,
    ensures
        r as int == signed_value(le_value(slice@), 4),
{
    proof {
        lemma_pow256_values();
    }
    let u = read_le(slice);
    if u < 0x8000_0000 {
        u as i32
    } else {
        (u as i64 - 0x1_0000_0000) as i32
    }
}

/// The four bytes of an `i32` in two's complement, most significant first.
pub fn i32_to_array_be(val: i32) -> (r: [u8; 4])
    ensures
        r@ == be_bytes(val as int, 4),
{
    let mut res = [0u8; 4];
    write_be(to_bits(val as i64), &mut res);
    proof {
        lemma_wide_pattern_bytes(val as int, 4);
    }
    res
}

/// The four bytes of an `i32` in two's complement, least significant first.
pub fn i32_to_array_le(val: i32) -> (r: [u8; 4])
    ensures
        r@ == le_bytes(val as int, 4),
{
    let mut res = [0u8; 4];
    write_le(to_bits(val as i64), &mut res);
    proof {
        lemma_wide_pattern_bytes(val as int, 4);
    }
    res
}

/// Reads an `i64` from eight bytes of two's complement, most significant first.
pub fn slice_to_i64_be(slice: &[u8]) -> (r: i64)
    requires
        slice@.len() == 8,
    ensures
        r as int == signed_value(be_value(slice@), 8),
{
    proof {
        lemma_pow256_values();
    }
    let u = read_be(slice);
    if u < 0x8000_0000_0000_0000 {
        u as i64
    } else {
        ((u - 0x8000_0000_0000_0000) as i64) - 0x7fff_ffff_ffff_ffff - 1
    }
}

/// Reads an `i64` from eight bytes of two's complement, least significant first.
pub fn slice_to_i64_le(slice: &[u8]) -> (r: i64)
    requires
        slice@.len() == 8,
    ensures
        r as int == signed_value(le_value(slice@), 8),
{
    proof {
        lemma_pow256_values();
    }
    let u = read_le(slice);
    if u < 0x8000_0000_0000_0000 {
        u as i64
    } else {
        ((u - 0x8000_0000_0000_0000) as i64) - 0x7fff_ffff_ffff_ffff - 1
    }
}

/// The eight bytes of an `i64` in two's complement, most significant first.
pub fn i64_to_array_be(val: i64) -> (r: [u8; 8])
    ensures
        r@ == be_bytes(val as int, 8),
{
    let mut res = [0u8; 8];
    write_be(to_bits(val as i64), &mut res);
    proof {
        lemma_wide_pattern_bytes(val as int, 8);
    }
    res
}

/// The eight bytes of an `i64` in two's complement, least significant first.
pub fn i64_to_array_le(val: i64) -> (r: [u8; 8])
    ensures
        r@ == le_bytes(val as int, 8),
{
    let mut res = [0u8; 8];
    write_le(to_bits(val as i64), &mut res);
    proof {
        lemma_wide_pattern_bytes(val as int, 8);
    }
    res
}

/// The `i`-th run of eight bytes in `s`.
pub open spec fn chunk8(s: Seq<u8>, i: int) -> Seq<u8> {
    s.subrange(8 * i, 8 * i + 8)
}

/// Fills `outp` with the `u64` values that the consecutive eight-byte runs of
/// `inp` stand for, each least significant byte first, in the order of the runs.
pub fn bytes_to_u64_slice_le(inp: &[u8], outp: &mut [u64])
    requires
        inp@.len() == old(outp)@.len() * 8,
    ensures
        final(outp)@.len() == old(outp)@.len(),
        forall|i: int|
            0 <= i < final(outp)@.len() ==> #[trigger] final(outp)@[i] as nat == le_value(
                chunk8(inp@, i),
            ),
{
    let n = outp.len();
    let len = inp.len();
    let mut i: usize = 0;
    while i < n
        invariant
            outp@.len() == n == old(outp)@.len(),
            inp@.len() == len == n * 8,
            i <= n,
            forall|j: int| 0 <= j < i ==> #[trigger] outp@[j] as nat == le_value(chunk8(inp@, j)),
        decreases n - i,
    {
        assert(8 * i + 8 <= len) by (nonlinear_arith)
            requires
                i < n,
                len == n * 8,
        ;
        let chunk = vstd::slice::slice_subrange(inp, 8 * i, 8 * i + 8);
        outp[i] = slice_to_u64_le(chunk);
        i += 1;
    }
}

/// Cutting the concatenation of eight-byte buffers into runs of eight gives
/// the buffers back, in order; so decoding the concatenation in bulk decodes
/// each buffer in turn.
pub proof fn lemma_bulk_decomposition(chunks: Seq<Seq<u8>>)
    requires
        forall|i: int| 0 <= i < chunks.len() ==> (#[trigger] chunks[i]).len() == 8,
    ensures
        chunks.flatten().len() == 8 * chunks.len(),
        forall|i: int|
            0 <= i < chunks.len() ==> #[trigger] chunk8(chunks.flatten(), i) == chunks[i],
        forall|i: int|
            0 <= i < chunks.len() ==> #[trigger] le_value(chunk8(chunks.flatten(), i))
                == le_value(chunks[i]),
    decreases chunks.len(),
{
    if chunks.len() > 0 {
        let rest = chunks.drop_first();
        lemma_bulk_decomposition(rest);
        let all = chunks.flatten();
        assert(all == chunks[0] + rest.flatten());
        assert forall|i: int| 0 <= i < chunks.len() implies #[trigger] chunk8(all, i)
            == chunks[i] by {
            if i == 0 {
                assert(chunk8(all, 0) =~= chunks[0]);
            } else {
                assert(chunk8(all, i) =~= chunk8(rest.flatten(), i - 1));
                assert(rest[i - 1] == chunks[i]);
            }
        }
    }
}

} // verus!
