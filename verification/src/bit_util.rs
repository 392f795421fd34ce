//! Bit- and byte-level serialization: the bit-packed writer and reader,
//! byte-aligned little-endian fields, and VLQ / zigzag-VLQ integers.

use vstd::prelude::*;
use vstd::arithmetic::power2::*;
use vstd::arithmetic::div_mod::*;
use vstd::arithmetic::mul::*;
use vstd::bits::*;
use crate::bits::{
    bits_val, bytes_bits, cont_count, le_bytes, le_val, nth_bit, pad_to_byte, unzigzag,
    val_bits, vlq_encode, vlq_val, zigzag, lemma_nth_bit_div, lemma_nth_bit_mod,
    lemma_mod_div_swap, lemma_bits_val_of_val_bits, lemma_val_bits_split, lemma_val_bits_mod,
    lemma_val_bits_zero_ext, lemma_bits_val_bound, lemma_bits_val_concat,
    lemma_val_bits_subrange, lemma_le_val_bound, lemma_bytes_bits_as_val, lemma_le_bytes_bits,
    lemma_bytes_bits_concat, lemma_vlq_encode_shape, lemma_bytes_bits_subrange,
    lemma_vlq_val_snoc, lemma_vlq_val_bound, lemma_cont_count_eq, lemma_cont_count_ge,
    lemma_cont_count_nonneg,
};
use crate::errors::{ParquetError, Result};
use crate::memory::ByteBufferPtr;

verus! {

/// Maximum byte length of a VLQ encoded integer accepted by the reader.
pub const MAX_VLQ_BYTE_LEN: usize = 5;

/// A fixed-width value that can be carried through the bit stream as a
/// little-endian bit pattern of at most 64 bits.
pub trait FixedWidth: Copy + Sized {
    /// The number of value bits the type carries.
    spec fn spec_bits() -> nat;

    /// The value's bit pattern, read as a natural number.
    spec fn pattern(self) -> nat;

    /// The type's width is between 1 and 64 bits.
    proof fn lemma_spec_bits()
        ensures
            0 < Self::spec_bits() <= 64,
    ;

    /// The pattern is bounded by the type's width, which is at most 64.
    proof fn lemma_pattern_bound(self)
        ensures
            self.pattern() < pow2(Self::spec_bits()),
            0 < Self::spec_bits() <= 64,
    ;

    /// Two values with the same pattern are the same value.
    proof fn lemma_pattern_injective(a: Self, b: Self)
        requires
            a.pattern() == b.pattern(),
        ensures
            a == b,
    ;

    /// Reconstruct a value from the low bits of a 64-bit pattern.
    fn from_pattern(p: u64) -> (r: Self)
        ensures
            r.pattern() == (p as nat) % pow2(Self::spec_bits()),
    ;

    /// The pattern as a 64-bit value.
    fn to_pattern(self) -> (r: u64)
        ensures
            r as nat == self.pattern(),
    ;
}

impl FixedWidth for u8 {
    open spec fn spec_bits() -> nat {
        8
    }

    open spec fn pattern(self) -> nat {
        self as nat
    }

    proof fn lemma_spec_bits() {
    }

    proof fn lemma_pattern_bound(self) {
        lemma2_to64();
    }

    proof fn lemma_pattern_injective(a: Self, b: Self) {
    }

    fn from_pattern(p: u64) -> (r: Self) {
        proof {
            lemma2_to64();
        }
        (p % 256) as u8
    }

    fn to_pattern(self) -> (r: u64) {
        self as u64
    }
}

impl FixedWidth for bool {
    open spec fn spec_bits() -> nat {
        1
    }

    open spec fn pattern(self) -> nat {
        if self {
            1
        } else {
            0
        }
    }

    proof fn lemma_spec_bits() {
    }

    proof fn lemma_pattern_bound(self) {
        lemma2_to64();
    }

    proof fn lemma_pattern_injective(a: Self, b: Self) {
    }

    fn from_pattern(p: u64) -> (r: Self) {
        proof {
            lemma2_to64();
        }
        p % 2 == 1
    }

    fn to_pattern(self) -> (r: u64) {
        if self {
            1
        } else {
            0
        }
    }
}

impl FixedWidth for i8 {
    open spec fn spec_bits() -> nat {
        8
    }

    open spec fn pattern(self) -> nat {
        (self as u8) as nat
    }

    proof fn lemma_spec_bits() {
    }

    proof fn lemma_pattern_bound(self) {
        lemma2_to64();
    }

    proof fn lemma_pattern_injective(a: Self, b: Self) {
        assert(a as u8 == b as u8 ==> a == b) by (bit_vector);
    }

    fn from_pattern(p: u64) -> (r: Self) {
        proof {
            lemma2_to64();
            assert((((p % 256) as u8) as i8) as u8 == (p % 256) as u8) by (bit_vector);
        }
        ((p % 256) as u8) as i8
    }

    fn to_pattern(self) -> (r: u64) {
        (self as u8) as u64
    }
}

impl FixedWidth for u16 {
    open spec fn spec_bits() -> nat {
        16
    }

    open spec fn pattern(self) -> nat {
        self as nat
    }

    proof fn lemma_spec_bits() {
    }

    proof fn lemma_pattern_bound(self) {
        lemma2_to64();
    }

    proof fn lemma_pattern_injective(a: Self, b: Self) {
    }

    fn from_pattern(p: u64) -> (r: Self) {
        proof {
            lemma2_to64();
        }
        (p % 0x10000) as u16
    }

    fn to_pattern(self) -> (r: u64) {
        self as u64
    }
}

impl FixedWidth for i16 {
    open spec fn spec_bits() -> nat {
        16
    }

    open spec fn pattern(self) -> nat {
        (self as u16) as nat
    }

    proof fn lemma_spec_bits() {
    }

    proof fn lemma_pattern_bound(self) {
        lemma2_to64();
    }

    proof fn lemma_pattern_injective(a: Self, b: Self) {
        assert(a as u16 == b as u16 ==> a == b) by (bit_vector);
    }

    fn from_pattern(p: u64) -> (r: Self) {
        proof {
            lemma2_to64();
            assert((((p % 0x10000) as u16) as i16) as u16 == (p % 0x10000) as u16) by (bit_vector);
        }
        ((p % 0x10000) as u16) as i16
    }

    fn to_pattern(self) -> (r: u64) {
        (self as u16) as u64
    }
}

impl FixedWidth for u32 {
    open spec fn spec_bits() -> nat {
        32
    }

    open spec fn pattern(self) -> nat {
        self as nat
    }

    proof fn lemma_spec_bits() {
    }

    proof fn lemma_pattern_bound(self) {
        lemma2_to64();
    }

    proof fn lemma_pattern_injective(a: Self, b: Self) {
    }

    fn from_pattern(p: u64) -> (r: Self) {
        proof {
            lemma2_to64();
        }
        (p % 0x1_0000_0000) as u32
    }

    fn to_pattern(self) -> (r: u64) {
        self as u64
    }
}

impl FixedWidth for i32 {
    open spec fn spec_bits() -> nat {
        32
    }

    open spec fn pattern(self) -> nat {
        (self as u32) as nat
    }

    proof fn lemma_spec_bits() {
    }

    proof fn lemma_pattern_bound(self) {
        lemma2_to64();
    }

    proof fn lemma_pattern_injective(a: Self, b: Self) {
        assert(a as u32 == b as u32 ==> a == b) by (bit_vector);
    }

    fn from_pattern(p: u64) -> (r: Self) {
        proof {
            lemma2_to64();
            assert((((p % 0x1_0000_0000) as u32) as i32) as u32 == (p % 0x1_0000_0000) as u32)
                by (bit_vector);
        }
        ((p % 0x1_0000_0000) as u32) as i32
    }

    fn to_pattern(self) -> (r: u64) {
        (self as u32) as u64
    }
}

impl FixedWidth for u64 {
    open spec fn spec_bits() -> nat {
        64
    }

    open spec fn pattern(self) -> nat {
        self as nat
    }

    proof fn lemma_spec_bits() {
    }

    proof fn lemma_pattern_bound(self) {
        lemma2_to64();
    }

    proof fn lemma_pattern_injective(a: Self, b: Self) {
    }

    fn from_pattern(p: u64) -> (r: Self) {
        proof {
            lemma2_to64();
            lemma_small_mod(p as nat, pow2(64));
        }
        p
    }

    fn to_pattern(self) -> (r: u64) {
        self
    }
}

impl FixedWidth for i64 {
    open spec fn spec_bits() -> nat {
        64
    }

    open spec fn pattern(self) -> nat {
        (self as u64) as nat
    }

    proof fn lemma_spec_bits() {
    }

    proof fn lemma_pattern_bound(self) {
        lemma2_to64();
    }

    proof fn lemma_pattern_injective(a: Self, b: Self) {
        assert(a as u64 == b as u64 ==> a == b) by (bit_vector);
    }

    fn from_pattern(p: u64) -> (r: Self) {
        proof {
            lemma2_to64();
            lemma_small_mod(p as nat, pow2(64));
            assert((p as i64) as u64 == p) by (bit_vector);
        }
        p as i64
    }

    fn to_pattern(self) -> (r: u64) {
        self as u64
    }
}

/// `2^k` as a 64-bit value.
fn pow2_u64(k: usize) -> (r: u64)
    requires
        k < 64,
    ensures
        r as nat == pow2(k as nat),
        r >= 1,
{
    proof {
        lemma_u64_pow2_no_overflow(k as nat);
        lemma_u64_shl_is_mul(1u64, k as u64);
    }
    1u64 << (k as u64)
}

/// The quotient of `value` by `divisor`, rounded up.
pub open spec fn ceil_div(value: int, divisor: int) -> int
    recommends
        divisor > 0,
{
    (value + divisor - 1) / divisor
}

/// Return the ceiling of `value / divisor`.
pub fn ceil(value: i64, divisor: i64) -> (r: i64)
    requires
        value >= 0,
        divisor > 0,
    ensures
        r == ceil_div(value as int, divisor as int),
        r >= 0,
{
    let v = value as u64;
    let d = divisor as u64;
    let q = v / d;
    let rem = v % d;
    proof {
        lemma_fundamental_div_mod(v as int, d as int);
        assert(v as int == d as int * (q as int) + rem as int);
        assert(0 <= rem < d);
        if rem == 0 {
            lemma_fundamental_div_mod_converse(
                v as int + d - 1,
                d as int,
                q as int,
                d as int - 1,
            );
        } else {
            if d > 1 {
                lemma_div_decreases(v as int, d as int);
            }
            lemma_mul_is_distributive_add_other_way(d as int, q as int, 1);
            lemma_fundamental_div_mod_converse(
                v as int + d - 1,
                d as int,
                q as int + 1,
                rem as int - 1,
            );
        }
    }
    if rem != 0 {
        (q + 1) as i64
    } else {
        q as i64
    }
}

/// Return the ceiling of the base-2 logarithm of `x`: the smallest `r`
/// with `2^r >= x`.
pub fn log2(x: u64) -> (r: i32)
    requires
        x >= 1,
    ensures
        0 <= r <= 64,
        pow2(r as nat) >= x,
        r > 0 ==> pow2((r - 1) as nat) < x,
{
    proof {
        lemma2_to64();
    }
    if x == 1 {
        return 0;
    }
    let mut y = x - 1;
    let mut result: i32 = 0;
    proof {
        lemma_div_basics((x - 1) as int);
    }
    while y > 0
        invariant
            0 <= result <= 64,
            x >= 2,
            y == (x - 1) as nat / pow2(result as nat),
            (y as nat) < pow2((64 - result) as nat),
            result > 0 ==> (x - 1) as nat / pow2((result - 1) as nat) > 0,
        decreases y,
    {
        proof {
            lemma2_to64();
            lemma_pow2_pos(result as nat);
            lemma_pow2_adds(result as nat, 1);
            lemma_div_denominator((x - 1) as int, pow2(result as nat) as int, 2);
            let k = (64 - result) as nat;
            lemma_pow2_pos(k);
            assert(k >= 1);
            lemma_pow2_adds((k - 1) as nat, 1);
            lemma_fundamental_div_mod_converse(
                2 * pow2((k - 1) as nat) as int - 1,
                2,
                pow2((k - 1) as nat) as int - 1,
                1,
            );
            lemma_div_is_ordered(y as int, 2 * pow2((k - 1) as nat) as int - 1, 2);
        }
        y = y / 2;
        result = result + 1;
    }
    proof {
        lemma2_to64();
        lemma_pow2_pos(result as nat);
        lemma_small_div_converse((x - 1) as int, pow2(result as nat) as int);
        if result > 0 && ((x - 1) as nat) < pow2((result - 1) as nat) {
            lemma_basic_div((x - 1) as int, pow2((result - 1) as nat) as int);
            assert(false);
        }
    }
    result
}

/// Return the `num_bits` least-significant bits of `v`; widths of 64 or
/// more return `v` unchanged.
pub fn trailing_bits(v: u64, num_bits: usize) -> (r: u64)
    ensures
        num_bits < 64 ==> r as nat == (v as nat) % pow2(num_bits as nat),
        num_bits >= 64 ==> r == v,
{
    if num_bits >= 64 {
        return v;
    }
    v % pow2_u64(num_bits)
}

/// The byte obtained by recomposing `b` around bit `k`: bits above `k`
/// from `hi`, bit `k` itself set to `bit`, bits below `k` kept as `lo`.
proof fn lemma_nth_bit_update(b: nat, k: nat, bit: nat)
    requires
        b < 256,
        k < 8,
        bit < 2,
    ensures
        ({
            let nb = (b / pow2((k + 1) as nat)) * pow2((k + 1) as nat) + bit * pow2(k) + b % pow2(
                k,
            );
            &&& nb < 256
            &&& forall|j: nat|
                j < 8 ==> #[trigger] nth_bit(nb, j) == if j == k {
                    bit == 1
                } else {
                    nth_bit(b, j)
                }
        }),
{
    lemma2_to64();
    let hi = b / pow2((k + 1) as nat);
    let lo = b % pow2(k);
    let nb = hi * pow2((k + 1) as nat) + bit * pow2(k) + lo;
    lemma_pow2_pos(k);
    lemma_pow2_pos((k + 1) as nat);
    lemma_pow2_pos((7 - k) as nat);
    lemma_pow2_adds((k + 1) as nat, (7 - k) as nat);
    lemma_mod_bound(b as int, pow2(k) as int);
    lemma_multiply_divide_lt(b as int, pow2((k + 1) as nat) as int, pow2((7 - k) as nat) as int);
    assert(hi <= pow2((7 - k) as nat) - 1);
    lemma_mul_inequality(hi as int, pow2((7 - k) as nat) as int - 1, pow2((k + 1) as nat) as int);
    assert((pow2((7 - k) as nat) - 1) * pow2((k + 1) as nat) == pow2((7 - k) as nat) * pow2(
        (k + 1) as nat,
    ) - pow2((k + 1) as nat)) by {
        lemma_mul_is_distributive_sub_other_way(
            pow2((k + 1) as nat) as int,
            pow2((7 - k) as nat) as int,
            1,
        );
    }
    lemma_pow2_adds(1, k);
    assert(pow2((k + 1) as nat) == 2 * pow2(k));
    assert(nb < 256);
    // Recompose: nb == (2 * hi + bit) * pow2(k) + lo.
    assert(hi * (2 * pow2(k)) == (2 * hi) * pow2(k)) by {
        lemma_mul_is_associative(hi as int, 2, pow2(k) as int);
        lemma_mul_is_associative(2, hi as int, pow2(k) as int);
        lemma_mul_is_commutative(hi as int, 2);
    }
    assert((2 * hi + bit) * pow2(k) == (2 * hi) * pow2(k) + bit * pow2(k)) by {
        lemma_mul_is_distributive_add_other_way(pow2(k) as int, 2 * hi as int, bit as int);
    }
    assert(nb == (2 * hi + bit) * pow2(k) + lo);
    lemma_fundamental_div_mod_converse(
        nb as int,
        pow2(k) as int,
        (2 * hi + bit) as int,
        lo as int,
    );
    assert(nb / pow2(k) == 2 * hi + bit);
    assert(nb % pow2(k) == lo);
    lemma_fundamental_div_mod_converse((2 * hi + bit) as int, 2, hi as int, bit as int);
    assert(nb / pow2(k) % 2 == bit);
    // Bits above k: nb / pow2(k + 1) == hi == b / pow2(k + 1).
    assert(nb / pow2((k + 1) as nat) == hi) by {
        lemma_pow2_adds(k, 1);
        lemma_div_denominator(nb as int, pow2(k) as int, 2);
        lemma_fundamental_div_mod_converse((2 * hi + bit) as int, 2, hi as int, bit as int);
    }
    assert forall|j: nat| j < 8 implies #[trigger] nth_bit(nb, j) == if j == k {
        bit == 1
    } else {
        nth_bit(b, j)
    } by {
        if j < k {
            lemma_nth_bit_mod(nb, k, j);
            lemma_nth_bit_mod(b, k, j);
            lemma_mod_mod(b as int, pow2(k) as int, 2);
            assert(nth_bit(nb, j) == nth_bit(nb % pow2(k), j));
            assert(nth_bit(b, j) == nth_bit(b % pow2(k), j));
        } else if j == k {
            assert(nth_bit(nb, j) == (bit == 1));
        } else {
            lemma_nth_bit_div(nb, (k + 1) as nat, (j - k - 1) as nat);
            lemma_nth_bit_div(b, (k + 1) as nat, (j - k - 1) as nat);
        }
    }
}

/// Set bit `i` (little-endian within each byte) in a byte array.
pub fn set_array_bit(bits: &mut Vec<u8>, i: usize)
    requires
        i / 8 < old(bits)@.len(),
    ensures
        final(bits)@.len() == old(bits)@.len(),
        forall|j: int| 0 <= j < old(bits)@.len() && j != i / 8 ==> final(bits)@[j] == old(bits)@[j],
        forall|k: nat|
            k < 8 ==> #[trigger] nth_bit(final(bits)@[i as int / 8] as nat, k) == (k == i % 8
                || nth_bit(old(bits)@[i as int / 8] as nat, k)),
{
    let q = i / 8;
    let k = i % 8;
    let b = bits[q] as u64;
    let pk = pow2_u64(k);
    let pk1 = pow2_u64(k + 1);
    proof {
        lemma_nth_bit_update(b as nat, k as nat, 1);
        lemma_fundamental_div_mod(b as int, pk1 as int);
        lemma_mod_bound(b as int, pk1 as int);
        lemma_mod_bound(b as int, pk as int);
    }
    let nb = (b / pk1) * pk1 + pk + b % pk;
    proof {
        let ob = old(bits)@[i as int / 8] as nat;
        assert forall|j: nat| j < 8 implies #[trigger] nth_bit(nb as nat, j) == (j == i % 8
            || nth_bit(ob, j)) by {
            if j == k {
                if nth_bit(ob, j) {
                    lemma_nth_bit_update(b as nat, k as nat, 1);
                }
            }
        }
    }
    bits[q] = nb as u8;
}

/// Clear bit `i` (little-endian within each byte) in a byte array.
pub fn unset_array_bit(bits: &mut Vec<u8>, i: usize)
    requires
        i / 8 < old(bits)@.len(),
    ensures
        final(bits)@.len() == old(bits)@.len(),
        forall|j: int| 0 <= j < old(bits)@.len() && j != i / 8 ==> final(bits)@[j] == old(bits)@[j],
        forall|k: nat|
            k < 8 ==> #[trigger] nth_bit(final(bits)@[i as int / 8] as nat, k) == (k != i % 8
                && nth_bit(old(bits)@[i as int / 8] as nat, k)),
{
    let q = i / 8;
    let k = i % 8;
    let b = bits[q] as u64;
    let pk = pow2_u64(k);
    let pk1 = pow2_u64(k + 1);
    proof {
        lemma_nth_bit_update(b as nat, k as nat, 0);
        lemma_fundamental_div_mod(b as int, pk1 as int);
        lemma_mod_bound(b as int, pk1 as int);
        lemma_mod_bound(b as int, pk as int);
    }
    let nb = (b / pk1) * pk1 + b % pk;
    bits[q] = nb as u8;
}

/// Convert `val` to its `num_bytes` low-order little-endian bytes.
pub fn convert_to_bytes<T: FixedWidth>(val: &T, num_bytes: usize) -> (r: Vec<u8>)
    requires
        num_bytes <= 8,
    ensures
        r@ == le_bytes(val.pattern(), num_bytes as nat),
{
    let p = val.to_pattern();
    let mut out: Vec<u8> = Vec::new();
    let mut cur = p;
    let mut i: usize = 0;
    proof {
        assert(out@ =~= le_bytes(p as nat, 0));
        lemma2_to64();
        lemma_div_basics(p as int);
    }
    while i < num_bytes
        invariant
            i <= num_bytes,
            out@ == le_bytes(p as nat, i as nat),
            cur as nat == (p as nat) / pow2((8 * i) as nat),
        decreases num_bytes - i,
    {
        proof {
            lemma2_to64();
            lemma_pow2_pos((8 * i) as nat);
            lemma_div_denominator(p as int, pow2((8 * i) as nat) as int, 256);
            lemma_pow2_adds((8 * i) as nat, 8);
            assert(8 * (i + 1) == 8 * i + 8);
            assert(le_bytes(p as nat, (i + 1) as nat) =~= le_bytes(p as nat, i as nat).push(
                ((p as nat) / pow2((8 * i) as nat) % 256) as u8,
            ));
        }
        out.push((cur % 256) as u8);
        cur = cur / 256;
        i = i + 1;
    }
    proof {
        assert(out@ == le_bytes(p as nat, num_bytes as nat));
        assert(le_bytes(p as nat, num_bytes as nat) =~= le_bytes(val.pattern(), num_bytes as nat));
    }
    out
}

/// Write the `n` low-order little-endian bytes of `v` into `buf` at
/// offset `off`, leaving every other byte unchanged.
fn write_le_bytes(buf: &mut Vec<u8>, off: usize, v: u64, n: usize)
    requires
        off + n <= old(buf)@.len(),
        n <= 8,
    ensures
        final(buf)@.len() == old(buf)@.len(),
        final(buf)@.subrange(off as int, (off + n) as int) == le_bytes(v as nat, n as nat),
        forall|j: int|
            0 <= j < old(buf)@.len() && !(off <= j < off + n) ==> final(buf)@[j] == old(buf)@[j],
{
    let total = buf.len();
    let mut cur = v;
    let mut i: usize = 0;
    proof {
        lemma2_to64();
        lemma_div_basics(v as int);
    }
    while i < n
        invariant
            i <= n,
            n <= 8,
            off + n <= buf@.len(),
            off + n <= usize::MAX,
            buf@.len() == old(buf)@.len(),
            cur as nat == (v as nat) / pow2((8 * i) as nat),
            buf@.subrange(off as int, (off + i) as int) == le_bytes(v as nat, i as nat),
            forall|j: int|
                0 <= j < old(buf)@.len() && !(off <= j < off + i) ==> buf@[j] == old(buf)@[j],
        decreases n - i,
    {
        proof {
            lemma2_to64();
            lemma_pow2_pos((8 * i) as nat);
            lemma_div_denominator(v as int, pow2((8 * i) as nat) as int, 256);
            lemma_pow2_adds((8 * i) as nat, 8);
            assert(8 * (i + 1) == 8 * i + 8);
        }
        let ghost prev = buf@;
        buf[off + i] = (cur % 256) as u8;
        proof {
            assert(buf@.subrange(off as int, (off + i + 1) as int) =~= le_bytes(
                v as nat,
                (i + 1) as nat,
            )) by {
                assert(le_bytes(v as nat, (i + 1) as nat) =~= le_bytes(v as nat, i as nat).push(
                    ((v as nat) / pow2((8 * i) as nat) % 256) as u8,
                ));
                assert(prev.subrange(off as int, (off + i) as int) == le_bytes(v as nat, i as nat));
                assert(buf@.subrange(off as int, (off + i) as int) =~= prev.subrange(
                    off as int,
                    (off + i) as int,
                ));
            }
        }
        cur = cur / 256;
        i = i + 1;
    }
    proof {
        assert(buf@.subrange(off as int, (off + n) as int) == le_bytes(v as nat, n as nat));
    }
}

/// Read `n` bytes at offset `off` of `buf` as a little-endian value.
fn read_le_bytes(buf: &ByteBufferPtr, off: usize, n: usize) -> (r: u64)
    requires
        buf.wf(),
        off + n <= buf@.len(),
        n <= 8,
    ensures
        r as nat == le_val(buf@.subrange(off as int, (off + n) as int)),
{
    let total = buf.len();
    let mut r: u64 = 0;
    let mut i: usize = n;
    proof {
        lemma2_to64();
        assert(buf@.subrange((off + n) as int, (off + n) as int) =~= Seq::<u8>::empty());
    }
    while i > 0
        invariant
            i <= n,
            n <= 8,
            buf.wf(),
            off + n <= buf@.len(),
            off + n <= usize::MAX,
            r as nat == le_val(buf@.subrange((off + i) as int, (off + n) as int)),
            (r as nat) < pow2((8 * (n - i)) as nat),
        decreases i,
    {
        i = i - 1;
        let b = buf.get(off + i);
        proof {
            lemma2_to64();
            let s = buf@.subrange((off + i) as int, (off + n) as int);
            assert(s.skip(1) =~= buf@.subrange((off + i + 1) as int, (off + n) as int));
            assert(s[0] == buf@[(off + i) as int]);
            lemma_pow2_adds((8 * (n - i - 1)) as nat, 8);
            assert(8 * (n - i) == 8 * (n - i - 1) + 8);
            lemma_mul_inequality(
                r as int,
                pow2((8 * (n - i - 1)) as nat) as int - 1,
                256,
            );
            lemma_mul_is_distributive_sub_other_way(256, pow2((8 * (n - i - 1)) as nat) as int, 1);
            if 8 * (n - i) < 64 {
                lemma_pow2_strictly_increases((8 * (n - i)) as nat, 64);
            }
        }
        r = r * 256 + b as u64;
    }
    proof {
        assert(buf@.subrange(off as int, (off + n) as int) == buf@.subrange(
            (off + 0) as int,
            (off + n) as int,
        ));
    }
    r
}

/// Serializes values into a pre-sized buffer: bit-packed fields,
/// byte-aligned little-endian fields, VLQ and zigzag-VLQ integers, and
/// positional skip / patch operations for forward references.
///
/// The abstract state is `stream()`, the sequence of bits written so far
/// (committed bytes followed by the pending bits of the 64-bit staging
/// register), together with the raw buffer bytes `buf_bytes()` for
/// offset-addressed patches.
pub struct BitWriter {
    buffer: Vec<u8>,
    max_bytes: usize,
    buffered_values: u64,
    byte_offset: usize,
    bit_offset: usize,
}

impl BitWriter {
    /// The raw bytes of the backing buffer (always `capacity()` long).
    pub closed spec fn buf_bytes(self) -> Seq<u8> {
        self.buffer@
    }

    /// How many whole bytes have been committed to the buffer.
    pub closed spec fn committed(self) -> int {
        self.byte_offset as int
    }

    /// The bits that sit in the staging register, not yet committed.
    pub closed spec fn pending(self) -> Seq<bool> {
        val_bits(self.buffered_values as nat, self.bit_offset as nat)
    }

    /// The fixed maximum size of the writer, in bytes.
    pub closed spec fn capacity(self) -> int {
        self.max_bytes as int
    }

    /// The bits written so far, in cursor order: the committed bytes'
    /// bits followed by the pending bits.
    pub open spec fn stream(self) -> Seq<bool> {
        bytes_bits(self.buf_bytes().take(self.committed())) + self.pending()
    }

    /// The writer's internal invariant.
    pub closed spec fn wf(self) -> bool {
        &&& self.buffer@.len() == self.max_bytes
        &&& self.bit_offset < 64
        &&& self.byte_offset * 8 + self.bit_offset <= self.max_bytes * 8
        &&& self.max_bytes * 8 <= usize::MAX
        &&& (self.buffered_values as nat) < pow2(self.bit_offset as nat)
    }

    /// Shape facts that every well-formed writer satisfies.
    pub proof fn lemma_wf_facts(self)
        requires
            self.wf(),
        ensures
            self.buf_bytes().len() == self.capacity(),
            0 <= self.committed() <= self.capacity(),
            self.pending().len() < 64,
            self.stream().len() == 8 * self.committed() + self.pending().len(),
            self.stream().len() <= 8 * self.capacity(),
    {
    }

    /// A fresh writer over a zero-filled buffer of `max_bytes` bytes.
    pub fn new(max_bytes: usize) -> (r: BitWriter)
        requires
            max_bytes <= usize::MAX / 8,
        ensures
            r.wf(),
            r.capacity() == max_bytes,
            r.committed() == 0,
            r.stream() == Seq::<bool>::empty(),
            r.buf_bytes() == Seq::new(max_bytes as nat, |i: int| 0u8),
    {
        let r = BitWriter {
            buffer: vec![0u8; max_bytes],
            max_bytes,
            buffered_values: 0,
            byte_offset: 0,
            bit_offset: 0,
        };
        proof {
            lemma2_to64();
            lemma_fundamental_div_mod(usize::MAX as int, 8);
            lemma_mul_inequality(max_bytes as int, (usize::MAX / 8) as int, 8);
            assert(r.buf_bytes() =~= Seq::new(max_bytes as nat, |i: int| 0u8));
            assert(r.stream() =~= Seq::<bool>::empty());
        }
        r
    }

    /// Write the `num_bits` least-significant bits of `v` at the bit
    /// cursor, least-significant bit first.  Returns `false`, changing
    /// nothing, when the bits do not fit in the remaining capacity.
    pub fn put_value(&mut self, v: u64, num_bits: usize) -> (r: bool)
        requires
            old(self).wf(),
            num_bits <= 32,
            (v as nat) < pow2(num_bits as nat),
        ensures
            final(self).wf(),
            final(self).capacity() == old(self).capacity(),
            r <==> old(self).stream().len() + num_bits <= 8 * old(self).capacity(),
            !r ==> final(self).stream() == old(self).stream(),
            !r ==> final(self).committed() == old(self).committed(),
            !r ==> final(self).buf_bytes() == old(self).buf_bytes(),
            !r ==> final(self).pending() == old(self).pending(),
            r ==> final(self).stream() == old(self).stream() + val_bits(
                v as nat,
                num_bits as nat,
            ),
            r ==> final(self).committed() == old(self).committed() + (
            if old(self).pending().len() + num_bits >= 64 {
                8int
            } else {
                0int
            }),
            r ==> forall|j: int|
                0 <= j < old(self).capacity() && !(old(self).committed() <= j
                    < final(self).committed()) ==> final(self).buf_bytes()[j]
                    == old(self).buf_bytes()[j],
    {
        proof {
            self.lemma_wf_facts();
        }
        let remaining = (self.max_bytes - self.byte_offset) * 8 - self.bit_offset;
        if num_bits > remaining {
            return false;
        }
        let ghost pre = *self;
        let bit = self.bit_offset;
        if bit + num_bits < 64 {
            proof {
                lemma2_to64();
                lemma_pow2_adds(bit as nat, num_bits as nat);
                lemma_pow2_strictly_increases((bit + num_bits) as nat, 64);
                lemma_mul_inequality(v as int, pow2(num_bits as nat) as int - 1, pow2(
                    bit as nat,
                ) as int);
                lemma_mul_is_distributive_sub_other_way(
                    pow2(bit as nat) as int,
                    pow2(num_bits as nat) as int,
                    1,
                );
                lemma_pow2_pos(bit as nat);
                lemma_u64_shl_is_mul(v, bit as u64);
            }
            let shifted = v << (bit as u64);
            self.buffered_values = self.buffered_values + shifted;
            self.bit_offset = bit + num_bits;
            proof {
                let b2 = self.buffered_values as nat;
                lemma_pow2_pos(bit as nat);
                lemma_fundamental_div_mod_converse(
                    b2 as int,
                    pow2(bit as nat) as int,
                    v as int,
                    pre.buffered_values as int,
                );
                lemma_val_bits_split(b2, bit as nat, (bit + num_bits) as nat);
                lemma_val_bits_mod(b2, bit as nat, bit as nat);
                assert(b2 % pow2(bit as nat) == pre.buffered_values as nat);
                assert(val_bits(b2 % pow2(bit as nat), bit as nat) == pre.pending());
                assert(self.pending() == pre.pending() + val_bits(v as nat, num_bits as nat));
                assert(self.stream() =~= pre.stream() + val_bits(v as nat, num_bits as nat));
            }
            true
        } else {
            let keep = 64 - bit;
            let pk = pow2_u64(keep);
            proof {
                lemma_pow2_pos(keep as nat);
                lemma_pow2_adds(keep as nat, bit as nat);
                lemma2_to64();
                lemma_mod_bound(v as int, pk as int);
                lemma_mul_inequality(
                    (v as int) % (pk as int),
                    pow2(keep as nat) as int - 1,
                    pow2(bit as nat) as int,
                );
                lemma_mul_is_distributive_sub_other_way(
                    pow2(bit as nat) as int,
                    pow2(keep as nat) as int,
                    1,
                );
                lemma_pow2_pos(bit as nat);
                lemma_u64_shl_is_mul((v % pk) as u64, bit as u64);
            }
            let lo = v % pk;
            let shifted = lo << (bit as u64);
            let register = self.buffered_values + shifted;
            write_le_bytes(&mut self.buffer, self.byte_offset, register, 8);
            self.byte_offset = self.byte_offset + 8;
            self.bit_offset = (bit + num_bits) - 64;
            proof {
                lemma_u64_shr_is_div(v, keep as u64);
            }
            self.buffered_values = v >> (keep as u64);
            proof {
                let bitn = bit as nat;
                let numn = num_bits as nat;
                let keepn = keep as nat;
                let bit2 = self.bit_offset as nat;
                let reg = register as nat;
                let lon = lo as nat;
                let carry = self.buffered_values as nat;
                lemma2_to64();
                lemma_pow2_pos(keepn);
                lemma_pow2_pos(bitn);
                // carry is bounded by the new pending width
                lemma_mod_div_swap(v as nat, keepn, numn);
                lemma_mod_bound((v as nat / pow2(keepn)) as int, pow2(bit2) as int);
                assert(carry == v as nat / pow2(keepn));
                lemma_pow2_adds(keepn, bit2);
                lemma_multiply_divide_lt(v as int, pow2(keepn) as int, pow2(bit2) as int);
                assert(carry < pow2(bit2));
                // the register splits into the old pending bits and the kept bits
                lemma_fundamental_div_mod_converse(
                    reg as int,
                    pow2(bitn) as int,
                    lon as int,
                    pre.buffered_values as int,
                );
                lemma_val_bits_split(reg, bitn, 64);
                lemma_val_bits_mod(reg, bitn, bitn);
                assert(val_bits(reg, 64) == pre.pending() + val_bits(lon, keepn));
                // the written value splits into kept bits and carry bits
                lemma_val_bits_split(v as nat, keepn, numn);
                lemma_val_bits_mod(v as nat, keepn, keepn);
                assert(val_bits(v as nat, numn) == val_bits(lon, keepn) + val_bits(carry, bit2));
                // the buffer gained exactly the register bytes
                let taken = self.buffer@.take(self.byte_offset as int);
                assert(taken =~= pre.buffer@.take(pre.byte_offset as int) + le_bytes(reg, 8));
                lemma_bytes_bits_concat(pre.buffer@.take(pre.byte_offset as int), le_bytes(reg, 8));
                lemma_le_bytes_bits(reg, 8);
                assert(self.stream() =~= pre.stream() + val_bits(v as nat, numn));
            }
            true
        }
    }

    /// Commit any pending bits, zero-padding the stream to the next byte
    /// boundary; idempotent when no bits are pending.
    pub fn flush(&mut self)
        requires
            old(self).wf(),
        ensures
            final(self).wf(),
            final(self).capacity() == old(self).capacity(),
            final(self).stream() == pad_to_byte(old(self).stream()),
            final(self).pending() == Seq::<bool>::empty(),
            8 * final(self).committed() == final(self).stream().len(),
            final(self).committed() == ceil_div(old(self).stream().len() as int, 8),
            forall|j: int|
                0 <= j < old(self).capacity() && !(old(self).committed() <= j
                    < final(self).committed()) ==> final(self).buf_bytes()[j]
                    == old(self).buf_bytes()[j],
    {
        proof {
            self.lemma_wf_facts();
        }
        let ghost pre = *self;
        let num_bytes = (self.bit_offset + 7) / 8;
        proof {
            lemma_fundamental_div_mod_converse(
                (pre.byte_offset * 8 + pre.bit_offset + 7) as int,
                8,
                pre.byte_offset as int + (pre.bit_offset + 7) as int / 8,
                (pre.bit_offset + 7) as int % 8,
            );
        }
        write_le_bytes(&mut self.buffer, self.byte_offset, self.buffered_values, num_bytes);
        self.buffered_values = 0;
        self.bit_offset = 0;
        self.byte_offset = self.byte_offset + num_bytes;
        proof {
            lemma2_to64();
            let bitn = pre.bit_offset as nat;
            let reg = pre.buffered_values as nat;
            let taken = self.buffer@.take(self.byte_offset as int);
            assert(taken =~= pre.buffer@.take(pre.byte_offset as int) + le_bytes(
                reg,
                num_bytes as nat,
            ));
            lemma_bytes_bits_concat(
                pre.buffer@.take(pre.byte_offset as int),
                le_bytes(reg, num_bytes as nat),
            );
            lemma_le_bytes_bits(reg, num_bytes as nat);
            lemma_val_bits_zero_ext(reg, bitn, (8 * num_bytes) as nat);
            assert(self.pending() =~= Seq::<bool>::empty());
            assert(self.stream() =~= pad_to_byte(pre.stream()));
        }
    }
}

impl BitWriter {
    /// Flush pending bits, then advance the byte cursor past `num_bytes`
    /// reserved bytes, returning the old offset so the caller can patch
    /// them later.  Fails, leaving the flushed state, when the
    /// reservation would run past the buffer's maximum size.
    pub fn skip(&mut self, num_bytes: usize) -> (r: Result<usize>)
        requires
            old(self).wf(),
        ensures
            final(self).wf(),
            final(self).capacity() == old(self).capacity(),
            final(self).pending() == Seq::<bool>::empty(),
            r is Ok <==> ceil_div(old(self).stream().len() as int, 8) + num_bytes <= old(self).capacity(),
            r matches Ok(off) ==> ({
                &&& off == ceil_div(old(self).stream().len() as int, 8)
                &&& final(self).committed() == off + num_bytes
                &&& bytes_bits(final(self).buf_bytes().take(off as int)) == pad_to_byte(
                    old(self).stream(),
                )
                &&& final(self).stream() == pad_to_byte(old(self).stream()) + bytes_bits(
                    final(self).buf_bytes().subrange(off as int, off + num_bytes),
                )
            }),
            r is Err ==> r == Result::<usize>::Err(ParquetError::NotEnoughBytesLeft),
            r is Err ==> final(self).committed() == ceil_div(old(self).stream().len() as int, 8)
                && final(self).stream() == pad_to_byte(old(self).stream()),
            forall|j: int|
                0 <= j < old(self).capacity() && !(old(self).committed() <= j
                    < ceil_div(old(self).stream().len() as int, 8)) ==> final(self).buf_bytes()[j]
                    == old(self).buf_bytes()[j],
    {
        self.flush();
        proof {
            self.lemma_wf_facts();
        }
        if num_bytes > self.max_bytes - self.byte_offset {
            return Err(ParquetError::NotEnoughBytesLeft);
        }
        let off = self.byte_offset;
        self.byte_offset = self.byte_offset + num_bytes;
        proof {
            let b = self.buffer@;
            assert(b.take(off + num_bytes as int) =~= b.take(off as int) + b.subrange(
                off as int,
                off + num_bytes as int,
            ));
            lemma_bytes_bits_concat(b.take(off as int), b.subrange(off as int, off + num_bytes));
            assert(self.stream() =~= bytes_bits(b.take(off as int)) + bytes_bits(
                b.subrange(off as int, off + num_bytes),
            ));
        }
        Ok(off)
    }

    /// Reserve the next `num_bytes` bytes, as `skip` does, and return the
    /// offset of the reserved region for later patching.
    pub fn get_next_byte_ptr(&mut self, num_bytes: usize) -> (r: Result<usize>)
        requires
            old(self).wf(),
        ensures
            final(self).wf(),
            final(self).capacity() == old(self).capacity(),
            final(self).pending() == Seq::<bool>::empty(),
            r is Ok <==> ceil_div(old(self).stream().len() as int, 8) + num_bytes <= old(self).capacity(),
            r matches Ok(off) ==> ({
                &&& off == ceil_div(old(self).stream().len() as int, 8)
                &&& final(self).committed() == off + num_bytes
                &&& bytes_bits(final(self).buf_bytes().take(off as int)) == pad_to_byte(
                    old(self).stream(),
                )
                &&& final(self).stream() == pad_to_byte(old(self).stream()) + bytes_bits(
                    final(self).buf_bytes().subrange(off as int, off + num_bytes),
                )
            }),
            r is Err ==> r == Result::<usize>::Err(ParquetError::NotEnoughBytesLeft),
            r is Err ==> final(self).committed() == ceil_div(old(self).stream().len() as int, 8)
                && final(self).stream() == pad_to_byte(old(self).stream()),
            forall|j: int|
                0 <= j < old(self).capacity() && !(old(self).committed() <= j
                    < ceil_div(old(self).stream().len() as int, 8)) ==> final(self).buf_bytes()[j]
                    == old(self).buf_bytes()[j],
    {
        self.skip(num_bytes)
    }

    /// The number of bytes the stream occupies so far, counting a
    /// partially-filled trailing byte as a whole one.
    pub fn bytes_written(&self) -> (r: usize)
        requires
            self.wf(),
        ensures
            r == ceil_div(self.stream().len() as int, 8),
    {
        proof {
            self.lemma_wf_facts();
            lemma_hoist_over_denominator(
                self.pending().len() as int + 7,
                self.committed(),
                8,
            );
        }
        self.byte_offset + (self.bit_offset + 7) / 8
    }

    /// A read-only view of the whole internal buffer.
    pub fn buffer(&self) -> (r: &[u8])
        ensures
            r@ == self.buf_bytes(),
    {
        self.buffer.as_slice()
    }

    /// The byte offset of the committed region's end.
    pub fn byte_offset(&self) -> (r: usize)
        ensures
            r == self.committed(),
    {
        self.byte_offset
    }

    /// The maximum number of bytes this writer can hold.
    pub fn buffer_len(&self) -> (r: usize)
        ensures
            r == self.capacity(),
    {
        self.max_bytes
    }

    /// Flush pending bits, then write the `num_bytes` low-order bytes of
    /// `val` at the next byte boundary, little-endian.  Returns `false`,
    /// leaving only the flush behind, when there is not enough room.
    pub fn put_aligned<T: FixedWidth>(&mut self, val: T, num_bytes: usize) -> (r: bool)
        requires
            old(self).wf(),
            num_bytes <= 8,
        ensures
            final(self).wf(),
            final(self).capacity() == old(self).capacity(),
            final(self).pending() == Seq::<bool>::empty(),
            r <==> ceil_div(old(self).stream().len() as int, 8) + num_bytes <= old(self).capacity(),
            r ==> final(self).stream() == pad_to_byte(old(self).stream()) + bytes_bits(
                le_bytes(val.pattern(), num_bytes as nat),
            ),
            r ==> final(self).committed() == ceil_div(old(self).stream().len() as int, 8)
                + num_bytes,
            !r ==> final(self).stream() == pad_to_byte(old(self).stream()) && final(self).committed() == ceil_div(old(self).stream().len() as int, 8),
            forall|j: int|
                0 <= j < old(self).capacity() && !(old(self).committed() <= j
                    < final(self).committed()) ==> final(self).buf_bytes()[j]
                    == old(self).buf_bytes()[j],
    {
        let p = val.to_pattern();
        let ghost pre = *self;
        match self.skip(num_bytes) {
            Err(_) => false,
            Ok(off) => {
                proof {
                    self.lemma_wf_facts();
                }
                let ghost mid = *self;
                write_le_bytes(&mut self.buffer, off, p, num_bytes);
                proof {
                    assert(self.buffer@.take(off as int) =~= mid.buffer@.take(off as int));
                    let b = self.buffer@;
                    assert(b.take(off + num_bytes as int) =~= b.take(off as int) + b.subrange(
                        off as int,
                        off + num_bytes as int,
                    ));
                    lemma_bytes_bits_concat(
                        b.take(off as int),
                        b.subrange(off as int, off + num_bytes),
                    );
                    assert(self.stream() =~= pad_to_byte(pre.stream()) + bytes_bits(
                        le_bytes(val.pattern(), num_bytes as nat),
                    ));
                }
                true
            },
        }
    }

    /// Write the `num_bytes` low-order bytes of `val` at the absolute
    /// byte offset `offset`, without touching the cursor or the pending
    /// bits.  Returns `false`, changing nothing, when the region would
    /// run past the buffer's maximum size.
    pub fn put_aligned_offset<T: FixedWidth>(&mut self, val: T, num_bytes: usize, offset: usize) -> (r:
        bool)
        requires
            old(self).wf(),
            num_bytes <= 8,
        ensures
            final(self).wf(),
            final(self).capacity() == old(self).capacity(),
            final(self).committed() == old(self).committed(),
            final(self).pending() == old(self).pending(),
            r <==> offset + num_bytes <= old(self).capacity(),
            !r ==> final(self).buf_bytes() == old(self).buf_bytes() && final(self).stream() == old(self).stream(),
            r ==> final(self).buf_bytes().subrange(offset as int, offset + num_bytes) == le_bytes(
                val.pattern(),
                num_bytes as nat,
            ),
            r ==> forall|j: int|
                0 <= j < old(self).capacity() && !(offset <= j < offset + num_bytes) ==> final(self).buf_bytes()[j] == old(self).buf_bytes()[j],
    {
        proof {
            self.lemma_wf_facts();
        }
        if num_bytes > self.max_bytes || offset > self.max_bytes - num_bytes {
            return false;
        }
        write_le_bytes(&mut self.buffer, offset, val.to_pattern(), num_bytes);
        true
    }

    /// Flush pending bits, then write `v` as a VLQ integer: base-128
    /// groups, least-significant group first, bit 7 of each byte but the
    /// last flagging continuation.  Returns `false` when the encoding
    /// does not fit; the groups that fit are still written.
    pub fn put_vlq_int(&mut self, v: u64) -> (r: bool)
        requires
            old(self).wf(),
        ensures
            final(self).wf(),
            final(self).capacity() == old(self).capacity(),
            final(self).pending() == Seq::<bool>::empty(),
            r <==> ceil_div(old(self).stream().len() as int, 8) + vlq_encode(v as nat).len() <= old(self).capacity(),
            ({
                let base = ceil_div(old(self).stream().len() as int, 8);
                let e = vlq_encode(v as nat);
                let k = if base + e.len() <= old(self).capacity() {
                    e.len() as int
                } else {
                    old(self).capacity() - base
                };
                &&& final(self).committed() == base + k
                &&& final(self).stream() == pad_to_byte(old(self).stream()) + bytes_bits(e.take(k))
            }),
            forall|j: int|
                0 <= j < old(self).capacity() && !(old(self).committed() <= j
                    < final(self).committed()) ==> final(self).buf_bytes()[j]
                    == old(self).buf_bytes()[j],
    {
        let ghost pre = *self;
        let ghost e = vlq_encode(v as nat);
        let ghost base = ceil_div(pre.stream().len() as int, 8);
        let mut x = v;
        let mut result: bool = true;
        let ghost mut i: int = 0;
        self.flush();
        proof {
            assert(e.skip(0) =~= e);
            lemma_vlq_encode_shape(v as nat);
            self.lemma_wf_facts();
            assert(e.take(0) =~= Seq::<u8>::empty());
            assert(bytes_bits(Seq::<u8>::empty()) =~= Seq::<bool>::empty());
            assert(self.stream() =~= pad_to_byte(pre.stream()) + bytes_bits(e.take(0)));
        }
        while x >= 128
            invariant
                self.wf(),
                self.capacity() == pre.capacity(),
                pre.wf(),
                e == vlq_encode(v as nat),
                base == ceil_div(pre.stream().len() as int, 8),
                0 <= base <= pre.capacity(),
                0 <= i <= e.len(),
                e.skip(i) == vlq_encode(x as nat),
                x < 128 ==> i == e.len() - 1,
                self.pending() == Seq::<bool>::empty(),
                self.committed() == if base + i <= pre.capacity() {
                    base + i
                } else {
                    pre.capacity() as int
                },
                result <==> base + i <= pre.capacity(),
                self.stream() == pad_to_byte(pre.stream()) + bytes_bits(
                    e.take(self.committed() - base),
                ),
                forall|j: int|
                    0 <= j < pre.capacity() && !(pre.committed() <= j < self.committed())
                        ==> self.buf_bytes()[j] == pre.buf_bytes()[j],
            decreases x,
        {
            let ghost smid = *self;
            let byte = ((x % 128) + 128) as u8;
            let ok = self.put_aligned::<u8>(byte, 1);
            result = ok && result;
            proof {
                lemma_vlq_encode_shape(x as nat);
                assert(vlq_encode(x as nat)[0] == byte);
                assert(e[i] == byte);
                assert(vlq_encode(x as nat).skip(1) =~= vlq_encode((x / 128) as nat));
                assert(e.skip(i + 1) =~= vlq_encode((x / 128) as nat)) by {
                    assert(e.skip(i).skip(1) =~= e.skip(i + 1));
                }
                if ok {
                    assert(smid.stream().len() % 8 == 0) by {
                        smid.lemma_wf_facts();
                    }
                    assert(pad_to_byte(smid.stream()) =~= smid.stream());
                    assert(ceil_div(smid.stream().len() as int, 8) == smid.committed()) by {
                        smid.lemma_wf_facts();
                        lemma_fundamental_div_mod_converse(
                            8 * smid.committed() + 7,
                            8,
                            smid.committed(),
                            7,
                        );
                    }
                    assert(e.take(i + 1) =~= e.take(i).push(byte));
                    assert(bytes_bits(e.take(i + 1)) =~= bytes_bits(e.take(i)) + bytes_bits(
                        seq![byte],
                    )) by {
                        assert(e.take(i + 1) =~= e.take(i) + seq![byte]);
                        lemma_bytes_bits_concat(e.take(i), seq![byte]);
                    }
                    assert(le_bytes(byte as nat, 1) =~= seq![byte]) by {
                        lemma2_to64();
                        lemma_div_basics(byte as int);
                    }
                    assert(self.stream() =~= pad_to_byte(pre.stream()) + bytes_bits(
                        e.take(self.committed() - base),
                    ));
                } else {
                    assert(self.committed() == smid.committed());
                    assert(self.stream() =~= smid.stream());
                }
                i = i + 1;
            }
            x = x / 128;
        }
        let ghost smid = *self;
        let byte = (x % 128) as u8;
        let ok = self.put_aligned::<u8>(byte, 1);
        result = ok && result;
        proof {
            assert(vlq_encode(x as nat) =~= seq![byte]);
            assert(e.skip(i).len() == e.len() - i);
            assert(i == e.len() - 1);
            assert(e.skip(i)[0] == e[i]);
            assert(e[i] == byte);
            if ok {
                assert(smid.stream().len() % 8 == 0) by {
                    smid.lemma_wf_facts();
                }
                assert(pad_to_byte(smid.stream()) =~= smid.stream());
                assert(ceil_div(smid.stream().len() as int, 8) == smid.committed()) by {
                    smid.lemma_wf_facts();
                    lemma_fundamental_div_mod_converse(
                        8 * smid.committed() + 7,
                        8,
                        smid.committed(),
                        7,
                    );
                }
                assert(e.take(i + 1) =~= e.take(i).push(byte));
                assert(bytes_bits(e.take(i + 1)) =~= bytes_bits(e.take(i)) + bytes_bits(
                    seq![byte],
                )) by {
                    assert(e.take(i + 1) =~= e.take(i) + seq![byte]);
                    lemma_bytes_bits_concat(e.take(i), seq![byte]);
                }
                assert(le_bytes(byte as nat, 1) =~= seq![byte]) by {
                    lemma2_to64();
                    lemma_div_basics(byte as int);
                }
                assert(e.take(i + 1) =~= e);
                assert(self.stream() =~= pad_to_byte(pre.stream()) + bytes_bits(
                    e.take(self.committed() - base),
                ));
            } else {
                assert(self.committed() == smid.committed());
                assert(self.stream() =~= smid.stream());
            }
        }
        result
    }
}


impl BitWriter {
    /// Flush pending bits, then write `v` as a zigzag-VLQ integer: the
    /// signed value is folded to unsigned with the zigzag map and written
    /// with `put_vlq_int`, so small magnitudes of either sign stay short.
    pub fn put_zigzag_vlq_int(&mut self, v: i64) -> (r: bool)
        requires
            old(self).wf(),
        ensures
            final(self).wf(),
            final(self).capacity() == old(self).capacity(),
            final(self).pending() == Seq::<bool>::empty(),
            r <==> ceil_div(old(self).stream().len() as int, 8) + vlq_encode(
                zigzag(v) as nat,
            ).len() <= old(self).capacity(),
            ({
                let base = ceil_div(old(self).stream().len() as int, 8);
                let e = vlq_encode(zigzag(v) as nat);
                let k = if base + e.len() <= old(self).capacity() {
                    e.len() as int
                } else {
                    old(self).capacity() - base
                };
                &&& final(self).committed() == base + k
                &&& final(self).stream() == pad_to_byte(old(self).stream()) + bytes_bits(e.take(k))
            }),
            forall|j: int|
                0 <= j < old(self).capacity() && !(old(self).committed() <= j
                    < final(self).committed()) ==> final(self).buf_bytes()[j]
                    == old(self).buf_bytes()[j],
    {
        let u: u64 = if v >= 0 {
            (v as u64) * 2
        } else {
            let m = -(v + 1);
            (m as u64) * 2 + 1
        };
        proof {
            assert(u == zigzag(v));
        }
        self.put_vlq_int(u)
    }

    /// Flush, then hand the written bytes out as a new immutable buffer
    /// and reset the writer to its initial empty state for reuse.
    pub fn consume(&mut self) -> (r: ByteBufferPtr)
        requires
            old(self).wf(),
        ensures
            r.wf(),
            8 * r@.len() == pad_to_byte(old(self).stream()).len(),
            bytes_bits(r@) == pad_to_byte(old(self).stream()),
            final(self).wf(),
            final(self).capacity() == old(self).capacity(),
            final(self).committed() == 0,
            final(self).stream() == Seq::<bool>::empty(),
            final(self).buf_bytes() == Seq::new(old(self).capacity() as nat, |i: int| 0u8),
    {
        self.flush();
        proof {
            self.lemma_wf_facts();
        }
        let ghost mid = *self;
        let mut out = vec![0u8; self.max_bytes];
        core::mem::swap(&mut self.buffer, &mut out);
        out.truncate(self.byte_offset);
        self.byte_offset = 0;
        proof {
            lemma2_to64();
            assert(out@ =~= mid.buf_bytes().take(mid.committed()));
            assert(bytes_bits(out@) == mid.stream()) by {
                assert(mid.pending() =~= Seq::<bool>::empty());
                assert(mid.stream() =~= bytes_bits(mid.buf_bytes().take(mid.committed())));
            }
            assert(self.buf_bytes() =~= Seq::new(mid.capacity() as nat, |i: int| 0u8));
            assert(self.stream() =~= Seq::<bool>::empty());
        }
        ByteBufferPtr::new(out)
    }
}


/// The value of the up-to-8-byte little-endian window of `data` that
/// starts at byte offset `off`.
pub open spec fn window_val(data: Seq<u8>, off: int) -> nat {
    le_val(
        data.subrange(
            off,
            if off + 8 <= data.len() {
                off + 8
            } else {
                data.len() as int
            },
        ),
    )
}

/// Load the reader's 64-bit window: up to 8 bytes starting at `off`.
fn load_window(buf: &ByteBufferPtr, off: usize) -> (w: u64)
    requires
        buf.wf(),
        off <= buf@.len(),
    ensures
        w as nat == window_val(buf@, off as int),
{
    let len = buf.len();
    let n = if len - off < 8 {
        len - off
    } else {
        8
    };
    read_le_bytes(buf, off, n)
}

/// Deserializes a byte buffer written by `BitWriter`: bit-packed fields,
/// byte-aligned little-endian fields, VLQ and zigzag-VLQ integers, over
/// a cheaply re-sliceable shared buffer.
///
/// The abstract state is the byte sequence `data()` and a bit cursor
/// `cursor() == 8 * byte_pos() + bit_pos()`.
pub struct BitReader {
    buffer: ByteBufferPtr,
    buffered_values: u64,
    byte_offset: usize,
    bit_offset: usize,
    total_bytes: usize,
}

impl BitReader {
    /// The bytes the reader decodes.
    pub closed spec fn data(self) -> Seq<u8> {
        self.buffer@
    }

    /// The byte position of the reader's window.
    pub closed spec fn byte_pos(self) -> int {
        self.byte_offset as int
    }

    /// The bit position of the cursor within the window.
    pub closed spec fn bit_pos(self) -> int {
        self.bit_offset as int
    }

    /// The cursor as an absolute bit position in `data()`.
    pub open spec fn cursor(self) -> int {
        8 * self.byte_pos() + self.bit_pos()
    }

    /// The reader's internal invariant.
    pub closed spec fn wf(self) -> bool {
        &&& self.buffer.wf()
        &&& self.total_bytes == self.buffer@.len()
        &&& self.total_bytes * 8 <= usize::MAX
        &&& self.bit_offset < 64
        &&& self.byte_offset * 8 + self.bit_offset <= self.total_bytes * 8
        &&& (self.buffered_values as nat) == window_val(self.buffer@, self.byte_offset as int)
    }

    /// Shape facts that every well-formed reader satisfies.
    pub proof fn lemma_wf_facts(self)
        requires
            self.wf(),
        ensures
            0 <= self.byte_pos() <= self.data().len(),
            0 <= self.bit_pos() < 64,
            0 <= self.cursor() <= 8 * self.data().len(),
    {
    }

    /// A reader over `buffer`, with the cursor at the first bit.
    pub fn new(buffer: ByteBufferPtr) -> (r: BitReader)
        requires
            buffer.wf(),
            buffer@.len() <= usize::MAX / 8,
        ensures
            r.wf(),
            r.data() == buffer@,
            r.byte_pos() == 0,
            r.bit_pos() == 0,
    {
        proof {
            lemma_fundamental_div_mod(usize::MAX as int, 8);
            lemma_mul_inequality(buffer@.len() as int, (usize::MAX / 8) as int, 8);
        }
        let total_bytes = buffer.len();
        let buffered_values = load_window(&buffer, 0);
        BitReader { buffer, buffered_values, byte_offset: 0, bit_offset: 0, total_bytes }
    }

    /// Rebind the reader to a new buffer, resetting the cursor to the
    /// start; reader state is reused across buffers.
    pub fn reset(&mut self, buffer: ByteBufferPtr)
        requires
            buffer.wf(),
            buffer@.len() <= usize::MAX / 8,
        ensures
            final(self).wf(),
            final(self).data() == buffer@,
            final(self).byte_pos() == 0,
            final(self).bit_pos() == 0,
    {
        *self = BitReader::new(buffer);
    }

    /// The current position rounded to the containing byte, for
    /// diagnostics and resumption.
    pub fn get_byte_offset(&self) -> (r: usize)
        requires
            self.wf(),
        ensures
            r == self.byte_pos() + self.bit_pos() / 8,
    {
        proof {
            self.lemma_wf_facts();
        }
        self.byte_offset + self.bit_offset / 8
    }

    /// Read the next `num_bits` bits at the cursor, zero-extended into
    /// `T`.  Fails, changing nothing, when fewer bits remain.
    #[verifier::rlimit(100)]
    #[verifier::spinoff_prover]
    pub fn get_value<T: FixedWidth>(&mut self, num_bits: usize) -> (r: Result<T>)
        requires
            old(self).wf(),
            num_bits <= 32,
            num_bits <= T::spec_bits(),
        ensures
            final(self).wf(),
            final(self).data() == old(self).data(),
            old(self).cursor() + num_bits <= 8 * old(self).data().len() ==> ({
                &&& r is Ok
                &&& (r matches Ok(v) ==> v.pattern() == bits_val(
                    bytes_bits(old(self).data()).subrange(
                        old(self).cursor(),
                        old(self).cursor() + num_bits,
                    ),
                ))
                &&& final(self).cursor() == old(self).cursor() + num_bits
                &&& final(self).byte_pos() == old(self).byte_pos() + (
                if old(self).bit_pos() + num_bits >= 64 {
                    8int
                } else {
                    0int
                })
            }),
            old(self).cursor() + num_bits > 8 * old(self).data().len() ==> ({
                &&& r == Result::<T>::Err(ParquetError::NotEnoughBytesLeft)
                &&& final(self).byte_pos() == old(self).byte_pos()
                &&& final(self).bit_pos() == old(self).bit_pos()
            }),
    {
        proof {
            self.lemma_wf_facts();
        }
        let remaining = (self.total_bytes - self.byte_offset) * 8 - self.bit_offset;
        if num_bits > remaining {
            return Err(ParquetError::NotEnoughBytesLeft);
        }
        let ghost pre = *self;
        let ghost d = pre.data();
        let ghost cur = pre.cursor();
        let ghost w = pre.buffered_values as nat;
        let ghost wend: int = if pre.byte_pos() + 8 <= d.len() {
            pre.byte_pos() + 8
        } else {
            d.len() as int
        };
        proof {
            lemma_bytes_bits_subrange(d, pre.byte_pos(), wend);
            lemma_bytes_bits_as_val(d.subrange(pre.byte_pos(), wend));
            assert(bytes_bits(d).subrange(8 * pre.byte_pos(), 8 * wend) == val_bits(
                w,
                (8 * (wend - pre.byte_pos())) as nat,
            ));
        }
        let bit = self.bit_offset;
        let t = trailing_bits(self.buffered_values, bit + num_bits);
        proof {
            lemma_u64_shr_is_div(t, bit as u64);
        }
        let mut v = t >> (bit as u64);
        self.bit_offset = bit + num_bits;
        if self.bit_offset >= 64 {
            proof {
                lemma2_to64();
                // the window is a full 8 bytes here
                assert(8 * pre.byte_pos() + 64 <= 8 * d.len());
                assert(wend == pre.byte_pos() + 8);
                // first part: bits [bit, 64) of the window
                lemma_pow2_pos(bit as nat);
                lemma_pow2_adds(bit as nat, (64 - bit) as nat);
                lemma_multiply_divide_lt(w as int, pow2(bit as nat) as int, pow2(
                    (64 - bit) as nat,
                ) as int);
                lemma_val_bits_subrange(w, 64, bit as int, 64);
                lemma_bits_val_of_val_bits(w / pow2(bit as nat), (64 - bit) as nat);
                lemma_small_mod(w / pow2(bit as nat), pow2((64 - bit) as nat));
                assert(bytes_bits(d).subrange(cur, 8 * pre.byte_pos() + 64) =~= bytes_bits(
                    d,
                ).subrange(8 * pre.byte_pos(), 8 * wend).subrange(bit as int, 64));
                assert(v as nat == bits_val(
                    bytes_bits(d).subrange(cur, 8 * pre.byte_pos() + 64),
                ));
            }
            self.byte_offset = self.byte_offset + 8;
            self.bit_offset = self.bit_offset - 64;
            let w2 = load_window(&self.buffer, self.byte_offset);
            self.buffered_values = w2;
            let nb = self.bit_offset;
            let t2 = trailing_bits(w2, nb);
            proof {
                let n1 = (64 - bit) as nat;
                let ghost wend2: int = if self.byte_pos() + 8 <= d.len() {
                    self.byte_pos() + 8
                } else {
                    d.len() as int
                };
                lemma2_to64();
                lemma_bytes_bits_subrange(d, self.byte_pos(), wend2);
                lemma_bytes_bits_as_val(d.subrange(self.byte_pos(), wend2));
                assert(bytes_bits(d).subrange(8 * self.byte_pos(), 8 * wend2) == val_bits(
                    w2 as nat,
                    (8 * (wend2 - self.byte_pos())) as nat,
                ));
                lemma_pow2_pos(nb as nat);
                lemma_pow2_pos(0);
                lemma_div_basics(w2 as int);
                // t2 holds the low nb bits of the new window
                lemma_mod_bound(w2 as int, pow2(nb as nat) as int);
                lemma_val_bits_subrange(
                    w2 as nat,
                    (8 * (wend2 - self.byte_pos())) as nat,
                    0,
                    nb as int,
                );
                lemma_val_bits_mod(w2 as nat, nb as nat, nb as nat);
                lemma_bits_val_of_val_bits(w2 as nat, nb as nat);
                let a = bytes_bits(d).subrange(cur, 8 * self.byte_pos());
                let b = bytes_bits(d).subrange(8 * self.byte_pos(), 8 * self.byte_pos() + nb);
                assert(b =~= bytes_bits(d).subrange(8 * self.byte_pos(), 8 * wend2).subrange(
                    0,
                    nb as int,
                ));
                assert(b == val_bits(w2 as nat, nb as nat));
                assert(t2 as nat == bits_val(b)) by {
                    if nb > 0 {
                        assert(t2 as nat == (w2 as nat) % pow2(nb as nat));
                        lemma_bits_val_of_val_bits(w2 as nat, nb as nat);
                    } else {
                        assert(b =~= Seq::<bool>::empty());
                    }
                }
                assert(bytes_bits(d).subrange(cur, cur + num_bits) =~= a + b);
                lemma_bits_val_concat(a, b);
                // exec sum matches: v + t2 * 2^n1
                lemma_pow2_adds(n1, nb as nat);
                assert(num_bits - nb == n1);
                assert(t2 as nat <= pow2(nb as nat) - 1);
                lemma_mul_inequality(t2 as int, pow2(nb as nat) as int - 1, pow2(n1) as int);
                lemma_mul_is_distributive_sub_other_way(pow2(n1) as int, pow2(nb as nat) as int, 1);
                if n1 + nb < 64 {
                    lemma_pow2_strictly_increases((n1 + nb) as nat, 64);
                }
                assert((t2 as nat) * pow2(n1) <= u64::MAX);
                lemma_u64_shl_is_mul(t2, (num_bits - nb) as u64);
                lemma_mul_is_commutative(t2 as int, pow2(n1) as int);
                assert(a.len() == n1);
            }
            v = v + (t2 << ((num_bits - nb) as u64));
            proof {
                let n1 = (64 - bit) as nat;
                let a = bytes_bits(d).subrange(cur, 8 * self.byte_pos());
                let b = bytes_bits(d).subrange(8 * self.byte_pos(), 8 * self.byte_pos() + nb);
                assert(v as nat == bits_val(a) + pow2(n1) * bits_val(b));
                assert(v as nat == bits_val(bytes_bits(d).subrange(cur, cur + num_bits)));
            }
        } else {
            proof {
                // bits [bit, bit + num_bits) of the window
                assert(cur + num_bits <= 8 * wend);
                lemma2_to64();
                if num_bits < 64 {
                    lemma_pow2_strictly_increases(num_bits as nat, 64);
                }
                lemma_mod_div_swap(w, bit as nat, (bit + num_bits) as nat);
                lemma_val_bits_subrange(
                    w,
                    (8 * (wend - pre.byte_pos())) as nat,
                    bit as int,
                    (bit + num_bits) as int,
                );
                lemma_bits_val_of_val_bits(w / pow2(bit as nat), num_bits as nat);
                assert(v as nat == (w % pow2((bit + num_bits) as nat)) / pow2(bit as nat));
                assert(bytes_bits(d).subrange(cur, cur + num_bits) =~= bytes_bits(d).subrange(
                    8 * pre.byte_pos(),
                    8 * wend,
                ).subrange(bit as int, (bit + num_bits) as int));
                assert(v as nat == bits_val(bytes_bits(d).subrange(cur, cur + num_bits)));
            }
        }
        proof {
            let ghost bitsv = bits_val(bytes_bits(d).subrange(cur, cur + num_bits));
            lemma_bits_val_bound(bytes_bits(d).subrange(cur, cur + num_bits));
            assert(v as nat == bitsv);
            if (num_bits as nat) < T::spec_bits() {
                lemma_pow2_strictly_increases(num_bits as nat, T::spec_bits());
            }
            lemma_small_mod(v as nat, pow2(T::spec_bits()));
        }
        Ok(T::from_pattern(v))
    }
}


impl BitReader {
    /// Round the cursor up to the next byte boundary, then read
    /// `num_bytes` raw bytes as a little-endian value in `T`.  Fails,
    /// changing nothing, when fewer bytes remain.
    pub fn get_aligned<T: FixedWidth>(&mut self, num_bytes: usize) -> (r: Result<T>)
        requires
            old(self).wf(),
            8 * num_bytes <= T::spec_bits(),
        ensures
            final(self).wf(),
            final(self).data() == old(self).data(),
            ({
                let p = old(self).byte_pos() + ceil_div(old(self).bit_pos(), 8);
                &&& (p + num_bytes <= old(self).data().len() ==> ({
                    &&& r is Ok
                    &&& (r matches Ok(v) ==> v.pattern() == le_val(
                        old(self).data().subrange(p, p + num_bytes),
                    ))
                    &&& final(self).byte_pos() == p + num_bytes
                    &&& final(self).bit_pos() == 0
                }))
                &&& (p + num_bytes > old(self).data().len() ==> ({
                    &&& r == Result::<T>::Err(ParquetError::NotEnoughBytesLeft)
                    &&& final(self).byte_pos() == old(self).byte_pos()
                    &&& final(self).bit_pos() == old(self).bit_pos()
                }))
            }),
    {
        proof {
            self.lemma_wf_facts();
            T::lemma_spec_bits();
        }
        let bytes_read = (self.bit_offset + 7) / 8;
        if num_bytes > self.total_bytes || self.byte_offset + bytes_read > self.total_bytes
            - num_bytes {
            return Err(ParquetError::NotEnoughBytesLeft);
        }
        let ghost d = self.data();
        let p = self.byte_offset + bytes_read;
        let v = read_le_bytes(&self.buffer, p, num_bytes);
        self.byte_offset = p + num_bytes;
        self.bit_offset = 0;
        let w = load_window(&self.buffer, self.byte_offset);
        self.buffered_values = w;
        proof {
            lemma2_to64();
            lemma_le_val_bound(d.subrange(p as int, p + num_bytes));
            if 8 * num_bytes < T::spec_bits() {
                lemma_pow2_strictly_increases((8 * num_bytes) as nat, T::spec_bits());
            }
            lemma_small_mod(v as nat, pow2(T::spec_bits()));
        }
        Ok(T::from_pattern(v))
    }

    /// Read a byte-aligned VLQ integer: base-128 groups accumulate, low
    /// group first, until a byte without its continuation bit ends the
    /// value.  More than `MAX_VLQ_BYTE_LEN` groups is an overflow error,
    /// distinct from running out of bytes; running out of bytes leaves
    /// the cursor where it was, so the reader stays resumable.
    pub fn get_vlq_int(&mut self) -> (r: Result<i64>)
        requires
            old(self).wf(),
        ensures
            final(self).wf(),
            final(self).data() == old(self).data(),
            ({
                let d = old(self).data();
                let p = old(self).byte_pos() + ceil_div(old(self).bit_pos(), 8);
                let n = cont_count(d, p);
                &&& (n <= 4 && p + n < d.len() ==> ({
                    &&& r == Result::<i64>::Ok(vlq_val(d.subrange(p, p + n + 1)) as i64)
                    &&& final(self).byte_pos() == p + n + 1
                    &&& final(self).bit_pos() == 0
                }))
                &&& (n >= 5 && p + 5 < d.len() ==> ({
                    &&& r == Result::<i64>::Err(ParquetError::VlqOverflow)
                    &&& final(self).byte_pos() == p + 6
                    &&& final(self).bit_pos() == 0
                }))
                &&& (!(n <= 4 && p + n < d.len()) && !(n >= 5 && p + 5 < d.len()) ==> ({
                    &&& r == Result::<i64>::Err(ParquetError::NotEnoughBytesLeft)
                    &&& final(self).byte_pos() == old(self).byte_pos()
                    &&& final(self).bit_pos() == old(self).bit_pos()
                }))
            }),
    {
        proof {
            self.lemma_wf_facts();
        }
        let ghost d = old(self).data();
        let ghost p = old(self).byte_pos() + ceil_div(old(self).bit_pos(), 8);
        let saved_byte_offset = self.byte_offset;
        let saved_bit_offset = self.bit_offset;
        let saved_buffered_values = self.buffered_values;
        let mut v: u64 = 0;
        let mut count: usize = 0;
        proof {
            assert(p <= d.len());
            assert(d.subrange(p, p) =~= Seq::<u8>::empty());
            lemma2_to64();
        }
        loop
            invariant
                self.wf(),
                old(self).wf(),
                self.data() == d,
                d == old(self).data(),
                p == old(self).byte_pos() + ceil_div(old(self).bit_pos(), 8),
                p <= d.len(),
                saved_byte_offset == old(self).byte_offset,
                saved_bit_offset == old(self).bit_offset,
                saved_buffered_values == old(self).buffered_values,
                0 <= count <= 5,
                count == 0 ==> self.byte_pos() == old(self).byte_pos() && self.bit_pos() == old(
                    self,
                ).bit_pos() && p == self.byte_pos() + ceil_div(self.bit_pos(), 8),
                count > 0 ==> self.byte_pos() == p + count && self.bit_pos() == 0,
                p + count <= d.len(),
                forall|j: int| p <= j < p + count ==> #[trigger] d[j] >= 128,
                v as nat == vlq_val(d.subrange(p, p + count)),
                (v as nat) < pow2((7 * count) as nat),
            decreases 6 - count,
        {
            let ghost smid = *self;
            match self.get_aligned::<u8>(1) {
                Err(_) => {
                    proof {
                        if count == 0 {
                            assert(p + 1 > d.len());
                            assert(p == d.len());
                            lemma_cont_count_eq(d, p, 0);
                        } else {
                            assert(p + count + 1 > d.len());
                            assert(p + count == d.len());
                            lemma_cont_count_eq(d, p, count as int);
                        }
                        assert(self.buffer.wf());
                        assert(self.total_bytes == self.buffer@.len());
                        assert(self.buffer@ == d);
                    }
                    self.byte_offset = saved_byte_offset;
                    self.bit_offset = saved_bit_offset;
                    self.buffered_values = saved_buffered_values;
                    proof {
                        assert(old(self).buffered_values as nat == window_val(
                            d,
                            old(self).byte_offset as int,
                        ));
                        assert(self.wf());
                    }
                    return Err(ParquetError::NotEnoughBytesLeft);
                },
                Ok(b) => {
                    proof {
                        lemma2_to64();
                        assert(self.byte_pos() == p + count + 1);
                        assert(b.pattern() == le_val(d.subrange(p + count, p + count + 1)));
                        assert(d.subrange(p + count, p + count + 1) =~= seq![d[p + count]]);
                        assert(seq![d[p + count]].skip(1) =~= Seq::<u8>::empty());
                        assert(le_val(Seq::<u8>::empty()) == 0);
                        assert(b == d[p + count]);
                        assert(d.subrange(p, p + count + 1) =~= d.subrange(p, p + count).push(b));
                        lemma_vlq_val_snoc(d.subrange(p, p + count), b);
                        lemma_mod_bound(b as int, 128);
                        lemma_pow2_adds((7 * count) as nat, 7);
                        assert(7 * (count + 1) == 7 * count + 7);
                        lemma_mul_inequality((b % 128) as int, 127, pow2((7 * count) as nat) as int)
                        ;
                        lemma_mul_is_commutative((b % 128) as int, pow2((7 * count) as nat) as int);
                        lemma_mul_is_commutative(128, pow2((7 * count) as nat) as int);
                        lemma_mul_is_distributive_sub_other_way(
                            pow2((7 * count) as nat) as int,
                            128,
                            1,
                        );
                        lemma_pow2_strictly_increases((7 * (count + 1)) as nat, 64);
                    }
                    let g = pow2_u64(7 * count);
                    v = v + ((b % 128) as u64) * g;
                    count = count + 1;
                    if count > MAX_VLQ_BYTE_LEN {
                        proof {
                            assert(count == 6);
                            assert(p + 5 < d.len());
                            lemma_cont_count_ge(d, p, 5);
                        }
                        return Err(ParquetError::VlqOverflow);
                    }
                    if b < 128 {
                        proof {
                            lemma_cont_count_eq(d, p, count - 1);
                        }
                        return Ok(v as i64);
                    }
                },
            }
        }
    }

    /// Read a zigzag-VLQ integer: a VLQ integer whose value is unfolded
    /// back to signed with the inverse zigzag map.  Failures behave as in
    /// `get_vlq_int`.
    pub fn get_zigzag_vlq_int(&mut self) -> (r: Result<i64>)
        requires
            old(self).wf(),
        ensures
            final(self).wf(),
            final(self).data() == old(self).data(),
            ({
                let d = old(self).data();
                let p = old(self).byte_pos() + ceil_div(old(self).bit_pos(), 8);
                let n = cont_count(d, p);
                &&& (n <= 4 && p + n < d.len() ==> ({
                    &&& r == Result::<i64>::Ok(unzigzag(vlq_val(d.subrange(p, p + n + 1)) as u64))
                    &&& final(self).byte_pos() == p + n + 1
                    &&& final(self).bit_pos() == 0
                }))
                &&& (n >= 5 && p + 5 < d.len() ==> ({
                    &&& r == Result::<i64>::Err(ParquetError::VlqOverflow)
                    &&& final(self).byte_pos() == p + 6
                    &&& final(self).bit_pos() == 0
                }))
                &&& (!(n <= 4 && p + n < d.len()) && !(n >= 5 && p + 5 < d.len()) ==> ({
                    &&& r == Result::<i64>::Err(ParquetError::NotEnoughBytesLeft)
                    &&& final(self).byte_pos() == old(self).byte_pos()
                    &&& final(self).bit_pos() == old(self).bit_pos()
                }))
            }),
    {
        let ghost d = self.data();
        let ghost p = self.byte_pos() + ceil_div(self.bit_pos(), 8);
        let ghost n = cont_count(d, p);
        match self.get_vlq_int() {
            Err(e) => Err(e),
            Ok(raw) => {
                proof {
                    lemma_cont_count_nonneg(d, p);
                    assert(0 <= n <= 4 && p + n < d.len());
                    lemma_vlq_val_bound(d.subrange(p, p + n + 1));
                    lemma2_to64();
                    lemma2_to64_rest();
                    assert(7 * (n + 1) <= 35);
                    if 7 * (n + 1) < 35 {
                        lemma_pow2_strictly_increases((7 * (n + 1)) as nat, 35);
                    }
                    assert(vlq_val(d.subrange(p, p + n + 1)) < pow2(35));
                }
                let u = raw as u64;
                proof {
                    assert(raw == vlq_val(d.subrange(p, p + n + 1)) as i64);
                    assert(0 <= raw < pow2(35));
                    assert(u == vlq_val(d.subrange(p, p + n + 1)) as u64);
                    assert(u < pow2(35));
                }
                if u % 2 == 0 {
                    proof {
                        assert(unzigzag(u) == (u / 2) as i64);
                    }
                    Ok((u / 2) as i64)
                } else {
                    proof {
                        assert(u / 2 < pow2(35));
                        assert(unzigzag(u) == (-((u / 2) as int) - 1) as i64);
                        assert(-((u / 2) as i64) - 1 == unzigzag(u));
                    }
                    Ok(-((u / 2) as i64) - 1)
                }
            },
        }
    }
}


} // verus!
