//! The mathematical model of bit streams.
//!
//! A stream of packed data is modelled as a `Seq<bool>`, least-significant
//! bit first.  Numbers enter the model through `val_bits` (the low `n` bits
//! of a value) and leave it through `bits_val` (the value of a bit string,
//! zero-extended); byte sequences are viewed as bit sequences through
//! `bytes_bits`.  All bit positions are defined arithmetically, by division
//! and remainder, so the proofs below are ordinary integer arithmetic.

use vstd::prelude::*;
use vstd::arithmetic::power2::*;
use vstd::arithmetic::div_mod::*;
use vstd::arithmetic::mul::*;

verus! {

/// Bit `i` of the natural number `v` (bit 0 is the least significant).
pub open spec fn nth_bit(v: nat, i: nat) -> bool {
    v / pow2(i) % 2 == 1
}

/// The low `n` bits of `v`, least-significant first.
pub open spec fn val_bits(v: nat, n: nat) -> Seq<bool> {
    Seq::new(n, |i: int| nth_bit(v, i as nat))
}

/// A byte sequence viewed as a bit sequence: 8 bits per byte,
/// least-significant bit of the lowest-index byte first.
pub open spec fn bytes_bits(s: Seq<u8>) -> Seq<bool> {
    Seq::new((s.len() * 8) as nat, |j: int| nth_bit(s[j / 8] as nat, (j % 8) as nat))
}

/// The value of a bit string, least-significant bit first.
pub open spec fn bits_val(s: Seq<bool>) -> nat
    decreases s.len(),
{
    if s.len() == 0 {
        0
    } else {
        (if s[0] {
            1nat
        } else {
            0nat
        }) + 2 * bits_val(s.skip(1))
    }
}

/// The value of a byte sequence read as a little-endian integer.
pub open spec fn le_val(s: Seq<u8>) -> nat
    decreases s.len(),
{
    if s.len() == 0 {
        0
    } else {
        s[0] as nat + 256 * le_val(s.skip(1))
    }
}

/// The low `n` bytes of `v` in little-endian order.
pub open spec fn le_bytes(v: nat, n: nat) -> Seq<u8> {
    Seq::new(n, |i: int| (v / pow2((8 * i) as nat) % 256) as u8)
}

/// `s` padded with `false` bits up to the next byte boundary.
pub open spec fn pad_to_byte(s: Seq<bool>) -> Seq<bool> {
    s + Seq::new(((8 - s.len() % 8) % 8) as nat, |i: int| false)
}

/// Bit `i` of a quotient is bit `k + i` of the dividend.
pub proof fn lemma_nth_bit_div(v: nat, k: nat, i: nat)
    ensures
        nth_bit(v / pow2(k), i) == nth_bit(v, (k + i) as nat),
{
    lemma_pow2_pos(k);
    lemma_pow2_pos(i);
    lemma_div_denominator(v as int, pow2(k) as int, pow2(i) as int);
    lemma_pow2_adds(k, i);
}

/// Remainder and division by powers of two commute:
/// `(v % 2^m) / 2^i == (v / 2^i) % 2^(m - i)`.
pub proof fn lemma_mod_div_swap(v: nat, i: nat, m: nat)
    requires
        i <= m,
    ensures
        (v % pow2(m)) / pow2(i) == (v / pow2(i)) % pow2((m - i) as nat),
        (v % pow2(m)) % pow2(i) == v % pow2(i),
{
    let y = pow2(i);
    let z = pow2((m - i) as nat);
    lemma_pow2_pos(i);
    lemma_pow2_pos((m - i) as nat);
    lemma_pow2_adds(i, (m - i) as nat);
    lemma_mod_breakdown(v as int, y as int, z as int);
    lemma_mod_bound(v as int, y as int);
    lemma_div_pos_is_pos(v as int, y as int);
    lemma_mod_bound((v / y) as int, z as int);
    lemma_fundamental_div_mod_converse(
        (v % pow2(m)) as int,
        y as int,
        ((v / y) % z) as int,
        (v % y) as int,
    );
}

/// Taking a remainder by `2^m` does not change bits below position `m`.
pub proof fn lemma_nth_bit_mod(v: nat, m: nat, i: nat)
    requires
        i < m,
    ensures
        nth_bit(v % pow2(m), i) == nth_bit(v, i),
{
    lemma_mod_div_swap(v, i, m);
    let k = (m - i - 1) as nat;
    lemma_pow2_adds(1, k);
    lemma_pow2_pos(k);
    lemma2_to64();
    lemma_mod_mod((v / pow2(i)) as int, 2, pow2(k) as int);
}

/// Dropping the first bit of `val_bits` halves the value.
pub proof fn lemma_val_bits_skip(v: nat, n: nat)
    requires
        n >= 1,
    ensures
        val_bits(v, n).skip(1) == val_bits(v / 2, (n - 1) as nat),
{
    let a = val_bits(v, n).skip(1);
    let b = val_bits(v / 2, (n - 1) as nat);
    assert forall|i: int| 0 <= i < n - 1 implies a[i] == b[i] by {
        lemma2_to64();
        lemma_nth_bit_div(v, 1, i as nat);
    }
    assert(a =~= b);
}

/// The value of the low `n` bits of `v` is `v % 2^n`.
pub proof fn lemma_bits_val_of_val_bits(v: nat, n: nat)
    ensures
        bits_val(val_bits(v, n)) == v % pow2(n),
    decreases n,
{
    lemma2_to64();
    if n == 0 {
        lemma_fundamental_div_mod_converse(v as int, 1, v as int, 0);
    } else {
        lemma_val_bits_skip(v, n);
        lemma_bits_val_of_val_bits(v / 2, (n - 1) as nat);
        lemma_pow2_pos((n - 1) as nat);
        lemma_mod_breakdown(v as int, 2, pow2((n - 1) as nat) as int);
        lemma_pow2_adds(1, (n - 1) as nat);
        assert(val_bits(v, n)[0] == nth_bit(v, 0));
        lemma_div_basics(v as int);
    }
}

/// The low `n` bits split at position `m` into low and high parts.
pub proof fn lemma_val_bits_split(v: nat, m: nat, n: nat)
    requires
        m <= n,
    ensures
        val_bits(v, n) == val_bits(v, m) + val_bits(v / pow2(m), (n - m) as nat),
{
    let a = val_bits(v, n);
    let b = val_bits(v, m) + val_bits(v / pow2(m), (n - m) as nat);
    assert forall|i: int| 0 <= i < n implies a[i] == b[i] by {
        if i >= m {
            lemma_nth_bit_div(v, m, (i - m) as nat);
        }
    }
    assert(a =~= b);
}

/// Bits below `n` of `v % 2^m` agree with those of `v` when `n <= m`.
pub proof fn lemma_val_bits_mod(v: nat, m: nat, n: nat)
    requires
        n <= m,
    ensures
        val_bits(v % pow2(m), n) == val_bits(v, n),
{
    let a = val_bits(v % pow2(m), n);
    let b = val_bits(v, n);
    assert forall|i: int| 0 <= i < n implies a[i] == b[i] by {
        lemma_nth_bit_mod(v, m, i as nat);
    }
    assert(a =~= b);
}

/// Every bit of zero is clear.
pub proof fn lemma_val_bits_zero(n: nat)
    ensures
        val_bits(0, n) == Seq::new(n, |i: int| false),
{
    assert forall|i: int| 0 <= i < n implies val_bits(0, n)[i] == false by {
        lemma_pow2_pos(i as nat);
        lemma_div_of0(pow2(i as nat) as int);
    }
    assert(val_bits(0, n) =~= Seq::new(n, |i: int| false));
}

/// A value below `2^m` zero-extends: its bits above `m` are clear.
pub proof fn lemma_val_bits_zero_ext(v: nat, m: nat, n: nat)
    requires
        v < pow2(m),
        m <= n,
    ensures
        val_bits(v, n) == val_bits(v, m) + Seq::new((n - m) as nat, |i: int| false),
{
    lemma_val_bits_split(v, m, n);
    lemma_pow2_pos(m);
    lemma_basic_div(v as int, pow2(m) as int);
    lemma_val_bits_zero((n - m) as nat);
}

/// A bit string of length `n` has value below `2^n`.
pub proof fn lemma_bits_val_bound(s: Seq<bool>)
    ensures
        bits_val(s) < pow2(s.len()),
    decreases s.len(),
{
    lemma2_to64();
    if s.len() > 0 {
        lemma_bits_val_bound(s.skip(1));
        lemma_pow2_adds(1, (s.len() - 1) as nat);
    }
}

/// Concatenation of bit strings: the right part is scaled by `2^|s|`.
pub proof fn lemma_bits_val_concat(s: Seq<bool>, t: Seq<bool>)
    ensures
        bits_val(s + t) == bits_val(s) + pow2(s.len()) * bits_val(t),
    decreases s.len(),
{
    lemma2_to64();
    if s.len() == 0 {
        assert(s + t =~= t);
    } else {
        assert((s + t).skip(1) =~= s.skip(1) + t);
        lemma_bits_val_concat(s.skip(1), t);
        lemma_pow2_adds(1, (s.len() - 1) as nat);
        lemma_mul_is_associative(2, pow2((s.len() - 1) as nat) as int, bits_val(t) as int);
    }
}

/// A subrange of the low bits of `v` is the low bits of a shifted `v`.
pub proof fn lemma_val_bits_subrange(v: nat, n: nat, a: int, b: int)
    requires
        0 <= a <= b <= n,
    ensures
        val_bits(v, n).subrange(a, b) == val_bits(v / pow2(a as nat), (b - a) as nat),
{
    let x = val_bits(v, n).subrange(a, b);
    let y = val_bits(v / pow2(a as nat), (b - a) as nat);
    assert forall|i: int| 0 <= i < b - a implies x[i] == y[i] by {
        lemma_nth_bit_div(v, a as nat, i as nat);
    }
    assert(x =~= y);
}

/// A byte sequence read little-endian has value below `2^(8n)`.
pub proof fn lemma_le_val_bound(s: Seq<u8>)
    ensures
        le_val(s) < pow2((8 * s.len()) as nat),
    decreases s.len(),
{
    lemma2_to64();
    if s.len() > 0 {
        lemma_le_val_bound(s.skip(1));
        lemma_pow2_adds(8, (8 * (s.len() - 1)) as nat);
    }
}

/// Dropping the first 8 bits of a byte sequence's bit view drops its first byte.
pub proof fn lemma_bytes_bits_skip(s: Seq<u8>)
    requires
        s.len() >= 1,
    ensures
        bytes_bits(s).skip(8) == bytes_bits(s.skip(1)),
{
    let a = bytes_bits(s).skip(8);
    let b = bytes_bits(s.skip(1));
    assert forall|j: int| 0 <= j < 8 * (s.len() - 1) implies a[j] == b[j] by {
        assert((j + 8) / 8 == j / 8 + 1);
        assert((j + 8) % 8 == j % 8);
    }
    assert(a =~= b);
}

/// The first 8 bits of a byte sequence's bit view are the first byte's bits.
pub proof fn lemma_bytes_bits_first(s: Seq<u8>)
    requires
        s.len() >= 1,
    ensures
        bytes_bits(s).take(8) == val_bits(s[0] as nat, 8),
{
    assert(bytes_bits(s).take(8) =~= val_bits(s[0] as nat, 8));
}

/// The bit view of a byte sequence is the bit view of its little-endian value.
pub proof fn lemma_bytes_bits_as_val(s: Seq<u8>)
    ensures
        bytes_bits(s) == val_bits(le_val(s), (8 * s.len()) as nat),
    decreases s.len(),
{
    lemma2_to64();
    if s.len() == 0 {
        assert(bytes_bits(s) =~= val_bits(le_val(s), 0));
    } else {
        let n = s.len();
        let v = le_val(s);
        let q = le_val(s.skip(1));
        lemma_le_val_bound(s.skip(1));
        lemma_fundamental_div_mod_converse(v as int, 256, q as int, s[0] as int);
        lemma_val_bits_split(v, 8, (8 * n) as nat);
        lemma_val_bits_mod(v, 8, 8);
        lemma_bytes_bits_as_val(s.skip(1));
        lemma_bytes_bits_skip(s);
        lemma_bytes_bits_first(s);
        assert(bytes_bits(s) =~= bytes_bits(s).take(8) + bytes_bits(s).skip(8));
    }
}

/// Dropping the first byte of `le_bytes` divides the value by 256.
pub proof fn lemma_le_bytes_skip(v: nat, n: nat)
    requires
        n >= 1,
    ensures
        le_bytes(v, n).skip(1) == le_bytes(v / 256, (n - 1) as nat),
{
    let a = le_bytes(v, n).skip(1);
    let b = le_bytes(v / 256, (n - 1) as nat);
    assert forall|i: int| 0 <= i < n - 1 implies a[i] == b[i] by {
        lemma2_to64();
        lemma_pow2_pos((8 * i) as nat);
        lemma_div_denominator(v as int, 256, pow2((8 * i) as nat) as int);
        lemma_pow2_adds(8, (8 * i) as nat);
        assert(8 * (i + 1) == 8 + 8 * i);
    }
    assert(a =~= b);
}

/// Reading back the low `n` bytes of `v` yields `v % 2^(8n)`.
pub proof fn lemma_le_bytes_val(v: nat, n: nat)
    ensures
        le_val(le_bytes(v, n)) == v % pow2((8 * n) as nat),
    decreases n,
{
    lemma2_to64();
    if n == 0 {
        lemma_fundamental_div_mod_converse(v as int, 1, v as int, 0);
    } else {
        lemma_le_bytes_skip(v, n);
        lemma_le_bytes_val(v / 256, (n - 1) as nat);
        lemma_pow2_pos((8 * (n - 1)) as nat);
        lemma_mod_breakdown(v as int, 256, pow2((8 * (n - 1)) as nat) as int);
        lemma_pow2_adds(8, (8 * (n - 1)) as nat);
        assert(le_bytes(v, n)[0] == (v / pow2(0) % 256) as u8);
        lemma_div_basics(v as int);
        assert(8 * n == 8 + 8 * (n - 1));
    }
}

/// The bit view of the low `n` bytes of `v` is the low `8n` bits of `v`.
pub proof fn lemma_le_bytes_bits(v: nat, n: nat)
    ensures
        bytes_bits(le_bytes(v, n)) == val_bits(v, (8 * n) as nat),
{
    lemma_bytes_bits_as_val(le_bytes(v, n));
    lemma_le_bytes_val(v, n);
    lemma_val_bits_mod(v, (8 * n) as nat, (8 * n) as nat);
}

/// Bit views of byte sequences concatenate pointwise.
pub proof fn lemma_bytes_bits_concat(s: Seq<u8>, t: Seq<u8>)
    ensures
        bytes_bits(s + t) == bytes_bits(s) + bytes_bits(t),
    decreases s.len(),
{
    if s.len() == 0 {
        assert(s + t =~= t);
        assert(bytes_bits(s + t) =~= bytes_bits(s) + bytes_bits(t));
    } else {
        assert((s + t).skip(1) =~= s.skip(1) + t);
        lemma_bytes_bits_concat(s.skip(1), t);
        lemma_bytes_bits_skip(s + t);
        lemma_bytes_bits_first(s + t);
        lemma_bytes_bits_skip(s);
        lemma_bytes_bits_first(s);
        assert(bytes_bits(s + t) =~= bytes_bits(s + t).take(8) + bytes_bits(s + t).skip(8));
        assert(bytes_bits(s) =~= bytes_bits(s).take(8) + bytes_bits(s).skip(8));
        assert((s + t)[0] == s[0]);
        assert(bytes_bits(s + t) =~= bytes_bits(s) + bytes_bits(t));
    }
}



/// The VLQ encoding of `v`: base-128 groups, least-significant group
/// first, with bit 7 of every byte but the last flagging continuation.
pub open spec fn vlq_encode(v: nat) -> Seq<u8>
    decreases v,
{
    if v < 128 {
        seq![v as u8]
    } else {
        seq![(v % 128 + 128) as u8] + vlq_encode(v / 128)
    }
}

/// The value of a byte sequence read as base-128 groups (7 payload bits
/// per byte, least-significant group first), ignoring continuation bits.
pub open spec fn vlq_val(s: Seq<u8>) -> nat
    decreases s.len(),
{
    if s.len() == 0 {
        0
    } else {
        (s[0] % 128) as nat + 128 * vlq_val(s.skip(1))
    }
}

/// The number of consecutive bytes from position `p` on whose
/// continuation bit (bit 7) is set.
pub open spec fn cont_count(s: Seq<u8>, p: int) -> int
    decreases s.len() - p,
{
    if p < 0 || p >= s.len() || s[p] < 128 {
        0
    } else {
        1 + cont_count(s, p + 1)
    }
}

/// The zigzag map from signed to unsigned integers:
/// `0, -1, 1, -2, 2, ...` map to `0, 1, 2, 3, 4, ...`.
pub open spec fn zigzag(v: i64) -> u64 {
    if v >= 0 {
        (2 * v) as u64
    } else {
        (-2 * (v as int) - 1) as u64
    }
}

/// The inverse of the zigzag map.
pub open spec fn unzigzag(u: u64) -> i64 {
    if u % 2 == 0 {
        (u / 2) as i64
    } else {
        (-((u / 2) as int) - 1) as i64
    }
}

/// Decoding a VLQ encoding recovers the encoded value.
pub proof fn lemma_vlq_encode_val(v: nat)
    ensures
        vlq_val(vlq_encode(v)) == v,
    decreases v,
{
    if v < 128 {
        let e = vlq_encode(v);
        assert(e.skip(1) =~= Seq::<u8>::empty());
        assert(e[0] == v as u8);
        assert(vlq_val(e) == (e[0] % 128) as nat + 128 * vlq_val(e.skip(1)));
        assert(vlq_val(e.skip(1)) == 0);
    } else {
        let e = vlq_encode(v);
        lemma_vlq_encode_val(v / 128);
        assert(e.skip(1) =~= vlq_encode(v / 128));
        assert(e[0] == (v % 128 + 128) as u8);
        assert(v % 128 + 128 < 256);
        assert((v % 128 + 128) as u8 % 128 == v % 128);
        assert(vlq_val(e) == (e[0] % 128) as nat + 128 * vlq_val(e.skip(1)));
        assert(vlq_val(e) == v % 128 + 128 * (v / 128));
        lemma_fundamental_div_mod(v as int, 128);
    }
}

/// The shape of a VLQ encoding: at least one byte, every byte but the
/// last has its continuation bit set, and the last does not.
pub proof fn lemma_vlq_encode_shape(v: nat)
    ensures
        vlq_encode(v).len() >= 1,
        forall|i: int|
            0 <= i < vlq_encode(v).len() - 1 ==> vlq_encode(v)[i] >= 128,
        vlq_encode(v)[vlq_encode(v).len() - 1] < 128,
    decreases v,
{
    if v >= 128 {
        lemma_vlq_encode_shape(v / 128);
        assert forall|i: int| 0 <= i < vlq_encode(v).len() - 1 implies vlq_encode(v)[i]
            >= 128 by {
            if i >= 1 {
                assert(vlq_encode(v)[i] == vlq_encode(v / 128)[i - 1]);
            }
        }
    }
}

/// A VLQ encoding fits in `k` bytes exactly when the value fits in
/// `7 k` bits.
pub proof fn lemma_vlq_encode_len(v: nat, k: nat)
    requires
        k >= 1,
    ensures
        vlq_encode(v).len() <= k <==> v < pow2(7 * k),
    decreases k,
{
    lemma2_to64();
    if v < 128 {
        if k > 1 {
            lemma_pow2_strictly_increases(7, (7 * k) as nat);
        }
    } else {
        if k == 1 {
            lemma_vlq_encode_shape(v / 128);
            assert(vlq_encode(v).len() >= 2);
        } else {
            lemma_vlq_encode_len(v / 128, (k - 1) as nat);
            lemma_pow2_adds(7, (7 * (k - 1)) as nat);
            assert(7 * k == 7 + 7 * (k - 1));
            let c = pow2((7 * (k - 1)) as nat);
            lemma_pow2_pos((7 * (k - 1)) as nat);
            if v / 128 < c {
                assert(v < 128 * (v / 128) + 128);
                lemma_mul_inequality((v / 128 + 1) as int, c as int, 128);
                assert(128 * (v / 128) + 128 == 128 * (v / 128 + 1));
                assert(v < 128 * c);
            }
            if v < 128 * c {
                lemma_multiply_divide_lt(v as int, 128, c as int);
            }
        }
    }
}

/// The zigzag map keeps small magnitudes small: applying the inverse
/// map recovers the original signed value.
pub proof fn lemma_zigzag_round_trip(v: i64)
    ensures
        unzigzag(zigzag(v)) == v,
{
    if v >= 0 {
        assert((2 * v) as u64 % 2 == 0);
    } else {
        let u = (-2 * (v as int) - 1) as u64;
        assert(u == 2 * (-(v as int) - 1) + 1);
        assert(u % 2 == 1);
        assert(u / 2 == -(v as int) - 1);
    }
}

/// Round trip for bit-packed fields: a field of width `n` (1 to 32) that
/// holds the bits of a value `v < 2^n` anywhere in a byte stream reads
/// back as exactly `v`, with no loss or bleed into adjacent fields.
pub proof fn lemma_bit_packed_round_trip(data: Seq<u8>, p: int, v: u64, n: nat)
    requires
        1 <= n <= 32,
        v < pow2(n),
        0 <= p,
        p + n <= bytes_bits(data).len(),
        bytes_bits(data).subrange(p, p + n as int) == val_bits(v as nat, n),
    ensures
        bits_val(bytes_bits(data).subrange(p, p + n as int)) == v,
{
    lemma_bits_val_of_val_bits(v as nat, n);
    lemma_small_mod(v as nat, pow2(n));
}

/// Round trip for byte-aligned fields: the low `n` bytes of a value
/// `v < 2^(8n)`, written little-endian, read back as exactly `v`.
pub proof fn lemma_aligned_round_trip(v: nat, n: nat)
    requires
        v < pow2((8 * n) as nat),
    ensures
        le_val(le_bytes(v, n)) == v,
{
    lemma_le_bytes_val(v, n);
    lemma_small_mod(v, pow2((8 * n) as nat));
}

/// Round trip for VLQ integers: every value whose magnitude fits in 5
/// base-128 groups (35 payload bits) encodes in at most 5 bytes and
/// decodes back to itself.
pub proof fn lemma_vlq_round_trip(v: u64)
    requires
        (v as nat) < pow2(35),
    ensures
        vlq_encode(v as nat).len() <= 5,
        vlq_val(vlq_encode(v as nat)) == v,
{
    lemma_vlq_encode_len(v as nat, 5);
    lemma_vlq_encode_val(v as nat);
}

/// The bit view of a byte subrange is the corresponding bit subrange.
pub proof fn lemma_bytes_bits_subrange(s: Seq<u8>, a: int, b: int)
    requires
        0 <= a <= b <= s.len(),
    ensures
        bytes_bits(s.subrange(a, b)) == bytes_bits(s).subrange(8 * a, 8 * b),
{
    let x = bytes_bits(s.subrange(a, b));
    let y = bytes_bits(s).subrange(8 * a, 8 * b);
    assert forall|j: int| 0 <= j < 8 * (b - a) implies x[j] == y[j] by {
        assert((8 * a + j) / 8 == a + j / 8) by {
            lemma_hoist_over_denominator(j, a, 8);
        }
        assert((8 * a + j) % 8 == j % 8) by {
            lemma_mod_multiples_vanish(a, j, 8);
        }
    }
    assert(x =~= y);
}

/// Appending a byte to a base-128 group sequence adds its payload at
/// the next 7-bit position.
pub proof fn lemma_vlq_val_snoc(s: Seq<u8>, b: u8)
    ensures
        vlq_val(s.push(b)) == vlq_val(s) + (b % 128) * pow2((7 * s.len()) as nat),
    decreases s.len(),
{
    lemma2_to64();
    if s.len() == 0 {
        assert(s.push(b) =~= seq![b]);
        assert(seq![b].skip(1) =~= Seq::<u8>::empty());
        assert(vlq_val(Seq::<u8>::empty()) == 0);
        assert(vlq_val(s.push(b)) == (b % 128) as nat);
        assert(pow2((7 * s.len()) as nat) == 1);
        assert((b % 128) * pow2((7 * s.len()) as nat) == (b % 128) as nat)
            by (nonlinear_arith)
            requires pow2((7 * s.len()) as nat) == 1,
        ;
        assert(vlq_val(s.push(b)) == vlq_val(s) + (b % 128) * pow2((7 * s.len()) as nat));
    } else {
        let q = pow2((7 * (s.len() - 1)) as nat);
        assert(s.push(b).skip(1) =~= s.skip(1).push(b));
        lemma_vlq_val_snoc(s.skip(1), b);
        lemma_pow2_adds(7, (7 * (s.len() - 1)) as nat);
        assert(7 * s.len() == 7 + 7 * (s.len() - 1));
        assert(s.push(b)[0] == s[0]);
        assert(vlq_val(s.push(b)) == (s[0] % 128) as nat + 128 * vlq_val(s.skip(1).push(b)));
        assert(vlq_val(s.skip(1).push(b)) == vlq_val(s.skip(1)) + (b % 128) * q);
        lemma_mul_is_distributive_add(128, vlq_val(s.skip(1)) as int, ((b % 128) * q) as int);
        assert(128 * (vlq_val(s.skip(1)) + (b % 128) * q) == 128 * vlq_val(s.skip(1)) + 128 * ((b
            % 128) * q));
        lemma_mul_is_associative(128, (b % 128) as int, q as int);
        lemma_mul_is_associative((b % 128) as int, 128, q as int);
        lemma_mul_is_commutative(128, (b % 128) as int);
        assert(128 * ((b % 128) * q) == (b % 128) * (128 * q));
        assert(128 * q == pow2((7 * s.len()) as nat));
    }
}

/// A sequence of `k` base-128 groups has value below `2^(7k)`.
pub proof fn lemma_vlq_val_bound(s: Seq<u8>)
    ensures
        vlq_val(s) < pow2((7 * s.len()) as nat),
    decreases s.len(),
{
    lemma2_to64();
    if s.len() > 0 {
        lemma_vlq_val_bound(s.skip(1));
        lemma_pow2_adds(7, (7 * (s.len() - 1)) as nat);
        assert(7 * s.len() == 7 + 7 * (s.len() - 1));
    }
}

/// When the `k` bytes from `p` on all carry the continuation bit and the
/// byte after them (if any) does not, the continuation run is exactly `k`.
pub proof fn lemma_cont_count_eq(s: Seq<u8>, p: int, k: int)
    requires
        0 <= p,
        0 <= k,
        p + k <= s.len(),
        forall|j: int| p <= j < p + k ==> #[trigger] s[j] >= 128,
        p + k == s.len() || s[p + k] < 128,
    ensures
        cont_count(s, p) == k,
    decreases k,
{
    if k > 0 {
        assert(s[p] >= 128);
        lemma_cont_count_eq(s, p + 1, k - 1);
    }
}


/// When the `k` bytes from `p` on all carry the continuation bit, the
/// continuation run is at least `k`.
pub proof fn lemma_cont_count_ge(s: Seq<u8>, p: int, k: int)
    requires
        0 <= p,
        0 <= k,
        p + k <= s.len(),
        forall|j: int| p <= j < p + k ==> #[trigger] s[j] >= 128,
    ensures
        cont_count(s, p) >= k,
    decreases k,
{
    if k > 0 {
        assert(s[p] >= 128);
        assert(cont_count(s, p) == 1 + cont_count(s, p + 1));
        lemma_cont_count_ge(s, p + 1, k - 1);
    } else {
        lemma_cont_count_nonneg(s, p);
    }
}

/// A continuation run is never negative.
pub proof fn lemma_cont_count_nonneg(s: Seq<u8>, p: int)
    ensures
        cont_count(s, p) >= 0,
    decreases s.len() - p,
{
    if 0 <= p && p < s.len() && s[p] >= 128 {
        lemma_cont_count_nonneg(s, p + 1);
    }
}


/// A sequence of bit-packed fields, each a value with its declared
/// width, laid out back to back with no padding.
pub open spec fn packed_bits(fields: Seq<(u64, nat)>) -> Seq<bool>
    decreases fields.len(),
{
    if fields.len() == 0 {
        Seq::<bool>::empty()
    } else {
        val_bits(fields[0].0 as nat, fields[0].1) + packed_bits(fields.skip(1))
    }
}

/// The bit position at which field `i` starts within the packed layout.
pub open spec fn packed_start(fields: Seq<(u64, nat)>, i: int) -> int
    decreases i,
{
    if i <= 0 {
        0
    } else {
        packed_start(fields, i - 1) + fields[i - 1].1
    }
}

/// Field starts shift by the first field's width when it is dropped.
proof fn lemma_packed_start_skip(fields: Seq<(u64, nat)>, i: int)
    requires
        1 <= i <= fields.len(),
    ensures
        packed_start(fields, i) == fields[0].1 + packed_start(fields.skip(1), i - 1),
    decreases i,
{
    assert(packed_start(fields, 0) == 0);
    assert(packed_start(fields.skip(1), 0) == 0);
    if i > 1 {
        lemma_packed_start_skip(fields, i - 1);
        assert(fields.skip(1)[i - 2] == fields[i - 1]);
        assert(packed_start(fields.skip(1), i - 1) == packed_start(fields.skip(1), i - 2)
            + fields.skip(1)[i - 2].1);
    }
}

/// The packed layout is as long as the sum of the field widths.
proof fn lemma_packed_bits_len(fields: Seq<(u64, nat)>)
    ensures
        packed_bits(fields).len() == packed_start(fields, fields.len() as int),
    decreases fields.len(),
{
    if fields.len() > 0 {
        lemma_packed_bits_len(fields.skip(1));
        lemma_packed_start_skip(fields, fields.len() as int);
    }
}

/// A field start is never negative.
proof fn lemma_packed_start_nonneg(fields: Seq<(u64, nat)>, i: int)
    ensures
        packed_start(fields, i) >= 0,
    decreases i,
{
    if i > 0 {
        lemma_packed_start_nonneg(fields, i - 1);
    }
}

/// Every field lies inside the packed layout.
proof fn lemma_packed_start_bounds(fields: Seq<(u64, nat)>, i: int)
    requires
        0 <= i <= fields.len(),
    ensures
        0 <= packed_start(fields, i) <= packed_bits(fields).len(),
    decreases fields.len() - i,
{
    lemma_packed_start_nonneg(fields, i);
    if i == fields.len() {
        lemma_packed_bits_len(fields);
    } else {
        lemma_packed_start_bounds(fields, i + 1);
        assert(packed_start(fields, i + 1) == packed_start(fields, i) + fields[i].1);
    }
}

/// Field `i` occupies exactly its own bits of the packed layout.
proof fn lemma_packed_bits_field(fields: Seq<(u64, nat)>, i: int)
    requires
        0 <= i < fields.len(),
    ensures
        packed_start(fields, i) + fields[i].1 <= packed_bits(fields).len(),
        packed_bits(fields).subrange(
            packed_start(fields, i),
            packed_start(fields, i) + fields[i].1,
        ) == val_bits(fields[i].0 as nat, fields[i].1),
    decreases i,
{
    lemma_packed_start_bounds(fields, i + 1);
    lemma_packed_start_bounds(fields, i);
    assert(packed_start(fields, i + 1) == packed_start(fields, i) + fields[i].1);
    if i == 0 {
        assert(packed_bits(fields).subrange(0, fields[0].1 as int) =~= val_bits(
            fields[0].0 as nat,
            fields[0].1,
        ));
    } else {
        lemma_packed_bits_field(fields.skip(1), i - 1);
        lemma_packed_start_skip(fields, i);
        assert(fields.skip(1)[i - 1] == fields[i]);
        let s0 = packed_start(fields.skip(1), i - 1);
        lemma_packed_start_nonneg(fields.skip(1), i - 1);
        assert(packed_bits(fields).subrange(
            packed_start(fields, i),
            packed_start(fields, i) + fields[i].1,
        ) =~= packed_bits(fields.skip(1)).subrange(s0, s0 + fields[i].1));
    }
}

/// Round trip for arbitrarily long sequences of mixed-width bit-packed
/// fields: when a byte stream starts with the packed layout of the
/// fields (as the writer's contract produces, one `put_value` per
/// field), reading back the bits of field `i` yields exactly its value,
/// with no loss or bleed between adjacent fields.
pub proof fn lemma_packed_sequence_round_trip(fields: Seq<(u64, nat)>, data: Seq<u8>, i: int)
    requires
        forall|k: int|
            0 <= k < fields.len() ==> 1 <= (#[trigger] fields[k]).1 <= 32 && (fields[k].0 as nat)
                < pow2(fields[k].1),
        packed_bits(fields).len() <= bytes_bits(data).len(),
        bytes_bits(data).subrange(0, packed_bits(fields).len() as int) == packed_bits(fields),
        0 <= i < fields.len(),
    ensures
        packed_start(fields, i) + fields[i].1 <= bytes_bits(data).len(),
        bits_val(
            bytes_bits(data).subrange(
                packed_start(fields, i),
                packed_start(fields, i) + fields[i].1,
            ),
        ) == fields[i].0,
{
    lemma_packed_bits_field(fields, i);
    lemma_packed_start_bounds(fields, i);
    let a = packed_start(fields, i);
    let b = a + fields[i].1;
    assert(bytes_bits(data).subrange(a, b) =~= bytes_bits(data).subrange(
        0,
        packed_bits(fields).len() as int,
    ).subrange(a, b));
    lemma_bit_packed_round_trip(data, a, fields[i].0, fields[i].1);
}

/// Round trip for interleaved bit-packed and byte-aligned fields: when a
/// byte stream starts with the packed fields, zero-padded to a byte
/// boundary (as an aligned write flushes them), followed by the
/// little-endian bytes of an aligned value, every packed field and the
/// aligned value each read back exactly; neither kind corrupts the other.
pub proof fn lemma_interleaved_round_trip(
    fields: Seq<(u64, nat)>,
    data: Seq<u8>,
    aligned: nat,
    m: nat,
    i: int,
)
    requires
        forall|k: int|
            0 <= k < fields.len() ==> 1 <= (#[trigger] fields[k]).1 <= 32 && (fields[k].0 as nat)
                < pow2(fields[k].1),
        bytes_bits(data).subrange(0, packed_bits(fields).len() as int) == packed_bits(fields),
        m <= 8,
        aligned < pow2((8 * m) as nat),
        pad_to_byte(packed_bits(fields)).len() as int / 8 + m <= data.len(),
        data.subrange(
            pad_to_byte(packed_bits(fields)).len() as int / 8,
            pad_to_byte(packed_bits(fields)).len() as int / 8 + m,
        ) == le_bytes(aligned, m),
        0 <= i < fields.len(),
    ensures
        bits_val(
            bytes_bits(data).subrange(
                packed_start(fields, i),
                packed_start(fields, i) + fields[i].1,
            ),
        ) == fields[i].0,
        le_val(
            data.subrange(
                pad_to_byte(packed_bits(fields)).len() as int / 8,
                pad_to_byte(packed_bits(fields)).len() as int / 8 + m,
            ),
        ) == aligned,
{
    assert(packed_bits(fields).len() <= pad_to_byte(packed_bits(fields)).len());
    assert(pad_to_byte(packed_bits(fields)).len() as int / 8 <= data.len());
    assert(packed_bits(fields).len() <= bytes_bits(data).len());
    lemma_packed_sequence_round_trip(fields, data, i);
    lemma_aligned_round_trip(aligned, m);
}

/// Patch then read: a reserved region of the finished buffer that was
/// later patched with the little-endian bytes of a value reads back as
/// exactly that value, while `put_aligned_offset`'s contract leaves
/// every byte outside the region as the surrounding writes put it.
pub proof fn lemma_patch_then_read(data: Seq<u8>, off: int, n: nat, v: nat)
    requires
        0 <= off,
        off + n <= data.len(),
        v < pow2((8 * n) as nat),
        data.subrange(off, off + n) == le_bytes(v, n),
    ensures
        le_val(data.subrange(off, off + n)) == v,
{
    lemma_aligned_round_trip(v, n);
}


} // verus!
