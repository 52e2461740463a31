//! Address families: the integers that hold the bits of an address.
//!
//! An address of `W` bits is an unsigned integer below `2^W`. Bit 0 of an
//! address, in the counting used here, is its most significant bit, so a
//! prefix of length `len` occupies the first `len` bits and leaves the last
//! `W - len` bits zero.

use vstd::prelude::*;
use vstd::arithmetic::power2::{pow2, lemma_pow2_pos, lemma_pow2_adds, lemma_pow2_unfold,
    lemma_pow2_strictly_increases, lemma2_to64};
use vstd::arithmetic::div_mod::{lemma_mod_bound, lemma_fundamental_div_mod};
use crate::path::{lemma_drop_bound};

verus! {

/// The `len` bits of the `w`-bit number `x` that follow its first `start`
/// bits.
pub open spec fn nibble_spec(x: nat, w: nat, start: nat, len: nat) -> nat
    recommends
        start + len <= w,
{
    (x / pow2((w - start - len) as nat)) % pow2(len)
}

/// The `w`-bit number `x` with all but its first `len` bits cleared.
pub open spec fn truncate_spec(x: nat, w: nat, len: nat) -> nat
    recommends
        len <= w,
{
    (x / pow2((w - len) as nat)) * pow2((w - len) as nat)
}

/// The last `w - len` bits of the `w`-bit number `x` are zero.
pub open spec fn is_truncated(x: nat, w: nat, len: nat) -> bool
    recommends
        len <= w,
{
    x % pow2((w - len) as nat) == 0
}

/// The `w`-bit number `x`, whose bits after the first `len` are zero, with
/// the `nibble_len` bits of `nibble` written behind those first `len` bits.
pub open spec fn add_nibble_spec(x: nat, w: nat, len: nat, nibble: nat, nibble_len: nat) -> nat
    recommends
        len + nibble_len <= w,
{
    x + nibble * pow2((w - len - nibble_len) as nat)
}

/// The two-to-the-128 that bounds every address.
pub proof fn lemma_pow2_128()
    ensures
        pow2(128) == 0x1_0000_0000_0000_0000_0000_0000_0000_0000,
        pow2(32) == 0x1_0000_0000,
{
    lemma2_to64();
    lemma_pow2_adds(64, 64);
    assert(0x1_0000_0000_0000_0000int * 0x1_0000_0000_0000_0000int
        == 0x1_0000_0000_0000_0000_0000_0000_0000_0000int) by (nonlinear_arith);
}

proof fn lemma_one_shl(e: nat)
    requires
        e < 128,
    ensures
        (1u128 << e) == pow2(e),
    decreases e,
{
    if e == 0 {
        assert(1u128 << 0 == 1) by (bit_vector);
        lemma2_to64();
    } else {
        let d = (e - 1) as nat;
        lemma_one_shl(d);
        lemma_pow2_unfold(e);
        let e128 = e as u128;
        let d128 = d as u128;
        assert((1u128 << e128) == 2 * (1u128 << d128)) by (bit_vector)
            requires
                0 < e128 < 128,
                d128 == e128 - 1,
        ;
    }
}

/// Two to the power `e`.
pub fn pow2_u128(e: u8) -> (r: u128)
    requires
        e < 128,
    ensures
        r == pow2(e as nat),
{
    proof {
        lemma_one_shl(e as nat);
    }
    1u128 << e
}

proof fn lemma_pow2_le(a: nat, b: nat)
    requires
        a <= b,
    ensures
        pow2(a) <= pow2(b),
{
    if a < b {
        lemma_pow2_strictly_increases(a, b);
    }
}

/// The nibble of `len` bits that follows the first `start` bits of the
/// `w`-bit number `x`.
pub fn nibble_of(x: u128, w: u8, start: u8, len: u8) -> (r: u32)
    requires
        start + len <= w <= 128,
        len <= 32,
    ensures
        r == nibble_spec(x as nat, w as nat, start as nat, len as nat),
{
    let shift: u8 = w - start - len;
    proof {
        lemma_pow2_128();
        lemma_pow2_pos(shift as nat);
        lemma_pow2_pos(len as nat);
        lemma_pow2_le(len as nat, 32);
        lemma_mod_bound((x as int) / (pow2(shift as nat) as int), pow2(len as nat) as int);
    }
    if shift == 128 {
        proof {
            assert(pow2(0) == 1) by {
                lemma2_to64();
            }
            assert((x as nat) / pow2(128) == 0);
        }
        0
    } else {
        let y: u128 = x / pow2_u128(shift);
        (y % pow2_u128(len)) as u32
    }
}

/// The `w`-bit number `x` with all but its first `len` bits cleared.
pub fn truncate_of(x: u128, w: u8, len: u8) -> (r: u128)
    requires
        len <= w <= 128,
    ensures
        r == truncate_spec(x as nat, w as nat, len as nat),
        r <= x,
        is_truncated(r as nat, w as nat, len as nat),
{
    let shift: u8 = w - len;
    proof {
        lemma_pow2_128();
        lemma_pow2_pos(shift as nat);
        lemma_fundamental_div_mod(x as int, pow2(shift as nat) as int);
        lemma_mod_bound(x as int, pow2(shift as nat) as int);
        let q = (x as int) / (pow2(shift as nat) as int);
        let p = pow2(shift as nat) as int;
        assert(q * p == p * q) by (nonlinear_arith);
        vstd::arithmetic::div_mod::lemma_mod_multiples_basic(q, p);
    }
    if shift == 128 {
        proof {
            assert((x as nat) / pow2(128) == 0);
        }
        0
    } else {
        let p: u128 = pow2_u128(shift);
        (x / p) * p
    }
}

/// The first `len` bits of the `w`-bit number `x`, moved to the low end.
pub fn head_of(x: u128, w: u8, len: u8) -> (r: u128)
    requires
        len <= w <= 128,
    ensures
        r == (x as nat) / pow2((w - len) as nat),
{
    let shift: u8 = w - len;
    if shift == 128 {
        proof {
            lemma_pow2_128();
            assert((x as nat) / pow2(128) == 0);
        }
        0
    } else {
        proof {
            lemma_pow2_pos(shift as nat);
        }
        x / pow2_u128(shift)
    }
}

/// The `w`-bit number `x` with `nibble` written behind its first `len` bits.
pub fn with_nibble(x: u128, w: u8, len: u8, nibble: u32, nibble_len: u8) -> (r: u128)
    requires
        len + nibble_len <= w <= 128,
        (x as nat) < pow2(w as nat),
        is_truncated(x as nat, w as nat, len as nat),
        (nibble as nat) < pow2(nibble_len as nat),
    ensures
        r == add_nibble_spec(x as nat, w as nat, len as nat, nibble as nat, nibble_len as nat),
        (r as nat) < pow2(w as nat),
        is_truncated(r as nat, w as nat, (len + nibble_len) as nat),
{
    let shift: u8 = w - len - nibble_len;
    proof {
        lemma_add_nibble(x as nat, w as nat, len as nat, nibble as nat, nibble_len as nat);
        lemma_pow2_128();
        lemma_pow2_le(w as nat, 128);
    }
    if shift == 128 {
        proof {
            assert(pow2(0) == 1) by {
                lemma2_to64();
            }
            assert(nibble == 0);
            assert(0 * pow2(128) == 0);
        }
        x
    } else {
        let p: u128 = pow2_u128(shift);
        proof {
            assert(nibble as nat * pow2(shift as nat) <= add_nibble_spec(
                x as nat,
                w as nat,
                len as nat,
                nibble as nat,
                nibble_len as nat,
            ));
        }
        x + (nibble as u128) * p
    }
}

proof fn lemma_add_nibble_arith(q: int, n: int, pk: int, ps: int, hi: int)
    by (nonlinear_arith)
    requires
        0 <= q < hi,
        0 <= n < pk,
        0 < ps,
    ensures
        q * (pk * ps) + n * ps == (q * pk + n) * ps,
        (q * pk + n) * ps < hi * (pk * ps),
        0 <= q * pk + n,
{
}

/// What writing a nibble behind the first `len` bits of a truncated number
/// gives: a number that fits again, and is truncated at the longer length.
pub proof fn lemma_add_nibble(x: nat, w: nat, len: nat, nibble: nat, nibble_len: nat)
    requires
        len + nibble_len <= w,
        x < pow2(w),
        is_truncated(x, w, len),
        nibble < pow2(nibble_len),
    ensures
        add_nibble_spec(x, w, len, nibble, nibble_len) < pow2(w),
        is_truncated(add_nibble_spec(x, w, len, nibble, nibble_len), w, len + nibble_len),
        add_nibble_spec(x, w, len, nibble, nibble_len) / pow2((w - len - nibble_len) as nat)
            == (x / pow2((w - len) as nat)) * pow2(nibble_len) + nibble,
{
    let s = (w - len - nibble_len) as nat;
    let t = (w - len) as nat;
    let q = x / pow2(t);
    lemma_pow2_pos(s);
    lemma_pow2_pos(t);
    lemma_pow2_pos(nibble_len);
    lemma_pow2_adds(nibble_len, s);
    lemma_pow2_adds(len, t);
    assert(nibble_len + s == t);
    assert(len + t == w);
    lemma_fundamental_div_mod(x as int, pow2(t) as int);
    assert(x == pow2(t) * q);
    assert(pow2(t) * q == q * (pow2(nibble_len) * pow2(s))) by (nonlinear_arith)
        requires
            pow2(t) == pow2(nibble_len) * pow2(s),
    ;
    lemma_drop_bound(x, len, t);
    lemma_add_nibble_arith(
        q as int,
        nibble as int,
        pow2(nibble_len) as int,
        pow2(s) as int,
        pow2(len) as int,
    );
    let r = add_nibble_spec(x, w, len, nibble, nibble_len);
    let m = q * pow2(nibble_len) + nibble;
    assert(r == m * pow2(s));
    assert(pow2(len) * (pow2(nibble_len) * pow2(s)) == pow2(w));
    vstd::arithmetic::div_mod::lemma_mod_multiples_basic(m as int, pow2(s) as int);
    vstd::arithmetic::div_mod::lemma_div_multiples_vanish(m as int, pow2(s) as int);
}

/// An integer type that holds the bits of an address.
pub trait AddressFamily: Copy + Sized {
    /// The number of bits of an address.
    spec fn width() -> nat;

    /// The address as a number.
    spec fn as_nat(self) -> nat;

    /// An address has at least one bit and at most 128.
    proof fn lemma_width()
        ensures
            1 <= Self::width() <= 128,
    ;

    /// An address fits in the width of its family.
    proof fn lemma_as_nat(self)
        ensures
            self.as_nat() < pow2(Self::width()),
    ;

    /// Addresses with the same number are the same address.
    proof fn lemma_injective(self, other: Self)
        requires
            self.as_nat() == other.as_nat(),
        ensures
            self == other,
    ;

    /// The number of bits of an address.
    fn bits() -> (r: u8)
        ensures
            r as nat == Self::width(),
    ;

    /// The address whose bits are all zero.
    fn zero() -> (r: Self)
        ensures
            r.as_nat() == 0,
    ;

    /// The address as a 128-bit number, in its low bits.
    fn into_u128(self) -> (r: u128)
        ensures
            r as nat == self.as_nat(),
    ;

    /// The address that a 128-bit number holds in its low bits.
    fn from_u128(x: u128) -> (r: Self)
        requires
            (x as nat) < pow2(Self::width()),
        ensures
            r.as_nat() == x as nat,
    ;

    /// The `len` bits of `net` that follow its first `start_bit` bits.
    fn get_nibble(net: Self, start_bit: u8, len: u8) -> (r: u32)
        requires
            start_bit + len <= Self::width(),
            len <= 32,
        ensures
            r == nibble_spec(net.as_nat(), Self::width(), start_bit as nat, len as nat),
    ;

    /// The address with all but its first `len` bits cleared.
    fn truncate_to_len(self, len: u8) -> (r: Self)
        requires
            len <= Self::width(),
        ensures
            r.as_nat() == truncate_spec(self.as_nat(), Self::width(), len as nat),
            is_truncated(r.as_nat(), Self::width(), len as nat),
    ;

    /// The address, which has only its first `len` bits set, with the
    /// `nibble_len` bits of `nibble` written behind them; and the new length.
    fn add_nibble(self, len: u8, nibble: u32, nibble_len: u8) -> (r: (Self, u8))
        requires
            len + nibble_len <= Self::width(),
            is_truncated(self.as_nat(), Self::width(), len as nat),
            (nibble as nat) < pow2(nibble_len as nat),
        ensures
            r.0.as_nat() == add_nibble_spec(
                self.as_nat(),
                Self::width(),
                len as nat,
                nibble as nat,
                nibble_len as nat,
            ),
            r.1 == len + nibble_len,
            is_truncated(r.0.as_nat(), Self::width(), (len + nibble_len) as nat),
    ;
}

impl AddressFamily for u32 {
    open spec fn width() -> nat {
        32
    }

    open spec fn as_nat(self) -> nat {
        self as nat
    }

    proof fn lemma_width() {
    }

    proof fn lemma_as_nat(self) {
        lemma_pow2_128();
    }

    proof fn lemma_injective(self, other: Self) {
    }

    fn bits() -> (r: u8) {
        32
    }

    fn zero() -> (r: Self) {
        0
    }

    fn into_u128(self) -> (r: u128) {
        self as u128
    }

    fn from_u128(x: u128) -> (r: Self) {
        proof {
            lemma_pow2_128();
        }
        x as u32
    }

    fn get_nibble(net: Self, start_bit: u8, len: u8) -> (r: u32) {
        nibble_of(net as u128, 32, start_bit, len)
    }

    fn truncate_to_len(self, len: u8) -> (r: Self) {
        truncate_of(self as u128, 32, len) as u32
    }

    fn add_nibble(self, len: u8, nibble: u32, nibble_len: u8) -> (r: (Self, u8)) {
        proof {
            lemma_pow2_128();
        }
        (with_nibble(self as u128, 32, len, nibble, nibble_len) as u32, len + nibble_len)
    }
}

impl AddressFamily for u128 {
    open spec fn width() -> nat {
        128
    }

    open spec fn as_nat(self) -> nat {
        self as nat
    }

    proof fn lemma_width() {
    }

    proof fn lemma_as_nat(self) {
        lemma_pow2_128();
    }

    proof fn lemma_injective(self, other: Self) {
    }

    fn bits() -> (r: u8) {
        128
    }

    fn zero() -> (r: Self) {
        0
    }

    fn into_u128(self) -> (r: u128) {
        self
    }

    fn from_u128(x: u128) -> (r: Self) {
        x
    }

    fn get_nibble(net: Self, start_bit: u8, len: u8) -> (r: u32) {
        nibble_of(net, 128, start_bit, len)
    }

    fn truncate_to_len(self, len: u8) -> (r: Self) {
        truncate_of(self, 128, len)
    }

    fn add_nibble(self, len: u8, nibble: u32, nibble_len: u8) -> (r: (Self, u8)) {
        proof {
            lemma_pow2_128();
        }
        (with_nibble(self, 128, len, nibble, nibble_len), len + nibble_len)
    }
}

} // verus!
