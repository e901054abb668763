//! JSON numbers and their exact order.
//!
//! A number is a signed or unsigned 64-bit integer, or a double given by its
//! IEEE 754 bit pattern. No arithmetic on doubles is done here: the order
//! compares the exact values as integers scaled by a power of two.

use vstd::arithmetic::power2::{
    lemma2_to64, lemma2_to64_rest, lemma_pow2_adds, lemma_pow2_pos, lemma_pow2_unfold, pow2,
};
use vstd::prelude::*;

verus! {

/// The least power of two by which a double's value is scaled to an integer:
/// the value of a `Number` times two to this power is its `scaled()`.
pub const SCALE: u32 = 1074;

pub const TWO_POW_52: u64 = 0x10_0000_0000_0000;

pub const TWO_POW_63: u64 = 0x8000_0000_0000_0000;

/// A JSON number.
#[derive(Debug, Clone, Copy, PartialEq, Eq, Structural)]
pub enum Number {
    /// An integer that is not negative.
    PosInt(u64),
    /// An integer, by convention a negative one.
    NegInt(i64),
    /// A double, held as the 64 bits of its IEEE 754 encoding.
    Float(u64),
}

/// `x * p` orders as `x` does when `p` is positive.
pub proof fn lemma_scale_orders(x: int, y: int, p: int)
    by (nonlinear_arith)
    requires
        p > 0,
    ensures
        x < y <==> x * p < y * p,
        x == y <==> x * p == y * p,
{
}

impl Number {
    /// Whether the number is stored as an integer.
    pub open spec fn is_integer_spec(self) -> bool {
        !(self is Float)
    }

    /// Whether the sign of the number is negative.
    pub open spec fn negative(self) -> bool {
        match self {
            Number::PosInt(_) => false,
            Number::NegInt(n) => n < 0,
            Number::Float(bits) => bits >= TWO_POW_63,
        }
    }

    /// The magnitude is `significand() * 2^(shift() - SCALE)`.
    pub open spec fn significand(self) -> int {
        match self {
            Number::PosInt(n) => n as int,
            Number::NegInt(n) => if n < 0 {
                -(n as int)
            } else {
                n as int
            },
            Number::Float(bits) => {
                let low = (bits % TWO_POW_63) as int;
                if low / (TWO_POW_52 as int) == 0 {
                    low % (TWO_POW_52 as int)
                } else {
                    TWO_POW_52 as int + low % (TWO_POW_52 as int)
                }
            },
        }
    }

    /// The power of two by which the significand is scaled, see `significand`.
    pub open spec fn shift(self) -> nat {
        match self {
            Number::PosInt(_) => SCALE as nat,
            Number::NegInt(_) => SCALE as nat,
            Number::Float(bits) => {
                let low = (bits % TWO_POW_63) as int;
                if low / (TWO_POW_52 as int) == 0 {
                    0
                } else {
                    (low / (TWO_POW_52 as int) - 1) as nat
                }
            },
        }
    }

    /// The exact value of the number, times `2^SCALE`.
    pub open spec fn scaled(self) -> int {
        let m = self.significand() * pow2(self.shift());
        if self.negative() {
            -m
        } else {
            m
        }
    }

    /// Tells apart the ways in which one value can be written.
    pub open spec fn rank(self) -> int {
        match self {
            Number::PosInt(_) => 0,
            Number::NegInt(_) => 1,
            Number::Float(bits) => 2 + bits,
        }
    }

    /// The total order on numbers: by exact value, then by `rank`.
    pub open spec fn le(self, other: Number) -> bool {
        self.scaled() < other.scaled() || (self.scaled() == other.scaled() && self.rank()
            <= other.rank())
    }

    /// The integer `n` as a number.
    pub open spec fn of_int(n: i64) -> Number {
        if n < 0 {
            Number::NegInt(n)
        } else {
            Number::PosInt(n as u64)
        }
    }

    /// An integer's scaled value is the integer times `2^SCALE`.
    pub proof fn lemma_of_int_scaled(n: i64)
        ensures
            Number::of_int(n).scaled() == n * pow2(SCALE as nat),
    {
        let p = pow2(SCALE as nat) as int;
        assert((-(n as int)) * p == -(n * p)) by (nonlinear_arith);
    }

    /// Two numbers that precede each other are the same number.
    pub proof fn lemma_le_antisymmetric(a: Number, b: Number)
        requires
            a.le(b),
            b.le(a),
        ensures
            a == b,
    {
        let p = pow2(SCALE as nat) as int;
        lemma_pow2_pos(SCALE as nat);
        match (a, b) {
            (Number::PosInt(x), Number::PosInt(y)) => {
                lemma_scale_orders(x as int, y as int, p);
            },
            (Number::NegInt(x), Number::NegInt(y)) => {
                lemma_scale_orders(a.significand(), b.significand(), p);
                if (x < 0) != (y < 0) {
                    assert(a.significand() * p >= 0 && b.significand() * p >= 0)
                        by (nonlinear_arith)
                        requires
                            a.significand() >= 0,
                            b.significand() >= 0,
                            p > 0,
                    ;
                    lemma_scale_orders(0, a.significand(), p);
                    lemma_scale_orders(0, b.significand(), p);
                }
            },
            _ => {},
        }
    }

    /// Integers keep their order as numbers.
    pub proof fn lemma_of_int_monotonic(m: i64, n: i64)
        ensures
            Number::of_int(m).le(Number::of_int(n)) <==> m <= n,
    {
        let p = pow2(SCALE as nat) as int;
        lemma_pow2_pos(SCALE as nat);
        Number::lemma_of_int_scaled(m);
        Number::lemma_of_int_scaled(n);
        lemma_scale_orders(m as int, n as int, p);
        lemma_scale_orders(n as int, m as int, p);
    }

    /// Whether the number is stored as an integer.
    pub fn is_integer(&self) -> (b: bool)
        ensures
            b == self.is_integer_spec(),
    {
        match self {
            Number::Float(_) => false,
            _ => true,
        }
    }

    /// The integer `n` as a number.
    pub fn from_i64(n: i64) -> (r: Number)
        ensures
            r == Number::of_int(n),
    {
        if n < 0 {
            Number::NegInt(n)
        } else {
            Number::PosInt(n as u64)
        }
    }

    /// Sign, significand and shift of the number.
    fn parts(&self) -> (r: (bool, u64, u32))
        ensures
            r.0 == self.negative(),
            r.1 == self.significand(),
            r.2 == self.shift(),
            r.2 <= 2046,
    {
        match *self {
            Number::PosInt(n) => (false, n, SCALE),
            Number::NegInt(n) => {
                if n < 0 {
                    let wide: i128 = 0 - (n as i128);
                    (true, wide as u64, SCALE)
                } else {
                    (false, n as u64, SCALE)
                }
            },
            Number::Float(bits) => {
                let low = bits % TWO_POW_63;
                let exponent = low / TWO_POW_52;
                let fraction = low % TWO_POW_52;
                if exponent == 0 {
                    (bits >= TWO_POW_63, fraction, 0)
                } else {
                    (bits >= TWO_POW_63, TWO_POW_52 + fraction, (exponent - 1) as u32)
                }
            },
        }
    }

    /// -1, 0 or 1 as the exact value of `self` is below, at or above that of `other`.
    fn value_order(&self, other: &Number) -> (r: i8)
        ensures
            r == -1 || r == 0 || r == 1,
            r == -1 <==> self.scaled() < other.scaled(),
            r == 0 <==> self.scaled() == other.scaled(),
    {
        let (neg_a, m_a, t_a) = self.parts();
        let (neg_b, m_b, t_b) = other.parts();
        let magnitudes = compare_magnitudes(m_a, t_a, m_b, t_b);
        proof {
            lemma_pow2_pos(t_a as nat);
            lemma_pow2_pos(t_b as nat);
            lemma_scale_orders(0, m_a as int, pow2(t_a as nat) as int);
            lemma_scale_orders(0, m_b as int, pow2(t_b as nat) as int);
        }
        if neg_a {
            if neg_b {
                -magnitudes
            } else if m_a == 0 && m_b == 0 {
                0
            } else {
                -1
            }
        } else {
            if !neg_b {
                magnitudes
            } else if m_a == 0 && m_b == 0 {
                0
            } else {
                1
            }
        }
    }

    /// Whether `self` comes before `other` in the order on numbers, or is it.
    pub fn precedes(&self, other: &Number) -> (r: bool)
        ensures
            r == self.le(*other),
    {
        let values = self.value_order(other);
        if values < 0 {
            true
        } else if values > 0 {
            false
        } else {
            match (*self, *other) {
                (Number::PosInt(_), _) => true,
                (Number::NegInt(_), Number::PosInt(_)) => false,
                (Number::NegInt(_), _) => true,
                (Number::Float(x), Number::Float(y)) => x <= y,
                (Number::Float(_), _) => false,
            }
        }
    }
}

/// Two to the power `k`, for `k` below 64.
fn power_of_two(k: u32) -> (p: u128)
    requires
        k < 64,
    ensures
        p == pow2(k as nat),
        p <= 0x8000_0000_0000_0000,
{
    let mut p: u128 = 1;
    let mut i: u32 = 0;
    proof {
        lemma2_to64();
        lemma2_to64_rest();
    }
    while i < k
        invariant
            i <= k,
            k < 64,
            p == pow2(i as nat),
            p * pow2((k - i) as nat) == pow2(k as nat),
            pow2(63) == 0x8000_0000_0000_0000,
        decreases k - i,
    {
        proof {
            lemma_pow2_unfold((i + 1) as nat);
            lemma_pow2_unfold((k - i) as nat);
            lemma_pow2_pos((k - i - 1) as nat);
            lemma_pow2_adds(k as nat, (63 - k) as nat);
            lemma_pow2_pos((63 - k) as nat);
            assert(p * pow2((k - i) as nat) == (p * 2) * pow2((k - i - 1) as nat))
                by (nonlinear_arith)
                requires
                    pow2((k - i) as nat) == 2 * pow2((k - i - 1) as nat),
            ;
            assert(p * 2 <= pow2(k as nat)) by (nonlinear_arith)
                requires
                    (p * 2) * pow2((k - i - 1) as nat) == pow2(k as nat),
                    pow2((k - i - 1) as nat) >= 1,
                    p >= 0,
            ;
            assert(pow2(k as nat) <= pow2(63)) by (nonlinear_arith)
                requires
                    pow2(k as nat) * pow2((63 - k) as nat) == pow2(63),
                    pow2((63 - k) as nat) >= 1,
                    pow2(k as nat) >= 0,
            ;
        }
        p = p * 2;
        i += 1;
    }
    proof {
        assert(pow2(0) == 1);
        lemma_pow2_adds(k as nat, (63 - k) as nat);
        lemma_pow2_pos((63 - k) as nat);
        assert(pow2(k as nat) <= pow2(63)) by (nonlinear_arith)
            requires
                pow2(k as nat) * pow2((63 - k) as nat) == pow2(63),
                pow2((63 - k) as nat) >= 1,
                pow2(k as nat) >= 0,
        ;
    }
    p
}

/// Compares `m * 2^(s + k)` with `n * 2^s` by comparing `m * 2^k` with `n`.
proof fn lemma_compare_shifted(m: int, n: int, k: nat, s: nat)
    ensures
        m * pow2(k) < n <==> m * pow2(s + k) < n * pow2(s),
        m * pow2(k) == n <==> m * pow2(s + k) == n * pow2(s),
{
    lemma_pow2_adds(k, s);
    lemma_pow2_pos(s);
    assert(m * pow2(s + k) == (m * pow2(k)) * pow2(s)) by (nonlinear_arith)
        requires
            pow2(k + s) == pow2(k) * pow2(s),
    ;
    lemma_scale_orders(m * pow2(k), n, pow2(s) as int);
}

/// -1, 0 or 1 as `m * 2^k` is below, at or above `n`.
fn compare_shifted(m: u64, k: u32, n: u64) -> (r: i8)
    ensures
        r == -1 || r == 0 || r == 1,
        r == -1 <==> m * pow2(k as nat) < n,
        r == 0 <==> m * pow2(k as nat) == n,
{
    proof {
        lemma_pow2_pos(k as nat);
    }
    if m == 0 {
        assert(m * pow2(k as nat) == 0);
        return if n == 0 {
            0
        } else {
            -1
        };
    }
    if k >= 64 {
        proof {
            lemma2_to64();
            lemma_pow2_adds(64, (k - 64) as nat);
            lemma_pow2_pos((k - 64) as nat);
            assert(m * pow2(k as nat) >= 0x1_0000_0000_0000_0000) by (nonlinear_arith)
                requires
                    m >= 1,
                    pow2(k as nat) == pow2(64) * pow2((k - 64) as nat),
                    pow2(64) == 0x1_0000_0000_0000_0000,
                    pow2((k - 64) as nat) >= 1,
            ;
        }
        return 1;
    }
    let p = power_of_two(k);
    assert(m * p <= 0xffff_ffff_ffff_ffff * 0x8000_0000_0000_0000) by (nonlinear_arith)
        requires
            0 <= m <= 0xffff_ffff_ffff_ffff,
            0 <= p <= 0x8000_0000_0000_0000,
    ;
    let product: u128 = (m as u128) * p;
    let wide: u128 = n as u128;
    if product < wide {
        -1
    } else if product == wide {
        0
    } else {
        1
    }
}

/// -1, 0 or 1 as `m * 2^s` is below, at or above `n * 2^t`.
fn compare_magnitudes(m: u64, s: u32, n: u64, t: u32) -> (r: i8)
    requires
        s <= 2046,
        t <= 2046,
    ensures
        r == -1 || r == 0 || r == 1,
        r == -1 <==> m * pow2(s as nat) < n * pow2(t as nat),
        r == 0 <==> m * pow2(s as nat) == n * pow2(t as nat),
{
    if s >= t {
        proof {
            lemma_compare_shifted(m as int, n as int, (s - t) as nat, t as nat);
        }
        compare_shifted(m, s - t, n)
    } else {
        proof {
            lemma_compare_shifted(n as int, m as int, (t - s) as nat, s as nat);
        }
        let flipped = compare_shifted(n, t - s, m);
        -flipped
    }
}

} // verus!
