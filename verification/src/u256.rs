//! Minimal 256-bit unsigned integer for difficulty and work calculations.
//!
//! Held as four 64-bit limbs, the least significant first.

use vstd::arithmetic::power2::pow2;
use vstd::prelude::*;
use std::cmp::Ordering;
use crate::bytes;

verus! {

/// A 256-bit unsigned integer stored as four little-endian limbs.
#[derive(Clone, Copy, Eq, Debug)]
pub struct U256(pub [u64; 4]);

/// Two to the power 64: the weight of one limb against the one below it.
pub open spec fn limb_base() -> nat {
    0x1_0000_0000_0000_0000nat
}

/// Two to the power 128.
pub open spec fn limb_base2() -> nat {
    0x1_0000_0000_0000_0000_0000_0000_0000_0000nat
}

/// Two to the power 192.
pub open spec fn limb_base3() -> nat {
    0x1_0000_0000_0000_0000_0000_0000_0000_0000_0000_0000_0000_0000nat
}

/// Two to the power 256: one more than the largest value.
pub open spec fn u256_limit() -> nat {
    0x1_0000_0000_0000_0000_0000_0000_0000_0000_0000_0000_0000_0000_0000_0000_0000_0000nat
}

/// The number four limbs stand for.
pub open spec fn limbs_value(l: [u64; 4]) -> nat {
    (l[0] as int + l[1] as int * 0x1_0000_0000_0000_0000int
        + l[2] as int * 0x1_0000_0000_0000_0000_0000_0000_0000_0000int
        + l[3] as int * 0x1_0000_0000_0000_0000_0000_0000_0000_0000_0000_0000_0000_0000int) as nat
}

impl View for U256 {
    type V = nat;

    open spec fn view(&self) -> nat {
        limbs_value(self.0)
    }
}

/// Every value is below two to the power 256.
pub proof fn lemma_u256_bound(x: U256)
    ensures
        x@ < u256_limit(),
{
}

/// The value for a number below two to the power 256.
pub open spec fn u256_of(n: nat) -> U256 {
    U256(
        [
            (n % limb_base()) as u64,
            (n / limb_base() % limb_base()) as u64,
            (n / limb_base2() % limb_base()) as u64,
            (n / limb_base3() % limb_base()) as u64,
        ],
    )
}

/// A value is the one for its number.
pub proof fn lemma_u256_of(x: U256)
    ensures
        u256_of(x@) == x,
{
    let n = x@;
    assert(n / limb_base3() == x.0[3]);
    assert(n / limb_base2() == x.0[2] + x.0[3] * limb_base());
    assert(n / limb_base() == x.0[1] + x.0[2] * limb_base() + x.0[3] * limb_base2());
    assert(u256_of(n).0[0] == x.0[0]);
    assert(u256_of(n).0[1] == x.0[1]);
    assert(u256_of(n).0[2] == x.0[2]);
    assert(u256_of(n).0[3] == x.0[3]);
    assert(u256_of(n).0 =~= x.0);
}

pub proof fn lemma_pow2_values()
    ensures
        pow2(0) == 1,
        pow2(63) == 0x8000_0000_0000_0000,
        pow2(64) == limb_base(),
        pow2(128) == limb_base2(),
        pow2(192) == limb_base3(),
        pow2(256) == u256_limit(),
{
    vstd::arithmetic::power2::lemma2_to64();
    vstd::arithmetic::power2::lemma2_to64_rest();
    vstd::arithmetic::power2::lemma_pow2_adds(64, 64);
    vstd::arithmetic::power2::lemma_pow2_adds(128, 64);
    vstd::arithmetic::power2::lemma_pow2_adds(192, 64);
    assert(limb_base() * limb_base() == limb_base2());
    assert(limb_base2() * limb_base() == limb_base3());
    assert(limb_base3() * limb_base() == u256_limit());
}

/// Two to the power `n`, for an exponent that fits a limb.
fn limb_power(n: u32) -> (m: u64)
    requires
        n < 64,
    ensures
        m == pow2(n as nat),
{
    let mut m: u64 = 1;
    let mut i: u32 = 0;
    proof {
        lemma_pow2_values();
    }
    while i < n
        invariant
            i <= n < 64,
            m == pow2(i as nat),
        decreases n - i,
    {
        proof {
            vstd::arithmetic::power2::lemma_pow2_unfold((i + 1) as nat);
            vstd::arithmetic::power2::lemma_pow2_strictly_increases(i as nat, 63);
            lemma_pow2_values();
        }
        m = m * 2;
        i = i + 1;
    }
    m
}

/// The number of bits needed to write `v`.
fn bit_length(v: u64) -> (n: u32)
    ensures
        n <= 64,
        v < pow2(n as nat),
        n > 0 ==> v >= pow2((n - 1) as nat),
        n == 0 <==> v == 0,
{
    let mut n: u32 = 0;
    let mut rest: u64 = v;
    let ghost mut low: nat = 0;
    proof {
        lemma_pow2_values();
    }
    while rest > 0
        invariant
            n <= 64,
            v == rest * pow2(n as nat) + low,
            low < pow2(n as nat),
            n > 0 ==> v >= pow2((n - 1) as nat),
            n == 0 ==> rest == v,
            n > 0 ==> v > 0,
        decreases rest,
    {
        let ghost p = pow2(n as nat);
        proof {
            vstd::arithmetic::power2::lemma_pow2_unfold((n + 1) as nat);
            lemma_pow2_values();
            let half = (rest / 2) as int;
            let bit = (rest % 2) as int;
            assert(rest * p == half * (2 * p) + bit * p) by (nonlinear_arith)
                requires
                    rest == 2 * half + bit,
            ;
            assert(bit * p <= p) by (nonlinear_arith)
                requires
                    0 <= bit <= 1,
                    p >= 0,
            ;
            assert(rest * p >= p) by (nonlinear_arith)
                requires
                    rest >= 1,
                    p >= 0,
            ;
            assert(bit * p >= 0) by (nonlinear_arith)
                requires
                    0 <= bit,
                    p >= 0,
            ;
            if n >= 64 {
                vstd::arithmetic::power2::lemma_pow2_strictly_increases(63, n as nat);
                assert(n == 64);
            }
            low = (low + bit * p) as nat;
        }
        rest = rest / 2;
        n = n + 1;
    }
    n
}

impl PartialEq for U256 {
    fn eq(&self, other: &Self) -> (r: bool) {
        let r = self.0[0] == other.0[0] && self.0[1] == other.0[1] && self.0[2] == other.0[2]
            && self.0[3] == other.0[3];
        proof {
            if r {
                assert(self.0 =~= other.0);
            }
        }
        r
    }
}

impl vstd::std_specs::cmp::PartialEqSpecImpl for U256 {
    open spec fn obeys_eq_spec() -> bool {
        true
    }

    open spec fn eq_spec(&self, other: &Self) -> bool {
        *self == *other
    }
}

impl PartialOrd for U256 {
    fn partial_cmp(&self, other: &Self) -> (r: Option<Ordering>) {
        if self.below(other) {
            Some(Ordering::Less)
        } else if other.below(self) {
            Some(Ordering::Greater)
        } else {
            Some(Ordering::Equal)
        }
    }
}

impl vstd::std_specs::cmp::PartialOrdSpecImpl for U256 {
    open spec fn obeys_partial_cmp_spec() -> bool {
        true
    }

    open spec fn partial_cmp_spec(&self, other: &Self) -> Option<Ordering> {
        if self@ < other@ {
            Some(Ordering::Less)
        } else if self@ > other@ {
            Some(Ordering::Greater)
        } else {
            Some(Ordering::Equal)
        }
    }
}

impl U256 {
    pub fn zero() -> (r: U256)
        ensures
            r@ == 0,
    {
        U256([0, 0, 0, 0])
    }

    pub fn one() -> (r: U256)
        ensures
            r@ == 1,
    {
        U256([1, 0, 0, 0])
    }

    /// The largest value.
    pub fn max_value() -> (r: U256)
        ensures
            r@ == u256_limit() - 1,
    {
        U256([u64::MAX, u64::MAX, u64::MAX, u64::MAX])
    }

    pub fn from_u64(v: u64) -> (r: U256)
        ensures
            r@ == v,
    {
        U256([v, 0, 0, 0])
    }

    /// Whether `self` is the smaller number.
    fn below(&self, other: &U256) -> (r: bool)
        ensures
            r == (self@ < other@),
    {
        if self.0[3] != other.0[3] {
            self.0[3] < other.0[3]
        } else if self.0[2] != other.0[2] {
            self.0[2] < other.0[2]
        } else if self.0[1] != other.0[1] {
            self.0[1] < other.0[1]
        } else {
            self.0[0] < other.0[0]
        }
    }

    /// Construct from a big-endian 32-byte array.
    pub fn from_be_bytes(bytes: &[u8; 32]) -> (r: U256)
        ensures
            r@ == bytes::be_value(bytes@),
    {
        let l3 = bytes::read_be_u64(bytes, 0);
        let l2 = bytes::read_be_u64(bytes, 8);
        let l1 = bytes::read_be_u64(bytes, 16);
        let l0 = bytes::read_be_u64(bytes, 24);
        proof {
            lemma_be_limbs(bytes@);
        }
        U256([l0, l1, l2, l3])
    }

    /// Convert to a big-endian 32-byte array.
    pub fn to_be_bytes(&self) -> (r: [u8; 32])
        ensures
            bytes::be_value(r@) == self@,
    {
        let mut out: [u8; 32] = [0u8; 32];
        write_be_limb(&mut out, 24, self.0[0]);
        let ghost s0 = out@;
        write_be_limb(&mut out, 16, self.0[1]);
        let ghost s1 = out@;
        write_be_limb(&mut out, 8, self.0[2]);
        let ghost s2 = out@;
        write_be_limb(&mut out, 0, self.0[3]);
        assert(out@.subrange(24, 32) =~= s0.subrange(24, 32));
        assert(out@.subrange(16, 24) =~= s1.subrange(16, 24));
        assert(out@.subrange(8, 16) =~= s2.subrange(8, 16));
        proof {
            lemma_be_limbs(out@);
        }
        out
    }

    /// Count leading zero bits, 256 of them for zero.
    pub fn leading_zeros(&self) -> (r: u32)
        ensures
            r <= 256,
            self@ < pow2((256 - r) as nat),
            r < 256 ==> self@ >= pow2((255 - r) as nat),
    {
        proof {
            lemma_pow2_values();
        }
        if self.0[3] != 0 {
            let n = bit_length(self.0[3]);
            proof {
                lemma_top_limb(self.0[3], (self@ - self.0[3] * pow2(192)) as nat, n as nat, 192);
            }
            64 - n
        } else if self.0[2] != 0 {
            let n = bit_length(self.0[2]);
            proof {
                lemma_top_limb(self.0[2], (self@ - self.0[2] * pow2(128)) as nat, n as nat, 128);
            }
            128 - n
        } else if self.0[1] != 0 {
            let n = bit_length(self.0[1]);
            proof {
                lemma_top_limb(self.0[1], (self@ - self.0[1] * pow2(64)) as nat, n as nat, 64);
            }
            192 - n
        } else {
            let n = bit_length(self.0[0]);
            256 - n
        }
    }

    pub fn is_zero(&self) -> (r: bool)
        ensures
            r == (self@ == 0),
    {
        self.0[0] == 0 && self.0[1] == 0 && self.0[2] == 0 && self.0[3] == 0
    }

    /// The value as a machine integer, if it fits one.
    pub fn to_u64(&self) -> (r: Option<u64>)
        ensures
            match r {
                Some(v) => v == self@,
                None => self@ > u64::MAX,
            },
    {
        if self.0[1] == 0 && self.0[2] == 0 && self.0[3] == 0 {
            Some(self.0[0])
        } else {
            None
        }
    }

    /// Multiply by a limb; the second part is what does not fit.
    fn mul_limb(&self, m: u64) -> (r: (U256, u64))
        ensures
            r.0@ + r.1 * u256_limit() == self@ * m,
    {
        let base: u128 = 0x1_0000_0000_0000_0000;
        let mm: u128 = m as u128;
        proof {
            lemma_limb_product(self.0[0], m);
            lemma_limb_product(self.0[1], m);
            lemma_limb_product(self.0[2], m);
            lemma_limb_product(self.0[3], m);
        }
        let p0: u128 = (self.0[0] as u128) * mm;
        let p1: u128 = (self.0[1] as u128) * mm + p0 / base;
        let p2: u128 = (self.0[2] as u128) * mm + p1 / base;
        let p3: u128 = (self.0[3] as u128) * mm + p2 / base;
        let r = U256(
            [(p0 % base) as u64, (p1 % base) as u64, (p2 % base) as u64, (p3 % base) as u64],
        );
        let carry: u64 = (p3 / base) as u64;
        proof {
            let a = self.0[0] as int;
            let b = self.0[1] as int;
            let c = self.0[2] as int;
            let d = self.0[3] as int;
            let k1: int = 0x1_0000_0000_0000_0000int;
            let k2: int = 0x1_0000_0000_0000_0000_0000_0000_0000_0000int;
            let k3: int = 0x1_0000_0000_0000_0000_0000_0000_0000_0000_0000_0000_0000_0000int;
lemma_distribute(a, b, c, d, k1, k2, k3, m as int);
        }
        (r, carry)
    }

    /// Divide by a limb, rounding down.
    fn div_limb(&self, m: u64) -> (r: U256)
        requires
            m > 0,
        ensures
            r@ == self@ / (m as nat),
    {
        self.div_limb_under(0, m)
    }

    /// Divide by a limb a number of five limbs, of which `top` is the highest.
    fn div_limb_under(&self, top: u64, m: u64) -> (r: U256)
        requires
            top < m,
        ensures
            r@ == (top * u256_limit() + self@) / (m as int),
    {
        let base: u128 = 0x1_0000_0000_0000_0000;
        let mm: u128 = m as u128;
        let t: u128 = top as u128;
        let n3: u128 = t * base + self.0[3] as u128;
        proof {
            lemma_limb_quotient(t, self.0[3], mm);
        }
        let q3: u128 = n3 / mm;
        let r3: u128 = n3 % mm;
        let n2: u128 = r3 * base + self.0[2] as u128;
        proof {
            lemma_limb_quotient(r3, self.0[2], mm);
        }
        let q2: u128 = n2 / mm;
        let r2: u128 = n2 % mm;
        let n1: u128 = r2 * base + self.0[1] as u128;
        proof {
            lemma_limb_quotient(r2, self.0[1], mm);
        }
        let q1: u128 = n1 / mm;
        let r1: u128 = n1 % mm;
        let n0: u128 = r1 * base + self.0[0] as u128;
        proof {
            lemma_limb_quotient(r1, self.0[0], mm);
        }
        let q0: u128 = n0 / mm;
        let r = U256([q0 as u64, q1 as u64, q2 as u64, q3 as u64]);
        proof {
            vstd::arithmetic::div_mod::lemma_fundamental_div_mod(n3 as int, mm as int);
            vstd::arithmetic::div_mod::lemma_fundamental_div_mod(n2 as int, mm as int);
            vstd::arithmetic::div_mod::lemma_fundamental_div_mod(n1 as int, mm as int);
            vstd::arithmetic::div_mod::lemma_fundamental_div_mod(n0 as int, mm as int);
            let k1: int = 0x1_0000_0000_0000_0000int;
            let k2: int = 0x1_0000_0000_0000_0000_0000_0000_0000_0000int;
            let k3: int = 0x1_0000_0000_0000_0000_0000_0000_0000_0000_0000_0000_0000_0000int;
            let q = q0 + q1 * k1 + q2 * k2 + q3 * k3;
            lemma_distribute(
                q0 as int,
                q1 as int,
                q2 as int,
                q3 as int,
                k1,
                k2,
                k3,
                mm as int,
            );
            assert(mm * q == q * mm) by (nonlinear_arith);
            assert(mm * q0 == q0 * mm) by (nonlinear_arith);
            assert(mm * q1 == q1 * mm) by (nonlinear_arith);
            assert(mm * q2 == q2 * mm) by (nonlinear_arith);
            assert(mm * q3 == q3 * mm) by (nonlinear_arith);
            let rem = (n0 % mm) as int;
            let whole = top * u256_limit() + self@;
            assert(whole == mm * q + rem);
            vstd::arithmetic::div_mod::lemma_fundamental_div_mod_converse(
                whole,
                mm as int,
                q,
                rem,
            );
        }
        r
    }

    /// Multiply by one limb and divide by another, rounding down, if the
    /// outcome fits.
    pub fn mul_div_limb(&self, num: u64, den: u64) -> (r: Option<U256>)
        requires
            den > 0,
        ensures
            match r {
                Some(v) => v@ == (self@ * num) / (den as int),
                None => (self@ * num) / (den as int) >= u256_limit(),
            },
    {
        let (low, carry) = self.mul_limb(num);
        if carry >= den {
            proof {
                let l = u256_limit() as int;
                let n = self@ * num;
                assert(carry * l >= den * l) by (nonlinear_arith)
                    requires
                        carry >= den,
                        l > 0,
                ;
                assert(n >= den * l);
                vstd::arithmetic::div_mod::lemma_div_is_ordered(den * l, n, den as int);
                vstd::arithmetic::div_mod::lemma_div_multiples_vanish(l, den as int);
            }
            return None;
        }
        proof {
            assert(carry * u256_limit() + low@ == self@ * num);
        }
        Some(low.div_limb_under(carry, den))
    }

    /// Shift left by `n` bits, dropping what leaves the top.
    pub fn shl(&self, n: u32) -> (r: U256)
        ensures
            r@ == (self@ * pow2(n as nat)) % u256_limit(),
    {
        proof {
            lemma_pow2_values();
        }
        if n >= 256 {
            proof {
                let k = pow2((n - 256) as nat);
                vstd::arithmetic::power2::lemma_pow2_adds(256, (n - 256) as nat);
                assert(self@ * (u256_limit() * k) == (self@ * k) * u256_limit())
                    by (nonlinear_arith);
                vstd::arithmetic::div_mod::lemma_mod_multiples_basic(
                    (self@ * k) as int,
                    u256_limit() as int,
                );
            }
            return U256::zero();
        }
        let whole: u32 = n / 64;
        let part: u32 = n % 64;
        let m: u64 = limb_power(part);
        let (low, carry) = self.mul_limb(m);
        let r = if whole == 0 {
            low
        } else if whole == 1 {
            U256([0, low.0[0], low.0[1], low.0[2]])
        } else if whole == 2 {
            U256([0, 0, low.0[0], low.0[1]])
        } else {
            U256([0, 0, 0, low.0[0]])
        };
        proof {
            let b = pow2((64 * whole) as nat);
            vstd::arithmetic::power2::lemma_pow2_adds(part as nat, (64 * whole) as nat);
            assert(self@ * (m * b) == (self@ * m) * b) by (nonlinear_arith);
            let x = low@;
            // what the limb move drops is a multiple of the limit
            let dropped: int = if whole == 0 {
                0
            } else if whole == 1 {
                low.0[3] as int
            } else if whole == 2 {
                low.0[2] + low.0[3] * limb_base()
            } else {
                low.0[1] + low.0[2] * limb_base() + low.0[3] * limb_base2()
            };
            assert(x * b == r@ + dropped * u256_limit()) by {
                if whole == 0 {
                    assert(b == 1);
                    assert(x * b == x) by (nonlinear_arith)
                        requires
                            b == 1,
                    ;
                } else if whole == 1 {
                    assert(b == limb_base());
                    assert(x * b == x * limb_base());
                } else if whole == 2 {
                    assert(b == limb_base2());
                    assert(x * b == x * limb_base2());
                } else {
                    assert(whole == 3);
                    assert(b == limb_base3());
                    assert(x * b == x * limb_base3());
                }
            }
            let c = carry as int;
            let l = u256_limit() as int;
            assert((x + c * l) * b == x * b + (c * b) * l) by (nonlinear_arith);
            let t = dropped + c * b;
            assert(dropped * l + (c * b) * l == t * l) by (nonlinear_arith)
                requires
                    t == dropped + c * b,
            ;
            assert((self@ * m) * b == r@ + t * l);
            lemma_u256_bound(r);
            vstd::arithmetic::div_mod::lemma_fundamental_div_mod_converse(
                ((self@ * m) * b) as int,
                l,
                t,
                r@ as int,
            );
        }
        r
    }

    /// Shift right by `n` bits.
    pub fn shr(&self, n: u32) -> (r: U256)
        ensures
            r@ == self@ / pow2(n as nat),
    {
        proof {
            lemma_pow2_values();
            vstd::arithmetic::power2::lemma_pow2_pos(n as nat);
        }
        if n >= 256 {
            proof {
                lemma_u256_bound(*self);
                if n > 256 {
                    vstd::arithmetic::power2::lemma_pow2_strictly_increases(256, n as nat);
                }
                vstd::arithmetic::div_mod::lemma_basic_div(self@ as int, pow2(n as nat) as int);
            }
            return U256::zero();
        }
        let whole: u32 = n / 64;
        let part: u32 = n % 64;
        let moved = if whole == 0 {
            *self
        } else if whole == 1 {
            U256([self.0[1], self.0[2], self.0[3], 0])
        } else if whole == 2 {
            U256([self.0[2], self.0[3], 0, 0])
        } else {
            U256([self.0[3], 0, 0, 0])
        };
        let m: u64 = limb_power(part);
        proof {
            let b = pow2((64 * whole) as nat);
            vstd::arithmetic::power2::lemma_pow2_pos((64 * whole) as nat);
            vstd::arithmetic::power2::lemma_pow2_pos(part as nat);
            vstd::arithmetic::power2::lemma_pow2_adds((64 * whole) as nat, part as nat);
            let low: int = if whole == 0 {
                0
            } else if whole == 1 {
                self.0[0] as int
            } else if whole == 2 {
                self.0[0] + self.0[1] * limb_base()
            } else {
                self.0[0] + self.0[1] * limb_base() + self.0[2] * limb_base2()
            };
            assert(self@ == moved@ * b + low && 0 <= low < b) by {
                let m0 = moved.0[0] as int;
                let m1 = moved.0[1] as int;
                let m2 = moved.0[2] as int;
                let m3 = moved.0[3] as int;
                let k1 = limb_base() as int;
                let k2 = limb_base2() as int;
                let k3 = limb_base3() as int;
                lemma_distribute(m0, m1, m2, m3, k1, k2, k3, b as int);
                if whole == 0 {
                    assert(b == 1);
                } else if whole == 1 {
                    assert(b == limb_base());
                } else if whole == 2 {
                    assert(b == limb_base2());
                } else {
                    assert(whole == 3);
                    assert(b == limb_base3());
                }
            }
            vstd::arithmetic::div_mod::lemma_fundamental_div_mod_converse(
                self@ as int,
                b as int,
                moved@ as int,
                low,
            );
            vstd::arithmetic::div_mod::lemma_div_denominator(self@ as int, b as int, m as int);
        }
        moved.div_limb(m)
    }

    /// `self - other`, wrapping round below zero.
    pub fn wrapping_sub(&self, other: &U256) -> (r: U256)
        ensures
            r@ == (if self@ >= other@ {
                self@ - other@
            } else {
                self@ + u256_limit() - other@
            }),
    {
        let base: u128 = 0x1_0000_0000_0000_0000;
        let d0: u128 = base + self.0[0] as u128 - other.0[0] as u128;
        let b0: u128 = 1 - d0 / base;
        let d1: u128 = base + self.0[1] as u128 - other.0[1] as u128 - b0;
        let b1: u128 = 1 - d1 / base;
        let d2: u128 = base + self.0[2] as u128 - other.0[2] as u128 - b1;
        let b2: u128 = 1 - d2 / base;
        let d3: u128 = base + self.0[3] as u128 - other.0[3] as u128 - b2;
        U256([(d0 % base) as u64, (d1 % base) as u64, (d2 % base) as u64, (d3 % base) as u64])
    }

    /// Add; the second part tells whether the sum left the range.
    fn add_carry(&self, other: &U256) -> (r: (U256, bool))
        ensures
            r.0@ + (if r.1 {
                u256_limit()
            } else {
                0
            }) == self@ + other@,
    {
        let base: u128 = 0x1_0000_0000_0000_0000;
        let s0: u128 = self.0[0] as u128 + other.0[0] as u128;
        let s1: u128 = self.0[1] as u128 + other.0[1] as u128 + s0 / base;
        let s2: u128 = self.0[2] as u128 + other.0[2] as u128 + s1 / base;
        let s3: u128 = self.0[3] as u128 + other.0[3] as u128 + s2 / base;
        let r = U256(
            [(s0 % base) as u64, (s1 % base) as u64, (s2 % base) as u64, (s3 % base) as u64],
        );
        (r, s3 / base > 0)
    }

    /// `self + other`, wrapping round at the top.
    pub fn wrapping_add(&self, other: &U256) -> (r: U256)
        ensures
            r@ == (self@ + other@) % u256_limit(),
    {
        let (r, _carry) = self.add_carry(other);
        proof {
            lemma_u256_bound(r);
        }
        r
    }

    /// `self + other`, or nothing when the sum does not fit.
    pub fn checked_add(&self, other: &U256) -> (r: Option<U256>)
        ensures
            match r {
                Some(s) => s@ == self@ + other@,
                None => self@ + other@ >= u256_limit(),
            },
    {
        let (r, carry) = self.add_carry(other);
        proof {
            lemma_u256_bound(r);
        }
        if carry {
            None
        } else {
            Some(r)
        }
    }

    /// The bit at position `bit`.
    fn bit(&self, bit: u32) -> (r: bool)
        requires
            bit < 256,
        ensures
            r == ((self@ / pow2(bit as nat)) % 2 == 1),
    {
        let shifted = self.shr(bit);
        proof {
            lemma_parity(shifted);
        }
        shifted.0[0] % 2 == 1
    }

    /// Set a specific bit and return the new value. A position past the top
    /// changes nothing.
    pub fn with_bit_set(&self, bit: u32) -> (r: U256)
        ensures
            r@ == (if bit >= 256 || (self@ / pow2(bit as nat)) % 2 == 1 {
                self@
            } else {
                self@ + pow2(bit as nat)
            }),
    {
        if bit >= 256 || self.bit(bit) {
            return *self;
        }
        let p = U256::one().shl(bit);
        proof {
            let b = pow2(bit as nat);
            lemma_pow2_values();
            vstd::arithmetic::power2::lemma_pow2_pos(bit as nat);
            vstd::arithmetic::power2::lemma_pow2_strictly_increases(bit as nat, 256);
            vstd::arithmetic::div_mod::lemma_small_mod(b, u256_limit());
            assert(p@ == b);
            // the bit is clear, so there is room for it
            let above = self@ / b;
            vstd::arithmetic::div_mod::lemma_fundamental_div_mod(self@ as int, b as int);
            vstd::arithmetic::power2::lemma_pow2_adds(bit as nat, (256 - bit) as nat);
            let k = pow2((256 - bit) as nat);
            vstd::arithmetic::power2::lemma_pow2_unfold((256 - bit) as nat);
            lemma_u256_bound(*self);
            assert(above < k) by (nonlinear_arith)
                requires
                    above * b <= self@,
                    self@ < b * k,
                    b > 0,
            ;
            assert(k % 2 == 0);
            assert(above + 2 <= k);
            assert((above + 2) * b <= b * k) by (nonlinear_arith)
                requires
                    above + 2 <= k,
                    b > 0,
            ;
            assert((above + 2) * b == above * b + 2 * b) by (nonlinear_arith);
            vstd::arithmetic::div_mod::lemma_mod_pos_bound(self@ as int, b as int);
            assert(self@ + b < u256_limit());
            vstd::arithmetic::div_mod::lemma_small_mod((self@ + b) as nat, u256_limit());
        }
        self.wrapping_add(&p)
    }

    /// Divide, giving quotient and remainder.
    pub fn div_rem(&self, divisor: &U256) -> (r: (U256, U256))
        requires
            divisor@ != 0,
        ensures
            r.0@ == self@ / divisor@,
            r.1@ == self@ % divisor@,
    {
        let ghost d = divisor@;
        let ghost n = self@;
        if self.below(divisor) {
            proof {
                vstd::arithmetic::div_mod::lemma_basic_div(n as int, d as int);
                vstd::arithmetic::div_mod::lemma_small_mod(n, d);
            }
            return (U256::zero(), *self);
        }
        let mut quotient = U256::zero();
        let mut remainder = U256::zero();
        let mut bit: u32 = 256 - self.leading_zeros();
        proof {
            vstd::arithmetic::div_mod::lemma_basic_div(n as int, pow2(bit as nat) as int);
            assert(0 * d == 0);
        }
        while bit > 0
            invariant
                bit <= 256,
                n == self@,
                d == divisor@,
                d > 0,
                n / pow2(bit as nat) == quotient@ * d + remainder@,
                remainder@ < d,
            decreases bit,
        {
            let ghost high = n / pow2(bit as nat);
            let ghost q = quotient@;
            bit = bit - 1;
            let one = self.bit(bit);
            let ghost p = pow2(bit as nat);
            let ghost next = n / p;
            let ghost b: nat = if one {
                1
            } else {
                0
            };
            proof {
                vstd::arithmetic::power2::lemma_pow2_pos(bit as nat);
                vstd::arithmetic::power2::lemma_pow2_unfold((bit + 1) as nat);
                vstd::arithmetic::div_mod::lemma_div_denominator(n as int, p as int, 2);
                assert(next == 2 * high + b);
                assert(next <= n) by {
                    vstd::arithmetic::div_mod::lemma_div_is_ordered_by_denominator(
                        n as int,
                        1,
                        p as int,
                    );
                    assert(n / 1 == n);
                }
                lemma_u256_bound(*self);
                assert(2 * (q * d + remainder@) + b == (2 * q) * d + (2 * remainder@ + b))
                    by (nonlinear_arith);
                assert((2 * q) * d >= 2 * q) by (nonlinear_arith)
                    requires
                        d >= 1,
                        q >= 0,
                ;
            }
            remainder = remainder.double_plus(one);
            if !remainder.below(divisor) {
                proof {
                    assert((2 * q + 1) * d == (2 * q) * d + d) by (nonlinear_arith);
                    assert((2 * q + 1) * d >= 2 * q + 1) by (nonlinear_arith)
                        requires
                            d >= 1,
                            q >= 0,
                    ;
                }
                remainder = remainder.wrapping_sub(divisor);
                quotient = quotient.double_plus(true);
            } else {
                quotient = quotient.double_plus(false);
            }
        }
        proof {
            lemma_pow2_values();
            assert(n / 1 == n);
            vstd::arithmetic::div_mod::lemma_fundamental_div_mod_converse(
                n as int,
                d as int,
                quotient@ as int,
                remainder@ as int,
            );
        }
        (quotient, remainder)
    }

    /// Twice the value, plus one if asked.
    fn double_plus(&self, one: bool) -> (r: U256)
        requires
            2 * self@ + (if one {
                1int
            } else {
                0
            }) < u256_limit(),
        ensures
            r@ == 2 * self@ + (if one {
                1int
            } else {
                0
            }),
    {
        let doubled = self.wrapping_add(self);
        proof {
            vstd::arithmetic::div_mod::lemma_small_mod((2 * self@) as nat, u256_limit());
        }
        if one {
            proof {
                vstd::arithmetic::div_mod::lemma_small_mod((2 * self@ + 1) as nat, u256_limit());
            }
            doubled.wrapping_add(&U256::one())
        } else {
            doubled
        }
    }

    /// `self / other`, rounding down.
    pub fn div(&self, other: &U256) -> (r: U256)
        requires
            other@ != 0,
        ensures
            r@ == self@ / other@,
    {
        self.div_rem(other).0
    }

    /// `self % other`.
    pub fn rem(&self, other: &U256) -> (r: U256)
        requires
            other@ != 0,
        ensures
            r@ == self@ % other@,
    {
        self.div_rem(other).1
    }
}

proof fn lemma_distribute(a: int, b: int, c: int, d: int, k1: int, k2: int, k3: int, m: int)
    ensures
        (a + b * k1 + c * k2 + d * k3) * m == a * m + (b * m) * k1 + (c * m) * k2 + (d * m) * k3,
{
    assert((b * k1) * m == (b * m) * k1) by (nonlinear_arith);
    assert((c * k2) * m == (c * m) * k2) by (nonlinear_arith);
    assert((d * k3) * m == (d * m) * k3) by (nonlinear_arith);
    let x = b * k1;
    let y = c * k2;
    let z = d * k3;
    assert((a + x + y + z) * m == a * m + x * m + y * m + z * m) by (nonlinear_arith);
}

/// The lowest limb decides whether a number is odd.
proof fn lemma_parity(x: U256)
    ensures
        x@ % 2 == (x.0[0] as nat) % 2,
{
    let rest: int = x.0[1] * 0x8000_0000_0000_0000int + x.0[2]
        * 0x8000_0000_0000_0000_0000_0000_0000_0000int + x.0[3]
        * 0x8000_0000_0000_0000_0000_0000_0000_0000_0000_0000_0000_0000int;
    assert(x@ == x.0[0] + 2 * rest);
    vstd::arithmetic::div_mod::lemma_mod_multiples_vanish(rest, x.0[0] as int, 2);
}

proof fn lemma_limb_product(a: u64, m: u64)
    ensures
        0 <= a * m <= 0xffff_ffff_ffff_fffe_0000_0000_0000_0001int,
{
    assert(0 <= a * m <= 0xffff_ffff_ffff_fffe_0000_0000_0000_0001int) by (nonlinear_arith)
        requires
            0 <= a <= 0xffff_ffff_ffff_ffff,
            0 <= m <= 0xffff_ffff_ffff_ffff,
    ;
}

proof fn lemma_limb_quotient(r: u128, l: u64, m: u128)
    requires
        0 < m <= u64::MAX,
        r < m,
    ensures
        0 <= (r * 0x1_0000_0000_0000_0000int + l) / (m as int) < 0x1_0000_0000_0000_0000int,
{
    let n = r * 0x1_0000_0000_0000_0000int + l;
    let k: int = 0x1_0000_0000_0000_0000int;
    assert(n < m * k) by (nonlinear_arith)
        requires
            n == r * k + l,
            r + 1 <= m,
            l < k,
            k > 0,
    ;
    vstd::arithmetic::div_mod::lemma_div_pos_is_pos(n, m as int);
    vstd::arithmetic::div_mod::lemma_fundamental_div_mod(n, m as int);
    vstd::arithmetic::div_mod::lemma_mod_pos_bound(n, m as int);
    let q = n / (m as int);
    assert(q < k) by (nonlinear_arith)
        requires
            m * q <= n,
            n < m * k,
            m > 0,
    ;
}

/// How the length of a limb carries over to a number with that top limb.
proof fn lemma_top_limb(top: u64, low: nat, n: nat, weight: nat)
    requires
        0 < n <= 64,
        top < pow2(n),
        top >= pow2((n - 1) as nat),
        low < pow2(weight),
    ensures
        top * pow2(weight) + low < pow2(n + weight),
        top * pow2(weight) + low >= pow2((n + weight - 1) as nat),
{
    let w = pow2(weight);
    vstd::arithmetic::power2::lemma_pow2_adds(n, weight);
    vstd::arithmetic::power2::lemma_pow2_adds((n - 1) as nat, weight);
    let a = pow2(n);
    let b = pow2((n - 1) as nat);
    assert(top * w + low < a * w) by (nonlinear_arith)
        requires
            top + 1 <= a,
            low < w,
    ;
    assert(top * w >= b * w) by (nonlinear_arith)
        requires
            top >= b,
            w >= 0,
    ;
}

/// A 32-byte big-endian number from its four 8-byte parts.
proof fn lemma_be_limbs(s: Seq<u8>)
    requires
        s.len() == 32,
    ensures
        bytes::be_value(s) == bytes::be_value(s.subrange(24, 32)) + bytes::be_value(s.subrange(16, 24)) * limb_base()
            + bytes::be_value(s.subrange(8, 16)) * limb_base2() + bytes::be_value(
            s.subrange(0, 8),
        ) * limb_base3(),
{
    bytes::lemma_pow256_values();
    bytes::lemma_join_ranges(s, 0, 8, 16);
    bytes::lemma_join_ranges(s, 0, 16, 24);
    bytes::lemma_join_ranges(s, 0, 24, 32);
    assert(s.subrange(0, 32) =~= s);
    bytes::lemma_be_value_concat(s.subrange(0, 8), s.subrange(8, 16));
    bytes::lemma_be_value_concat(s.subrange(0, 16), s.subrange(16, 24));
    bytes::lemma_be_value_concat(s.subrange(0, 24), s.subrange(24, 32));
    let v0 = bytes::be_value(s.subrange(0, 8));
    let v1 = bytes::be_value(s.subrange(0, 16));
    let v2 = bytes::be_value(s.subrange(0, 24));
    assert(v1 == v0 * limb_base() + bytes::be_value(s.subrange(8, 16)));
    assert(v2 == v1 * limb_base() + bytes::be_value(s.subrange(16, 24)));
    assert(bytes::be_value(s) == v2 * limb_base() + bytes::be_value(s.subrange(24, 32)));
}

/// Write a limb as eight big-endian bytes.
fn write_be_limb(out: &mut [u8; 32], at: usize, v: u64)
    requires
        at + 8 <= 32,
    ensures
        bytes::be_value(final(out)@.subrange(at as int, at + 8)) == v,
        forall|j: int|
            0 <= j < 32 && !(at <= j < at + 8) ==> final(out)@[j] == old(out)@[j],
{
    let mut rest: u64 = v;
    let mut i: usize = 8;
    let ghost end: int = at + 8;
    proof {
        bytes::lemma_pow256_values();
        assert(out@.subrange(end, end) =~= Seq::empty());
        assert(bytes::be_value(out@.subrange(end, end)) == 0);
        assert(rest * 1 == rest);
    }
    while i > 0
        invariant
            i <= 8,
            end == at + 8,
            at + 8 <= 32,
            rest < bytes::pow256(i as nat),
            v == rest * bytes::pow256((8 - i) as nat) + bytes::be_value(out@.subrange(at + i, end)),
            forall|j: int| 0 <= j < 32 && !(at <= j < at + 8) ==> out@[j] == old(out)@[j],
        decreases i,
    {
        let ghost before = out@;
        i = i - 1;
        out[at + i] = (rest % 256) as u8;
        proof {
            let b = (rest % 256) as u8;
            let s = out@.subrange(at + i, end);
            let t = before.subrange(at + i + 1, end);
            assert(s =~= seq![b] + t);
            bytes::lemma_be_value_concat(seq![b], t);
            assert(seq![b].subrange(0, 0) =~= Seq::<u8>::empty());
            assert(bytes::be_value(seq![b]) == b) by {
                reveal_with_fuel(bytes::be_value, 2);
            }
            let p = bytes::pow256((7 - i) as nat);
            let q = (rest / 256) as int;
            assert(rest * p == q * (256 * p) + b * p) by (nonlinear_arith)
                requires
                    rest == 256 * q + b,
            ;
        }
        rest = rest / 256;
    }
    proof {
        assert(rest == 0);
        assert(rest * bytes::pow256(8) == 0);
    }
}

} // verus!
