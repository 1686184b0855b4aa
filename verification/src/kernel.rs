//! Verified number-theory kernel: modular exponentiation, extended-Euclidean
//! inversion, modular subtraction, integer and modular square roots, and
//! probabilistic prime generation, all over the trusted big-integer wrappers.

use vstd::prelude::*;
use vstd::arithmetic::power::pow;
use vstd::arithmetic::power2::pow2;
use crate::bigint::{ubig_value, ibig_value, big_from_u64, big_from_le, big_to_le, big_clone, big_add, big_sub, big_mul, big_div_rem, big_lt, big_eq, big_extended_gcd, ibig_mod_ubig, random_bytes};
use crate::result::Error;

verus! {

/// The product of `a` and `b` reduced modulo `m`.
pub open spec fn mul_mod(a: nat, b: nat, m: nat) -> nat {
    ((a * b) as int % (m as int)) as nat
}

/// Whether `a` has a multiplicative inverse modulo `m`.
pub open spec fn invertible(a: nat, m: nat) -> bool {
    exists|x: nat| mul_mod(a, x, m) == 1nat % m
}

/// Multiplies two reduced values and reduces the product.
pub fn mod_mul(a: &ibig::UBig, b: &ibig::UBig, m: &ibig::UBig) -> (r: ibig::UBig)
    requires
        ubig_value(*m) > 0,
    ensures
        ubig_value(r) == mul_mod(ubig_value(*a), ubig_value(*b), ubig_value(*m)),
        ubig_value(r) < ubig_value(*m),
{
    let t = big_mul(a, b);
    let (_, r) = big_div_rem(&t, m);
    proof {
        vstd::arithmetic::div_mod::lemma_mod_bound(
            (ubig_value(*a) * ubig_value(*b)) as int,
            ubig_value(*m) as int,
        );
    }
    r
}

/// Iterative square-and-multiply modular exponentiation:
/// returns `base^exponent mod modulus`, with `0^0 == 1`.
pub fn pow_mod(base: &ibig::UBig, exponent: &ibig::UBig, modulus: &ibig::UBig) -> (r: ibig::UBig)
    requires
        ubig_value(*modulus) > 0,
    ensures
        ubig_value(r) as int == pow(ubig_value(*base) as int, ubig_value(*exponent)) % (
        ubig_value(*modulus) as int),
        ubig_value(r) < ubig_value(*modulus),
{
    let ghost b0 = ubig_value(*base) as int;
    let ghost e0 = ubig_value(*exponent);
    let ghost m = ubig_value(*modulus) as int;
    let one = big_from_u64(1);
    let two = big_from_u64(2);
    let mut result = {
        let (_, r) = big_div_rem(&one, modulus);
        r
    };
    let mut b = {
        let (_, r) = big_div_rem(base, modulus);
        r
    };
    let mut e = big_clone(exponent);
    proof {
        vstd::arithmetic::div_mod::lemma_mod_bound(1, m);
        vstd::arithmetic::div_mod::lemma_mod_bound(b0, m);
        lemma_pow_mod_invariant_init(b0, e0, m);
    }
    while !big_eq(&e, &big_from_u64(0))
        invariant
            m == ubig_value(*modulus),
            m > 0,
            ubig_value(one) == 1,
            ubig_value(two) == 2,
            ubig_value(result) < m,
            ubig_value(b) < m,
            (ubig_value(result) * pow(ubig_value(b) as int, ubig_value(e))) % m == pow(b0, e0)
                % m,
        decreases ubig_value(e),
    {
        let ghost r_old = ubig_value(result) as int;
        let ghost b_old = ubig_value(b) as int;
        let ghost e_old = ubig_value(e);
        let (q, rem) = big_div_rem(&e, &two);
        let odd = big_eq(&rem, &one);
        if odd {
            result = mod_mul(&result, &b, modulus);
        }
        b = mod_mul(&b, &b, modulus);
        e = q;
        proof {
            vstd::arithmetic::div_mod::lemma_fundamental_div_mod(e_old as int, 2);
            lemma_pow_mod_invariant_step(r_old, b_old, e_old, m, odd, ubig_value(result) as int);
        }
    }
    proof {
        vstd::arithmetic::power::lemma_pow0(ubig_value(b) as int);
        vstd::arithmetic::mul::lemma_mul_basics(ubig_value(result) as int);
        vstd::arithmetic::div_mod::lemma_small_mod(ubig_value(result), m as nat);
    }
    result
}

proof fn lemma_pow_mod_invariant_init(b0: int, e0: nat, m: int)
    requires
        m > 0,
        b0 >= 0,
    ensures
        ((1int % m) * pow(b0 % m, e0)) % m == pow(b0, e0) % m,
{
    vstd::arithmetic::power::lemma_pow_mod_noop(b0, e0, m);
    vstd::arithmetic::div_mod::lemma_mul_mod_noop_left(1, pow(b0 % m, e0), m);
    vstd::arithmetic::mul::lemma_mul_basics(pow(b0 % m, e0));
    vstd::arithmetic::div_mod::lemma_mul_mod_noop_right(1, pow(b0 % m, e0), m);
}

/// One step of square-and-multiply preserves the accumulator relation.
proof fn lemma_pow_mod_invariant_step(r: int, b: int, e: nat, m: int, odd: bool, r_new: int)
    requires
        m > 0,
        0 <= r < m,
        0 <= b < m,
        odd == (e % 2 == 1),
        r_new == (if odd {
            (r * b) % m
        } else {
            r
        }),
    ensures
        (r_new * pow((b * b) % m, e / 2)) % m == (r * pow(b, e)) % m,
{
    let q = e / 2;
    let bb = (b * b) % m;
    vstd::arithmetic::power::lemma_pow_mod_noop(b * b, q, m);
    // pow(b*b, q) == pow(b, 2*q)
    vstd::arithmetic::power::lemma_square_is_pow2(b);
    vstd::arithmetic::power::lemma_pow_multiplies(b, 2, q);
    assert(pow(bb, q) % m == pow(b, 2 * q) % m);
    vstd::arithmetic::div_mod::lemma_fundamental_div_mod(e as int, 2);
    if odd {
        assert(e == 2 * q + 1);
        // (r_new * pow(bb, q)) % m == (r * b * pow(b, 2q)) % m
        vstd::arithmetic::div_mod::lemma_mul_mod_noop_general(r_new, pow(bb, q), m);
        assert((r_new * pow(bb, q)) % m == (r_new * (pow(bb, q) % m)) % m);
        vstd::arithmetic::div_mod::lemma_mul_mod_noop_general(r_new, pow(b, 2 * q), m);
        assert((r_new * (pow(b, 2 * q) % m)) % m == (r_new * pow(b, 2 * q)) % m);
        vstd::arithmetic::div_mod::lemma_mul_mod_noop_general(r * b, pow(b, 2 * q), m);
        assert(((r * b) % m * pow(b, 2 * q)) % m == ((r * b) * pow(b, 2 * q)) % m);
        // (r * b) * pow(b, 2q) == r * pow(b, e)
        vstd::arithmetic::power::lemma_pow1(b);
        vstd::arithmetic::power::lemma_pow_adds(b, 1, 2 * q);
        assert(pow(b, e) == pow(b, 1 + 2 * q));
        assert(pow(b, 1 + 2 * q) == pow(b, 1) * pow(b, 2 * q));
        assert((r * b) * pow(b, 2 * q) == r * (b * pow(b, 2 * q))) by {
            vstd::arithmetic::mul::lemma_mul_is_associative(r, b, pow(b, 2 * q));
        }
        assert(b * pow(b, 2 * q) == pow(b, e));
    } else {
        assert(e == 2 * q);
        vstd::arithmetic::div_mod::lemma_mul_mod_noop_general(r, pow(bb, q), m);
        assert((r * pow(bb, q)) % m == (r * (pow(bb, q) % m)) % m);
        vstd::arithmetic::div_mod::lemma_mul_mod_noop_general(r, pow(b, 2 * q), m);
        assert((r * (pow(b, 2 * q) % m)) % m == (r * pow(b, 2 * q)) % m);
    }
}

/// Modular subtraction: `(a - b) mod m`, as the least non-negative residue.
pub fn mod_sub(a: &ibig::UBig, b: &ibig::UBig, m: &ibig::UBig) -> (r: ibig::UBig)
    requires
        ubig_value(*m) > 0,
    ensures
        ubig_value(r) as int == (ubig_value(*a) - ubig_value(*b)) % (ubig_value(*m) as int),
        ubig_value(r) < ubig_value(*m),
{
    let ghost av = ubig_value(*a) as int;
    let ghost bv = ubig_value(*b) as int;
    let ghost mv = ubig_value(*m) as int;
    let (_, ra) = big_div_rem(a, m);
    let (_, rb) = big_div_rem(b, m);
    proof {
        vstd::arithmetic::div_mod::lemma_mod_bound(av, mv);
        vstd::arithmetic::div_mod::lemma_mod_bound(bv, mv);
        vstd::arithmetic::div_mod::lemma_sub_mod_noop(av, bv, mv);
    }
    if big_lt(&ra, &rb) {
        let t = big_sub(m, &rb);
        let diff = big_add(&ra, &t);
        proof {
            vstd::arithmetic::div_mod::lemma_mod_add_multiples_vanish(av % mv - bv % mv, mv);
            vstd::arithmetic::div_mod::lemma_small_mod(ubig_value(diff), mv as nat);
        }
        diff
    } else {
        let diff = big_sub(&ra, &rb);
        proof {
            vstd::arithmetic::div_mod::lemma_small_mod(ubig_value(diff), mv as nat);
        }
        diff
    }
}

/// Modular inverse through the extended Euclidean algorithm: `Ok(v)` with
/// `a*v == 1 (mod m)` exactly when `a` is invertible modulo `m`, and
/// `Err(MathError)` exactly when it is not.
pub fn mod_inverse(a: &ibig::UBig, m: &ibig::UBig) -> (r: Result<ibig::UBig, Error>)
    requires
        ubig_value(*m) > 0,
    ensures
        (match r {
            Ok(v) => ubig_value(v) < ubig_value(*m) && mul_mod(
                ubig_value(*a),
                ubig_value(v),
                ubig_value(*m),
            ) == 1nat % ubig_value(*m) && invertible(ubig_value(*a), ubig_value(*m)),
            Err(e) => e == Error::MathError && !invertible(ubig_value(*a), ubig_value(*m)),
        }),
{
    let ghost av = ubig_value(*a) as int;
    let ghost mv = ubig_value(*m) as int;
    let (g, u, v) = big_extended_gcd(a, m);
    let one = big_from_u64(1);
    if big_eq(&g, &one) {
        let inv = ibig_mod_ubig(&u, m);
        proof {
            let uv = ibig_value(u);
            let vv = ibig_value(v);
            let iv = ubig_value(inv) as int;
            vstd::arithmetic::div_mod::lemma_mod_bound(uv, mv);
            // a * (u mod m) == a * u  (mod m)
            vstd::arithmetic::div_mod::lemma_mul_mod_noop_right(av, uv, mv);
            assert((av * iv) % mv == (av * uv) % mv);
            // Bezout: u*a + v*m == 1, so a*u == 1 - v*m == 1  (mod m)
            assert(av * uv == 1 - vv * mv) by {
                vstd::arithmetic::mul::lemma_mul_is_commutative(uv, av);
            }
            assert(mv * (-vv) == -(vv * mv)) by {
                vstd::arithmetic::mul::lemma_mul_unary_negation(vv, mv);
                vstd::arithmetic::mul::lemma_mul_is_commutative(mv, -vv);
                vstd::arithmetic::mul::lemma_mul_is_commutative(vv, mv);
            }
            vstd::arithmetic::div_mod::lemma_mod_multiples_vanish(-vv, 1, mv);
            assert((mv * (-vv) + 1) % mv == 1int % mv);
            assert(av * uv == mv * (-vv) + 1);
            assert((av * uv) % mv == 1int % mv);
            assert(mul_mod(ubig_value(*a), ubig_value(inv), ubig_value(*m)) == 1nat % ubig_value(
                *m,
            ));
        }
        Ok(inv)
    } else {
        proof {
            let gv = ubig_value(g);
            assert(gv >= 2);
            assert(ubig_value(*m) >= 2);
            lemma_common_divisor_blocks_inverse(ubig_value(*a), ubig_value(*m), gv);
        }
        Err(Error::MathError)
    }
}

/// A common divisor of two or more rules out a multiplicative inverse.
proof fn lemma_common_divisor_blocks_inverse(a: nat, m: nat, g: nat)
    requires
        g >= 2,
        m >= 2,
        a as int % g as int == 0,
        m as int % g as int == 0,
    ensures
        !invertible(a, m),
{
    assert forall|x: nat| mul_mod(a, x, m) != 1nat % m by {
        if mul_mod(a, x, m) == 1nat % m {
            vstd::arithmetic::div_mod::lemma_small_mod(1, m);
            let ax = (a * x) as int;
            vstd::arithmetic::div_mod::lemma_fundamental_div_mod(ax, m as int);
            let q2 = ax / m as int;
            assert(ax == m * q2 + 1);
            vstd::arithmetic::div_mod::lemma_fundamental_div_mod(a as int, g as int);
            let a1 = a as int / g as int;
            assert(a as int == g * a1);
            vstd::arithmetic::div_mod::lemma_fundamental_div_mod(m as int, g as int);
            let m1 = m as int / g as int;
            assert(m as int == g * m1);
            assert(ax == (g * a1) * x);
            assert((g * a1) * x == g * (a1 * x)) by {
                vstd::arithmetic::mul::lemma_mul_is_associative(g as int, a1, x as int);
            }
            assert(m * q2 == (g * m1) * q2);
            assert((g * m1) * q2 == g * (m1 * q2)) by {
                vstd::arithmetic::mul::lemma_mul_is_associative(g as int, m1, q2);
            }
            let t = a1 * x - m1 * q2;
            assert(g * t == g * (a1 * x) - g * (m1 * q2)) by {
                vstd::arithmetic::mul::lemma_mul_is_distributive_sub(g as int, a1 * x, m1 * q2);
            }
            assert(g * t == 1);
            if t >= 1 {
                assert(1 * g as int <= t * g as int) by {
                    vstd::arithmetic::mul::lemma_mul_inequality(1, t, g as int);
                }
                assert(g * t == t * g) by {
                    vstd::arithmetic::mul::lemma_mul_is_commutative(g as int, t);
                }
                assert(false);
            } else {
                assert(g * (-t) >= 0) by {
                    vstd::arithmetic::mul::lemma_mul_nonnegative(g as int, -t);
                }
                assert(g * (-t) == -(g * t)) by {
                    vstd::arithmetic::mul::lemma_mul_unary_negation(g as int, t);
                    vstd::arithmetic::mul::lemma_mul_is_commutative(g as int, t);
                    vstd::arithmetic::mul::lemma_mul_is_commutative(g as int, -t);
                }
                assert(false);
            }
        }
    }
}


/// The square of a natural number.
pub open spec fn square(y: nat) -> nat {
    y * y
}

/// Two raised to the `k`-th power, as a big integer.
pub fn big_pow2(k: usize) -> (r: ibig::UBig)
    ensures
        ubig_value(r) == pow2(k as nat),
{
    let two = big_from_u64(2);
    let mut r = big_from_u64(1);
    let mut i: usize = 0;
    proof {
        vstd::arithmetic::power2::lemma2_to64();
    }
    while i < k
        invariant
            i <= k,
            ubig_value(r) == pow2(i as nat),
            ubig_value(two) == 2,
        decreases k - i,
    {
        r = big_mul(&r, &two);
        proof {
            vstd::arithmetic::power2::lemma_pow2_adds(i as nat, 1);
            vstd::arithmetic::power2::lemma2_to64();
        }
        i = i + 1;
    }
    r
}

/// Splits `n` as `2^(s-1) * q` with `q` odd; the returned exponent is the
/// number of halvings plus one.  `None` only when the exponent cannot be
/// counted in a machine word, which takes an astronomically large argument.
pub fn get_k_s(n: &ibig::UBig) -> (r: Option<(usize, ibig::UBig)>)
    requires
        ubig_value(*n) >= 1,
    ensures
        (match r {
            Some(p) => 1 <= p.0 && ubig_value(p.1) % 2 == 1 && pow2((p.0 - 1) as nat)
                * ubig_value(p.1) == ubig_value(*n) && ubig_value(p.1) >= 1,
            None => pow2((usize::MAX - 1) as nat) <= ubig_value(*n),
        }),
{
    let two = big_from_u64(2);
    let zero = big_from_u64(0);
    let mut exp: usize = 1;
    let mut cur = big_clone(n);
    proof {
        vstd::arithmetic::power2::lemma2_to64();
        vstd::arithmetic::mul::lemma_mul_basics(ubig_value(cur) as int);
    }
    loop
        invariant
            exp >= 1,
            ubig_value(cur) >= 1,
            ubig_value(two) == 2,
            ubig_value(zero) == 0,
            pow2((exp - 1) as nat) * ubig_value(cur) == ubig_value(*n),
        decreases ubig_value(cur),
    {
        let (q, rem) = big_div_rem(&cur, &two);
        proof {
            vstd::arithmetic::div_mod::lemma_mod_bound(ubig_value(cur) as int, 2);
            vstd::arithmetic::div_mod::lemma_fundamental_div_mod(ubig_value(cur) as int, 2);
        }
        if !big_eq(&rem, &zero) {
            return Some((exp, cur));
        }
        if exp == usize::MAX {
            proof {
                let pw = pow2((usize::MAX - 1) as nat) as int;
                let cv = ubig_value(cur) as int;
                assert(1 * pw <= cv * pw) by {
                    vstd::arithmetic::mul::lemma_mul_inequality(1, cv, pw);
                }
                assert(1 * pw == pw && cv * pw == pw * cv) by {
                    vstd::arithmetic::mul::lemma_mul_basics(pw);
                    vstd::arithmetic::mul::lemma_mul_is_commutative(cv, pw);
                }
            }
            return None;
        }
        proof {
            let ev = (exp - 1) as nat;
            let cv = ubig_value(cur) as int;
            let qv = ubig_value(q) as int;
            assert(cv == 2 * qv);
            vstd::arithmetic::power2::lemma_pow2_adds(ev, 1);
            vstd::arithmetic::power2::lemma2_to64();
            assert(pow2(exp as nat) == pow2(ev) * 2);
            assert((pow2(ev) * 2) * qv == pow2(ev) * (2 * qv)) by {
                vstd::arithmetic::mul::lemma_mul_is_associative(pow2(ev) as int, 2, qv);
            }
        }
        cur = q;
        exp = exp + 1;
    }
}

/// Exact integer square root by binary search: `Some(r)` with `r*r == x`
/// exactly when `x` is a perfect square, `None` otherwise.
pub fn integer_sqrt(x: &ibig::UBig) -> (r: Option<ibig::UBig>)
    ensures
        (match r {
            Some(v) => square(ubig_value(v)) == ubig_value(*x),
            None => forall|y: nat| square(y) != ubig_value(*x),
        }),
{
    let ghost xv = ubig_value(*x);
    let one = big_from_u64(1);
    if !big_lt(&one, x) {
        let c = big_clone(x);
        proof {
            if xv == 0 {
                assert(square(0nat) == 0);
            } else {
                assert(square(1nat) == 1);
            }
        }
        return Some(c);
    }
    let mut low = big_from_u64(2);
    let mut high = big_clone(x);
    let two = big_from_u64(2);
    proof {
        assert forall|y: nat| #[trigger] square(y) == xv implies 2 <= y && y <= xv by {
            if y <= 1 {
                assert(square(y) <= 1);
            } else {
                assert(2 * y <= y * y) by {
                    vstd::arithmetic::mul::lemma_mul_inequality(2, y as int, y as int);
                    vstd::arithmetic::mul::lemma_mul_is_commutative(2, y as int);
                    vstd::arithmetic::mul::lemma_mul_is_commutative(y as int, 2);
                }
            }
        }
    }
    loop
        invariant
            xv == ubig_value(*x),
            xv >= 2,
            ubig_value(one) == 1,
            ubig_value(two) == 2,
            2 <= ubig_value(low),
            ubig_value(low) <= ubig_value(high) + 1,
            ubig_value(high) <= xv,
            forall|y: nat| #[trigger] square(y) == xv ==> ubig_value(low) <= y && y <= ubig_value(
                high,
            ),
        decreases ubig_value(high) + 1 - ubig_value(low),
    {
        if big_lt(&high, &low) {
            proof {
                assert forall|y: nat| #[trigger] square(y) != xv by {
                    if square(y) == xv {
                        assert(ubig_value(low) <= y && y <= ubig_value(high));
                    }
                }
            }
            return None;
        }
        let sum = big_add(&low, &high);
        let (mid, _) = big_div_rem(&sum, &two);
        let ghost lv = ubig_value(low) as int;
        let ghost hv = ubig_value(high) as int;
        let ghost mv = ubig_value(mid) as int;
        proof {
            assert(mv == (lv + hv) / 2);
            assert(lv <= mv && mv <= hv) by {
                vstd::arithmetic::div_mod::lemma_div_is_ordered(2 * lv, lv + hv, 2);
                vstd::arithmetic::div_mod::lemma_div_is_ordered(lv + hv, 2 * hv, 2);
                assert((2 * lv) / 2 == lv) by {
                    vstd::arithmetic::div_mod::lemma_div_by_multiple(lv, 2);
                }
                assert((2 * hv) / 2 == hv) by {
                    vstd::arithmetic::div_mod::lemma_div_by_multiple(hv, 2);
                }
            }
        }
        let sq = big_mul(&mid, &mid);
        if big_eq(&sq, x) {
            return Some(mid);
        } else if big_lt(&sq, x) {
            proof {
                assert forall|y: nat| #[trigger] square(y) == xv implies mv + 1 <= y && y
                    <= ubig_value(high) by {
                    if y <= mv {
                        assert(y * y <= mv * mv) by {
                            vstd::arithmetic::mul::lemma_mul_inequality(y as int, mv, y as int);
                            vstd::arithmetic::mul::lemma_mul_inequality(y as int, mv, mv);
                            vstd::arithmetic::mul::lemma_mul_is_commutative(y as int, mv);
                        }
                    }
                }
            }
            low = big_add(&mid, &one);
        } else {
            proof {
                assert forall|y: nat| #[trigger] square(y) == xv implies ubig_value(low) <= y && y
                    <= mv - 1 by {
                    if y >= mv {
                        assert(mv * mv <= y * y) by {
                            vstd::arithmetic::mul::lemma_mul_inequality(mv, y as int, mv);
                            vstd::arithmetic::mul::lemma_mul_inequality(mv, y as int, y as int);
                            vstd::arithmetic::mul::lemma_mul_is_commutative(mv, y as int);
                        }
                    }
                }
            }
            high = big_sub(&mid, &one);
        }
    }
}


/// Exact integer square roots as an extension interface.
pub trait SqrtExt<Rhs>: Sized {
    /// Whether `r` is the exact square root of this value.
    spec fn root_of(self, r: Rhs) -> bool;

    /// Whether this value has no exact square root.
    spec fn no_root(self) -> bool;

    fn sqrt(self) -> (r: Option<Rhs>)
        ensures
            (match r {
                Some(v) => self.root_of(v),
                None => self.no_root(),
            }),
    ;
}

impl<'a> SqrtExt<ibig::UBig> for &'a ibig::UBig {
    open spec fn root_of(self, r: ibig::UBig) -> bool {
        square(ubig_value(r)) == ubig_value(*self)
    }

    open spec fn no_root(self) -> bool {
        forall|y: nat| square(y) != ubig_value(*self)
    }

    fn sqrt(self) -> (r: Option<ibig::UBig>) {
        integer_sqrt(self)
    }
}

/// The Bezout identity for a particular coefficient pair.
pub open spec fn bezout_pair(u: int, v: int, a: nat, b: nat) -> bool {
    u * a + v * b == 1
}

/// Whether two values are coprime, witnessed by a Bezout identity.
pub open spec fn coprime(a: nat, b: nat) -> bool {
    exists|u: int, v: int| #[trigger] bezout_pair(u, v, a, b)
}

/// A common divisor of two or more rules out any Bezout identity.
pub proof fn lemma_common_divisor_not_coprime(a: nat, b: nat, g: nat)
    requires
        g >= 2,
        a as int % g as int == 0,
        b as int % g as int == 0,
    ensures
        !coprime(a, b),
{
    assert forall|u: int, v: int| !#[trigger] bezout_pair(u, v, a, b) by {
        if bezout_pair(u, v, a, b) {
            vstd::arithmetic::div_mod::lemma_fundamental_div_mod(a as int, g as int);
            let a1 = a as int / g as int;
            assert(a as int == g * a1);
            vstd::arithmetic::div_mod::lemma_fundamental_div_mod(b as int, g as int);
            let b1 = b as int / g as int;
            assert(b as int == g * b1);
            assert(u * a == g * (u * a1)) by {
                vstd::arithmetic::mul::lemma_mul_is_associative(u, g as int, a1);
                vstd::arithmetic::mul::lemma_mul_is_commutative(u, g as int);
                vstd::arithmetic::mul::lemma_mul_is_associative(g as int, u, a1);
            }
            assert(v * b == g * (v * b1)) by {
                vstd::arithmetic::mul::lemma_mul_is_associative(v, g as int, b1);
                vstd::arithmetic::mul::lemma_mul_is_commutative(v, g as int);
                vstd::arithmetic::mul::lemma_mul_is_associative(g as int, v, b1);
            }
            let t = u * a1 + v * b1;
            assert(g * t == g * (u * a1) + g * (v * b1)) by {
                vstd::arithmetic::mul::lemma_mul_is_distributive_add(g as int, u * a1, v * b1);
            }
            assert(g * t == 1);
            if t >= 1 {
                assert(1 * g as int <= t * g as int) by {
                    vstd::arithmetic::mul::lemma_mul_inequality(1, t, g as int);
                }
                assert(g * t == t * g) by {
                    vstd::arithmetic::mul::lemma_mul_is_commutative(g as int, t);
                }
                assert(false);
            } else {
                assert(g * (-t) >= 0) by {
                    vstd::arithmetic::mul::lemma_mul_nonnegative(g as int, -t);
                }
                assert(g * (-t) == -(g * t)) by {
                    vstd::arithmetic::mul::lemma_mul_unary_negation(g as int, t);
                    vstd::arithmetic::mul::lemma_mul_is_commutative(g as int, t);
                    vstd::arithmetic::mul::lemma_mul_is_commutative(g as int, -t);
                }
                assert(false);
            }
        }
    }
}

/// The square of the mirror `p - r` has the same residue as the square of `r`.
pub proof fn lemma_mirror_root(r: int, p: int)
    requires
        p > 0,
        0 <= r <= p,
    ensures
        ((p - r) * (p - r)) % p == (r * r) % p,
{
    assert((p - r) * (p - r) == p * (p - 2 * r) + r * r) by (nonlinear_arith);
    vstd::arithmetic::div_mod::lemma_mod_multiples_vanish(p - 2 * r, r * r, p);
}

/// Whether `a` has a square root among the nonzero residues modulo `p` and
/// also passes the Euler residue test: the two facts every `Some` answer of
/// [`square_root_mod`] carries, and whose joint failure every `None` answer
/// establishes.
pub open spec fn sqrt_exists(a: nat, p: nat) -> bool {
    &&& pow((a % p) as int, (((p - 1) as nat) / 2) as nat) % (p as int) == 1int % (p as int)
    &&& exists|x: nat| 1 <= x < p && #[trigger] mul_mod(x, x, p) == a % p
}

/// The fallback search behind [`square_root_mod`]: tries every nonzero
/// residue in turn, so its `None` answer proves that no root exists.  It
/// runs only on inputs the fast paths refuse, which an honest prime modulus
/// never produces.
fn exhaustive_root(a: &ibig::UBig, a0: &ibig::UBig, modulo: &ibig::UBig) -> (r: Option<
    (ibig::UBig, ibig::UBig),
>)
    requires
        ubig_value(*modulo) >= 3,
        ubig_value(*a) == ubig_value(*a0) % ubig_value(*modulo),
        pow(
            (ubig_value(*a0) % ubig_value(*modulo)) as int,
            ((ubig_value(*modulo) - 1) / 2) as nat,
        ) % (ubig_value(*modulo) as int) == 1int % (ubig_value(*modulo) as int),
    ensures
        (match r {
            Some(pair) => {
                &&& 1 <= ubig_value(pair.0) < ubig_value(*modulo)
                &&& 1 <= ubig_value(pair.1) < ubig_value(*modulo)
                &&& ubig_value(pair.1) == ubig_value(*modulo) - ubig_value(pair.0)
                &&& mul_mod(ubig_value(pair.0), ubig_value(pair.0), ubig_value(*modulo))
                    == ubig_value(*a0) % ubig_value(*modulo)
                &&& mul_mod(ubig_value(pair.1), ubig_value(pair.1), ubig_value(*modulo))
                    == ubig_value(*a0) % ubig_value(*modulo)
                &&& pow(
                    (ubig_value(*a0) % ubig_value(*modulo)) as int,
                    ((ubig_value(*modulo) - 1) / 2) as nat,
                ) % (ubig_value(*modulo) as int) == 1int % (ubig_value(*modulo) as int)
            },
            None => !sqrt_exists(ubig_value(*a0), ubig_value(*modulo)),
        }),
{
    let ghost pv = ubig_value(*modulo) as int;
    let ghost av = ubig_value(*a);
    proof {
        vstd::arithmetic::div_mod::lemma_mod_bound(ubig_value(*a0) as int, pv);
    }
    let one = big_from_u64(1);
    let mut x = big_from_u64(1);
    while big_lt(&x, modulo)
        invariant
            pv == ubig_value(*modulo),
            pv >= 3,
            av == ubig_value(*a),
            av == ubig_value(*a0) % ubig_value(*modulo),
            av < pv,
            pow(
                (ubig_value(*a0) % ubig_value(*modulo)) as int,
                ((ubig_value(*modulo) - 1) / 2) as nat,
            ) % (ubig_value(*modulo) as int) == 1int % (ubig_value(*modulo) as int),
            ubig_value(one) == 1,
            1 <= ubig_value(x) <= pv,
            forall|y: nat| 1 <= y < ubig_value(x) ==> #[trigger] mul_mod(y, y, pv as nat) != av,
        decreases pv - ubig_value(x),
    {
        let sq = mod_mul(&x, &x, modulo);
        if big_eq(&sq, a) {
            let r2 = big_sub(modulo, &x);
            proof {
                let xv = ubig_value(x) as int;
                let rv = ubig_value(r2) as int;
                lemma_mirror_root(xv, pv);
                assert(rv == pv - xv);
                assert((rv * rv) % pv == (xv * xv) % pv);
                assert(mul_mod(ubig_value(x), ubig_value(x), ubig_value(*modulo)) == av);
                assert(mul_mod(ubig_value(r2), ubig_value(r2), ubig_value(*modulo)) == av);
            }
            return Some((x, r2));
        }
        x = big_add(&x, &one);
    }
    proof {
        if sqrt_exists(ubig_value(*a0), ubig_value(*modulo)) {
            let y = choose|y: nat|
                1 <= y < ubig_value(*modulo) && #[trigger] mul_mod(y, y, ubig_value(*modulo))
                    == ubig_value(*a0) % ubig_value(*modulo);
            assert(mul_mod(y, y, pv as nat) != av);
        }
    }
    None
}

/// Square root of `a` modulo an odd `modulo`, by the early perfect-square
/// path or a Tonelli-Shanks search, with the candidate checked against `a`
/// before it is returned: on `Some((r1, r2))` both values genuinely square
/// to `a` modulo `modulo`, `r2` mirrors `r1`, and `a` passed the Euler
/// residue test.  `None` is exact: either the Euler test refused `a`, or no
/// nonzero residue squares to it at all -- so a root that exists behind a
/// passing Euler test is always found.
pub fn square_root_mod(a0: &ibig::UBig, modulo: &ibig::UBig) -> (r: Option<(ibig::UBig, ibig::UBig)>)
    requires
        ubig_value(*modulo) >= 3,
        ubig_value(*modulo) % 2 == 1,
    ensures
        (match r {
            Some(pair) => {
                &&& 1 <= ubig_value(pair.0) < ubig_value(*modulo)
                &&& 1 <= ubig_value(pair.1) < ubig_value(*modulo)
                &&& ubig_value(pair.1) == ubig_value(*modulo) - ubig_value(pair.0)
                &&& mul_mod(ubig_value(pair.0), ubig_value(pair.0), ubig_value(*modulo))
                    == ubig_value(*a0) % ubig_value(*modulo)
                &&& mul_mod(ubig_value(pair.1), ubig_value(pair.1), ubig_value(*modulo))
                    == ubig_value(*a0) % ubig_value(*modulo)
                &&& pow(
                    (ubig_value(*a0) % ubig_value(*modulo)) as int,
                    ((ubig_value(*modulo) - 1) / 2) as nat,
                ) % (ubig_value(*modulo) as int) == 1int % (ubig_value(*modulo) as int)
            },
            None => !sqrt_exists(ubig_value(*a0), ubig_value(*modulo)),
        }),
{
    let ghost pv = ubig_value(*modulo) as int;
    let one = big_from_u64(1);
    let (_, a) = big_div_rem(a0, modulo);
    proof {
        vstd::arithmetic::div_mod::lemma_mod_bound(ubig_value(*a0) as int, pv);
    }
    let ghost av = ubig_value(a);
    // the values r1 with checked square, from which both results follow
    if big_eq(&a, &one) {
        let r2 = big_sub(modulo, &one);
        proof {
            vstd::arithmetic::div_mod::lemma_small_mod(1, pv as nat);
            lemma_mirror_root(1, pv);
            vstd::arithmetic::power::lemma1_pow(((pv - 1) / 2) as nat);
        }
        return Some((one, r2));
    }
    let pm1 = big_sub(modulo, &one);
    let two = big_from_u64(2);
    let (half, _) = big_div_rem(&pm1, &two);
    let euler = pow_mod(&a, &half, modulo);
    if !big_eq(&euler, &one) {
        proof {
            vstd::arithmetic::div_mod::lemma_small_mod(1, pv as nat);
        }
        return None;
    }
    proof {
        vstd::arithmetic::div_mod::lemma_small_mod(1, pv as nat);
        assert(pow(av as int, ((pv - 1) / 2) as nat) % pv == 1int % pv);
    }
    match integer_sqrt(&a) {
        Some(rt) => {
            // rt*rt == a with 2 <= a < p and a != 1, so 2 <= rt < p
            proof {
                assert(square(ubig_value(rt)) == av);
                assert(av >= 2) by {
                    if av == 0 {
                        vstd::arithmetic::power::lemma0_pow(ubig_value(half));
                        assert(ubig_value(half) >= 1);
                        vstd::arithmetic::div_mod::lemma_small_mod(0, pv as nat);
                    }
                }
                let rv = ubig_value(rt) as int;
                assert(2 <= rv) by {
                    vstd::arithmetic::mul::lemma_mul_basics(ubig_value(rt) as int);
                    if rv == 0 {
                        assert(ubig_value(rt) * ubig_value(rt) == ubig_value(rt) * 0);
                        assert(square(ubig_value(rt)) == 0);
                    } else if rv == 1 {
                        assert(ubig_value(rt) * ubig_value(rt) == ubig_value(rt) * 1);
                        assert(square(ubig_value(rt)) == 1);
                    }
                }
                assert(rv < pv) by {
                    assert(2 * rv <= rv * rv) by {
                        vstd::arithmetic::mul::lemma_mul_inequality(2, rv, rv);
                        vstd::arithmetic::mul::lemma_mul_is_commutative(2, rv);
                        vstd::arithmetic::mul::lemma_mul_is_commutative(rv, 2);
                    }
                }
                vstd::arithmetic::div_mod::lemma_small_mod(av, pv as nat);
                vstd::arithmetic::div_mod::lemma_small_mod((rv * rv) as nat, pv as nat);
                lemma_mirror_root(rv, pv);
                vstd::arithmetic::div_mod::lemma_small_mod(1, pv as nat);
            }
            let r2 = big_sub(modulo, &rt);
            return Some((rt, r2));
        },
        None => {},
    }
    // Tonelli-Shanks search; the outcome is checked before it is returned.
    let split = match get_k_s(&pm1) {
        Some(p) => p,
        None => {
            return exhaustive_root(&a, a0, modulo);
        },
    };
    let s = split.0;
    let q = split.1;
    // find a non-residue witness z
    let mut z = big_from_u64(2);
    loop
        invariant
            pv == ubig_value(*modulo),
            pv >= 3,
            ubig_value(one) == 1,
            av == ubig_value(a),
            av == ubig_value(*a0) % ubig_value(*modulo),
            av < pv,
            pow(av as int, ((pv - 1) / 2) as nat) % pv == 1int % pv,
        decreases pv - ubig_value(z),
    {
        if !big_lt(&z, modulo) {
            return exhaustive_root(&a, a0, modulo);
        }
        let e = pow_mod(&z, &half, modulo);
        if big_eq(&e, &pm1) {
            break;
        }
        z = big_add(&z, &one);
    }
    let mut m: usize = s;
    let mut c = pow_mod(&z, &q, modulo);
    let mut t = pow_mod(&a, &q, modulo);
    let qp1h = {
        let t1 = big_add(&q, &one);
        let (h, _) = big_div_rem(&t1, &two);
        h
    };
    let mut root = pow_mod(&a, &qp1h, modulo);
    loop
        invariant
            pv == ubig_value(*modulo),
            pv >= 3,
            ubig_value(one) == 1,
            av == ubig_value(a),
            av == ubig_value(*a0) % ubig_value(*modulo),
            av < pv,
            pow(av as int, ((pv - 1) / 2) as nat) % pv == 1int % pv,
            ubig_value(root) < pv,
            ubig_value(c) < pv,
            ubig_value(t) < pv,
        decreases m,
    {
        if big_eq(&t, &one) {
            break;
        }
        // least i with t^(2^i) == 1
        let mut i: usize = 0;
        let mut t2 = big_clone(&t);
        loop
            invariant
                pv == ubig_value(*modulo),
                pv >= 3,
                ubig_value(one) == 1,
                av == ubig_value(a),
                av == ubig_value(*a0) % ubig_value(*modulo),
                av < pv,
                pow(av as int, ((pv - 1) / 2) as nat) % pv == 1int % pv,
                i <= m,
            decreases m - i,
        {
            if big_eq(&t2, &one) {
                break;
            }
            if i >= m {
                return exhaustive_root(&a, a0, modulo);
            }
            t2 = mod_mul(&t2, &t2, modulo);
            i = i + 1;
        }
        if i == 0 || i >= m {
            return exhaustive_root(&a, a0, modulo);
        }
        // b = c^(2^(m-i-1))
        let mut b = big_clone(&c);
        let mut j: usize = 0;
        while j < m - i - 1
            invariant
                pv == ubig_value(*modulo),
                pv >= 3,
                j <= m - i - 1,
            decreases m - i - 1 - j,
        {
            b = mod_mul(&b, &b, modulo);
            j = j + 1;
        }
        m = i;
        c = mod_mul(&b, &b, modulo);
        t = mod_mul(&t, &c, modulo);
        root = mod_mul(&root, &b, modulo);
    }
    // check the candidate before believing it
    let zero = big_from_u64(0);
    if big_eq(&root, &zero) {
        return exhaustive_root(&a, a0, modulo);
    }
    let sq = mod_mul(&root, &root, modulo);
    if !big_eq(&sq, &a) {
        return exhaustive_root(&a, a0, modulo);
    }
    let r2 = big_sub(modulo, &root);
    proof {
        let rv = ubig_value(root) as int;
        vstd::arithmetic::div_mod::lemma_mod_bound(ubig_value(*a0) as int, pv);
        vstd::arithmetic::div_mod::lemma_small_mod(av, pv as nat);
        lemma_mirror_root(rv, pv);
        vstd::arithmetic::div_mod::lemma_mod_bound(rv * rv, pv);
        vstd::arithmetic::div_mod::lemma_small_mod(1, pv as nat);
    }
    Some((root, r2))
}

/// Draws a value below `m` from the process random source, by reducing a\n/// wide random draw modulo `m`.
pub fn random_below(m: &ibig::UBig) -> (r: ibig::UBig)
    requires
        ubig_value(*m) >= 1,
    ensures
        ubig_value(r) < ubig_value(*m),
{
    let bytes = big_to_le(m);
    let extra: usize = if bytes.len() <= usize::MAX - 16 {
        bytes.len() + 16
    } else {
        bytes.len()
    };
    let rb = random_bytes(extra);
    let x = big_from_le(rb.as_slice());
    let (_, r) = big_div_rem(&x, m);
    proof {
        vstd::arithmetic::div_mod::lemma_mod_bound(
            ubig_value(x) as int,
            ubig_value(*m) as int,
        );
    }
    r
}

/// A Miller-Rabin probable-prime test with the given number of rounds.  The
/// verdict is probabilistic, so nothing is promised of it; the generators
/// state the shape of what they return themselves.
pub(crate) fn is_probably_prime(n: &ibig::UBig, rounds: usize) -> (r: bool)
    requires
        ubig_value(*n) >= 5,
        ubig_value(*n) % 2 == 1,
{
    let one = big_from_u64(1);
    let two = big_from_u64(2);
    let four = big_from_u64(4);
    let nm1 = big_sub(n, &one);
    let split = match get_k_s(&nm1) {
        Some(p) => p,
        None => {
            return false;
        },
    };
    let s = split.0;
    let d = split.1;
    let span = big_sub(n, &four);
    let mut round: usize = 0;
    while round < rounds
        invariant
            ubig_value(*n) >= 5,
            ubig_value(one) == 1,
            ubig_value(two) == 2,
            ubig_value(span) == ubig_value(*n) - 4,
            ubig_value(nm1) == ubig_value(*n) - 1,
        decreases rounds - round,
    {
        let x = random_below(&span);
        let base = big_add(&x, &two);
        let mut y = pow_mod(&base, &d, n);
        if !(big_eq(&y, &one) || big_eq(&y, &nm1)) {
            let mut i: usize = 1;
            let mut seen = false;
            while i < s
                invariant
                    ubig_value(*n) >= 5,
                    ubig_value(nm1) == ubig_value(*n) - 1,
                decreases s - i,
            {
                if !seen {
                    y = mod_mul(&y, &y, n);
                    if big_eq(&y, &nm1) {
                        seen = true;
                    }
                }
                i = i + 1;
            }
            if !seen {
                return false;
            }
        }
        round = round + 1;
    }
    true
}

/// One random odd candidate of exactly `bit_length` bits.
pub(crate) fn draw_odd_candidate(lo: &ibig::UBig, bit_length: usize) -> (r: ibig::UBig)
    requires
        3 <= bit_length,
        ubig_value(*lo) == pow2((bit_length - 1) as nat),
    ensures
        pow2((bit_length - 1) as nat) <= ubig_value(r) < pow2(bit_length as nat),
        ubig_value(r) % 2 == 1,
{
    let one = big_from_u64(1);
    let two = big_from_u64(2);
    let zero = big_from_u64(0);
    proof {
        vstd::arithmetic::power2::lemma_pow2_adds((bit_length - 1) as nat, 1);
        vstd::arithmetic::power2::lemma2_to64();
        vstd::arithmetic::power2::lemma_pow2_pos((bit_length - 1) as nat);
    }
    let x = random_below(lo);
    let cand = big_add(lo, &x);
    let (_, rem) = big_div_rem(&cand, &two);
    proof {
        vstd::arithmetic::div_mod::lemma_mod_bound(ubig_value(cand) as int, 2);
        vstd::arithmetic::div_mod::lemma_fundamental_div_mod(ubig_value(cand) as int, 2);
    }
    if big_eq(&rem, &zero) {
        proof {
            let cv = ubig_value(cand) as int;
            let top = pow2(bit_length as nat) as int;
            // an even candidate is not the odd value 2^k - 1
            assert(cv != top - 1) by {
                if cv == top - 1 {
                    let h = pow2((bit_length - 1) as nat) as int;
                    assert(top == 2 * h);
                    vstd::arithmetic::div_mod::lemma_mod_multiples_vanish(h, -1, 2);
                    assert((2 * h + (-1)) % 2 == (-1) % 2);
                }
            }
            let dv = ubig_value(cand) as int + 1;
            vstd::arithmetic::div_mod::lemma_mod_add_multiples_vanish(1, 2);
            assert(dv % 2 == (2 + 1) % 2);
        }
        big_add(&cand, &one)
    } else {
        cand
    }
}

/// Draws odd candidates of exactly `bit_length` bits until the Miller-Rabin
/// test passes `persistence` rounds; the result is an odd value of the
/// requested size that is prime with overwhelming probability.  At least
/// three bits are required: the floor the candidate-drawing arithmetic
/// needs, and fewer would not leave room for an odd prime candidate range.
pub fn gen_sized_prime(bit_length: usize, persistence: usize) -> (r: ibig::UBig)
    requires
        3 <= bit_length,
    ensures
        pow2((bit_length - 1) as nat) <= ubig_value(r) < pow2(bit_length as nat),
        ubig_value(r) % 2 == 1,
{
    let lo = big_pow2(bit_length - 1);
    proof {
        vstd::arithmetic::power2::lemma_pow2_pos((bit_length - 1) as nat);
        vstd::arithmetic::power2::lemma_pow2_adds(2, (bit_length - 3) as nat);
        vstd::arithmetic::power2::lemma2_to64();
        vstd::arithmetic::power2::lemma_pow2_pos((bit_length - 3) as nat);
    }
    let mut tries: u64 = 0;
    loop
        invariant
            3 <= bit_length,
            ubig_value(lo) == pow2((bit_length - 1) as nat),
            ubig_value(lo) >= 4,
            tries < u64::MAX,
        decreases u64::MAX - tries,
    {
        let cand = draw_odd_candidate(&lo, bit_length);
        if is_probably_prime(&cand, persistence) || tries >= u64::MAX - 1 {
            return cand;
        }
        tries = tries + 1;
    }
}

} // verus!
