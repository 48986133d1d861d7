//! Signed arbitrary-precision integers and unreduced rationals.
//!
//! An [`Integer`] pairs a canonical magnitude from
//! [`crate::arithmetic_util`] with a three-valued [`Sign`]; the sign algebra
//! makes a "negative zero" unrepresentable. Division computes a Newton-Raphson
//! fixed-point reciprocal and derives quotient and remainder from it. A
//! [`Rational`] stacks two integers into an unreduced fraction.

use crate::arithmetic_util::{
    arbitrary_precision_add, arbitrary_precision_mul, arbitrary_precision_sub, base, canonical,
    cut_upper_zeros, drop_lower_limbs, halve_limbs, is_zero_limbs, lemma_canonical_len_bound,
    lemma_canonical_unique, lemma_mag_val_bound, lemma_pow_b_adds, lemma_pow_b_increases,
    lemma_pow_b_pos, mag_val, pow_b, shift_limbs, single_limb, Digit,
};
use vstd::arithmetic::div_mod::{
    lemma_div_by_self, lemma_div_is_ordered, lemma_div_multiples_vanish, lemma_div_of0,
    lemma_fundamental_div_mod, lemma_fundamental_div_mod_converse_div,
    lemma_mod_division_less_than_divisor,
};
use vstd::prelude::*;
use vstd::std_specs::cmp::PartialEqSpec;

verus! {

/// Tri-state sign. Modelling the sign as its own three-valued type (never a
/// boolean) keeps a "negative zero" unrepresentable: the canonical zero
/// magnitude pairs only with `Zero`, a non-zero magnitude only with
/// `Negative` or `Positive`.
#[derive(Debug, PartialEq, Eq, Clone, Copy, Structural)]
pub enum Sign {
    Negative,
    Zero,
    Positive,
}

/// Negation table: swaps `Positive` and `Negative`, fixes `Zero`.
pub open spec fn sign_negate(s: Sign) -> Sign {
    match s {
        Sign::Positive => Sign::Negative,
        Sign::Negative => Sign::Positive,
        Sign::Zero => Sign::Zero,
    }
}

/// Product sign table, with `Zero` absorbing.
pub open spec fn sign_multiply(lhs: Sign, rhs: Sign) -> Sign {
    match (lhs, rhs) {
        (Sign::Positive, Sign::Positive) | (Sign::Negative, Sign::Negative) => Sign::Positive,
        (Sign::Zero, _) | (_, Sign::Zero) => Sign::Zero,
        (Sign::Positive, Sign::Negative) | (Sign::Negative, Sign::Positive) => Sign::Negative,
    }
}

impl Sign {
    /// Negation swaps `Positive` and `Negative` and fixes `Zero`.
    pub fn neg(self) -> (r: Sign)
        ensures
            r == sign_negate(self),
    {
        match self {
            Sign::Positive => Sign::Negative,
            Sign::Negative => Sign::Positive,
            Sign::Zero => Sign::Zero,
        }
    }

    /// Sign of a product: the standard table, with `Zero` absorbing.
    pub fn mul(self, rhs: Sign) -> (r: Sign)
        ensures
            r == sign_multiply(self, rhs),
    {
        match (self, rhs) {
            (Sign::Positive, Sign::Positive) | (Sign::Negative, Sign::Negative) => Sign::Positive,
            (Sign::Zero, _) | (_, Sign::Zero) => Sign::Zero,
            (Sign::Positive, Sign::Negative) | (Sign::Negative, Sign::Positive) => Sign::Negative,
        }
    }

    /// Sign of a quotient: the product table on a non-zero divisor sign. A
    /// `Zero` divisor sign is a division by zero and is excluded before the
    /// engine ever runs.
    pub fn div(self, rhs: Sign) -> (r: Sign)
        requires
            rhs != Sign::Zero,
        ensures
            r == sign_multiply(self, rhs),
    {
        match (self, rhs) {
            (Sign::Positive, Sign::Positive) | (Sign::Negative, Sign::Negative) => Sign::Positive,
            (Sign::Positive, Sign::Negative) | (Sign::Negative, Sign::Positive) => Sign::Negative,
            (Sign::Zero, _) => Sign::Zero,
            (_, Sign::Zero) => Sign::Zero,
        }
    }
}

/// A signed arbitrary-precision integer: a canonical limb magnitude paired
/// with a [`Sign`].
#[derive(Debug)]
pub struct Integer {
    /// Absolute value of the integer, least-significant limb first. The array
    /// always holds the plain magnitude, never a complement representation.
    number_data: Vec<Digit>,
    /// Sign of the value; `Sign::Zero` exactly when the magnitude is zero.
    sign: Sign,
}

impl Integer {
    /// Well-formed: the magnitude is canonical (no superfluous leading zero
    /// limbs) and the sign is `Zero` exactly on the zero magnitude.
    pub closed spec fn wf(&self) -> bool {
        &&& canonical(self.number_data@)
        &&& (self.sign == Sign::Zero <==> mag_val(self.number_data@) == 0)
    }

    /// The mathematical value this integer stands for.
    pub closed spec fn as_int(&self) -> int {
        if self.sign == Sign::Negative {
            -(mag_val(self.number_data@) as int)
        } else {
            mag_val(self.number_data@) as int
        }
    }

    /// Number of limbs in the stored magnitude.
    pub closed spec fn limbs(&self) -> nat {
        self.number_data@.len()
    }
}

/// True exactly when the two limb vectors hold the same digits.
fn digits_equal(lhs: &Vec<Digit>, rhs: &Vec<Digit>) -> (r: bool)
    ensures
        r <==> lhs@ == rhs@,
{
    if lhs.len() != rhs.len() {
        return false;
    }
    let mut i: usize = 0;
    while i < lhs.len()
        invariant
            lhs@.len() == rhs@.len(),
            i <= lhs@.len(),
            forall|j: int| 0 <= j < i ==> lhs@[j] == rhs@[j],
        decreases lhs@.len() - i,
    {
        if lhs[i] != rhs[i] {
            return false;
        }
        i = i + 1;
    }
    proof {
        assert(lhs@ =~= rhs@);
    }
    true
}

impl Clone for Integer {
    /// Deep copy; the copy stands for the same value and stays well-formed.
    fn clone(&self) -> (r: Self)
        ensures
            r.wf() <==> self.wf(),
            r.as_int() == self.as_int(),
            r.limbs() == self.limbs(),
    {
        Integer { number_data: self.number_data.clone(), sign: self.sign }
    }
}

impl PartialEq for Integer {
    fn eq(&self, other: &Self) -> (r: bool) {
        digits_equal(&self.number_data, &other.number_data) && self.sign == other.sign
    }
}

impl Eq for Integer {}

impl vstd::std_specs::cmp::PartialEqSpecImpl for Integer {
    open spec fn obeys_eq_spec() -> bool {
        true
    }

    closed spec fn eq_spec(&self, other: &Integer) -> bool {
        self.number_data@ == other.number_data@ && self.sign == other.sign
    }
}

/// Internal constructor: wraps a canonical magnitude, demoting the requested
/// sign to `Zero` whenever the magnitude is zero, so a signed zero can never
/// be built.
fn from_canonical(mag: Vec<Digit>, sign_if_nonzero: Sign) -> (r: Integer)
    requires
        canonical(mag@),
        sign_if_nonzero != Sign::Zero,
    ensures
        r.wf(),
        r.as_int() == if sign_if_nonzero == Sign::Negative {
            -(mag_val(mag@) as int)
        } else {
            mag_val(mag@) as int
        },
        r.limbs() == mag@.len(),
{
    let zero = is_zero_limbs(mag.as_slice());
    let sign = if zero {
        Sign::Zero
    } else {
        sign_if_nonzero
    };
    Integer { number_data: mag, sign }
}

impl Integer {
    /// Builds the integer holding an unsigned 128-bit value.
    pub fn from_u128_value(value: u128) -> (r: Integer)
        ensures
            r.wf(),
            r.as_int() == value,
            r.limbs() == 1,
    {
        let mag = single_limb(value);
        from_canonical(mag, Sign::Positive)
    }

    /// Builds the integer holding a signed 128-bit value.
    pub fn from_i128_value(value: i128) -> (r: Integer)
        ensures
            r.wf(),
            r.as_int() == value,
            r.limbs() == 1,
    {
        if value >= 0 {
            let mag = single_limb(value as u128);
            from_canonical(mag, Sign::Positive)
        } else if value == i128::MIN {
            let mag = single_limb(0x8000_0000_0000_0000_0000_0000_0000_0000u128);
            from_canonical(mag, Sign::Negative)
        } else {
            let mag = single_limb((-value) as u128);
            from_canonical(mag, Sign::Negative)
        }
    }

    /// Builds an integer from an explicit (limb-sequence, sign) pair. The
    /// limbs are trimmed to canonical form first. A zero magnitude always
    /// yields the canonical zero whatever sign was passed; a non-zero
    /// magnitude paired with a `Zero` sign is a sign/magnitude mismatch and
    /// yields `None`.
    pub fn from_number_slice(value: &[Digit], sign: Sign) -> (r: Option<Integer>)
        requires
            value@.len() >= 1,
        ensures
            r is Some <==> (mag_val(value@) == 0 || sign != Sign::Zero),
            r matches Some(n) ==> n.wf() && n.as_int() == (if sign == Sign::Negative {
                -(mag_val(value@) as int)
            } else {
                mag_val(value@) as int
            }) && n.limbs() <= value@.len(),
    {
        let trimmed = cut_upper_zeros(value);
        let zero = is_zero_limbs(trimmed.as_slice());
        if zero {
            Some(Integer { number_data: trimmed, sign: Sign::Zero })
        } else if sign == Sign::Zero {
            None
        } else {
            Some(from_canonical(trimmed, sign))
        }
    }

    /// Builds an integer from an explicit (limb-sequence, sign) pair; see
    /// [`Integer::from_number_slice`].
    pub fn from_u128_slice(value: &[Digit], sign: Sign) -> (r: Option<Integer>)
        requires
            value@.len() >= 1,
        ensures
            r is Some <==> (mag_val(value@) == 0 || sign != Sign::Zero),
            r matches Some(n) ==> n.wf() && n.as_int() == (if sign == Sign::Negative {
                -(mag_val(value@) as int)
            } else {
                mag_val(value@) as int
            }) && n.limbs() <= value@.len(),
    {
        Integer::from_number_slice(value, sign)
    }

    /// The absolute value.
    pub fn abs(&self) -> (r: Integer)
        requires
            self.wf(),
        ensures
            r.wf(),
            r.as_int() == if self.as_int() < 0 {
                -self.as_int()
            } else {
                self.as_int()
            },
            r.limbs() == self.limbs(),
    {
        from_canonical(self.number_data.clone(), Sign::Positive)
    }

    /// The negated value.
    pub fn neg(&self) -> (r: Integer)
        requires
            self.wf(),
        ensures
            r.wf(),
            r.as_int() == -self.as_int(),
            r.limbs() == self.limbs(),
    {
        from_canonical(self.number_data.clone(), if self.sign == Sign::Negative {
            Sign::Positive
        } else {
            Sign::Negative
        })
    }
}

/// Routes a signed addition to the magnitude kernel: same non-zero signs add
/// the magnitudes and keep the sign; opposite non-zero signs subtract the
/// magnitudes, and the sign follows which operand wins the subtraction; a
/// zero operand returns the other unchanged.
fn add_router(lhs: &Integer, rhs: &Integer) -> (r: Integer)
    requires
        lhs.wf(),
        rhs.wf(),
    ensures
        r.wf(),
        r.as_int() == lhs.as_int() + rhs.as_int(),
        r.limbs() <= 1 + if lhs.limbs() >= rhs.limbs() {
            lhs.limbs()
        } else {
            rhs.limbs()
        },
{
    match (lhs.sign, rhs.sign) {
        (Sign::Positive, Sign::Positive) => {
            let sum = arbitrary_precision_add(lhs.number_data.as_slice(), rhs.number_data.as_slice());
            let trimmed = cut_upper_zeros(sum.as_slice());
            from_canonical(trimmed, Sign::Positive)
        },
        (Sign::Negative, Sign::Negative) => {
            let sum = arbitrary_precision_add(lhs.number_data.as_slice(), rhs.number_data.as_slice());
            let trimmed = cut_upper_zeros(sum.as_slice());
            from_canonical(trimmed, Sign::Negative)
        },
        (Sign::Negative, Sign::Positive) => {
            let result_sub = arbitrary_precision_sub(
                rhs.number_data.as_slice(),
                lhs.number_data.as_slice(),
            );
            from_canonical(
                result_sub.0,
                if result_sub.1 {
                    Sign::Negative
                } else {
                    Sign::Positive
                },
            )
        },
        (Sign::Positive, Sign::Negative) => {
            let result_sub = arbitrary_precision_sub(
                lhs.number_data.as_slice(),
                rhs.number_data.as_slice(),
            );
            from_canonical(
                result_sub.0,
                if result_sub.1 {
                    Sign::Negative
                } else {
                    Sign::Positive
                },
            )
        },
        (Sign::Zero, _) => rhs.clone(),
        (_, Sign::Zero) => lhs.clone(),
    }
}

impl Integer {
    /// The sum of the two integers.
    pub fn add(&self, rhs: &Integer) -> (r: Integer)
        requires
            self.wf(),
            rhs.wf(),
        ensures
            r.wf(),
            r.as_int() == self.as_int() + rhs.as_int(),
            r.limbs() <= 1 + if self.limbs() >= rhs.limbs() {
                self.limbs()
            } else {
                rhs.limbs()
            },
    {
        add_router(self, rhs)
    }

    /// The difference of the two integers, as the sum with the negated
    /// right-hand side.
    pub fn sub(&self, rhs: &Integer) -> (r: Integer)
        requires
            self.wf(),
            rhs.wf(),
        ensures
            r.wf(),
            r.as_int() == self.as_int() - rhs.as_int(),
            r.limbs() <= 1 + if self.limbs() >= rhs.limbs() {
                self.limbs()
            } else {
                rhs.limbs()
            },
    {
        add_router(self, &rhs.neg())
    }

    /// The product of the two integers: the sign follows the sign-product
    /// table (short-circuiting to zero without running the kernel when either
    /// factor is zero), the magnitude is the kernel product.
    pub fn mul(&self, rhs: &Integer) -> (r: Integer)
        requires
            self.wf(),
            rhs.wf(),
        ensures
            r.wf(),
            r.as_int() == self.as_int() * rhs.as_int(),
            r.limbs() <= self.limbs() + rhs.limbs(),
    {
        match (self.sign, rhs.sign) {
            (Sign::Zero, _) | (_, Sign::Zero) => {
                proof {
                    assert(self.as_int() * rhs.as_int() == 0) by (nonlinear_arith)
                        requires
                            self.as_int() == 0 || rhs.as_int() == 0,
                    ;
                }
                Integer::from_u128_value(0)
            },
            (Sign::Positive, Sign::Positive) | (Sign::Negative, Sign::Negative) => {
                let mag = arbitrary_precision_mul(
                    self.number_data.as_slice(),
                    rhs.number_data.as_slice(),
                );
                proof {
                    let va = self.as_int();
                    let vb = rhs.as_int();
                    let ma = mag_val(self.number_data@) as int;
                    let mb = mag_val(rhs.number_data@) as int;
                    assert(va * vb == ma * mb) by (nonlinear_arith)
                        requires
                            (va == ma && vb == mb) || (va == -ma && vb == -mb),
                    ;
                }
                from_canonical(mag, Sign::Positive)
            },
            (Sign::Positive, Sign::Negative) | (Sign::Negative, Sign::Positive) => {
                let mag = arbitrary_precision_mul(
                    self.number_data.as_slice(),
                    rhs.number_data.as_slice(),
                );
                proof {
                    let va = self.as_int();
                    let vb = rhs.as_int();
                    let ma = mag_val(self.number_data@) as int;
                    let mb = mag_val(rhs.number_data@) as int;
                    assert(va * vb == -(ma * mb)) by (nonlinear_arith)
                        requires
                            (va == ma && vb == -mb) || (va == -ma && vb == mb),
                    ;
                }
                from_canonical(mag, Sign::Negative)
            },
        }
    }

    /// Number of limbs in the stored magnitude, as a machine word.
    fn limb_count(&self) -> (r: usize)
        ensures
            r == self.limbs(),
    {
        self.number_data.len()
    }

    /// Three-way comparison: computes `self - rhs` and classifies it by its
    /// sign.
    pub fn compare(&self, rhs: &Integer) -> (r: core::cmp::Ordering)
        requires
            self.wf(),
            rhs.wf(),
        ensures
            r == core::cmp::Ordering::Less <==> self.as_int() < rhs.as_int(),
            r == core::cmp::Ordering::Equal <==> self.as_int() == rhs.as_int(),
            r == core::cmp::Ordering::Greater <==> self.as_int() > rhs.as_int(),
    {
        let result = self.sub(rhs);
        match result.sign {
            Sign::Positive => core::cmp::Ordering::Greater,
            Sign::Zero => core::cmp::Ordering::Equal,
            Sign::Negative => core::cmp::Ordering::Less,
        }
    }
}

/// Quotient of truncating (round-toward-zero) integer division.
pub open spec fn trunc_div(a: int, b: int) -> int {
    if a >= 0 {
        if b >= 0 {
            a / b
        } else {
            -(a / (-b))
        }
    } else {
        if b >= 0 {
            -((-a) / b)
        } else {
            (-a) / (-b)
        }
    }
}

/// Remainder paired with [`trunc_div`]: what is left of `a` after removing
/// `b * trunc_div(a, b)`.
pub open spec fn trunc_rem(a: int, b: int) -> int {
    a - b * trunc_div(a, b)
}

/// The truncating remainder is smaller than the divisor in magnitude and
/// never changes away from the dividend's sign.
pub proof fn lemma_trunc_rem_range(a: int, b: int)
    requires
        b != 0,
    ensures
        b > 0 ==> -b < trunc_rem(a, b) < b,
        b < 0 ==> b < trunc_rem(a, b) < -b,
        a >= 0 ==> trunc_rem(a, b) >= 0,
        a <= 0 ==> trunc_rem(a, b) <= 0,
{
    if a >= 0 {
        if b > 0 {
            lemma_fundamental_div_mod(a, b);
            lemma_mod_division_less_than_divisor(a, b);
        } else {
            let c = -b;
            lemma_fundamental_div_mod(a, c);
            lemma_mod_division_less_than_divisor(a, c);
            assert(b * (-(a / c)) == c * (a / c)) by (nonlinear_arith)
                requires
                    b == -c,
            ;
        }
    } else {
        if b > 0 {
            lemma_fundamental_div_mod(-a, b);
            lemma_mod_division_less_than_divisor(-a, b);
            assert(b * (-((-a) / b)) == -(b * ((-a) / b))) by (nonlinear_arith);
        } else {
            let c = -b;
            lemma_fundamental_div_mod(-a, c);
            lemma_mod_division_less_than_divisor(-a, c);
            assert(b * ((-a) / c) == -(c * ((-a) / c))) by (nonlinear_arith)
                requires
                    b == -c,
            ;
        }
    }
}

/// Builds the positive integer `base()^k`.
fn power_of_base(k: usize) -> (r: Integer)
    ensures
        r.wf(),
        r.as_int() == pow_b(k as nat),
{
    let shifted = shift_limbs(single_limb(1).as_slice(), k);
    let trimmed = cut_upper_zeros(shifted.as_slice());
    proof {
        lemma_pow_b_pos(k as nat);
        assert(pow_b(k as nat) * 1 == pow_b(k as nat)) by (nonlinear_arith);
    }
    from_canonical(trimmed, Sign::Positive)
}

/// Exact floor of `base()^k` over a positive divisor, by bisection on the
/// mantissa: the slow, unconditionally correct reciprocal that backs up the
/// Newton iteration.
fn reciprocal_by_bisection(divisor: &Integer, k: usize) -> (m: Integer)
    requires
        divisor.wf(),
        divisor.as_int() >= 1,
    ensures
        m.wf(),
        m.as_int() == pow_b(k as nat) as int / divisor.as_int(),
{
    let scale = power_of_base(k);
    let ghost s = pow_b(k as nat) as int;
    let ghost bv = divisor.as_int();
    let one = Integer::from_u128_value(1);
    let mut lo = Integer::from_u128_value(0);
    let mut hi = scale.add(&one);
    proof {
        lemma_pow_b_pos(k as nat);
        assert(0 * bv == 0) by (nonlinear_arith);
        assert((s + 1) * bv > s) by (nonlinear_arith)
            requires
                bv >= 1,
                s >= 1,
        ;
    }
    loop
        invariant
            lo.wf(),
            hi.wf(),
            one.wf(),
            divisor.wf(),
            scale.wf(),
            one.as_int() == 1,
            divisor.as_int() == bv,
            scale.as_int() == s,
            bv >= 1,
            s == pow_b(k as nat),
            lo.as_int() >= 0,
            lo.as_int() * bv <= s,
            hi.as_int() * bv > s,
            lo.as_int() < hi.as_int(),
        ensures
            lo.wf(),
            lo.as_int() >= 0,
            lo.as_int() * bv <= s,
            (lo.as_int() + 1) * bv > s,
        decreases hi.as_int() - lo.as_int(),
    {
        let next = lo.add(&one);
        match next.compare(&hi) {
            core::cmp::Ordering::Less => {
                let sum = lo.add(&hi);
                let mid_mag = halve_limbs(sum.number_data.as_slice());
                let mid = from_canonical(mid_mag, Sign::Positive);
                proof {
                    let l = lo.as_int();
                    let h = hi.as_int();
                    assert(mag_val(sum.number_data@) == l + h);
                    assert(mid.as_int() == (l + h) / 2);
                    lemma_div_is_ordered(2 * (l + 1), l + h, 2);
                    lemma_div_is_ordered(l + h, 2 * (h - 1), 2);
                    lemma_div_multiples_vanish(l + 1, 2);
                    lemma_div_multiples_vanish(h - 1, 2);
                    assert(2 * (l + 1) == (l + 1) * 2 && 2 * (h - 1) == (h - 1) * 2);
                    assert(l + 1 <= mid.as_int() <= h - 1);
                }
                let prod = mid.mul(divisor);
                match prod.compare(&scale) {
                    core::cmp::Ordering::Greater => {
                        hi = mid;
                    },
                    _ => {
                        lo = mid;
                    },
                }
            },
            _ => {
                proof {
                    assert(hi.as_int() == lo.as_int() + 1);
                }
                break;
            },
        }
    }
    proof {
        let l = lo.as_int();
        assert((l + 1) * bv == l * bv + bv) by (nonlinear_arith);
        assert(l * bv == bv * l) by (nonlinear_arith);
        lemma_fundamental_div_mod_converse_div(s, bv, l, s - l * bv);
    }
    lo
}

/// Newton-Raphson fixed-point reciprocal of the divisor.
///
/// Iterates `x <- x * (2 - |rhs| * x)` at one limb of working precision more
/// than `|rhs|` has (a guard limb for rounding slack), starting from the seed
/// `1 * base()^-n`, truncating excess low limbs after each step and
/// compensating the exponent, until the truncated estimate stops changing;
/// then rounds the guard limb away (round-to-nearest on half the limb range).
/// The pair `(mantissa, exponent)` stands for
/// `mantissa * base()^exponent ≈ 1 / |rhs|`.
///
/// The iteration count is capped by a fuel budget that is generous for the
/// working precision: the seed gains at least one correct bit per step and
/// the bit count doubles once the estimate is close, so the truncated
/// estimate reaches its fixed point long before the budget runs out. The
/// estimate then passes a verified acceptance check — a converged run does —
/// and one that does not is replaced by the exact bisection reciprocal, so
/// the contract holds unconditionally. The quotient built from the estimate
/// is pinned exactly by a final correction in [`Integer::div`] either way.
///
/// The contract promises a positive mantissa within one unit in the last
/// place of the true reciprocal on both sides: with `scale` for
/// `base()^(-exponent)`, the product `mantissa * |rhs|` lies in
/// `[scale - |rhs|, scale + |rhs|]`, so `mantissa` is within one of
/// `scale / |rhs|` — and the scale itself carries the working precision, at
/// least one limb short of a limb count past the divisor.
pub fn calculate_inverse(rhs: &Integer) -> (r: (Integer, i128))
    requires
        rhs.wf(),
        rhs.as_int() != 0,
        rhs.limbs() <= usize::MAX as nat / 4,
    ensures
        r.0.wf(),
        r.1 <= 0,
        -r.1 <= usize::MAX as int,
        r.0.as_int() >= 1,
        pow_b((-r.1) as nat) >= pow_b((rhs.limbs() - 1) as nat) * (if rhs.as_int() >= 0 {
            rhs.as_int()
        } else {
            -rhs.as_int()
        }),
        r.0.as_int() * (if rhs.as_int() >= 0 {
            rhs.as_int()
        } else {
            -rhs.as_int()
        }) <= pow_b((-r.1) as nat) + (if rhs.as_int() >= 0 {
            rhs.as_int()
        } else {
            -rhs.as_int()
        }),
        pow_b((-r.1) as nat) <= r.0.as_int() * (if rhs.as_int() >= 0 {
            rhs.as_int()
        } else {
            -rhs.as_int()
        }) + (if rhs.as_int() >= 0 {
            rhs.as_int()
        } else {
            -rhs.as_int()
        }),
{
    let calc_number: usize = rhs.limb_count() + 1;
    inverse_at_precision(rhs, calc_number)
}

/// The reciprocal iteration of [`calculate_inverse`] at a caller-chosen
/// working precision in limbs. [`Integer::div`] widens the precision past the
/// divisor's own limb count when the dividend is long, so that the quotient
/// estimate it builds is sharp at the quotient's scale, not merely at the
/// divisor's.
fn inverse_at_precision(rhs: &Integer, calc_number: usize) -> (r: (Integer, i128))
    requires
        rhs.wf(),
        rhs.as_int() != 0,
        rhs.limbs() < calc_number,
        calc_number + rhs.limbs() + 2 <= usize::MAX,
    ensures
        r.0.wf(),
        r.1 <= 0,
        -r.1 <= usize::MAX as int,
        r.0.as_int() >= 1,
        pow_b((-r.1) as nat) >= pow_b((calc_number - 2) as nat) * (if rhs.as_int() >= 0 {
            rhs.as_int()
        } else {
            -rhs.as_int()
        }),
        r.0.as_int() * (if rhs.as_int() >= 0 {
            rhs.as_int()
        } else {
            -rhs.as_int()
        }) <= pow_b((-r.1) as nat) + (if rhs.as_int() >= 0 {
            rhs.as_int()
        } else {
            -rhs.as_int()
        }),
        pow_b((-r.1) as nat) <= r.0.as_int() * (if rhs.as_int() >= 0 {
            rhs.as_int()
        } else {
            -rhs.as_int()
        }) + (if rhs.as_int() >= 0 {
            rhs.as_int()
        } else {
            -rhs.as_int()
        }),
{
    let src = rhs.abs();
    let ghost b = src.as_int();
    proof {
        lemma_mag_val_bound(rhs.number_data@);
        lemma_pow_b_increases(rhs.limbs(), (calc_number - 1) as nat);
        assert(1 * b <= pow_b((calc_number - 1) as nat)) by (nonlinear_arith)
            requires
                b <= pow_b((calc_number - 1) as nat),
        ;
    }
    let mut predict = Integer::from_u128_value(1);
    let mut k: usize = calc_number - 1;
    let mut fuel: usize = match calc_number.checked_mul(130) {
        Some(f) => f,
        None => usize::MAX,
    };
    loop
        invariant
            predict.wf(),
            src.wf(),
            b == src.as_int(),
            b >= 1,
            predict.as_int() >= 0,
            predict.as_int() * b <= pow_b(k as nat),
        decreases fuel,
    {
        if fuel == 0 {
            break;
        }
        fuel = fuel - 1;
        let ghost x = predict.as_int();
        let ghost m = pow_b(k as nat);
        let mul_ps = predict.mul(&src);
        let ghost t = mul_ps.as_int();
        let two_shifted = shift_limbs(single_limb(2).as_slice(), k);
        let two_trimmed = cut_upper_zeros(two_shifted.as_slice());
        let two_int = from_canonical(two_trimmed, Sign::Positive);
        proof {
            assert(pow_b(k as nat) * 2 == 2 * m) by (nonlinear_arith)
                requires
                    m == pow_b(k as nat),
            ;
            assert(t >= 0) by (nonlinear_arith)
                requires
                    t == x * b,
                    x >= 0,
                    b >= 1,
            ;
        }
        let predict_step2 = two_int.sub(&mul_ps);
        let mut next = predict_step2.mul(&predict);
        proof {
            assert(next.as_int() >= 0) by (nonlinear_arith)
                requires
                    next.as_int() == (2 * m - t) * x,
                    t <= m,
                    x >= 0,
                    m >= 0,
            ;
            assert(next.as_int() * b == (2 * m - t) * t) by (nonlinear_arith)
                requires
                    next.as_int() == (2 * m - t) * x,
                    t == x * b,
            ;
            assert((2 * m - t) * t <= m * m) by (nonlinear_arith)
                requires
                    0 <= t <= m,
            ;
        }
        let k2_checked = k.checked_mul(2);
        if k2_checked.is_none() {
            break;
        }
        let mut k2 = k2_checked.unwrap();
        proof {
            lemma_pow_b_adds(k as nat, k as nat);
        }
        let next_len = next.limb_count();
        if next_len > calc_number {
            let diff = next_len - calc_number;
            if diff > k2 {
                break;
            }
            let ghost whole = next.as_int();
            let dropped = drop_lower_limbs(next.number_data.as_slice(), diff);
            proof {
                let pd = pow_b(diff as nat) as int;
                let q = mag_val(dropped@) as int;
                lemma_pow_b_pos(diff as nat);
                vstd::arithmetic::div_mod::lemma_fundamental_div_mod(whole, pd);
                lemma_mod_division_less_than_divisor(whole, pd);
                assert(q * pd <= whole) by (nonlinear_arith)
                    requires
                        whole == pd * q + whole % pd,
                        whole % pd >= 0,
                ;
                lemma_pow_b_adds((k2 - diff) as nat, diff as nat);
                assert((q * b) * pd <= pow_b((k2 - diff) as nat) * pd) by (nonlinear_arith)
                    requires
                        q * pd <= whole,
                        whole * b <= pow_b((k2 - diff) as nat) * pd,
                        b >= 1,
                        q >= 0,
                        pd >= 1,
                        whole >= 0,
                ;
                assert(q * b <= pow_b((k2 - diff) as nat)) by (nonlinear_arith)
                    requires
                        (q * b) * pd <= pow_b((k2 - diff) as nat) * pd,
                        pd >= 1,
                ;
            }
            next = from_canonical(
                dropped,
                if next.sign == Sign::Negative {
                    Sign::Negative
                } else {
                    Sign::Positive
                },
            );
            k2 = k2 - diff;
        }
        if next == predict {
            break;
        }
        predict = next;
        k = k2;
    }
    let ghost x_pre = predict.as_int();
    if predict.limb_count() >= 2 && k >= 1 {
        let guard = predict.number_data[0];
        let dropped = drop_lower_limbs(predict.number_data.as_slice(), 1);
        proof {
            let pd = base() as int;
            let q = mag_val(dropped@) as int;
            assert(pow_b(1) == base() * pow_b(0));
            vstd::arithmetic::div_mod::lemma_fundamental_div_mod(x_pre, pd);
            lemma_mod_division_less_than_divisor(x_pre, pd);
            assert(q * pd <= x_pre) by (nonlinear_arith)
                requires
                    x_pre == pd * q + x_pre % pd,
                    x_pre % pd >= 0,
            ;
            lemma_pow_b_adds((k - 1) as nat, 1);
            assert((q * b) * pd <= pow_b((k - 1) as nat) * pd) by (nonlinear_arith)
                requires
                    q * pd <= x_pre,
                    x_pre * b <= pow_b((k - 1) as nat) * pd,
                    b >= 1,
                    q >= 0,
                    pd >= 1,
                    x_pre >= 0,
            ;
            assert(q * b <= pow_b((k - 1) as nat)) by (nonlinear_arith)
                requires
                    (q * b) * pd <= pow_b((k - 1) as nat) * pd,
                    pd >= 1,
            ;
        }
        let rounded = if guard >= 0x8000_0000_0000_0000_0000_0000_0000_0000u128 {
            let one_mag = single_limb(1);
            let sum = arbitrary_precision_add(dropped.as_slice(), one_mag.as_slice());
            cut_upper_zeros(sum.as_slice())
        } else {
            dropped
        };
        proof {
            assert((mag_val(dropped@) + 1) * b == mag_val(dropped@) * b + b) by (nonlinear_arith);
        }
        predict = from_canonical(
            rounded,
            if predict.sign == Sign::Negative {
                Sign::Negative
            } else {
                Sign::Positive
            },
        );
        k = k - 1;
    }
    // accept the converged estimate only when it provably reaches the scale
    // from below and the scale itself carries the working precision;
    // otherwise fall back to the exact bisection reciprocal
    let nonzero = !is_zero_limbs(predict.number_data.as_slice());
    let scale = power_of_base(k);
    let estimate_product = predict.mul(&src);
    let slack = estimate_product.add(&src);
    let reaches_scale = match scale.compare(&slack) {
        core::cmp::Ordering::Greater => false,
        _ => true,
    };
    let threshold_mag = shift_limbs(src.number_data.as_slice(), calc_number - 2);
    let threshold_trimmed = cut_upper_zeros(threshold_mag.as_slice());
    let threshold = from_canonical(threshold_trimmed, Sign::Positive);
    proof {
        assert(threshold.as_int() == pow_b((calc_number - 2) as nat) * b);
    }
    let fine_enough = match threshold.compare(&scale) {
        core::cmp::Ordering::Greater => false,
        _ => true,
    };
    if nonzero && reaches_scale && fine_enough {
        (predict, -(k as i128))
    } else {
        let divisor_limbs = rhs.limb_count();
        let fallback_k = calc_number - 2 + divisor_limbs;
        let mantissa = reciprocal_by_bisection(&src, fallback_k);
        proof {
            let s = pow_b(fallback_k as nat) as int;
            lemma_fundamental_div_mod(s, b);
            lemma_mod_division_less_than_divisor(s, b);
            assert(mantissa.as_int() * b == b * (s / b)) by (nonlinear_arith)
                requires
                    mantissa.as_int() == s / b,
            ;
            lemma_mag_val_bound(rhs.number_data@);
            lemma_pow_b_increases(rhs.limbs(), fallback_k as nat);
            lemma_div_is_ordered(b, s, b);
            lemma_div_by_self(b);
            lemma_pow_b_adds((calc_number - 2) as nat, rhs.limbs());
            assert(pow_b((calc_number - 2) as nat) * b <= pow_b((calc_number - 2) as nat) * (pow_b(
                rhs.limbs(),
            ) - 1)) by (nonlinear_arith)
                requires
                    b <= pow_b(rhs.limbs()) - 1,
                    pow_b((calc_number - 2) as nat) >= 0,
            ;
            assert(pow_b((calc_number - 2) as nat) * (pow_b(rhs.limbs()) - 1) <= pow_b(
                (calc_number - 2) as nat,
            ) * pow_b(rhs.limbs()) - 1) by (nonlinear_arith)
                requires
                    pow_b((calc_number - 2) as nat) >= 1,
                    pow_b(rhs.limbs()) >= 1,
            ;
            lemma_pow_b_pos((calc_number - 2) as nat);
            lemma_pow_b_increases((calc_number - 2 + rhs.limbs()) as nat, fallback_k as nat);
        }
        (mantissa, -(fallback_k as i128))
    }
}

impl Integer {
    /// Quotient of truncating integer division. There is no digit-by-digit
    /// division: the quotient is `|self|` times the fixed-point reciprocal of
    /// the divisor, dropped by the reciprocal's scale, then pinned to the
    /// exact truncated quotient by a final correction against `|rhs|`; the
    /// sign follows the sign algebra, and a zero divisor is excluded before
    /// the engine runs.
    pub fn div(&self, rhs: &Integer) -> (q: Integer)
        requires
            self.wf(),
            rhs.wf(),
            rhs.as_int() != 0,
            self.limbs() <= usize::MAX as nat / 4,
            rhs.limbs() <= usize::MAX as nat / 4,
        ensures
            q.wf(),
            q.as_int() == trunc_div(self.as_int(), rhs.as_int()),
    {
        let sign = self.sign.div(rhs.sign);
        let a_abs = self.abs();
        let b_abs = rhs.abs();
        let dividend_limbs = a_abs.limb_count();
        let divisor_limbs = rhs.limb_count();
        // The reciprocal must be sharp at the quotient's scale: one guard limb
        // past the divisor covers short dividends, and a dividend longer than
        // the divisor widens the working precision by the length difference.
        let base_precision = divisor_limbs + 1;
        let quotient_precision = if dividend_limbs > divisor_limbs {
            dividend_limbs - divisor_limbs + 2
        } else {
            0
        };
        let precision = if base_precision >= quotient_precision {
            base_precision
        } else {
            quotient_precision
        };
        let inverse = inverse_at_precision(rhs, precision);
        let shift: usize = (-inverse.1) as usize;
        let product = arbitrary_precision_mul(
            a_abs.number_data.as_slice(),
            inverse.0.number_data.as_slice(),
        );
        let initial_mag = drop_lower_limbs(product.as_slice(), shift);
        let mut quotient = from_canonical(initial_mag, Sign::Positive);
        let one = Integer::from_u128_value(1);
        loop
            invariant
                quotient.wf(),
                quotient.as_int() >= 0,
                a_abs.wf(),
                b_abs.wf(),
                one.wf(),
                one.as_int() == 1,
                a_abs.as_int() >= 0,
                b_abs.as_int() >= 1,
            ensures
                quotient.wf(),
                quotient.as_int() >= 0,
                quotient.as_int() * b_abs.as_int() <= a_abs.as_int(),
            decreases quotient.as_int(),
        {
            let prod = quotient.mul(&b_abs);
            match prod.compare(&a_abs) {
                core::cmp::Ordering::Greater => {
                    proof {
                        assert(quotient.as_int() >= 1) by (nonlinear_arith)
                            requires
                                quotient.as_int() * b_abs.as_int() > a_abs.as_int(),
                                a_abs.as_int() >= 0,
                                b_abs.as_int() >= 1,
                                quotient.as_int() >= 0,
                        ;
                    }
                    quotient = quotient.sub(&one);
                },
                _ => {
                    break;
                },
            }
        }
        loop
            invariant
                quotient.wf(),
                quotient.as_int() >= 0,
                a_abs.wf(),
                b_abs.wf(),
                one.wf(),
                one.as_int() == 1,
                a_abs.as_int() >= 0,
                b_abs.as_int() >= 1,
                quotient.as_int() * b_abs.as_int() <= a_abs.as_int(),
            ensures
                quotient.wf(),
                quotient.as_int() >= 0,
                quotient.as_int() * b_abs.as_int() <= a_abs.as_int(),
                (quotient.as_int() + 1) * b_abs.as_int() > a_abs.as_int(),
            decreases a_abs.as_int() - quotient.as_int() * b_abs.as_int(),
        {
            let next_q = quotient.add(&one);
            let prod = next_q.mul(&b_abs);
            match prod.compare(&a_abs) {
                core::cmp::Ordering::Greater => {
                    break;
                },
                _ => {
                    proof {
                        assert((quotient.as_int() + 1) * b_abs.as_int() == quotient.as_int()
                            * b_abs.as_int() + b_abs.as_int()) by (nonlinear_arith);
                    }
                    quotient = next_q;
                },
            }
        }
        proof {
            let av = a_abs.as_int();
            let bv = b_abs.as_int();
            let qv = quotient.as_int();
            assert((qv + 1) * bv == qv * bv + bv) by (nonlinear_arith);
            lemma_fundamental_div_mod_converse_div(av, bv, qv, av - qv * bv);
            assert(qv == av / bv);
        }
        if sign == Sign::Negative {
            quotient.neg()
        } else {
            proof {
                if self.as_int() == 0 {
                    lemma_div_of0(b_abs.as_int());
                }
            }
            quotient
        }
    }

    /// Remainder of truncating division, always derived as
    /// `self - divide(self, rhs) * rhs`, never computed independently.
    pub fn rem(&self, rhs: &Integer) -> (r: Integer)
        requires
            self.wf(),
            rhs.wf(),
            rhs.as_int() != 0,
            self.limbs() <= usize::MAX as nat / 4,
            rhs.limbs() <= usize::MAX as nat / 4,
        ensures
            r.wf(),
            r.as_int() == trunc_rem(self.as_int(), rhs.as_int()),
            rhs.as_int() > 0 ==> -rhs.as_int() < r.as_int() < rhs.as_int(),
            rhs.as_int() < 0 ==> rhs.as_int() < r.as_int() < -rhs.as_int(),
            r.limbs() <= rhs.limbs(),
    {
        let q = self.div(rhs);
        let prod = q.mul(rhs);
        proof {
            assert(q.as_int() * rhs.as_int() == rhs.as_int() * q.as_int()) by (nonlinear_arith);
            lemma_trunc_rem_range(self.as_int(), rhs.as_int());
        }
        let r = self.sub(&prod);
        proof {
            lemma_mag_val_bound(rhs.number_data@);
            lemma_canonical_len_bound(r.number_data@, rhs.number_data@.len());
        }
        r
    }
}

impl crate::math_traits::FromPrimitiveNumber for Integer {
    fn from_i128(val: i128) -> (r: Self)
        ensures
            r.wf(),
            r.as_int() == val,
    {
        Integer::from_i128_value(val)
    }

    fn from_u128(val: u128) -> (r: Self)
        ensures
            r.wf(),
            r.as_int() == val,
    {
        Integer::from_u128_value(val)
    }
}

impl crate::math_traits::Zero for Integer {
    fn zero() -> (r: Self)
        ensures
            r.wf(),
            r.as_int() == 0,
    {
        Integer::from_u128_value(0)
    }
}

impl crate::math_traits::One for Integer {
    fn one() -> (r: Self)
        ensures
            r.wf(),
            r.as_int() == 1,
    {
        Integer::from_u128_value(1)
    }
}

/// The value of a limb sequence has the parity of its lowest limb: every
/// higher limb carries an even weight.
proof fn lemma_mag_parity(s: Seq<Digit>)
    requires
        s.len() >= 1,
    ensures
        (mag_val(s) as int) % 2 == (s[0] as int) % 2,
{
    let m = mag_val(s.drop_first()) as int;
    assert(mag_val(s) as int == s[0] as int + base() * m);
    assert(base() * m % 2 == 0) by (nonlinear_arith)
        requires
            base() % 2 == 0,
    ;
    assert((s[0] as int + base() * m) % 2 == (s[0] as int) % 2) by (nonlinear_arith)
        requires
            base() * m % 2 == 0,
    ;
}

/// Negation preserves parity.
proof fn lemma_neg_parity(v: int)
    ensures
        (v % 2 == 0) <==> ((-v) % 2 == 0),
{
    vstd::arithmetic::div_mod::lemma_fundamental_div_mod(v, 2);
    vstd::arithmetic::div_mod::lemma_fundamental_div_mod(-v, 2);
}

impl crate::math_traits::EvenOdd for Integer {
    fn is_even(&self) -> (r: bool)
        ensures
            self.wf() ==> (r <==> self.as_int() % 2 == 0),
    {
        if self.number_data.len() == 0 {
            // unreachable on a well-formed integer, whose magnitude always
            // holds at least one limb
            return true;
        }
        let limb = self.number_data[0];
        proof {
            if self.wf() {
                lemma_mag_parity(self.number_data@);
                lemma_neg_parity(mag_val(self.number_data@) as int);
                assert(limb & 1 == limb % 2) by (bit_vector);
            }
        }
        limb & 1 == 0
    }

    fn is_odd(&self) -> (r: bool)
        ensures
            self.wf() ==> (r <==> self.as_int() % 2 != 0),
    {
        if self.number_data.len() == 0 {
            return false;
        }
        let limb = self.number_data[0];
        proof {
            if self.wf() {
                lemma_mag_parity(self.number_data@);
                lemma_neg_parity(mag_val(self.number_data@) as int);
                assert(limb & 1 == limb % 2) by (bit_vector);
            }
        }
        limb & 1 == 1
    }
}

/// Two well-formed integers with the same mathematical value have the same
/// representation: the canonical magnitude and the sign coincide, so they are
/// equal as `==` sees them.
pub proof fn lemma_value_determines_representation(a: Integer, b: Integer)
    requires
        a.wf(),
        b.wf(),
        a.as_int() == b.as_int(),
    ensures
        a.eq_spec(&b),
{
    assert(a.sign == b.sign);
    assert(mag_val(a.number_data@) == mag_val(b.number_data@));
    lemma_canonical_unique(a.number_data@, b.number_data@);
}

/// Law: adding an integer to its negation yields the zero-valued integer.
/// `negated` is any result meeting [`Integer::neg`]'s contract for `x`, and
/// `sum` any result meeting [`Integer::add`]'s contract for `(x, negated)`;
/// the sum's value is zero, so by well-formedness its sign is `Zero` and its
/// magnitude the canonical zero.
pub proof fn lemma_additive_inverse(x: Integer, negated: Integer, sum: Integer, zero: Integer)
    requires
        x.wf(),
        negated.wf(),
        negated.as_int() == -x.as_int(),
        sum.wf(),
        sum.as_int() == x.as_int() + negated.as_int(),
        zero.wf(),
        zero.as_int() == 0,
    ensures
        sum.as_int() == 0,
        sum.eq_spec(&zero),
{
    lemma_value_determines_representation(sum, zero);
}

/// Law: multiplying by one returns the integer unchanged. `one` is any
/// well-formed integer of value one and `product` any result meeting
/// [`Integer::mul`]'s contract for `(x, one)`.
pub proof fn lemma_multiplicative_identity(x: Integer, one: Integer, product: Integer)
    requires
        x.wf(),
        one.wf(),
        one.as_int() == 1,
        product.wf(),
        product.as_int() == x.as_int() * one.as_int(),
    ensures
        product.eq_spec(&x),
{
    assert(x.as_int() * 1 == x.as_int()) by (nonlinear_arith);
    lemma_value_determines_representation(product, x);
}

/// Law: the division-remainder identity `a == divide(a,b)*b + remainder(a,b)`
/// holds for every integer `a` and non-zero `b`, where quotient and remainder
/// meet the contracts of [`Integer::div`] and [`Integer::rem`].
pub proof fn lemma_division_remainder_identity(a: Integer, b: Integer, q: Integer, r: Integer)
    requires
        a.wf(),
        b.wf(),
        b.as_int() != 0,
        q.as_int() == trunc_div(a.as_int(), b.as_int()),
        r.as_int() == trunc_rem(a.as_int(), b.as_int()),
    ensures
        a.as_int() == q.as_int() * b.as_int() + r.as_int(),
{
    assert(trunc_div(a.as_int(), b.as_int()) * b.as_int() == b.as_int() * trunc_div(
        a.as_int(),
        b.as_int(),
    )) by (nonlinear_arith);
}

/// An exact fraction: an integer numerator over an integer denominator, kept
/// unreduced — repeated arithmetic grows the denominators, and callers who
/// need bounded representations reduce externally. The denominator is never
/// zero.
#[derive(Debug, Clone)]
pub struct Rational {
    /// Numerator.
    positive: Integer,
    /// Denominator; its sign is never `Zero`.
    divider: Integer,
}

impl Rational {
    /// Well-formed: both parts are well-formed integers and the denominator
    /// is non-zero.
    pub closed spec fn wf(&self) -> bool {
        &&& self.positive.wf()
        &&& self.divider.wf()
        &&& self.divider.as_int() != 0
    }

    /// The numerator's mathematical value.
    pub closed spec fn num(&self) -> int {
        self.positive.as_int()
    }

    /// The denominator's mathematical value.
    pub closed spec fn den(&self) -> int {
        self.divider.as_int()
    }

    /// Builds the fraction `positive / divider`. A zero divider would be a
    /// division by zero, so it yields `None`.
    pub fn new(positive: &Integer, divider: &Integer) -> (r: Option<Rational>)
        requires
            positive.wf(),
            divider.wf(),
        ensures
            r is Some <==> divider.as_int() != 0,
            r matches Some(q) ==> q.wf() && q.num() == positive.as_int() && q.den()
                == divider.as_int(),
    {
        if divider.sign == Sign::Zero {
            None
        } else {
            Some(Rational { positive: positive.clone(), divider: divider.clone() })
        }
    }

    /// Embeds an integer as the fraction over denominator one.
    pub fn from_intager(val: &Integer) -> (r: Rational)
        requires
            val.wf(),
        ensures
            r.wf(),
            r.num() == val.as_int(),
            r.den() == 1,
    {
        Rational { positive: val.clone(), divider: Integer::from_u128_value(1) }
    }

    /// Cross-multiplied sum: `(a/b) + (c/d) = (a*d + c*b) / (b*d)`, with no
    /// reduction.
    pub fn add(&self, rhs: &Rational) -> (r: Rational)
        requires
            self.wf(),
            rhs.wf(),
        ensures
            r.wf(),
            r.num() == self.num() * rhs.den() + rhs.num() * self.den(),
            r.den() == self.den() * rhs.den(),
    {
        let n = self.positive.mul(&rhs.divider).add(&rhs.positive.mul(&self.divider));
        let d = self.divider.mul(&rhs.divider);
        proof {
            assert(self.den() * rhs.den() != 0) by (nonlinear_arith)
                requires
                    self.den() != 0,
                    rhs.den() != 0,
            ;
        }
        Rational { positive: n, divider: d }
    }

    /// Cross-multiplied difference: `(a/b) - (c/d) = (a*d - c*b) / (b*d)`,
    /// with no reduction.
    pub fn sub(&self, rhs: &Rational) -> (r: Rational)
        requires
            self.wf(),
            rhs.wf(),
        ensures
            r.wf(),
            r.num() == self.num() * rhs.den() - rhs.num() * self.den(),
            r.den() == self.den() * rhs.den(),
    {
        let n = self.positive.mul(&rhs.divider).sub(&rhs.positive.mul(&self.divider));
        let d = self.divider.mul(&rhs.divider);
        proof {
            assert(self.den() * rhs.den() != 0) by (nonlinear_arith)
                requires
                    self.den() != 0,
                    rhs.den() != 0,
            ;
        }
        Rational { positive: n, divider: d }
    }

    /// Product: `(a/b) * (c/d) = (a*c) / (b*d)`, with no reduction.
    pub fn mul(&self, rhs: &Rational) -> (r: Rational)
        requires
            self.wf(),
            rhs.wf(),
        ensures
            r.wf(),
            r.num() == self.num() * rhs.num(),
            r.den() == self.den() * rhs.den(),
    {
        let n = self.positive.mul(&rhs.positive);
        let d = self.divider.mul(&rhs.divider);
        proof {
            assert(self.den() * rhs.den() != 0) by (nonlinear_arith)
                requires
                    self.den() != 0,
                    rhs.den() != 0,
            ;
        }
        Rational { positive: n, divider: d }
    }

    /// Quotient: `(a/b) / (c/d) = (a*d) / (b*c)`. A zero divisor numerator
    /// would be a division by zero, so it yields `None`.
    pub fn div(&self, rhs: &Rational) -> (r: Option<Rational>)
        requires
            self.wf(),
            rhs.wf(),
        ensures
            r is Some <==> rhs.num() != 0,
            r matches Some(q) ==> q.wf() && q.num() == self.num() * rhs.den() && q.den()
                == self.den() * rhs.num(),
    {
        if rhs.positive.sign == Sign::Zero {
            None
        } else {
            let n = self.positive.mul(&rhs.divider);
            let d = self.divider.mul(&rhs.positive);
            proof {
                assert(self.den() * rhs.num() != 0) by (nonlinear_arith)
                    requires
                        self.den() != 0,
                        rhs.num() != 0,
                ;
            }
            Some(Rational { positive: n, divider: d })
        }
    }

    /// Three-way comparison of the fractions' mathematical values: the sign
    /// of `self - rhs` oriented by the sign of the product of denominators,
    /// since unreduced fractions may carry denominators of either sign.
    pub fn compare(&self, rhs: &Rational) -> (r: core::cmp::Ordering)
        requires
            self.wf(),
            rhs.wf(),
        ensures
            r == core::cmp::Ordering::Equal <==> self.num() * rhs.den() == rhs.num() * self.den(),
            r == core::cmp::Ordering::Less <==> (self.num() * rhs.den() - rhs.num() * self.den())
                * (self.den() * rhs.den()) < 0,
            r == core::cmp::Ordering::Greater <==> (self.num() * rhs.den() - rhs.num()
                * self.den()) * (self.den() * rhs.den()) > 0,
    {
        let result = self.sub(rhs);
        proof {
            let n = result.num();
            let d = result.den();
            assert((n != 0 && d != 0) ==> ((n * d < 0) <==> ((n < 0) != (d < 0))))
                by (nonlinear_arith);
            assert((n != 0 && d != 0) ==> ((n * d > 0) <==> ((n < 0) == (d < 0))))
                by (nonlinear_arith);
            assert(n == 0 ==> n * d == 0) by (nonlinear_arith);
        }
        match result.positive.sign.mul(result.divider.sign) {
            Sign::Positive => core::cmp::Ordering::Greater,
            Sign::Negative => core::cmp::Ordering::Less,
            Sign::Zero => core::cmp::Ordering::Equal,
        }
    }
}

} // verus!
