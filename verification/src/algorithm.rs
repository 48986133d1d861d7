//! Mathematical algorithms built on the integer core: a Euclidean greatest
//! common divisor that consumes comparison, division and remainder as black
//! boxes.

use crate::math_traits::Zero;
use crate::num::{lemma_value_determines_representation, trunc_div, Integer};
use vstd::prelude::*;
use vstd::std_specs::cmp::PartialEqSpec;

verus! {

/// `d` divides `n`: some integer multiple of `d` equals `n`.
pub open spec fn divides(d: int, n: int) -> bool {
    exists|k: int| n == #[trigger] (d * k)
}

/// A divisor of `n` also divides `-n`, and so does its own negation.
proof fn lemma_divides_negations(d: int, n: int)
    requires
        divides(d, n),
    ensures
        divides(d, -n),
        divides(-d, n),
{
    let k = choose|k: int| n == #[trigger] (d * k);
    assert(-n == d * (-k)) by (nonlinear_arith)
        requires
            n == d * k,
    ;
    assert(n == (-d) * (-k)) by (nonlinear_arith)
        requires
            n == d * k,
    ;
}

/// A divisor of `b` and of `r` divides `b * q + r`.
proof fn lemma_divides_combination(d: int, b: int, q: int, r: int)
    requires
        divides(d, b),
        divides(d, r),
    ensures
        divides(d, b * q + r),
{
    let k1 = choose|k: int| b == #[trigger] (d * k);
    let k2 = choose|k: int| r == #[trigger] (d * k);
    assert(b * q + r == d * (k1 * q + k2)) by (nonlinear_arith)
        requires
            b == d * k1,
            r == d * k2,
    ;
}

/// A divisor of `a` and of `b` divides the remainder `a - b * q`.
proof fn lemma_divides_remainder(d: int, a: int, b: int, q: int)
    requires
        divides(d, a),
        divides(d, b),
    ensures
        divides(d, a - b * q),
{
    let k1 = choose|k: int| a == #[trigger] (d * k);
    let k2 = choose|k: int| b == #[trigger] (d * k);
    assert(a - b * q == d * (k1 - k2 * q)) by (nonlinear_arith)
        requires
            a == d * k1,
            b == d * k2,
    ;
}

/// Greatest common divisor of two non-zero integers by Euclid's algorithm:
/// repeatedly replaces the pair by (divisor, remainder) until the remainder
/// vanishes, then takes the absolute value. The result is positive, divides
/// both inputs, and every common divisor of the inputs divides it — which
/// pins it as the greatest common divisor and makes `gcd` symmetric in its
/// arguments (see [`lemma_gcd_agrees`]).
pub fn gcd(lhs: &Integer, rhs: &Integer) -> (r: Integer)
    requires
        lhs.wf(),
        rhs.wf(),
        lhs.as_int() != 0,
        rhs.as_int() != 0,
        lhs.limbs() <= usize::MAX as nat / 4,
        rhs.limbs() <= usize::MAX as nat / 4,
    ensures
        r.wf(),
        r.as_int() > 0,
        divides(r.as_int(), lhs.as_int()),
        divides(r.as_int(), rhs.as_int()),
        forall|d: int|
            divides(d, lhs.as_int()) && divides(d, rhs.as_int()) ==> divides(d, r.as_int()),
{
    let ghost a0 = lhs.as_int();
    let ghost b0 = rhs.as_int();
    proof {
        assert(a0 == a0 * 1 && b0 == b0 * 1) by (nonlinear_arith);
    }
    let mut data: Integer;
    let mut rem_v: Integer;
    match lhs.compare(rhs) {
        core::cmp::Ordering::Equal => {
            let r = lhs.abs();
            proof {
                if a0 > 0 {
                    assert(a0 == r.as_int() * 1) by (nonlinear_arith)
                        requires
                            r.as_int() == a0,
                    ;
                } else {
                    assert(a0 == r.as_int() * (-1)) by (nonlinear_arith)
                        requires
                            r.as_int() == -a0,
                    ;
                }
                assert(divides(r.as_int(), a0));
                assert forall|d: int| divides(d, a0) && divides(d, b0) implies divides(
                    d,
                    r.as_int(),
                ) by {
                    if a0 < 0 {
                        lemma_divides_negations(d, a0);
                    }
                }
            }
            return r;
        },
        core::cmp::Ordering::Greater => {
            data = lhs.clone();
            rem_v = rhs.clone();
        },
        core::cmp::Ordering::Less => {
            data = rhs.clone();
            rem_v = lhs.clone();
        },
    }
    loop
        invariant
            data.wf(),
            rem_v.wf(),
            rem_v.as_int() != 0,
            data.limbs() <= usize::MAX as nat / 4,
            rem_v.limbs() <= usize::MAX as nat / 4,
            forall|d: int|
                divides(d, data.as_int()) && divides(d, rem_v.as_int()) ==> divides(d, a0)
                    && divides(d, b0),
            forall|d: int|
                divides(d, a0) && divides(d, b0) ==> divides(d, data.as_int()) && divides(
                    d,
                    rem_v.as_int(),
                ),
        ensures
            rem_v.wf(),
            rem_v.as_int() != 0,
            divides(rem_v.as_int(), a0),
            divides(rem_v.as_int(), b0),
            forall|d: int| divides(d, a0) && divides(d, b0) ==> divides(d, rem_v.as_int()),
        decreases (if rem_v.as_int() >= 0 {
            rem_v.as_int()
        } else {
            -rem_v.as_int()
        }),
    {
        let result_rem = data.rem(&rem_v);
        let zero = Integer::zero();
        match result_rem.compare(&zero) {
            core::cmp::Ordering::Equal => {
                proof {
                    let dv = data.as_int();
                    let rv = rem_v.as_int();
                    let q = trunc_div(dv, rv);
                    assert(dv == rv * q);
                    assert(rv == rv * 1) by (nonlinear_arith);
                    assert(divides(rv, dv));
                    assert(divides(rv, rv));
                }
                break;
            },
            _ => {
                proof {
                    let dv = data.as_int();
                    let rv = rem_v.as_int();
                    let q = trunc_div(dv, rv);
                    let new_r = result_rem.as_int();
                    assert(new_r == dv - rv * q);
                    assert forall|d: int|
                        divides(d, rem_v.as_int()) && divides(d, new_r) implies divides(d, a0)
                        && divides(d, b0) by {
                        lemma_divides_combination(d, rv, q, new_r);
                        assert(rv * q + new_r == dv);
                    }
                    assert forall|d: int| divides(d, a0) && divides(d, b0) implies divides(
                        d,
                        rem_v.as_int(),
                    ) && divides(d, new_r) by {
                        lemma_divides_remainder(d, dv, rv, q);
                    }
                }
                data = rem_v;
                rem_v = result_rem;
            },
        }
    }
    let result = rem_v.abs();
    proof {
        let g = rem_v.as_int();
        if g < 0 {
            lemma_divides_negations(g, a0);
            lemma_divides_negations(g, b0);
        }
        assert forall|d: int| divides(d, a0) && divides(d, b0) implies divides(
            d,
            result.as_int(),
        ) by {
            if g < 0 {
                lemma_divides_negations(d, g);
            }
        }
    }
    result
}

/// Law: the greatest common divisor is determined by its contract, so `gcd`
/// is symmetric in its arguments. Any two well-formed positive integers that
/// divide both `a` and `b` and that every common divisor of `a` and `b`
/// divides — the clauses [`gcd`] ensures, which do not distinguish the
/// operand order — are the same integer.
pub proof fn lemma_gcd_agrees(a: int, b: int, g1: Integer, g2: Integer)
    requires
        g1.wf(),
        g2.wf(),
        g1.as_int() > 0,
        g2.as_int() > 0,
        divides(g1.as_int(), a),
        divides(g1.as_int(), b),
        divides(g2.as_int(), a),
        divides(g2.as_int(), b),
        forall|d: int| divides(d, a) && divides(d, b) ==> divides(d, g1.as_int()),
        forall|d: int| divides(d, a) && divides(d, b) ==> divides(d, g2.as_int()),
    ensures
        g1.eq_spec(&g2),
{
    let v1 = g1.as_int();
    let v2 = g2.as_int();
    assert(divides(v1, v2));
    assert(divides(v2, v1));
    let k = choose|k: int| v2 == #[trigger] (v1 * k);
    let m = choose|k: int| v1 == #[trigger] (v2 * k);
    assert(v2 >= v1) by (nonlinear_arith)
        requires
            v2 == v1 * k,
            v1 > 0,
            v2 > 0,
    ;
    assert(v1 >= v2) by (nonlinear_arith)
        requires
            v1 == v2 * m,
            v1 > 0,
            v2 > 0,
    ;
    lemma_value_determines_representation(g1, g2);
}

} // verus!
