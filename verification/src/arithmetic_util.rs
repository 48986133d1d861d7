//! Limb-level kernel for arbitrary-precision magnitudes.
//!
//! A magnitude is a non-negative integer stored as a sequence of `u128` limbs,
//! least-significant limb first: the sequence `[d0, d1, d2]` stands for
//! `d0 + d1*2^128 + d2*2^256`. The functions here are the column-arithmetic
//! core: addition with carry propagation, subtraction with borrow propagation
//! and complement reconstruction of negative results, and recursive
//! Karatsuba-style multiplication. Every function is specified against
//! [`mag_val`], the numeric value of a limb sequence.

use vstd::prelude::*;
use vstd::slice::slice_to_vec;

verus! {

/// One limb of a magnitude: a single digit in base 2^128.
pub type Digit = u128;

/// The radix: each limb is one digit in base 2^128.
pub open spec fn base() -> nat {
    u128::MAX as nat + 1
}

/// Numeric value of a limb sequence, least-significant limb first.
pub open spec fn mag_val(s: Seq<Digit>) -> nat
    decreases s.len(),
{
    if s.len() == 0 {
        0
    } else {
        s[0] as nat + base() * mag_val(s.drop_first())
    }
}

/// `base()` raised to `e`: the weight of the limb at position `e`.
pub open spec fn pow_b(e: nat) -> nat
    decreases e,
{
    if e == 0 {
        1
    } else {
        base() * pow_b((e - 1) as nat)
    }
}

/// The digit at position `i`, reading positions past the end as zero.
pub open spec fn digit_at(s: Seq<Digit>, i: int) -> Digit {
    if 0 <= i < s.len() {
        s[i]
    } else {
        0
    }
}

/// Value contributed by the digits strictly below position `n`, with zero
/// padding past the end of the sequence.
pub open spec fn val_below(s: Seq<Digit>, n: int) -> nat
    decreases n,
{
    if n <= 0 {
        0
    } else {
        val_below(s, n - 1) + digit_at(s, n - 1) as nat * pow_b((n - 1) as nat)
    }
}

/// A magnitude in canonical form: at least one limb, and no superfluous
/// leading zero limb (the single-limb zero is the canonical zero).
pub open spec fn canonical(s: Seq<Digit>) -> bool {
    s.len() >= 1 && (s.len() == 1 || s.last() != 0)
}

/// Every power of the base is positive.
pub proof fn lemma_pow_b_pos(e: nat)
    ensures
        pow_b(e) >= 1,
    decreases e,
{
    if e > 0 {
        lemma_pow_b_pos((e - 1) as nat);
        assert(base() * pow_b((e - 1) as nat) >= base() * 1) by (nonlinear_arith)
            requires
                pow_b((e - 1) as nat) >= 1,
        ;
    }
}

/// Powers of the base multiply by adding exponents.
pub proof fn lemma_pow_b_adds(e1: nat, e2: nat)
    ensures
        pow_b(e1 + e2) == pow_b(e1) * pow_b(e2),
    decreases e1,
{
    if e1 == 0 {
        assert(pow_b(e2) == 1 * pow_b(e2)) by (nonlinear_arith);
    } else {
        lemma_pow_b_adds((e1 - 1) as nat, e2);
        assert((e1 + e2 - 1) as nat == (e1 - 1) as nat + e2);
        assert(base() * ((pow_b((e1 - 1) as nat) * pow_b(e2))) == (base() * pow_b(
            (e1 - 1) as nat,
        )) * pow_b(e2)) by (nonlinear_arith);
    }
}

/// Appending a limb on the most-significant end adds its weighted value.
pub proof fn lemma_mag_val_snoc(s: Seq<Digit>, d: Digit)
    ensures
        mag_val(s.push(d)) == mag_val(s) + d as nat * pow_b(s.len()),
    decreases s.len(),
{
    let t = s.push(d);
    if s.len() == 0 {
        assert(t.drop_first() =~= Seq::<Digit>::empty());
        assert(mag_val(Seq::<Digit>::empty()) == 0);
        assert(mag_val(t) == t[0] as nat + base() * mag_val(t.drop_first()));
        assert(base() * 0 == 0) by (nonlinear_arith);
        assert(pow_b(0) == 1);
        assert(d as nat * 1 == d as nat) by (nonlinear_arith);
    } else {
        assert(t.drop_first() =~= s.drop_first().push(d));
        lemma_mag_val_snoc(s.drop_first(), d);
        let m = mag_val(s.drop_first());
        let p = pow_b((s.len() - 1) as nat);
        assert(mag_val(t) == t[0] as nat + base() * mag_val(t.drop_first()));
        assert(mag_val(t.drop_first()) == m + d as nat * p);
        assert(mag_val(s) == s[0] as nat + base() * m);
        assert(pow_b(s.len()) == base() * p);
        assert(base() * (m + d as nat * p) == base() * m + d as nat * (base() * p))
            by (nonlinear_arith);
        assert(mag_val(t) == mag_val(s) + d as nat * pow_b(s.len()));
    }
}

/// `val_below` over the first `n` positions is the value of the length-`n` prefix.
pub proof fn lemma_val_below_is_prefix(s: Seq<Digit>, n: int)
    requires
        0 <= n <= s.len(),
    ensures
        val_below(s, n) == mag_val(s.take(n)),
    decreases n,
{
    if n > 0 {
        lemma_val_below_is_prefix(s, n - 1);
        assert(s.take(n) =~= s.take(n - 1).push(s[n - 1]));
        lemma_mag_val_snoc(s.take(n - 1), s[n - 1]);
    }
}

/// Past the end of the sequence, `val_below` is the whole value.
pub proof fn lemma_val_below_all(s: Seq<Digit>, n: int)
    requires
        n >= s.len(),
    ensures
        val_below(s, n) == mag_val(s),
    decreases n,
{
    if n > s.len() {
        lemma_val_below_all(s, n - 1);
        assert(val_below(s, n) == val_below(s, n - 1) + digit_at(s, n - 1) as nat * pow_b(
            (n - 1) as nat,
        ));
        assert(digit_at(s, n - 1) == 0);
    } else {
        lemma_val_below_is_prefix(s, n);
        assert(s.take(n) =~= s);
    }
}

/// A limb sequence of length `n` has value below `base()^n`.
pub proof fn lemma_mag_val_bound(s: Seq<Digit>)
    ensures
        mag_val(s) < pow_b(s.len()),
    decreases s.len(),
{
    if s.len() == 0 {
    } else {
        lemma_mag_val_bound(s.drop_first());
        let m = mag_val(s.drop_first());
        let p = pow_b((s.len() - 1) as nat);
        assert(base() * m + base() <= base() * p) by (nonlinear_arith)
            requires
                m < p,
        ;
    }
}

/// A sequence whose top limb is non-zero has value at least the weight of
/// that limb.
pub proof fn lemma_last_limb_lower(s: Seq<Digit>)
    requires
        s.len() >= 1,
        s.last() != 0,
    ensures
        mag_val(s) >= pow_b((s.len() - 1) as nat),
{
    assert(s =~= s.drop_last().push(s.last()));
    lemma_mag_val_snoc(s.drop_last(), s.last());
    let p = pow_b((s.len() - 1) as nat);
    assert(s.last() as nat * p >= 1 * p) by (nonlinear_arith)
        requires
            s.last() >= 1,
            p >= 0,
    ;
}

/// Powers of the base are monotone in the exponent.
pub proof fn lemma_pow_b_increases(e1: nat, e2: nat)
    requires
        e1 <= e2,
    ensures
        pow_b(e1) <= pow_b(e2),
{
    lemma_pow_b_adds(e1, (e2 - e1) as nat);
    lemma_pow_b_pos(e1);
    lemma_pow_b_pos((e2 - e1) as nat);
    assert(pow_b(e1) * 1 <= pow_b(e1) * pow_b((e2 - e1) as nat)) by (nonlinear_arith)
        requires
            pow_b(e1) >= 1,
            pow_b((e2 - e1) as nat) >= 1,
    ;
}

/// A canonical magnitude whose value lies below `base()^n` has at most `n`
/// limbs (for `n >= 1`).
pub proof fn lemma_canonical_len_bound(s: Seq<Digit>, n: nat)
    requires
        canonical(s),
        n >= 1,
        mag_val(s) < pow_b(n),
    ensures
        s.len() <= n,
{
    if s.len() > n {
        assert(s.last() != 0);
        lemma_last_limb_lower(s);
        lemma_pow_b_increases(n, (s.len() - 1) as nat);
    }
}

/// Exact limb count of a kernel sum: the longer operand's count, plus one
/// exactly when the sum's value reaches that count's weight.
pub open spec fn sum_len(l1: nat, l2: nat, v: nat) -> nat {
    let m = if l1 >= l2 {
        l1
    } else {
        l2
    };
    if v < pow_b(m) {
        m
    } else {
        m + 1
    }
}

/// Limb-wise addition of two magnitudes: column addition with carry
/// propagation. Each column can overflow twice (digit plus digit, then plus
/// the incoming carry), and both events feed the outgoing carry; the proof
/// shows the carry still never exceeds one. The result has exactly the
/// longer operand's limb count, plus one exactly when the sum's value needs
/// the extra position ([`sum_len`]); together with the value, that pins the
/// output limb for limb.
pub fn arbitrary_precision_add(lhs: &[Digit], rhs: &[Digit]) -> (r: Vec<Digit>)
    ensures
        mag_val(r@) == mag_val(lhs@) + mag_val(rhs@),
        r@.len() >= lhs@.len(),
        r@.len() >= rhs@.len(),
        r@.len() == sum_len(lhs@.len(), rhs@.len(), mag_val(lhs@) + mag_val(rhs@)),
{
    let argsize = if lhs.len() >= rhs.len() {
        lhs.len()
    } else {
        rhs.len()
    };
    let mut array: Vec<Digit> = Vec::new();
    let mut carry: Digit = 0;
    let mut i: usize = 0;
    while i < argsize
        invariant
            i <= argsize,
            argsize == if lhs@.len() >= rhs@.len() {
                lhs@.len()
            } else {
                rhs@.len()
            },
            array@.len() == i,
            carry <= 1,
            mag_val(array@) + carry as nat * pow_b(i as nat) == val_below(lhs@, i as int)
                + val_below(rhs@, i as int),
        decreases argsize - i,
    {
        let lhs_digit = if i < lhs.len() {
            lhs[i]
        } else {
            0
        };
        let rhs_digit = if i < rhs.len() {
            rhs[i]
        } else {
            0
        };
        let sum1 = lhs_digit.wrapping_add(rhs_digit);
        let overflow1 = sum1 < lhs_digit;
        let sum2 = sum1.wrapping_add(carry);
        let overflow2 = sum2 < sum1;
        let new_carry: Digit = if overflow1 || overflow2 {
            1
        } else {
            0
        };
        proof {
            assert(lhs_digit + rhs_digit + carry == new_carry * base() + sum2);
            lemma_mag_val_snoc(array@, sum2);
            let p = pow_b(i as nat);
            let a2 = array@.push(sum2);
            assert(mag_val(a2) == mag_val(array@) + sum2 as nat * p);
            assert(pow_b((i + 1) as nat) == base() * p);
            assert(digit_at(lhs@, i as int) == lhs_digit);
            assert(digit_at(rhs@, i as int) == rhs_digit);
            assert(val_below(lhs@, i as int + 1) == val_below(lhs@, i as int) + lhs_digit as nat
                * p);
            assert(val_below(rhs@, i as int + 1) == val_below(rhs@, i as int) + rhs_digit as nat
                * p);
            assert(mag_val(a2) + new_carry as nat * (base() * p) == val_below(lhs@, i as int + 1)
                + val_below(rhs@, i as int + 1)) by (nonlinear_arith)
                requires
                    lhs_digit + rhs_digit + carry == new_carry * base() + sum2,
                    mag_val(a2) == mag_val(array@) + sum2 as nat * p,
                    mag_val(array@) + carry as nat * p == val_below(lhs@, i as int) + val_below(
                        rhs@,
                        i as int,
                    ),
                    val_below(lhs@, i as int + 1) == val_below(lhs@, i as int) + lhs_digit as nat
                        * p,
                    val_below(rhs@, i as int + 1) == val_below(rhs@, i as int) + rhs_digit as nat
                        * p,
            ;
        }
        array.push(sum2);
        carry = new_carry;
        i = i + 1;
    }
    proof {
        lemma_val_below_all(lhs@, argsize as int);
        lemma_val_below_all(rhs@, argsize as int);
        lemma_mag_val_bound(array@);
        if carry == 0 {
            assert(carry as nat * pow_b(i as nat) == 0) by (nonlinear_arith)
                requires
                    carry == 0,
            ;
        } else {
            assert(carry as nat * pow_b(i as nat) == pow_b(i as nat)) by (nonlinear_arith)
                requires
                    carry == 1,
            ;
        }
    }
    if carry > 0 {
        proof {
            lemma_mag_val_snoc(array@, carry);
            assert(carry as nat * pow_b(argsize as nat) == mag_val(array@.push(carry)) - mag_val(
                array@,
            ));
        }
        array.push(carry);
    }
    array
}

/// Removes superfluous leading zero limbs, bringing a magnitude to canonical
/// form without changing its value.
pub fn cut_upper_zeros(number: &[Digit]) -> (r: Vec<Digit>)
    requires
        number@.len() >= 1,
    ensures
        canonical(r@),
        mag_val(r@) == mag_val(number@),
        r@.len() <= number@.len(),
{
    let mut num_mut: Vec<Digit> = slice_to_vec(number);
    while num_mut.len() > 1 && num_mut[num_mut.len() - 1] == 0
        invariant
            num_mut@.len() >= 1,
            num_mut@.len() <= number@.len(),
            mag_val(num_mut@) == mag_val(number@),
        decreases num_mut@.len(),
    {
        proof {
            let s = num_mut@;
            assert(s =~= s.drop_last().push(s.last()));
            lemma_mag_val_snoc(s.drop_last(), s.last());
            assert(s.last() as nat * pow_b(s.drop_last().len()) == 0) by (nonlinear_arith)
                requires
                    s.last() == 0,
            ;
        }
        num_mut.pop();
    }
    num_mut
}

/// Rebuilds the true magnitude from the complement artifact a borrowed
/// subtraction leaves behind: leading zero limbs stay zero (they cannot
/// borrow), the first non-zero limb becomes `MAX - limb + 1`, and every later
/// limb becomes `MAX - limb`. The result is `base()^len` minus the input,
/// which also maps a complement back to the absolute value.
pub fn to_min_complement(number: &[Digit]) -> (r: Vec<Digit>)
    requires
        number@.len() >= 1,
        mag_val(number@) >= 1,
    ensures
        r@.len() == number@.len(),
        mag_val(r@) == pow_b(number@.len()) - mag_val(number@),
{
    let mut array_result: Vec<Digit> = Vec::new();
    let mut need_carry: bool = true;
    let mut first_zeros: bool = true;
    let mut i: usize = 0;
    while i < number.len()
        invariant
            i <= number@.len(),
            array_result@.len() == i,
            need_carry == first_zeros,
            first_zeros ==> val_below(number@, i as int) == 0 && mag_val(array_result@) == 0,
            !first_zeros ==> val_below(number@, i as int) >= 1 && mag_val(array_result@) == pow_b(
                i as nat,
            ) - val_below(number@, i as int),
        decreases number@.len() - i,
    {
        let ghost prev = array_result@;
        let digit = number[i];
        proof {
            assert(val_below(number@, i as int + 1) == val_below(number@, i as int) + digit as nat
                * pow_b(i as nat));
        }
        if first_zeros && digit == 0 {
            proof {
                lemma_mag_val_snoc(prev, 0);
                assert(digit as nat * pow_b(i as nat) == 0) by (nonlinear_arith)
                    requires
                        digit == 0,
                ;
            }
            array_result.push(0);
        } else {
            first_zeros = false;
            let new_digit: Digit = if need_carry {
                Digit::MAX - digit + 1
            } else {
                Digit::MAX - digit
            };
            proof {
                lemma_mag_val_snoc(prev, new_digit);
                let p = pow_b(i as nat);
                lemma_pow_b_pos(i as nat);
                lemma_val_below_is_prefix(number@, i as int);
                lemma_mag_val_bound(number@.take(i as int));
                assert(pow_b((i + 1) as nat) == base() * p);
                assert(mag_val(prev) + new_digit as nat * p == base() * p - (val_below(
                    number@,
                    i as int,
                ) + digit as nat * p)) by (nonlinear_arith)
                    requires
                        need_carry ==> mag_val(prev) == 0 && val_below(number@, i as int) == 0
                            && new_digit == base() - digit,
                        !need_carry ==> mag_val(prev) == pow_b(i as nat) - val_below(
                            number@,
                            i as int,
                        ) && new_digit == base() - 1 - digit && val_below(number@, i as int) >= 1,
                        p == pow_b(i as nat),
                        val_below(number@, i as int) <= p,
                ;
                if need_carry {
                    assert(digit as nat * p >= 1 * p) by (nonlinear_arith)
                        requires
                            digit >= 1,
                            p >= 0,
                    ;
                }
            }
            need_carry = false;
            array_result.push(new_digit);
        }
        i = i + 1;
    }
    proof {
        lemma_val_below_all(number@, number@.len() as int);
        assert(!first_zeros);
    }
    array_result
}

/// Limb-wise subtraction with borrow propagation. Returns the magnitude of
/// the difference together with a negativity flag: a borrow surviving the
/// final limb means the true result is negative and the limb array holds a
/// complement artifact, which [`to_min_complement`] turns back into the true
/// magnitude. The proof shows the borrow count never leaves `{0, 1}`.
pub fn arbitrary_precision_sub(lhs: &[Digit], rhs: &[Digit]) -> (r: (Vec<Digit>, bool))
    requires
        lhs@.len() >= 1,
        rhs@.len() >= 1,
    ensures
        canonical(r.0@),
        r.1 <==> mag_val(lhs@) < mag_val(rhs@),
        !r.1 ==> mag_val(r.0@) == mag_val(lhs@) - mag_val(rhs@),
        r.1 ==> mag_val(r.0@) == mag_val(rhs@) - mag_val(lhs@),
        r.0@.len() <= if lhs@.len() >= rhs@.len() {
            lhs@.len()
        } else {
            rhs@.len()
        },
{
    let array_len = if lhs.len() >= rhs.len() {
        lhs.len()
    } else {
        rhs.len()
    };
    let mut array_result: Vec<Digit> = Vec::new();
    let mut carry_down: Digit = 0;
    let mut i: usize = 0;
    while i < array_len
        invariant
            i <= array_len,
            array_len == if lhs@.len() >= rhs@.len() {
                lhs@.len()
            } else {
                rhs@.len()
            },
            array_result@.len() == i,
            carry_down <= 1,
            mag_val(array_result@) == val_below(lhs@, i as int) - val_below(rhs@, i as int)
                + carry_down as nat * pow_b(i as nat),
        decreases array_len - i,
    {
        let lhs_digit = if i < lhs.len() {
            lhs[i]
        } else {
            0
        };
        let rhs_digit = if i < rhs.len() {
            rhs[i]
        } else {
            0
        };
        let diff1 = lhs_digit.wrapping_sub(rhs_digit);
        let borrow1 = lhs_digit < rhs_digit;
        let diff2 = diff1.wrapping_sub(carry_down);
        let borrow2 = diff1 < carry_down;
        let new_carry: Digit = if borrow1 || borrow2 {
            1
        } else {
            0
        };
        proof {
            assert(lhs_digit - rhs_digit - carry_down == diff2 - new_carry * base());
            lemma_mag_val_snoc(array_result@, diff2);
            let p = pow_b(i as nat);
            let a2 = array_result@.push(diff2);
            assert(mag_val(a2) == mag_val(array_result@) + diff2 as nat * p);
            assert(pow_b((i + 1) as nat) == base() * p);
            assert(digit_at(lhs@, i as int) == lhs_digit);
            assert(digit_at(rhs@, i as int) == rhs_digit);
            assert(val_below(lhs@, i as int + 1) == val_below(lhs@, i as int) + lhs_digit as nat
                * p);
            assert(val_below(rhs@, i as int + 1) == val_below(rhs@, i as int) + rhs_digit as nat
                * p);
            assert(mag_val(a2) == val_below(lhs@, i as int + 1) - val_below(rhs@, i as int + 1)
                + new_carry as nat * (base() * p)) by (nonlinear_arith)
                requires
                    lhs_digit - rhs_digit - carry_down == diff2 - new_carry * base(),
                    mag_val(a2) == mag_val(array_result@) + diff2 as nat * p,
                    mag_val(array_result@) == val_below(lhs@, i as int) - val_below(
                        rhs@,
                        i as int,
                    ) + carry_down as nat * p,
                    val_below(lhs@, i as int + 1) == val_below(lhs@, i as int) + lhs_digit as nat
                        * p,
                    val_below(rhs@, i as int + 1) == val_below(rhs@, i as int) + rhs_digit as nat
                        * p,
            ;
        }
        array_result.push(diff2);
        carry_down = new_carry;
        i = i + 1;
    }
    proof {
        lemma_val_below_all(lhs@, array_len as int);
        lemma_val_below_all(rhs@, array_len as int);
        lemma_mag_val_bound(lhs@);
        lemma_mag_val_bound(rhs@);
        lemma_mag_val_bound(array_result@);
        lemma_pow_b_increases(lhs@.len(), array_len as nat);
        lemma_pow_b_increases(rhs@.len(), array_len as nat);
        if carry_down == 0 {
            assert(carry_down as nat * pow_b(array_len as nat) == 0) by (nonlinear_arith)
                requires
                    carry_down == 0,
            ;
        }
    }
    if carry_down == 0 {
        let trimmed = cut_upper_zeros(array_result.as_slice());
        (trimmed, false)
    } else {
        assert(mag_val(array_result@) >= 1);
        let complement = to_min_complement(array_result.as_slice());
        let trimmed = cut_upper_zeros(complement.as_slice());
        (trimmed, true)
    }
}

/// Splitting a limb sequence at position `k` splits its value: the low part
/// keeps its value, the high part is scaled by the weight of position `k`.
pub proof fn lemma_mag_val_split(s: Seq<Digit>, k: int)
    requires
        0 <= k <= s.len(),
    ensures
        mag_val(s) == mag_val(s.take(k)) + pow_b(k as nat) * mag_val(s.skip(k)),
    decreases k,
{
    if k == 0 {
        assert(s.take(0) =~= Seq::<Digit>::empty());
        assert(s.skip(0) =~= s);
        assert(pow_b(0) * mag_val(s) == mag_val(s)) by (nonlinear_arith)
            requires
                pow_b(0) == 1,
        ;
    } else {
        lemma_mag_val_split(s, k - 1);
        let t = mag_val(s.take(k - 1));
        let p = pow_b((k - 1) as nat);
        let m = mag_val(s.skip(k));
        assert(s.skip(k - 1).drop_first() =~= s.skip(k));
        assert(s.skip(k - 1).len() >= 1);
        assert(mag_val(s.skip(k - 1)) == s[k - 1] as nat + base() * m);
        assert(s.take(k) =~= s.take(k - 1).push(s[k - 1]));
        lemma_mag_val_snoc(s.take(k - 1), s[k - 1]);
        assert(pow_b(k as nat) == base() * p);
        assert(p * (s[k - 1] as nat + base() * m) == s[k - 1] as nat * p + (base() * p) * m)
            by (nonlinear_arith);
    }
}

/// Two canonical magnitudes with the same value are the same limb sequence.
pub proof fn lemma_canonical_unique(a: Seq<Digit>, b: Seq<Digit>)
    requires
        canonical(a),
        canonical(b),
        mag_val(a) == mag_val(b),
    ensures
        a == b,
    decreases a.len(),
{
    lemma_mag_val_bound(a);
    lemma_mag_val_bound(b);
    if a.len() == 1 && b.len() == 1 {
        assert(a =~= b);
    } else if a.len() < b.len() {
        assert(b.last() != 0);
        lemma_last_limb_lower(b);
        lemma_pow_b_increases(a.len(), (b.len() - 1) as nat);
        assert(false);
    } else if a.len() > b.len() {
        assert(a.last() != 0);
        lemma_last_limb_lower(a);
        lemma_pow_b_increases(b.len(), (a.len() - 1) as nat);
        assert(false);
    } else {
        let ma = mag_val(a.drop_first());
        let mb = mag_val(b.drop_first());
        assert(a[0] as nat + base() * ma == b[0] as nat + base() * mb);
        assert(a[0] == b[0] && ma == mb) by (nonlinear_arith)
            requires
                a[0] as nat + base() * ma == b[0] as nat + base() * mb,
                a[0] < base(),
                b[0] < base(),
        ;
        assert(a.drop_first().last() == a.last());
        lemma_canonical_unique(a.drop_first(), b.drop_first());
        assert forall|i: int| 0 <= i < a.len() implies a[i] == b[i] by {
            if i >= 1 {
                assert(a[i] == a.drop_first()[i - 1]);
                assert(b[i] == b.drop_first()[i - 1]);
            }
        }
        assert(a =~= b);
    }
}

/// True exactly when the limbs spell the value zero.
pub fn is_zero_limbs(number: &[Digit]) -> (b: bool)
    ensures
        b <==> mag_val(number@) == 0,
{
    let mut i: usize = 0;
    while i < number.len()
        invariant
            i <= number@.len(),
            val_below(number@, i as int) == 0,
        decreases number@.len() - i,
    {
        if number[i] != 0 {
            proof {
                lemma_mag_val_split(number@, i as int);
                lemma_val_below_is_prefix(number@, i as int);
                lemma_pow_b_pos(i as nat);
                let m = mag_val(number@.skip(i as int));
                assert(m >= number@[i as int] as nat);
                assert(pow_b(i as nat) * m >= 1 * m) by (nonlinear_arith)
                    requires
                        pow_b(i as nat) >= 1,
                        m >= 0,
                ;
            }
            return false;
        }
        proof {
            assert(digit_at(number@, i as int) == 0);
            assert(digit_at(number@, i as int) as nat * pow_b(i as nat) == 0) by (nonlinear_arith)
                requires
                    digit_at(number@, i as int) == 0,
            ;
        }
        i = i + 1;
    }
    proof {
        lemma_val_below_all(number@, number@.len() as int);
    }
    true
}

/// True exactly when the limbs spell the value one.
pub fn is_one_limbs(number: &[Digit]) -> (b: bool)
    requires
        number@.len() >= 1,
    ensures
        b <==> mag_val(number@) == 1,
{
    let first = number[0];
    let rest = &number[1..number.len()];
    let rest_zero = is_zero_limbs(rest);
    proof {
        assert(rest@ =~= number@.drop_first());
        let m = mag_val(number@.drop_first());
        if m >= 1 {
            assert(base() * m >= base() * 1) by (nonlinear_arith)
                requires
                    m >= 1,
            ;
        }
    }
    first == 1 && rest_zero
}

/// Builds the one-limb magnitude holding `d`.
pub fn single_limb(d: Digit) -> (r: Vec<Digit>)
    ensures
        canonical(r@),
        mag_val(r@) == d as nat,
        r@.len() == 1,
{
    let mut out: Vec<Digit> = Vec::new();
    out.push(d);
    proof {
        assert(out@.drop_first() =~= Seq::<Digit>::empty());
        assert(mag_val(Seq::<Digit>::empty()) == 0);
        assert(base() * 0 == 0) by (nonlinear_arith);
    }
    out
}

/// Multiplies two single limbs into an (at most) two-limb magnitude. Each
/// limb is split into 64-bit halves; the four half-width cross products each
/// fit in one limb, and the recombination tracks the two carries the middle
/// column can produce.
pub fn safe_multiply_digit(lhs: Digit, rhs: Digit) -> (r: Vec<Digit>)
    ensures
        canonical(r@),
        mag_val(r@) == lhs as nat * rhs as nat,
        r@.len() <= 2,
{
    let a0 = lhs & 0xFFFF_FFFF_FFFF_FFFFu128;
    let a1 = lhs >> 64;
    let b0 = rhs & 0xFFFF_FFFF_FFFF_FFFFu128;
    let b1 = rhs >> 64;
    proof {
        assert(a0 == (lhs & 0xFFFF_FFFF_FFFF_FFFFu128) && a1 == (lhs >> 64) ==> lhs == a1
            * 0x1_0000_0000_0000_0000u128 + a0 && a0 <= 0xFFFF_FFFF_FFFF_FFFFu128 && a1
            <= 0xFFFF_FFFF_FFFF_FFFFu128) by (bit_vector);
        assert(b0 == (rhs & 0xFFFF_FFFF_FFFF_FFFFu128) && b1 == (rhs >> 64) ==> rhs == b1
            * 0x1_0000_0000_0000_0000u128 + b0 && b0 <= 0xFFFF_FFFF_FFFF_FFFFu128 && b1
            <= 0xFFFF_FFFF_FFFF_FFFFu128) by (bit_vector);
        assert(a0 * b0 <= 0xFFFF_FFFF_FFFF_FFFFu128 * 0xFFFF_FFFF_FFFF_FFFFu128)
            by (nonlinear_arith)
            requires
                a0 <= 0xFFFF_FFFF_FFFF_FFFFu128,
                b0 <= 0xFFFF_FFFF_FFFF_FFFFu128,
        ;
        assert(a0 * b1 <= 0xFFFF_FFFF_FFFF_FFFFu128 * 0xFFFF_FFFF_FFFF_FFFFu128)
            by (nonlinear_arith)
            requires
                a0 <= 0xFFFF_FFFF_FFFF_FFFFu128,
                b1 <= 0xFFFF_FFFF_FFFF_FFFFu128,
        ;
        assert(a1 * b0 <= 0xFFFF_FFFF_FFFF_FFFFu128 * 0xFFFF_FFFF_FFFF_FFFFu128)
            by (nonlinear_arith)
            requires
                a1 <= 0xFFFF_FFFF_FFFF_FFFFu128,
                b0 <= 0xFFFF_FFFF_FFFF_FFFFu128,
        ;
        assert(a1 * b1 <= 0xFFFF_FFFF_FFFF_FFFFu128 * 0xFFFF_FFFF_FFFF_FFFFu128)
            by (nonlinear_arith)
            requires
                a1 <= 0xFFFF_FFFF_FFFF_FFFFu128,
                b1 <= 0xFFFF_FFFF_FFFF_FFFFu128,
        ;
    }
    let res_low = a0 * b0;
    let res_mid1 = a0 * b1;
    let res_mid2 = a1 * b0;
    let res_high = a1 * b1;
    let mid = res_mid1.wrapping_add(res_mid2);
    let carry_mid: Digit = if mid < res_mid1 {
        1
    } else {
        0
    };
    let mid_lo = mid & 0xFFFF_FFFF_FFFF_FFFFu128;
    let mid_hi = mid >> 64;
    let shifted = mid_lo << 64;
    proof {
        assert(mid_lo == (mid & 0xFFFF_FFFF_FFFF_FFFFu128) && mid_hi == (mid >> 64) && shifted == (
        mid_lo << 64) ==> mid == mid_hi * 0x1_0000_0000_0000_0000u128 + mid_lo && mid_hi
            <= 0xFFFF_FFFF_FFFF_FFFFu128 && shifted == mid_lo * 0x1_0000_0000_0000_0000u128)
            by (bit_vector);
    }
    let low_part = res_low.wrapping_add(shifted);
    let carry_low: Digit = if low_part < res_low {
        1
    } else {
        0
    };
    let ghost total_high: int = res_high + carry_mid * 0x1_0000_0000_0000_0000u128 + mid_hi
        + carry_low;
    proof {
        assert(lhs as int * rhs as int == total_high * base() + low_part) by (nonlinear_arith)
            requires
                lhs == a1 * 0x1_0000_0000_0000_0000u128 + a0,
                rhs == b1 * 0x1_0000_0000_0000_0000u128 + b0,
                res_low == a0 * b0,
                res_mid1 == a0 * b1,
                res_mid2 == a1 * b0,
                res_high == a1 * b1,
                res_mid1 + res_mid2 == carry_mid * base() + mid,
                mid == mid_hi * 0x1_0000_0000_0000_0000u128 + mid_lo,
                shifted == mid_lo * 0x1_0000_0000_0000_0000u128,
                res_low + shifted == carry_low * base() + low_part,
                base() == 0x1_0000_0000_0000_0000u128 * 0x1_0000_0000_0000_0000u128,
                total_high == res_high + carry_mid * 0x1_0000_0000_0000_0000u128 + mid_hi
                    + carry_low,
        ;
        assert(total_high < base()) by (nonlinear_arith)
            requires
                lhs as int * rhs as int == total_high * base() + low_part,
                lhs < base(),
                rhs < base(),
                low_part >= 0,
                total_high >= 0,
                base() >= 1,
        ;
    }
    let high_part = res_high + (if carry_mid == 1 {
        0x1_0000_0000_0000_0000u128
    } else {
        0
    }) + mid_hi + carry_low;
    let mut out: Vec<Digit> = Vec::new();
    out.push(low_part);
    out.push(high_part);
    proof {
        let v = out@;
        let v1 = v.drop_first();
        assert(v1 =~= seq![high_part]);
        assert(v1.drop_first() =~= Seq::<Digit>::empty());
        assert(mag_val(Seq::<Digit>::empty()) == 0);
        assert(mag_val(v1) == high_part as nat + base() * mag_val(v1.drop_first()));
        assert(base() * 0 == 0) by (nonlinear_arith);
        assert(mag_val(v1) == high_part as nat);
        assert(mag_val(v) == low_part as nat + base() * mag_val(v1));
        assert(high_part == total_high);
        assert(base() * high_part as nat == total_high * base()) by (nonlinear_arith)
            requires
                high_part == total_high,
        ;
        assert(mag_val(v) == lhs as nat * rhs as nat);
    }
    let trimmed = cut_upper_zeros(out.as_slice());
    proof {
        assert(pow_b(1) == base() * pow_b(0));
        assert(pow_b(2) == base() * pow_b(1));
        assert(mag_val(out@) < base() * (base() * 1)) by (nonlinear_arith)
            requires
                mag_val(out@) == low_part as nat + base() * high_part as nat,
                low_part < base(),
                high_part < base(),
        ;
        lemma_canonical_len_bound(trimmed@, 2);
    }
    trimmed
}

/// Zero-extends a magnitude on the most-significant end to the requested
/// limb count, leaving its value unchanged.
pub fn append_upper_zeros(number: &[Digit], needed_size: usize) -> (r: Vec<Digit>)
    requires
        needed_size >= number@.len(),
    ensures
        r@.len() == needed_size,
        mag_val(r@) == mag_val(number@),
{
    let mut out = slice_to_vec(number);
    while out.len() < needed_size
        invariant
            out@.len() <= needed_size,
            mag_val(out@) == mag_val(number@),
        decreases needed_size - out@.len(),
    {
        proof {
            lemma_mag_val_snoc(out@, 0);
            assert(0 as nat * pow_b(out@.len()) == 0) by (nonlinear_arith);
        }
        out.push(0);
    }
    out
}

/// Shifts a magnitude up by `amount` limb positions, multiplying its value
/// by `base()^amount`.
pub fn shift_limbs(number: &[Digit], amount: usize) -> (r: Vec<Digit>)
    ensures
        r@.len() == amount + number@.len(),
        mag_val(r@) == pow_b(amount as nat) * mag_val(number@),
{
    let mut out: Vec<Digit> = Vec::new();
    let mut i: usize = 0;
    while i < amount
        invariant
            i <= amount,
            out@.len() == i,
            mag_val(out@) == 0,
        decreases amount - i,
    {
        proof {
            lemma_mag_val_snoc(out@, 0);
            assert(0 as nat * pow_b(out@.len()) == 0) by (nonlinear_arith);
        }
        out.push(0);
        i = i + 1;
    }
    proof {
        assert(number@.take(0) =~= Seq::<Digit>::empty());
        assert(pow_b(amount as nat) * 0 == 0) by (nonlinear_arith);
    }
    let mut j: usize = 0;
    while j < number.len()
        invariant
            j <= number@.len(),
            out@.len() == amount + j,
            mag_val(out@) == pow_b(amount as nat) * mag_val(number@.take(j as int)),
        decreases number@.len() - j,
    {
        let d = number[j];
        proof {
            lemma_mag_val_snoc(out@, d);
            lemma_mag_val_snoc(number@.take(j as int), d);
            assert(number@.take(j as int + 1) =~= number@.take(j as int).push(d));
            lemma_pow_b_adds(amount as nat, j as nat);
            let pa = pow_b(amount as nat);
            let pj = pow_b(j as nat);
            assert(pa * (mag_val(number@.take(j as int)) + d as nat * pj) == pa * mag_val(
                number@.take(j as int),
            ) + d as nat * (pa * pj)) by (nonlinear_arith);
        }
        out.push(d);
        j = j + 1;
    }
    proof {
        assert(number@.take(number@.len() as int) =~= number@);
    }
    out
}

/// Drops the `count` least-significant limbs: an arithmetic right shift by
/// `count` limb widths, flooring the value.
pub fn drop_lower_limbs(number: &[Digit], count: usize) -> (r: Vec<Digit>)
    requires
        number@.len() >= 1,
    ensures
        canonical(r@),
        mag_val(r@) == mag_val(number@) / pow_b(count as nat),
{
    if count >= number.len() {
        proof {
            lemma_mag_val_bound(number@);
            lemma_pow_b_increases(number@.len(), count as nat);
            lemma_pow_b_pos(count as nat);
            vstd::arithmetic::div_mod::lemma_fundamental_div_mod_converse_div(
                mag_val(number@) as int,
                pow_b(count as nat) as int,
                0,
                mag_val(number@) as int,
            );
            assert(0 * pow_b(count as nat) == 0) by (nonlinear_arith);
        }
        single_limb(0)
    } else {
        let kept = &number[count..number.len()];
        let r = cut_upper_zeros(kept);
        proof {
            lemma_mag_val_split(number@, count as int);
            lemma_mag_val_bound(number@.take(count as int));
            lemma_pow_b_pos(count as nat);
            assert(kept@ =~= number@.skip(count as int));
            let p = pow_b(count as nat) as int;
            let hi = mag_val(number@.skip(count as int)) as int;
            let lo = mag_val(number@.take(count as int)) as int;
            assert(mag_val(number@) == hi * p + lo) by (nonlinear_arith)
                requires
                    mag_val(number@) == lo + p * hi,
            ;
            vstd::arithmetic::div_mod::lemma_fundamental_div_mod_converse_div(
                mag_val(number@) as int,
                p,
                hi,
                lo,
            );
        }
        r
    }
}

/// Halves a magnitude, flooring: each limb keeps its upper bits and receives
/// the next limb's lowest bit as its own top bit.
pub fn halve_limbs(number: &[Digit]) -> (r: Vec<Digit>)
    requires
        number@.len() >= 1,
    ensures
        canonical(r@),
        mag_val(r@) == mag_val(number@) / 2,
{
    let ghost low_bit = (number@[0] & 1) as nat;
    proof {
        let d0 = number@[0];
        assert(d0 & 1 <= 1) by (bit_vector);
        assert(pow_b(0) == 1);
        assert((digit_at(number@, 0) & 1) as nat * pow_b(0) == low_bit) by (nonlinear_arith)
            requires
                (digit_at(number@, 0) & 1) as nat == low_bit,
                pow_b(0) == 1,
        ;
    }
    let mut out: Vec<Digit> = Vec::new();
    let mut i: usize = 0;
    while i < number.len()
        invariant
            number@.len() >= 1,
            low_bit == (number@[0] & 1) as nat,
            i <= number@.len(),
            out@.len() == i,
            2 * mag_val(out@) + low_bit == val_below(number@, i as int) + (digit_at(
                number@,
                i as int,
            ) & 1) as nat * pow_b(i as nat),
        decreases number@.len() - i,
    {
        let d = number[i];
        let next = if i + 1 < number.len() {
            number[i + 1]
        } else {
            0
        };
        let half = (d >> 1) | ((next & 1) << 127);
        proof {
            assert(half == ((d >> 1) | ((next & 1) << 127)) ==> half == (d >> 1) + (next & 1)
                * 0x8000_0000_0000_0000_0000_0000_0000_0000u128 && d == 2 * (d >> 1) + (d & 1) && (
            d & 1) <= 1 && (next & 1) <= 1) by (bit_vector);
            let p = pow_b(i as nat);
            lemma_mag_val_snoc(out@, half);
            assert(pow_b((i + 1) as nat) == base() * p);
            assert(digit_at(number@, i as int) == d);
            assert(digit_at(number@, i as int + 1) == next);
            assert(val_below(number@, i as int + 1) == val_below(number@, i as int) + d as nat
                * p);
            assert(2 * mag_val(out@.push(half)) + low_bit == val_below(number@, i as int + 1) + (
            next & 1) as nat * (base() * p)) by (nonlinear_arith)
                requires
                    mag_val(out@.push(half)) == mag_val(out@) + half as nat * p,
                    2 * mag_val(out@) + low_bit == val_below(number@, i as int) + (d & 1) as nat
                        * p,
                    2 * half == d - (d & 1) + (next & 1) * base(),
                    val_below(number@, i as int + 1) == val_below(number@, i as int) + d as nat
                        * p,
            ;
        }
        out.push(half);
        i = i + 1;
    }
    proof {
        lemma_val_below_all(number@, number@.len() as int);
        assert(digit_at(number@, number@.len() as int) == 0);
        assert(0u128 & 1 == 0) by (bit_vector);
        assert((digit_at(number@, number@.len() as int) & 1) as nat * pow_b(number@.len()) == 0)
            by (nonlinear_arith)
            requires
                (digit_at(number@, number@.len() as int) & 1) == 0,
        ;
        vstd::arithmetic::div_mod::lemma_fundamental_div_mod_converse_div(
            mag_val(number@) as int,
            2,
            mag_val(out@) as int,
            low_bit as int,
        );
    }
    cut_upper_zeros(out.as_slice())
}

/// Multiplies two magnitudes by recursive divide and conquer (Karatsuba).
///
/// Operands of unequal limb count are zero-extended to equal length before
/// recursing. An equal-length pair of more than one limb is split at the
/// midpoint into (low, high); the product is assembled from low*low,
/// high*high, and one recursive product of the two differences
/// `(high - low)` and `(low - high)`, whose sign flags decide whether that
/// middle product is added to or subtracted from `low*low + high*high`.
/// Every returned magnitude is trimmed to canonical form.
pub fn arbitrary_precision_mul(lhs: &[Digit], rhs: &[Digit]) -> (r: Vec<Digit>)
    requires
        lhs@.len() >= 1,
        rhs@.len() >= 1,
    ensures
        canonical(r@),
        mag_val(r@) == mag_val(lhs@) * mag_val(rhs@),
        r@.len() <= lhs@.len() + rhs@.len(),
    decreases (if lhs@.len() >= rhs@.len() {
        lhs@.len()
    } else {
        rhs@.len()
    }), (if lhs@.len() == rhs@.len() {
        0int
    } else {
        1int
    }),
{
    proof {
        lemma_mag_val_bound(lhs@);
        lemma_mag_val_bound(rhs@);
        lemma_pow_b_adds(lhs@.len(), rhs@.len());
        assert(mag_val(lhs@) * mag_val(rhs@) < pow_b(lhs@.len()) * pow_b(rhs@.len()))
            by (nonlinear_arith)
            requires
                mag_val(lhs@) < pow_b(lhs@.len()),
                mag_val(rhs@) < pow_b(rhs@.len()),
                pow_b(lhs@.len()) >= 1,
                pow_b(rhs@.len()) >= 1,
        ;
    }
    if is_zero_limbs(lhs) || is_zero_limbs(rhs) {
        proof {
            assert(mag_val(lhs@) * mag_val(rhs@) == 0) by (nonlinear_arith)
                requires
                    mag_val(lhs@) == 0 || mag_val(rhs@) == 0,
            ;
        }
        return single_limb(0);
    }
    if is_one_limbs(lhs) {
        proof {
            assert(mag_val(lhs@) * mag_val(rhs@) == mag_val(rhs@)) by (nonlinear_arith)
                requires
                    mag_val(lhs@) == 1,
            ;
        }
        return cut_upper_zeros(rhs);
    }
    if is_one_limbs(rhs) {
        proof {
            assert(mag_val(lhs@) * mag_val(rhs@) == mag_val(lhs@)) by (nonlinear_arith)
                requires
                    mag_val(rhs@) == 1,
            ;
        }
        return cut_upper_zeros(lhs);
    }
    if lhs.len() < rhs.len() {
        let padded = append_upper_zeros(lhs, rhs.len());
        let r = arbitrary_precision_mul(padded.as_slice(), rhs);
        proof {
            lemma_canonical_len_bound(r@, lhs@.len() + rhs@.len());
        }
        return r;
    }
    if lhs.len() > rhs.len() {
        let padded = append_upper_zeros(rhs, lhs.len());
        let r = arbitrary_precision_mul(lhs, padded.as_slice());
        proof {
            lemma_canonical_len_bound(r@, lhs@.len() + rhs@.len());
        }
        return r;
    }
    let length = lhs.len();
    if length == 1 {
        let r = safe_multiply_digit(lhs[0], rhs[0]);
        proof {
            assert(lhs@.drop_first() =~= Seq::<Digit>::empty());
            assert(rhs@.drop_first() =~= Seq::<Digit>::empty());
            assert(mag_val(Seq::<Digit>::empty()) == 0);
            assert(base() * 0 == 0) by (nonlinear_arith);
            assert(mag_val(lhs@) == lhs@[0] as nat);
            assert(mag_val(rhs@) == rhs@[0] as nat);
        }
        return r;
    }
    let split_point = length / 2;
    let lhs_low = &lhs[0..split_point];
    let lhs_high = &lhs[split_point..length];
    let rhs_low = &rhs[0..split_point];
    let rhs_high = &rhs[split_point..length];
    proof {
        assert(lhs_low@ =~= lhs@.take(split_point as int));
        assert(lhs_high@ =~= lhs@.skip(split_point as int));
        assert(rhs_low@ =~= rhs@.take(split_point as int));
        assert(rhs_high@ =~= rhs@.skip(split_point as int));
        lemma_mag_val_split(lhs@, split_point as int);
        lemma_mag_val_split(rhs@, split_point as int);
    }
    let ghost a_low = mag_val(lhs_low@);
    let ghost a_high = mag_val(lhs_high@);
    let ghost b_low = mag_val(rhs_low@);
    let ghost b_high = mag_val(rhs_high@);
    let mul_down = arbitrary_precision_mul(lhs_low, rhs_low);
    let mul_up = arbitrary_precision_mul(lhs_high, rhs_high);
    let lhs_sub_result = arbitrary_precision_sub(lhs_high, lhs_low);
    let rhs_sub_result = arbitrary_precision_sub(rhs_low, rhs_high);
    let mul_karatsuba = arbitrary_precision_mul(
        lhs_sub_result.0.as_slice(),
        rhs_sub_result.0.as_slice(),
    );
    let add_karatsuba = arbitrary_precision_add(mul_down.as_slice(), mul_up.as_slice());
    let ghost mid_true: nat = (a_high * b_low + a_low * b_high) as nat;
    proof {
        let d1 = mag_val(lhs_sub_result.0@) as int;
        let d2 = mag_val(rhs_sub_result.0@) as int;
        let m = mag_val(mul_karatsuba@) as int;
        let prod_signed = (a_high - a_low) * (b_low - b_high);
        assert(prod_signed == a_high * b_low + a_low * b_high - (a_low * b_low + a_high * b_high))
            by (nonlinear_arith)
            requires
                prod_signed == (a_high - a_low) * (b_low - b_high),
        ;
        assert(a_high * b_low >= 0 && a_low * b_high >= 0 && a_low * b_low >= 0 && a_high * b_high
            >= 0) by (nonlinear_arith)
            requires
                a_low >= 0 && a_high >= 0 && b_low >= 0 && b_high >= 0,
        ;
        if lhs_sub_result.1 == rhs_sub_result.1 {
            assert(d1 * d2 == prod_signed) by (nonlinear_arith)
                requires
                    prod_signed == (a_high - a_low) * (b_low - b_high),
                    (d1 == a_high - a_low && d2 == b_low - b_high) || (d1 == a_low - a_high && d2
                        == b_high - b_low),
            ;
        } else {
            assert(d1 * d2 == -prod_signed) by (nonlinear_arith)
                requires
                    prod_signed == (a_high - a_low) * (b_low - b_high),
                    (d1 == a_high - a_low && d2 == b_high - b_low) || (d1 == a_low - a_high && d2
                        == b_low - b_high),
            ;
        }
        assert(m == d1 * d2);
        assert(lhs_sub_result.1 != rhs_sub_result.1 ==> mag_val(mul_karatsuba@) + mid_true
            == mag_val(mul_down@) + mag_val(mul_up@));
        assert(lhs_sub_result.1 == rhs_sub_result.1 ==> mag_val(mul_down@) + mag_val(mul_up@)
            + mag_val(mul_karatsuba@) == mid_true);
    }
    let middle: Vec<Digit> = if lhs_sub_result.1 != rhs_sub_result.1 {
        let s = arbitrary_precision_sub(add_karatsuba.as_slice(), mul_karatsuba.as_slice());
        assert(!s.1);
        s.0
    } else {
        arbitrary_precision_add(add_karatsuba.as_slice(), mul_karatsuba.as_slice())
    };
    assert(mag_val(middle@) == mid_true);
    let lower = mul_down;
    let shifted_middle = shift_limbs(middle.as_slice(), split_point);
    let shifted_upper = shift_limbs(mul_up.as_slice(), split_point + split_point);
    let low_add_up = arbitrary_precision_add(lower.as_slice(), shifted_upper.as_slice());
    let combined = arbitrary_precision_add(low_add_up.as_slice(), shifted_middle.as_slice());
    let result = cut_upper_zeros(combined.as_slice());
    proof {
        let p = pow_b(split_point as nat);
        lemma_pow_b_adds(split_point as nat, split_point as nat);
        assert(mag_val(result@) == a_low * b_low + (p * p) * (a_high * b_high) + p * mid_true);
        let u = p * a_high;
        let w = p * b_high;
        assert((a_low + u) * (b_low + w) == a_low * b_low + a_low * w + u * b_low + u * w)
            by (nonlinear_arith);
        assert(a_low * w == p * (a_low * b_high)) by (nonlinear_arith)
            requires
                w == p * b_high,
        ;
        assert(u * b_low == p * (a_high * b_low)) by (nonlinear_arith)
            requires
                u == p * a_high,
        ;
        assert(u * w == (p * p) * (a_high * b_high)) by (nonlinear_arith)
            requires
                u == p * a_high,
                w == p * b_high,
        ;
        assert(p * ((a_high * b_low + a_low * b_high) as nat) == p * (a_high * b_low) + p * (a_low
            * b_high)) by (nonlinear_arith);
        lemma_canonical_len_bound(result@, lhs@.len() + rhs@.len());
    }
    result
}

/// Two limb sequences of the same length with the same value are equal, even
/// without canonical form.
pub proof fn lemma_fixed_len_unique(a: Seq<Digit>, b: Seq<Digit>)
    requires
        a.len() == b.len(),
        mag_val(a) == mag_val(b),
    ensures
        a == b,
    decreases a.len(),
{
    if a.len() == 0 {
        assert(a =~= b);
    } else {
        let ma = mag_val(a.drop_first());
        let mb = mag_val(b.drop_first());
        assert(a[0] as nat + base() * ma == b[0] as nat + base() * mb);
        assert(a[0] == b[0] && ma == mb) by (nonlinear_arith)
            requires
                a[0] as nat + base() * ma == b[0] as nat + base() * mb,
                a[0] < base(),
                b[0] < base(),
        ;
        lemma_fixed_len_unique(a.drop_first(), b.drop_first());
        assert forall|i: int| 0 <= i < a.len() implies a[i] == b[i] by {
            if i >= 1 {
                assert(a[i] == a.drop_first()[i - 1]);
                assert(b[i] == b.drop_first()[i - 1]);
            }
        }
        assert(a =~= b);
    }
}

/// Folding the left operand lengths of a chained sum: adding a third operand
/// to a sum of exact length [`sum_len`] gives the same length as adding it to
/// a single operand as long as the two together.
proof fn lemma_sum_len_flatten(l1: nat, l2: nat, l3: nat, v12: nat, v: nat)
    requires
        v12 + 2 <= pow_b(l1) + pow_b(l2),
        v + 1 <= v12 + pow_b(l3),
        v12 <= v,
    ensures
        sum_len(
            sum_len(l1, l2, v12),
            l3,
            v,
        ) == sum_len(
            if l1 >= l2 {
                l1
            } else {
                l2
            },
            l3,
            v,
        ),
{
    let m12: nat = if l1 >= l2 {
        l1
    } else {
        l2
    };
    let l12 = sum_len(l1, l2, v12);
    if l12 == m12 {
    } else {
        // the inner sum needed the extra position: v12 >= pow_b(m12)
        lemma_pow_b_pos(m12);
        lemma_pow_b_increases(l1, m12);
        lemma_pow_b_increases(l2, m12);
        if l3 <= m12 {
            // both sides bump past m12; the total still fits below the next
            // weight because three operand bounds sum below the radix
            lemma_pow_b_increases(l3, m12);
            assert(pow_b((m12 + 1) as nat) == base() * pow_b(m12));
            assert(3 * pow_b(m12) <= base() * pow_b(m12)) by (nonlinear_arith)
                requires
                    pow_b(m12) >= 0,
                    base() >= 3,
            ;
            assert(v < pow_b((m12 + 1) as nat));
        } else if l3 == m12 + 1 {
        } else {
            lemma_pow_b_increases((m12 + 1) as nat, l3);
        }
    }
}

/// Law: kernel addition is commutative limb for limb. Any results meeting
/// [`arbitrary_precision_add`]'s contract for `(a, b)` and for `(b, a)` are
/// the same vector: the contract pins the value and the exact length, and a
/// length and a value pin the limbs.
pub proof fn lemma_add_commutes(a: Seq<Digit>, b: Seq<Digit>, r1: Seq<Digit>, r2: Seq<Digit>)
    requires
        mag_val(r1) == mag_val(a) + mag_val(b),
        r1.len() == sum_len(a.len(), b.len(), mag_val(a) + mag_val(b)),
        mag_val(r2) == mag_val(b) + mag_val(a),
        r2.len() == sum_len(b.len(), a.len(), mag_val(b) + mag_val(a)),
    ensures
        r1 == r2,
{
    lemma_fixed_len_unique(r1, r2);
}

/// Law: kernel addition is associative limb for limb. With `ab` and `bc`
/// meeting [`arbitrary_precision_add`]'s contract for the inner sums, any
/// results meeting it for `(ab, c)` and for `(a, bc)` are the same vector.
pub proof fn lemma_add_associative(
    a: Seq<Digit>,
    b: Seq<Digit>,
    c: Seq<Digit>,
    ab: Seq<Digit>,
    bc: Seq<Digit>,
    r1: Seq<Digit>,
    r2: Seq<Digit>,
)
    requires
        mag_val(ab) == mag_val(a) + mag_val(b),
        ab.len() == sum_len(a.len(), b.len(), mag_val(a) + mag_val(b)),
        mag_val(bc) == mag_val(b) + mag_val(c),
        bc.len() == sum_len(b.len(), c.len(), mag_val(b) + mag_val(c)),
        mag_val(r1) == mag_val(ab) + mag_val(c),
        r1.len() == sum_len(ab.len(), c.len(), mag_val(ab) + mag_val(c)),
        mag_val(r2) == mag_val(a) + mag_val(bc),
        r2.len() == sum_len(a.len(), bc.len(), mag_val(a) + mag_val(bc)),
    ensures
        r1 == r2,
{
    lemma_mag_val_bound(a);
    lemma_mag_val_bound(b);
    lemma_mag_val_bound(c);
    let total = mag_val(a) + mag_val(b) + mag_val(c);
    lemma_sum_len_flatten(a.len(), b.len(), c.len(), mag_val(a) + mag_val(b), total);
    lemma_sum_len_flatten(b.len(), c.len(), a.len(), mag_val(b) + mag_val(c), total);
    lemma_fixed_len_unique(r1, r2);
}

/// Law: magnitude multiplication is commutative. Any canonical results
/// meeting [`arbitrary_precision_mul`]'s contract for `(a, b)` and for
/// `(b, a)` are the same limb sequence.
pub proof fn lemma_mul_commutes(a: Seq<Digit>, b: Seq<Digit>, r1: Seq<Digit>, r2: Seq<Digit>)
    requires
        canonical(r1),
        canonical(r2),
        mag_val(r1) == mag_val(a) * mag_val(b),
        mag_val(r2) == mag_val(b) * mag_val(a),
    ensures
        r1 == r2,
{
    assert(mag_val(a) * mag_val(b) == mag_val(b) * mag_val(a)) by (nonlinear_arith);
    lemma_canonical_unique(r1, r2);
}

/// Law: the recursive Karatsuba product agrees with any reference
/// multiplication. A canonical result meeting [`arbitrary_precision_mul`]'s
/// contract is the unique canonical sequence whose value is the product, so
/// any other correct multiplication (for example a naive column-by-column
/// one) returns the same limbs.
pub proof fn lemma_mul_agrees_with_reference(
    a: Seq<Digit>,
    b: Seq<Digit>,
    karatsuba: Seq<Digit>,
    reference: Seq<Digit>,
)
    requires
        canonical(karatsuba),
        canonical(reference),
        mag_val(karatsuba) == mag_val(a) * mag_val(b),
        mag_val(reference) == mag_val(a) * mag_val(b),
    ensures
        karatsuba == reference,
{
    lemma_canonical_unique(karatsuba, reference);
}

} // verus!
