//! Signed exact rationals over arbitrary-precision magnitudes.
//!
//! A `Number` is a fraction: a numerator magnitude, a denominator magnitude
//! and a sign tag. Magnitudes are little-endian `Vec<u32>` word sequences
//! (see `crate::magnitude`). Values are immutable: every operation borrows
//! its operands and returns a freshly allocated result. A denominator whose
//! magnitude is zero is a precondition violation of the constructing caller;
//! the engine checks it only at the `div` boundary, where a zero divisor is
//! reported as a failure value.

use core::cmp::Ordering;
use vstd::arithmetic::div_mod::{
    lemma_fundamental_div_mod_converse_div, lemma_mod_division_less_than_divisor,
    lemma_mod_sub_multiples_vanish, lemma_small_mod,
};
use vstd::prelude::*;
use vstd::slice::slice_to_vec;

use crate::euclid::{gcd_nat, lemma_divides_exact, lemma_gcd_divides, lemma_gcd_pos};
use crate::magnitude::{
    base, is_norm, lemma_mag_bound, lemma_mag_drop_zero, lemma_mag_high_top, lemma_mag_longer,
    lemma_mag_pref_full, lemma_mag_pref_succ, lemma_mag_pref_zero, lemma_mag_push,
    lemma_mag_single, lemma_mag_take_full, lemma_mag_take_succ, lemma_mag_top_word,
    lemma_mag_update, lemma_mag_word_dominates, lemma_mag_zero, lemma_pw_add, lemma_pw_mono, mag,
    mag_pref, pw, word_at,
};

verus! {

/// The sign tag of a rational value.
#[derive(Debug, Clone, Copy, PartialEq, Eq, Structural)]
pub enum Sign {
    Positive,
    Negative,
}

/// A signed fraction: numerator and denominator magnitudes, little-endian.
#[derive(Debug)]
pub struct Number {
    pub numerator: Vec<u32>,
    pub denominator: Vec<u32>,
    pub sign: Sign,
}

/// The numerator's magnitude as a natural number.
pub open spec fn num_mag(x: Number) -> nat {
    mag(x.numerator@)
}

/// The denominator's magnitude as a natural number.
pub open spec fn den_mag(x: Number) -> nat {
    mag(x.denominator@)
}

/// The signed value of the numerator: the fraction denotes num_val/den_mag.
pub open spec fn num_val(x: Number) -> int {
    if x.sign == Sign::Positive {
        num_mag(x) as int
    } else {
        -(num_mag(x) as int)
    }
}

/// A well-formed operand: both magnitudes normalized, denominator non-zero.
pub open spec fn wf(x: Number) -> bool {
    &&& is_norm(x.numerator@)
    &&& is_norm(x.denominator@)
    &&& den_mag(x) >= 1
}

/// Two word sequences short enough that their product fits in one
/// allocation; always true of sequences that exist in memory.
pub open spec fn len_ok(a: Seq<u32>, b: Seq<u32>) -> bool {
    a.len() + b.len() <= usize::MAX
}

/// The numerator value of the exact sum x + y over the common denominator
/// den_mag(x) * den_mag(y).
pub open spec fn sum_num(x: Number, y: Number) -> int {
    num_val(x) * den_mag(y) + den_mag(x) * num_val(y)
}

/// The numerator value of the exact difference x - y over the common
/// denominator den_mag(x) * den_mag(y).
pub open spec fn diff_num(x: Number, y: Number) -> int {
    num_val(x) * den_mag(y) - den_mag(x) * num_val(y)
}

/// The numerator value of the exact product x * y over the denominator
/// den_mag(x) * den_mag(y).
pub open spec fn prod_num(x: Number, y: Number) -> int {
    num_val(x) * num_val(y)
}

/// The denominator both sum and product place their numerators over.
pub open spec fn pair_den(x: Number, y: Number) -> nat {
    den_mag(x) * den_mag(y)
}

/// The sign tag `add` gives its result: the shared sign when the operands
/// agree, else the sign of the exact sum, Positive for zero.
pub open spec fn add_sign(x: Number, y: Number) -> Sign {
    if x.sign == y.sign {
        x.sign
    } else if sum_num(x, y) >= 0 {
        Sign::Positive
    } else {
        Sign::Negative
    }
}

/// The sign tag `sub` gives its result, by negating y and adding.
pub open spec fn sub_sign(x: Number, y: Number) -> Sign {
    if x.sign != y.sign {
        x.sign
    } else if diff_num(x, y) >= 0 {
        Sign::Positive
    } else {
        Sign::Negative
    }
}

/// The cross products that equality and ordering materialize fit in one
/// allocation each; true of any operands that exist in memory.
pub open spec fn cross_ok(x: Number, y: Number) -> bool {
    &&& len_ok(x.numerator@, y.denominator@)
    &&& len_ok(x.denominator@, y.numerator@)
}

/// Rational equality as the engine decides it: all zeros are equal to each
/// other; a zero never equals a non-zero; non-zeros are equal exactly when
/// their signs agree and cross-multiplication balances.
pub open spec fn eq_full(x: Number, y: Number) -> bool {
    if num_mag(x) == 0 && num_mag(y) == 0 {
        true
    } else if num_mag(x) == 0 || num_mag(y) == 0 {
        false
    } else {
        x.sign == y.sign && num_mag(x) * den_mag(y) == den_mag(x) * num_mag(y)
    }
}

/// The total order the engine computes: zeros sort between the signs, signs
/// decide unequal tags, and cross-multiplication decides the rest, reversed
/// for two negatives.
pub open spec fn order_spec(x: Number, y: Number) -> Ordering {
    if num_mag(x) == 0 && num_mag(y) == 0 {
        Ordering::Equal
    } else if num_mag(x) == 0 {
        if y.sign == Sign::Positive {
            Ordering::Less
        } else {
            Ordering::Greater
        }
    } else if num_mag(y) == 0 {
        if x.sign == Sign::Positive {
            Ordering::Greater
        } else {
            Ordering::Less
        }
    } else if x.sign == Sign::Positive && y.sign == Sign::Negative {
        Ordering::Greater
    } else if x.sign == Sign::Negative && y.sign == Sign::Positive {
        Ordering::Less
    } else if x.sign == Sign::Positive {
        if num_mag(x) * den_mag(y) < den_mag(x) * num_mag(y) {
            Ordering::Less
        } else if num_mag(x) * den_mag(y) == den_mag(x) * num_mag(y) {
            Ordering::Equal
        } else {
            Ordering::Greater
        }
    } else {
        if den_mag(x) * num_mag(y) < num_mag(x) * den_mag(y) {
            Ordering::Less
        } else if num_mag(x) * den_mag(y) == den_mag(x) * num_mag(y) {
            Ordering::Equal
        } else {
            Ordering::Greater
        }
    }
}

proof fn lemma_neg_mul(a: int, b: int)
    by (nonlinear_arith)
    ensures
        (-a) * b == -(a * b),
        a * (-b) == -(a * b),
{
}

proof fn lemma_pos_mul(a: int, b: int)
    by (nonlinear_arith)
    requires
        a >= 1,
        b >= 1,
    ensures
        a * b >= 1,
{
}

impl Number {
    /// Word-wise addition with carry propagation.
    fn sum_vec(a: &Vec<u32>, b: &Vec<u32>) -> (r: Vec<u32>)
        requires
            is_norm(a@),
            is_norm(b@),
        ensures
            is_norm(r@),
            mag(r@) == mag(a@) + mag(b@),
            mag(r@) == 0 ==> r@ == seq![0u32],
    {
        let mut result: Vec<u32> = Vec::new();
        let mut carry: u64 = 0;
        let max_len: usize = if a.len() > b.len() {
            a.len()
        } else {
            b.len()
        };

        proof {
            lemma_mag_pref_zero(a@);
            lemma_mag_pref_zero(b@);
        }
        let mut i: usize = 0;
        while i < max_len
            invariant
                i <= max_len,
                max_len == a@.len() || max_len == b@.len(),
                a@.len() <= max_len,
                b@.len() <= max_len,
                carry <= 1,
                result@.len() == i,
                mag(result@) + carry * pw(i as nat) == mag_pref(a@, i as int) + mag_pref(
                    b@,
                    i as int,
                ),
            decreases max_len - i,
        {
            let a_val: u32 = if i < a.len() {
                a[i]
            } else {
                0
            };
            let b_val: u32 = if i < b.len() {
                b[i]
            } else {
                0
            };
            let sum: u64 = a_val as u64 + b_val as u64 + carry;
            let lo: u32 = #[verifier::truncate] (sum as u32);
            proof {
                assert(lo == sum % 0x1_0000_0000) by (bit_vector)
                    requires
                        lo == sum as u32,
                ;
                lemma_sum_step(result@, a@, b@, i as int, carry, sum, lo, a_val, b_val);
            }
            result.push(lo);
            carry = sum >> 32;
            i += 1;
        }

        proof {
            lemma_mag_pref_full(a@, max_len as int);
            lemma_mag_pref_full(b@, max_len as int);
        }
        if carry > 0 {
            proof {
                lemma_mag_push(result@, carry as u32);
            }
            result.push(carry as u32);
            proof {
                assert(result@[result@.len() - 1] == 1);
                assert(carry * pw(max_len as nat) == pw(max_len as nat)) by (nonlinear_arith)
                    requires
                        carry == 1,
                ;
            }
        } else {
            proof {
                assert(mag(result@) == mag(a@) + mag(b@));
                if max_len > 1 {
                    if a@.len() == max_len {
                        lemma_mag_top_word(a@);
                    } else {
                        lemma_mag_top_word(b@);
                    }
                    lemma_mag_high_top(result@);
                }
            }
        }
        proof {
            if mag(result@) == 0 {
                crate::magnitude::lemma_norm_zero(result@);
            }
        }
        result
    }

    /// Strips most-significant zero words down to a minimum length of 1.
    fn strip_zeros(v: &mut Vec<u32>)
        requires
            old(v)@.len() >= 1,
        ensures
            is_norm(final(v)@),
            mag(final(v)@) == mag(old(v)@),
            final(v)@.len() <= old(v)@.len(),
    {
        while v.len() > 1 && v[v.len() - 1] == 0
            invariant
                v@.len() >= 1,
                mag(v@) == mag(old(v)@),
                v@.len() <= old(v)@.len(),
            decreases v@.len(),
        {
            proof {
                lemma_mag_drop_zero(v@);
            }
            v.pop();
        }
    }

    /// Subtracts the smaller magnitude from the strictly larger one,
    /// word-wise with borrow propagation.
    fn diff_core(l: &Vec<u32>, s: &Vec<u32>) -> (r: Vec<u32>)
        requires
            is_norm(l@),
            is_norm(s@),
            mag(l@) > mag(s@),
        ensures
            is_norm(r@),
            mag(r@) == mag(l@) - mag(s@),
    {
        let mut result: Vec<u32> = Vec::new();
        let mut borrow: i64 = 0;

        proof {
            lemma_mag_pref_zero(l@);
            lemma_mag_pref_zero(s@);
            if s@.len() > l@.len() {
                lemma_mag_longer(s@, l@);
            }
        }
        let mut i: usize = 0;
        while i < l.len()
            invariant
                i <= l@.len(),
                borrow == 0 || borrow == 1,
                result@.len() == i,
                mag(result@) + mag_pref(s@, i as int) == mag_pref(l@, i as int) + borrow * pw(
                    i as nat,
                ),
            decreases l@.len() - i,
        {
            let l_val: i64 = l[i] as i64;
            let s_val: i64 = if i < s.len() {
                s[i] as i64
            } else {
                0
            };
            let diff: i64 = l_val - s_val - borrow;
            let word: u32 = if diff < 0 {
                (diff + 0x1_0000_0000i64) as u32
            } else {
                diff as u32
            };
            let new_borrow: i64 = if diff < 0 {
                1
            } else {
                0
            };
            proof {
                lemma_diff_step(
                    result@,
                    l@,
                    s@,
                    i as int,
                    borrow,
                    new_borrow,
                    word,
                    l@[i as int],
                    word_at(s@, i as int),
                );
            }
            result.push(word);
            borrow = new_borrow;
            i += 1;
        }

        proof {
            lemma_mag_pref_full(l@, l@.len() as int);
            lemma_mag_pref_full(s@, l@.len() as int);
            if borrow == 1 {
                lemma_mag_bound(result@);
                assert(false);
            }
        }
        Self::strip_zeros(&mut result);
        result
    }

    /// Absolute difference of two magnitudes; the canonical zero `[0]` when
    /// they are equal.
    fn diff_vec(a: &Vec<u32>, b: &Vec<u32>) -> (r: Vec<u32>)
        requires
            is_norm(a@),
            is_norm(b@),
        ensures
            is_norm(r@),
            mag(a@) >= mag(b@) ==> mag(r@) == mag(a@) - mag(b@),
            mag(a@) <= mag(b@) ==> mag(r@) == mag(b@) - mag(a@),
            mag(r@) == 0 ==> r@ == seq![0u32],
    {
        match Self::cmp_vec(a, b) {
            Ordering::Greater => Self::diff_core(a, b),
            Ordering::Less => Self::diff_core(b, a),
            Ordering::Equal => {
                let mut zero: Vec<u32> = Vec::new();
                zero.push(0);
                proof {
                    lemma_mag_single(zero@);
                    assert(zero@ =~= seq![0u32]);
                }
                zero
            },
        }
    }

    /// Schoolbook multiplication into a buffer of length len(a) + len(b).
    fn mul_vec(a: &Vec<u32>, b: &Vec<u32>) -> (r: Vec<u32>)
        requires
            len_ok(a@, b@),
        ensures
            mag(r@) == mag(a@) * mag(b@),
            a@.len() + b@.len() >= 1 ==> is_norm(r@),
    {
        let n: usize = a.len() + b.len();
        let mut result: Vec<u32> = Vec::new();
        let mut k: usize = 0;
        while k < n
            invariant
                result@.len() == k,
                k <= n,
                forall|m: int| 0 <= m < k ==> result@[m] == 0,
            decreases n - k,
        {
            result.push(0);
            k += 1;
        }
        proof {
            lemma_mag_zero(result@);
            lemma_mag_pref_zero(a@);
        }

        let mut i: usize = 0;
        while i < a.len()
            invariant
                i <= a@.len(),
                result@.len() == n,
                n == a@.len() + b@.len(),
                len_ok(a@, b@),
                mag(result@) == mag_pref(a@, i as int) * mag(b@),
                forall|m: int| i + b@.len() <= m < n ==> result@[m] == 0,
            decreases a@.len() - i,
        {
            let mut carry: u64 = 0;
            proof {
                lemma_mag_pref_zero(b@);
                assert(a@[i as int] * mag(b@.take(0)) * pw(i as nat) == 0) by (nonlinear_arith)
                    requires
                        mag(b@.take(0)) == 0,
                ;
                assert(carry * pw((i + 0) as nat) == 0) by (nonlinear_arith)
                    requires
                        carry == 0,
                ;
            }
            let mut j: usize = 0;
            while j < b.len()
                invariant
                    j <= b@.len(),
                    i < a@.len(),
                    result@.len() == n,
                    n == a@.len() + b@.len(),
                    carry <= 0xFFFF_FFFFu64,
                    mag(result@) + carry * pw((i + j) as nat) == mag_pref(a@, i as int) * mag(b@)
                        + a@[i as int] * mag(b@.take(j as int)) * pw(i as nat),
                    forall|m: int| i + b@.len() <= m < n ==> result@[m] == 0,
                decreases b@.len() - j,
            {
                proof {
                    assert((a@[i as int] as u64) * (b@[j as int] as u64) <= 0xFFFF_FFFFu64
                        * 0xFFFF_FFFFu64) by (nonlinear_arith)
                        requires
                            a@[i as int] <= 0xFFFF_FFFFu64,
                            b@[j as int] <= 0xFFFF_FFFFu64,
                    ;
                }
                let ab: u64 = (a[i] as u64) * (b[j] as u64) + (result[i + j] as u64) + carry;
                let lo: u32 = #[verifier::truncate] (ab as u32);
                let hi: u64 = ab >> 32;
                proof {
                    assert(lo == ab % 0x1_0000_0000) by (bit_vector)
                        requires
                            lo == ab as u32,
                    ;
                    assert(hi == ab / 0x1_0000_0000) by (bit_vector)
                        requires
                            hi == ab >> 32,
                    ;
                    lemma_mul_step(
                        result@,
                        a@,
                        b@,
                        i as int,
                        j as int,
                        carry,
                        ab,
                        lo,
                        hi,
                    );
                }
                result.set(i + j, lo);
                carry = hi;
                j += 1;
            }
            proof {
                lemma_mag_take_full(b@);
                assert(result@[i + b@.len()] == 0);
                lemma_mag_update(result@, (i + b@.len()) as int, carry as u32);
                lemma_mag_take_succ(a@, i as int);
                lemma_mul_outer_step(
                    mag(result@),
                    mag(a@.take(i as int)),
                    mag(a@.take(i as int + 1)),
                    a@[i as int] as nat,
                    mag(b@),
                    carry as nat,
                    pw(i as nat),
                    pw((i + b@.len()) as nat),
                );
            }
            result.set(i + b.len(), carry as u32);
            i += 1;
        }

        proof {
            lemma_mag_pref_full(a@, a@.len() as int);
        }
        if result.len() > 0 {
            Self::strip_zeros(&mut result);
        }
        result
    }

    /// Tests whether every word is zero, hence whether the value is zero.
    fn is_zero_vec(v: &Vec<u32>) -> (r: bool)
        ensures
            r == (mag(v@) == 0),
    {
        proof {
            lemma_mag_zero(v@);
        }
        let mut i: usize = 0;
        while i < v.len()
            invariant
                i <= v@.len(),
                forall|j: int| 0 <= j < i ==> v@[j] == 0,
            decreases v@.len() - i,
        {
            if v[i] != 0 {
                proof {
                    lemma_mag_zero(v@);
                }
                return false;
            }
            i += 1;
        }
        proof {
            lemma_mag_zero(v@);
        }
        true
    }

    /// The remainder of one magnitude by another, by repeated subtraction;
    /// adequate only while the quotient stays small. A zero divisor yields
    /// the canonical zero.
    fn mod_vec(a: &Vec<u32>, b: &Vec<u32>) -> (r: Vec<u32>)
        requires
            is_norm(a@),
            is_norm(b@),
        ensures
            is_norm(r@),
            mag(b@) == 0 ==> mag(r@) == 0,
            mag(b@) >= 1 ==> mag(r@) == mag(a@) % mag(b@),
    {
        if Self::is_zero_vec(b) {
            let mut zero: Vec<u32> = Vec::new();
            zero.push(0);
            proof {
                lemma_mag_single(zero@);
            }
            return zero;
        }

        let mut remainder: Vec<u32> = slice_to_vec(a.as_slice());
        let mut below = Self::cmp_vec(&remainder, b);
        while !matches!(below, Ordering::Less)
            invariant
                is_norm(remainder@),
                is_norm(b@),
                mag(b@) >= 1,
                (matches!(below, Ordering::Less) <==> mag(remainder@) < mag(b@)),
                mag(remainder@) % mag(b@) == mag(a@) % mag(b@),
            decreases mag(remainder@),
        {
            let ghost before = mag(remainder@);
            remainder = Self::diff_vec(&remainder, b);
            below = Self::cmp_vec(&remainder, b);
            proof {
                lemma_mod_sub_multiples_vanish(before as int, mag(b@) as int);
            }
        }
        proof {
            lemma_small_mod(mag(remainder@), mag(b@));
        }
        remainder
    }

    /// The greatest common divisor of two magnitudes by the Euclidean
    /// algorithm.
    fn gcd_vec(a: &Vec<u32>, b: &Vec<u32>) -> (r: Vec<u32>)
        requires
            is_norm(a@),
            is_norm(b@),
        ensures
            is_norm(r@),
            mag(r@) == gcd_nat(mag(a@), mag(b@)),
    {
        let mut x: Vec<u32> = slice_to_vec(a.as_slice());
        let mut y: Vec<u32> = slice_to_vec(b.as_slice());
        Self::strip_zeros(&mut x);
        Self::strip_zeros(&mut y);

        while !Self::is_zero_vec(&y)
            invariant
                is_norm(x@),
                is_norm(y@),
                gcd_nat(mag(x@), mag(y@)) == gcd_nat(mag(a@), mag(b@)),
            decreases mag(y@),
        {
            let remainder = Self::mod_vec(&x, &y);
            proof {
                lemma_mod_division_less_than_divisor(mag(x@) as int, mag(y@) as int);
            }
            x = y;
            y = remainder;
        }
        x
    }

    /// The quotient of one magnitude by another, exact for every input, by
    /// repeated subtraction with the count kept as a magnitude: adequate in
    /// time only while the quotient stays small. A zero divisor yields the
    /// canonical zero.
    fn div_vec(a: &Vec<u32>, b: &Vec<u32>) -> (r: Vec<u32>)
        requires
            is_norm(a@),
            is_norm(b@),
        ensures
            is_norm(r@),
            mag(b@) == 0 ==> mag(r@) == 0,
            mag(b@) >= 1 ==> mag(r@) == mag(a@) / mag(b@),
    {
        if Self::is_zero_vec(b) {
            let mut zero: Vec<u32> = Vec::new();
            zero.push(0);
            proof {
                lemma_mag_single(zero@);
            }
            return zero;
        }

        let mut remainder: Vec<u32> = slice_to_vec(a.as_slice());
        let mut count: Vec<u32> = Vec::new();
        count.push(0);
        let mut one: Vec<u32> = Vec::new();
        one.push(1);
        proof {
            lemma_mag_single(count@);
            lemma_mag_single(one@);
        }
        let mut below = Self::cmp_vec(&remainder, b);
        while !matches!(below, Ordering::Less)
            invariant
                is_norm(remainder@),
                is_norm(count@),
                is_norm(one@),
                mag(one@) == 1,
                is_norm(b@),
                mag(b@) >= 1,
                (matches!(below, Ordering::Less) <==> mag(remainder@) < mag(b@)),
                mag(a@) == mag(count@) * mag(b@) + mag(remainder@),
            decreases mag(remainder@),
        {
            let ghost counted = mag(count@);
            remainder = Self::diff_vec(&remainder, b);
            count = Self::sum_vec(&count, &one);
            below = Self::cmp_vec(&remainder, b);
            proof {
                assert((counted + 1) * mag(b@) == counted * mag(b@) + mag(b@))
                    by (nonlinear_arith);
            }
        }
        proof {
            lemma_fundamental_div_mod_converse_div(
                mag(a@) as int,
                mag(b@) as int,
                mag(count@) as int,
                mag(remainder@) as int,
            );
        }
        count
    }

    /// Total order on normalized magnitudes: the longer sequence is greater,
    /// equal lengths are decided word by word from the most significant end.
    fn cmp_vec(a: &Vec<u32>, b: &Vec<u32>) -> (r: Ordering)
        requires
            is_norm(a@),
            is_norm(b@),
        ensures
            (r == Ordering::Less <==> mag(a@) < mag(b@)),
            (r == Ordering::Equal <==> mag(a@) == mag(b@)),
            (r == Ordering::Greater <==> mag(a@) > mag(b@)),
    {
        if a.len() != b.len() {
            if a.len() < b.len() {
                proof {
                    lemma_mag_longer(b@, a@);
                }
                return Ordering::Less;
            } else {
                proof {
                    lemma_mag_longer(a@, b@);
                }
                return Ordering::Greater;
            }
        }
        let mut i: usize = a.len();
        while i > 0
            invariant
                a@.len() == b@.len(),
                i <= a@.len(),
                forall|j: int| i <= j < a@.len() ==> a@[j] == b@[j],
            decreases i,
        {
            i = i - 1;
            if a[i] < b[i] {
                proof {
                    lemma_mag_word_dominates(b@, a@, i as int);
                }
                return Ordering::Less;
            }
            if a[i] > b[i] {
                proof {
                    lemma_mag_word_dominates(a@, b@, i as int);
                }
                return Ordering::Greater;
            }
        }
        proof {
            assert(a@ =~= b@);
        }
        Ordering::Equal
    }

    /// Exact addition: a/b + c/d = (ad + bc)/bd, with the sign resolved by
    /// the operand signs and, when they differ, by comparing ad with bc.
    /// The result is not reduced.
    pub fn add(&self, b: &Number) -> (r: Number)
        requires
            wf(*self),
            wf(*b),
            len_ok(self.numerator@, b.denominator@),
            len_ok(self.denominator@, b.numerator@),
            len_ok(self.denominator@, b.denominator@),
        ensures
            wf(r),
            num_val(r) == sum_num(*self, *b),
            den_mag(r) == pair_den(*self, *b),
            r.sign == add_sign(*self, *b),
            num_mag(r) == 0 ==> r.numerator@ == seq![0u32],
    {
        let ghost nx = num_mag(*self) as int;
        let ghost dx = den_mag(*self) as int;
        let ghost ny = num_mag(*b) as int;
        let ghost dy = den_mag(*b) as int;
        let ad = Self::mul_vec(&self.numerator, &b.denominator);
        let bc = Self::mul_vec(&self.denominator, &b.numerator);
        let bd = Self::mul_vec(&self.denominator, &b.denominator);
        proof {
            lemma_neg_mul(nx, dy);
            lemma_neg_mul(dx, ny);
            lemma_pos_mul(dx, dy);
        }

        let (numerator, sign) = match (self.sign, b.sign) {
            (Sign::Positive, Sign::Positive) => (Self::sum_vec(&ad, &bc), Sign::Positive),
            (Sign::Positive, Sign::Negative) => {
                let numerator = Self::diff_vec(&ad, &bc);
                match Self::cmp_vec(&ad, &bc) {
                    Ordering::Greater => (numerator, Sign::Positive),
                    Ordering::Less => (numerator, Sign::Negative),
                    Ordering::Equal => (numerator, Sign::Positive),
                }
            },
            (Sign::Negative, Sign::Positive) => {
                let numerator = Self::diff_vec(&ad, &bc);
                match Self::cmp_vec(&bc, &ad) {
                    Ordering::Greater => (numerator, Sign::Positive),
                    Ordering::Less => (numerator, Sign::Negative),
                    Ordering::Equal => (numerator, Sign::Positive),
                }
            },
            (Sign::Negative, Sign::Negative) => (Self::sum_vec(&ad, &bc), Sign::Negative),
        };
        Number { numerator, denominator: bd, sign }
    }

    /// Exact subtraction, defined as adding the negation of the second
    /// operand; only the sign tag is flipped.
    pub fn sub(&self, b: &Number) -> (r: Number)
        requires
            wf(*self),
            wf(*b),
            len_ok(self.numerator@, b.denominator@),
            len_ok(self.denominator@, b.numerator@),
            len_ok(self.denominator@, b.denominator@),
        ensures
            wf(r),
            num_val(r) == diff_num(*self, *b),
            den_mag(r) == pair_den(*self, *b),
            r.sign == sub_sign(*self, *b),
            num_mag(r) == 0 ==> r.numerator@ == seq![0u32],
    {
        let negate_b = Number {
            numerator: slice_to_vec(b.numerator.as_slice()),
            denominator: slice_to_vec(b.denominator.as_slice()),
            sign: match b.sign {
                Sign::Positive => Sign::Negative,
                Sign::Negative => Sign::Positive,
            },
        };
        proof {
            lemma_neg_mul(den_mag(*self) as int, num_val(*b));
        }
        self.add(&negate_b)
    }

    /// Exact multiplication: a/b * c/d = ac/bd; the sign is Positive exactly
    /// when the operand signs agree. The result is not reduced.
    pub fn mul(&self, b: &Number) -> (r: Number)
        requires
            wf(*self),
            wf(*b),
            len_ok(self.numerator@, b.numerator@),
            len_ok(self.denominator@, b.denominator@),
        ensures
            wf(r),
            num_mag(r) == num_mag(*self) * num_mag(*b),
            den_mag(r) == pair_den(*self, *b),
            r.sign == (if self.sign == b.sign {
                Sign::Positive
            } else {
                Sign::Negative
            }),
            num_val(r) == prod_num(*self, *b),
    {
        let ghost nx = num_mag(*self) as int;
        let ghost ny = num_mag(*b) as int;
        proof {
            lemma_neg_mul(nx, ny);
            lemma_neg_mul(nx, -ny);
            lemma_pos_mul(den_mag(*self) as int, den_mag(*b) as int);
        }
        Number {
            numerator: Self::mul_vec(&self.numerator, &b.numerator),
            denominator: Self::mul_vec(&self.denominator, &b.denominator),
            sign: if self.sign == b.sign {
                Sign::Positive
            } else {
                Sign::Negative
            },
        }
    }

    /// Exact division: a/b divided by c/d is ad/bc, failing exactly when the
    /// divisor's numerator magnitude is zero. The result is not reduced.
    pub fn div(&self, b: &Number) -> (r: Option<Number>)
        requires
            wf(*self),
            wf(*b),
            len_ok(self.numerator@, b.denominator@),
            len_ok(self.denominator@, b.numerator@),
        ensures
            r is Some <==> num_mag(*b) != 0,
            r matches Some(q) ==> {
                &&& wf(q)
                &&& num_mag(q) == num_mag(*self) * den_mag(*b)
                &&& den_mag(q) == den_mag(*self) * num_mag(*b)
                &&& q.sign == (if self.sign == b.sign {
                    Sign::Positive
                } else {
                    Sign::Negative
                })
            },
    {
        if Self::is_zero_vec(&b.numerator) {
            return None;
        }

        proof {
            lemma_pos_mul(den_mag(*self) as int, num_mag(*b) as int);
        }
        Some(
            Number {
                numerator: Self::mul_vec(&self.numerator, &b.denominator),
                denominator: Self::mul_vec(&self.denominator, &b.numerator),
                sign: if self.sign == b.sign {
                    Sign::Positive
                } else {
                    Sign::Negative
                },
            },
        )
    }

    /// Reduction to lowest terms: both magnitudes are divided exactly by
    /// their gcd, the sign is kept. When the gcd is 1 the value is returned
    /// as an unchanged copy.
    pub fn reduce(&self) -> (r: Number)
        requires
            wf(*self),
        ensures
            wf(r),
            r.sign == self.sign,
            gcd_nat(num_mag(*self), den_mag(*self)) == 1 ==> r.numerator@ == self.numerator@
                && r.denominator@ == self.denominator@,
            num_mag(r) == num_mag(*self) / gcd_nat(num_mag(*self), den_mag(*self)),
            den_mag(r) == den_mag(*self) / gcd_nat(num_mag(*self), den_mag(*self)),
            num_mag(r) * gcd_nat(num_mag(*self), den_mag(*self)) == num_mag(*self),
            den_mag(r) * gcd_nat(num_mag(*self), den_mag(*self)) == den_mag(*self),
    {
        let ghost n = num_mag(*self);
        let ghost d = den_mag(*self);
        let gcd = Self::gcd_vec(&self.numerator, &self.denominator);
        proof {
            lemma_gcd_pos(n, d);
            // The single-word test against 1 below decides whether mag(gcd@) is 1.
            if gcd@.len() == 1 {
                lemma_mag_single(gcd@);
            } else {
                lemma_mag_top_word(gcd@);
                lemma_pw_mono(1, (gcd@.len() - 1) as nat);
                assert(pw(0) == 1);
                assert(pw(1) == base() * pw(0));
            }
        }

        if gcd.len() == 1 && gcd[0] == 1 {
            proof {
                assert(n / 1 == n && d / 1 == d);
                assert(n * 1 == n && d * 1 == d) by (nonlinear_arith);
            }
            return Number {
                numerator: slice_to_vec(self.numerator.as_slice()),
                denominator: slice_to_vec(self.denominator.as_slice()),
                sign: self.sign,
            };
        }

        let ghost g = gcd_nat(n, d);
        proof {
            assert(g > 1);
            lemma_gcd_divides(n, d);
            lemma_divides_exact(g, d);
            lemma_divides_exact(g, n);
            assert((n / g) * g == g * (n / g)) by (nonlinear_arith);
            assert((d / g) * g == g * (d / g)) by (nonlinear_arith);
        }
        let reduced_numerator = Self::div_vec(&self.numerator, &gcd);
        let reduced_denominator = Self::div_vec(&self.denominator, &gcd);

        Number { numerator: reduced_numerator, denominator: reduced_denominator, sign: self.sign }
    }
}

/// A whole number val/1 with the sign of val.
pub fn from_i32(val: i32) -> (r: Number)
    ensures
        wf(r),
        num_val(r) == val as int,
        den_mag(r) == 1,
        r.sign == (if val >= 0 {
            Sign::Positive
        } else {
            Sign::Negative
        }),
        r.numerator@.len() == 1,
        r.denominator@ == seq![1u32],
{
    let m: u32 = if val >= 0 {
        val as u32
    } else if val == i32::MIN {
        0x8000_0000
    } else {
        (-val) as u32
    };
    let mut numerator: Vec<u32> = Vec::new();
    numerator.push(m);
    let mut denominator: Vec<u32> = Vec::new();
    denominator.push(1);
    proof {
        lemma_mag_single(numerator@);
        lemma_mag_single(denominator@);
        assert(denominator@ =~= seq![1u32]);
    }
    Number {
        numerator,
        denominator,
        sign: if val >= 0 {
            Sign::Positive
        } else {
            Sign::Negative
        },
    }
}

/// A fraction n/d with the given sign, from single words.
pub fn from_fraction(n: u32, d: u32, sign: Sign) -> (r: Number)
    ensures
        r.numerator@ == seq![n],
        r.denominator@ == seq![d],
        r.sign == sign,
        num_mag(r) == n,
        den_mag(r) == d,
        d >= 1 ==> wf(r),
{
    let mut numerator: Vec<u32> = Vec::new();
    numerator.push(n);
    let mut denominator: Vec<u32> = Vec::new();
    denominator.push(d);
    proof {
        lemma_mag_single(numerator@);
        lemma_mag_single(denominator@);
        assert(numerator@ =~= seq![n]);
        assert(denominator@ =~= seq![d]);
    }
    Number { numerator, denominator, sign }
}

impl Number {
    /// The total order on rationals, by the rules of `order_spec`. The
    /// fallible `partial_cmp` carries the same answer; this form is for
    /// callers that can show the cross products fit in memory.
    pub fn cmp(&self, other: &Number) -> (r: Ordering)
        requires
            cross_ok(*self, *other),
        ensures
            r == order_spec(*self, *other),
    {
        match self.partial_cmp(other) {
            Some(o) => o,
            None => Ordering::Equal,
        }
    }
}

impl PartialEq for Number {
    /// Cross-multiplication equality: a/b == c/d exactly when ad == bc,
    /// with every zero representation equal to every other.
    fn eq(&self, other: &Self) -> (r: bool) {
        let self_is_zero = Number::is_zero_vec(&self.numerator);
        let other_is_zero = Number::is_zero_vec(&other.numerator);

        if self_is_zero && other_is_zero {
            return true;
        }
        if self_is_zero || other_is_zero {
            return false;
        }

        // Operands too long for their cross products to be allocated cannot
        // exist in memory; the guard keeps the comparison total.
        if usize::MAX - self.numerator.len() < other.denominator.len() || usize::MAX
            - self.denominator.len() < other.numerator.len() {
            return false;
        }

        let ad = Number::mul_vec(&self.numerator, &other.denominator);
        let bc = Number::mul_vec(&self.denominator, &other.numerator);

        self.sign == other.sign && matches!(Number::cmp_vec(&ad, &bc), Ordering::Equal)
    }
}

impl Eq for Number {

}

impl vstd::std_specs::cmp::PartialEqSpecImpl for Number {
    open spec fn obeys_eq_spec() -> bool {
        true
    }

    open spec fn eq_spec(&self, other: &Number) -> bool {
        if num_mag(*self) == 0 || num_mag(*other) == 0 {
            eq_full(*self, *other)
        } else {
            cross_ok(*self, *other) && eq_full(*self, *other)
        }
    }
}

impl PartialOrd for Number {
    /// The total order of `order_spec`, cross-multiplying a*d against b*c;
    /// None only for operands whose cross products could not be allocated.
    fn partial_cmp(&self, other: &Self) -> (r: Option<Ordering>) {
        let self_is_zero = Number::is_zero_vec(&self.numerator);
        let other_is_zero = Number::is_zero_vec(&other.numerator);

        if self_is_zero && other_is_zero {
            return Some(Ordering::Equal);
        }
        if self_is_zero {
            return Some(
                match other.sign {
                    Sign::Positive => Ordering::Less,
                    Sign::Negative => Ordering::Greater,
                },
            );
        }
        if other_is_zero {
            return Some(
                match self.sign {
                    Sign::Positive => Ordering::Greater,
                    Sign::Negative => Ordering::Less,
                },
            );
        }

        match (self.sign, other.sign) {
            (Sign::Positive, Sign::Negative) => Some(Ordering::Greater),
            (Sign::Negative, Sign::Positive) => Some(Ordering::Less),
            (Sign::Positive, Sign::Positive) => {
                if usize::MAX - self.numerator.len() < other.denominator.len() || usize::MAX
                    - self.denominator.len() < other.numerator.len() {
                    return None;
                }
                let ad = Number::mul_vec(&self.numerator, &other.denominator);
                let bc = Number::mul_vec(&self.denominator, &other.numerator);
                Some(Number::cmp_vec(&ad, &bc))
            },
            (Sign::Negative, Sign::Negative) => {
                if usize::MAX - self.numerator.len() < other.denominator.len() || usize::MAX
                    - self.denominator.len() < other.numerator.len() {
                    return None;
                }
                let ad = Number::mul_vec(&self.numerator, &other.denominator);
                let bc = Number::mul_vec(&self.denominator, &other.numerator);
                Some(Number::cmp_vec(&bc, &ad))
            },
        }
    }
}

impl vstd::std_specs::cmp::PartialOrdSpecImpl for Number {
    open spec fn obeys_partial_cmp_spec() -> bool {
        true
    }

    open spec fn partial_cmp_spec(&self, other: &Number) -> Option<Ordering> {
        if num_mag(*self) == 0 || num_mag(*other) == 0 || self.sign != other.sign {
            Some(order_spec(*self, *other))
        } else if cross_ok(*self, *other) {
            Some(order_spec(*self, *other))
        } else {
            None
        }
    }
}

impl core::ops::Add for Number {
    type Output = Number;

    /// Operator sugar: delegates to Number::add, which carries the contract.
    fn add(self, rhs: Number) -> Number {
        Number::add(&self, &rhs)
    }
}

impl vstd::std_specs::ops::AddSpecImpl for Number {
    open spec fn obeys_add_spec() -> bool {
        false
    }

    open spec fn add_req(self, rhs: Number) -> bool {
        wf(self) && wf(rhs) && len_ok(self.numerator@, rhs.denominator@) && len_ok(
            self.denominator@,
            rhs.numerator@,
        ) && len_ok(self.denominator@, rhs.denominator@)
    }

    open spec fn add_spec(self, rhs: Number) -> Number {
        arbitrary()
    }
}

impl<'a> core::ops::Add<&'a Number> for Number {
    type Output = Number;

    /// Operator sugar: delegates to Number::add, which carries the contract.
    fn add(self, rhs: &'a Number) -> Number {
        Number::add(&self, rhs)
    }
}

impl<'a> vstd::std_specs::ops::AddSpecImpl<&'a Number> for Number {
    open spec fn obeys_add_spec() -> bool {
        false
    }

    open spec fn add_req(self, rhs: &'a Number) -> bool {
        wf(self) && wf(*rhs) && len_ok(self.numerator@, rhs.denominator@) && len_ok(
            self.denominator@,
            rhs.numerator@,
        ) && len_ok(self.denominator@, rhs.denominator@)
    }

    open spec fn add_spec(self, rhs: &'a Number) -> Number {
        arbitrary()
    }
}

impl core::ops::Sub for Number {
    type Output = Number;

    /// Operator sugar: delegates to Number::sub, which carries the contract.
    fn sub(self, rhs: Number) -> Number {
        Number::sub(&self, &rhs)
    }
}

impl vstd::std_specs::ops::SubSpecImpl for Number {
    open spec fn obeys_sub_spec() -> bool {
        false
    }

    open spec fn sub_req(self, rhs: Number) -> bool {
        wf(self) && wf(rhs) && len_ok(self.numerator@, rhs.denominator@) && len_ok(
            self.denominator@,
            rhs.numerator@,
        ) && len_ok(self.denominator@, rhs.denominator@)
    }

    open spec fn sub_spec(self, rhs: Number) -> Number {
        arbitrary()
    }
}

impl<'a> core::ops::Sub<&'a Number> for Number {
    type Output = Number;

    /// Operator sugar: delegates to Number::sub, which carries the contract.
    fn sub(self, rhs: &'a Number) -> Number {
        Number::sub(&self, rhs)
    }
}

impl<'a> vstd::std_specs::ops::SubSpecImpl<&'a Number> for Number {
    open spec fn obeys_sub_spec() -> bool {
        false
    }

    open spec fn sub_req(self, rhs: &'a Number) -> bool {
        wf(self) && wf(*rhs) && len_ok(self.numerator@, rhs.denominator@) && len_ok(
            self.denominator@,
            rhs.numerator@,
        ) && len_ok(self.denominator@, rhs.denominator@)
    }

    open spec fn sub_spec(self, rhs: &'a Number) -> Number {
        arbitrary()
    }
}

impl core::ops::Mul for Number {
    type Output = Number;

    /// Operator sugar: delegates to Number::mul, which carries the contract.
    fn mul(self, rhs: Number) -> Number {
        Number::mul(&self, &rhs)
    }
}

impl vstd::std_specs::ops::MulSpecImpl for Number {
    open spec fn obeys_mul_spec() -> bool {
        false
    }

    open spec fn mul_req(self, rhs: Number) -> bool {
        wf(self) && wf(rhs) && len_ok(self.numerator@, rhs.numerator@) && len_ok(
            self.denominator@,
            rhs.denominator@,
        )
    }

    open spec fn mul_spec(self, rhs: Number) -> Number {
        arbitrary()
    }
}

impl<'a> core::ops::Mul<&'a Number> for Number {
    type Output = Number;

    /// Operator sugar: delegates to Number::mul, which carries the contract.
    fn mul(self, rhs: &'a Number) -> Number {
        Number::mul(&self, rhs)
    }
}

impl<'a> vstd::std_specs::ops::MulSpecImpl<&'a Number> for Number {
    open spec fn obeys_mul_spec() -> bool {
        false
    }

    open spec fn mul_req(self, rhs: &'a Number) -> bool {
        wf(self) && wf(*rhs) && len_ok(self.numerator@, rhs.numerator@) && len_ok(
            self.denominator@,
            rhs.denominator@,
        )
    }

    open spec fn mul_spec(self, rhs: &'a Number) -> Number {
        arbitrary()
    }
}

impl core::ops::Div for Number {
    type Output = Option<Number>;

    /// Operator sugar: delegates to Number::div, which carries the contract;
    /// the caller decides how to react to a zero divisor.
    fn div(self, rhs: Number) -> Option<Number> {
        Number::div(&self, &rhs)
    }
}

impl vstd::std_specs::ops::DivSpecImpl for Number {
    open spec fn obeys_div_spec() -> bool {
        false
    }

    open spec fn div_req(self, rhs: Number) -> bool {
        wf(self) && wf(rhs) && len_ok(self.numerator@, rhs.denominator@) && len_ok(
            self.denominator@,
            rhs.numerator@,
        )
    }

    open spec fn div_spec(self, rhs: Number) -> Option<Number> {
        arbitrary()
    }
}

impl<'a> core::ops::Div<&'a Number> for Number {
    type Output = Option<Number>;

    /// Operator sugar: delegates to Number::div, which carries the contract;
    /// the caller decides how to react to a zero divisor.
    fn div(self, rhs: &'a Number) -> Option<Number> {
        Number::div(&self, rhs)
    }
}

impl<'a> vstd::std_specs::ops::DivSpecImpl<&'a Number> for Number {
    open spec fn obeys_div_spec() -> bool {
        false
    }

    open spec fn div_req(self, rhs: &'a Number) -> bool {
        wf(self) && wf(*rhs) && len_ok(self.numerator@, rhs.denominator@) && len_ok(
            self.denominator@,
            rhs.numerator@,
        )
    }

    open spec fn div_spec(self, rhs: &'a Number) -> Option<Number> {
        arbitrary()
    }
}

/// One step of the borrow-propagating subtraction loop: pushing the adjusted
/// word keeps the running value equation.
proof fn lemma_diff_step(
    r: Seq<u32>,
    l: Seq<u32>,
    s: Seq<u32>,
    i: int,
    borrow: i64,
    new_borrow: i64,
    word: u32,
    l_val: u32,
    s_val: u32,
)
    requires
        0 <= i < l.len(),
        r.len() == i,
        borrow == 0 || borrow == 1,
        new_borrow == 0 || new_borrow == 1,
        l_val == l[i],
        s_val == word_at(s, i),
        word == l_val - s_val - borrow + new_borrow * 0x1_0000_0000,
        mag(r) + mag_pref(s, i) == mag_pref(l, i) + borrow * pw(i as nat),
    ensures
        mag(r.push(word)) + mag_pref(s, i + 1) == mag_pref(l, i + 1) + new_borrow * pw(
            (i + 1) as nat,
        ),
{
    lemma_mag_push(r, word);
    lemma_mag_pref_succ(l, i);
    lemma_mag_pref_succ(s, i);
    let p = pw(i as nat);
    assert(pw((i + 1) as nat) == base() * p);
    assert((l_val - s_val - borrow + new_borrow * 0x1_0000_0000) * p + s_val * p + borrow * p
        == l_val * p + new_borrow * (0x1_0000_0000 * p)) by (nonlinear_arith);
}

/// One step of the inner multiplication loop: replacing the word at i + j by
/// the low half of the partial product keeps the running value equation.
proof fn lemma_mul_step(
    res: Seq<u32>,
    a: Seq<u32>,
    b: Seq<u32>,
    i: int,
    j: int,
    carry: u64,
    ab: u64,
    lo: u32,
    hi: u64,
)
    requires
        0 <= i < a.len(),
        0 <= j < b.len(),
        res.len() == a.len() + b.len(),
        carry <= 0xFFFF_FFFFu64,
        ab == a[i] * b[j] + res[i + j] + carry,
        lo == ab % 0x1_0000_0000,
        hi == ab / 0x1_0000_0000,
        mag(res) + carry * pw((i + j) as nat) == mag(a.take(i)) * mag(b) + a[i] * mag(b.take(j))
            * pw(i as nat),
    ensures
        mag(res.update(i + j, lo)) + hi * pw((i + j + 1) as nat) == mag(a.take(i)) * mag(b) + a[i]
            * mag(b.take(j + 1)) * pw(i as nat),
        hi <= 0xFFFF_FFFFu64,
        forall|m: int| 0 <= m < res.len() && m != i + j ==> res.update(i + j, lo)[m] == res[m],
{
    let w = res[i + j];
    let p_i = pw(i as nat);
    let p_j = pw(j as nat);
    let p_ij = pw((i + j) as nat);
    lemma_mag_update(res, i + j, lo);
    lemma_pw_add(i as nat, j as nat);
    assert(pw((i + j + 1) as nat) == base() * p_ij);
    lemma_mag_take_succ(b, j);
    assert(ab == base() * hi + lo);
    assert(lo * p_ij - w * p_ij + hi * (base() * p_ij) == (lo + base() * hi - w) * p_ij)
        by (nonlinear_arith);
    assert((a[i] * b[j] + carry) * p_ij == a[i] * b[j] * p_ij + carry * p_ij) by (nonlinear_arith);
    assert(a[i] * b[j] * (p_i * p_j) == a[i] * (b[j] * p_j) * p_i) by (nonlinear_arith);
    assert(a[i] * mag(b.take(j)) * p_i + a[i] * (b[j] * p_j) * p_i == a[i] * (mag(b.take(j)) + b[j]
        * p_j) * p_i) by (nonlinear_arith);
}

/// Folding the final carry of one outer multiplication round into the buffer
/// advances the row invariant by one word of a.
proof fn lemma_mul_outer_step(
    mr: nat,
    a_pref: nat,
    a_pref1: nat,
    ai: nat,
    mb: nat,
    c: nat,
    p_i: nat,
    p_ib: nat,
)
    requires
        mr + c * p_ib == a_pref * mb + ai * mb * p_i,
        a_pref1 == a_pref + ai * p_i,
    ensures
        mr + c * p_ib == a_pref1 * mb,
{
    assert((a_pref + ai * p_i) * mb == a_pref * mb + ai * p_i * mb) by (nonlinear_arith);
    assert(ai * mb * p_i == ai * p_i * mb) by (nonlinear_arith);
}

/// One step of the carry-propagating addition loop: pushing the low word and
/// keeping the shifted-out carry preserves the running value equation.
proof fn lemma_sum_step(
    r: Seq<u32>,
    a: Seq<u32>,
    b: Seq<u32>,
    i: int,
    carry: u64,
    sum: u64,
    lo: u32,
    a_val: u32,
    b_val: u32,
)
    requires
        0 <= i,
        r.len() == i,
        carry <= 1,
        sum == a_val + b_val + carry,
        lo == sum % 0x1_0000_0000,
        a_val == word_at(a, i),
        b_val == word_at(b, i),
        mag(r) + carry * pw(i as nat) == mag_pref(a, i) + mag_pref(b, i),
    ensures
        mag(r.push(lo)) + (sum >> 32) * pw((i + 1) as nat) == mag_pref(a, i + 1) + mag_pref(
            b,
            i + 1,
        ),
        sum >> 32 <= 1,
{
    let hi = sum >> 32;
    assert(sum >> 32 == sum / 0x1_0000_0000) by (bit_vector);
    assert(hi <= 1);
    lemma_mag_push(r, lo);
    lemma_mag_pref_succ(a, i);
    lemma_mag_pref_succ(b, i);
    let p = pw(i as nat);
    assert(pw((i + 1) as nat) == base() * p);
    assert(sum == 0x1_0000_0000 * hi + lo);
    assert(lo * p + hi * (base() * p) == (lo + base() * hi) * p) by (nonlinear_arith);
    assert((a_val + b_val + carry) * p == a_val * p + b_val * p + carry * p) by (nonlinear_arith);
}

} // verus!
