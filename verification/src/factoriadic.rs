//! The factorial number system: digits with factorial place values, and the
//! selection of the i-th permutation of a sequence through its factoriadic
//! (Lehmer code) digits.

use vstd::arithmetic::div_mod::lemma_fundamental_div_mod;
use vstd::prelude::*;

verus! {

/// Factorial, as a mathematical function.
pub open spec fn fact_nat(x: nat) -> nat
    decreases x,
{
    if x == 0 {
        1
    } else {
        x * fact_nat((x - 1) as nat)
    }
}

pub proof fn lemma_fact_bounds(x: nat)
    ensures
        1 <= fact_nat(x),
        x >= 1 ==> x <= fact_nat(x),
    decreases x,
{
    if x >= 1 {
        lemma_fact_bounds((x - 1) as nat);
        let f = fact_nat((x - 1) as nat);
        assert(x * f >= x * 1) by (nonlinear_arith)
            requires
                f >= 1,
                x >= 1,
        ;
    }
}

pub proof fn lemma_fact_mono(a: nat, b: nat)
    requires
        a <= b,
    ensures
        fact_nat(a) <= fact_nat(b),
    decreases b,
{
    if a < b {
        lemma_fact_mono(a, (b - 1) as nat);
        let f = fact_nat((b - 1) as nat);
        assert(b * f >= 1 * f) by (nonlinear_arith)
            requires
                b >= 1,
                f >= 0,
        ;
    }
}

proof fn lemma_fact_20()
    ensures
        fact_nat(20) == 2432902008176640000,
        fact_nat(21) == 51090942171709440000,
{
    reveal_with_fuel(fact_nat, 22);
}

/// The value a digit sequence denotes, counting from place `k`: each digit
/// is weighted by the factorial of its index.
pub open spec fn fval_from(ds: Seq<u64>, k: int) -> int
    decreases ds.len() - k,
{
    if 0 <= k < ds.len() {
        ds[k] * fact_nat(k as nat) + fval_from(ds, k + 1)
    } else {
        0
    }
}

/// The value of a factoriadic digit sequence, least significant digit first.
pub open spec fn fval(ds: Seq<u64>) -> int {
    fval_from(ds, 0)
}

/// Well-formed factoriadic digits: the digit at place `k` is at most `k`.
pub open spec fn wf_digits(ds: Seq<u64>) -> bool {
    forall|k: int| 0 <= k < ds.len() ==> ds[k] <= k
}

pub proof fn lemma_fval_nonneg(ds: Seq<u64>, k: int)
    ensures
        fval_from(ds, k) >= 0,
    decreases ds.len() - k,
{
    if 0 <= k < ds.len() {
        lemma_fval_nonneg(ds, k + 1);
        let f = fact_nat(k as nat);
        assert(ds[k] * f >= 0) by (nonlinear_arith)
            requires
                ds[k] >= 0,
                f >= 0,
        ;
    }
}

/// Appending a digit adds its weighted value.
proof fn lemma_fval_push(ds: Seq<u64>, x: u64, k: int)
    requires
        0 <= k <= ds.len(),
    ensures
        fval_from(ds.push(x), k) == fval_from(ds, k) + x * fact_nat(ds.len() as nat),
    decreases ds.len() - k,
{
    if k < ds.len() {
        lemma_fval_push(ds, x, k + 1);
        assert(ds.push(x)[k] == ds[k]);
    } else {
        assert(ds.push(x)[k] == x);
        assert(fval_from(ds.push(x), k + 1) == 0);
        assert(fval_from(ds, k) == 0);
    }
}

/// A number in factoriadic representation, least significant digit first.
#[derive(Debug)]
pub struct Factoriadic(pub Vec<u64>);

impl Factoriadic {
    /// Decompose `n` into factoriadic digits by dividing out the radices
    /// 1, 2, 3, ... in turn. The digits are well formed, denote `n`, and
    /// carry no leading zero (in the most significant place) unless `n` is 0.
    pub fn new(n: u64) -> (r: Factoriadic)
        ensures
            fval(r.0@) == n,
            wf_digits(r.0@),
            r.0@.len() >= 1,
            r.0@.len() > 1 ==> r.0@[r.0@.len() - 1] != 0,
    {
        let ghost n0 = n;
        let mut n: u64 = n;
        let mut out: Vec<u64> = Vec::new();
        // place 0 has radix 1, so its digit is always 0
        out.push(0);
        let mut factor: u64 = 2;
        proof {
            reveal_with_fuel(fval_from, 3);
            reveal_with_fuel(fact_nat, 3);
            assert(fval(out@) == 0);
            assert(fact_nat(1) == 1);
        }
        while n > 0
            invariant
                2 <= factor,
                out@.len() == factor - 1,
                wf_digits(out@),
                n0 == fval(out@) + n * fact_nat((factor - 1) as nat),
                n >= 1 ==> factor <= 21,
                n == 0 && out@.len() > 1 ==> out@[out@.len() - 1] != 0,
            decreases n,
        {
            proof {
                lemma_fval_nonneg(out@, 0);
                lemma_fact_bounds((factor - 1) as nat);
                lemma_fact_20();
            }
            let rem: u64 = n % factor;
            let ghost n_prev = n;
            let ghost factor_prev = factor;
            let ghost out0 = out@;
            proof {
                lemma_fundamental_div_mod(n as int, factor as int);
                assert(rem == (n_prev as int) % (factor_prev as int));
                assert(n_prev == factor_prev * ((n_prev as int) / (factor_prev as int)) + rem);
            }
            out.push(rem);
            n = n / factor;
            factor = factor + 1;
            proof {
                assert(out@ == out0.push(rem));
                lemma_fval_push(out0, rem, 0);
                let w = fact_nat((factor_prev - 1) as nat);
                assert(out0.len() == factor_prev - 1);
                assert(fval(out@) == fval(out0) + rem * w);
                assert(fact_nat(factor_prev as nat) == factor_prev * w);
                assert(n_prev * w == rem * w + ((n_prev as int) / (factor_prev as int)) * (factor_prev * w))
                    by (nonlinear_arith)
                    requires
                        n_prev == factor_prev * ((n_prev as int) / (factor_prev as int)) + rem,
                        w >= 0,
                ;
                assert(n == (n_prev as int) / (factor_prev as int));
                assert(n0 == fval(out@) + n * fact_nat((factor - 1) as nat));
                assert(n < n_prev) by (nonlinear_arith)
                    requires
                        n == (n_prev as int) / (factor_prev as int),
                        n_prev >= 1,
                        factor_prev >= 2,
                ;
                if n >= 1 {
                    // if the next radix were past 21, its factorial weight
                    // alone would already exceed any u64 value
                    lemma_fval_nonneg(out@, 0);
                    assert(n * fact_nat((factor - 1) as nat) >= fact_nat((factor - 1) as nat))
                        by (nonlinear_arith)
                        requires
                            n >= 1,
                            fact_nat((factor - 1) as nat) >= 0,
                    ;
                    if factor - 1 >= 21 {
                        lemma_fact_mono(21, (factor - 1) as nat);
                        assert(false);
                    }
                }
                if n == 0 {
                    assert(out@[out@.len() - 1] == rem);
                    assert((n_prev as int) / (factor_prev as int) == 0);
                    assert(rem == n_prev) by (nonlinear_arith)
                        requires
                            n_prev == factor_prev * ((n_prev as int) / (factor_prev as int)) + rem,
                            (n_prev as int) / (factor_prev as int) == 0,
                    ;
                }
            }
        }
        Factoriadic(out)
    }

    /// The digits most significant first.
    pub fn to_rev_vec(&self) -> (r: Vec<u64>)
        ensures
            r@ == self.0@.reverse(),
    {
        let mut r: Vec<u64> = Vec::new();
        let mut i: usize = self.0.len();
        while i > 0
            invariant
                i <= self.0@.len(),
                r@.len() == self.0@.len() - i,
                forall|j: int| 0 <= j < r@.len() ==> r@[j] == self.0@[self.0@.len() - 1 - j],
            decreases i,
        {
            i = i - 1;
            r.push(self.0[i]);
        }
        proof {
            assert(r@ =~= self.0@.reverse());
        }
        r
    }

    /// Digit-wise addition with carry. Defined only for factoriadics of
    /// equal size, as in plain column addition.
    pub fn add(self, other: Factoriadic) -> (r: Factoriadic)
        requires
            self.0@.len() == other.0@.len(),
            self.0@.len() < 0x1_0000_0000,
            wf_digits(self.0@),
            wf_digits(other.0@),
        ensures
            fval(r.0@) == fval(self.0@) + fval(other.0@),
            wf_digits(r.0@),
            r.0@.len() == self.0@.len() || (r.0@.len() == self.0@.len() + 1 && r.0@[r.0@.len()
                - 1] == 1),
    {
        let mut carry: u64 = 0;
        let mut factor: u64 = 1;
        let mut out: Vec<u64> = Vec::new();
        let mut idx: usize = 0;
        let len: usize = self.0.len();
        while idx < len
            invariant
                self.0@.len() == len,
                other.0@.len() == len,
                len < 0x1_0000_0000,
                wf_digits(self.0@),
                wf_digits(other.0@),
                idx <= len,
                factor == idx + 1,
                out@.len() == idx,
                wf_digits(out@),
                carry <= 1,
                carry != 0 ==> idx >= 1,
                fval(self.0@.subrange(0, idx as int)) + fval(other.0@.subrange(0, idx as int))
                    == fval(out@) + carry * fact_nat(idx as nat),
            decreases len - idx,
        {
            let this_digit: u64 = self.0[idx];
            let other_digit: u64 = other.0[idx];
            let sum: u64 = this_digit + other_digit + carry;
            let res: u64 = sum % factor;
            let new_carry: u64 = if sum / factor != 0 {
                1
            } else {
                0
            };
            proof {
                lemma_fundamental_div_mod(sum as int, factor as int);
                assert(sum as int / factor as int <= 1) by (nonlinear_arith)
                    requires
                        factor >= 1,
                        sum < 2 * factor,
                        sum == factor * (sum as int / factor as int) + (sum as int % factor as int),
                        sum as int % factor as int >= 0,
                ;
                let w = fact_nat(idx as nat);
                assert(fact_nat((idx + 1) as nat) == (idx + 1) * w);
                assert(sum * w == res * w + (sum as int / factor as int) * ((idx + 1) * w))
                    by (nonlinear_arith)
                    requires
                        sum == factor * (sum as int / factor as int) + res,
                        factor == idx + 1,
                        w >= 0,
                ;
                // the two prefixes each grow by one weighted digit
                lemma_fval_push(self.0@.subrange(0, idx as int), this_digit, 0);
                assert(self.0@.subrange(0, idx as int).push(this_digit) =~= self.0@.subrange(
                    0,
                    idx as int + 1,
                ));
                lemma_fval_push(other.0@.subrange(0, idx as int), other_digit, 0);
                assert(other.0@.subrange(0, idx as int).push(other_digit) =~= other.0@.subrange(
                    0,
                    idx as int + 1,
                ));
                lemma_fval_push(out@, res, 0);
                assert((this_digit + other_digit + carry) * w == this_digit * w + other_digit * w
                    + carry * w) by (nonlinear_arith);
            }
            out.push(res);
            carry = new_carry;
            factor = factor + 1;
            idx = idx + 1;
        }
        if carry != 0 {
            proof {
                lemma_fval_push(out@, carry, 0);
            }
            out.push(carry);
        }
        proof {
            assert(self.0@.subrange(0, len as int) =~= self.0@);
            assert(other.0@.subrange(0, len as int) =~= other.0@);
        }
        Factoriadic(out)
    }
}

/// The i-th permutation of a sequence, counting in lexicographic order of
/// selection: the quotient by `(len - 1)!` picks the head, and the remainder
/// selects recursively among what is left.
pub open spec fn ith_perm(s: Seq<u64>, i: nat) -> Seq<u64>
    decreases s.len(),
    via ith_perm_decreases
{
    if s.len() == 0 {
        Seq::empty()
    } else {
        let w = fact_nat((s.len() - 1) as nat);
        let d: int = if 1 <= w && i / w < s.len() {
            (i / w) as int
        } else {
            0
        };
        seq![s[d]] + ith_perm(s.remove(d), i % w)
    }
}

#[via_fn]
proof fn ith_perm_decreases(s: Seq<u64>, i: nat) {
    if s.len() != 0 {
        let w = fact_nat((s.len() - 1) as nat);
        let d: int = if 1 <= w && i / w < s.len() {
            (i / w) as int
        } else {
            0
        };
        if 1 <= w && i / w < s.len() {
            assert((i as int) / (w as int) >= 0) by (nonlinear_arith)
                requires
                    w >= 1,
                    i >= 0,
            ;
        }
        assert(0 <= d < s.len());
        s.remove_ensures(d);
        assert(s.remove(d).len() < s.len());
    }
}

/// Factorial in `u64`, a helper for the permutation selector.
fn fact_u64(x: u64) -> (r: u64)
    requires
        x <= 20,
    ensures
        r == fact_nat(x as nat),
{
    proof {
        lemma_fact_20();
        lemma_fact_mono(x as nat, 20);
    }
    let mut k: u64 = 0;
    let mut ret: u64 = 1;
    while k < x
        invariant
            k <= x <= 20,
            ret == fact_nat(k as nat),
            fact_nat(x as nat) <= 2432902008176640000,
        decreases x - k,
    {
        proof {
            lemma_fact_mono((k + 1) as nat, x as nat);
            lemma_fact_bounds(k as nat);
            assert(fact_nat((k + 1) as nat) == (k + 1) * fact_nat(k as nat));
        }
        k = k + 1;
        ret = ret * k;
    }
    ret
}

/// Select the `i`-th permutation (in selection order) of the elements of
/// `from`. The index ranges over the `len!` permutations. While more than 21
/// elements remain, the head weight `(len - 1)!` exceeds every `u64` index,
/// so the leading factoriadic digits are zero and the head is kept as it is;
/// only the remaining weights are ever computed, and those fit the word.
pub fn get_ith(from: &Vec<u64>, i: u64) -> (r: Vec<u64>)
    requires
        (i as nat) < fact_nat(from@.len() as nat),
    ensures
        r@ == ith_perm(from@, i as nat),
{
    let mut rest: Vec<u64> = Vec::new();
    let mut ci: usize = 0;
    while ci < from.len()
        invariant
            ci <= from@.len(),
            rest@ == from@.subrange(0, ci as int),
        decreases from@.len() - ci,
    {
        proof {
            assert(from@.subrange(0, ci as int).push(from@[ci as int]) =~= from@.subrange(
                0,
                ci as int + 1,
            ));
        }
        rest.push(from[ci]);
        ci = ci + 1;
    }
    proof {
        assert(rest@ =~= from@);
    }

    let mut out: Vec<u64> = Vec::new();
    let mut rem: u64 = i;
    while rest.len() > 0
        invariant
            ith_perm(from@, i as nat) == out@ + ith_perm(rest@, rem as nat),
            (rem as nat) < fact_nat(rest@.len() as nat),
        decreases rest@.len(),
    {
        let ghost w_spec = fact_nat((rest@.len() - 1) as nat);
        let ghost rest0 = rest@;
        let ghost rem0 = rem;
        let d: usize;
        if rest.len() > 21 {
            // the head weight (len - 1)! is at least 21!, past every u64
            // index, so this place's digit is zero and the remainder is kept
            proof {
                lemma_fact_20();
                lemma_fact_mono(21, (rest0.len() - 1) as nat);
                lemma_fact_bounds((rest0.len() - 1) as nat);
                assert((rem0 as nat) / w_spec == 0 && (rem0 as nat) % w_spec == rem0 as nat)
                    by (nonlinear_arith)
                    requires
                        w_spec >= 1,
                        (rem0 as nat) < w_spec,
                ;
            }
            d = 0;
        } else {
            let w: u64 = fact_u64((rest.len() - 1) as u64);
            proof {
                lemma_fact_bounds((rest0.len() - 1) as nat);
                assert(fact_nat(rest0.len() as nat) == rest0.len() * w_spec);
                assert((rem0 as int) / (w as int) < rest0.len() as int) by (nonlinear_arith)
                    requires
                        w >= 1,
                        rem0 < rest0.len() * w,
                ;
                lemma_fundamental_div_mod(rem0 as int, w as int);
                assert(0 <= ((rem0 as int) % (w as int)) < w) by (nonlinear_arith)
                    requires
                        w >= 1,
                        rem0 >= 0,
                        rem0 == w * ((rem0 as int) / (w as int)) + ((rem0 as int) % (w as int)),
                ;
            }
            d = (rem / w) as usize;
            rem = rem % w;
        }
        let ghost out0 = out@;
        out.push(rest[d]);
        rest.remove(d);
        proof {
            // the specification picks exactly this element with exactly this
            // remainder
            assert(ith_perm(rest0, rem0 as nat) == seq![rest0[d as int]] + ith_perm(
                rest0.remove(d as int),
                (rem0 as nat) % w_spec,
            ));
            assert((rem as nat) == (rem0 as nat) % w_spec);
            assert(out0 + ith_perm(rest0, rem0 as nat) =~= out@ + ith_perm(rest@, rem as nat));
        }
    }
    proof {
        assert(out@ + ith_perm(rest@, rem as nat) =~= out@);
    }
    out
}

} // verus!

