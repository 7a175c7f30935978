//! Decimal digit strings and their values.

use crate::text::{digit_value, is_digit};
use vstd::arithmetic::div_mod::lemma_fundamental_div_mod_converse;
use vstd::prelude::*;

verus! {

/// Ten to the power `k`.
pub open spec fn pow10(k: nat) -> nat
    decreases k,
{
    if k == 0 {
        1
    } else {
        10 * pow10((k - 1) as nat)
    }
}

/// The number that a string of digits writes, most significant digit first.
pub open spec fn digits_value(ds: Seq<char>) -> nat
    decreases ds.len(),
{
    if ds.len() == 0 {
        0
    } else {
        digits_value(ds.drop_last()) * 10 + digit_value(ds.last())
    }
}

/// Every character of `ds` is a decimal digit.
pub open spec fn all_digits(ds: Seq<char>) -> bool {
    forall|i: int| 0 <= i < ds.len() ==> is_digit(#[trigger] ds[i])
}

proof fn lemma_pow10_positive(k: nat)
    ensures
        pow10(k) > 0,
    decreases k,
{
    if k > 0 {
        lemma_pow10_positive((k - 1) as nat);
    }
}

proof fn lemma_pow10_sum(a: nat, b: nat)
    ensures
        pow10(a + b) == pow10(a) * pow10(b),
    decreases a,
{
    let pb = pow10(b) as int;
    if a > 0 {
        lemma_pow10_sum((a - 1) as nat, b);
        let pa = pow10((a - 1) as nat) as int;
        assert(10 * (pa * pb) == (10 * pa) * pb) by (nonlinear_arith);
    } else {
        assert(pow10(a) == 1);
    }
}

/// A string of digits writes a number below ten to the power of its length.
pub proof fn lemma_value_below_power(ds: Seq<char>)
    ensures
        digits_value(ds) < pow10(ds.len()),
    decreases ds.len(),
{
    if ds.len() > 0 {
        lemma_value_below_power(ds.drop_last());
    }
}

proof fn lemma_value_concat(a: Seq<char>, b: Seq<char>)
    ensures
        digits_value(a + b) == digits_value(a) * pow10(b.len()) + digits_value(b),
    decreases b.len(),
{
    if b.len() == 0 {
        assert(digits_value(a) * 1 == digits_value(a));
    } else {
        lemma_value_concat(a, b.drop_last());
        assert((a + b).drop_last() =~= a + b.drop_last());
        let x = digits_value(a) as int;
        let y = digits_value(b.drop_last()) as int;
        let d = digit_value(b.last()) as int;
        let p = pow10(b.drop_last().len()) as int;
        assert((x * p + y) * 10 + d == x * (10 * p) + (y * 10 + d)) by (nonlinear_arith);
    }
}

/// The value of `whole.fraction` times ten to the `k`, rounded down: the
/// digits after the first `k` of the fraction do not count.
pub proof fn lemma_scaled_value(whole: Seq<char>, fraction: Seq<char>, k: nat)
    ensures
        ({
            let m = if fraction.len() <= k { fraction.len() } else { k };
            (digits_value(whole + fraction) * pow10(k)) / pow10(fraction.len())
                == digits_value(whole) * pow10(k) + digits_value(fraction.take(m as int)) * pow10(
                (k - m) as nat,
            )
        }),
{
    let f = fraction.len();
    let w = digits_value(whole) as int;
    let pk = pow10(k) as int;
    let pf = pow10(f) as int;
    lemma_pow10_positive(f);
    lemma_value_concat(whole, fraction);
    if f <= k {
        let fr = digits_value(fraction) as int;
        let pd = pow10((k - f) as nat) as int;
        assert(fraction.take(f as int) =~= fraction);
        lemma_pow10_sum(f, (k - f) as nat);
        let q = w * pk + fr * pd;
        assert((w * pf + fr) * pk == q * pf + 0) by (nonlinear_arith)
            requires
                pk == pf * pd,
                q == w * pk + fr * pd,
        ;
        lemma_fundamental_div_mod_converse((w * pf + fr) * pk, pf, q, 0);
    } else {
        let f1 = fraction.take(k as int);
        let f2 = fraction.skip(k as int);
        let r = (f - k) as nat;
        assert(fraction =~= f1 + f2);
        lemma_value_concat(f1, f2);
        lemma_value_below_power(f2);
        lemma_pow10_sum(k, r);
        lemma_pow10_positive(k);
        let v1 = digits_value(f1) as int;
        let v2 = digits_value(f2) as int;
        let pr = pow10(r) as int;
        assert(pow10(0) == 1);
        let q = w * pk + v1;
        let rem = v2 * pk;
        assert((w * pf + (v1 * pr + v2)) * pk == q * pf + rem && 0 <= rem < pf)
            by (nonlinear_arith)
            requires
                pf == pk * pr,
                q == w * pk + v1,
                rem == v2 * pk,
                0 <= v2 < pr,
                pk > 0,
        ;
        lemma_fundamental_div_mod_converse((w * pf + (v1 * pr + v2)) * pk, pf, q, rem);
        assert(v1 * pow10(0) == v1);
    }
}

} // verus!
