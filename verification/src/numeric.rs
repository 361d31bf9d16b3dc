//! The numbers that numerals denote.
//!
//! A numeral with the digits `m` (read as one natural number, the point
//! left out) and `k` digits after the point denotes `m / 10^k`. Two
//! numerals denote the same number exactly when they have the same
//! canonical notation.

use crate::decimal::{
    all_digits, canonical, fraction_part, integer_part, is_canonical, is_numeral,
    lemma_canonical_is_canonical, lemma_leading_trimmed, lemma_parts_of_joined,
    lemma_trailing_trimmed, trim_leading_zeros, trim_trailing_zeros,
};
use crate::text::digit;
use vstd::prelude::*;

verus! {

/// The number that a digit writes.
pub open spec fn digit_value(c: char) -> nat {
    if c == '1' {
        1
    } else if c == '2' {
        2
    } else if c == '3' {
        3
    } else if c == '4' {
        4
    } else if c == '5' {
        5
    } else if c == '6' {
        6
    } else if c == '7' {
        7
    } else if c == '8' {
        8
    } else if c == '9' {
        9
    } else {
        0
    }
}

/// The natural number that a sequence of digits writes.
pub open spec fn digits_value(d: Seq<char>) -> nat
    decreases d.len(),
{
    if d.len() == 0 {
        0
    } else {
        10 * digits_value(d.drop_last()) + digit_value(d.last())
    }
}

/// Ten to the power `n`.
pub open spec fn pow10(n: nat) -> nat
    decreases n,
{
    if n == 0 {
        1
    } else {
        10 * pow10((n - 1) as nat)
    }
}

/// The digits of a numeral, read as one natural number.
pub open spec fn mantissa(t: Seq<char>) -> nat {
    digits_value(integer_part(t) + fraction_part(t))
}

/// How many digits of a numeral stand after the point.
pub open spec fn scale(t: Seq<char>) -> nat {
    fraction_part(t).len()
}

/// Whether two numerals denote the same number: whether
/// `mantissa(a) / 10^scale(a)` is `mantissa(b) / 10^scale(b)`.
pub open spec fn same_number(a: Seq<char>, b: Seq<char>) -> bool {
    mantissa(a) * pow10(scale(b)) == mantissa(b) * pow10(scale(a))
}

/// A power of ten is positive.
pub proof fn lemma_pow10_positive(n: nat)
    ensures
        pow10(n) > 0,
    decreases n,
{
    if n > 0 {
        lemma_pow10_positive((n - 1) as nat);
    }
}

/// Powers of ten multiply by adding their exponents.
pub proof fn lemma_pow10_add(m: nat, n: nat)
    ensures
        pow10(m + n) == pow10(m) * pow10(n),
    decreases n,
{
    if n > 0 {
        lemma_pow10_add(m, (n - 1) as nat);
        assert(10 * (pow10(m) * pow10((n - 1) as nat)) == pow10(m) * (10 * pow10((n - 1) as nat)))
            by (nonlinear_arith);
    } else {
        assert(pow10(m) * 1 == pow10(m)) by (nonlinear_arith);
    }
}

/// A larger exponent gives no smaller power of ten.
pub proof fn lemma_pow10_increases(m: nat, n: nat)
    requires
        m <= n,
    ensures
        pow10(m) <= pow10(n),
    decreases n,
{
    if m < n {
        lemma_pow10_increases(m, (n - 1) as nat);
    }
}

/// The value of two digit sequences in a row.
pub proof fn lemma_value_of_joined(x: Seq<char>, y: Seq<char>)
    ensures
        digits_value(x + y) == digits_value(x) * pow10(y.len()) + digits_value(y),
    decreases y.len(),
{
    if y.len() == 0 {
        assert(x + y =~= x);
        assert(digits_value(x) * 1 == digits_value(x)) by (nonlinear_arith);
    } else {
        assert((x + y).drop_last() =~= x + y.drop_last());
        lemma_value_of_joined(x, y.drop_last());
        let vx = digits_value(x);
        let p = pow10(y.drop_last().len());
        let vy = digits_value(y.drop_last());
        assert(10 * (vx * p + vy) == vx * (10 * p) + 10 * vy) by (nonlinear_arith);
    }
}

/// A sequence of `n` digits writes a number below `10^n`.
pub proof fn lemma_value_bound(d: Seq<char>)
    ensures
        digits_value(d) < pow10(d.len()),
    decreases d.len(),
{
    if d.len() > 0 {
        lemma_value_bound(d.drop_last());
    }
}

/// A sequence of `n` digits that does not start with a zero writes a
/// number that is at least `10^(n-1)`.
pub proof fn lemma_value_floor(d: Seq<char>)
    requires
        all_digits(d),
        d.len() > 0,
        d[0] != '0',
    ensures
        digits_value(d) >= pow10((d.len() - 1) as nat),
    decreases d.len(),
{
    if d.len() > 1 {
        assert(d.drop_last()[0] == d[0]);
        assert forall|i: int| 0 <= i < d.drop_last().len() implies digit(
            #[trigger] d.drop_last()[i],
        ) by {
            assert(d.drop_last()[i] == d[i]);
        }
        lemma_value_floor(d.drop_last());
    } else {
        assert(digit(d[0]));
        assert(d.drop_last().len() == 0);
        assert(digits_value(d.drop_last()) == 0);
    }
}

/// Leading zeros do not change the value.
pub proof fn lemma_value_of_trimmed(d: Seq<char>)
    ensures
        digits_value(trim_leading_zeros(d)) == digits_value(d),
    decreases d.len(),
{
    if d.len() > 0 && d[0] == '0' {
        lemma_value_of_trimmed(d.skip(1));
        assert(d =~= seq!['0'] + d.skip(1));
        lemma_value_of_joined(seq!['0'], d.skip(1));
        assert(seq!['0'].drop_last().len() == 0);
        assert(digits_value(seq!['0']) == 0) by {
            assert(digits_value(seq!['0'].drop_last()) == 0);
        }
        assert(0 * pow10(d.skip(1).len()) == 0) by (nonlinear_arith);
    }
}

/// Each trailing zero multiplies the value by ten.
pub proof fn lemma_value_with_zeros(d: Seq<char>)
    ensures
        digits_value(d) == digits_value(trim_trailing_zeros(d)) * pow10(
            (d.len() - trim_trailing_zeros(d).len()) as nat,
        ),
    decreases d.len(),
{
    lemma_trailing_trimmed(d);
    if d.len() > 0 && d.last() == '0' {
        lemma_value_with_zeros(d.drop_last());
        lemma_trailing_trimmed(d.drop_last());
        let kept = trim_trailing_zeros(d.drop_last());
        let v = digits_value(kept);
        let p = pow10((d.len() - 1 - kept.len()) as nat);
        assert(10 * (v * p) == v * (10 * p)) by (nonlinear_arith);
    } else {
        assert(digits_value(d) * 1 == digits_value(d)) by (nonlinear_arith);
    }
}

/// Two sequences of as many digits that write the same number are the
/// same sequence.
pub proof fn lemma_value_decides_digits(x: Seq<char>, y: Seq<char>)
    requires
        all_digits(x),
        all_digits(y),
        x.len() == y.len(),
        digits_value(x) == digits_value(y),
    ensures
        x == y,
    decreases x.len(),
{
    if x.len() > 0 {
        assert(digit(x[x.len() - 1]) && digit(y[y.len() - 1]));
        let vx = digits_value(x.drop_last());
        let vy = digits_value(y.drop_last());
        let dx = digit_value(x.last());
        let dy = digit_value(y.last());
        assert(vx == vy && dx == dy) by (nonlinear_arith)
            requires
                10 * vx + dx == 10 * vy + dy,
                dx < 10,
                dy < 10,
        ;
        assert forall|i: int| 0 <= i < x.drop_last().len() implies digit(
            #[trigger] x.drop_last()[i],
        ) by {
            assert(x.drop_last()[i] == x[i]);
        }
        assert forall|i: int| 0 <= i < y.drop_last().len() implies digit(
            #[trigger] y.drop_last()[i],
        ) by {
            assert(y.drop_last()[i] == y[i]);
        }
        lemma_value_decides_digits(x.drop_last(), y.drop_last());
        assert(x =~= x.drop_last().push(x.last()));
        assert(y =~= y.drop_last().push(y.last()));
    } else {
        assert(x =~= y);
    }
}

/// The canonical notation of a numeral denotes the same number as the
/// numeral.
pub proof fn lemma_canonical_same_number(t: Seq<char>)
    requires
        is_numeral(t),
    ensures
        same_number(canonical(t), t),
{
    let ip = integer_part(t);
    let fp = fraction_part(t);
    let i0 = trim_leading_zeros(ip);
    let f0 = trim_trailing_zeros(fp);
    lemma_leading_trimmed(ip);
    lemma_trailing_trimmed(fp);
    let i1 = if i0.len() == 0 {
        seq!['0']
    } else {
        i0
    };
    assert(all_digits(i1));
    lemma_parts_of_joined(i1, f0);
    if f0.len() == 0 {
        assert(canonical(t) =~= i1);
    } else {
        assert(canonical(t) =~= i1 + seq!['.'] + f0);
    }
    // the integer digits keep their value
    lemma_value_of_trimmed(ip);
    assert(digits_value(i1) == digits_value(ip)) by {
        if i0.len() == 0 {
            assert(seq!['0'].drop_last().len() == 0);
            assert(digits_value(seq!['0'].drop_last()) == 0);
        }
    }
    // the fraction digits lose a factor of ten for each zero
    lemma_value_with_zeros(fp);
    let zeros = (fp.len() - f0.len()) as nat;
    lemma_value_of_joined(i1, f0);
    lemma_value_of_joined(ip, fp);
    lemma_pow10_add(f0.len(), zeros);
    let vi = digits_value(ip);
    let vf = digits_value(f0);
    let pk = pow10(f0.len());
    let pz = pow10(zeros);
    assert(mantissa(canonical(t)) == vi * pk + vf);
    assert(scale(canonical(t)) == f0.len());
    assert(mantissa(t) == vi * (pk * pz) + vf * pz);
    assert((vi * pk + vf) * (pk * pz) == (vi * (pk * pz) + vf * pz) * pk) by (nonlinear_arith);
}

/// How a canonical numeral is built: integer digits without a leading
/// zero, unless it is the one digit; then, if there is a fraction, the
/// point and fraction digits without a trailing zero.
pub proof fn lemma_canonical_parts(t: Seq<char>)
    requires
        is_canonical(t),
    ensures
        all_digits(integer_part(t)),
        all_digits(fraction_part(t)),
        integer_part(t).len() >= 1,
        integer_part(t).len() == 1 || integer_part(t)[0] != '0',
        fraction_part(t).len() == 0 || fraction_part(t).last() != '0',
        t == integer_part(t) + (if fraction_part(t).len() == 0 {
            Seq::<char>::empty()
        } else {
            seq!['.'] + fraction_part(t)
        }),
{
    let i0 = trim_leading_zeros(integer_part(t));
    let f0 = trim_trailing_zeros(fraction_part(t));
    lemma_leading_trimmed(integer_part(t));
    lemma_trailing_trimmed(fraction_part(t));
    let i1 = if i0.len() == 0 {
        seq!['0']
    } else {
        i0
    };
    assert(all_digits(i1));
    lemma_parts_of_joined(i1, f0);
    if f0.len() == 0 {
        assert(canonical(t) =~= i1);
    } else {
        assert(canonical(t) =~= i1 + seq!['.'] + f0);
    }
}

/// A number has one canonical notation only.
pub proof fn lemma_canonical_unique(a: Seq<char>, b: Seq<char>)
    requires
        is_canonical(a),
        is_canonical(b),
        same_number(a, b),
    ensures
        a == b,
{
    lemma_canonical_parts(a);
    lemma_canonical_parts(b);
    let ia = integer_part(a);
    let fa = fraction_part(a);
    let ib = integer_part(b);
    let fb = fraction_part(b);
    lemma_scales_agree(a, b);
    lemma_scales_agree(b, a);
    let p = pow10(fa.len());
    lemma_pow10_positive(fa.len());
    let ma = mantissa(a);
    let mb = mantissa(b);
    assert(ma == mb) by (nonlinear_arith)
        requires
            ma * p == mb * p,
            p > 0,
    ;
    lemma_value_of_joined(ia, fa);
    lemma_value_of_joined(ib, fb);
    lemma_value_bound(fa);
    lemma_value_bound(fb);
    let whole_a = digits_value(ia);
    let whole_b = digits_value(ib);
    let part_a = digits_value(fa);
    let part_b = digits_value(fb);
    assert(whole_a == whole_b && part_a == part_b) by (nonlinear_arith)
        requires
            whole_a * p + part_a == whole_b * p + part_b,
            part_a < p,
            part_b < p,
    ;
    lemma_value_decides_digits(fa, fb);
    lemma_same_integer_digits(ia, ib);
    lemma_same_integer_digits(ib, ia);
    lemma_value_decides_digits(ia, ib);
}

/// Of two canonical numerals that denote the same number, the first has
/// no more fraction digits than the second.
proof fn lemma_scales_agree(a: Seq<char>, b: Seq<char>)
    requires
        is_canonical(a),
        is_canonical(b),
        same_number(a, b),
    ensures
        scale(a) <= scale(b),
{
    lemma_canonical_parts(a);
    lemma_canonical_parts(b);
    if scale(a) > scale(b) {
        let fa = fraction_part(a);
        let more = (scale(a) - scale(b)) as nat;
        let pb = pow10(scale(b));
        lemma_pow10_add(scale(b), more);
        lemma_pow10_positive(scale(b));
        let ma = mantissa(a);
        let mb = mantissa(b);
        let pm = pow10(more);
        assert(ma == mb * pm) by (nonlinear_arith)
            requires
                ma * pb == mb * (pb * pm),
                pb > 0,
        ;
        let rest = pow10((more - 1) as nat);
        assert(ma == 10 * (mb * rest)) by (nonlinear_arith)
            requires
                ma == mb * pm,
                pm == 10 * rest,
        ;
        // so the last fraction digit of `a` is a zero
        let digits = integer_part(a) + fa;
        assert(digits.last() == fa.last());
        assert(digit(fa[fa.len() - 1]));
        let front = digits_value(digits.drop_last());
        let back = digit_value(digits.last());
        assert(back == 0) by (nonlinear_arith)
            requires
                10 * front + back == 10 * (mb * rest),
                back < 10,
        ;
    }
}

/// Of two sequences of integer digits in canonical notation that write
/// the same number, the first is no longer than the second.
proof fn lemma_same_integer_digits(x: Seq<char>, y: Seq<char>)
    requires
        all_digits(x),
        all_digits(y),
        x.len() >= 1,
        y.len() >= 1,
        x.len() == 1 || x[0] != '0',
        digits_value(x) == digits_value(y),
    ensures
        x.len() <= y.len(),
{
    if x.len() > y.len() {
        lemma_value_floor(x);
        lemma_value_bound(y);
        lemma_pow10_increases(y.len(), (x.len() - 1) as nat);
    }
}

/// Two numerals denote the same number exactly when they have the same
/// canonical notation.
pub proof fn lemma_same_number_same_notation(a: Seq<char>, b: Seq<char>)
    requires
        is_numeral(a),
        is_numeral(b),
    ensures
        same_number(a, b) <==> canonical(a) == canonical(b),
{
    let ca = canonical(a);
    let cb = canonical(b);
    lemma_canonical_same_number(a);
    lemma_canonical_same_number(b);
    lemma_canonical_is_canonical(a);
    lemma_canonical_is_canonical(b);
    lemma_pow10_positive(scale(a));
    lemma_pow10_positive(scale(b));
    lemma_pow10_positive(scale(ca));
    lemma_pow10_positive(scale(cb));
    let (ma, sa) = (mantissa(a), pow10(scale(a)));
    let (mb, sb) = (mantissa(b), pow10(scale(b)));
    let (mca, sca) = (mantissa(ca), pow10(scale(ca)));
    let (mcb, scb) = (mantissa(cb), pow10(scale(cb)));
    if same_number(a, b) {
        assert(mca * scb == mcb * sca) by (nonlinear_arith)
            requires
                mca * sa == ma * sca,
                mcb * sb == mb * scb,
                ma * sb == mb * sa,
                sa > 0,
                sb > 0,
        ;
        lemma_canonical_unique(ca, cb);
    }
    if ca == cb {
        assert(ma * sb == mb * sa) by (nonlinear_arith)
            requires
                mca * sa == ma * sca,
                mca * sb == mb * sca,
                sca > 0,
        ;
    }
}

} // verus!
