//! Numeric literals, held exactly: a numeral is kept in its canonical
//! decimal notation. Two numerals have the same canonical notation
//! precisely when they denote the same number (see `numeric`).

use crate::text::{
    chars_of, digit, is_digit, lemma_run_end, lemma_run_end_unique, push_range, run_end,
};
use crate::numeric::{
    lemma_canonical_same_number, lemma_same_number_same_notation, same_number,
};
use vstd::prelude::*;

verus! {

/// The class of all characters but the decimal point.
pub open spec fn unpointed_class() -> spec_fn(char) -> bool {
    |c: char| c != '.'
}

/// Every character of `d` is a digit.
pub open spec fn all_digits(d: Seq<char>) -> bool {
    forall|i: int| 0 <= i < d.len() ==> digit(#[trigger] d[i])
}

/// The index of the first decimal point of `t`, or its length if it has none.
pub open spec fn point_index(t: Seq<char>) -> int {
    run_end(t, 0, unpointed_class())
}

/// What stands before the first decimal point.
pub open spec fn integer_part(t: Seq<char>) -> Seq<char> {
    t.take(point_index(t))
}

/// What stands after the first decimal point.
pub open spec fn fraction_part(t: Seq<char>) -> Seq<char> {
    if point_index(t) < t.len() {
        t.skip(point_index(t) + 1)
    } else {
        Seq::empty()
    }
}

/// A numeral is made of digits and at most one decimal point, with at
/// least one digit. The point may lead (`.5`) or trail (`5.`).
pub open spec fn is_numeral(t: Seq<char>) -> bool {
    &&& all_digits(integer_part(t))
    &&& all_digits(fraction_part(t))
    &&& integer_part(t).len() + fraction_part(t).len() > 0
}

/// The digits `d` without the zeros at their start.
pub open spec fn trim_leading_zeros(d: Seq<char>) -> Seq<char>
    decreases d.len(),
{
    if d.len() > 0 && d[0] == '0' {
        trim_leading_zeros(d.skip(1))
    } else {
        d
    }
}

/// The digits `d` without the zeros at their end.
pub open spec fn trim_trailing_zeros(d: Seq<char>) -> Seq<char>
    decreases d.len(),
{
    if d.len() > 0 && d.last() == '0' {
        trim_trailing_zeros(d.drop_last())
    } else {
        d
    }
}

/// The canonical notation of the number that the numeral `t` denotes: the
/// integer digits without leading zeros (a single `0` if none is left),
/// then, unless the fraction is zero, a point and the fraction digits
/// without trailing zeros.
pub open spec fn canonical(t: Seq<char>) -> Seq<char> {
    let i = trim_leading_zeros(integer_part(t));
    let f = trim_trailing_zeros(fraction_part(t));
    (if i.len() == 0 {
        seq!['0']
    } else {
        i
    }) + (if f.len() == 0 {
        Seq::empty()
    } else {
        seq!['.'] + f
    })
}

/// A numeral that is its own canonical notation.
pub open spec fn is_canonical(t: Seq<char>) -> bool {
    is_numeral(t) && canonical(t) == t
}

/// Trimming leading zeros drops exactly the zeros that stand before the
/// first other digit.
pub proof fn lemma_trim_leading_zeros(d: Seq<char>, k: int)
    requires
        0 <= k <= d.len(),
        forall|i: int| 0 <= i < k ==> d[i] == '0',
        k < d.len() ==> d[k] != '0',
    ensures
        trim_leading_zeros(d) == d.skip(k),
    decreases k,
{
    if k > 0 {
        lemma_trim_leading_zeros(d.skip(1), k - 1);
        assert(d.skip(1).skip(k - 1) =~= d.skip(k));
    } else {
        assert(d.skip(0) =~= d);
    }
}

/// Trimming trailing zeros drops exactly the zeros that stand after the
/// last other digit.
pub proof fn lemma_trim_trailing_zeros(d: Seq<char>, k: int)
    requires
        0 <= k <= d.len(),
        forall|i: int| k <= i < d.len() ==> d[i] == '0',
        k > 0 ==> d[k - 1] != '0',
    ensures
        trim_trailing_zeros(d) == d.take(k),
    decreases d.len() - k,
{
    if k < d.len() {
        lemma_trim_trailing_zeros(d.drop_last(), k);
        assert(d.drop_last().take(k) =~= d.take(k));
    } else {
        assert(d.take(k) =~= d);
    }
}

/// How a text splits at its first decimal point.
pub proof fn lemma_point_index(t: Seq<char>)
    ensures
        0 <= point_index(t) <= t.len(),
        forall|i: int| 0 <= i < point_index(t) ==> #[trigger] t[i] != '.',
        point_index(t) < t.len() ==> t[point_index(t)] == '.',
{
    lemma_run_end(t, 0, unpointed_class());
}

/// The parts of a text put together from integer digits and, after a
/// point, fraction digits.
pub proof fn lemma_parts_of_joined(i: Seq<char>, f: Seq<char>)
    requires
        all_digits(i),
    ensures
        integer_part(i + seq!['.'] + f) == i,
        fraction_part(i + seq!['.'] + f) == f,
        integer_part(i) == i,
        fraction_part(i) == Seq::<char>::empty(),
{
    let t = i + seq!['.'] + f;
    assert forall|k: int| 0 <= k < i.len() implies unpointed_class()(#[trigger] t[k]) by {
        assert(digit(i[k]));
    }
    lemma_run_end_unique(t, 0, unpointed_class(), i.len() as int);
    assert(t.take(i.len() as int) =~= i);
    assert(t.skip(i.len() as int + 1) =~= f);
    assert forall|k: int| 0 <= k < i.len() implies unpointed_class()(#[trigger] i[k]) by {
        assert(digit(i[k]));
    }
    lemma_run_end_unique(i, 0, unpointed_class(), i.len() as int);
    assert(i.take(i.len() as int) =~= i);
}

/// What trimming leading zeros leaves is the end of the digits, and does
/// not start with a zero.
pub proof fn lemma_leading_trimmed(d: Seq<char>)
    ensures
        trim_leading_zeros(d).len() <= d.len(),
        trim_leading_zeros(d) == d.skip(d.len() - trim_leading_zeros(d).len()),
        trim_leading_zeros(d).len() > 0 ==> trim_leading_zeros(d)[0] != '0',
    decreases d.len(),
{
    if d.len() > 0 && d[0] == '0' {
        lemma_leading_trimmed(d.skip(1));
        let rest = trim_leading_zeros(d.skip(1));
        assert(d.skip(1).skip(d.len() - 1 - rest.len()) =~= d.skip(d.len() - rest.len()));
    } else {
        assert(d.skip(0) =~= d);
    }
}

/// What trimming trailing zeros leaves is the start of the digits, and
/// does not end with a zero.
pub proof fn lemma_trailing_trimmed(d: Seq<char>)
    ensures
        trim_trailing_zeros(d).len() <= d.len(),
        trim_trailing_zeros(d) == d.take(trim_trailing_zeros(d).len() as int),
        trim_trailing_zeros(d).len() > 0 ==> trim_trailing_zeros(d).last() != '0',
    decreases d.len(),
{
    if d.len() > 0 && d.last() == '0' {
        lemma_trailing_trimmed(d.drop_last());
        let rest = trim_trailing_zeros(d.drop_last());
        assert(d.drop_last().take(rest.len() as int) =~= d.take(rest.len() as int));
    } else {
        assert(d.take(d.len() as int) =~= d);
    }
}

/// The canonical notation of a numeral is a canonical numeral.
pub proof fn lemma_canonical_is_canonical(t: Seq<char>)
    requires
        is_numeral(t),
    ensures
        is_canonical(canonical(t)),
{
    let i0 = trim_leading_zeros(integer_part(t));
    let f0 = trim_trailing_zeros(fraction_part(t));
    lemma_leading_trimmed(integer_part(t));
    lemma_trailing_trimmed(fraction_part(t));
    let i1 = if i0.len() == 0 {
        seq!['0']
    } else {
        i0
    };
    assert(all_digits(i1));
    assert(all_digits(f0));
    lemma_parts_of_joined(i1, f0);
    if i0.len() == 0 {
        lemma_trim_leading_zeros(i1, 1);
        assert(i1.skip(1) =~= Seq::<char>::empty());
    } else {
        lemma_trim_leading_zeros(i1, 0);
        assert(i1.skip(0) =~= i1);
    }
    lemma_trim_trailing_zeros(f0, f0.len() as int);
    assert(f0.take(f0.len() as int) =~= f0);
    if f0.len() == 0 {
        assert(canonical(t) =~= i1);
    } else {
        assert(canonical(t) =~= i1 + seq!['.'] + f0);
    }
}

/// A canonical numeral starts with a digit, and holds digits and points
/// only.
pub proof fn lemma_canonical_shape(t: Seq<char>)
    requires
        is_canonical(t),
    ensures
        t.len() > 0,
        digit(t[0]),
        forall|i: int| 0 <= i < t.len() ==> digit(#[trigger] t[i]) || t[i] == '.',
{
    lemma_point_index(t);
    let p = point_index(t);
    assert forall|i: int| 0 <= i < t.len() implies digit(#[trigger] t[i]) || t[i] == '.' by {
        if i < p {
            assert(integer_part(t)[i] == t[i]);
        } else if i > p {
            assert(fraction_part(t)[i - p - 1] == t[i]);
        }
    }
    let kept = trim_leading_zeros(integer_part(t));
    lemma_leading_trimmed(integer_part(t));
    let head = if kept.len() == 0 {
        seq!['0']
    } else {
        kept
    };
    assert(canonical(t)[0] == head[0]);
    if kept.len() > 0 {
        assert(kept[0] == integer_part(t)[integer_part(t).len() - kept.len()]);
    }
}

/// A number written in decimal notation.
#[derive(Debug, PartialEq, Eq)]
pub struct Decimal {
    text: String,
}

impl View for Decimal {
    type V = Seq<char>;

    /// The canonical notation of the number.
    closed spec fn view(&self) -> Seq<char> {
        self.text@
    }
}

impl Clone for Decimal {
    fn clone(&self) -> (r: Self)
        ensures
            r@ == self@,
    {
        proof {
            use_type_invariant(self);
        }
        Decimal { text: self.text.clone() }
    }
}

impl Decimal {
    #[verifier::type_invariant]
    spec fn well_formed(&self) -> bool {
        is_canonical(self.text@)
    }

    /// Reads a numeral. It is accepted exactly when it is made of digits
    /// and at most one decimal point, with at least one digit. The number
    /// it denotes is kept, in canonical notation.
    pub fn parse(text: &str) -> (r: Option<Decimal>)
        ensures
            r is Some <==> is_numeral(text@),
            r is Some ==> r->0@ == canonical(text@),
            r is Some ==> same_number(r->0@, text@),
    {
        let chars = chars_of(text);
        let n = chars.len();
        let ghost t = chars@;
        proof {
            lemma_point_index(t);
        }
        // The integer digits, up to the point.
        let mut p: usize = 0;
        while p < n && chars[p] != '.'
            invariant
                n == chars.len(),
                t == chars@,
                t == text@,
                0 <= p <= n,
                run_end(t, 0, unpointed_class()) == run_end(t, p as int, unpointed_class()),
                forall|i: int| 0 <= i < p ==> digit(#[trigger] t[i]),
            decreases n - p,
        {
            if !is_digit(chars[p]) {
                proof {
                    lemma_run_end(t, p + 1, unpointed_class());
                    assert(integer_part(t)[p as int] == t[p as int]);
                }
                return None;
            }
            p += 1;
        }
        assert(point_index(t) == p);
        assert(all_digits(integer_part(t)));
        // The fraction digits, after the point.
        let mut q: usize = if p < n {
            p + 1
        } else {
            n
        };
        let ghost first = q;
        while q < n
            invariant
                n == chars.len(),
                t == chars@,
                t == text@,
                point_index(t) == p,
                first <= q <= n,
                first == (if p < n {
                    p + 1
                } else {
                    n as int
                }),
                forall|i: int| first <= i < q ==> digit(#[trigger] t[i]),
            decreases n - q,
        {
            if !is_digit(chars[q]) {
                proof {
                    assert(fraction_part(t)[q - first] == t[q as int]);
                }
                return None;
            }
            q += 1;
        }
        assert(all_digits(fraction_part(t))) by {
            assert forall|i: int| 0 <= i < fraction_part(t).len() implies digit(
                #[trigger] fraction_part(t)[i],
            ) by {
                assert(fraction_part(t)[i] == t[first + i]);
            }
        }
        // A numeral has at least one digit.
        if p == 0 && n <= 1 {
            return None;
        }
        assert(is_numeral(t));
        let frac_start: usize = if p < n {
            p + 1
        } else {
            n
        };
        // Where the zeros at the start end, and where those at the end start.
        let mut lead: usize = 0;
        while lead < p && chars[lead] == '0'
            invariant
                t == chars@,
                0 <= lead <= p <= chars.len(),
                forall|i: int| 0 <= i < lead ==> t[i] == '0',
            decreases p - lead,
        {
            lead += 1;
        }
        let mut tail: usize = n;
        while tail > frac_start && chars[tail - 1] == '0'
            invariant
                t == chars@,
                n == chars.len(),
                frac_start <= tail <= n,
                forall|i: int| tail <= i < n ==> t[i] == '0',
            decreases tail,
        {
            tail -= 1;
        }
        let mut out = String::new();
        if lead == p {
            out.push('0');
        } else {
            push_range(&mut out, &chars, lead, p);
        }
        if tail > frac_start {
            out.push('.');
            push_range(&mut out, &chars, frac_start, tail);
        }
        proof {
            let ip = integer_part(t);
            let fp = fraction_part(t);
            lemma_trim_leading_zeros(ip, lead as int);
            assert(ip.skip(lead as int) =~= t.subrange(lead as int, p as int));
            assert forall|i: int| tail - frac_start <= i < fp.len() implies fp[i] == '0' by {
                assert(fp[i] == t[frac_start + i]);
            }
            lemma_trim_trailing_zeros(fp, tail - frac_start);
            assert(fp.take(tail - frac_start) =~= t.subrange(frac_start as int, tail as int));
            assert(out@ =~= canonical(t));
            lemma_canonical_is_canonical(t);
            lemma_canonical_same_number(t);
        }
        Some(Decimal { text: out })
    }

    /// Whether two numerals denote the same number.
    pub fn same_as(&self, other: &Decimal) -> (r: bool)
        ensures
            r == (self@ == other@),
            r == same_number(self@, other@),
    {
        proof {
            use_type_invariant(self);
            use_type_invariant(other);
            lemma_same_number_same_notation(self@, other@);
        }
        self.text == other.text
    }

    /// The canonical notation of the number.
    pub fn text(&self) -> (r: &str)
        ensures
            r@ == self@,
            is_canonical(r@),
    {
        proof {
            use_type_invariant(self);
        }
        self.text.as_str()
    }
}

} // verus!
