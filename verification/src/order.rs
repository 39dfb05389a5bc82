//! Why the naturalized form is a sort key: comparing two of them character
//! by character compares the numbers in them by magnitude.

use vstd::prelude::*;
use crate::laws::lemma_natural_concat;
use crate::laws::lemma_natural_by_parts;
use crate::laws::lemma_padded;
use crate::laws::shortfall;
use crate::model::all_of_class;
use crate::model::ends_outside_run;
use crate::model::is_decimal_digit;
use crate::model::natural;
use crate::model::padded;
use crate::model::starts_outside_run;
use crate::model::zeros;

verus! {

/// `a` comes before `b` in lexicographic order, characters compared by code
/// point: at the first place where they differ `a` has the smaller character,
/// or `a` ends there and `b` goes on.
pub open spec fn lex_less(a: Seq<char>, b: Seq<char>) -> bool
    decreases a.len(),
{
    if b.len() == 0 {
        false
    } else if a.len() == 0 {
        true
    } else if a[0] != b[0] {
        a[0] < b[0]
    } else {
        lex_less(a.skip(1), b.skip(1))
    }
}

/// The value of the decimal digit `c`.
pub open spec fn digit_value(c: char) -> nat {
    (c as int - '0' as int) as nat
}

/// The number that the decimal digits `run` write; 0 for none.
pub open spec fn number(run: Seq<char>) -> nat
    decreases run.len(),
{
    if run.len() == 0 {
        0
    } else {
        number(run.drop_last()) * 10 + digit_value(run.last())
    }
}

/// No string comes before itself.
pub proof fn lemma_lex_irreflexive(a: Seq<char>)
    ensures
        !lex_less(a, a),
    decreases a.len(),
{
    if a.len() > 0 {
        lemma_lex_irreflexive(a.skip(1));
    }
}

/// A common start decides nothing: `p + a` comes before `p + b` exactly
/// where `a` comes before `b`.
pub proof fn lemma_lex_common_start(p: Seq<char>, a: Seq<char>, b: Seq<char>)
    ensures
        lex_less(p + a, p + b) == lex_less(a, b),
    decreases p.len(),
{
    if p.len() == 0 {
        assert(p + a =~= a);
        assert(p + b =~= b);
    } else {
        assert((p + a).skip(1) =~= p.skip(1) + a);
        assert((p + b).skip(1) =~= p.skip(1) + b);
        lemma_lex_common_start(p.skip(1), a, b);
    }
}

/// Starts of one length decide first: `x + a` comes before `y + b` where `x`
/// comes before `y`, or where they are equal and `a` comes before `b`.
pub proof fn lemma_lex_equal_starts(x: Seq<char>, y: Seq<char>, a: Seq<char>, b: Seq<char>)
    requires
        x.len() == y.len(),
    ensures
        lex_less(x + a, y + b) == (lex_less(x, y) || (x == y && lex_less(a, b))),
    decreases x.len(),
{
    if x.len() == 0 {
        assert(x + a =~= a);
        assert(y + b =~= b);
        assert(x =~= y);
    } else {
        assert((x + a).skip(1) =~= x.skip(1) + a);
        assert((y + b).skip(1) =~= y.skip(1) + b);
        lemma_lex_equal_starts(x.skip(1), y.skip(1), a, b);
        if x[0] == y[0] && x.skip(1) == y.skip(1) {
            assert forall|i: int| 0 <= i < x.len() implies x[i] == y[i] by {
                if i > 0 {
                    assert(x[i] == x.skip(1)[i - 1]);
                    assert(y[i] == y.skip(1)[i - 1]);
                }
            }
            assert(x =~= y);
        }
    }
}

/// Of two digit runs of one length, the one that comes first writes the
/// smaller number, and only equal runs write the same number.
pub proof fn lemma_number_order(x: Seq<char>, y: Seq<char>)
    requires
        x.len() == y.len(),
        all_of_class(x, true),
        all_of_class(y, true),
    ensures
        lex_less(x, y) <==> number(x) < number(y),
        x == y <==> number(x) == number(y),
    decreases x.len(),
{
    if x.len() == 0 {
        assert(x =~= y);
    } else {
        let xs = x.drop_last();
        let ys = y.drop_last();
        let c = seq![x.last()];
        let e = seq![y.last()];
        assert(x =~= xs + c);
        assert(y =~= ys + e);
        lemma_number_order(xs, ys);
        lemma_lex_equal_starts(xs, ys, c, e);
        assert(lex_less(c, e) == (x.last() < y.last())) by {
            if x.last() == y.last() {
                assert(c =~= e);
                lemma_lex_irreflexive(c);
            }
        }
        assert(is_decimal_digit(x.last()) && is_decimal_digit(y.last()));
        if xs == ys && x.last() == y.last() {
            assert(x =~= y);
        }
    }
}

/// Zeros in front do not change the number that a run writes.
pub proof fn lemma_number_leading_zeros(k: nat, run: Seq<char>)
    ensures
        number(zeros(k) + run) == number(run),
    decreases run.len(), k,
{
    let whole = zeros(k) + run;
    if run.len() > 0 {
        assert(whole.drop_last() =~= zeros(k) + run.drop_last());
        lemma_number_leading_zeros(k, run.drop_last());
    } else if k > 0 {
        assert(whole.drop_last() =~= zeros((k - 1) as nat) + run);
        lemma_number_leading_zeros((k - 1) as nat, run);
    }
}

/// Padding does not change the number that a run writes.
pub proof fn lemma_number_padded(run: Seq<char>)
    ensures
        number(padded(run)) == number(run),
{
    lemma_number_leading_zeros(shortfall(run), run);
    assert(zeros(0) + run =~= run);
}

/// The naturalized form of a digit run between two texts: `before` ends
/// outside a run and `after` starts outside one, so `run` is a whole run of
/// the string, and is padded by itself.
pub proof fn lemma_natural_around_run(before: Seq<char>, run: Seq<char>, after: Seq<char>)
    requires
        ends_outside_run(before),
        starts_outside_run(after),
        all_of_class(run, true),
        run.len() > 0,
    ensures
        natural(before + run + after) == natural(before) + padded(run) + natural(after),
{
    let e = Seq::<char>::empty();
    assert(run + after =~= e + run + after);
    lemma_natural_by_parts(run + after, e, run, after);
    lemma_natural_concat(before, run + after);
    assert(before + run + after =~= before + (run + after));
    assert(natural(before + run + after) =~= natural(before) + padded(run) + natural(after));
}

/// What stands before a digit run does not decide the order of two strings
/// that differ in that run only: their naturalized forms are ordered as the
/// padded runs are, each followed by the naturalized form of what comes after.
pub proof fn lemma_natural_order_from_run(
    before: Seq<char>,
    x: Seq<char>,
    y: Seq<char>,
    after: Seq<char>,
)
    requires
        ends_outside_run(before),
        starts_outside_run(after),
        all_of_class(x, true),
        all_of_class(y, true),
        x.len() > 0,
        y.len() > 0,
    ensures
        lex_less(natural(before + x + after), natural(before + y + after)) == lex_less(
            padded(x) + natural(after),
            padded(y) + natural(after),
        ),
{
    let head = natural(before);
    let tail = natural(after);
    lemma_natural_around_run(before, x, after);
    lemma_natural_around_run(before, y, after);
    assert(head + padded(x) + tail =~= head + (padded(x) + tail));
    assert(head + padded(y) + tail =~= head + (padded(y) + tail));
    lemma_lex_common_start(head, padded(x) + tail, padded(y) + tail);
}

/// Sorting by the naturalized form sorts by number. Two strings that differ
/// in one digit run only, `x` in the one and `y` in the other, both of at
/// most `PAD_WIDTH` digits or both of one length: the naturalized form of the
/// first comes before that of the second exactly where `x` writes the smaller
/// number.
pub proof fn lemma_natural_order(before: Seq<char>, x: Seq<char>, y: Seq<char>, after: Seq<char>)
    requires
        ends_outside_run(before),
        starts_outside_run(after),
        all_of_class(x, true),
        all_of_class(y, true),
        x.len() > 0,
        y.len() > 0,
        padded(x).len() == padded(y).len(),
    ensures
        lex_less(natural(before + x + after), natural(before + y + after)) <==> number(x) < number(
            y,
        ),
{
    let tail = natural(after);
    lemma_natural_order_from_run(before, x, y, after);
    lemma_lex_equal_starts(padded(x), padded(y), tail, tail);
    lemma_lex_irreflexive(tail);
    lemma_padded(x);
    lemma_padded(y);
    lemma_number_order(padded(x), padded(y));
    lemma_number_padded(x);
    lemma_number_padded(y);
}

} // verus!
