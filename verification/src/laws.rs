//! What holds of the naturalized form of every string: its length, its digit
//! runs, its text, and what a second pass does to it.

use vstd::prelude::*;
use crate::model::PAD_WIDTH;
use crate::model::after_run;
use crate::model::all_of_class;
use crate::model::ends_outside_run;
use crate::model::first_run;
use crate::model::first_text;
use crate::model::is_decimal_digit;
use crate::model::lemma_parts;
use crate::model::lemma_parts_unique;
use crate::model::natural;
use crate::model::padded;
use crate::model::starts_outside_run;
use crate::model::zeros;

verus! {

/// The digit runs of `s`, first to last: its maximal stretches of decimal
/// digits.
pub open spec fn digit_runs(s: Seq<char>) -> Seq<Seq<char>>
    decreases s.len(),
{
    if first_run(s).len() == 0 {
        Seq::empty()
    } else {
        proof {
            lemma_parts(s);
        }
        seq![first_run(s)] + digit_runs(after_run(s))
    }
}

/// The stretches of text of `s`, first to last: what stands before the first
/// digit run, between one run and the next, and after the last run. There is
/// one more of them than there are runs; the first and the last may be empty.
pub open spec fn text_spans(s: Seq<char>) -> Seq<Seq<char>>
    decreases s.len(),
{
    if first_run(s).len() == 0 {
        seq![first_text(s)]
    } else {
        proof {
            lemma_parts(s);
        }
        seq![first_text(s)] + text_spans(after_run(s))
    }
}

/// `runs`, each of them padded.
pub open spec fn padded_each(runs: Seq<Seq<char>>) -> Seq<Seq<char>> {
    Seq::new(runs.len(), |i: int| padded(runs[i]))
}

/// The string that is made of `texts` and `runs` in turn, starting with the
/// first of `texts`; it ends where either of them does.
pub open spec fn interleaved(texts: Seq<Seq<char>>, runs: Seq<Seq<char>>) -> Seq<char>
    decreases texts.len(),
{
    if texts.len() == 0 {
        Seq::empty()
    } else if runs.len() == 0 {
        texts[0]
    } else {
        texts[0] + runs[0] + interleaved(texts.skip(1), runs.skip(1))
    }
}

/// The text of `s`: its characters that are no decimal digits, in order.
pub open spec fn text_of(s: Seq<char>) -> Seq<char> {
    s.filter(|c: char| !is_decimal_digit(c))
}

/// The number of characters by which `run` is short of `PAD_WIDTH`.
pub open spec fn shortfall(run: Seq<char>) -> nat {
    if run.len() >= PAD_WIDTH {
        0
    } else {
        (PAD_WIDTH - run.len()) as nat
    }
}

/// The sum of the shortfalls of `runs`.
pub open spec fn total_shortfall(runs: Seq<Seq<char>>) -> nat
    decreases runs.len(),
{
    if runs.len() == 0 {
        0
    } else {
        shortfall(runs[0]) + total_shortfall(runs.skip(1))
    }
}

/// The empty string is its own naturalized form.
pub proof fn lemma_natural_empty()
    ensures
        natural(Seq::<char>::empty()) == Seq::<char>::empty(),
{
    let e = Seq::<char>::empty();
    lemma_parts(e);
    assert(natural(e) =~= e);
}

/// A padded run is `PAD_WIDTH` characters long, or as long as the run where
/// that is more; it ends with the run, and all before that is `'0'`.
pub proof fn lemma_padded(run: Seq<char>)
    ensures
        padded(run).len() == if run.len() >= PAD_WIDTH { run.len() } else { PAD_WIDTH as nat },
        padded(run).len() == run.len() + shortfall(run),
        padded(run).skip(shortfall(run) as int) == run,
        padded(run).take(shortfall(run) as int) == zeros(shortfall(run)),
        all_of_class(run, true) ==> all_of_class(padded(run), true),
        padded(padded(run)) == padded(run),
{
    let k = shortfall(run) as int;
    assert(padded(run) =~= zeros(k as nat) + run);
    assert(padded(run).skip(k) =~= run);
    assert(padded(run).take(k) =~= zeros(k as nat));
    if all_of_class(run, true) {
        assert forall|i: int| 0 <= i < padded(run).len() implies is_decimal_digit(
            #[trigger] padded(run)[i],
        ) by {
            if i >= k {
                assert(padded(run)[i] == run[i - k]);
            }
        }
    }
}

/// A string without a decimal digit is its own naturalized form.
pub proof fn lemma_natural_of_text(text: Seq<char>)
    requires
        all_of_class(text, false),
    ensures
        natural(text) == text,
        digit_runs(text) == Seq::<Seq<char>>::empty(),
        text_spans(text) == seq![text],
{
    let e = Seq::<char>::empty();
    assert(text =~= text + e + e);
    lemma_parts_unique(text, text, e, e);
}

/// Naturalizing goes part by part: where `s` is a text, a digit run and a
/// rest that starts with text, its naturalized form is the text, the padded
/// run and the naturalized rest; its runs are the run and those of the rest,
/// its stretches of text the text and those of the rest.
pub proof fn lemma_natural_by_parts(
    s: Seq<char>,
    text: Seq<char>,
    run: Seq<char>,
    rest: Seq<char>,
)
    requires
        s == text + run + rest,
        all_of_class(text, false),
        all_of_class(run, true),
        run.len() > 0,
        starts_outside_run(rest),
    ensures
        natural(s) == text + padded(run) + natural(rest),
        digit_runs(s) == seq![run] + digit_runs(rest),
        text_spans(s) == seq![text] + text_spans(rest),
{
    lemma_parts_unique(s, text, run, rest);
}

/// The naturalized form starts as the string does: with text, or not at all,
/// where the string does.
pub proof fn lemma_natural_start(s: Seq<char>)
    requires
        starts_outside_run(s),
    ensures
        starts_outside_run(natural(s)),
        s.len() == 0 ==> natural(s).len() == 0,
{
    lemma_parts(s);
    if s.len() > 0 {
        assert(first_text(s).len() > 0) by {
            if first_text(s).len() == 0 {
                if first_run(s).len() > 0 {
                    assert(s[0] == first_run(s)[0]);
                }
            }
        }
        assert(natural(s)[0] == first_text(s)[0]);
    }
}

/// The naturalized form is longer than the string by what its digit runs are
/// short of `PAD_WIDTH`, all taken together.
pub proof fn lemma_natural_len(s: Seq<char>)
    ensures
        natural(s).len() == s.len() + total_shortfall(digit_runs(s)),
    decreases s.len(),
{
    lemma_parts(s);
    if first_run(s).len() > 0 {
        lemma_natural_len(after_run(s));
        lemma_padded(first_run(s));
        assert(digit_runs(s).skip(1) =~= digit_runs(after_run(s)));
    }
}

/// The stretches of text and the digit runs of a string take it apart and put
/// it together again: a run is one digit or more, a stretch of text holds no
/// digit, and is empty only before the first run or after the last. Taken in
/// turn they make up the string; with every run padded, its naturalized form.
pub proof fn lemma_spans(s: Seq<char>)
    ensures
        text_spans(s).len() == digit_runs(s).len() + 1,
        forall|i: int|
            0 <= i < digit_runs(s).len() ==> (#[trigger] digit_runs(s)[i]).len() > 0
                && all_of_class(digit_runs(s)[i], true),
        forall|i: int| 0 <= i < text_spans(s).len() ==> all_of_class(#[trigger] text_spans(s)[i], false),
        forall|i: int| 0 < i < digit_runs(s).len() ==> (#[trigger] text_spans(s)[i]).len() > 0,
        interleaved(text_spans(s), digit_runs(s)) == s,
        interleaved(text_spans(s), padded_each(digit_runs(s))) == natural(s),
    decreases s.len(),
{
    lemma_parts(s);
    let rest = after_run(s);
    if first_run(s).len() > 0 {
        lemma_spans(rest);
        lemma_parts(rest);
        let texts = text_spans(s);
        let runs = digit_runs(s);
        assert(texts.skip(1) =~= text_spans(rest));
        assert(runs.skip(1) =~= digit_runs(rest));
        assert(padded_each(runs).skip(1) =~= padded_each(digit_runs(rest)));
        assert forall|i: int| 0 <= i < runs.len() implies (#[trigger] runs[i]).len() > 0
            && all_of_class(runs[i], true) by {
            if i > 0 {
                assert(runs[i] == digit_runs(rest)[i - 1]);
            }
        }
        assert forall|i: int| 0 <= i < texts.len() implies all_of_class(#[trigger] texts[i], false) by {
            if i > 0 {
                assert(texts[i] == text_spans(rest)[i - 1]);
            }
        }
        assert forall|i: int| 0 < i < runs.len() implies (#[trigger] texts[i]).len() > 0 by {
            assert(texts[i] == text_spans(rest)[i - 1]);
            if i == 1 {
                // A second run follows, so the rest starts with text of its own.
                assert(first_run(rest).len() > 0);
                if first_text(rest).len() == 0 {
                    assert(rest[0] == first_run(rest)[0]);
                }
            }
        }
    }
}

/// The digit runs of the naturalized form are those of the string, each
/// padded: there are as many, in the same order, and each is `PAD_WIDTH`
/// characters long, or as long as it was where that is more.
pub proof fn lemma_natural_runs(s: Seq<char>)
    ensures
        digit_runs(natural(s)) == padded_each(digit_runs(s)),
        forall|i: int|
            0 <= i < digit_runs(s).len() ==> (#[trigger] digit_runs(natural(s))[i]).len() == if digit_runs(
                s,
            )[i].len() >= PAD_WIDTH {
                digit_runs(s)[i].len()
            } else {
                PAD_WIDTH as nat
            },
    decreases s.len(),
{
    lemma_parts(s);
    let text = first_text(s);
    let run = first_run(s);
    let rest = after_run(s);
    if run.len() == 0 {
        lemma_natural_of_text(text);
        assert(digit_runs(natural(s)) =~= padded_each(digit_runs(s)));
    } else {
        lemma_natural_runs(rest);
        lemma_natural_start(rest);
        lemma_padded(run);
        lemma_natural_by_parts(natural(s), text, padded(run), natural(rest));
        assert(digit_runs(natural(s)) =~= padded_each(digit_runs(s)));
    }
    assert forall|i: int| 0 <= i < digit_runs(s).len() implies (#[trigger] digit_runs(
        natural(s),
    )[i]).len() == if digit_runs(s)[i].len() >= PAD_WIDTH {
        digit_runs(s)[i].len()
    } else {
        PAD_WIDTH as nat
    } by {
        lemma_padded(digit_runs(s)[i]);
    }
}

/// Text keeps its place: the stretches of text of the naturalized form are
/// those of the string, character by character and in the same order.
pub proof fn lemma_natural_texts(s: Seq<char>)
    ensures
        text_spans(natural(s)) == text_spans(s),
    decreases s.len(),
{
    lemma_parts(s);
    let text = first_text(s);
    let run = first_run(s);
    let rest = after_run(s);
    if run.len() == 0 {
        lemma_natural_of_text(text);
    } else {
        lemma_natural_texts(rest);
        lemma_natural_start(rest);
        lemma_padded(run);
        lemma_natural_by_parts(natural(s), text, padded(run), natural(rest));
    }
}

/// The text of a string without digits is the string, that of a string of
/// digits is empty, and the text of `a + b` is that of `a` and that of `b`.
pub proof fn lemma_text_of(a: Seq<char>, b: Seq<char>)
    ensures
        all_of_class(a, false) ==> text_of(a) == a,
        all_of_class(a, true) ==> text_of(a).len() == 0,
        text_of(a + b) == text_of(a) + text_of(b),
    decreases a.len(),
{
    let keep = |c: char| !is_decimal_digit(c);
    Seq::filter_distributes_over_add(a, b, keep);
    reveal(Seq::filter);
    if a.len() > 0 {
        let front = a.drop_last();
        lemma_text_of(front, b);
        if all_of_class(a, false) {
            assert(all_of_class(front, false)) by {
                assert forall|i: int| 0 <= i < front.len() implies !is_decimal_digit(
                    #[trigger] front[i],
                ) by {
                    assert(front[i] == a[i]);
                }
            }
            assert(text_of(a) =~= a);
        }
        if all_of_class(a, true) {
            assert(all_of_class(front, true)) by {
                assert forall|i: int| 0 <= i < front.len() implies is_decimal_digit(
                    #[trigger] front[i],
                ) by {
                    assert(front[i] == a[i]);
                }
            }
        }
    }
}

/// No text is lost, added or moved: the characters of the naturalized form
/// that are no digits are those of the string, in the same order.
pub proof fn lemma_natural_text(s: Seq<char>)
    ensures
        text_of(natural(s)) == text_of(s),
    decreases s.len(),
{
    lemma_parts(s);
    let text = first_text(s);
    let run = first_run(s);
    let rest = after_run(s);
    if run.len() > 0 {
        lemma_natural_text(rest);
        lemma_padded(run);
        lemma_text_of(text + run, rest);
        lemma_text_of(text, run);
        lemma_text_of(run, rest);
        lemma_text_of(text + padded(run), natural(rest));
        lemma_text_of(text, padded(run));
        lemma_text_of(padded(run), rest);
        assert(text_of(natural(s)) =~= text_of(s));
    }
}

/// A second pass changes nothing.
pub proof fn lemma_natural_idempotent(s: Seq<char>)
    ensures
        natural(natural(s)) == natural(s),
    decreases s.len(),
{
    lemma_parts(s);
    let text = first_text(s);
    let run = first_run(s);
    let rest = after_run(s);
    if run.len() == 0 {
        lemma_natural_of_text(text);
    } else {
        lemma_natural_idempotent(rest);
        lemma_natural_start(rest);
        lemma_padded(run);
        lemma_natural_by_parts(natural(s), text, padded(run), natural(rest));
    }
}

/// A string whose digit runs all have `PAD_WIDTH` characters or more is its
/// own naturalized form.
pub proof fn lemma_natural_fixed(s: Seq<char>)
    requires
        forall|i: int| 0 <= i < digit_runs(s).len() ==> (#[trigger] digit_runs(s)[i]).len() >= PAD_WIDTH,
    ensures
        natural(s) == s,
    decreases s.len(),
{
    lemma_parts(s);
    if first_run(s).len() > 0 {
        let rest = after_run(s);
        assert(digit_runs(s)[0] == first_run(s));
        assert forall|i: int| 0 <= i < digit_runs(rest).len() implies (#[trigger] digit_runs(
            rest,
        )[i]).len() >= PAD_WIDTH by {
            assert(digit_runs(rest)[i] == digit_runs(s)[i + 1]);
        }
        lemma_natural_fixed(rest);
    }
}

/// Naturalizing goes piece by piece: where the cut between `a` and `b` does
/// not fall inside a digit run, the naturalized form of `a + b` is that of
/// `a` followed by that of `b`.
pub proof fn lemma_natural_concat(a: Seq<char>, b: Seq<char>)
    requires
        ends_outside_run(a) || starts_outside_run(b),
    ensures
        natural(a + b) == natural(a) + natural(b),
    decreases a.len(),
{
    lemma_parts(a);
    let text = first_text(a);
    let run = first_run(a);
    let rest = after_run(a);
    if run.len() == 0 {
        lemma_parts(b);
        let joined = a + first_text(b);
        assert(a =~= text);
        assert(a + b =~= joined + first_run(b) + after_run(b));
        if first_run(b).len() == 0 {
            assert(a + b =~= joined);
            lemma_natural_of_text(joined);
        } else {
            lemma_natural_by_parts(a + b, joined, first_run(b), after_run(b));
        }
        assert(natural(a + b) =~= natural(a) + natural(b));
    } else {
        let tail = rest + b;
        assert(a + b =~= text + run + tail);
        if rest.len() == 0 {
            assert(a.last() == run.last());
            assert(tail =~= b);
        } else {
            assert(a.last() == rest.last());
            assert(tail[0] == rest[0]);
        }
        lemma_natural_by_parts(a + b, text, run, tail);
        lemma_natural_concat(rest, b);
        assert(natural(a + b) =~= natural(a) + natural(b));
    }
}

} // verus!
