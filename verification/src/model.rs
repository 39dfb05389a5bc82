//! The mathematical model: strings as `Seq<char>`, leading spans, padding and
//! the naturalized form of a string.

use vstd::prelude::*;

verus! {

/// The width to which every digit run is padded.
pub const PAD_WIDTH: usize = 10;

/// `c` is one of the ASCII decimal digits `'0'` to `'9'`.
pub open spec fn is_decimal_digit(c: char) -> bool {
    '0' <= c && c <= '9'
}

/// Every character of `s` is a decimal digit (`digit == true`), or none is
/// (`digit == false`).
pub open spec fn all_of_class(s: Seq<char>, digit: bool) -> bool {
    forall|i: int| 0 <= i < s.len() ==> is_decimal_digit(#[trigger] s[i]) == digit
}

/// `s` is empty or starts with a character that is no decimal digit.
pub open spec fn starts_outside_run(s: Seq<char>) -> bool {
    s.len() > 0 ==> !is_decimal_digit(s[0])
}

/// `s` is empty or ends with a character that is no decimal digit.
pub open spec fn ends_outside_run(s: Seq<char>) -> bool {
    s.len() > 0 ==> !is_decimal_digit(s.last())
}

/// `head` followed by `tail` is `input`, `head` holds only characters of one
/// class and `tail` does not go on with that class: `head` is the longest
/// prefix of `input` made of digits (`digit == true`) or of non-digits
/// (`digit == false`).
pub open spec fn is_leading_split(
    input: Seq<char>,
    head: Seq<char>,
    tail: Seq<char>,
    digit: bool,
) -> bool {
    &&& input == head + tail
    &&& all_of_class(head, digit)
    &&& tail.len() > 0 ==> is_decimal_digit(tail[0]) != digit
}

/// Length of the longest prefix of `s` made of digits (`digit == true`) or of
/// non-digits (`digit == false`).
pub open spec fn span_len(s: Seq<char>, digit: bool) -> nat
    decreases s.len(),
{
    if s.len() == 0 || is_decimal_digit(s[0]) != digit {
        0
    } else {
        1 + span_len(s.skip(1), digit)
    }
}

/// The text that `s` starts with: its longest prefix without a decimal digit.
pub open spec fn first_text(s: Seq<char>) -> Seq<char> {
    s.take(span_len(s, false) as int)
}

/// What follows the text that `s` starts with.
pub open spec fn after_text(s: Seq<char>) -> Seq<char> {
    s.skip(span_len(s, false) as int)
}

/// The digit run that follows the text that `s` starts with; empty only where
/// no digit is left in `s`.
pub open spec fn first_run(s: Seq<char>) -> Seq<char> {
    after_text(s).take(span_len(after_text(s), true) as int)
}

/// What follows the first digit run of `s`.
pub open spec fn after_run(s: Seq<char>) -> Seq<char> {
    after_text(s).skip(span_len(after_text(s), true) as int)
}

/// `n` times the character `'0'`.
pub open spec fn zeros(n: nat) -> Seq<char> {
    Seq::new(n, |i: int| '0')
}

/// `run` left-padded with `'0'` to at least `PAD_WIDTH` characters; a run that
/// is already that wide is kept as it is.
pub open spec fn padded(run: Seq<char>) -> Seq<char> {
    if run.len() >= PAD_WIDTH {
        run
    } else {
        zeros((PAD_WIDTH - run.len()) as nat) + run
    }
}

/// The naturalized form of `s`: the leading text as it is, then the digit run
/// that follows it, padded, then the naturalized form of what is left. It ends
/// with the text after which no digit follows.
pub open spec fn natural(s: Seq<char>) -> Seq<char>
    decreases s.len(),
{
    if first_run(s).len() == 0 {
        first_text(s)
    } else {
        proof {
            lemma_parts(s);
        }
        first_text(s) + padded(first_run(s)) + natural(after_run(s))
    }
}

/// The leading span is a leading split: it holds one class only, and what
/// follows it does not start with that class.
pub proof fn lemma_span_is_split(s: Seq<char>, digit: bool)
    ensures
        span_len(s, digit) <= s.len(),
        is_leading_split(
            s,
            s.take(span_len(s, digit) as int),
            s.skip(span_len(s, digit) as int),
            digit,
        ),
    decreases s.len(),
{
    let n = span_len(s, digit) as int;
    if s.len() != 0 && is_decimal_digit(s[0]) == digit {
        let t = s.skip(1);
        lemma_span_is_split(t, digit);
        let m = span_len(t, digit) as int;
        assert(n == m + 1);
        assert forall|i: int| 0 <= i < n implies is_decimal_digit(#[trigger] s.take(n)[i])
            == digit by {
            if i > 0 {
                assert(s.take(n)[i] == t.take(m)[i - 1]);
            }
        }
        if s.skip(n).len() > 0 {
            assert(s.skip(n)[0] == t.skip(m)[0]);
        }
    }
    assert(s =~= s.take(n) + s.skip(n));
}

/// A leading split is unique: its head is the leading span.
pub proof fn lemma_split_is_span(input: Seq<char>, head: Seq<char>, tail: Seq<char>, digit: bool)
    requires
        is_leading_split(input, head, tail, digit),
    ensures
        head.len() == span_len(input, digit),
        head == input.take(span_len(input, digit) as int),
        tail == input.skip(span_len(input, digit) as int),
    decreases head.len(),
{
    if head.len() == 0 {
        assert(input =~= tail);
    } else {
        assert(input[0] == head[0]);
        assert(input.skip(1) =~= head.skip(1) + tail);
        assert forall|i: int| 0 <= i < head.skip(1).len() implies is_decimal_digit(
            #[trigger] head.skip(1)[i],
        ) == digit by {
            assert(head.skip(1)[i] == head[i + 1]);
        }
        lemma_split_is_span(input.skip(1), head.skip(1), tail, digit);
    }
    let n = span_len(input, digit) as int;
    assert(head =~= input.take(n));
    assert(tail =~= input.skip(n));
}

/// Every string is its first text, its first digit run and the rest, in this
/// order; the rest is there only after a digit run, and starts with text.
pub proof fn lemma_parts(s: Seq<char>)
    ensures
        s == first_text(s) + first_run(s) + after_run(s),
        all_of_class(first_text(s), false),
        all_of_class(first_run(s), true),
        starts_outside_run(after_run(s)),
        first_run(s).len() == 0 ==> after_run(s).len() == 0,
        first_run(s).len() > 0 ==> after_run(s).len() < s.len(),
{
    lemma_span_is_split(s, false);
    lemma_span_is_split(after_text(s), true);
    assert(s =~= first_text(s) + first_run(s) + after_run(s));
    if first_run(s).len() == 0 {
        assert(after_run(s) =~= after_text(s));
    }
}

/// The three parts of a string are unique: whatever text, digit run and rest
/// make up `s` are its first text, its first run and what follows.
pub proof fn lemma_parts_unique(s: Seq<char>, text: Seq<char>, run: Seq<char>, rest: Seq<char>)
    requires
        s == text + run + rest,
        all_of_class(text, false),
        all_of_class(run, true),
        starts_outside_run(rest),
        run.len() == 0 ==> rest.len() == 0,
    ensures
        first_text(s) == text,
        first_run(s) == run,
        after_run(s) == rest,
{
    let tail = run + rest;
    assert(s =~= text + tail);
    if tail.len() > 0 {
        assert(run.len() > 0);
        assert(tail[0] == run[0]);
    }
    lemma_split_is_span(s, text, tail, false);
    lemma_split_is_span(tail, run, rest, true);
}

} // verus!
