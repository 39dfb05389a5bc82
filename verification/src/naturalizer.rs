//! The naturalizer: a left-to-right scan that copies text and pads digit runs.

use vstd::prelude::*;
use vstd::string::StrSliceExecFns;
use vstd::string::StringExecFns;
use crate::model::PAD_WIDTH;
use crate::model::lemma_parts_unique;
use crate::model::natural;
use crate::model::padded;
use crate::model::zeros;
use crate::scan::take_digits;
use crate::scan::take_text;

verus! {

/// Why a string could not be naturalized.
#[derive(Debug, Clone, Copy, PartialEq, Eq)]
pub enum NaturalizeError {
    /// A scanning primitive gave up on its input. The primitives in use never
    /// do, so no input leads here.
    Scanner,
}

/// Appends `run`, left-padded with `'0'` to `PAD_WIDTH` characters, to `natur`.
pub fn push_padded(natur: &mut String, run: &str)
    ensures
        final(natur)@ == old(natur)@ + padded(run@),
{
    let ghost before = natur@;
    let len: usize = run.unicode_len();
    let mut width: usize = len;
    while width < PAD_WIDTH
        invariant
            len <= width,
            len < PAD_WIDTH ==> width <= PAD_WIDTH,
            len >= PAD_WIDTH ==> width == len,
            natur@ == before + zeros((width - len) as nat),
        decreases PAD_WIDTH - width,
    {
        proof {
            reveal_strlit("0");
            assert(zeros((width - len) as nat) + "0"@ =~= zeros((width + 1 - len) as nat));
        }
        natur.append("0");
        width = width + 1;
    }
    natur.append(run);
    proof {
        let fill = zeros((width - len) as nat);
        assert(fill + run@ =~= padded(run@));
        assert((before + fill) + run@ =~= before + (fill + run@));
    }
}

/// Scans `input` to its end, appending its naturalized form to `natur`, and
/// returns what is left of the input, which is nothing.
pub fn text_num<'a>(input: &'a str, natur: &mut String) -> (r: Result<&'a str, NaturalizeError>)
    ensures
        r is Ok,
        r->Ok_0@.len() == 0,
        final(natur)@ == old(natur)@ + natural(input@),
{
    let ghost before = natur@;
    let mut rest: &'a str = input;
    loop
        invariant
            before == old(natur)@,
            natur@ + natural(rest@) == before + natural(input@),
        decreases rest@.len(),
    {
        let (after_text, text) = match take_text(rest) {
            Ok(split) => split,
            Err(_) => { return Err(NaturalizeError::Scanner); },
        };
        let (after_run, run) = match take_digits(after_text) {
            Ok(split) => split,
            Err(_) => { return Err(NaturalizeError::Scanner); },
        };
        proof {
            assert(rest@ =~= text@ + run@ + after_run@);
            // After the text stands a digit or nothing, after the run no digit.
            lemma_parts_unique(rest@, text@, run@, after_run@);
        }
        natur.append(text);
        if run.is_empty() {
            proof {
                assert(natural(rest@) == text@);
            }
            return Ok(after_run);
        }
        push_padded(natur, run);
        proof {
            assert(natur@ + natural(after_run@) =~= before + natural(input@)) by {
                assert(natural(rest@) == text@ + padded(run@) + natural(after_run@));
            }
        }
        rest = after_run;
    }
}

/// Naturalizes `input` into a fresh string, and returns it with what is left
/// of the input, which is nothing.
pub fn run_parser(input: &str) -> (r: Result<(&str, String), NaturalizeError>)
    ensures
        r is Ok,
        r->Ok_0.0@.len() == 0,
        r->Ok_0.1@ == natural(input@),
{
    let mut natur = String::new();
    match text_num(input, &mut natur) {
        Ok(rest) => {
            assert(natur@ =~= natural(input@));
            Ok((rest, natur))
        },
        Err(e) => Err(e),
    }
}

/// Converts a string to its natural-sort key: every maximal run of ASCII
/// decimal digits is left-padded with `'0'` to ten characters, everything
/// else is kept. Succeeds on every input.
pub fn to_natural(src: &str) -> (r: Result<String, NaturalizeError>)
    ensures
        r is Ok,
        r->Ok_0@ == natural(src@),
{
    match run_parser(src) {
        Ok((_, natur)) => Ok(natur),
        Err(e) => Err(e),
    }
}

} // verus!
