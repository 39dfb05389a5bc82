//! Character classification and the two scanning primitives, which are taken
//! from the `nom` parser library.

use vstd::prelude::*;
use nom::bytes::complete::take_till;
use nom::bytes::complete::take_while;
use crate::model::is_decimal_digit;
use crate::model::is_leading_split;

verus! {

/// `nom::Err`, the failure of a `nom` parser. Nothing is known of its contents.
#[verifier::external_type_specification]
#[verifier::external_body]
#[verifier::reject_recursive_types(E)]
pub struct ExNomErr<E>(nom::Err<E>);

/// `nom::error::Error`, the default error payload of a `nom` parser. Nothing
/// is known of its contents.
#[verifier::external_type_specification]
#[verifier::external_body]
#[verifier::reject_recursive_types(I)]
pub struct ExNomError<I>(nom::error::Error<I>);

/// Whether `c` is an ASCII decimal digit.
pub fn is_digit(c: char) -> (r: bool)
    ensures
        r == is_decimal_digit(c),
{
    '0' <= c && c <= '9'
}

/// Calls `nom::bytes::complete::take_till` with `is_digit` on a `&str`.
///
/// Trusted: the call always succeeds and hands back the rest of the input
/// first and the consumed text second; the text is the longest prefix of
/// `input` that holds no decimal digit.
#[verifier::external_body]
pub(crate) fn take_text<'a>(input: &'a str) -> (r: Result<
    (&'a str, &'a str),
    nom::Err<nom::error::Error<&'a str>>,
>)
    ensures
        r is Ok,
        is_leading_split(input@, r->Ok_0.1@, r->Ok_0.0@, false),
{
    take_till(is_digit)(input)
}

/// Calls `nom::bytes::complete::take_while` with `is_digit` on a `&str`.
///
/// Trusted: the call always succeeds and hands back the rest of the input
/// first and the consumed run second; the run is the longest prefix of
/// `input` made of decimal digits only.
#[verifier::external_body]
pub(crate) fn take_digits<'a>(input: &'a str) -> (r: Result<
    (&'a str, &'a str),
    nom::Err<nom::error::Error<&'a str>>,
>)
    ensures
        r is Ok,
        is_leading_split(input@, r->Ok_0.1@, r->Ok_0.0@, true),
{
    take_while(is_digit)(input)
}

} // verus!
