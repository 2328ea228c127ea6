use vstd::prelude::*;

use crate::model::words_view;
use rand::Rng;
use rand::SeedableRng;

verus! {

#[verifier::external_type_specification]
#[verifier::external_body]
pub struct ExStdRng(rand::rngs::StdRng);

/// Relies on the derived `Clone` of rand's `StdRng`: a copy of the generator,
/// of which nothing is claimed here.
pub assume_specification[ <rand::rngs::StdRng as Clone>::clone ](rng: &rand::rngs::StdRng) -> rand::rngs::StdRng;

/// The tokens that `str::split_whitespace` yields for a string.
pub uninterp spec fn whitespace_tokens(s: Seq<char>) -> Seq<Seq<char>>;

/// What `char::is_uppercase` says of a character.
pub uninterp spec fn is_upper(c: char) -> bool;

/// Relies on rand's `SeedableRng::from_entropy` for `StdRng`: a generator
/// seeded from the operating system.
#[verifier::external_body]
pub(crate) fn fresh_rng() -> rand::rngs::StdRng {
    rand::rngs::StdRng::from_entropy()
}

/// Relies on rand_core's `SeedableRng::seed_from_u64` for `StdRng`: a
/// generator whose draws are fixed by the seed.
#[verifier::external_body]
pub(crate) fn seeded_rng(seed: u64) -> rand::rngs::StdRng {
    rand::rngs::StdRng::seed_from_u64(seed)
}

/// Relies on rand's `Rng::gen_range` over `0..n`: a value below `n`; it
/// panics on an empty range, which `requires` leaves out.
#[verifier::external_body]
pub(crate) fn draw_below(rng: &mut rand::rngs::StdRng, n: usize) -> (r: usize)
    requires
        n > 0,
    ensures
        r < n,
{
    rng.gen_range(0..n)
}

/// Relies on `str::split_whitespace`: the tokens of `s`, each as an owned string.
#[verifier::external_body]
pub(crate) fn split_tokens(s: &str) -> (r: Vec<String>)
    ensures
        words_view(r@) == whitespace_tokens(s@),
{
    s.split_whitespace().map(|t| t.to_string()).collect()
}

/// Relies on `char::is_uppercase`.
#[verifier::external_body]
pub(crate) fn char_is_uppercase(c: char) -> (r: bool)
    ensures
        r == is_upper(c),
{
    c.is_uppercase()
}

/// Relies on `str::chars` followed by `Iterator::next`: the first character,
/// if there is one.
#[verifier::external_body]
pub(crate) fn first_char(s: &str) -> (r: Option<char>)
    ensures
        s@.len() == 0 ==> r is None,
        s@.len() > 0 ==> r == Some(s@[0]),
{
    s.chars().next()
}

} // verus!
