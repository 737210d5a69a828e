//! Limits and defaults of a search.

use vstd::prelude::*;

verus! {

/// The characters usernames are built from, in the order they are tried.
pub const DICTIONARY: &'static str =
    "abcdefghijklmnopqrstuvwxyzABCDEFGHIJKLMNOPQRSTUVWXYZ0123456789_.+";

/// Longest local part an email address may have.
pub const MAX_USERNAME_LENGTH: usize = 64;

/// The username length actually searched when `requested` is asked for.
pub open spec fn clamped_length(requested: u8) -> nat {
    if requested > MAX_USERNAME_LENGTH {
        MAX_USERNAME_LENGTH as nat
    } else {
        requested as nat
    }
}

/// Caps a requested username length at [`MAX_USERNAME_LENGTH`]; shorter
/// requests pass through unchanged.
pub fn clamp_max_length(requested: u8) -> (length: usize)
    ensures
        length == clamped_length(requested),
        length <= MAX_USERNAME_LENGTH,
{
    let requested: usize = requested.into();
    if requested > MAX_USERNAME_LENGTH {
        MAX_USERNAME_LENGTH
    } else {
        requested
    }
}

/// Every request at or beyond the limit is a request for the limit.
pub proof fn lemma_clamp_saturates(requested: u8, other: u8)
    requires
        requested >= MAX_USERNAME_LENGTH,
        other >= MAX_USERNAME_LENGTH,
    ensures
        clamped_length(requested) == clamped_length(other),
        clamped_length(requested) == MAX_USERNAME_LENGTH,
{
}

} // verus!
