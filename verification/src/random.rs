//! The sources of chance that sample data is drawn from. Nothing here is
//! proved: each function hands a request to `rand` or `fake`, on the random
//! number generator of the calling thread, and states what those crates
//! document of the answer.

use fake::faker::internet::en::SafeEmail;
use fake::faker::lorem::en::Words;
use fake::faker::name::en::Name;
use fake::Fake;
use rand::Rng;
use vstd::prelude::*;

verus! {

/// `rand::Rng::gen_range` on a half-open range of `usize`: some number of the
/// range. The range must not be empty.
#[verifier::external_body]
pub(crate) fn random_in(low: usize, high: usize) -> (value: usize)
    requires
        low < high,
    ensures
        low <= value < high,
{
    rand::thread_rng().gen_range(low..high)
}

/// `rand::seq::index::sample`: `amount` distinct indices below `length`, in
/// some order. There must be that many.
#[verifier::external_body]
pub(crate) fn sample_indices(length: usize, amount: usize) -> (picked: Vec<usize>)
    requires
        amount <= length,
    ensures
        picked@.len() == amount,
        forall|i: int| 0 <= i < picked@.len() ==> picked@[i] < length,
        picked@.no_duplicates(),
{
    rand::seq::index::sample(&mut rand::thread_rng(), length, amount).into_vec()
}

/// `fake::Fake::fake` on a half-open range of `i64`: some number of the
/// range. The range must not be empty.
#[verifier::external_body]
pub(crate) fn fake_number(low: i64, high: i64) -> (value: i64)
    requires
        low < high,
    ensures
        low <= value < high,
{
    (low..high).fake::<i64>()
}

/// `fake::faker::lorem::en::Words`: some words, as many as some number of
/// the half-open range. The range must not be empty.
#[verifier::external_body]
pub(crate) fn fake_words(low: usize, high: usize) -> (words: Vec<String>)
    requires
        low < high,
    ensures
        low <= words@.len() < high,
{
    Words(low..high).fake::<Vec<String>>()
}

/// `fake::faker::name::en::Name`: some name. Nothing is claimed of it.
#[verifier::external_body]
pub(crate) fn fake_name() -> String {
    Name().fake::<String>()
}

/// `fake::faker::internet::en::SafeEmail`: some address. Nothing is claimed
/// of it.
#[verifier::external_body]
pub(crate) fn fake_safe_email() -> String {
    SafeEmail().fake::<String>()
}

} // verus!
