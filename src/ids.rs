//! Random identifiers for ports and arrows.
use vstd::prelude::*;
use rand::Rng;

verus! {

/// The length of a random identifier.
pub const ID_LEN: usize = 7;

/// An ASCII letter or digit.
pub open spec fn is_alphanumeric(c: char) -> bool {
    ('A' <= c && c <= 'Z') || ('a' <= c && c <= 'z') || ('0' <= c && c <= '9')
}

/// Relies on rand's `thread_rng` sampled through `distributions::Alphanumeric`,
/// which draws each character from `A-Z`, `a-z` and `0-9`.
#[verifier::external_body]
fn random_alphanumeric(len: usize) -> (r: String)
    ensures
        r@.len() == len,
        forall|i: int| 0 <= i < len ==> is_alphanumeric(#[trigger] r@[i]),
{
    rand::thread_rng().sample_iter(&rand::distributions::Alphanumeric).take(len).map(char::from).collect()
}

/// A fresh random identifier of `ID_LEN` letters and digits.
pub fn generate_id() -> (r: String)
    ensures
        r@.len() == ID_LEN,
        forall|i: int| 0 <= i < ID_LEN ==> is_alphanumeric(#[trigger] r@[i]),
{
    random_alphanumeric(ID_LEN)
}

/// `count` fresh random identifiers.
pub fn generate_ids(count: usize) -> (r: Vec<String>)
    ensures
        r@.len() == count,
        forall|k: int| 0 <= k < count ==> (#[trigger] r@[k])@.len() == ID_LEN,
{
    let mut r: Vec<String> = Vec::new();
    let mut i: usize = 0;
    while i < count
        invariant
            i <= count,
            r@.len() == i,
            forall|k: int| 0 <= k < i ==> (#[trigger] r@[k])@.len() == ID_LEN,
        decreases count - i,
    {
        r.push(generate_id());
        i = i + 1;
    }
    r
}

} // verus!
