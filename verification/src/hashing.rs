//! Hashing of the cells that a unique constraint or a foreign key selects.

use std::collections::hash_map::DefaultHasher;
use std::hash::{Hash, Hasher};
use vstd::prelude::*;
use vstd::std_specs::hash::DefaultHasherAdditionalSpecFns;

verus! {

/// What `<[&str] as Hash>::hash` writes into a `DefaultHasher`: the writes
/// depend only on the strings (their number and their characters).
pub uninterp spec fn str_slice_hash_writes(strings: Seq<Seq<char>>) -> Seq<Seq<u8>>;

/// The characters of each string of a slice of string slices.
pub open spec fn str_views(strings: Seq<&str>) -> Seq<Seq<char>> {
    strings.map_values(|s: &str| s@)
}

/// The value that `hash_vec` returns for a sequence of strings.
pub open spec fn spec_hash_vec(strings: Seq<Seq<char>>) -> u64 {
    DefaultHasher::spec_finish(str_slice_hash_writes(strings))
}

/// Feeds a slice of strings to a hasher through `<[&str] as Hash>::hash`
/// (std). Trusted: the hasher's recorded writes grow by what that impl writes,
/// which is a function of the strings alone. The byte layout (a length prefix
/// in the platform's `usize`, then each string's bytes and a terminator) is
/// left to the name and not stated.
#[verifier::external_body]
fn hash_str_slice(strings: &[&str], hasher: &mut DefaultHasher)
    ensures
        final(hasher)@ == old(hasher)@ + str_slice_hash_writes(str_views(strings@)),
{
    strings.hash(hasher);
}

/// Hashes a sequence of strings with a freshly created `DefaultHasher`.
/// Equal sequences of strings give equal hashes.
pub fn hash_vec(strings: &[&str]) -> (h: u64)
    ensures
        h == spec_hash_vec(str_views(strings@)),
{
    let mut hasher = DefaultHasher::new();
    hash_str_slice(strings, &mut hasher);
    assert(hasher@ == str_slice_hash_writes(str_views(strings@)));
    hasher.finish()
}

} // verus!
