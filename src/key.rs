//! What the map asks of its keys: a content hash and an equality test, both
//! functions of the key's view.
use std::collections::hash_map::DefaultHasher;
use std::hash::{Hash, Hasher};
use vstd::prelude::*;
use vstd::std_specs::hash::DefaultHasherAdditionalSpecFns;

verus! {

/// A key type with a deterministic 32-bit hash code.
///
/// The code depends on the key's view alone, so equal keys (equal views)
/// always hash alike, across calls and across distinct instances.
pub trait Hashable: View + Sized {
    spec fn hash_spec(key: Self::V) -> u32;

    fn to_hash(&self) -> (r: u32)
        ensures
            r == Self::hash_spec(self@),
    ;
}

/// A key type whose equality test decides equality of views.
pub trait Equatable: View + Sized {
    fn equals(&self, other: &Self) -> (r: bool)
        ensures
            r == (self@ == other@),
    ;
}

/// The byte strings that `<str as Hash>::hash` hands to a hasher for a string.
pub uninterp spec fn str_hash_writes(s: Seq<char>) -> Seq<Seq<u8>>;

/// Relies on `<str as Hash>::hash`: it feeds the hasher writes that depend on
/// the string's characters alone.
#[verifier::external_body]
fn feed_str(s: &str, state: &mut DefaultHasher)
    ensures
        final(state)@ == old(state)@ + str_hash_writes(s@),
{
    s.hash(state)
}

/// The hash code of a string: the default hasher's 64-bit digest of its
/// characters, truncated to the low 32 bits.
pub open spec fn string_hash(s: Seq<char>) -> u32 {
    DefaultHasher::spec_finish(str_hash_writes(s)) as u32
}

impl Hashable for String {
    open spec fn hash_spec(key: Seq<char>) -> u32 {
        string_hash(key)
    }

    fn to_hash(&self) -> (r: u32) {
        let mut hasher = DefaultHasher::new();
        feed_str(self.as_str(), &mut hasher);
        hasher.finish() as u32
    }
}

impl Equatable for String {
    fn equals(&self, other: &Self) -> (r: bool) {
        *self == *other
    }
}

} // verus!
