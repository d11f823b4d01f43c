//! Strings that live as long as an arena.

use bumpalo::Bump;
use vstd::prelude::*;

verus! {

/// `bumpalo::Bump`, an arena: an opaque value that is only handed on.
#[verifier::external_type_specification]
#[verifier::external_body]
pub struct ExBump(bumpalo::Bump);

/// `bumpalo::Bump::alloc` moves a value into the arena and gives back a reference to it, through
/// which that same value is seen. Nothing is claimed of a call that the arena has no memory left
/// for, or that would exceed an allocation limit set on it: such a call does not return.
pub assume_specification<T>[ Bump::alloc::<T> ](bump: &Bump, val: T) -> (r: &mut T)
    ensures
        *r == val,
;

/// Moves a string into the arena.
pub fn intern<'a>(alloc: &'a Bump, text: String) -> (r: &'a str)
    ensures
        r@ == text@,
{
    alloc.alloc(text).as_str()
}

/// Equality of string slices compares their characters.
pub assume_specification[ <str as PartialEq<str>>::eq ](a: &str, b: &str) -> (r: bool)
    ensures
        r == (a@ == b@),
;

} // verus!
