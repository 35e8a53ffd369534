//! The arena in which the nodes live.
//!
//! The list asks one thing of its arena: to take a value and hand back a
//! reference to it that stays good for as long as the arena does. What
//! stands here is believed of [`bumpalo`], not proved.
use vstd::prelude::*;

verus! {

/// [`bumpalo::Bump`], the arena. Nothing of what is inside it is visible
/// to a proof.
#[verifier::external_type_specification]
#[verifier::external_body]
pub struct ExBump<const MIN_ALIGN: usize>(bumpalo::Bump<MIN_ALIGN>);

/// `Bump::alloc` moves `val` into the arena and returns the one reference
/// to it: what the reference points to is `val`. The call ends the process
/// where the arena cannot get the memory, as any allocation does.
pub assume_specification<const MIN_ALIGN: usize, T>[ bumpalo::Bump::<MIN_ALIGN>::alloc ](
    bump: &bumpalo::Bump<MIN_ALIGN>,
    val: T,
) -> (slot: &mut T)
    ensures
        *slot == val,
;

/// `Bump::new` makes an empty arena. Nothing is claimed of it.
pub assume_specification[ bumpalo::Bump::<1>::new ]() -> (bump: bumpalo::Bump);

/// `Box::leak` gives the boxed arena up for good and returns a reference
/// to it that lives as long as the program. Nothing is claimed of the
/// arena.
#[verifier::external_body]
pub(crate) fn leak(arena: Box<bumpalo::Bump>) -> (leaked: &'static bumpalo::Bump) {
    Box::leak(arena)
}

} // verus!
