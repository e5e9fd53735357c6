use crate::wfc::Collapse;
use arrayvec::ArrayVec;
use vstd::prelude::*;

verus! {

/// Room for the eliminations that one collapse can cause: two per rule of a
/// puzzle's rule table, with room to spare.
pub const MAX_COLLAPSES: usize = 9;

#[verifier::external_type_specification]
#[verifier::external_body]
#[verifier::reject_recursive_types(T)]
pub struct ExArrayVec<T, const CAP: usize>(ArrayVec<T, CAP>);

/// The eliminations held by a fixed-capacity list, in order.
pub uninterp spec fn collapses_of(v: ArrayVec<Collapse, MAX_COLLAPSES>) -> Seq<Collapse>;

/// Relies on `ArrayVec::new`: an empty list.
#[verifier::external_body]
pub(crate) fn empty_collapses() -> (r: ArrayVec<Collapse, MAX_COLLAPSES>)
    ensures
        collapses_of(r) == Seq::<Collapse>::empty(),
{
    ArrayVec::new()
}

/// Relies on `ArrayVec::push`: appends at the end; it panics on a full list.
#[verifier::external_body]
pub(crate) fn push_collapse(v: &mut ArrayVec<Collapse, MAX_COLLAPSES>, c: Collapse)
    requires
        collapses_of(*old(v)).len() < MAX_COLLAPSES,
    ensures
        collapses_of(*final(v)) == collapses_of(*old(v)).push(c),
{
    v.push(c)
}

/// Relies on `ArrayVec::len`: the number of items held.
#[verifier::external_body]
pub(crate) fn collapse_count(v: &ArrayVec<Collapse, MAX_COLLAPSES>) -> (r: usize)
    ensures
        r == collapses_of(*v).len(),
{
    v.len()
}

/// Relies on `ArrayVec::as_slice`: the items held, in order.
#[verifier::external_body]
pub(crate) fn collapse_at(v: &ArrayVec<Collapse, MAX_COLLAPSES>, i: usize) -> (r: Collapse)
    requires
        i < collapses_of(*v).len(),
    ensures
        r == collapses_of(*v)[i as int],
{
    v.as_slice()[i]
}

} // verus!
