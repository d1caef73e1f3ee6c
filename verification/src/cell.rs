//! The write-once cell that holds a system's neighbours, and what is taken
//! on trust about it.
//!
//! The cell comes from the once_cell crate. Nothing here is proved: the
//! contracts below say what the crate's functions do, and the map is built
//! on them.

use vstd::prelude::*;
use once_cell::unsync::OnceCell;
use crate::evemap::Neighbours;

verus! {

/// The write-once cell of once_cell. A cell is carried as it is; what it
/// holds is known through `cell_value` alone.
#[verifier::external_type_specification]
#[verifier::external_body]
#[verifier::reject_recursive_types(T)]
pub struct ExOnceCell<T>(OnceCell<T>);

/// What a cell of neighbours holds: nothing, or the one value it was set to.
pub uninterp spec fn cell_value(cell: OnceCell<Neighbours>) -> Option<Neighbours>;

/// `OnceCell::new` of once_cell: a new cell is empty.
#[verifier::external_body]
pub(crate) fn new_cell() -> (cell: OnceCell<Neighbours>)
    ensures
        cell_value(cell) is None,
{
    OnceCell::new()
}

/// `OnceCell::set` of once_cell: an empty cell takes the value and the call
/// succeeds; a full cell keeps what it holds and hands the value back.
#[verifier::external_body]
pub(crate) fn set_cell(cell: &mut OnceCell<Neighbours>, value: Neighbours) -> (outcome: Result<
    (),
    Neighbours,
>)
    ensures
        outcome is Ok <==> cell_value(*old(cell)) is None,
        outcome is Ok ==> cell_value(*final(cell)) == Some(value),
        outcome matches Err(back) ==> back == value && cell_value(*final(cell)) == cell_value(
            *old(cell),
        ),
{
    cell.set(value)
}

/// `OnceCell::get` of once_cell: a reference to the value the cell holds,
/// if it holds one.
#[verifier::external_body]
pub(crate) fn get_cell(cell: &OnceCell<Neighbours>) -> (value: Option<&Neighbours>)
    ensures
        match value {
            Some(n) => cell_value(*cell) == Some(*n),
            None => cell_value(*cell) is None,
        },
{
    cell.get()
}

} // verus!
