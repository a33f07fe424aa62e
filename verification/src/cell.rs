//! The write-once cell of `once_cell`, as far as the completer uses it.
//! Nothing in this file is proved: each contract restates what the crate's
//! documentation says, for a cell that one owner holds.

use once_cell::sync::OnceCell;
use vstd::prelude::*;

use crate::index::PrefixIndex;

verus! {

#[verifier::external_type_specification]
#[verifier::external_body]
#[verifier::reject_recursive_types(T)]
pub struct ExOnceCell<T>(OnceCell<T>);

/// What the cell holds: the words of the index in it, or nothing.
pub uninterp spec fn installed_words(cell: OnceCell<PrefixIndex>) -> Option<Set<Seq<u8>>>;

/// `OnceCell::new`: an empty cell.
#[verifier::external_body]
pub(crate) fn cell_new() -> (cell: OnceCell<PrefixIndex>)
    ensures
        installed_words(cell) is None,
{
    OnceCell::new()
}

/// `OnceCell::set`: fills the cell if it was empty; gives the value back and
/// leaves the cell as it was if it was full. It takes the cell by `&mut`, so
/// that nobody else fills it meanwhile.
#[verifier::external_body]
pub(crate) fn cell_set(
    cell: &mut OnceCell<PrefixIndex>,
    index: PrefixIndex,
) -> (r: Result<(), PrefixIndex>)
    ensures
        r is Ok <==> installed_words(*old(cell)) is None,
        r matches Err(back) ==> back == index,
        r is Ok ==> installed_words(*final(cell)) == Some(index@),
        r is Err ==> installed_words(*final(cell)) == installed_words(*old(cell)),
{
    cell.set(index)
}

/// `OnceCell::get`: the value in the cell, or `None` if the cell is empty.
#[verifier::external_body]
pub(crate) fn cell_get(cell: &OnceCell<PrefixIndex>) -> (r: Option<&PrefixIndex>)
    ensures
        r is None <==> installed_words(*cell) is None,
        r matches Some(index) ==> installed_words(*cell) == Some(index@),
{
    cell.get()
}

} // verus!
