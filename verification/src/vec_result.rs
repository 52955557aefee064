//! Slice access that returns a `Result` with a proper error instead of an
//! `Option`.

use vstd::prelude::*;
use vstd::string::StringExecFns;

verus! {

/// An editor-side error.
#[derive(Debug, PartialEq, Eq)]
pub enum EdError {
    /// An index beyond a collection's length.
    OutOfBounds { index: usize, collection_name: String, len: usize },
}

/// The editor's result type.
pub type EdResult<T> = Result<T, EdError>;

/// The element at the index, or an out-of-bounds error naming the index and
/// the slice's length.
pub fn get_res<T>(index: usize, slice: &[T]) -> (r: EdResult<&T>)
    ensures
        (r matches Ok(elt) ==> index < slice@.len() && *elt == slice@[index as int]),
        (r matches Err(e) ==> index >= slice@.len() && (e matches EdError::OutOfBounds {
            index: i,
            collection_name,
            len,
        } && i == index && len == slice@.len() && collection_name@ == "Slice"@)),
{
    if index < slice.len() {
        Ok(&slice[index])
    } else {
        Err(
            EdError::OutOfBounds {
                index,
                collection_name: String::from_str("Slice"),
                len: slice.len(),
            },
        )
    }
}

} // verus!
