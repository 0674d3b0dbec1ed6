//! The editable character sequence backing a buffer.
//!
//! The document text lives in a `gapbuffer::GapBuffer<char>`, a dynamic
//! array optimized for runs of edits near one point.  Verified code sees it
//! only through the wrappers here, whose contracts speak of `gap_chars`, the
//! ordered contents of the buffer.

use vstd::prelude::*;
use gapbuffer::GapBuffer;
use crate::model::insert_at;
use crate::model::remove_range;

verus! {

#[verifier::external_type_specification]
#[verifier::external_body]
#[verifier::reject_recursive_types(T)]
pub struct ExGapBuffer<T>(GapBuffer<T>);

/// The characters a gap buffer holds, in order.
pub uninterp spec fn gap_chars(b: GapBuffer<char>) -> Seq<char>;

/// Relies on gapbuffer::GapBuffer::new: constructs an empty buffer.
#[verifier::external_body]
pub fn gap_new() -> (b: GapBuffer<char>)
    ensures
        gap_chars(b) == Seq::<char>::empty(),
{
    GapBuffer::new()
}

/// Relies on gapbuffer::GapBuffer::len: the number of elements held.
#[verifier::external_body]
pub fn gap_len(b: &GapBuffer<char>) -> (n: usize)
    ensures
        n == gap_chars(*b).len(),
{
    b.len()
}

/// Relies on gapbuffer::GapBuffer's indexing: the element at a valid index.
#[verifier::external_body]
pub fn gap_char_at(b: &GapBuffer<char>, i: usize) -> (c: char)
    requires
        i < gap_chars(*b).len(),
    ensures
        c == gap_chars(*b)[i as int],
{
    b[i]
}

/// Relies on gapbuffer::GapBuffer::insert: shifts the gap to index `i` and
/// places `c` there, so the contents gain `c` at position `i`.  The old
/// length was below `usize::MAX`, since the grown buffer's length is a
/// `usize`.
#[verifier::external_body]
pub fn gap_insert(b: &mut GapBuffer<char>, i: usize, c: char)
    requires
        i <= gap_chars(*old(b)).len(),
    ensures
        gap_chars(*final(b)) == insert_at(gap_chars(*old(b)), i as int, c),
        gap_chars(*old(b)).len() < usize::MAX,
{
    b.insert(i, c)
}

/// Relies on gapbuffer::GapBuffer::remove: shifts the gap to index `i` and
/// takes the element there out, returning it; in bounds it never returns
/// `None`.
#[verifier::external_body]
pub fn gap_remove(b: &mut GapBuffer<char>, i: usize) -> (c: char)
    requires
        i < gap_chars(*old(b)).len(),
    ensures
        c == gap_chars(*old(b))[i as int],
        gap_chars(*final(b)) == remove_range(gap_chars(*old(b)), i as int, i + 1),
{
    b.remove(i).unwrap()
}

} // verus!
