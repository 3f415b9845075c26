use vstd::prelude::*;

pub mod bfs;
pub mod buffer_slice;
pub mod buffer_struct;
pub mod merge_sort;
pub mod queue;
pub mod stack;

verus! {

/// What a container item must offer: a printable form, duplication and a
/// default value.
pub trait NodeItemTraits: core::fmt::Display + Clone + Default {}

impl NodeItemTraits for i8 {}
impl NodeItemTraits for i16 {}
impl NodeItemTraits for i32 {}
impl NodeItemTraits for i64 {}
impl NodeItemTraits for isize {}
impl NodeItemTraits for u8 {}
impl NodeItemTraits for u16 {}
impl NodeItemTraits for u32 {}
impl NodeItemTraits for u64 {}
impl NodeItemTraits for usize {}
impl NodeItemTraits for char {}
impl NodeItemTraits for bool {}

/// In a run of container operations, `Some(x)` inserts `x` (a push or an
/// enqueue) and `None` removes one item (a pop or a dequeue).
pub open spec fn count_inserts<T>(ops: Seq<Option<T>>) -> nat
    decreases ops.len(),
{
    if ops.len() == 0 {
        0
    } else {
        count_inserts(ops.drop_last()) + if ops.last() is Some {
            1nat
        } else {
            0nat
        }
    }
}

/// The number of removals in a run of container operations.
pub open spec fn count_removes<T>(ops: Seq<Option<T>>) -> nat
    decreases ops.len(),
{
    if ops.len() == 0 {
        0
    } else {
        count_removes(ops.drop_last()) + if ops.last() is None {
            1nat
        } else {
            0nat
        }
    }
}

} // verus!
