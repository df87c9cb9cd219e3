//! What a reference-count operation asks its caller to do, and what a
//! collection pass reports.
use vstd::prelude::*;

verus! {

/// The decision returned when a reference is dropped.
#[derive(Debug, Clone, Copy, PartialEq, Eq, Structural)]
pub enum GcStatus {
    /// The count reached zero: the caller runs the destructor and frees the memory.
    ShouldDrop,
    /// The object belongs to a garbage cycle that the collector is tearing down:
    /// the collector runs its destructor and frees it.
    GarbageCycle,
    /// The count reached zero while the object sits in the root buffer: the
    /// caller runs the destructor only, the collector frees the memory later.
    BufferedDrop,
    /// The object is still referenced and stays alive.
    ShouldKeep,
    /// Nothing happened (a leaked object, or a count already at zero).
    DoNothing,
}

impl GcStatus {
    /// True when the count has reached zero, so that a destructor is owed.
    pub fn can_drop(&self) -> (r: bool)
        ensures
            r == (*self == GcStatus::ShouldDrop || *self == GcStatus::BufferedDrop
                || *self == GcStatus::GarbageCycle),
    {
        match self {
            GcStatus::ShouldDrop => true,
            GcStatus::BufferedDrop => true,
            GcStatus::GarbageCycle => true,
            _ => false,
        }
    }
}

/// How many objects a collection pass freed.
#[derive(Debug, Clone, Copy, PartialEq, Eq, Structural)]
pub struct GcResult {
    /// Objects outside any cycle, freed from the root buffer.
    pub acyclic_cnt: usize,
    /// Objects freed as members of garbage cycles.
    pub cyclic_cnt: usize,
}

impl GcResult {
    pub fn new(acyclic_cnt: usize, cyclic_cnt: usize) -> (r: GcResult)
        ensures
            r.acyclic_cnt == acyclic_cnt,
            r.cyclic_cnt == cyclic_cnt,
    {
        GcResult { acyclic_cnt, cyclic_cnt }
    }

    pub open spec fn empty_spec() -> GcResult {
        GcResult { acyclic_cnt: 0, cyclic_cnt: 0 }
    }

    /// A pass that freed nothing.
    pub fn empty() -> (r: GcResult)
        ensures
            r == GcResult::empty_spec(),
    {
        GcResult { acyclic_cnt: 0, cyclic_cnt: 0 }
    }

    /// Both counts together; `None` when the sum does not fit.
    pub fn total(&self) -> (r: Option<usize>)
        ensures
            self.acyclic_cnt + self.cyclic_cnt <= usize::MAX ==> r == Some(
                (self.acyclic_cnt + self.cyclic_cnt) as usize,
            ),
            self.acyclic_cnt + self.cyclic_cnt > usize::MAX ==> r.is_none(),
    {
        self.acyclic_cnt.checked_add(self.cyclic_cnt)
    }
}

} // verus!
