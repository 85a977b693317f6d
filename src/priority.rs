use vstd::prelude::*;

verus! {

/// High priority tasks are scheduled preferentially over low priority tasks.
#[derive(Copy, Clone, Debug, PartialEq, Eq, Structural, PartialOrd, Ord, Hash)]
pub enum TaskPriority {
    Low,
    High,
}

impl TaskPriority {
    /// Whether this is the high-priority lane.
    pub fn is_high(&self) -> (r: bool)
        ensures
            r == (*self == TaskPriority::High),
    {
        match self {
            TaskPriority::High => true,
            TaskPriority::Low => false,
        }
    }
}

} // verus!
