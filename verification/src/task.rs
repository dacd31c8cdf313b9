use vstd::prelude::*;

use crate::trit::TritAction;

verus! {

/// A task with a ternary priority.
#[derive(Debug, Clone)]
pub struct TernaryTask {
    pub id: usize,
    pub name: String,
    pub priority: TritAction,
    pub duration: u64,
    pub resource_need: u64,
}

impl TernaryTask {
    pub fn new(id: usize, name: &str, priority: TritAction, duration: u64, resource_need: u64) -> (t:
        Self)
        ensures
            t.id == id,
            t.name@ == name@,
            t.priority == priority,
            t.duration == duration,
            t.resource_need == resource_need,
    {
        TernaryTask { id, name: name.to_string(), priority, duration, resource_need }
    }
}

} // verus!
