//! The process-wide execution context shared by every task.
use vstd::prelude::*;

verus! {

/// Read-only state of one run: the directory the process was started in.
#[derive(Debug)]
pub struct GlobalState {
    working_dir: String,
}

impl GlobalState {
    pub closed spec fn spec_working_dir(&self) -> Seq<char> {
        self.working_dir@
    }

    /// Builds the context from the directory the process was launched in.
    pub fn new(working_dir: String) -> (r: GlobalState)
        ensures
            r.spec_working_dir() == working_dir@,
    {
        GlobalState { working_dir }
    }

    pub fn working_dir(&self) -> (r: &String)
        ensures
            r@ == self.spec_working_dir(),
    {
        &self.working_dir
    }
}

} // verus!
