//! Commands that can run themselves.
use vstd::prelude::*;

verus! {

/// What running a command gives back.
pub type ExecuteReturn = ();

/// A command that can run itself.
pub trait Execute {
    fn execute(&self) -> ExecuteReturn;
}

} // verus!
