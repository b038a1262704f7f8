//! Fixed sizes of the game's rules.
use vstd::prelude::*;

verus! {

/// How many mutant classes an agent has.
pub const NUM_AGENT_MUTANT_CLASSES: usize = 2;

/// How many subclasses of its class a mutant class instance has.
pub const NUM_MUTANT_SUBCLASSES: usize = 2;

} // verus!
