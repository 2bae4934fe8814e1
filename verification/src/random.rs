use vstd::prelude::*;

verus! {

/// Asks the hosting application to hand a random number generator to its
/// systems. The marker carries no state of its own: the generator is made,
/// and kept, by the application that takes the plugin.
#[derive(Clone, Copy, Debug, PartialEq, Eq)]
pub struct RandomPlugin;

} // verus!
