use vstd::prelude::*;

verus! {

/// The most call frames the virtual machine keeps at once.
pub const MAX_FRAMES_SIZE: usize = 64;

/// The number of value slots of the virtual machine's stack.
pub const MAX_STACK_SIZE: usize = 16384;

} // verus!
