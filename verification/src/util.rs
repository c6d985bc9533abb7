use vstd::prelude::*;

verus! {

/// Size in bytes of a value of the type of `_value`.
pub fn size_of<T>(_value: &T) -> (n: usize)
    ensures
        n as nat == vstd::layout::size_of::<T>(),
{
    core::mem::size_of::<T>()
}

} // verus!
