use vstd::prelude::*;

use crate::value::ObjRef;

verus! {

/// A function call in progress: the function or closure being run, the offset of the next
/// instruction in its chunk, and the stack slot where its frame starts (which holds the callee).
#[derive(Debug, Clone, Copy, PartialEq, Eq, Structural)]
pub struct CallFrame {
    pub callable_object: ObjRef,
    pub ip: usize,
    pub stack_base_offset: usize,
}

impl CallFrame {
    /// A frame starting at stack slot `stack_base_offset`, at the first instruction of
    /// `callable_object`.
    pub fn new(callable_object: ObjRef, stack_base_offset: usize) -> (f: Self)
        ensures
            f == (CallFrame { callable_object, ip: 0, stack_base_offset }),
    {
        CallFrame { callable_object, ip: 0, stack_base_offset }
    }

    /// Makes `object` the function or closure the frame runs.
    pub fn set_callable_object(&mut self, object: ObjRef)
        ensures
            *final(self) == (CallFrame { callable_object: object, ..*old(self) }),
    {
        self.callable_object = object;
    }

    /// The stack slot where the frame starts.
    pub fn get_stack_base_offset(&self) -> (o: usize)
        ensures
            o == self.stack_base_offset,
    {
        self.stack_base_offset
    }

    /// The offset of the next instruction.
    pub fn ip(&self) -> (ip: usize)
        ensures
            ip == self.ip,
    {
        self.ip
    }
}

} // verus!
