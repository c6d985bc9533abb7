use vstd::prelude::*;

use crate::objects::object::{GcSize, HeapObject, Object, ObjectType};
use crate::value::Value;

verus! {

/// Where an upvalue's variable lives: still in a stack slot, or closed over into the upvalue.
#[derive(Debug, Clone, Copy, PartialEq, Eq, Structural)]
pub enum UpvalueLocation {
    Stack(usize),
    Closed,
}

/// A captured variable.
pub struct ObjectUpvalue {
    pub object: Object,
    pub location: UpvalueLocation,
    pub closed: Value,
}

impl ObjectUpvalue {
    /// An open upvalue for stack slot `location`.
    pub fn new(location: usize) -> (u: Self)
        ensures
            u == Self::spec_new(location),
    {
        ObjectUpvalue {
            object: Object { obj_type: ObjectType::ObjUpvalue },
            location: UpvalueLocation::Stack(location),
            closed: Value::Nil,
        }
    }

    pub open spec fn spec_new(location: usize) -> Self {
        ObjectUpvalue {
            object: Object { obj_type: ObjectType::ObjUpvalue },
            location: UpvalueLocation::Stack(location),
            closed: Value::Nil,
        }
    }

    /// Where the variable lives.
    pub fn location(&self) -> (l: UpvalueLocation)
        ensures
            l == self.location,
    {
        self.location
    }

    /// The variable's value, read from `stack` while the upvalue is open (nil when the slot is
    /// past the end of the stack).
    pub open spec fn spec_value(&self, stack: Seq<Value>) -> Value {
        match self.location {
            UpvalueLocation::Stack(i) => if i < stack.len() {
                stack[i as int]
            } else {
                Value::Nil
            },
            UpvalueLocation::Closed => self.closed,
        }
    }

    /// The variable's value.
    pub fn value(&self, stack: &[Value]) -> (v: Value)
        ensures
            v == self.spec_value(stack@),
    {
        match self.location {
            UpvalueLocation::Stack(i) => if i < stack.len() {
                stack[i]
            } else {
                Value::Nil
            },
            UpvalueLocation::Closed => self.closed,
        }
    }
}

impl GcSize for ObjectUpvalue {
    fn shallow_size(&self) -> (n: usize)
        ensures
            n == core::mem::size_of::<ObjectUpvalue>(),
    {
        core::mem::size_of::<ObjectUpvalue>()
    }

    fn deep_size(&self) -> (n: usize)
        ensures
            n == core::mem::size_of::<ObjectUpvalue>(),
            HeapObject::Upvalue(*self).fits(Seq::empty()) && n == HeapObject::Upvalue(
                *self,
            ).size_with(Seq::empty()),
    {
        self.shallow_size()
    }
}

} // verus!
