use vstd::prelude::*;

use crate::objects::object::{
    add_buffer, lemma_size_step, ones, string_capacity, GcSize, HeapObject, Object, ObjectType,
};

verus! {

/// A function provided by the host. `native_id` says which one; the host keeps the code.
pub struct ObjectNativeFunction {
    pub object: Object,
    pub name: String,
    pub arity: u8,
    pub native_id: usize,
}

impl ObjectNativeFunction {
    pub fn new(name: String, arity: u8, native_id: usize) -> (f: Self)
        ensures
            f.object.obj_type == ObjectType::ObjNativeFunction,
            f.name@ == name@,
            f.arity == arity,
            f.native_id == native_id,
    {
        ObjectNativeFunction {
            object: Object { obj_type: ObjectType::ObjNativeFunction },
            name,
            arity,
            native_id,
        }
    }
}

impl GcSize for ObjectNativeFunction {
    fn shallow_size(&self) -> (n: usize)
        ensures
            n == core::mem::size_of::<ObjectNativeFunction>(),
    {
        core::mem::size_of::<ObjectNativeFunction>()
    }

    fn deep_size(&self) -> (n: usize)
        ensures
            n >= core::mem::size_of::<ObjectNativeFunction>(),
            exists|caps: Seq<int>|
                HeapObject::NativeFunction(*self).fits(caps) && n == HeapObject::NativeFunction(
                    *self,
                ).size_with(caps),
    {
        let header = self.shallow_size();
        let c = string_capacity(&self.name);
        let n = add_buffer(header, c, 1);
        proof {
            let caps = seq![c as int];
            assert(Seq::<int>::empty().push(c as int) =~= caps);
            assert(Seq::<int>::empty().push(1int) =~= ones(1));
            lemma_size_step(header as int, Seq::empty(), Seq::empty(), header as int, c as int, 1);
            assert(HeapObject::NativeFunction(*self).fits(caps));
        }
        n
    }
}

/// The native clock function of the standard library.
pub struct ClockTime;

impl ClockTime {
    pub fn new() -> (c: Self)
        ensures
            c == (ClockTime {}),
    {
        ClockTime {  }
    }
}

} // verus!
