use vstd::prelude::*;

use crate::objects::object::{
    add_buffer, lemma_size_step, vec_capacity, GcSize, HeapObject, Object, ObjectType,
};
use crate::value::ObjRef;

verus! {

/// A closure: a function and the indices of its captured upvalues.
pub struct ObjectClosure {
    pub object: Object,
    pub function: ObjRef,
    pub upvalues: Vec<usize>,
}

impl ObjectClosure {
    pub fn new(function: ObjRef) -> (c: Self)
        ensures
            c.object.obj_type == ObjectType::ObjClosure,
            c.function == function,
            c.upvalues@ == Seq::<usize>::empty(),
    {
        ObjectClosure {
            object: Object { obj_type: ObjectType::ObjClosure },
            function,
            upvalues: Vec::new(),
        }
    }

    /// Adds the index of a captured upvalue.
    pub fn add_upvalue(&mut self, index: usize)
        ensures
            final(self).upvalues@ == old(self).upvalues@.push(index),
            final(self).function == old(self).function,
            final(self).object == old(self).object,
    {
        self.upvalues.push(index);
    }

    /// The indices of the captured upvalues.
    pub fn upvalues(&self) -> (r: &[usize])
        ensures
            r@ == self.upvalues@,
    {
        self.upvalues.as_slice()
    }
}

impl GcSize for ObjectClosure {
    fn shallow_size(&self) -> (n: usize)
        ensures
            n == core::mem::size_of::<ObjectClosure>(),
    {
        core::mem::size_of::<ObjectClosure>()
    }

    fn deep_size(&self) -> (n: usize)
        ensures
            n >= core::mem::size_of::<ObjectClosure>(),
            exists|caps: Seq<int>|
                HeapObject::Closure(*self).fits(caps) && n == HeapObject::Closure(*self).size_with(
                    caps,
                ),
    {
        let header = self.shallow_size();
        let c = vec_capacity(&self.upvalues);
        let e = core::mem::size_of::<usize>();
        let n = add_buffer(header, c, e);
        proof {
            let caps = seq![c as int];
            assert(Seq::<int>::empty().push(c as int) =~= caps);
            assert(Seq::<int>::empty().push(e as int) =~= seq![e as int]);
            lemma_size_step(header as int, Seq::empty(), Seq::empty(), header as int, c as int, e as int);
            assert(HeapObject::Closure(*self).fits(caps));
            assert(c * e >= 0) by (nonlinear_arith)
                requires
                    c >= 0,
                    e >= 0,
            ;
        }
        n
    }
}

} // verus!
