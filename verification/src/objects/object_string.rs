use vstd::prelude::*;

use crate::objects::object::{
    add_buffer, lemma_size_step, ones, string_capacity, GcSize, HeapObject, Object, ObjectType,
};

verus! {

/// A string on the heap.
pub struct ObjectString {
    pub object: Object,
    pub content: String,
}

impl ObjectString {
    pub fn new(content: &str) -> (s: Self)
        ensures
            s.object.obj_type == ObjectType::ObjString,
            s.content@ == content@,
    {
        ObjectString { object: Object { obj_type: ObjectType::ObjString }, content: content.to_string() }
    }
}

impl PartialEq for ObjectString {
    /// Two strings are equal when their headers and their contents are.
    fn eq(&self, other: &Self) -> (r: bool) {
        self.object == other.object && self.content == other.content
    }
}

impl vstd::std_specs::cmp::PartialEqSpecImpl for ObjectString {
    open spec fn obeys_eq_spec() -> bool {
        true
    }

    open spec fn eq_spec(&self, other: &Self) -> bool {
        self.object == other.object && self.content@ == other.content@
    }
}

impl Eq for ObjectString {
}

impl GcSize for ObjectString {
    fn shallow_size(&self) -> (n: usize)
        ensures
            n == core::mem::size_of::<ObjectString>(),
    {
        core::mem::size_of::<ObjectString>()
    }

    fn deep_size(&self) -> (n: usize)
        ensures
            n >= core::mem::size_of::<ObjectString>(),
            n as int >= crate::objects::object::capped(
                core::mem::size_of::<ObjectString>() + self.content@.len(),
            ),
            exists|caps: Seq<int>|
                HeapObject::String(*self).fits(caps) && n == HeapObject::String(*self).size_with(caps),
    {
        let header = self.shallow_size();
        let c = string_capacity(&self.content);
        let n = add_buffer(header, c, 1);
        proof {
            let caps = seq![c as int];
            assert(Seq::<int>::empty().push(c as int) =~= caps);
            assert(Seq::<int>::empty().push(1int) =~= ones(1));
            lemma_size_step(header as int, Seq::empty(), Seq::empty(), header as int, c as int, 1);
            assert(HeapObject::String(*self).fits(caps));
        }
        n
    }
}

} // verus!
