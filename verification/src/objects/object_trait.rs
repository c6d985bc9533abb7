use vstd::prelude::*;

use crate::objects::object::{
    add_buffer, buffer_bytes, capped, lemma_buffer_bytes_nonneg, lemma_size_step, ones,
    string_capacity, GcSize, HeapObject, Object, ObjectType,
};

verus! {

/// A trait: its name and the names of its methods.
pub struct ObjectTrait {
    pub object: Object,
    pub name: String,
    pub method_names: Vec<String>,
}

impl ObjectTrait {
    pub fn new(name: String) -> (t: Self)
        ensures
            t.object.obj_type == ObjectType::ObjTrait,
            t.name@ == name@,
            t.method_names@.len() == 0,
    {
        ObjectTrait { object: Object { obj_type: ObjectType::ObjTrait }, name, method_names: Vec::new() }
    }
}

impl GcSize for ObjectTrait {
    fn shallow_size(&self) -> (n: usize)
        ensures
            n == core::mem::size_of::<ObjectTrait>(),
    {
        core::mem::size_of::<ObjectTrait>()
    }

    fn deep_size(&self) -> (n: usize)
        ensures
            n >= core::mem::size_of::<ObjectTrait>(),
            exists|caps: Seq<int>|
                HeapObject::Trait(*self).fits(caps) && n == HeapObject::Trait(*self).size_with(caps),
    {
        let header = self.shallow_size();
        let c = string_capacity(&self.name);
        let mut total = add_buffer(header, c, 1);
        let ghost mut caps: Seq<int> = seq![c as int];
        proof {
            let e: Seq<int> = Seq::empty();
            lemma_size_step(header as int, e, e, header as int, c as int, 1);
            assert(e.push(c as int) =~= caps);
            assert(e.push(1int) =~= ones(1));
        }
        let mut i: usize = 0;
        while i < self.method_names.len()
            invariant
                i <= self.method_names@.len(),
                header == core::mem::size_of::<ObjectTrait>(),
                caps.len() == i + 1,
                forall|k: int| 0 <= k < caps.len() ==> 0 <= #[trigger] caps[k] <= usize::MAX,
                caps[0] >= self.name@.len(),
                forall|k: int|
                    1 <= k < caps.len() ==> #[trigger] caps[k] >= self.method_names@[k - 1]@.len(),
                total == capped(header + buffer_bytes(caps, ones((i + 1) as nat))),
            decreases self.method_names@.len() - i,
        {
            let ci = string_capacity(&self.method_names[i]);
            proof {
                lemma_size_step(header as int, caps, ones((i + 1) as nat), total as int, ci as int, 1);
                assert(ones((i + 1) as nat).push(1int) =~= ones((i + 2) as nat));
            }
            total = add_buffer(total, ci, 1);
            proof {
                caps = caps.push(ci as int);
            }
            i = i + 1;
        }
        proof {
            let obj = HeapObject::Trait(*self);
            lemma_buffer_bytes_nonneg(caps, ones((i + 1) as nat));
            assert forall|k: int| 0 <= k < caps.len() implies obj.buffer_lengths()[k] <= #[trigger] caps[k]
                <= usize::MAX by {
                if k >= 1 {
                    assert(obj.buffer_lengths()[k] == self.method_names@[k - 1]@.len());
                }
            }
            assert(obj.fits(caps));
        }
        total
    }
}

} // verus!
