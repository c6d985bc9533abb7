use vstd::prelude::*;

use crate::objects::object::{
    add_buffer, buffer_bytes, capped, lemma_buffer_bytes_nonneg, lemma_size_step, ones,
    string_capacity, vec_capacity, GcSize, HeapObject, Object, ObjectType,
};
use crate::table::Table;
use crate::value::{ObjRef, Value};

verus! {

/// A struct type: its name, its field names in slot order, and the slot of each name.
pub struct ObjectStructType {
    pub object: Object,
    pub name: String,
    pub field_names: Vec<String>,
    pub field_index: Table,
}

impl ObjectStructType {
    pub fn new(name: String) -> (t: Self)
        ensures
            t.object.obj_type == ObjectType::ObjStructType,
            t.name@ == name@,
            t.field_names@.len() == 0,
            t.field_index.wf(),
            t.field_index@ == Map::<Seq<char>, Value>::empty(),
    {
        ObjectStructType {
            object: Object { obj_type: ObjectType::ObjStructType },
            name,
            field_names: Vec::new(),
            field_index: Table::new(),
        }
    }
}

/// An instance of a struct type on the heap: one value per field slot.
pub struct ObjectStructInstance {
    pub object: Object,
    pub struct_type: ObjRef,
    pub fields: Vec<Value>,
}

impl ObjectStructInstance {
    /// An instance with `field_count` nil fields.
    pub fn new(struct_type: ObjRef, field_count: usize) -> (s: Self)
        ensures
            s.object.obj_type == ObjectType::ObjStructInstance,
            s.struct_type == struct_type,
            s.fields@ == Seq::new(field_count as nat, |i: int| Value::Nil),
    {
        let mut fields: Vec<Value> = Vec::new();
        let mut i: usize = 0;
        while i < field_count
            invariant
                i <= field_count,
                fields@ == Seq::new(i as nat, |j: int| Value::Nil),
            decreases field_count - i,
        {
            fields.push(Value::new());
            i = i + 1;
            assert(fields@ =~= Seq::new(i as nat, |j: int| Value::Nil));
        }
        ObjectStructInstance {
            object: Object { obj_type: ObjectType::ObjStructInstance },
            struct_type,
            fields,
        }
    }
}

impl GcSize for ObjectStructType {
    fn shallow_size(&self) -> (n: usize)
        ensures
            n == core::mem::size_of::<ObjectStructType>(),
    {
        core::mem::size_of::<ObjectStructType>()
    }

    fn deep_size(&self) -> (n: usize)
        ensures
            n >= core::mem::size_of::<ObjectStructType>(),
            exists|caps: Seq<int>|
                HeapObject::StructType(*self).fits(caps) && n == HeapObject::StructType(
                    *self,
                ).size_with(caps),
    {
        let header = self.shallow_size();
        let c = string_capacity(&self.name);
        let mut total = add_buffer(header, c, 1);
        let ghost mut caps: Seq<int> = seq![c as int];
        proof {
            let e: Seq<int> = Seq::empty();
            lemma_size_step(header as int, e, e, header as int, c as int, 1);
            assert(e.push(c as int) =~= caps);
            assert(e.push(1int) =~= ones(1));
        }
        let mut i: usize = 0;
        while i < self.field_names.len()
            invariant
                i <= self.field_names@.len(),
                header == core::mem::size_of::<ObjectStructType>(),
                caps.len() == i + 1,
                forall|k: int| 0 <= k < caps.len() ==> 0 <= #[trigger] caps[k] <= usize::MAX,
                caps[0] >= self.name@.len(),
                forall|k: int|
                    1 <= k < caps.len() ==> #[trigger] caps[k] >= self.field_names@[k - 1]@.len(),
                total == capped(header + buffer_bytes(caps, ones((i + 1) as nat))),
            decreases self.field_names@.len() - i,
        {
            let ci = string_capacity(&self.field_names[i]);
            proof {
                lemma_size_step(header as int, caps, ones((i + 1) as nat), total as int, ci as int, 1);
                assert(ones((i + 1) as nat).push(1int) =~= ones((i + 2) as nat));
            }
            total = add_buffer(total, ci, 1);
            proof {
                caps = caps.push(ci as int);
            }
            i = i + 1;
        }
        proof {
            let obj = HeapObject::StructType(*self);
            lemma_buffer_bytes_nonneg(caps, ones((i + 1) as nat));
            assert forall|k: int| 0 <= k < caps.len() implies obj.buffer_lengths()[k] <= #[trigger] caps[k]
                <= usize::MAX by {
                if k >= 1 {
                    assert(obj.buffer_lengths()[k] == self.field_names@[k - 1]@.len());
                }
            }
            assert(obj.fits(caps));
        }
        total
    }
}

impl GcSize for ObjectStructInstance {
    fn shallow_size(&self) -> (n: usize)
        ensures
            n == core::mem::size_of::<ObjectStructInstance>(),
    {
        core::mem::size_of::<ObjectStructInstance>()
    }

    fn deep_size(&self) -> (n: usize)
        ensures
            n >= core::mem::size_of::<ObjectStructInstance>(),
            exists|caps: Seq<int>|
                HeapObject::StructInstance(*self).fits(caps) && n == HeapObject::StructInstance(
                    *self,
                ).size_with(caps),
    {
        let header = self.shallow_size();
        let c = vec_capacity(&self.fields);
        let e = core::mem::size_of::<Value>();
        let n = add_buffer(header, c, e);
        proof {
            let caps = seq![c as int];
            let none: Seq<int> = Seq::empty();
            assert(none.push(c as int) =~= caps);
            assert(none.push(e as int) =~= seq![e as int]);
            lemma_size_step(header as int, none, none, header as int, c as int, e as int);
            assert(HeapObject::StructInstance(*self).fits(caps));
            assert(c * e >= 0) by (nonlinear_arith)
                requires
                    c >= 0,
                    e >= 0,
            ;
        }
        n
    }
}

} // verus!
