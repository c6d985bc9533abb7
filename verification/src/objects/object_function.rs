use vstd::prelude::*;

use crate::chunk::Chunk;
use crate::objects::object::{
    add_buffer, buffer_bytes, capped, chunk_element_sizes, lemma_buffer_bytes_nonneg,
    lemma_buffer_push, lemma_capped_sum, string_capacity, GcSize, HeapObject, Object, ObjectType,
};

verus! {

/// A compiled function.
pub struct ObjectFunction {
    pub object: Object,
    pub arity: u8,
    pub chunk: Box<Chunk>,
    pub name: String,
    pub upvalue_count: usize,
}

impl ObjectFunction {
    /// A function with an empty chunk and no upvalues.
    pub fn new(arity: u8, name: String) -> (f: Self)
        ensures
            f.object.obj_type == ObjectType::ObjFunction,
            f.arity == arity,
            f.name@ == name@,
            f.upvalue_count == 0,
            f.chunk.wf(),
            f.chunk.spec_code() == Seq::<u8>::empty(),
            f.chunk.spec_constants() == Seq::<crate::value::Value>::empty(),
    {
        ObjectFunction {
            object: Object { obj_type: ObjectType::ObjFunction },
            arity,
            chunk: Box::new(Chunk::new()),
            name,
            upvalue_count: 0,
        }
    }

    pub fn chunk(&self) -> (c: &Box<Chunk>)
        ensures
            *c == self.chunk,
    {
        &self.chunk
    }
}

impl GcSize for ObjectFunction {
    fn shallow_size(&self) -> (n: usize)
        ensures
            n == core::mem::size_of::<ObjectFunction>(),
    {
        core::mem::size_of::<ObjectFunction>()
    }

    fn deep_size(&self) -> (n: usize)
        ensures
            n >= core::mem::size_of::<ObjectFunction>(),
            exists|caps: Seq<int>|
                HeapObject::Function(*self).fits(caps) && n == HeapObject::Function(*self).size_with(
                    caps,
                ),
    {
        let name_bytes = string_capacity(&self.name);
        let chunk_bytes = self.chunk.deep_size();
        let header = self.shallow_size();
        let n = add_buffer(header, name_bytes, 1).saturating_add(chunk_bytes);
        proof {
            let cc = choose|caps: Seq<int>|
                #![trigger buffer_bytes(caps, chunk_element_sizes())]
                caps.len() == 3 && self.chunk.spec_code().len() <= caps[0] <= usize::MAX
                    && self.chunk.spec_lines().len() <= caps[1] <= usize::MAX
                    && self.chunk.spec_constants().len() <= caps[2] <= usize::MAX && chunk_bytes
                    == capped(core::mem::size_of::<Chunk>() + buffer_bytes(caps, chunk_element_sizes()));
            let hc = core::mem::size_of::<Chunk>() as int;
            let bc = buffer_bytes(cc, chunk_element_sizes());
            lemma_buffer_bytes_nonneg(cc, chunk_element_sizes());
            lemma_buffer_push(cc, chunk_element_sizes(), name_bytes as int, 1);
            lemma_capped_sum(header + name_bytes, hc + bc);
            let caps = cc.push(name_bytes as int);
            let obj = HeapObject::Function(*self);
            assert(obj.element_sizes() == chunk_element_sizes().push(1int));
            assert(obj.buffer_lengths().len() == 4);
            assert forall|i: int| 0 <= i < caps.len() implies obj.buffer_lengths()[i] <= #[trigger] caps[i]
                <= usize::MAX by {
                if i < 3 {
                    assert(caps[i] == cc[i]);
                }
            }
            assert(n == obj.size_with(caps));
        }
        n
    }
}

} // verus!
