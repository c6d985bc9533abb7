use vstd::prelude::*;

use crate::objects::object_closure::ObjectClosure;
use crate::objects::object_function::ObjectFunction;
use crate::objects::object_native_function::ObjectNativeFunction;
use crate::objects::object_string::ObjectString;
use crate::objects::object_struct::{ObjectStructInstance, ObjectStructType};
use crate::objects::object_trait::ObjectTrait;
use crate::objects::object_upvalue::{ObjectUpvalue, UpvalueLocation};
use crate::chunk::Chunk;
use crate::value::{ObjRef, Value};

verus! {

/// The kinds of heap object.
#[derive(Debug, Clone, Copy, PartialEq, Eq, Structural)]
pub enum ObjectType {
    ObjString,
    ObjFunction,
    ObjNativeFunction,
    ObjClosure,
    ObjUpvalue,
    ObjTrait,
    ObjStructType,
    ObjStructInstance,
}

/// The header that every heap object starts with.
#[derive(Clone, Copy, PartialEq, Eq, Structural)]
pub struct Object {
    pub obj_type: ObjectType,
}

impl Object {
    /// Size of the header alone.
    pub fn shallow_size(&self) -> (n: usize)
        ensures
            n == core::mem::size_of::<Object>(),
    {
        core::mem::size_of::<Object>()
    }
}

/// Heap usage of garbage-collected structures.
pub trait GcSize {
    /// Bytes of the structure itself.
    fn shallow_size(&self) -> usize;

    /// Bytes including the buffers that it owns (not the other heap objects it refers to).
    fn deep_size(&self) -> usize;
}

/// The capacity of a vector, in elements.
///
/// Calls `Vec::capacity`; its documentation promises a capacity of at least the length, and
/// that is all the contract claims: the exact number is the allocator's.
#[verifier::external_body]
pub fn vec_capacity<T>(v: &Vec<T>) -> (c: usize)
    ensures
        c >= v@.len(),
{
    v.capacity()
}

/// `n`, or the largest `usize` when it is larger.
pub open spec fn capped(n: int) -> int {
    if n <= usize::MAX {
        n
    } else {
        usize::MAX as int
    }
}

/// The capacity of a string, in bytes.
///
/// Calls `String::capacity`; its documentation promises at least the length in bytes, which is
/// at least the number of characters, and that is all the contract claims.
#[verifier::external_body]
pub fn string_capacity(s: &String) -> (c: usize)
    ensures
        c >= s@.len(),
{
    s.capacity()
}

/// `a * b`, or the largest `usize` when that overflows.
pub fn sat_mul(a: usize, b: usize) -> (r: usize)
    ensures
        r == (if a * b <= usize::MAX {
            (a * b) as usize
        } else {
            usize::MAX
        }),
{
    match a.checked_mul(b) {
        Some(x) => x,
        None => usize::MAX,
    }
}

/// `total` plus the bytes of a buffer of `capacity` elements of `element` bytes each; each
/// step stops at the largest `usize`.
pub fn add_buffer(total: usize, capacity: usize, element: usize) -> (n: usize)
    ensures
        n == capped(total + capped(capacity * element)),
{
    total.saturating_add(sat_mul(capacity, element))
}

/// Bytes of buffers with capacities `caps`, whose elements take `elements` bytes each.
pub open spec fn buffer_bytes(caps: Seq<int>, elements: Seq<int>) -> int
    decreases caps.len(),
{
    if caps.len() == 0 || elements.len() == 0 {
        0
    } else {
        buffer_bytes(caps.drop_last(), elements.drop_last()) + caps.last() * elements.last()
    }
}

/// The bytes an element takes in a chunk's code, line table and constants.
pub open spec fn chunk_element_sizes() -> Seq<int> {
    seq![
        core::mem::size_of::<u8>() as int,
        core::mem::size_of::<usize>() as int,
        core::mem::size_of::<Value>() as int,
    ]
}

/// The bytes of a single buffer.
pub proof fn lemma_one_buffer(caps: Seq<int>, elements: Seq<int>)
    requires
        caps.len() == 1,
        elements.len() == 1,
    ensures
        buffer_bytes(caps, elements) == caps[0] * elements[0],
        elements[0] == 1 ==> buffer_bytes(caps, elements) == caps[0],
{
    assert(caps.drop_last().len() == 0);
    assert(buffer_bytes(caps.drop_last(), elements.drop_last()) == 0);
    let c = caps[0];
    let e = elements[0];
    assert(e == 1 ==> c * e == c) by (nonlinear_arith);
}

/// An object of `header` bytes with a buffer of `bytes` bytes, capped at the largest `usize`.
pub open spec fn with_buffer(header: int, bytes: int) -> int {
    capped(header + bytes)
}

/// A run of `n` ones: the element size of a byte buffer, `n` times.
pub open spec fn ones(n: nat) -> Seq<int> {
    Seq::new(n, |i: int| 1int)
}

/// Capping twice is capping once: for non-negative sizes, the capped sum of capped parts is
/// the capped sum.
pub proof fn lemma_capped_sum(x: int, y: int)
    requires
        x >= 0,
        y >= 0,
    ensures
        capped(capped(x) + capped(y)) == capped(x + y),
{
}

/// The bytes of one more buffer add to the bytes of the others.
pub proof fn lemma_buffer_push(caps: Seq<int>, elements: Seq<int>, c: int, e: int)
    requires
        caps.len() == elements.len(),
    ensures
        buffer_bytes(caps.push(c), elements.push(e)) == buffer_bytes(caps, elements) + c * e,
{
    assert(caps.push(c).drop_last() =~= caps);
    assert(elements.push(e).drop_last() =~= elements);
}

/// Buffers of non-negative capacities and element sizes take a non-negative number of bytes.
pub proof fn lemma_buffer_bytes_nonneg(caps: Seq<int>, elements: Seq<int>)
    requires
        forall|i: int| 0 <= i < caps.len() ==> caps[i] >= 0,
        forall|i: int| 0 <= i < elements.len() ==> elements[i] >= 0,
    ensures
        buffer_bytes(caps, elements) >= 0,
    decreases caps.len(),
{
    if caps.len() > 0 && elements.len() > 0 {
        lemma_buffer_bytes_nonneg(caps.drop_last(), elements.drop_last());
        let c = caps.last();
        let e = elements.last();
        assert(c * e >= 0) by (nonlinear_arith)
            requires
                c >= 0,
                e >= 0,
        ;
    }
}

/// One step of adding up an object's size: with `total` the capped size so far of buffers
/// `caps`, adding a buffer of `capacity` elements of `element` bytes gives the capped size
/// with it.
pub proof fn lemma_size_step(
    header: int,
    caps: Seq<int>,
    elements: Seq<int>,
    total: int,
    capacity: int,
    element: int,
)
    requires
        header >= 0,
        caps.len() == elements.len(),
        forall|i: int| 0 <= i < caps.len() ==> caps[i] >= 0,
        forall|i: int| 0 <= i < elements.len() ==> elements[i] >= 0,
        total == capped(header + buffer_bytes(caps, elements)),
        capacity >= 0,
        element >= 0,
    ensures
        capped(total + capped(capacity * element)) == capped(
            header + buffer_bytes(caps.push(capacity), elements.push(element)),
        ),
{
    lemma_buffer_bytes_nonneg(caps, elements);
    assert(capacity * element >= 0) by (nonlinear_arith)
        requires
            capacity >= 0,
            element >= 0,
    ;
    lemma_buffer_push(caps, elements, capacity, element);
    lemma_capped_sum(header + buffer_bytes(caps, elements), capacity * element);
    assert(capped(capacity * element) == capped(capped(capacity * element)));
}

/// A heap object of any kind.
pub enum HeapObject {
    String(ObjectString),
    Function(ObjectFunction),
    NativeFunction(ObjectNativeFunction),
    Closure(ObjectClosure),
    Upvalue(ObjectUpvalue),
    Trait(ObjectTrait),
    StructType(ObjectStructType),
    StructInstance(ObjectStructInstance),
}

/// The object that a value holds on to, if `v` refers to `r`.
pub open spec fn value_refers_to(v: Value, r: ObjRef) -> bool {
    v == Value::Object(r)
}

impl HeapObject {
    pub open spec fn spec_obj_type(&self) -> ObjectType {
        match self {
            HeapObject::String(_) => ObjectType::ObjString,
            HeapObject::Function(_) => ObjectType::ObjFunction,
            HeapObject::NativeFunction(_) => ObjectType::ObjNativeFunction,
            HeapObject::Closure(_) => ObjectType::ObjClosure,
            HeapObject::Upvalue(_) => ObjectType::ObjUpvalue,
            HeapObject::Trait(_) => ObjectType::ObjTrait,
            HeapObject::StructType(_) => ObjectType::ObjStructType,
            HeapObject::StructInstance(_) => ObjectType::ObjStructInstance,
        }
    }

    /// The kind of the object.
    pub fn obj_type(&self) -> (t: ObjectType)
        ensures
            t == self.spec_obj_type(),
    {
        match self {
            HeapObject::String(_) => ObjectType::ObjString,
            HeapObject::Function(_) => ObjectType::ObjFunction,
            HeapObject::NativeFunction(_) => ObjectType::ObjNativeFunction,
            HeapObject::Closure(_) => ObjectType::ObjClosure,
            HeapObject::Upvalue(_) => ObjectType::ObjUpvalue,
            HeapObject::Trait(_) => ObjectType::ObjTrait,
            HeapObject::StructType(_) => ObjectType::ObjStructType,
            HeapObject::StructInstance(_) => ObjectType::ObjStructInstance,
        }
    }

    /// Whether the object holds a reference to heap object `r` that keeps it alive. An upvalue
    /// reads its value from `stack` while it is open.
    pub open spec fn refers_to(&self, stack: Seq<Value>, r: ObjRef) -> bool {
        match self {
            HeapObject::Function(f) => exists|i: int|
                0 <= i < f.chunk.spec_constants().len() && value_refers_to(
                    #[trigger] f.chunk.spec_constants()[i],
                    r,
                ),
            HeapObject::Closure(c) => c.function == r,
            HeapObject::Upvalue(u) => value_refers_to(u.spec_value(stack), r),
            HeapObject::StructInstance(s) => s.struct_type == r || exists|i: int|
                0 <= i < s.fields@.len() && value_refers_to(#[trigger] s.fields@[i], r),
            _ => false,
        }
    }

    /// The bytes of the object's own structure (with the chunk of a function).
    pub open spec fn header_bytes(&self) -> int {
        match self {
            HeapObject::String(_) => core::mem::size_of::<ObjectString>() as int,
            HeapObject::Function(_) => core::mem::size_of::<ObjectFunction>()
                + core::mem::size_of::<Chunk>(),
            HeapObject::NativeFunction(_) => core::mem::size_of::<ObjectNativeFunction>() as int,
            HeapObject::Closure(_) => core::mem::size_of::<ObjectClosure>() as int,
            HeapObject::Upvalue(_) => core::mem::size_of::<ObjectUpvalue>() as int,
            HeapObject::Trait(_) => core::mem::size_of::<ObjectTrait>() as int,
            HeapObject::StructType(_) => core::mem::size_of::<ObjectStructType>() as int,
            HeapObject::StructInstance(_) => core::mem::size_of::<ObjectStructInstance>() as int,
        }
    }

    /// The lengths of the buffers the object owns, in the order their sizes are added up.
    pub open spec fn buffer_lengths(&self) -> Seq<int> {
        match self {
            HeapObject::String(s) => seq![s.content@.len() as int],
            HeapObject::Function(f) => seq![
                f.chunk.spec_code().len() as int,
                f.chunk.spec_lines().len() as int,
                f.chunk.spec_constants().len() as int,
                f.name@.len() as int,
            ],
            HeapObject::NativeFunction(f) => seq![f.name@.len() as int],
            HeapObject::Closure(c) => seq![c.upvalues@.len() as int],
            HeapObject::Upvalue(_) => Seq::empty(),
            HeapObject::Trait(t) => seq![t.name@.len() as int] + t.method_names@.map_values(
                |n: String| n@.len() as int,
            ),
            HeapObject::StructType(t) => seq![t.name@.len() as int] + t.field_names@.map_values(
                |n: String| n@.len() as int,
            ),
            HeapObject::StructInstance(s) => seq![s.fields@.len() as int],
        }
    }

    /// The bytes an element takes in each buffer of `buffer_lengths`.
    pub open spec fn element_sizes(&self) -> Seq<int> {
        match self {
            HeapObject::String(_) => ones(1),
            HeapObject::Function(_) => chunk_element_sizes().push(1int),
            HeapObject::NativeFunction(_) => ones(1),
            HeapObject::Closure(_) => seq![core::mem::size_of::<usize>() as int],
            HeapObject::Upvalue(_) => Seq::empty(),
            HeapObject::Trait(t) => ones(t.method_names@.len() + 1),
            HeapObject::StructType(t) => ones(t.field_names@.len() + 1),
            HeapObject::StructInstance(_) => seq![core::mem::size_of::<Value>() as int],
        }
    }

    /// `caps` can be the capacities of the object's buffers: one for each, at least its
    /// length and at most the largest `usize`.
    pub open spec fn fits(&self, caps: Seq<int>) -> bool {
        &&& caps.len() == self.buffer_lengths().len()
        &&& forall|i: int|
            0 <= i < caps.len() ==> self.buffer_lengths()[i] <= #[trigger] caps[i] <= usize::MAX
    }

    /// The size of the object when its buffers have capacities `caps`: its own bytes and
    /// those of the buffers, capped at the largest `usize`.
    pub open spec fn size_with(&self, caps: Seq<int>) -> int {
        capped(self.header_bytes() + buffer_bytes(caps, self.element_sizes()))
    }

    /// The least size `deep_size` can give for the object: its own size, and for a string
    /// one byte more for each character.
    pub open spec fn least_size(&self) -> int {
        match self {
            HeapObject::String(s) => capped(core::mem::size_of::<ObjectString>() + s.content@.len()),
            HeapObject::Function(_) => core::mem::size_of::<ObjectFunction>() as int,
            HeapObject::NativeFunction(_) => core::mem::size_of::<ObjectNativeFunction>() as int,
            HeapObject::Closure(_) => core::mem::size_of::<ObjectClosure>() as int,
            HeapObject::Upvalue(_) => core::mem::size_of::<ObjectUpvalue>() as int,
            HeapObject::Trait(_) => core::mem::size_of::<ObjectTrait>() as int,
            HeapObject::StructType(_) => core::mem::size_of::<ObjectStructType>() as int,
            HeapObject::StructInstance(_) => core::mem::size_of::<ObjectStructInstance>() as int,
        }
    }

    /// The size of the object with the buffers that it owns.
    pub fn deep_size(&self) -> (n: usize)
        ensures
            n >= self.least_size(),
            n >= match self {
                HeapObject::String(_) => core::mem::size_of::<ObjectString>(),
                HeapObject::Function(_) => core::mem::size_of::<ObjectFunction>(),
                HeapObject::NativeFunction(_) => core::mem::size_of::<ObjectNativeFunction>(),
                HeapObject::Closure(_) => core::mem::size_of::<ObjectClosure>(),
                HeapObject::Upvalue(_) => core::mem::size_of::<ObjectUpvalue>(),
                HeapObject::Trait(_) => core::mem::size_of::<ObjectTrait>(),
                HeapObject::StructType(_) => core::mem::size_of::<ObjectStructType>(),
                HeapObject::StructInstance(_) => core::mem::size_of::<ObjectStructInstance>(),
            },
            exists|caps: Seq<int>| self.fits(caps) && n == self.size_with(caps),
    {
        match self {
            HeapObject::String(x) => x.deep_size(),
            HeapObject::Function(x) => x.deep_size(),
            HeapObject::NativeFunction(x) => x.deep_size(),
            HeapObject::Closure(x) => x.deep_size(),
            HeapObject::Upvalue(x) => x.deep_size(),
            HeapObject::Trait(x) => x.deep_size(),
            HeapObject::StructType(x) => x.deep_size(),
            HeapObject::StructInstance(x) => x.deep_size(),
        }
    }

    pub fn as_string(&self) -> (r: Option<&ObjectString>)
        ensures
            r is Some == (self.spec_obj_type() == ObjectType::ObjString),
            r matches Some(x) ==> *self == HeapObject::String(*x),
    {
        match self {
            HeapObject::String(x) => Some(x),
            _ => None,
        }
    }

    pub fn as_function(&self) -> (r: Option<&ObjectFunction>)
        ensures
            r is Some == (self.spec_obj_type() == ObjectType::ObjFunction),
            r matches Some(x) ==> *self == HeapObject::Function(*x),
    {
        match self {
            HeapObject::Function(x) => Some(x),
            _ => None,
        }
    }

    pub fn as_native_function(&self) -> (r: Option<&ObjectNativeFunction>)
        ensures
            r is Some == (self.spec_obj_type() == ObjectType::ObjNativeFunction),
            r matches Some(x) ==> *self == HeapObject::NativeFunction(*x),
    {
        match self {
            HeapObject::NativeFunction(x) => Some(x),
            _ => None,
        }
    }

    pub fn as_closure(&self) -> (r: Option<&ObjectClosure>)
        ensures
            r is Some == (self.spec_obj_type() == ObjectType::ObjClosure),
            r matches Some(x) ==> *self == HeapObject::Closure(*x),
    {
        match self {
            HeapObject::Closure(x) => Some(x),
            _ => None,
        }
    }

    pub fn as_upvalue(&self) -> (r: Option<&ObjectUpvalue>)
        ensures
            r is Some == (self.spec_obj_type() == ObjectType::ObjUpvalue),
            r matches Some(x) ==> *self == HeapObject::Upvalue(*x),
    {
        match self {
            HeapObject::Upvalue(x) => Some(x),
            _ => None,
        }
    }

    pub fn as_trait(&self) -> (r: Option<&ObjectTrait>)
        ensures
            r is Some == (self.spec_obj_type() == ObjectType::ObjTrait),
            r matches Some(x) ==> *self == HeapObject::Trait(*x),
    {
        match self {
            HeapObject::Trait(x) => Some(x),
            _ => None,
        }
    }

    pub fn as_struct_type(&self) -> (r: Option<&ObjectStructType>)
        ensures
            r is Some == (self.spec_obj_type() == ObjectType::ObjStructType),
            r matches Some(x) ==> *self == HeapObject::StructType(*x),
    {
        match self {
            HeapObject::StructType(x) => Some(x),
            _ => None,
        }
    }

    pub fn as_struct_instance(&self) -> (r: Option<&ObjectStructInstance>)
        ensures
            r is Some == (self.spec_obj_type() == ObjectType::ObjStructInstance),
            r matches Some(x) ==> *self == HeapObject::StructInstance(*x),
    {
        match self {
            HeapObject::StructInstance(x) => Some(x),
            _ => None,
        }
    }
}

} // verus!
