use vstd::prelude::*;

use crate::objects::object::{lemma_one_buffer, ones, with_buffer, HeapObject};
use crate::objects::object_closure::ObjectClosure;
use crate::objects::object_function::ObjectFunction;
use crate::objects::object_native_function::ObjectNativeFunction;
use crate::objects::object_string::ObjectString;
use crate::objects::object_struct::{ObjectStructInstance, ObjectStructType};
use crate::objects::object_trait::ObjectTrait;
use crate::objects::object_upvalue::{ObjectUpvalue, UpvalueLocation};
use crate::value::{ObjRef, Value};

verus! {

/// `after` is the struct instance `before` with field `slot` set to `value`.
pub open spec fn instance_updated(
    before: Option<HeapObject>,
    after: Option<HeapObject>,
    slot: int,
    value: Value,
) -> bool {
    match (before, after) {
        (Some(HeapObject::StructInstance(i)), Some(HeapObject::StructInstance(j))) => {
            &&& j.fields@ == i.fields@.update(slot, value)
            &&& j.struct_type == i.struct_type
            &&& j.object == i.object
        },
        _ => false,
    }
}

/// `after` is the upvalue `before` with the given location and closed-over value.
pub open spec fn upvalue_updated(
    before: Option<HeapObject>,
    after: Option<HeapObject>,
    location: UpvalueLocation,
    closed: Value,
) -> bool {
    match (before, after) {
        (Some(HeapObject::Upvalue(u)), Some(HeapObject::Upvalue(w))) => {
            &&& w.location == location
            &&& w.closed == closed
            &&& w.object == u.object
        },
        _ => false,
    }
}

/// Owns every heap object. Each object sits in a slot of the heap; its handle is the slot's
/// index. The registry lists the objects that the collector manages.
pub struct ObjectManager {
    heap: Vec<Option<HeapObject>>,
    objects: Vec<ObjRef>,
    pending_bytes: usize,
}

impl ObjectManager {
    /// The object in slot `r`, if the slot holds one.
    pub closed spec fn slot(&self, r: ObjRef) -> Option<HeapObject> {
        if (r as int) < self.heap@.len() {
            self.heap@[r as int]
        } else {
            None
        }
    }

    /// Number of slots handed out so far; the next object gets this handle.
    pub closed spec fn heap_len(&self) -> nat {
        self.heap@.len()
    }

    /// The registry, in order.
    pub closed spec fn spec_objects(&self) -> Seq<ObjRef> {
        self.objects@
    }

    /// The managed objects.
    pub open spec fn managed(&self) -> Set<ObjRef> {
        self.spec_objects().to_set()
    }

    /// Bytes allocated since the last drain.
    pub closed spec fn spec_pending_bytes(&self) -> nat {
        self.pending_bytes as nat
    }

    /// The registry has no repeats and lists only occupied slots.
    pub closed spec fn wf(&self) -> bool {
        &&& forall|i: int, j: int|
            0 <= i < self.objects@.len() && 0 <= j < self.objects@.len() && i != j
                ==> self.objects@[i] != self.objects@[j]
        &&& forall|i: int|
            0 <= i < self.objects@.len() ==> (#[trigger] self.objects@[i] as int) < self.heap@.len()
                && self.heap@[self.objects@[i] as int] is Some
    }

    /// Every managed object is in its slot.
    pub proof fn lemma_managed_in_heap(&self, r: ObjRef)
        requires
            self.wf(),
            self.managed().contains(r),
        ensures
            self.slot(r) is Some,
            r < self.heap_len(),
    {
        let i = choose|i: int| 0 <= i < self.objects@.len() && self.objects@[i] == r;
        assert(self.objects@[i] == r);
    }

    /// The heap never has more slots than a `usize` counts.
    pub proof fn lemma_heap_len_bound(&self)
        ensures
            self.heap_len() <= usize::MAX,
    {
        assert(self.heap@.len() == self.heap.len());
    }

    /// Only slots below the heap's length hold objects.
    pub proof fn lemma_slot_in_heap(&self, r: ObjRef)
        requires
            self.slot(r) is Some,
        ensures
            r < self.heap_len(),
    {
    }

    pub fn new() -> (m: Self)
        ensures
            m.wf(),
            m.heap_len() == 0,
            m.spec_objects() == Seq::<ObjRef>::empty(),
            m.spec_pending_bytes() == 0,
    {
        Self { heap: Vec::new(), objects: Vec::new(), pending_bytes: 0 }
    }

    /// Gives the bytes allocated since the last call, and starts counting again from zero.
    pub fn drain_pending_bytes(&mut self) -> (b: usize)
        ensures
            b == old(self).spec_pending_bytes(),
            final(self).spec_pending_bytes() == 0,
            final(self).spec_objects() == old(self).spec_objects(),
            final(self).heap_len() == old(self).heap_len(),
            forall|r: ObjRef| final(self).slot(r) == old(self).slot(r),
            final(self).wf() == old(self).wf(),
    {
        let b = self.pending_bytes;
        self.pending_bytes = 0;
        b
    }

    /// Puts a new object in a fresh slot and registers it; gives its handle and its size, which
    /// is also added to the pending bytes.
    pub fn push_object(&mut self, obj: HeapObject) -> (r: (ObjRef, usize))
        requires
            old(self).wf(),
        ensures
            final(self).wf(),
            r.0 == old(self).heap_len(),
            final(self).heap_len() == old(self).heap_len() + 1,
            final(self).slot(r.0) == Some(obj),
            r.1 >= obj.least_size(),
            exists|caps: Seq<int>| obj.fits(caps) && r.1 == obj.size_with(caps),
            forall|q: ObjRef| q != r.0 ==> final(self).slot(q) == old(self).slot(q),
            final(self).spec_objects() == old(self).spec_objects().push(r.0),
            final(self).spec_pending_bytes() == (if old(self).spec_pending_bytes() + r.1
                <= usize::MAX {
                old(self).spec_pending_bytes() + r.1
            } else {
                usize::MAX as int
            }),
    {
        let size = obj.deep_size();
        self.pending_bytes = self.pending_bytes.saturating_add(size);
        let ghost before = *self;
        self.heap.push(Some(obj));
        let handle = self.heap.len() - 1;
        self.objects.push(handle);
        assert forall|i: int, j: int|
            0 <= i < self.objects@.len() && 0 <= j < self.objects@.len() && i
                != j implies self.objects@[i] != self.objects@[j] by {
            if i < before.objects@.len() && j < before.objects@.len() {
            } else if i < before.objects@.len() {
                assert(before.objects@[i] < before.heap@.len());
            } else {
                assert(before.objects@[j] < before.heap@.len());
            }
        }
        assert forall|i: int| 0 <= i < self.objects@.len() implies (
        #[trigger] self.objects@[i] as int) < self.heap@.len() && self.heap@[self.objects@[i] as int] is Some by {
            if i < before.objects@.len() {
                assert(before.objects@[i] < before.heap@.len());
            }
        }
        (handle, size)
    }

    pub fn alloc_string(&mut self, value: &str) -> (r: (ObjRef, usize))
        requires
            old(self).wf(),
        ensures
            final(self).wf(),
            r.0 == old(self).heap_len(),
            final(self).heap_len() == old(self).heap_len() + 1,
            final(self).slot(r.0) matches Some(HeapObject::String(s)) && s.content@ == value@,
            exists|c: int|
                value@.len() <= c <= usize::MAX && r.1 == #[trigger] with_buffer(
                    core::mem::size_of::<ObjectString>() as int,
                    c,
                ),
            forall|q: ObjRef| q != r.0 ==> final(self).slot(q) == old(self).slot(q),
            final(self).spec_objects() == old(self).spec_objects().push(r.0),
            r.1 >= final(self).slot(r.0)->Some_0.least_size(),
            exists|caps: Seq<int>|
                final(self).slot(r.0)->Some_0.fits(caps) && r.1 == final(self).slot(
                    r.0,
                )->Some_0.size_with(caps),
            final(self).spec_pending_bytes() == crate::objects::object::capped(
                old(self).spec_pending_bytes() + r.1,
            ),
    {
        let obj = HeapObject::String(ObjectString::new(value));
        let r = self.push_object(obj);
        proof {
            let caps = choose|caps: Seq<int>| obj.fits(caps) && r.1 == obj.size_with(caps);
            lemma_one_buffer(caps, ones(1));
            assert(obj.fits(caps));
            assert(caps[0] >= value@.len());
            assert(r.1 == with_buffer(core::mem::size_of::<ObjectString>() as int, caps[0]));
        }
        r
    }

    pub fn alloc_function(&mut self, arity: usize, name: String) -> (r: (ObjRef, usize))
        requires
            old(self).wf(),
        ensures
            final(self).wf(),
            r.0 == old(self).heap_len(),
            final(self).heap_len() == old(self).heap_len() + 1,
            final(self).slot(r.0) matches Some(HeapObject::Function(f)) && f.name@ == name@
                && f.arity == arity as u8 && f.upvalue_count == 0 && f.chunk.wf()
                && f.chunk.spec_code().len() == 0 && f.chunk.spec_constants().len() == 0,
            forall|q: ObjRef| q != r.0 ==> final(self).slot(q) == old(self).slot(q),
            final(self).spec_objects() == old(self).spec_objects().push(r.0),
            r.1 >= final(self).slot(r.0)->Some_0.least_size(),
            exists|caps: Seq<int>|
                final(self).slot(r.0)->Some_0.fits(caps) && r.1 == final(self).slot(
                    r.0,
                )->Some_0.size_with(caps),
            final(self).spec_pending_bytes() == crate::objects::object::capped(
                old(self).spec_pending_bytes() + r.1,
            ),
    {
        let obj = HeapObject::Function(ObjectFunction::new(#[verifier::truncate] (arity as u8), name));
        self.push_object(obj)
    }

    pub fn alloc_closure(&mut self, function: ObjRef) -> (r: (ObjRef, usize))
        requires
            old(self).wf(),
        ensures
            final(self).wf(),
            r.0 == old(self).heap_len(),
            final(self).heap_len() == old(self).heap_len() + 1,
            final(self).slot(r.0) matches Some(HeapObject::Closure(c)) && c.function == function
                && c.upvalues@.len() == 0,
            forall|q: ObjRef| q != r.0 ==> final(self).slot(q) == old(self).slot(q),
            final(self).spec_objects() == old(self).spec_objects().push(r.0),
            r.1 >= final(self).slot(r.0)->Some_0.least_size(),
            exists|caps: Seq<int>|
                final(self).slot(r.0)->Some_0.fits(caps) && r.1 == final(self).slot(
                    r.0,
                )->Some_0.size_with(caps),
            final(self).spec_pending_bytes() == crate::objects::object::capped(
                old(self).spec_pending_bytes() + r.1,
            ),
    {
        let obj = HeapObject::Closure(ObjectClosure::new(function));
        self.push_object(obj)
    }

    pub fn alloc_native_function(&mut self, name: String, arity: usize, native_id: usize) -> (r: (
        ObjRef,
        usize,
    ))
        requires
            old(self).wf(),
        ensures
            final(self).wf(),
            r.0 == old(self).heap_len(),
            final(self).heap_len() == old(self).heap_len() + 1,
            final(self).slot(r.0) matches Some(HeapObject::NativeFunction(f)) && f.name@ == name@
                && f.arity == arity as u8 && f.native_id == native_id,
            forall|q: ObjRef| q != r.0 ==> final(self).slot(q) == old(self).slot(q),
            final(self).spec_objects() == old(self).spec_objects().push(r.0),
            r.1 >= final(self).slot(r.0)->Some_0.least_size(),
            exists|caps: Seq<int>|
                final(self).slot(r.0)->Some_0.fits(caps) && r.1 == final(self).slot(
                    r.0,
                )->Some_0.size_with(caps),
            final(self).spec_pending_bytes() == crate::objects::object::capped(
                old(self).spec_pending_bytes() + r.1,
            ),
    {
        let obj = HeapObject::NativeFunction(
            ObjectNativeFunction::new(name, #[verifier::truncate] (arity as u8), native_id),
        );
        self.push_object(obj)
    }

    pub fn alloc_upvalue(&mut self, location: usize) -> (r: (ObjRef, usize))
        requires
            old(self).wf(),
        ensures
            final(self).wf(),
            r.0 == old(self).heap_len(),
            final(self).heap_len() == old(self).heap_len() + 1,
            final(self).slot(r.0) == Some(HeapObject::Upvalue(ObjectUpvalue::spec_new(location))),
            forall|q: ObjRef| q != r.0 ==> final(self).slot(q) == old(self).slot(q),
            final(self).spec_objects() == old(self).spec_objects().push(r.0),
            r.1 >= final(self).slot(r.0)->Some_0.least_size(),
            exists|caps: Seq<int>|
                final(self).slot(r.0)->Some_0.fits(caps) && r.1 == final(self).slot(
                    r.0,
                )->Some_0.size_with(caps),
            final(self).spec_pending_bytes() == crate::objects::object::capped(
                old(self).spec_pending_bytes() + r.1,
            ),
    {
        let obj = HeapObject::Upvalue(ObjectUpvalue::new(location));
        self.push_object(obj)
    }

    pub fn alloc_trait(&mut self, name: String) -> (r: (ObjRef, usize))
        requires
            old(self).wf(),
        ensures
            final(self).wf(),
            r.0 == old(self).heap_len(),
            final(self).heap_len() == old(self).heap_len() + 1,
            final(self).slot(r.0) matches Some(HeapObject::Trait(t)) && t.name@ == name@
                && t.method_names@.len() == 0,
            exists|c: int|
                name@.len() <= c <= usize::MAX && r.1 == #[trigger] with_buffer(
                    core::mem::size_of::<ObjectTrait>() as int,
                    c,
                ),
            forall|q: ObjRef| q != r.0 ==> final(self).slot(q) == old(self).slot(q),
            final(self).spec_objects() == old(self).spec_objects().push(r.0),
            r.1 >= final(self).slot(r.0)->Some_0.least_size(),
            exists|caps: Seq<int>|
                final(self).slot(r.0)->Some_0.fits(caps) && r.1 == final(self).slot(
                    r.0,
                )->Some_0.size_with(caps),
            final(self).spec_pending_bytes() == crate::objects::object::capped(
                old(self).spec_pending_bytes() + r.1,
            ),
    {
        let obj = HeapObject::Trait(ObjectTrait::new(name));
        let r = self.push_object(obj);
        proof {
            let caps = choose|caps: Seq<int>| obj.fits(caps) && r.1 == obj.size_with(caps);
            assert(obj.buffer_lengths().len() == 1);
            assert(obj.element_sizes() == ones(1));
            lemma_one_buffer(caps, ones(1));
            assert(caps[0] >= name@.len());
            assert(r.1 == with_buffer(core::mem::size_of::<ObjectTrait>() as int, caps[0]));
        }
        r
    }

    pub fn alloc_struct_type(&mut self, name: String) -> (r: (ObjRef, usize))
        requires
            old(self).wf(),
        ensures
            final(self).wf(),
            r.0 == old(self).heap_len(),
            final(self).heap_len() == old(self).heap_len() + 1,
            final(self).slot(r.0) matches Some(HeapObject::StructType(t)) && t.name@ == name@
                && t.field_names@.len() == 0 && t.field_index.wf() && t.field_index@.dom().len()
                == 0,
            forall|q: ObjRef| q != r.0 ==> final(self).slot(q) == old(self).slot(q),
            final(self).spec_objects() == old(self).spec_objects().push(r.0),
            r.1 >= final(self).slot(r.0)->Some_0.least_size(),
            exists|caps: Seq<int>|
                final(self).slot(r.0)->Some_0.fits(caps) && r.1 == final(self).slot(
                    r.0,
                )->Some_0.size_with(caps),
            final(self).spec_pending_bytes() == crate::objects::object::capped(
                old(self).spec_pending_bytes() + r.1,
            ),
    {
        let obj = HeapObject::StructType(ObjectStructType::new(name));
        self.push_object(obj)
    }

    pub fn alloc_struct_instance(&mut self, struct_type: ObjRef, field_count: usize) -> (r: (
        ObjRef,
        usize,
    ))
        requires
            old(self).wf(),
        ensures
            final(self).wf(),
            r.0 == old(self).heap_len(),
            final(self).heap_len() == old(self).heap_len() + 1,
            final(self).slot(r.0) matches Some(HeapObject::StructInstance(s)) && s.struct_type
                == struct_type && s.fields@ == Seq::new(
                field_count as nat,
                |i: int| crate::value::Value::Nil,
            ),
            forall|q: ObjRef| q != r.0 ==> final(self).slot(q) == old(self).slot(q),
            final(self).spec_objects() == old(self).spec_objects().push(r.0),
            r.1 >= final(self).slot(r.0)->Some_0.least_size(),
            exists|caps: Seq<int>|
                final(self).slot(r.0)->Some_0.fits(caps) && r.1 == final(self).slot(
                    r.0,
                )->Some_0.size_with(caps),
            final(self).spec_pending_bytes() == crate::objects::object::capped(
                old(self).spec_pending_bytes() + r.1,
            ),
    {
        let obj = HeapObject::StructInstance(ObjectStructInstance::new(struct_type, field_count));
        self.push_object(obj)
    }

    /// Number of slots handed out so far.
    pub fn slots(&self) -> (n: usize)
        ensures
            n == self.heap_len(),
    {
        self.heap.len()
    }

    /// The managed objects, in registry order.
    pub fn iter(&self) -> (r: &[ObjRef])
        ensures
            r@ == self.spec_objects(),
    {
        self.objects.as_slice()
    }

    /// The object with handle `r`, if its slot holds one.
    pub fn get(&self, r: ObjRef) -> (o: Option<&HeapObject>)
        ensures
            o matches Some(x) ==> self.slot(r) == Some(*x),
            o is None ==> self.slot(r) is None,
    {
        if r < self.heap.len() {
            match &self.heap[r] {
                Some(x) => Some(x),
                None => None,
            }
        } else {
            None
        }
    }

    /// Sets field `slot` of the struct instance `r`; does nothing, and gives false, when `r`
    /// is no instance or has no such field.
    pub fn set_instance_field(&mut self, r: ObjRef, slot: usize, value: Value) -> (done: bool)
        requires
            old(self).wf(),
        ensures
            final(self).wf(),
            final(self).heap_len() == old(self).heap_len(),
            final(self).spec_objects() == old(self).spec_objects(),
            final(self).spec_pending_bytes() == old(self).spec_pending_bytes(),
            forall|q: ObjRef| q != r ==> #[trigger] final(self).slot(q) == old(self).slot(q),
            done == (old(self).slot(r) matches Some(HeapObject::StructInstance(i)) && slot
                < i.fields@.len()),
            done ==> instance_updated(old(self).slot(r), final(self).slot(r), slot as int, value),
            !done ==> final(self).slot(r) == old(self).slot(r),
    {
        if r >= self.heap.len() {
            return false;
        }
        let mut taken: Option<HeapObject> = None;
        std::mem::swap(&mut taken, &mut self.heap[r]);
        let ghost before = taken;
        let done = match taken {
            Some(HeapObject::StructInstance(ref mut instance)) => {
                if slot < instance.fields.len() {
                    instance.fields.set(slot, value);
                    true
                } else {
                    false
                }
            },
            _ => false,
        };
        std::mem::swap(&mut taken, &mut self.heap[r]);
        done
    }

    /// Sets where the upvalue `r` finds its variable and its closed-over value; does nothing,
    /// and gives false, when `r` is no upvalue.
    pub fn set_upvalue(&mut self, r: ObjRef, location: UpvalueLocation, closed: Value) -> (done:
        bool)
        requires
            old(self).wf(),
        ensures
            final(self).wf(),
            final(self).heap_len() == old(self).heap_len(),
            final(self).spec_objects() == old(self).spec_objects(),
            final(self).spec_pending_bytes() == old(self).spec_pending_bytes(),
            forall|q: ObjRef| q != r ==> #[trigger] final(self).slot(q) == old(self).slot(q),
            done == (old(self).slot(r) matches Some(HeapObject::Upvalue(_))),
            done ==> upvalue_updated(old(self).slot(r), final(self).slot(r), location, closed),
            !done ==> final(self).slot(r) == old(self).slot(r),
    {
        if r >= self.heap.len() {
            return false;
        }
        let mut taken: Option<HeapObject> = None;
        std::mem::swap(&mut taken, &mut self.heap[r]);
        let done = match taken {
            Some(HeapObject::Upvalue(ref mut upvalue)) => {
                upvalue.location = location;
                upvalue.closed = closed;
                true
            },
            _ => false,
        };
        std::mem::swap(&mut taken, &mut self.heap[r]);
        done
    }

    /// Sets the method names of the trait `r`; does nothing, and gives false, when `r` is no
    /// trait.
    pub fn set_trait_methods(&mut self, r: ObjRef, method_names: Vec<String>) -> (done: bool)
        requires
            old(self).wf(),
        ensures
            final(self).wf(),
            final(self).heap_len() == old(self).heap_len(),
            final(self).spec_objects() == old(self).spec_objects(),
            final(self).spec_pending_bytes() == old(self).spec_pending_bytes(),
            forall|q: ObjRef| q != r ==> #[trigger] final(self).slot(q) == old(self).slot(q),
            done == (old(self).slot(r) matches Some(HeapObject::Trait(_))),
            done ==> (final(self).slot(r) matches Some(HeapObject::Trait(t)) && t.method_names
                == method_names),
            done ==> (final(self).slot(r)->0->Trait_0.name == old(self).slot(r)->0->Trait_0.name),
            !done ==> final(self).slot(r) == old(self).slot(r),
    {
        if r >= self.heap.len() {
            return false;
        }
        let mut taken: Option<HeapObject> = None;
        std::mem::swap(&mut taken, &mut self.heap[r]);
        let done = match taken {
            Some(HeapObject::Trait(ref mut t)) => {
                t.method_names = method_names;
                true
            },
            _ => false,
        };
        std::mem::swap(&mut taken, &mut self.heap[r]);
        done
    }

    /// Takes `ptr` out of the registry, if it is there. The object stays in its slot.
    pub fn remove_object(&mut self, ptr: ObjRef)
        requires
            old(self).wf(),
        ensures
            final(self).wf(),
            final(self).managed() == old(self).managed().remove(ptr),
            final(self).heap_len() == old(self).heap_len(),
            forall|q: ObjRef| final(self).slot(q) == old(self).slot(q),
            final(self).spec_pending_bytes() == old(self).spec_pending_bytes(),
            !old(self).spec_objects().contains(ptr) ==> final(self).spec_objects() == old(self).spec_objects(),
            forall|i: int|
                0 <= i < old(self).spec_objects().len() && #[trigger] old(self).spec_objects()[i] == ptr
                    ==> final(self).spec_objects() == old(self).spec_objects().update(
                    i,
                    old(self).spec_objects().last(),
                ).drop_last(),
    {
        let mut i: usize = 0;
        while i < self.objects.len()
            invariant
                self.wf(),
                self.heap@ == old(self).heap@,
                self.objects@ == old(self).objects@,
                self.pending_bytes == old(self).pending_bytes,
                i <= self.objects@.len(),
                forall|j: int| 0 <= j < i ==> self.objects@[j] != ptr,
            decreases self.objects@.len() - i,
        {
            if self.objects[i] == ptr {
                let ghost before = *self;
                let ghost n = before.objects@.len();
                self.objects.swap_remove(i);
                assert forall|j: int| 0 <= j < self.objects@.len() implies #[trigger] self.objects@[j]
                    == (if j == i {
                    before.objects@[n - 1]
                } else {
                    before.objects@[j]
                }) by {}
                assert forall|a: int, b: int|
                    0 <= a < self.objects@.len() && 0 <= b < self.objects@.len() && a
                        != b implies self.objects@[a] != self.objects@[b] by {
                    let a0 = if a == i {
                        n - 1
                    } else {
                        a
                    };
                    let b0 = if b == i {
                        n - 1
                    } else {
                        b
                    };
                    assert(before.objects@[a0] != before.objects@[b0]);
                }
                assert forall|a: int| 0 <= a < self.objects@.len() implies (
                #[trigger] self.objects@[a] as int) < self.heap@.len() && self.heap@[self.objects@[a] as int] is Some by {
                    let a0 = if a == i {
                        n - 1
                    } else {
                        a
                    };
                    assert(before.objects@[a0] < before.heap@.len());
                }
                assert forall|q: ObjRef| #[trigger] self.managed().contains(q) == before.managed().remove(ptr).contains(q) by {
                    if self.managed().contains(q) {
                        let a = choose|a: int| 0 <= a < self.objects@.len() && self.objects@[a] == q;
                        let a0 = if a == i {
                            n - 1
                        } else {
                            a
                        };
                        assert(before.objects@[a0] == q);
                        assert(before.objects@[i as int] != before.objects@[a0]);
                    }
                    if before.managed().remove(ptr).contains(q) {
                        let a = choose|a: int| 0 <= a < before.objects@.len() && before.objects@[a] == q;
                        if a == n - 1 {
                            assert(self.objects@[i as int] == q);
                        } else {
                            assert(self.objects@[a] == q);
                        }
                    }
                }
                assert(self.managed() =~= before.managed().remove(ptr));
                assert forall|k: int|
                    0 <= k < before.objects@.len() && #[trigger] before.objects@[k] == ptr implies k == i by {
                    if k != i {
                        assert(before.objects@[k] != before.objects@[i as int]);
                    }
                }
                assert(self.objects@ =~= before.objects@.update(i as int, before.objects@.last()).drop_last());
                return ;
            }
            i = i + 1;
        }
        assert(self.managed() =~= self.managed().remove(ptr));
    }

    /// Registering an object and then removing it gives back the registry as it was: the
    /// object pushed last is found last, and removing it swaps nothing.
    pub proof fn lemma_push_then_remove(objects: Seq<ObjRef>, r: ObjRef)
        ensures
            objects.push(r).update(objects.len() as int, objects.push(r).last()).drop_last()
                == objects,
    {
        assert(objects.push(r).update(objects.len() as int, objects.push(r).last()).drop_last()
            =~= objects);
    }

    /// Releases the slot of an object that is no longer managed.
    pub fn free_object(&mut self, ptr: ObjRef)
        requires
            old(self).wf(),
            !old(self).managed().contains(ptr),
        ensures
            final(self).wf(),
            final(self).spec_objects() == old(self).spec_objects(),
            final(self).heap_len() == old(self).heap_len(),
            final(self).slot(ptr) is None,
            forall|q: ObjRef| q != ptr ==> final(self).slot(q) == old(self).slot(q),
            final(self).spec_pending_bytes() == old(self).spec_pending_bytes(),
    {
        if ptr < self.heap.len() {
            let ghost before = *self;
            self.heap.set(ptr, None);
            assert forall|i: int| 0 <= i < self.objects@.len() implies (
            #[trigger] self.objects@[i] as int) < self.heap@.len() && self.heap@[self.objects@[i] as int] is Some by {
                assert(before.objects@[i] < before.heap@.len());
                assert(before.managed().contains(before.objects@[i]));
            }
        }
    }

    /// Releases every managed object and empties the registry.
    pub fn free_all(&mut self)
        requires
            old(self).wf(),
        ensures
            final(self).wf(),
            final(self).spec_objects() == Seq::<ObjRef>::empty(),
            forall|q: ObjRef| #[trigger] old(self).managed().contains(q) ==> final(self).slot(q) is None,
            forall|q: ObjRef| !old(self).managed().contains(q) ==> #[trigger] final(self).slot(q) == old(self).slot(q),
    {
        let ghost before = *self;
        let mut i: usize = 0;
        while i < self.objects.len()
            invariant
                self.objects@ == before.objects@,
                self.heap@.len() == before.heap@.len(),
                before.wf(),
                i <= self.objects@.len(),
                forall|j: int| 0 <= j < i ==> self.slot(#[trigger] before.objects@[j]) is None,
                forall|q: ObjRef|
                    !before.objects@.take(i as int).contains(q) ==> #[trigger] self.slot(q)
                        == before.slot(q),
            decreases self.objects@.len() - i,
        {
            let ptr = self.objects[i];
            assert(before.objects@[i as int] < before.heap@.len());
            let ghost mid = *self;
            self.heap.set(ptr, None);
            assert forall|q: ObjRef|
                !before.objects@.take(i + 1).contains(q) implies #[trigger] self.slot(q)
                    == before.slot(q) by {
                assert(before.objects@.take(i + 1)[i as int] == ptr);
                if before.objects@.take(i as int).contains(q) {
                    let j = choose|j: int| 0 <= j < i && before.objects@.take(i as int)[j] == q;
                    assert(before.objects@.take(i + 1)[j] == q);
                }
                assert(q != ptr);
                assert(mid.slot(q) == before.slot(q));
            }
            assert forall|j: int| 0 <= j < i + 1 implies self.slot(#[trigger] before.objects@[j]) is None by {
                if j < i {
                    assert(mid.slot(before.objects@[j]) is None);
                }
            }
            i = i + 1;
        }
        assert(before.objects@.take(i as int) =~= before.objects@);
        let ghost mid2 = *self;
        self.objects.clear();
        assert forall|q: ObjRef| #[trigger] before.managed().contains(q) implies self.slot(q) is None by {
            let j = choose|j: int| 0 <= j < before.objects@.len() && before.objects@[j] == q;
        }
        assert forall|q: ObjRef| !before.managed().contains(q) implies #[trigger] self.slot(q) == before.slot(q) by {
            assert(!before.objects@.contains(q));
            assert(!before.objects@.take(i as int).contains(q));
            assert(self.heap@ == mid2.heap@);
            assert(mid2.slot(q) == before.slot(q));
        }
    }
}

} // verus!
