use vstd::prelude::*;

use crate::chunk::Chunk;
use crate::objects::object::{HeapObject, Object, ObjectType};
use crate::objects::object_closure::ObjectClosure;
use crate::objects::object_function::ObjectFunction;
use crate::objects::object_upvalue::ObjectUpvalue;
use vstd::string::StringExecFns;
use crate::objects::object_manager::ObjectManager;
use crate::table::Table;

verus! {

/// A handle on a heap object: its slot in the object manager's heap.
pub type ObjRef = usize;

/// The kinds of value.
#[derive(Debug, Clone, Copy, PartialEq, Eq, Structural)]
pub enum ValueType {
    ValueBool,
    ValueNil,
    ValueNumber,
    ValueObject,
    /// A struct that lives in the frame that created it.
    ValueStackStruct,
}

/// A value of the language. A number is held as the bit pattern of its IEEE-754 double.
#[derive(Debug, Clone, Copy, PartialEq, Eq, Structural)]
pub enum Value {
    Bool(bool),
    Nil,
    Number(u64),
    Object(ObjRef),
    StackStruct(usize),
}

impl Value {
    /// The nil value.
    pub fn new() -> (v: Self)
        ensures
            v == Value::Nil,
    {
        Value::Nil
    }

    pub open spec fn spec_value_type(self) -> ValueType {
        match self {
            Value::Bool(_) => ValueType::ValueBool,
            Value::Nil => ValueType::ValueNil,
            Value::Number(_) => ValueType::ValueNumber,
            Value::Object(_) => ValueType::ValueObject,
            Value::StackStruct(_) => ValueType::ValueStackStruct,
        }
    }

    /// The kind of the value.
    pub fn value_type(&self) -> (t: ValueType)
        ensures
            t == self.spec_value_type(),
    {
        match self {
            Value::Bool(_) => ValueType::ValueBool,
            Value::Nil => ValueType::ValueNil,
            Value::Number(_) => ValueType::ValueNumber,
            Value::Object(_) => ValueType::ValueObject,
            Value::StackStruct(_) => ValueType::ValueStackStruct,
        }
    }

    /// The object a value refers to, if it refers to one.
    pub open spec fn object_ref(self) -> Option<ObjRef> {
        match self {
            Value::Object(r) => Some(r),
            _ => None,
        }
    }
}

pub fn is_bool(value: &Value) -> (b: bool)
    ensures
        b == (value.spec_value_type() == ValueType::ValueBool),
{
    value.value_type() == ValueType::ValueBool
}

pub fn is_nil(value: &Value) -> (b: bool)
    ensures
        b == (value.spec_value_type() == ValueType::ValueNil),
{
    value.value_type() == ValueType::ValueNil
}

pub fn is_number(value: &Value) -> (b: bool)
    ensures
        b == (value.spec_value_type() == ValueType::ValueNumber),
{
    value.value_type() == ValueType::ValueNumber
}

pub fn is_object(value: &Value) -> (b: bool)
    ensures
        b == (value.spec_value_type() == ValueType::ValueObject),
{
    value.value_type() == ValueType::ValueObject
}

pub fn is_stack_struct(value: &Value) -> (b: bool)
    ensures
        b == (value.spec_value_type() == ValueType::ValueStackStruct),
{
    value.value_type() == ValueType::ValueStackStruct
}

pub fn make_bool_value(value: bool) -> (v: Value)
    ensures
        v == Value::Bool(value),
{
    Value::Bool(value)
}

pub fn make_nil_value() -> (v: Value)
    ensures
        v == Value::Nil,
{
    Value::Nil
}

/// A number value, given the bit pattern of the double.
pub fn make_number_value(bits: u64) -> (v: Value)
    ensures
        v == Value::Number(bits),
{
    Value::Number(bits)
}

pub fn make_object_value(object: ObjRef) -> (v: Value)
    ensures
        v == Value::Object(object),
{
    Value::Object(object)
}

/// The object of an object value; it is only asked of an object value.
pub fn as_object(value: &Value) -> (r: ObjRef)
    requires
        value.spec_value_type() == ValueType::ValueObject,
    ensures
        value.object_ref() == Some(r),
{
    match value {
        Value::Object(r) => *r,
        _ => 0,
    }
}

pub fn as_bool(value: &Value) -> (b: bool)
    requires
        value.spec_value_type() == ValueType::ValueBool,
    ensures
        *value == Value::Bool(b),
{
    match value {
        Value::Bool(b) => *b,
        _ => false,
    }
}


/// Every name in `table` is the value of a string object of `manager` with that content.
pub open spec fn strings_interned(table: Table, manager: ObjectManager) -> bool {
    forall|k: Seq<char>|
        #[trigger] table@.dom().contains(k) ==> (table@[k] matches Value::Object(r) && manager.slot(
            r,
        ) matches Some(HeapObject::String(s)) && s.content@ == k)
}

/// The string value with content `str_value`: the interned one if there is one, else a new
/// string object, which is interned.
pub fn make_string_value(
    object_manager: &mut ObjectManager,
    intern_strings: &mut Table,
    str_value: &str,
) -> (v: Value)
    requires
        old(object_manager).wf(),
        old(intern_strings).wf(),
        strings_interned(*old(intern_strings), *old(object_manager)),
    ensures
        final(object_manager).wf(),
        final(intern_strings).wf(),
        strings_interned(*final(intern_strings), *final(object_manager)),
        final(intern_strings)@ == old(intern_strings)@.insert(str_value@, v),
        final(intern_strings)@[str_value@] == v,
        old(intern_strings)@.dom().contains(str_value@) ==> v == old(intern_strings)@[str_value@]
            && *final(object_manager) == *old(object_manager),
        !old(intern_strings)@.dom().contains(str_value@) ==> v == Value::Object(
            old(object_manager).heap_len() as ObjRef,
        ) && final(object_manager).heap_len() == old(object_manager).heap_len() + 1
            && final(object_manager).spec_objects() == old(object_manager).spec_objects().push(
            old(object_manager).heap_len() as ObjRef,
        ),
        final(object_manager).heap_len() >= old(object_manager).heap_len(),
        forall|q: ObjRef|
            #![trigger final(object_manager).slot(q)]
            q < old(object_manager).heap_len() ==> final(object_manager).slot(q) == old(
                object_manager,
            ).slot(q),
        v matches Value::Object(r) && final(object_manager).slot(r) matches Some(
            HeapObject::String(s),
        ) && s.content@ == str_value@,
{
    match intern_strings.find(str_value) {
        Some(value) => {
            proof {
                assert(intern_strings@.insert(str_value@, value) =~= intern_strings@);
            }
            value
        },
        None => {
            let ghost om0 = *object_manager;
            let ghost t0 = *intern_strings;
            let (object_string, _size) = object_manager.alloc_string(str_value);
            let value = Value::Object(object_string);
            intern_strings.insert(str_value.to_string(), value);
            proof {
                assert forall|k: Seq<char>| #[trigger]
                    intern_strings@.dom().contains(k) implies (intern_strings@[k] matches Value::Object(
                    r,
                ) && object_manager.slot(r) matches Some(HeapObject::String(s)) && s.content@ == k) by {
                    if k != str_value@ {
                        assert(t0@.dom().contains(k));
                        let r = t0@[k]->Object_0;
                        om0.lemma_slot_in_heap(r);
                    }
                }
            }
            value
        },
    }
}

/// The text that printing the object `r` shows; `None` when `r` is no object, or is a closure
/// or an instance whose function or struct type is missing.
pub open spec fn spec_object_text(manager: ObjectManager, r: ObjRef) -> Option<Seq<char>> {
    match manager.slot(r) {
        Some(HeapObject::String(s)) => Some(s.content@),
        Some(HeapObject::Function(f)) => if f.name@.len() == 0 {
            Some("<script>"@)
        } else {
            Some("<fn "@ + f.name@ + ">"@)
        },
        Some(HeapObject::NativeFunction(f)) => Some("<native fn "@ + f.name@ + ">"@),
        Some(HeapObject::Closure(c)) => match manager.slot(c.function) {
            Some(HeapObject::Function(f)) => Some("<closure "@ + f.name@ + ">"@),
            _ => None,
        },
        Some(HeapObject::Upvalue(_)) => Some("<upvalue>"@),
        Some(HeapObject::Trait(t)) => Some("<trait "@ + t.name@ + ">"@),
        Some(HeapObject::StructType(t)) => Some("<struct "@ + t.name@ + ">"@),
        Some(HeapObject::StructInstance(i)) => match manager.slot(i.struct_type) {
            Some(HeapObject::StructType(t)) => Some("<"@ + t.name@ + " instance>"@),
            _ => None,
        },
        None => None,
    }
}

/// `prefix`, then `name`, then `suffix`.
fn framed(prefix: &str, name: &String, suffix: &str) -> (s: String)
    ensures
        s@ == prefix@ + name@ + suffix@,
{
    let mut s = prefix.to_string();
    s.append(name.as_str());
    s.append(suffix);
    s
}

/// The text that printing the object `r` shows (empty when `r` is not a printable object).
pub fn print_object(manager: &ObjectManager, r: ObjRef) -> (s: String)
    ensures
        spec_object_text(*manager, r) matches Some(t) ==> s@ == t,
{
    match manager.get(r) {
        Some(HeapObject::String(s)) => s.content.clone(),
        Some(HeapObject::Function(f)) => {
            if f.name.as_str().unicode_len() == 0 {
                "<script>".to_string()
            } else {
                framed("<fn ", &f.name, ">")
            }
        },
        Some(HeapObject::NativeFunction(f)) => framed("<native fn ", &f.name, ">"),
        Some(HeapObject::Closure(c)) => match manager.get(c.function) {
            Some(HeapObject::Function(f)) => framed("<closure ", &f.name, ">"),
            _ => String::new(),
        },
        Some(HeapObject::Upvalue(_)) => "<upvalue>".to_string(),
        Some(HeapObject::Trait(t)) => framed("<trait ", &t.name, ">"),
        Some(HeapObject::StructType(t)) => framed("<struct ", &t.name, ">"),
        Some(HeapObject::StructInstance(i)) => match manager.get(i.struct_type) {
            Some(HeapObject::StructType(t)) => framed("<", &t.name, " instance>"),
            _ => String::new(),
        },
        None => String::new(),
    }
}

/// What printing a value shows: a number (whose decimal form is the caller's to write), or
/// text.
#[derive(Debug, Clone, PartialEq, Eq)]
pub enum Printed {
    Number(u64),
    Text(String),
}

/// `p` is what printing `value` shows: a number as itself, `true`, `false`, `nil`, an
/// object as its text, and a stack struct as `<stack struct>`.
pub open spec fn prints_as(value: Value, manager: ObjectManager, p: Printed) -> bool {
    match value {
        Value::Number(bits) => p == Printed::Number(bits),
        Value::Bool(b) => p matches Printed::Text(t) && t@ == (if b {
            "true"@
        } else {
            "false"@
        }),
        Value::Nil => p matches Printed::Text(t) && t@ == "nil"@,
        Value::Object(r) => p matches Printed::Text(t) && (spec_object_text(manager, r) matches Some(
            u,
        ) ==> t@ == u),
        Value::StackStruct(_) => p matches Printed::Text(t) && t@ == "<stack struct>"@,
    }
}

/// What printing `value` shows.
pub fn value_text(value: &Value, manager: &ObjectManager) -> (p: Printed)
    ensures
        prints_as(*value, *manager, p),
        match *value {
            Value::Number(bits) => p == Printed::Number(bits),
            Value::Bool(b) => p matches Printed::Text(t) && t@ == (if b {
                "true"@
            } else {
                "false"@
            }),
            Value::Nil => p matches Printed::Text(t) && t@ == "nil"@,
            Value::Object(r) => p matches Printed::Text(t) && (spec_object_text(*manager, r) matches Some(
                u,
            ) ==> t@ == u),
            Value::StackStruct(_) => p matches Printed::Text(t) && t@ == "<stack struct>"@,
        },
{
    match value {
        Value::Number(bits) => Printed::Number(*bits),
        Value::Bool(b) => {
            if *b {
                Printed::Text("true".to_string())
            } else {
                Printed::Text("false".to_string())
            }
        },
        Value::Nil => Printed::Text("nil".to_string()),
        Value::Object(r) => Printed::Text(print_object(manager, *r)),
        Value::StackStruct(_) => Printed::Text("<stack struct>".to_string()),
    }
}

/// A chunk with the same code, lines and constants as `chunk`.
pub fn copy_chunk(chunk: &Chunk) -> (c: Chunk)
    requires
        chunk.wf(),
    ensures
        c.wf(),
        c.spec_code() == chunk.spec_code(),
        c.spec_lines() == chunk.spec_lines(),
        c.spec_constants() == chunk.spec_constants(),
{
    let mut c = Chunk::new();
    let mut i: usize = 0;
    while i < chunk.len()
        invariant
            chunk.wf(),
            c.wf(),
            i <= chunk.spec_code().len(),
            c.spec_code() == chunk.spec_code().take(i as int),
            c.spec_lines() == chunk.spec_lines().take(i as int),
            c.spec_constants().len() == 0,
        decreases chunk.spec_code().len() - i,
    {
        c.write(chunk.read_from_offset(i).unwrap(), chunk.read_line_from_offset(i).unwrap());
        proof {
            assert(c.spec_code() =~= chunk.spec_code().take(i + 1));
            assert(c.spec_lines() =~= chunk.spec_lines().take(i + 1));
        }
        i = i + 1;
    }
    let constants = chunk.iter_constants();
    let mut j: usize = 0;
    while j < constants.len()
        invariant
            c.wf(),
            constants@ == chunk.spec_constants(),
            j <= constants@.len(),
            c.spec_code() == chunk.spec_code(),
            c.spec_lines() == chunk.spec_lines(),
            c.spec_constants() == constants@.take(j as int),
        decreases constants@.len() - j,
    {
        c.add_constant(constants[j]);
        proof {
            assert(c.spec_constants() =~= constants@.take(j + 1));
        }
        j = j + 1;
    }
    proof {
        assert(chunk.spec_code().take(chunk.spec_code().len() as int) =~= chunk.spec_code());
        assert(chunk.spec_lines().take(chunk.spec_lines().len() as int) =~= chunk.spec_lines());
        assert(constants@.take(constants@.len() as int) =~= constants@);
    }
    c
}

/// A new function with the parameters, name, code and capture count of `f`.
fn copy_function(f: &ObjectFunction) -> (g: ObjectFunction)
    requires
        f.chunk.wf(),
    ensures
        g.object.obj_type == ObjectType::ObjFunction,
        g.arity == f.arity,
        g.name@ == f.name@,
        g.upvalue_count == f.upvalue_count,
        g.chunk.wf(),
        g.chunk.spec_code() == f.chunk.spec_code(),
        g.chunk.spec_lines() == f.chunk.spec_lines(),
        g.chunk.spec_constants() == f.chunk.spec_constants(),
{
    ObjectFunction {
        object: Object { obj_type: ObjectType::ObjFunction },
        arity: f.arity,
        chunk: Box::new(copy_chunk(&f.chunk)),
        name: f.name.clone(),
        upvalue_count: f.upvalue_count,
    }
}

/// `g` is a copy of the function `f`.
pub open spec fn function_copy(g: ObjectFunction, f: ObjectFunction) -> bool {
    &&& g.object.obj_type == ObjectType::ObjFunction
    &&& g.arity == f.arity
    &&& g.name@ == f.name@
    &&& g.upvalue_count == f.upvalue_count
    &&& g.chunk.wf()
    &&& g.chunk.spec_code() == f.chunk.spec_code()
    &&& g.chunk.spec_lines() == f.chunk.spec_lines()
    &&& g.chunk.spec_constants() == f.chunk.spec_constants()
}

/// The objects that deep-cloning a value refers to are there: a closure's function is a
/// function, and every function's chunk is well formed.
pub open spec fn clonable(value: Value, manager: ObjectManager) -> bool {
    value matches Value::Object(r) ==> match manager.slot(r) {
        Some(HeapObject::Function(f)) => f.chunk.wf(),
        Some(HeapObject::Closure(c)) => manager.slot(c.function) matches Some(
            HeapObject::Function(f),
        ) && f.chunk.wf(),
        Some(_) => true,
        None => false,
    }
}

impl Value {
    /// A copy of the value that owns fresh copies of the strings, functions, closures and
    /// upvalues it refers to; native functions, traits, struct types and instances are
    /// shared.
    pub fn deep_clone(&self, object_manager: &mut ObjectManager) -> (v: Value)
        requires
            old(object_manager).wf(),
            clonable(*self, *old(object_manager)),
        ensures
            final(object_manager).wf(),
            final(object_manager).heap_len() >= old(object_manager).heap_len(),
            forall|q: ObjRef|
                #![trigger final(object_manager).slot(q)]
                q < old(object_manager).heap_len() ==> final(object_manager).slot(q) == old(
                    object_manager,
                ).slot(q),
            match *self {
                Value::Object(r) => match old(object_manager).slot(r) {
                    Some(HeapObject::String(s)) => {
                        &&& v == Value::Object(old(object_manager).heap_len() as ObjRef)
                        &&& final(object_manager).slot(v->Object_0) matches Some(
                            HeapObject::String(t),
                        ) && t.content@ == s.content@
                        &&& final(object_manager).spec_objects() == old(object_manager).spec_objects().push(
                            v->Object_0,
                        )
                    },
                    Some(HeapObject::Function(f)) => {
                        &&& v == Value::Object(old(object_manager).heap_len() as ObjRef)
                        &&& final(object_manager).slot(v->Object_0) matches Some(
                            HeapObject::Function(g),
                        ) && function_copy(g, f)
                        &&& final(object_manager).spec_objects() == old(object_manager).spec_objects().push(
                            v->Object_0,
                        )
                    },
                    Some(HeapObject::Closure(c)) => {
                        &&& v == Value::Object((old(object_manager).heap_len() + 1) as ObjRef)
                        &&& final(object_manager).slot(v->Object_0) matches Some(
                            HeapObject::Closure(d),
                        ) && d.function == old(object_manager).heap_len() && d.upvalues@
                            == c.upvalues@
                        &&& old(object_manager).slot(c.function) matches Some(
                            HeapObject::Function(f),
                        ) && final(object_manager).slot(old(object_manager).heap_len() as ObjRef) matches Some(
                            HeapObject::Function(g),
                        ) && function_copy(g, f)
                        &&& final(object_manager).spec_objects() == old(object_manager).spec_objects().push(
                            old(object_manager).heap_len() as ObjRef,
                        ).push(v->Object_0)
                    },
                    Some(HeapObject::Upvalue(u)) => {
                        &&& v == Value::Object(old(object_manager).heap_len() as ObjRef)
                        &&& final(object_manager).slot(v->Object_0) matches Some(
                            HeapObject::Upvalue(w),
                        ) && w.location == u.location && w.closed == u.closed
                        &&& final(object_manager).spec_objects() == old(object_manager).spec_objects().push(
                            v->Object_0,
                        )
                    },
                    _ => v == *self && *final(object_manager) == *old(object_manager),
                },
                _ => v == *self && *final(object_manager) == *old(object_manager),
            },
    {
        match self {
            Value::Object(r) => {
                let r = *r;
                let ghost m0 = *object_manager;
                let copy: Option<HeapObject> = match object_manager.get(r) {
                    Some(HeapObject::String(s)) => Some(
                        HeapObject::String(
                            crate::objects::object_string::ObjectString::new(s.content.as_str()),
                        ),
                    ),
                    Some(HeapObject::Function(f)) => Some(HeapObject::Function(copy_function(f))),
                    Some(HeapObject::Upvalue(u)) => Some(
                        HeapObject::Upvalue(
                            ObjectUpvalue {
                                object: Object { obj_type: ObjectType::ObjUpvalue },
                                location: u.location,
                                closed: u.closed,
                            },
                        ),
                    ),
                    _ => None,
                };
                match copy {
                    Some(obj) => {
                        let (handle, _size) = object_manager.push_object(obj);
                        return Value::Object(handle);
                    },
                    None => {},
                }
                let closure_parts: Option<(ObjectFunction, Vec<usize>)> = match object_manager.get(
                    r,
                ) {
                    Some(HeapObject::Closure(c)) => match object_manager.get(c.function) {
                        Some(HeapObject::Function(f)) => Some(
                            (copy_function(f), c.upvalues.clone()),
                        ),
                        _ => None,
                    },
                    _ => None,
                };
                match closure_parts {
                    Some((function, upvalues)) => {
                        let (function_handle, _size) = object_manager.push_object(
                            HeapObject::Function(function),
                        );
                        let mut closure = ObjectClosure::new(function_handle);
                        let mut i: usize = 0;
                        while i < upvalues.len()
                            invariant
                                i <= upvalues@.len(),
                                closure.upvalues@ == upvalues@.take(i as int),
                                closure.function == function_handle,
                                closure.object.obj_type == ObjectType::ObjClosure,
                            decreases upvalues@.len() - i,
                        {
                            closure.add_upvalue(upvalues[i]);
                            proof {
                                assert(closure.upvalues@ =~= upvalues@.take(i + 1));
                            }
                            i = i + 1;
                        }
                        proof {
                            assert(upvalues@.take(upvalues@.len() as int) =~= upvalues@);
                        }
                        let (closure_handle, _size) = object_manager.push_object(
                            HeapObject::Closure(closure),
                        );
                        Value::Object(closure_handle)
                    },
                    None => *self,
                }
            },
            _ => *self,
        }
    }
}

/// The bits of the double a number value holds; it is only asked of a number value.
pub fn as_number(value: &Value) -> (bits: u64)
    requires
        value.spec_value_type() == ValueType::ValueNumber,
    ensures
        *value == Value::Number(bits),
{
    match value {
        Value::Number(bits) => *bits,
        _ => 0,
    }
}

/// The object of an object value, as the handle of a mutable object.
pub fn as_mutable_object(value: &Value) -> (r: ObjRef)
    requires
        value.spec_value_type() == ValueType::ValueObject,
    ensures
        value.object_ref() == Some(r),
{
    as_object(value)
}

/// The string object of a string value.
pub fn as_string_object(value: &Value) -> (r: ObjRef)
    requires
        value.spec_value_type() == ValueType::ValueObject,
    ensures
        value.object_ref() == Some(r),
{
    as_object(value)
}

/// The function object of a function value.
pub fn as_function_object(value: &Value) -> (r: ObjRef)
    requires
        value.spec_value_type() == ValueType::ValueObject,
    ensures
        value.object_ref() == Some(r),
{
    as_object(value)
}

/// The native function object of a native function value.
pub fn as_native_function_object(value: &Value) -> (r: ObjRef)
    requires
        value.spec_value_type() == ValueType::ValueObject,
    ensures
        value.object_ref() == Some(r),
{
    as_object(value)
}

/// The closure object of a closure value.
pub fn as_closure_object(value: &Value) -> (r: ObjRef)
    requires
        value.spec_value_type() == ValueType::ValueObject,
    ensures
        value.object_ref() == Some(r),
{
    as_object(value)
}

/// The kind of the object that `value` refers to, if it refers to one.
pub open spec fn referenced_type(value: Value, manager: ObjectManager) -> Option<ObjectType> {
    match value {
        Value::Object(r) => match manager.slot(r) {
            Some(o) => Some(o.spec_obj_type()),
            None => None,
        },
        _ => None,
    }
}

/// Whether `value` refers to an object of kind `kind`.
fn refers_to_kind(value: &Value, manager: &ObjectManager, kind: ObjectType) -> (b: bool)
    ensures
        b == (referenced_type(*value, *manager) == Some(kind)),
{
    match value {
        Value::Object(r) => match manager.get(*r) {
            Some(o) => o.obj_type() == kind,
            None => false,
        },
        _ => false,
    }
}

/// Whether `value` is a string.
pub fn is_string(value: &Value, manager: &ObjectManager) -> (b: bool)
    ensures
        b == (referenced_type(*value, *manager) == Some(ObjectType::ObjString)),
{
    refers_to_kind(value, manager, ObjectType::ObjString)
}

/// Whether `value` is a function.
pub fn is_function(value: &Value, manager: &ObjectManager) -> (b: bool)
    ensures
        b == (referenced_type(*value, *manager) == Some(ObjectType::ObjFunction)),
{
    refers_to_kind(value, manager, ObjectType::ObjFunction)
}

/// Whether `value` is a native function.
pub fn is_native_function(value: &Value, manager: &ObjectManager) -> (b: bool)
    ensures
        b == (referenced_type(*value, *manager) == Some(ObjectType::ObjNativeFunction)),
{
    refers_to_kind(value, manager, ObjectType::ObjNativeFunction)
}

/// Whether `value` is a closure.
pub fn is_closure(value: &Value, manager: &ObjectManager) -> (b: bool)
    ensures
        b == (referenced_type(*value, *manager) == Some(ObjectType::ObjClosure)),
{
    refers_to_kind(value, manager, ObjectType::ObjClosure)
}

/// The value of the function object `function`.
pub fn make_function_value(function: ObjRef) -> (v: Value)
    ensures
        v == Value::Object(function),
{
    Value::Object(function)
}

/// The value of the native function object `function`.
pub fn make_native_function_value(function: ObjRef) -> (v: Value)
    ensures
        v == Value::Object(function),
{
    Value::Object(function)
}

/// The value of the closure object `closure`.
pub fn make_closure_value(closure: ObjRef) -> (v: Value)
    ensures
        v == Value::Object(closure),
{
    Value::Object(closure)
}

/// The value of the upvalue object `upvalue`.
pub fn make_upvalue(upvalue: ObjRef) -> (v: Value)
    ensures
        v == Value::Object(upvalue),
{
    Value::Object(upvalue)
}

pub type ValueArray = Vec<Value>;

} // verus!
