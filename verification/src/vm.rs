use vstd::prelude::*;

use crate::call_frame::CallFrame;
use crate::chunk::{Chunk, OpCode};
use crate::compiler::Parser;
use crate::scanner::{scan_step, TokenType};
use crate::constants::{MAX_FRAMES_SIZE, MAX_STACK_SIZE};
use crate::gc::{GCStats, GarbageCollector};
use crate::objects::object::{sat_mul, value_refers_to, HeapObject};
use crate::objects::object_closure::ObjectClosure;
use crate::objects::object_function::ObjectFunction;
use crate::objects::object_manager::{upvalue_updated, ObjectManager};
use crate::objects::object_native_function::ObjectNativeFunction;
use crate::objects::object_struct::{ObjectStructInstance, ObjectStructType};
use crate::objects::object_trait::ObjectTrait;
use crate::objects::object_upvalue::{ObjectUpvalue, UpvalueLocation};
use crate::table::Table;
use crate::value::{
    make_string_value, prints_as, strings_interned, value_text, ObjRef, Printed, Value, ValueType,
};
use vstd::string::StringExecFns;

verus! {

/// How running a script ended.
#[derive(Debug, Clone, Copy, PartialEq, Eq, Structural)]
pub enum InterpretResult {
    InterpretOk,
    InterpretCompileError,
    InterpretRuntimeError,
}

/// What the virtual machine leaves to the program around it: arithmetic on numbers (each held
/// as the bits of a double), the native functions, and output.
pub trait Host {
    /// The sum of two numbers, as this host computes it.
    spec fn spec_add(&self, a: u64, b: u64) -> u64;

    /// `a` minus `b`, as this host computes it.
    spec fn spec_subtract(&self, a: u64, b: u64) -> u64;

    /// The product of two numbers, as this host computes it.
    spec fn spec_multiply(&self, a: u64, b: u64) -> u64;

    /// `a` divided by `b`, as this host computes it.
    spec fn spec_divide(&self, a: u64, b: u64) -> u64;

    /// The negation of a number, as this host computes it.
    spec fn spec_negate(&self, a: u64) -> u64;

    /// Whether `a` is greater than `b`, as this host compares them.
    spec fn spec_greater(&self, a: u64, b: u64) -> bool;

    /// Whether `a` is less than `b`, as this host compares them.
    spec fn spec_less(&self, a: u64, b: u64) -> bool;

    /// Whether two numbers count as equal for this host.
    spec fn spec_numbers_equal(&self, a: u64, b: u64) -> bool;

    /// The bits of the double that the number literal `text` denotes, as this host reads it.
    spec fn spec_parse_number(&self, text: &str) -> u64;

    /// The bits of the double that the number literal `text` denotes.
    fn parse_number(&self, text: &str) -> (r: u64)
        ensures
            r == self.spec_parse_number(text),
    ;

    fn add(&self, a: u64, b: u64) -> (r: u64)
        ensures
            r == self.spec_add(a, b),
    ;

    fn subtract(&self, a: u64, b: u64) -> (r: u64)
        ensures
            r == self.spec_subtract(a, b),
    ;

    fn multiply(&self, a: u64, b: u64) -> (r: u64)
        ensures
            r == self.spec_multiply(a, b),
    ;

    fn divide(&self, a: u64, b: u64) -> (r: u64)
        ensures
            r == self.spec_divide(a, b),
    ;

    fn negate(&self, a: u64) -> (r: u64)
        ensures
            r == self.spec_negate(a),
    ;

    fn greater(&self, a: u64, b: u64) -> (r: bool)
        ensures
            r == self.spec_greater(a, b),
    ;

    fn less(&self, a: u64, b: u64) -> (r: bool)
        ensures
            r == self.spec_less(a, b),
    ;

    /// Whether two numbers count as equal.
    fn numbers_equal(&self, a: u64, b: u64) -> (r: bool)
        ensures
            r == self.spec_numbers_equal(a, b),
    ;

    /// The bits of the double equal to `index`.
    fn index_number(&self, index: usize) -> u64;

    /// Runs the native function `native_id`; gives the bits of its numeric result.
    fn call_native(&self, native_id: usize) -> Result<u64, String>;

    /// Shows the value of a `print` statement.
    fn print(&self, printed: Printed);

    /// Shows a warning.
    fn warn(&self, message: String);
}

/// The value that the arithmetic or comparison instruction `op` gives for the numbers `a`
/// (below) and `b` (on top), as the host computes it.
pub open spec fn number_result<H: Host>(host: &H, op: OpCode, a: u64, b: u64) -> Value {
    match op {
        OpCode::Greater => Value::Bool(host.spec_greater(a, b)),
        OpCode::Less => Value::Bool(host.spec_less(a, b)),
        OpCode::Add => Value::Number(host.spec_add(a, b)),
        OpCode::Subtract => Value::Number(host.spec_subtract(a, b)),
        OpCode::Multiply => Value::Number(host.spec_multiply(a, b)),
        _ => Value::Number(host.spec_divide(a, b)),
    }
}

/// `a + b`, or the largest `usize` when that does not fit.
pub open spec fn saturated_sum(a: int, b: int) -> int {
    if a + b <= usize::MAX {
        a + b
    } else {
        usize::MAX as int
    }
}

/// The number of the native function `clock`.
pub const CLOCK_NATIVE: usize = 0;

/// A struct that lives in the frame that created it.
struct StackStruct {
    struct_type: ObjRef,
    fields: Vec<Value>,
}

/// The decimal digits of `n`.
pub open spec fn decimal_text(n: nat) -> Seq<char>
    decreases n,
{
    if n < 10 {
        seq![digit_char(n)]
    } else {
        decimal_text(n / 10).push(digit_char(n % 10))
    }
}

pub open spec fn digit_char(d: nat) -> char {
    if d == 0 {
        '0'
    } else if d == 1 {
        '1'
    } else if d == 2 {
        '2'
    } else if d == 3 {
        '3'
    } else if d == 4 {
        '4'
    } else if d == 5 {
        '5'
    } else if d == 6 {
        '6'
    } else if d == 7 {
        '7'
    } else if d == 8 {
        '8'
    } else {
        '9'
    }
}

fn digit_str(d: usize) -> (s: &'static str)
    requires
        d < 10,
    ensures
        s@ == seq![digit_char(d as nat)],
{
    proof {
        reveal_strlit("0");
        reveal_strlit("1");
        reveal_strlit("2");
        reveal_strlit("3");
        reveal_strlit("4");
        reveal_strlit("5");
        reveal_strlit("6");
        reveal_strlit("7");
        reveal_strlit("8");
        reveal_strlit("9");
    }
    match d {
        0 => "0",
        1 => "1",
        2 => "2",
        3 => "3",
        4 => "4",
        5 => "5",
        6 => "6",
        7 => "7",
        8 => "8",
        _ => "9",
    }
}

/// `n` written in decimal.
pub fn decimal(n: usize) -> (s: String)
    ensures
        s@ == decimal_text(n as nat),
    decreases n,
{
    if n < 10 {
        digit_str(n).to_string()
    } else {
        let mut s = decimal(n / 10);
        s.append(digit_str(n % 10));
        s
    }
}

/// Writing `v` at `i` keeps what stands before and after `i`.
proof fn lemma_splice_update(s: Seq<Value>, i: int, v: Value)
    requires
        0 <= i < s.len(),
    ensures
        s.update(i, v) == s.take(i) + seq![v] + s.skip(i + 1),
{
    assert(s.update(i, v) =~= s.take(i) + seq![v] + s.skip(i + 1));
}

/// A sequence is what stands before `i` followed by what stands from `i` on.
proof fn lemma_splice_none(s: Seq<Value>, i: int)
    requires
        0 <= i <= s.len(),
    ensures
        s == s.take(i) + Seq::<Value>::empty() + s.skip(i),
{
    assert(s =~= s.take(i) + Seq::<Value>::empty() + s.skip(i));
}

/// The value that field `p` gets from the first `m` (position, value) pairs of a struct
/// literal: that of the last pair for `p`, or nil when there is none.
pub open spec fn assigned(pairs: Seq<(int, Value)>, m: int, p: int) -> Value
    decreases m,
{
    if m <= 0 {
        Value::Nil
    } else if pairs[m - 1].0 == p {
        pairs[m - 1].1
    } else {
        assigned(pairs, m - 1, p)
    }
}

/// The fields, `count` of them, that the (position, value) pairs of a struct literal give.
pub open spec fn literal_fields(pairs: Seq<(int, Value)>, count: int) -> Seq<Value> {
    Seq::new(count as nat, |p: int| assigned(pairs, pairs.len() as int, p))
}

/// `base` with each (name, value) entry set in turn.
pub open spec fn apply_entries(base: Map<Seq<char>, Value>, entries: Seq<(String, Value)>) -> Map<
    Seq<char>,
    Value,
>
    decreases entries.len(),
{
    if entries.len() == 0 {
        base
    } else {
        apply_entries(base, entries.drop_last()).insert(entries.last().0@, entries.last().1)
    }
}

/// Whether `value` counts as false in a condition: nil and false do.
pub open spec fn falsey(value: Value) -> bool {
    value == Value::Nil || value == Value::Bool(false)
}

/// The interpreter: a stack of values, the call frames, the heap and the tables of the running
/// program.
pub struct VM {
    frames: Vec<CallFrame>,
    stack: Vec<Value>,
    stack_top_pos: usize,
    object_manager: ObjectManager,
    intern_strings: Table,
    globals: Table,
    struct_types: Table,
    trait_registry: Table,
    type_methods: Vec<(String, Table)>,
    open_upvalues: Vec<ObjRef>,
    gc: GarbageCollector,
    bytes_allocated: usize,
    next_gc_bytes: usize,
    frame_stack_structs: Vec<Vec<StackStruct>>,
}

impl VM {
    pub closed spec fn wf(&self) -> bool {
        &&& self.stack@.len() == MAX_STACK_SIZE
        &&& self.stack_top_pos <= MAX_STACK_SIZE
        &&& self.object_manager.wf()
        &&& self.intern_strings.wf()
        &&& strings_interned(self.intern_strings, self.object_manager)
        &&& self.globals.wf()
        &&& self.struct_types.wf()
        &&& self.trait_registry.wf()
        &&& forall|i: int|
            0 <= i < self.type_methods@.len() ==> (#[trigger] self.type_methods@[i]).1.wf()
        &&& forall|i: int|
            0 <= i < self.frames@.len() ==> (#[trigger] self.frames@[i]).stack_base_offset
                < MAX_STACK_SIZE
        &&& self.gc.inv()
    }

    /// The table of interned strings.
    pub closed spec fn spec_intern_strings(&self) -> Table {
        self.intern_strings
    }

    /// In every state the machine reaches, each interned string is a live string object with
    /// that content (collections never free one), and the stack holds at most its capacity.
    pub proof fn lemma_wf_holds(&self)
        requires
            self.wf(),
        ensures
            self.manager().wf(),
            self.spec_intern_strings().wf(),
            strings_interned(self.spec_intern_strings(), self.manager()),
            0 <= self.spec_stack_top() <= MAX_STACK_SIZE,
            self.spec_globals().wf(),
    {
    }

    /// The number of values on the stack.
    pub closed spec fn spec_stack_top(&self) -> int {
        self.stack_top_pos as int
    }

    /// The number of calls in progress.
    pub closed spec fn spec_frame_count(&self) -> int {
        self.frames@.len() as int
    }

    /// The heap.
    pub closed spec fn manager(&self) -> ObjectManager {
        self.object_manager
    }

    /// The global variables.
    pub closed spec fn spec_globals(&self) -> Table {
        self.globals
    }

    /// The method tables, each under the name of its type.
    pub closed spec fn spec_type_methods(&self) -> Seq<(String, Table)> {
        self.type_methods@
    }

    /// The position of the method table of type `name`: that of the first table for it.
    pub open spec fn method_table_index(&self, name: Seq<char>) -> Option<int> {
        let tables = self.spec_type_methods();
        if exists|i: int|
            #![trigger tables[i]]
            0 <= i < tables.len() && tables[i].0@ == name && forall|j: int|
                #![trigger tables[j]]
                0 <= j < i ==> tables[j].0@ != name {
            Some(
                choose|i: int|
                    #![trigger tables[i]]
                    0 <= i < tables.len() && tables[i].0@ == name && forall|j: int|
                        #![trigger tables[j]]
                        0 <= j < i ==> tables[j].0@ != name,
            )
        } else {
            None
        }
    }

    /// The methods of type `name`, by name.
    pub open spec fn methods_of(&self, name: Seq<char>) -> Option<Map<Seq<char>, Value>> {
        match self.method_table_index(name) {
            Some(i) => Some(self.spec_type_methods()[i].1@),
            None => None,
        }
    }

    /// The struct types, by name.
    pub closed spec fn spec_struct_types(&self) -> Table {
        self.struct_types
    }

    /// The traits, by name.
    pub closed spec fn spec_trait_registry(&self) -> Table {
        self.trait_registry
    }

    /// The collector's statistics.
    pub closed spec fn spec_gc_stats(&self) -> GCStats {
        self.gc.spec_stats()
    }

    /// The allocation count above which the next allocation runs the collector.
    pub closed spec fn spec_next_gc_bytes(&self) -> int {
        self.next_gc_bytes as int
    }

    /// Every stack slot, bottom first; the first `spec_stack_top()` of them are the stack.
    pub closed spec fn spec_slots(&self) -> Seq<Value> {
        self.stack@
    }

    /// The values on the stack, bottom first.
    pub open spec fn spec_stack(&self) -> Seq<Value> {
        self.spec_slots().take(self.spec_stack_top())
    }

    /// The calls in progress, outermost first.
    pub closed spec fn spec_frames(&self) -> Seq<CallFrame> {
        self.frames@
    }

    /// The open upvalues, in the order they were opened.
    pub closed spec fn spec_open_upvalues(&self) -> Seq<ObjRef> {
        self.open_upvalues@
    }

    /// `q` is an object that a value on the stack refers to, or an open upvalue.
    pub open spec fn holds_directly(&self, q: ObjRef) -> bool {
        ||| exists|i: int|
            0 <= i < self.spec_stack_top() && value_refers_to(#[trigger] self.spec_slots()[i], q)
        ||| self.spec_open_upvalues().contains(q)
    }

    /// The value of the variable of open upvalue number `index`: the value in its stack slot
    /// while it is open, its own value once it is closed.
    pub open spec fn upvalue_value(&self, index: int) -> Option<Value> {
        if 0 <= index < self.spec_open_upvalues().len() {
            match self.manager().slot(self.spec_open_upvalues()[index]) {
                Some(HeapObject::Upvalue(u)) => match u.location {
                    UpvalueLocation::Stack(i) => if i < MAX_STACK_SIZE {
                        Some(self.spec_slots()[i as int])
                    } else {
                        None
                    },
                    UpvalueLocation::Closed => Some(u.closed),
                },
                _ => None,
            }
        } else {
            None
        }
    }

    /// The number, among the open upvalues, that capture `slot` of the running closure holds.
    pub open spec fn capture_index(&self, slot: int) -> Option<usize> {
        if self.spec_frames().len() > 0 {
            match self.manager().slot(self.spec_frames().last().callable_object) {
                Some(HeapObject::Closure(c)) => if 0 <= slot < c.upvalues@.len() {
                    Some(c.upvalues@[slot])
                } else {
                    None
                },
                _ => None,
            }
        } else {
            None
        }
    }

    /// Stack struct number `index` of the running call: its struct type and its fields.
    pub closed spec fn stack_struct(&self, index: int) -> Option<(ObjRef, Seq<Value>)> {
        if self.frame_stack_structs@.len() > 0 {
            let arena = self.frame_stack_structs@.last();
            if 0 <= index < arena@.len() {
                Some((arena@[index].struct_type, arena@[index].fields@))
            } else {
                None
            }
        } else {
            None
        }
    }

    /// The number of stack structs of the running call, when it has an arena for them.
    pub closed spec fn stack_struct_count(&self) -> Option<int> {
        if self.frame_stack_structs@.len() > 0 {
            Some(self.frame_stack_structs@.last()@.len() as int)
        } else {
            None
        }
    }

    /// The position of field `name` in struct type `struct_type`: that of the first field so
    /// named.
    pub open spec fn field_position(&self, struct_type: ObjRef, name: Seq<char>) -> Option<int> {
        match self.manager().slot(struct_type) {
            Some(HeapObject::StructType(t)) => {
                let names = t.field_names@;
                if exists|i: int|
                    #![trigger names[i]]
                    0 <= i < names.len() && names[i]@ == name && forall|j: int|
                        #![trigger names[j]]
                        0 <= j < i ==> names[j]@ != name {
                    Some(
                        choose|i: int|
                            #![trigger names[i]]
                            0 <= i < names.len() && names[i]@ == name && forall|j: int|
                                #![trigger names[j]]
                                0 <= j < i ==> names[j]@ != name,
                    )
                } else {
                    None
                }
            },
            _ => None,
        }
    }

    /// The struct type and the fields of the struct that `receiver` is: an instance on the
    /// heap, or a stack struct of the running call.
    pub open spec fn struct_of(&self, receiver: Value) -> Option<(ObjRef, Seq<Value>)> {
        match receiver {
            Value::Object(q) => match self.manager().slot(q) {
                Some(HeapObject::StructInstance(i)) => Some((i.struct_type, i.fields@)),
                _ => None,
            },
            Value::StackStruct(index) => self.stack_struct(index as int),
            _ => None,
        }
    }

    /// The value of field `name` of the struct `receiver`.
    pub open spec fn field_value(&self, receiver: Value, name: Seq<char>) -> Option<Value> {
        match self.struct_of(receiver) {
            Some((t, fields)) => match self.field_position(t, name) {
                Some(p) => if p < fields.len() {
                    Some(fields[p])
                } else {
                    None
                },
                None => None,
            },
            None => None,
        }
    }

    /// The chunk of the function that `callable` refers to, or of the function of the closure
    /// it refers to.
    pub open spec fn spec_chunk_of(&self, callable: ObjRef) -> Option<Chunk> {
        match self.manager().slot(callable) {
            Some(HeapObject::Function(f)) => Some(*f.chunk),
            Some(HeapObject::Closure(c)) => match self.manager().slot(c.function) {
                Some(HeapObject::Function(f)) => Some(*f.chunk),
                _ => None,
            },
            _ => None,
        }
    }

    /// The text of a runtime error with `message`, raised while `frames` are the calls: the
    /// message and where the running call stands. The line is read from the chunk's line
    /// table at the index that the current instruction's byte gives.
    pub open spec fn error_text_at(&self, frames: Seq<CallFrame>, message: Seq<char>) -> Seq<
        char,
    > {
        let head = "Runtime error: "@ + message;
        let unknown = head + " [instruction ???] in script (invalid instruction)"@;
        if frames.len() == 0 {
            unknown
        } else {
            let frame = frames.last();
            let index: int = if frame.ip >= 1 {
                frame.ip - 1
            } else {
                usize::MAX as int
            };
            match self.spec_chunk_of(frame.callable_object) {
                Some(chunk) => if index < chunk.spec_code().len() {
                    let at = chunk.spec_code()[index] as int;
                    if at < chunk.spec_lines().len() {
                        head + " [line "@ + decimal_text(chunk.spec_lines()[at] as nat)
                            + "] in script"@
                    } else {
                        head + " [line ???] in script (invalid instruction index)"@
                    }
                } else {
                    unknown
                },
                None => unknown,
            }
        }
    }

    /// The text of a runtime error with `message` raised now.
    pub open spec fn error_text(&self, message: Seq<char>) -> Seq<char> {
        self.error_text_at(self.spec_frames(), message)
    }

    /// The chunk of the running call.
    pub open spec fn running_chunk(&self) -> Option<Chunk> {
        if self.spec_frames().len() > 0 {
            self.spec_chunk_of(self.spec_frames().last().callable_object)
        } else {
            None
        }
    }

    /// The byte `k` places after the start of the running call's next instruction.
    pub open spec fn code_byte(&self, k: int) -> Option<u8> {
        match self.running_chunk() {
            Some(chunk) => {
                let i = self.spec_frames().last().ip + k;
                if 0 <= i < chunk.spec_code().len() {
                    Some(chunk.spec_code()[i])
                } else {
                    None
                }
            },
            None => None,
        }
    }

    /// The next instruction, when there is a next byte and it names one.
    pub open spec fn next_instruction(&self) -> Option<OpCode> {
        match self.code_byte(0) {
            Some(b) => OpCode::spec_from_byte(b),
            None => None,
        }
    }

    /// The constants of the running call's chunk.
    pub open spec fn running_constants(&self) -> Seq<Value> {
        match self.running_chunk() {
            Some(chunk) => chunk.spec_constants(),
            None => Seq::empty(),
        }
    }

    /// The content of the string that `value` refers to, if it refers to one.
    pub open spec fn string_content(&self, value: Value) -> Option<Seq<char>> {
        match value {
            Value::Object(q) => match self.manager().slot(q) {
                Some(HeapObject::String(o)) => Some(o.content@),
                _ => None,
            },
            _ => None,
        }
    }

    /// The content of the string constant whose index is the byte `k` places after the start
    /// of the next instruction: the name that a global-variable instruction names.
    pub open spec fn constant_name(&self, k: int) -> Option<Seq<char>> {
        match self.code_byte(k) {
            Some(i) => if i < self.running_constants().len() {
                self.string_content(self.running_constants()[i as int])
            } else {
                None
            },
            None => None,
        }
    }

    /// The contents of the `count` string constants named by the bytes from `k` places after
    /// the start of the next instruction on, when each of them is one.
    pub open spec fn constant_names(&self, k: int, count: int) -> Option<Seq<Seq<char>>> {
        if forall|j: int| 0 <= j < count ==> #[trigger] self.constant_name(k + j) is Some {
            Some(Seq::new(count as nat, |j: int| self.constant_name(k + j)->0))
        } else {
            None
        }
    }

    /// The constant whose index is the byte `k` places after the start of the next
    /// instruction.
    pub open spec fn constant_value(&self, k: int) -> Option<Value> {
        match self.code_byte(k) {
            Some(i) => if i < self.running_constants().len() {
                Some(self.running_constants()[i as int])
            } else {
                None
            },
            None => None,
        }
    }

    /// The two-byte operand, high byte first, that starts `k` bytes after the start of the
    /// next instruction.
    pub open spec fn short_operand(&self, k: int) -> Option<int> {
        match (self.code_byte(k), self.code_byte(k + 1)) {
            (Some(high), Some(low)) => Some(high * 256 + low),
            _ => None,
        }
    }

    /// The offset of the running call's next instruction.
    pub open spec fn spec_ip(&self) -> int {
        self.spec_frames().last().ip as int
    }

    /// The stack slot where the running call's frame starts.
    pub open spec fn frame_base(&self) -> int {
        self.spec_frames().last().stack_base_offset as int
    }

    /// The frames once the running call has moved `k` bytes on.
    pub open spec fn frames_moved(&self, k: int) -> Seq<CallFrame> {
        let last = self.spec_frames().last();
        self.spec_frames().update(
            self.spec_frames().len() - 1,
            CallFrame { ip: (last.ip + k) as usize, ..last },
        )
    }

    /// `after` is this machine once an instruction of `length` bytes has replaced the top
    /// `count` values with `values`, leaving the slots above them and the globals as they
    /// were. Too few values, or too many for the stack, make it an error instead.
    pub open spec fn rewrites(
        &self,
        after: VM,
        r: Result<Option<InterpretResult>, String>,
        count: int,
        values: Seq<Value>,
        length: int,
    ) -> bool {
        let top = self.spec_stack_top();
        let new_top = top - count + values.len();
        if top < count || new_top > MAX_STACK_SIZE {
            r is Err
        } else {
            &&& r == Ok::<Option<InterpretResult>, String>(None)
            &&& after.spec_stack_top() == new_top
            &&& after.spec_slots() == self.spec_slots().take(top - count) + values
                + self.spec_slots().skip(new_top)
            &&& after.spec_frames() == self.frames_moved(length)
            &&& after.spec_globals()@ == self.spec_globals()@
        }
    }

    /// `after` is this machine once the running call has moved `length` bytes on, the stack
    /// and the globals as they were.
    pub open spec fn moves(
        &self,
        after: VM,
        r: Result<Option<InterpretResult>, String>,
        length: int,
    ) -> bool {
        &&& r == Ok::<Option<InterpretResult>, String>(None)
        &&& after.spec_stack_top() == self.spec_stack_top()
        &&& after.spec_slots() == self.spec_slots()
        &&& after.spec_frames() == self.frames_moved(length)
        &&& after.spec_globals()@ == self.spec_globals()@
    }

    /// What a taken jump does that ends an instruction of `length` bytes: the running call
    /// moves on to `offset` bytes past that instruction's end, or back before it when
    /// `forward` is false; a target outside the addressable offsets is an error.
    pub open spec fn jumps(
        &self,
        after: VM,
        r: Result<Option<InterpretResult>, String>,
        length: int,
        offset: int,
        forward: bool,
    ) -> bool {
        let target = if forward {
            length + offset
        } else {
            length - offset
        };
        if 0 <= self.spec_ip() + target <= usize::MAX {
            self.moves(after, r, target)
        } else {
            r is Err
        }
    }

    /// What a conditional jump of `length` bytes does: taken when the top value's falseness
    /// is `when_false`; an empty stack is an error.
    pub open spec fn jumps_if(
        &self,
        after: VM,
        r: Result<Option<InterpretResult>, String>,
        length: int,
        offset: int,
        when_false: bool,
    ) -> bool {
        let top = self.spec_stack_top();
        if top == 0 {
            r is Err
        } else if falsey(self.spec_slots()[top - 1]) == when_false {
            self.jumps(after, r, length, offset, true)
        } else {
            self.moves(after, r, length)
        }
    }

    /// What an instruction of `length` bytes on the two numbers on top of the stack does: it
    /// replaces them by one result, a boolean for a `comparison` and a number otherwise (what
    /// the host computes). Fewer than two values, or a top value that is not a number, is an
    /// error.
    pub open spec fn combines_numbers<H: Host>(
        &self,
        host: &H,
        after: VM,
        r: Result<Option<InterpretResult>, String>,
        op: OpCode,
        length: int,
    ) -> bool {
        let top = self.spec_stack_top();
        if top < 2 || !(self.spec_slots()[top - 1] is Number) || !(self.spec_slots()[top
            - 2] is Number) {
            let message = if top < 2 {
                "Binary operator must have two operands."@
            } else if !(self.spec_slots()[top - 1] is Number) {
                "Second operand must be a number."@
            } else {
                "First operand must be a number."@
            };
            self.refuses(after, r, length, message)
        } else {
            let result = after.spec_slots()[top - 2];
            &&& r == Ok::<Option<InterpretResult>, String>(None)
            &&& after.spec_stack_top() == top - 1
            &&& after.spec_slots() == self.spec_slots().update(top - 2, result)
            &&& after.spec_frames() == self.frames_moved(length)
            &&& after.spec_globals()@ == self.spec_globals()@
            &&& result == number_result(
                host,
                op,
                self.spec_slots()[top - 2]->Number_0,
                self.spec_slots()[top - 1]->Number_0,
            )
        }
    }

    /// An instruction of `length` bytes failed with the runtime error `message`: the stack and
    /// the globals are as they were, and the running call has moved on by the instruction.
    pub open spec fn refuses(
        &self,
        after: VM,
        r: Result<Option<InterpretResult>, String>,
        length: int,
        message: Seq<char>,
    ) -> bool {
        &&& r matches Err(text) && text@ == self.error_text_at(self.frames_moved(length), message)
        &&& after.spec_stack_top() == self.spec_stack_top()
        &&& after.spec_slots() == self.spec_slots()
        &&& after.spec_frames() == self.frames_moved(length)
        &&& after.spec_globals()@ == self.spec_globals()@
    }

    /// What `+` of `length` bytes does: two strings give the interned string of their
    /// concatenation, two numbers their sum (what the host computes); anything else, or fewer
    /// than two values, is an error.
    pub open spec fn adds<H: Host>(
        &self,
        host: &H,
        after: VM,
        r: Result<Option<InterpretResult>, String>,
        length: int,
    ) -> bool {
        let top = self.spec_stack_top();
        if top < 2 {
            self.refuses(
                after,
                r,
                length,
                "There is a lack of operands in the '+' Operation."@,
            )
        } else {
            let a = self.spec_slots()[top - 2];
            let b = self.spec_slots()[top - 1];
            match (self.string_content(a), self.string_content(b)) {
                (Some(x), Some(y)) => {
                    let result = after.spec_slots()[top - 2];
                    &&& r == Ok::<Option<InterpretResult>, String>(None)
                    &&& after.spec_stack_top() == top - 1
                    &&& after.spec_slots() == self.spec_slots().update(top - 2, result)
                    &&& after.spec_frames() == self.frames_moved(length)
                    &&& after.spec_globals()@ == self.spec_globals()@
                    &&& after.spec_intern_strings()@.dom().contains(x + y)
                    &&& result == after.spec_intern_strings()@[x + y]
                },
                _ => if a is Number && b is Number {
                    self.combines_numbers(host, after, r, OpCode::Add, length)
                } else {
                    self.refuses(after, r, length, "Operands must be two numbers or two strings."@)
                },
            }
        }
    }

    /// What `-` in front of a value, `length` bytes long, does: it replaces the number on top
    /// by its negation (what the host computes); an empty stack or another value is an error.
    pub open spec fn negates<H: Host>(
        &self,
        host: &H,
        after: VM,
        r: Result<Option<InterpretResult>, String>,
        length: int,
    ) -> bool {
        let top = self.spec_stack_top();
        if top == 0 {
            self.refuses(after, r, length, "Stack underflow"@)
        } else if !(self.spec_slots()[top - 1] is Number) {
            self.refuses(after, r, length, "Operand must be a number."@)
        } else {
            let result = after.spec_slots()[top - 1];
            &&& r == Ok::<Option<InterpretResult>, String>(None)
            &&& after.spec_stack_top() == top
            &&& after.spec_slots() == self.spec_slots().update(top - 1, result)
            &&& after.spec_frames() == self.frames_moved(length)
            &&& after.spec_globals()@ == self.spec_globals()@
            &&& result == Value::Number(host.spec_negate(self.spec_slots()[top - 1]->Number_0))
        }
    }

    /// The number of parameters of the function that `callable` refers to, or of the function
    /// of the closure it refers to.
    pub open spec fn callable_arity(&self, callable: ObjRef) -> Option<u8> {
        match self.manager().slot(callable) {
            Some(HeapObject::Function(f)) => Some(f.arity),
            Some(HeapObject::Closure(c)) => match self.manager().slot(c.function) {
                Some(HeapObject::Function(f)) => Some(f.arity),
                _ => None,
            },
            _ => None,
        }
    }

    /// What a call of `argument_count` arguments, `length` bytes long, does. The callee stands
    /// below the arguments. A function or a closure whose arity matches gets a frame that
    /// starts at the callee's slot; a native function runs at once (the host computes it,
    /// and may fail), its number replacing its arity's worth of arguments and the slot below
    /// them. Anything else, a wrong arity or a full frame stack is an error.
    pub open spec fn calls(
        &self,
        after: VM,
        r: Result<Option<InterpretResult>, String>,
        argument_count: int,
        length: int,
    ) -> bool {
        let top = self.spec_stack_top();
        &&& r is Err ==> (r matches Err(text) && text@ == self.error_text_at(
            self.frames_moved(length),
            "Instruction Call failed."@,
        ))
        &&& if argument_count >= top {
            r is Err
        } else {
            match self.spec_slots()[top - 1 - argument_count] {
                Value::Object(q) => match self.manager().slot(q) {
                    Some(HeapObject::NativeFunction(f)) => {
                        let base = top - f.arity - 1;
                        &&& base < 0 ==> r is Err
                        &&& f.arity > 0 ==> r is Err
                        &&& r is Ok ==> {
                            &&& r == Ok::<Option<InterpretResult>, String>(None)
                            &&& after.spec_stack_top() == base + 1
                            &&& after.spec_slots() == self.spec_slots().update(
                                base,
                                after.spec_slots()[base],
                            )
                            &&& after.spec_slots()[base] is Number
                            &&& after.spec_frames() == self.frames_moved(length)
                            &&& after.spec_globals()@ == self.spec_globals()@
                        }
                    },
                    _ => match self.callable_arity(q) {
                        Some(arity) => if arity == argument_count && self.spec_frames().len()
                            < MAX_FRAMES_SIZE {
                            &&& r == Ok::<Option<InterpretResult>, String>(None)
                            &&& after.spec_frames() == self.frames_moved(length).push(
                                CallFrame {
                                    callable_object: q,
                                    ip: 0,
                                    stack_base_offset: (top - argument_count - 1) as usize,
                                },
                            )
                            &&& after.spec_stack_top() == top
                            &&& after.spec_slots() == self.spec_slots()
                            &&& after.spec_globals()@ == self.spec_globals()@
                        } else {
                            r is Err
                        },
                        None => r is Err,
                    },
                },
                _ => r is Err,
            }
        }
    }

    /// What a return does: the top value is the result; the running call's frame goes, and
    /// the result takes the place of its callee, where the caller goes on. When the outermost
    /// call returns, the script has run to its end. An empty stack, or a stack struct as the
    /// result, is an error.
    pub open spec fn returns_from_call(&self, after: VM, r: Result<Option<InterpretResult>, String>) -> bool {
        let top = self.spec_stack_top();
        let n = self.spec_frames().len();
        let result = self.spec_slots()[top - 1];
        if top == 0 || result is StackStruct || n == 0 {
            r is Err
        } else if n == 1 {
            &&& r == Ok::<Option<InterpretResult>, String>(Some(InterpretResult::InterpretOk))
            &&& after.spec_frames() == Seq::<CallFrame>::empty()
            &&& after.spec_globals()@ == self.spec_globals()@
            &&& after.spec_stack_top() == (if top >= 2 {
                top - 2
            } else {
                0
            })
            &&& after.spec_open_upvalues() == self.spec_open_upvalues()
            &&& forall|i: int|
                0 <= i < self.spec_open_upvalues().len() ==> self.closed_in(
                    &after,
                    self.frame_base(),
                    #[trigger] self.spec_open_upvalues()[i],
                )
        } else {
            &&& after.spec_open_upvalues() == self.spec_open_upvalues()
            &&& forall|i: int|
                0 <= i < self.spec_open_upvalues().len() ==> self.closed_in(
                    &after,
                    self.frame_base(),
                    #[trigger] self.spec_open_upvalues()[i],
                )
            &&& r == Ok::<Option<InterpretResult>, String>(None)
            &&& after.spec_frames() == self.spec_frames().drop_last()
            &&& after.spec_stack_top() == self.frame_base() + 1
            &&& after.spec_slots() == self.spec_slots().update(self.frame_base(), result)
            &&& after.spec_globals()@ == self.spec_globals()@
        }
    }

    /// What assigning `value` to the variable of open upvalue number `index` does, in an
    /// instruction of `length` bytes: the stack slot of an open upvalue takes the value, a
    /// closed upvalue holds it from now on.
    pub open spec fn assigns_upvalue(
        &self,
        after: VM,
        r: Result<Option<InterpretResult>, String>,
        index: int,
        value: Value,
        length: int,
    ) -> bool {
        if 0 <= index < self.spec_open_upvalues().len() {
            let up = self.spec_open_upvalues()[index];
            match self.manager().slot(up) {
                Some(HeapObject::Upvalue(u)) => {
                    let changed_slots = match u.location {
                        UpvalueLocation::Stack(i) => self.spec_slots().update(i as int, value),
                        UpvalueLocation::Closed => self.spec_slots(),
                    };
                    if u.location matches UpvalueLocation::Stack(i) && i >= MAX_STACK_SIZE {
                        r is Err
                    } else {
                        &&& r == Ok::<Option<InterpretResult>, String>(None)
                        &&& after.spec_stack_top() == self.spec_stack_top()
                        &&& after.spec_slots() == changed_slots
                        &&& after.spec_frames() == self.frames_moved(length)
                        &&& after.spec_globals()@ == self.spec_globals()@
                        &&& after.spec_open_upvalues() == self.spec_open_upvalues()
                        &&& u.location is Closed ==> upvalue_updated(
                            self.manager().slot(up),
                            after.manager().slot(up),
                            UpvalueLocation::Closed,
                            value,
                        )
                    }
                },
                _ => r is Err,
            }
        } else {
            r is Err
        }
    }

    /// What setting field `name` of the struct below the top value to that value does, in an
    /// instruction of `length` bytes: the field takes the value, which replaces both on the
    /// stack. An instance on the heap may be collected in the same step once nothing holds it.
    pub open spec fn sets_field(
        &self,
        after: VM,
        r: Result<Option<InterpretResult>, String>,
        name: Seq<char>,
        length: int,
    ) -> bool {
        let top = self.spec_stack_top();
        if top < 2 {
            r is Err
        } else {
            let value = self.spec_slots()[top - 1];
            let receiver = self.spec_slots()[top - 2];
            match self.struct_of(receiver) {
                Some((t, fields)) => match self.field_position(t, name) {
                    Some(p) => if p < fields.len() {
                        let updated = Some((t, fields.update(p, value)));
                        &&& self.rewrites(after, r, 2, seq![value], length)
                        &&& match receiver {
                            Value::Object(q) => after.manager().slot(q) is None
                                || after.struct_of(receiver) == updated,
                            _ => after.struct_of(receiver) == updated,
                        }
                    } else {
                        r is Err
                    },
                    None => r is Err,
                },
                None => r is Err,
            }
        }
    }

    /// The function that the constant named by the byte `k` places after the start of the
    /// next instruction refers to, with its handle.
    pub open spec fn constant_function(&self, k: int) -> Option<(ObjRef, ObjectFunction)> {
        match self.code_byte(k) {
            Some(i) => if i < self.running_constants().len() {
                match self.running_constants()[i as int] {
                    Value::Object(q) => match self.manager().slot(q) {
                        Some(HeapObject::Function(f)) => Some((q, f)),
                        _ => None,
                    },
                    _ => None,
                }
            } else {
                None
            },
            None => None,
        }
    }

    /// Capture `j` of a closure instruction whose capture pairs start `k` bytes after the
    /// start of the next instruction is there and names a variable: a flag byte (zero for a
    /// capture that the running closure holds, another value for a local of the running call)
    /// and an index byte.
    pub open spec fn capture_ok(&self, k: int, j: int) -> bool {
        match (self.code_byte(k + 2 * j), self.code_byte(k + 2 * j + 1)) {
            (Some(flag), Some(index)) => if flag == 0 {
                self.capture_index(index as int) is Some
            } else {
                self.frame_base() + index < MAX_STACK_SIZE
            },
            _ => false,
        }
    }

    /// The closure made in `after` holds, for capture `j`, open upvalue number `upvalue`: the
    /// one that the running closure holds for that capture, or one open on the local's stack
    /// slot.
    pub open spec fn captured(&self, after: VM, k: int, j: int, upvalue: usize) -> bool {
        match (self.code_byte(k + 2 * j), self.code_byte(k + 2 * j + 1)) {
            (Some(flag), Some(index)) => if flag == 0 {
                self.capture_index(index as int) == Some(upvalue)
            } else {
                &&& upvalue < after.spec_open_upvalues().len()
                &&& after.manager().slot(after.spec_open_upvalues()[upvalue as int]) matches Some(
                    HeapObject::Upvalue(u),
                )
                &&& u.location == UpvalueLocation::Stack((self.frame_base() + index) as usize)
            },
            _ => false,
        }
    }

    /// What making a closure does, when the constant operand is `k` bytes after the start of
    /// the next instruction and the capture pairs follow it: a new closure of that function,
    /// with one upvalue for each capture, is pushed. A constant that is no function, a missing
    /// or unknown capture, or a full stack is an error.
    pub open spec fn makes_closure(
        &self,
        after: VM,
        r: Result<Option<InterpretResult>, String>,
        k: int,
    ) -> bool {
        match self.constant_function(k) {
            Some((function, f)) => {
                let count = f.upvalue_count as int;
                let top = self.spec_stack_top();
                let length = k + 1 + 2 * count;
                if (forall|j: int| 0 <= j < count ==> #[trigger] self.capture_ok(k + 1, j)) && top
                    < MAX_STACK_SIZE && self.spec_ip() + length <= usize::MAX {
                    let v = after.spec_slots()[top];
                    &&& r == Ok::<Option<InterpretResult>, String>(None)
                    &&& after.spec_stack_top() == top + 1
                    &&& after.spec_slots() == self.spec_slots().update(top, v)
                    &&& after.spec_frames() == self.frames_moved(length)
                    &&& after.spec_globals()@ == self.spec_globals()@
                    &&& v matches Value::Object(q)
                    &&& after.manager().slot(v->Object_0) matches Some(HeapObject::Closure(c))
                    &&& c.function == function
                    &&& c.upvalues@.len() == count
                    &&& forall|j: int|
                        0 <= j < count ==> #[trigger] self.captured(after, k + 1, j, c.upvalues@[j])
                } else {
                    r is Err
                }
            },
            None => r is Err,
        }
    }

    /// What declaring a struct type of `length` bytes does: unless a struct type of that name
    /// is registered already, a struct type with the given field names is made and registered
    /// under `name`.
    pub open spec fn registers_struct(
        &self,
        after: VM,
        r: Result<Option<InterpretResult>, String>,
        name: Seq<char>,
        fields: Seq<Seq<char>>,
        length: int,
    ) -> bool {
        &&& r == Ok::<Option<InterpretResult>, String>(None)
        &&& after.spec_stack_top() == self.spec_stack_top()
        &&& after.spec_slots() == self.spec_slots()
        &&& after.spec_frames() == self.frames_moved(length)
        &&& after.spec_globals()@ == self.spec_globals()@
        &&& if self.spec_struct_types()@.dom().contains(name) {
            after.spec_struct_types()@ == self.spec_struct_types()@
        } else {
            let registered = after.spec_struct_types()@[name];
            &&& after.spec_struct_types()@ == self.spec_struct_types()@.insert(name, registered)
            &&& registered is Object
            &&& after.manager().slot(registered->Object_0) matches Some(HeapObject::StructType(t))
            &&& t.name@ == name
            &&& t.field_names@.map_values(|f: String| f@) == fields
        }
    }

    /// The (position, value) pairs of a struct literal of type `struct_type` whose field names
    /// are `literal` and whose values are the top values of the stack, in order.
    pub open spec fn literal_pairs(&self, struct_type: ObjRef, literal: Seq<Seq<char>>) -> Seq<
        (int, Value),
    > {
        let n = literal.len() as int;
        let top = self.spec_stack_top();
        Seq::new(
            n as nat,
            |i: int|
                (
                    self.field_position(struct_type, literal[i])->0,
                    self.spec_slots()[top - n + i],
                ),
        )
    }

    /// What a struct literal of type `name`, with field names `literal`, does in an
    /// instruction of `length` bytes: the values of its fields, on top of the stack, make a new
    /// struct of that type (a field named twice takes the later value, one not named is nil):
    /// an instance on the heap, or a stack struct of the running call. An unknown type or
    /// field, a wrong number of fields, too few values or no room is an error.
    pub open spec fn instantiates(
        &self,
        after: VM,
        r: Result<Option<InterpretResult>, String>,
        name: Seq<char>,
        literal: Seq<Seq<char>>,
        length: int,
        on_heap: bool,
    ) -> bool {
        let top = self.spec_stack_top();
        let n = literal.len() as int;
        let types = self.spec_struct_types()@;
        if !types.dom().contains(name) || !(types[name] is Object) {
            r is Err
        } else {
            let st = types[name]->Object_0;
            match self.manager().slot(st) {
                Some(HeapObject::StructType(t)) => if n != t.field_names@.len() || top < n || top - n
                    + 1 > MAX_STACK_SIZE || (exists|i: int|
                    0 <= i < n && #[trigger] self.field_position(st, literal[i]) is None) || (!on_heap
                    && self.stack_struct_count() is None) {
                    r is Err
                } else {
                    let v = after.spec_slots()[top - n];
                    &&& r == Ok::<Option<InterpretResult>, String>(None)
                    &&& after.spec_stack_top() == top - n + 1
                    &&& after.spec_slots() == self.spec_slots().update(top - n, v)
                    &&& after.spec_frames() == self.frames_moved(length)
                    &&& after.spec_globals()@ == self.spec_globals()@
                    &&& after.struct_of(v) == Some(
                        (st, literal_fields(self.literal_pairs(st, literal), n)),
                    )
                    &&& if on_heap {
                        v is Object
                    } else {
                        v == Value::StackStruct(self.stack_struct_count()->0 as usize)
                    }
                },
                _ => r is Err,
            }
        }
    }

    /// What declaring the trait that `constant` names, with the given method names, does in
    /// an instruction of `length` bytes: a trait object gets those methods and is registered
    /// under its name; a name registers a new trait with those methods unless one of that name
    /// is registered already. Any other constant is an error.
    pub open spec fn implements_trait(
        &self,
        after: VM,
        r: Result<Option<InterpretResult>, String>,
        constant: Option<Value>,
        methods: Seq<Seq<char>>,
        length: int,
    ) -> bool {
        let traits = self.spec_trait_registry()@;
        match constant {
            Some(c) => match (c, self.manager().slot(c->Object_0)) {
                (Value::Object(q), Some(HeapObject::Trait(t))) => {
                    &&& self.moves(after, r, length)
                    &&& after.spec_trait_registry()@ == traits.insert(t.name@, c)
                    &&& after.manager().slot(q) matches Some(HeapObject::Trait(u))
                    &&& u.name == t.name
                    &&& u.method_names@.map_values(|m: String| m@) == methods
                },
                _ => match self.string_content(c) {
                    Some(name) => {
                        &&& self.moves(after, r, length)
                        &&& if traits.dom().contains(name) {
                            after.spec_trait_registry()@ == traits
                        } else {
                            let registered = after.spec_trait_registry()@[name];
                            &&& after.spec_trait_registry()@ == traits.insert(name, registered)
                            &&& registered is Object
                            &&& after.manager().slot(registered->Object_0) matches Some(
                                HeapObject::Trait(u),
                            )
                            &&& u.name@ == name
                            &&& u.method_names@.map_values(|m: String| m@) == methods
                        }
                    },
                    None => r is Err,
                },
            },
            None => r is Err,
        }
    }

    /// The method pairs of an impl whose pairs start `k` bytes after the start of the next
    /// instruction are all there: each a string constant for the name and a byte for the
    /// function constant.
    pub open spec fn method_pairs_ok(&self, k: int, count: int) -> bool {
        forall|j: int|
            0 <= j < count ==> #[trigger] self.constant_name(k + 2 * j) is Some && self.code_byte(
                k + 2 * j + 1,
            ) is Some
    }

    /// `base` with the first `count` method pairs that start `k` bytes after the start of the
    /// next instruction set in turn; a pair whose function constant is no object is left out.
    pub open spec fn methods_added(&self, base: Map<Seq<char>, Value>, k: int, count: int) -> Map<
        Seq<char>,
        Value,
    >
        decreases count,
    {
        if count <= 0 {
            base
        } else {
            let added = self.methods_added(base, k, count - 1);
            let j = count - 1;
            match self.constant_value(k + 2 * j + 1) {
                Some(Value::Object(q)) => added.insert(
                    self.constant_name(k + 2 * j)->0,
                    Value::Object(q),
                ),
                _ => added,
            }
        }
    }

    /// What an impl of trait `trait_name` for type `receiver_type` does, with its `count` method
    /// pairs starting `k` bytes after the start of the next instruction: the methods join the
    /// method table of the type (made when there is none), the other tables stay. An unknown
    /// trait or a missing pair is an error.
    pub open spec fn registers_methods(
        &self,
        after: VM,
        r: Result<Option<InterpretResult>, String>,
        trait_name: Seq<char>,
        receiver_type: Seq<char>,
        k: int,
        count: int,
    ) -> bool {
        if !self.spec_trait_registry()@.dom().contains(trait_name) || !self.method_pairs_ok(
            k,
            count,
        ) || self.spec_ip() + k + 2 * count > usize::MAX {
            r is Err
        } else {
            let base = match self.methods_of(receiver_type) {
                Some(m) => m,
                None => Map::empty(),
            };
            &&& self.moves(after, r, k + 2 * count)
            &&& after.methods_of(receiver_type) == Some(self.methods_added(base, k, count))
            &&& forall|other: Seq<char>|
                other != receiver_type ==> #[trigger] after.methods_of(other) == self.methods_of(other)
        }
    }

    /// The name of the struct type of `receiver`: an instance on the heap or a stack struct
    /// of the running call.
    pub open spec fn receiver_struct_name(&self, receiver: Value) -> Option<Seq<char>> {
        match self.struct_of(receiver) {
            Some((st, _)) => match self.manager().slot(st) {
                Some(HeapObject::StructType(t)) => Some(t.name@),
                _ => None,
            },
            None => None,
        }
    }

    /// What calling `method` with `argument_count` arguments does, in an instruction of
    /// `length` bytes, once the stack holds `slots` with one value more than now: as a call
    /// does (see `calls`), with the method where the callee stands.
    pub open spec fn calls_method(
        &self,
        after: VM,
        r: Result<Option<InterpretResult>, String>,
        method: Value,
        slots: Seq<Value>,
        argument_count: int,
        length: int,
    ) -> bool {
        let top = self.spec_stack_top() + 1;
        match method {
            Value::Object(q) => match self.manager().slot(q) {
                Some(HeapObject::NativeFunction(f)) => {
                    let base = top - f.arity - 1;
                    &&& base < 0 ==> r is Err
                    &&& r is Ok ==> {
                        &&& r == Ok::<Option<InterpretResult>, String>(None)
                        &&& after.spec_stack_top() == base + 1
                        &&& after.spec_slots() == slots.update(base, after.spec_slots()[base])
                        &&& after.spec_slots()[base] is Number
                        &&& after.spec_frames() == self.frames_moved(length)
                        &&& after.spec_globals()@ == self.spec_globals()@
                    }
                },
                _ => match self.callable_arity(q) {
                    Some(arity) => if arity == argument_count && self.spec_frames().len()
                        < MAX_FRAMES_SIZE {
                        &&& r == Ok::<Option<InterpretResult>, String>(None)
                        &&& after.spec_frames() == self.frames_moved(length).push(
                            CallFrame {
                                callable_object: q,
                                ip: 0,
                                stack_base_offset: (top - argument_count - 1) as usize,
                            },
                        )
                        &&& after.spec_stack_top() == top
                        &&& after.spec_slots() == slots
                        &&& after.spec_globals()@ == self.spec_globals()@
                    } else {
                        r is Err
                    },
                    None => r is Err,
                },
            },
            _ => r is Err,
        }
    }

    /// What invoking method `method_name` with `argument_count` arguments does, in an
    /// instruction of `length` bytes: the receiver stands below the arguments; the method of
    /// that name in the method table of the receiver's struct type goes in below the receiver
    /// and is called with the receiver as its first argument. A receiver that is no struct, an
    /// unknown method, or a full stack is an error.
    pub open spec fn invokes(
        &self,
        after: VM,
        r: Result<Option<InterpretResult>, String>,
        method_name: Option<Seq<char>>,
        argument_count: int,
        length: int,
    ) -> bool {
        let top = self.spec_stack_top();
        if argument_count >= top {
            r is Err
        } else {
            let receiver = self.spec_slots()[top - 1 - argument_count];
            match (self.receiver_struct_name(receiver), method_name) {
                (Some(struct_name), Some(name)) => match self.methods_of(struct_name) {
                    Some(methods) => if !methods.dom().contains(name) || top >= MAX_STACK_SIZE
                        || argument_count >= 255 {
                        r is Err
                    } else {
                        let base = top - 1 - argument_count;
                        let slots = self.spec_slots().take(base) + seq![methods[name]]
                            + self.spec_slots().subrange(base, top) + self.spec_slots().skip(
                            top + 1,
                        );
                        self.calls_method(
                            after,
                            r,
                            methods[name],
                            slots,
                            argument_count + 1,
                            length,
                        )
                    },
                    None => r is Err,
                },
                _ => r is Err,
            }
        }
    }

    /// What one step does: `after`, `r` and `printed` are the machine, the result and what is
    /// to be shown once this machine has run its next instruction, each instruction as its own
    /// clause says; only `print` shows anything. A missing or unknown instruction is an error.
    /// Arithmetic and comparisons of numbers are the host's, native functions are left to it.
    pub open spec fn steps_to<H: Host>(
        &self,
        host: &H,
        after: VM,
        r: Result<Option<InterpretResult>, String>,
        printed: Option<Printed>,
    ) -> bool {
        let top = self.spec_stack_top();
        &&& self.code_byte(0) is None ==> r is Err
        &&& (self.code_byte(0) is Some && self.next_instruction() is None) ==> r is Err
        &&& self.next_instruction() != Some(OpCode::Print) ==> printed is None
        &&& match self.next_instruction() {
            Some(OpCode::Nil) => self.rewrites(after, r, 0, seq![Value::Nil], 1),
            Some(OpCode::True) => self.rewrites(after, r, 0, seq![Value::Bool(true)], 1),
            Some(OpCode::False) => self.rewrites(after, r, 0, seq![Value::Bool(false)], 1),
            Some(OpCode::Pop) => self.rewrites(after, r, 1, Seq::empty(), 1),
            Some(OpCode::Print) => {
                &&& self.rewrites(after, r, 1, Seq::empty(), 1)
                &&& r is Ok ==> (printed matches Some(p) && prints_as(
                    self.spec_slots()[top - 1],
                    self.manager(),
                    p,
                ))
            },
            Some(OpCode::Not) => self.rewrites(
                after,
                r,
                1,
                seq![Value::Bool(falsey(self.spec_slots()[top - 1]))],
                1,
            ),
            Some(OpCode::Constant) => match self.code_byte(1) {
                Some(i) => if i < self.running_constants().len() {
                    self.rewrites(after, r, 0, seq![self.running_constants()[i as int]], 2)
                } else {
                    self.moves(after, r, 2)
                },
                None => self.moves(after, r, 1),
            },
            Some(OpCode::GetLocal) => match self.code_byte(1) {
                Some(slot) => if self.frame_base() + slot < MAX_STACK_SIZE {
                    self.rewrites(after, r, 0, seq![self.spec_slots()[self.frame_base() + slot]], 2)
                } else {
                    r is Err
                },
                None => r is Err,
            },
            Some(OpCode::SetLocal) => match self.code_byte(1) {
                Some(slot) => if top == 0 || self.frame_base() + slot >= MAX_STACK_SIZE {
                    r is Err
                } else {
                    &&& r == Ok::<Option<InterpretResult>, String>(None)
                    &&& after.spec_stack_top() == top
                    &&& after.spec_slots() == self.spec_slots().update(
                        self.frame_base() + slot,
                        self.spec_slots()[top - 1],
                    )
                    &&& after.spec_frames() == self.frames_moved(2)
                    &&& after.spec_globals()@ == self.spec_globals()@
                },
                None => r is Err,
            },
            Some(OpCode::Equal) => if top < 2 {
                r is Err
            } else {
                let a = self.spec_slots()[top - 2];
                let b = self.spec_slots()[top - 1];
                let result = after.spec_slots()[top - 2];
                &&& r == Ok::<Option<InterpretResult>, String>(None)
                &&& after.spec_stack_top() == top - 1
                &&& after.spec_slots() == self.spec_slots().update(top - 2, result)
                &&& after.spec_frames() == self.frames_moved(1)
                &&& after.spec_globals()@ == self.spec_globals()@
                &&& result is Bool
                &&& !(a is Number && b is Number) ==> result == Value::Bool(a == b)
                &&& (a is Number && b is Number) ==> result == Value::Bool(
                    host.spec_numbers_equal(a->Number_0, b->Number_0),
                )
            },
            Some(OpCode::Call) => match self.code_byte(1) {
                Some(argument_count) => self.calls(after, r, argument_count as int, 2),
                None => r is Err,
            },
            Some(OpCode::Return) => self.returns_from_call(after, r),
            Some(OpCode::Invoke) => match self.code_byte(2) {
                Some(argument_count) => self.invokes(
                    after,
                    r,
                    self.constant_name(1),
                    argument_count as int,
                    3,
                ),
                None => r is Err,
            },
            Some(OpCode::CloseUpvalue) => self.rewrites(after, r, 1, Seq::empty(), 1),
            Some(OpCode::Closure) => self.makes_closure(after, r, 1),
            Some(OpCode::StructInstantiate) => match (self.constant_name(1), self.code_byte(2)) {
                (Some(name), Some(count)) => match self.constant_names(3, count as int) {
                    Some(literal) => self.instantiates(after, r, name, literal, 3 + count, true),
                    None => r is Err,
                },
                _ => r is Err,
            },
            Some(OpCode::StructInstantiateStack) => match (
                self.constant_name(1),
                self.code_byte(2),
            ) {
                (Some(name), Some(count)) => match self.constant_names(3, count as int) {
                    Some(literal) => self.instantiates(after, r, name, literal, 3 + count, false),
                    None => r is Err,
                },
                _ => r is Err,
            },
            Some(OpCode::ImplementTrait) => match self.code_byte(2) {
                Some(count) => match self.constant_names(3, count as int) {
                    Some(methods) => self.implements_trait(
                        after,
                        r,
                        self.constant_value(1),
                        methods,
                        3 + count,
                    ),
                    None => r is Err,
                },
                None => r is Err,
            },
            Some(OpCode::ImplRegister) => match (
                self.constant_name(1),
                self.constant_name(2),
                self.code_byte(3),
            ) {
                (Some(trait_name), Some(receiver_type), Some(count)) => self.registers_methods(
                    after,
                    r,
                    trait_name,
                    receiver_type,
                    4,
                    count as int,
                ),
                _ => r is Err,
            },
            Some(OpCode::StructType) => match (self.constant_name(1), self.code_byte(2)) {
                (Some(name), Some(count)) => match self.constant_names(3, count as int) {
                    Some(fields) => self.registers_struct(after, r, name, fields, 3 + count),
                    None => r is Err,
                },
                _ => r is Err,
            },
            Some(OpCode::GetField) => match self.constant_name(1) {
                Some(name) => if top == 0 {
                    r is Err
                } else {
                    match self.field_value(self.spec_slots()[top - 1], name) {
                        Some(value) => self.rewrites(after, r, 1, seq![value], 2),
                        None => r is Err,
                    }
                },
                None => r is Err,
            },
            Some(OpCode::SetField) => match self.constant_name(1) {
                Some(name) => self.sets_field(after, r, name, 2),
                None => r is Err,
            },
            Some(OpCode::GetUpvalue) => match self.code_byte(1) {
                Some(slot) => match self.capture_index(slot as int) {
                    Some(index) => match self.upvalue_value(index as int) {
                        Some(value) => self.rewrites(after, r, 0, seq![value], 2),
                        None => r is Err,
                    },
                    None => r is Err,
                },
                None => r is Err,
            },
            Some(OpCode::SetUpvalue) => match self.code_byte(1) {
                Some(slot) => match self.capture_index(slot as int) {
                    Some(index) => if top == 0 {
                        r is Err
                    } else {
                        self.assigns_upvalue(after, r, index as int, self.spec_slots()[top - 1], 2)
                    },
                    None => r is Err,
                },
                None => r is Err,
            },
            Some(OpCode::Greater) => self.combines_numbers(host, after, r, OpCode::Greater, 1),
            Some(OpCode::Less) => self.combines_numbers(host, after, r, OpCode::Less, 1),
            Some(OpCode::Subtract) => self.combines_numbers(host, after, r, OpCode::Subtract, 1),
            Some(OpCode::Multiply) => self.combines_numbers(host, after, r, OpCode::Multiply, 1),
            Some(OpCode::Divide) => self.combines_numbers(host, after, r, OpCode::Divide, 1),
            Some(OpCode::Add) => self.adds(host, after, r, 1),
            Some(OpCode::Negate) => self.negates(host, after, r, 1),
            Some(OpCode::GetGlobal) => match self.constant_name(1) {
                Some(name) => if self.spec_globals()@.dom().contains(name) {
                    self.rewrites(after, r, 0, seq![self.spec_globals()@[name]], 2)
                } else {
                    r is Err
                },
                None => r is Err,
            },
            Some(OpCode::DefineGlobal) => match self.constant_name(1) {
                Some(name) => if top == 0 {
                    r is Err
                } else {
                    let value = after.spec_globals()@[name];
                    &&& r == Ok::<Option<InterpretResult>, String>(None)
                    &&& after.spec_stack_top() == top - 1
                    &&& after.spec_slots() == self.spec_slots().update(top - 1, value)
                    &&& after.spec_frames() == self.frames_moved(2)
                    &&& after.spec_globals()@ == self.spec_globals()@.insert(name, value)
                    &&& !(self.spec_slots()[top - 1] is StackStruct) ==> value
                        == self.spec_slots()[top - 1]
                },
                None => r is Err,
            },
            Some(OpCode::SetGlobal) => match self.constant_name(1) {
                Some(name) => if top == 0 || !self.spec_globals()@.dom().contains(name) {
                    r is Err
                } else {
                    &&& r == Ok::<Option<InterpretResult>, String>(None)
                    &&& after.spec_stack_top() == top
                    &&& after.spec_frames() == self.frames_moved(2)
                    &&& after.spec_globals()@ == self.spec_globals()@.insert(
                        name,
                        self.spec_slots()[top - 1],
                    )
                    &&& !(self.spec_slots()[top - 1] is StackStruct) ==> after.spec_slots()
                        == self.spec_slots()
                },
                None => r is Err,
            },
            Some(OpCode::Jump) => match self.short_operand(1) {
                Some(offset) => self.jumps(after, r, 3, offset, true),
                None => r is Err,
            },
            Some(OpCode::Loop) => match self.short_operand(1) {
                Some(offset) => self.jumps(after, r, 3, offset, false),
                None => r is Err,
            },
            Some(OpCode::JumpIfFalse) => match self.short_operand(1) {
                Some(offset) => self.jumps_if(after, r, 3, offset, true),
                None => r is Err,
            },
            Some(OpCode::JumpIfTrue) => match self.short_operand(1) {
                Some(offset) => self.jumps_if(after, r, 3, offset, false),
                None => r is Err,
            },
            None => r is Err,
        }
    }

    /// A machine with an empty stack and heap, and no globals.
    pub fn new() -> (vm: VM)
        ensures
            vm.wf(),
            vm.spec_stack_top() == 0,
            vm.spec_frame_count() == 0,
            vm.spec_globals()@ == Map::<Seq<char>, Value>::empty(),
            vm.spec_gc_stats().cycles == 0,
            vm.spec_next_gc_bytes() == 1024 * 1024,
    {
        let mut stack: Vec<Value> = Vec::new();
        let mut i: usize = 0;
        while i < MAX_STACK_SIZE
            invariant
                i <= MAX_STACK_SIZE,
                stack@.len() == i,
            decreases MAX_STACK_SIZE - i,
        {
            stack.push(Value::Nil);
            i = i + 1;
        }
        let object_manager = ObjectManager::new();
        let intern_strings = Table::new();
        VM {
            frames: Vec::new(),
            stack,
            stack_top_pos: 0,
            object_manager,
            intern_strings,
            globals: Table::new(),
            struct_types: Table::new(),
            trait_registry: Table::new(),
            type_methods: Vec::new(),
            open_upvalues: Vec::new(),
            gc: GarbageCollector::new(),
            bytes_allocated: 0,
            next_gc_bytes: 1024 * 1024,
            frame_stack_structs: Vec::new(),
        }
    }

    /// The collector's statistics.
    pub fn gc_stats(&self) -> (s: &GCStats)
        requires
            self.wf(),
        ensures
            *s == self.spec_gc_stats(),
    {
        self.gc.stats()
    }

    /// Sets the allocation count above which the next allocation runs the collector.
    pub fn set_gc_threshold(&mut self, threshold: usize)
        requires
            old(self).wf(),
        ensures
            final(self).wf(),
            final(self).spec_next_gc_bytes() == threshold,
            final(self).spec_stack_top() == old(self).spec_stack_top(),
            final(self).spec_frame_count() == old(self).spec_frame_count(),
    {
        self.next_gc_bytes = threshold;
    }

    /// The global variables.
    pub fn globals(&self) -> (g: &Table)
        ensures
            *g == self.spec_globals(),
    {
        &self.globals
    }

    /// The heap.
    pub fn object_manager(&self) -> (m: &ObjectManager)
        ensures
            *m == self.manager(),
    {
        &self.object_manager
    }

    // -----------------------------------------------------------------------------------------
    // The stack
    // -----------------------------------------------------------------------------------------

    /// Pushes `value`; gives false, changing nothing, when the stack is full.
    fn push(&mut self, value: Value) -> (ok: bool)
        requires
            old(self).wf(),
        ensures
            final(self).wf(),
            ok == (old(self).stack_top_pos < MAX_STACK_SIZE),
            ok ==> final(self).stack@ == old(self).stack@.update(
                old(self).stack_top_pos as int,
                value,
            ) && final(self).stack_top_pos == old(self).stack_top_pos + 1,
            !ok ==> final(self).stack == old(self).stack && final(self).stack_top_pos == old(
                self,
            ).stack_top_pos,
            final(self).frames == old(self).frames,
            final(self).object_manager == old(self).object_manager,
            final(self).open_upvalues == old(self).open_upvalues,
            final(self).frame_stack_structs == old(self).frame_stack_structs,
            final(self).globals == old(self).globals,
            final(self).intern_strings == old(self).intern_strings,
    {
        if self.stack_top_pos < MAX_STACK_SIZE {
            self.stack.set(self.stack_top_pos, value);
            self.stack_top_pos = self.stack_top_pos + 1;
            true
        } else {
            false
        }
    }

    /// Pops the top value; nothing when the stack is empty.
    fn pop(&mut self) -> (v: Option<Value>)
        requires
            old(self).wf(),
        ensures
            final(self).wf(),
            old(self).stack_top_pos > 0 ==> v == Some(
                old(self).stack@[old(self).stack_top_pos - 1],
            ) && final(self).stack_top_pos == old(self).stack_top_pos - 1,
            old(self).stack_top_pos == 0 ==> v is None && final(self).stack_top_pos == 0,
            final(self).stack == old(self).stack,
            final(self).frames == old(self).frames,
            final(self).object_manager == old(self).object_manager,
            final(self).open_upvalues == old(self).open_upvalues,
            final(self).frame_stack_structs == old(self).frame_stack_structs,
            final(self).globals == old(self).globals,
            final(self).intern_strings == old(self).intern_strings,
            final(self).struct_types == old(self).struct_types,
            final(self).trait_registry == old(self).trait_registry,
            final(self).type_methods == old(self).type_methods,
    {
        if self.stack_top_pos > 0 {
            self.stack_top_pos = self.stack_top_pos - 1;
            Some(self.stack[self.stack_top_pos])
        } else {
            None
        }
    }

    /// The top value, if any.
    fn peek(&self) -> (v: Option<Value>)
        requires
            self.wf(),
        ensures
            self.stack_top_pos > 0 ==> v == Some(self.stack@[self.stack_top_pos - 1]),
            self.stack_top_pos == 0 ==> v is None,
    {
        if self.stack_top_pos > 0 {
            Some(self.stack[self.stack_top_pos - 1])
        } else {
            None
        }
    }

    /// The value `distance` places below the top, if any.
    fn peek_steps(&self, distance: usize) -> (v: Option<Value>)
        requires
            self.wf(),
        ensures
            distance < self.stack_top_pos ==> v == Some(
                self.stack@[self.stack_top_pos - distance - 1],
            ),
            distance >= self.stack_top_pos ==> v is None,
    {
        if distance < self.stack_top_pos {
            Some(self.stack[self.stack_top_pos - distance - 1])
        } else {
            None
        }
    }

    /// Replaces the top value.
    fn set_top(&mut self, value: Value)
        requires
            old(self).wf(),
        ensures
            final(self).wf(),
            final(self).stack_top_pos == old(self).stack_top_pos,
            old(self).stack_top_pos > 0 ==> final(self).stack@ == old(self).stack@.update(
                old(self).stack_top_pos - 1,
                value,
            ),
            final(self).frames == old(self).frames,
            final(self).object_manager == old(self).object_manager,
            final(self).open_upvalues == old(self).open_upvalues,
            final(self).frame_stack_structs == old(self).frame_stack_structs,
            final(self).globals == old(self).globals,
            final(self).intern_strings == old(self).intern_strings,
    {
        if self.stack_top_pos > 0 {
            self.stack.set(self.stack_top_pos - 1, value);
        }
    }

    fn is_falsey(value: &Value) -> (b: bool)
        ensures
            b == falsey(*value),
    {
        match value {
            Value::Nil => true,
            Value::Bool(b) => !*b,
            _ => false,
        }
    }

    // -----------------------------------------------------------------------------------------
    // Reading the code
    // -----------------------------------------------------------------------------------------

    /// The chunk of the function or closure `callable`.
    fn chunk_of(&self, callable: ObjRef) -> (c: Option<&Chunk>)
        requires
            self.wf(),
        ensures
            c matches Some(chunk) ==> self.spec_chunk_of(callable) == Some(*chunk),
            c is None ==> self.spec_chunk_of(callable) is None,
    {
        match self.object_manager.get(callable) {
            Some(HeapObject::Function(f)) => Some(&f.chunk),
            Some(HeapObject::Closure(c)) => match self.object_manager.get(c.function) {
                Some(HeapObject::Function(f)) => Some(&f.chunk),
                _ => None,
            },
            _ => None,
        }
    }

    /// Reads the next byte of the running function and moves past it.
    fn read_byte(&mut self) -> (r: Option<u8>)
        requires
            old(self).wf(),
        ensures
            final(self).wf(),
            r == old(self).code_byte(0),
            r is Some ==> final(self).frames@ == old(self).frames_moved(1) && old(
                self,
            ).frames@.len() > 0 && old(self).spec_ip() + 1 <= usize::MAX,
            r is None ==> final(self).frames == old(self).frames,
            final(self).frames@.len() == old(self).frames@.len(),
            final(self).struct_types == old(self).struct_types,
            final(self).trait_registry == old(self).trait_registry,
            final(self).type_methods == old(self).type_methods,
            final(self).stack == old(self).stack,
            final(self).stack_top_pos == old(self).stack_top_pos,
            final(self).object_manager == old(self).object_manager,
            final(self).open_upvalues == old(self).open_upvalues,
            final(self).frame_stack_structs == old(self).frame_stack_structs,
            final(self).intern_strings == old(self).intern_strings,
            final(self).globals == old(self).globals,
            final(self).gc == old(self).gc,
    {
        let n = self.frames.len();
        if n == 0 {
            return None;
        }
        let frame = self.frames[n - 1];
        let byte = match self.chunk_of(frame.callable_object) {
            Some(chunk) => {
                if frame.ip < chunk.len() {
                    chunk.read_from_offset(frame.ip)
                } else {
                    None
                }
            },
            None => None,
        };
        if byte.is_some() && frame.ip < usize::MAX {
            self.frames.set(n - 1, CallFrame { ip: frame.ip + 1, ..frame });
        }
        byte
    }

    /// Reads a two-byte operand, high byte first.
    fn read_short(&mut self) -> (r: Option<u16>)
        requires
            old(self).wf(),
        ensures
            final(self).wf(),
            r matches Some(v) ==> old(self).short_operand(0) == Some(v as int),
            r is None ==> old(self).short_operand(0) is None,
            r is Some ==> final(self).frames@ == old(self).frames_moved(2) && old(
                self,
            ).frames@.len() > 0 && old(self).spec_ip() + 2 <= usize::MAX,
            r is None ==> final(self).frames == old(self).frames,
            final(self).frames@.len() == old(self).frames@.len(),
            final(self).stack == old(self).stack,
            final(self).stack_top_pos == old(self).stack_top_pos,
            final(self).object_manager == old(self).object_manager,
            final(self).open_upvalues == old(self).open_upvalues,
            final(self).frame_stack_structs == old(self).frame_stack_structs,
            final(self).intern_strings == old(self).intern_strings,
            final(self).globals == old(self).globals,
            final(self).gc == old(self).gc,
            final(self).struct_types == old(self).struct_types,
            final(self).trait_registry == old(self).trait_registry,
            final(self).type_methods == old(self).type_methods,
    {
        let n = self.frames.len();
        if n == 0 {
            return None;
        }
        let frame = self.frames[n - 1];
        assert(frame == self.spec_frames().last());
        let result = match self.chunk_of(frame.callable_object) {
            Some(chunk) => {
                let len = chunk.len();
                if frame.ip < usize::MAX && frame.ip + 1 < len {
                    let high = chunk.read_from_offset(frame.ip).unwrap() as u16;
                    let low = chunk.read_from_offset(frame.ip + 1).unwrap() as u16;
                    Some(high * 256 + low)
                } else {
                    None
                }
            },
            None => None,
        };
        if result.is_some() {
            self.frames.set(n - 1, CallFrame { ip: frame.ip + 2, ..frame });
        }
        result
    }

    /// Reads a constant operand: the constant whose index is the next byte.
    fn read_constant(&mut self) -> (r: Option<Value>)
        requires
            old(self).wf(),
        ensures
            final(self).wf(),
            r == (match old(self).code_byte(0) {
                Some(i) => if i < old(self).running_constants().len() {
                    Some(old(self).running_constants()[i as int])
                } else {
                    None::<Value>
                },
                None => None::<Value>,
            }),
            old(self).code_byte(0) is Some ==> final(self).frames@ == old(self).frames_moved(1)
                && old(self).frames@.len() > 0 && old(self).spec_ip() + 1 <= usize::MAX,
            old(self).code_byte(0) is None ==> final(self).frames == old(self).frames,
            final(self).frames@.len() == old(self).frames@.len(),
            final(self).stack == old(self).stack,
            final(self).stack_top_pos == old(self).stack_top_pos,
            final(self).object_manager == old(self).object_manager,
            final(self).open_upvalues == old(self).open_upvalues,
            final(self).frame_stack_structs == old(self).frame_stack_structs,
            final(self).intern_strings == old(self).intern_strings,
            final(self).globals == old(self).globals,
            final(self).gc == old(self).gc,
            final(self).struct_types == old(self).struct_types,
            final(self).trait_registry == old(self).trait_registry,
            final(self).type_methods == old(self).type_methods,
    {
        let ghost s0 = *self;
        let index = match self.read_byte() {
            Some(b) => b as usize,
            None => return None,
        };
        proof {
            VM::lemma_shift(s0, *self, 1);
        }
        self.constant_at(index)
    }

    /// Constant `index` of the running function.
    fn constant_at(&self, index: usize) -> (r: Option<Value>)
        requires
            self.wf(),
        ensures
            r == (if index < self.running_constants().len() {
                Some(self.running_constants()[index as int])
            } else {
                None::<Value>
            }),
    {
        let n = self.frames.len();
        if n == 0 {
            return None;
        }
        match self.chunk_of(self.frames[n - 1].callable_object) {
            Some(chunk) => {
                if index < chunk.iter_constants().len() {
                    Some(*chunk.get_constant(index))
                } else {
                    None
                }
            },
            None => None,
        }
    }

    /// The content of the string that `value` refers to, if it is one.
    fn string_of(&self, value: &Value) -> (s: Option<String>)
        requires
            self.wf(),
        ensures
            s matches Some(t) ==> self.string_content(*value) == Some(t@),
            s is None ==> self.string_content(*value) is None,
            s matches Some(t) ==> (*value matches Value::Object(r) && self.object_manager.slot(
                r,
            ) matches Some(HeapObject::String(o)) && o.content@ == t@),
    {
        match value {
            Value::Object(r) => match self.object_manager.get(*r) {
                Some(HeapObject::String(o)) => Some(o.content.clone()),
                _ => None,
            },
            _ => None,
        }
    }

    /// Whether `value` refers to a string.
    fn is_string(&self, value: &Value) -> (b: bool)
        requires
            self.wf(),
        ensures
            b == (*value matches Value::Object(r) && self.object_manager.slot(r) matches Some(
                HeapObject::String(_),
            )),
    {
        match value {
            Value::Object(r) => match self.object_manager.get(*r) {
                Some(HeapObject::String(_)) => true,
                _ => false,
            },
            _ => false,
        }
    }

    /// The message of a runtime error: `message` with the line of the running instruction.
    fn runtime_error(&self, message: &str) -> (text: String)
        requires
            self.wf(),
        ensures
            ("Runtime error: "@ + message@).len() <= text@.len(),
            text@.subrange(0, ("Runtime error: "@ + message@).len() as int) == "Runtime error: "@
                + message@,
            text@ == self.error_text(message@),
    {
        let n = self.frames.len();
        let lookup: Option<Option<usize>> = if n == 0 {
            None
        } else {
            let frame = self.frames[n - 1];
            let instruction_index = frame.ip.wrapping_sub(1);
            match self.chunk_of(frame.callable_object) {
                Some(chunk) => match chunk.read_from_offset(instruction_index) {
                    Some(instruction) => Some(chunk.read_line_from_offset(instruction as usize)),
                    None => None,
                },
                None => None,
            }
        };
        let mut text = "Runtime error: ".to_string();
        text.append(message);
        let ghost head = text@;
        match lookup {
            Some(Some(line)) => {
                text.append(" [line ");
                let digits = decimal(line);
                text.append(digits.as_str());
                text.append("] in script");
            },
            Some(None) => {
                text.append(" [line ???] in script (invalid instruction index)");
            },
            None => {
                text.append(" [instruction ???] in script (invalid instruction)");
            },
        }
        proof {
            assert(head == "Runtime error: "@ + message@);
            assert(text@.subrange(0, head.len() as int) =~= head);
            if n > 0 {
                let ip = self.frames@[n - 1].ip;
                assert(ip.wrapping_sub(1) as int == if ip >= 1 {
                    ip - 1
                } else {
                    usize::MAX as int
                });
            }
            assert(text@ =~= self.error_text(message@));
        }
        text
    }

    // -----------------------------------------------------------------------------------------
    // Memory
    // -----------------------------------------------------------------------------------------

    /// Only the heap, the collector and the allocation counts may differ from `other`.
    spec fn same_program(&self, other: &Self) -> bool {
        &&& self.frames == other.frames
        &&& self.stack == other.stack
        &&& self.stack_top_pos == other.stack_top_pos
        &&& self.intern_strings == other.intern_strings
        &&& self.globals == other.globals
        &&& self.struct_types == other.struct_types
        &&& self.trait_registry == other.trait_registry
        &&& self.type_methods == other.type_methods
        &&& self.open_upvalues == other.open_upvalues
        &&& self.frame_stack_structs == other.frame_stack_structs
    }

    /// `q` is the function or closure that a call in progress runs, or the function of such a
    /// closure.
    pub open spec fn runs(&self, q: ObjRef) -> bool {
        exists|j: int|
            0 <= j < self.spec_frames().len() && (#[trigger] self.spec_frames()[j].callable_object
                == q || (self.manager().slot(self.spec_frames()[j].callable_object) matches Some(
                HeapObject::Closure(c),
            ) && c.function == q))
    }

    /// While the objects that the calls in progress run keep their slots, and the running
    /// call moves `d` bytes on, the code and the captures of the running call stay as they
    /// are.
    proof fn lemma_code_kept(a: VM, b: VM, d: int)
        requires
            a.frames@.len() > 0,
            0 <= a.spec_ip() + d <= usize::MAX,
            b.frames@ == a.frames_moved(d),
            a.running_chunk() is Some,
            forall|q: ObjRef|
                a.runs(q) && a.object_manager.slot(q) is Some ==> #[trigger] b.object_manager.slot(q)
                    == a.object_manager.slot(q),
        ensures
            b.running_chunk() == a.running_chunk(),
            b.running_constants() == a.running_constants(),
            b.frame_base() == a.frame_base(),
            b.spec_ip() == a.spec_ip() + d,
            forall|j: int| #[trigger] b.code_byte(j) == a.code_byte(j + d),
            forall|j: int| #[trigger] b.capture_index(j) == a.capture_index(j),
    {
        let n = a.frames@.len();
        let callable = a.frames@[n - 1].callable_object;
        assert(a.runs(callable));
        match a.object_manager.slot(callable) {
            Some(HeapObject::Closure(c)) => {
                assert(a.runs(c.function));
            },
            _ => {},
        }
        assert forall|j: int| #[trigger] b.code_byte(j) == a.code_byte(j + d) by {}
    }

    /// What the calls in progress run stays so while the frames keep their callables and
    /// those objects keep their slots.
    proof fn lemma_runs_kept(a: VM, b: VM)
        requires
            a.frames@.len() == b.frames@.len(),
            forall|j: int|
                0 <= j < a.frames@.len() ==> #[trigger] b.frames@[j].callable_object
                    == a.frames@[j].callable_object,
            forall|q: ObjRef|
                a.runs(q) && a.object_manager.slot(q) is Some ==> #[trigger] b.object_manager.slot(q)
                    == a.object_manager.slot(q),
        ensures
            forall|q: ObjRef| a.runs(q) ==> #[trigger] b.runs(q),
    {
        assert forall|q: ObjRef| a.runs(q) implies #[trigger] b.runs(q) by {
            let j = choose|j: int|
                0 <= j < a.spec_frames().len() && (#[trigger] a.spec_frames()[j].callable_object
                    == q || (a.manager().slot(a.spec_frames()[j].callable_object) matches Some(
                    HeapObject::Closure(c),
                ) && c.function == q));
            let callable = a.spec_frames()[j].callable_object;
            assert(a.runs(callable));
            assert(b.spec_frames()[j].callable_object == callable);
        }
    }

    /// `q` is an object that a global, a registered struct type or a registered trait refers
    /// to.
    pub open spec fn registered(&self, q: ObjRef) -> bool {
        ||| self.spec_globals().holds_value(Value::Object(q))
        ||| self.spec_struct_types().holds_value(Value::Object(q))
        ||| self.spec_trait_registry().holds_value(Value::Object(q))
    }

    /// What a machine holds directly depends on its stack and open upvalues alone.
    proof fn lemma_holds_same(a: VM, b: VM)
        requires
            a.stack == b.stack,
            a.stack_top_pos == b.stack_top_pos,
            a.open_upvalues == b.open_upvalues,
        ensures
            forall|q: ObjRef| #[trigger] a.holds_directly(q) == b.holds_directly(q),
    {
        assert(a.spec_slots() == b.spec_slots());
        assert(a.spec_open_upvalues() == b.spec_open_upvalues());
        assert forall|q: ObjRef| #[trigger] a.holds_directly(q) == b.holds_directly(q) by {
            if a.holds_directly(q) {
                if exists|i: int|
                    0 <= i < a.spec_stack_top() && value_refers_to(#[trigger] a.spec_slots()[i], q) {
                    let i = choose|i: int|
                        0 <= i < a.spec_stack_top() && value_refers_to(
                            #[trigger] a.spec_slots()[i],
                            q,
                        );
                    assert(value_refers_to(b.spec_slots()[i], q));
                }
            }
            if b.holds_directly(q) {
                if exists|i: int|
                    0 <= i < b.spec_stack_top() && value_refers_to(#[trigger] b.spec_slots()[i], q) {
                    let i = choose|i: int|
                        0 <= i < b.spec_stack_top() && value_refers_to(
                            #[trigger] b.spec_slots()[i],
                            q,
                        );
                    assert(value_refers_to(a.spec_slots()[i], q));
                }
            }
        }
    }

    /// Counts the bytes allocated since the last count; collects garbage when the total
    /// passes the threshold.
    fn sync_pending_allocations(&mut self)
        requires
            old(self).wf(),
        ensures
            final(self).wf(),
            final(self).same_program(&*old(self)),
            forall|q: ObjRef|
                old(self).holds_directly(q) || old(self).runs(q) || old(self).registered(q)
                    ==> #[trigger] final(self).object_manager.slot(q) == old(self).object_manager.slot(q),
            forall|q: ObjRef|
                #[trigger] final(self).object_manager.slot(q) is None
                    || final(self).object_manager.slot(q) == old(self).object_manager.slot(q),
            ({
                let pending = old(self).object_manager.spec_pending_bytes();
                let total = saturated_sum(old(self).bytes_allocated as int, pending as int);
                &&& pending == 0 || total <= old(self).next_gc_bytes ==> {
                    &&& final(self).bytes_allocated == total
                    &&& final(self).object_manager.spec_pending_bytes() == 0
                    &&& forall|q: ObjRef| #[trigger] final(self).object_manager.slot(q)
                        == old(self).object_manager.slot(q)
                }
                &&& pending > 0 && total > old(self).next_gc_bytes ==> forall|q: ObjRef|
                    old(self).garbage(q) ==> #[trigger] final(self).object_manager.slot(q) is None
            }),
    {
        let new_bytes = self.object_manager.drain_pending_bytes();
        proof {
            VM::lemma_holds_same(*old(self), *self);
            VM::lemma_garbage_same(*old(self), *self);
        }
        if new_bytes > 0 {
            self.track_allocation(new_bytes);
        }
    }

    /// Counts `bytes` more allocated; collects garbage when the total passes the threshold.
    fn track_allocation(&mut self, bytes: usize)
        requires
            old(self).wf(),
        ensures
            final(self).wf(),
            final(self).same_program(&*old(self)),
            forall|q: ObjRef|
                old(self).holds_directly(q) || old(self).runs(q) || old(self).registered(q)
                    ==> #[trigger] final(self).object_manager.slot(q) == old(self).object_manager.slot(q),
            forall|q: ObjRef|
                #[trigger] final(self).object_manager.slot(q) is None
                    || final(self).object_manager.slot(q) == old(self).object_manager.slot(q),
            ({
                let total = saturated_sum(old(self).bytes_allocated as int, bytes as int);
                &&& total <= old(self).next_gc_bytes ==> final(self).bytes_allocated == total
                    && final(self).object_manager == old(self).object_manager
                &&& total > old(self).next_gc_bytes ==> forall|q: ObjRef|
                    old(self).garbage(q) ==> #[trigger] final(self).object_manager.slot(q) is None
            }),
    {
        self.bytes_allocated = self.bytes_allocated.saturating_add(bytes);
        proof {
            VM::lemma_holds_same(*old(self), *self);
            VM::lemma_garbage_same(*old(self), *self);
        }
        if self.bytes_allocated > self.next_gc_bytes {
            self.collect_garbage();
        }
    }

    /// Sets the next threshold at twice what is allocated now.
    fn update_next_gc_threshold(&mut self)
        ensures
            final(self).next_gc_bytes == (if old(self).bytes_allocated * 2 <= usize::MAX {
                old(self).bytes_allocated * 2
            } else {
                usize::MAX as int
            }),
            final(self).same_program(&*old(self)),
            final(self).object_manager == old(self).object_manager,
            final(self).gc == old(self).gc,
            final(self).bytes_allocated == old(self).bytes_allocated,
    {
        self.next_gc_bytes = sat_mul(self.bytes_allocated, 2);
    }

    /// Marks every value of `table`.
    fn mark_table(gc: &mut GarbageCollector, table: &Table)
        requires
            old(gc).inv(),
            table.wf(),
        ensures
            final(gc).inv(),
            old(gc).fresh() ==> final(gc).fresh(),
            final(gc).spec_universe() == old(gc).spec_universe(),
            old(gc).spec_roots().subset_of(final(gc).spec_roots()),
            crate::gc::value_refs(table.spec_values()).subset_of(final(gc).spec_roots()),
            final(gc).spec_roots().subset_of(
                old(gc).spec_roots().union(crate::gc::value_refs(table.spec_values())),
            ),
            final(gc).spec_stats() == old(gc).spec_stats(),
    {
        let n = table.len();
        proof {
            table.lemma_values();
        }
        let mut i: usize = 0;
        while i < n
            invariant
                gc.inv(),
                old(gc).fresh() ==> gc.fresh(),
                gc.spec_universe() == old(gc).spec_universe(),
                old(gc).spec_roots().subset_of(gc.spec_roots()),
                gc.spec_stats() == old(gc).spec_stats(),
                table.wf(),
                n == table@.dom().len(),
                n == table.spec_values().len(),
                i <= n,
                forall|j: int|
                    0 <= j < i && #[trigger] table.spec_values()[j] is Object ==> gc.spec_roots().contains(
                        table.spec_values()[j]->Object_0,
                    ),
                gc.spec_roots().subset_of(
                    old(gc).spec_roots().union(crate::gc::value_refs(table.spec_values())),
                ),
            decreases n - i,
        {
            let v = table.value_at(i);
            proof {
                crate::gc::lemma_value_refs_single(v);
                if v is Object {
                    assert(value_refers_to(table.spec_values()[i as int], v->Object_0));
                }
            }
            gc.mark_value(&v);
            i = i + 1;
        }
        proof {
            assert forall|q: ObjRef|
                crate::gc::value_refs(table.spec_values()).contains(q) implies gc.spec_roots().contains(
                q,
            ) by {
                let j = choose|j: int|
                    0 <= j < table.spec_values().len() && value_refers_to(
                        #[trigger] table.spec_values()[j],
                        q,
                    );
                assert(table.spec_values()[j] is Object);
            }
        }
    }

    /// The stack offsets at which the calls in progress start.
    spec fn frame_bases_of(&self) -> Seq<usize> {
        self.frames@.map_values(|f: CallFrame| f.stack_base_offset)
    }

    /// Whether a field of a stack struct of some frame refers to `q`.
    spec fn stack_structs_refer(&self, q: ObjRef) -> bool {
        exists|a: int, b: int, c: int|
            0 <= a < self.frame_stack_structs@.len() && 0 <= b < self.frame_stack_structs@[a]@.len()
                && 0 <= c < self.frame_stack_structs@[a]@[b].fields@.len() && #[trigger] value_refers_to(
                self.frame_stack_structs@[a]@[b].fields@[c],
                q,
            )
    }

    /// Whether a method table refers to `q`.
    spec fn methods_refer(&self, q: ObjRef) -> bool {
        exists|t: int|
            0 <= t < self.type_methods@.len() && #[trigger] crate::gc::value_refs(
                self.type_methods@[t].1.spec_values(),
            ).contains(q)
    }

    /// Every object the machine holds without going through another object: what the stack,
    /// the frames, the globals, the interned strings, the open upvalues, the stack structs and
    /// the registries of types, traits and methods refer to, and what the calls in progress
    /// run.
    pub closed spec fn machine_roots(&self) -> Set<ObjRef> {
        crate::gc::root_set(
            self.stack@,
            self.stack_top_pos as int,
            self.globals,
            self.intern_strings,
            self.frame_bases_of(),
            self.open_upvalues@,
        ).union(Set::new(|q: ObjRef| self.runs(q))).union(
            Set::new(|q: ObjRef| self.stack_structs_refer(q)),
        ).union(crate::gc::value_refs(self.trait_registry.spec_values())).union(
            crate::gc::value_refs(self.struct_types.spec_values()),
        ).union(Set::new(|q: ObjRef| self.methods_refer(q)))
    }

    /// `q` is managed and cannot be reached from what the machine holds.
    pub open spec fn garbage(&self, q: ObjRef) -> bool {
        &&& self.manager().managed().contains(q)
        &&& !crate::gc::reachable(self.manager(), self.spec_slots(), self.machine_roots(), q)
    }

    /// Two machines with the same program and heap objects have the same garbage.
    proof fn lemma_garbage_same(a: VM, b: VM)
        requires
            a.same_program(&b),
            a.object_manager.managed() == b.object_manager.managed(),
            forall|q: ObjRef| #[trigger] a.object_manager.slot(q) == b.object_manager.slot(q),
        ensures
            forall|q: ObjRef| #[trigger] a.garbage(q) == b.garbage(q),
    {
        assert(a.machine_roots() =~= b.machine_roots()) by {
            assert(a.frame_bases_of() =~= b.frame_bases_of());
            assert forall|q: ObjRef| a.runs(q) == b.runs(q) by {
                if a.runs(q) {
                    let j = choose|j: int|
                        0 <= j < a.spec_frames().len() && (#[trigger] a.spec_frames()[j].callable_object
                            == q || (a.manager().slot(a.spec_frames()[j].callable_object) matches Some(
                            HeapObject::Closure(c),
                        ) && c.function == q));
                    assert(b.spec_frames()[j] == a.spec_frames()[j]);
                }
                if b.runs(q) {
                    let j = choose|j: int|
                        0 <= j < b.spec_frames().len() && (#[trigger] b.spec_frames()[j].callable_object
                            == q || (b.manager().slot(b.spec_frames()[j].callable_object) matches Some(
                            HeapObject::Closure(c),
                        ) && c.function == q));
                    assert(a.spec_frames()[j] == b.spec_frames()[j]);
                }
            }
        }
        assert forall|q: ObjRef| #[trigger] a.garbage(q) == b.garbage(q) by {
            crate::gc::lemma_reachable_same_heap(
                a.object_manager,
                b.object_manager,
                a.spec_slots(),
                a.machine_roots(),
                q,
            );
        }
    }

    /// Collects garbage: marks what the machine holds (the stack, the callees at the frames'
    /// bases, the functions and closures the calls in progress run, the globals, the interned
    /// strings, the open upvalues, the stack structs and the registries), traces references
    /// from it and frees every managed object that cannot be reached; then records the cycle.
    fn collect_garbage(&mut self)
        requires
            old(self).wf(),
        ensures
            final(self).wf(),
            final(self).same_program(&*old(self)),
            forall|q: ObjRef|
                old(self).holds_directly(q) || old(self).runs(q) || old(self).registered(q)
                    ==> #[trigger] final(self).object_manager.slot(q) == old(self).object_manager.slot(q),
            forall|q: ObjRef|
                #[trigger] final(self).object_manager.slot(q) is None
                    || final(self).object_manager.slot(q) == old(self).object_manager.slot(q),
            forall|q: ObjRef|
                old(self).garbage(q) ==> #[trigger] final(self).object_manager.slot(q) is None,
            forall|q: ObjRef|
                crate::gc::reachable(old(self).manager(), old(self).spec_slots(), old(self).machine_roots(), q)
                    ==> #[trigger] final(self).object_manager.slot(q) == old(self).object_manager.slot(q),
    {
        let before = self.bytes_allocated;
        self.gc.prepare_collection(&self.object_manager);
        let mut frame_bases: Vec<usize> = Vec::new();
        let mut f: usize = 0;
        while f < self.frames.len()
            invariant
                self.wf(),
                self.same_program(&*old(self)),
                self.object_manager == old(self).object_manager,
                f <= self.frames@.len(),
                frame_bases@.len() == f,
                forall|j: int| 0 <= j < f ==> #[trigger] frame_bases@[j] < MAX_STACK_SIZE,
                forall|j: int| 0 <= j < f ==> #[trigger] frame_bases@[j] == self.frames@[j].stack_base_offset,
                self.gc.inv(),
                self.gc.fresh(),
                self.gc.spec_universe() == self.object_manager.managed(),
                self.gc.spec_roots() == Set::<ObjRef>::empty(),
                self.gc.spec_stats() == old(self).gc.spec_stats(),
            decreases self.frames@.len() - f,
        {
            frame_bases.push(self.frames[f].stack_base_offset);
            f = f + 1;
        }
        self.gc.mark_roots(
            self.stack.as_slice(),
            self.stack_top_pos,
            &self.globals,
            &self.intern_strings,
            frame_bases.as_slice(),
            self.open_upvalues.as_slice(),
        );
        let ghost marked = self.gc.spec_roots();
        proof {
            assert(frame_bases@ =~= old(self).frame_bases_of());
            assert(marked.subset_of(old(self).machine_roots()));
        }
        let mut c: usize = 0;
        while c < self.frames.len()
            invariant
                self.wf(),
                self.same_program(&*old(self)),
                self.object_manager == old(self).object_manager,
                c <= self.frames@.len(),
                self.gc.inv(),
                self.gc.fresh(),
                self.gc.spec_universe() == self.object_manager.managed(),
                marked.subset_of(self.gc.spec_roots()),
                self.gc.spec_roots().subset_of(old(self).machine_roots()),
                self.gc.spec_stats() == old(self).gc.spec_stats(),
                forall|j: int|
                    0 <= j < c ==> self.gc.spec_roots().contains(
                        #[trigger] self.frames@[j].callable_object,
                    ) && (self.object_manager.slot(self.frames@[j].callable_object) matches Some(
                        HeapObject::Closure(cl),
                    ) ==> self.gc.spec_roots().contains(cl.function)),
            decreases self.frames@.len() - c,
        {
            let callable = self.frames[c].callable_object;
            proof {
                crate::gc::lemma_value_refs_single(Value::Object(callable));
                assert(old(self).spec_frames()[c as int].callable_object == callable);
                assert(old(self).runs(callable));
            }
            self.gc.mark_value(&Value::Object(callable));
            let function = match self.object_manager.get(callable) {
                Some(HeapObject::Closure(cl)) => Some(cl.function),
                _ => None,
            };
            match function {
                Some(f) => {
                    proof {
                        crate::gc::lemma_value_refs_single(Value::Object(f));
                        assert(old(self).spec_frames()[c as int].callable_object == callable);
                        assert(old(self).runs(f));
                    }
                    self.gc.mark_value(&Value::Object(f));
                },
                None => {},
            }
            c = c + 1;
        }
        let ghost roots0 = self.gc.spec_roots();
        let mut a: usize = 0;
        while a < self.frame_stack_structs.len()
            invariant
                self.wf(),
                self.same_program(&*old(self)),
                self.object_manager == old(self).object_manager,
                a <= self.frame_stack_structs@.len(),
                self.gc.inv(),
                self.gc.fresh(),
                self.gc.spec_universe() == self.object_manager.managed(),
                roots0.subset_of(self.gc.spec_roots()),
                self.gc.spec_roots().subset_of(old(self).machine_roots()),
                self.gc.spec_stats() == old(self).gc.spec_stats(),
                self.frame_stack_structs == old(self).frame_stack_structs,
                forall|x: int, y: int, z: int, q: ObjRef|
                    0 <= x < a && 0 <= y < self.frame_stack_structs@[x]@.len() && 0 <= z
                        < self.frame_stack_structs@[x]@[y].fields@.len() && #[trigger] value_refers_to(
                        self.frame_stack_structs@[x]@[y].fields@[z],
                        q,
                    ) ==> self.gc.spec_roots().contains(q),
            decreases self.frame_stack_structs@.len() - a,
        {
            let mut b: usize = 0;
            while b < self.frame_stack_structs[a].len()
                invariant
                    self.wf(),
                    self.same_program(&*old(self)),
                    self.object_manager == old(self).object_manager,
                self.object_manager == old(self).object_manager,
                    a < self.frame_stack_structs@.len(),
                    b <= self.frame_stack_structs@[a as int]@.len(),
                    self.gc.inv(),
                    self.gc.fresh(),
                    self.gc.spec_universe() == self.object_manager.managed(),
                    roots0.subset_of(self.gc.spec_roots()),
                    self.gc.spec_roots().subset_of(old(self).machine_roots()),
                    self.gc.spec_stats() == old(self).gc.spec_stats(),
                    self.frame_stack_structs == old(self).frame_stack_structs,
                    forall|x: int, y: int, z: int, q: ObjRef|
                        0 <= x <= a && 0 <= y < self.frame_stack_structs@[x]@.len() && (x < a || y
                            < b) && 0 <= z < self.frame_stack_structs@[x]@[y].fields@.len()
                            && #[trigger] value_refers_to(
                            self.frame_stack_structs@[x]@[y].fields@[z],
                            q,
                        ) ==> self.gc.spec_roots().contains(q),
                decreases self.frame_stack_structs@[a as int]@.len() - b,
            {
                let mut c: usize = 0;
                while c < self.frame_stack_structs[a][b].fields.len()
                    invariant
                        self.wf(),
                        self.same_program(&*old(self)),
                        self.object_manager == old(self).object_manager,
                    self.object_manager == old(self).object_manager,
                self.object_manager == old(self).object_manager,
                        a < self.frame_stack_structs@.len(),
                        b < self.frame_stack_structs@[a as int]@.len(),
                        c <= self.frame_stack_structs@[a as int]@[b as int].fields@.len(),
                        self.gc.inv(),
                        self.gc.fresh(),
                        self.gc.spec_universe() == self.object_manager.managed(),
                        roots0.subset_of(self.gc.spec_roots()),
                        self.gc.spec_roots().subset_of(old(self).machine_roots()),
                        self.gc.spec_stats() == old(self).gc.spec_stats(),
                        self.frame_stack_structs == old(self).frame_stack_structs,
                        forall|x: int, y: int, z: int, q: ObjRef|
                            0 <= x <= a && 0 <= y < self.frame_stack_structs@[x]@.len() && (x < a
                                || y < b || (y == b && z < c)) && 0 <= z
                                < self.frame_stack_structs@[x]@[y].fields@.len()
                                && #[trigger] value_refers_to(
                                self.frame_stack_structs@[x]@[y].fields@[z],
                                q,
                            ) ==> self.gc.spec_roots().contains(q),
                    decreases self.frame_stack_structs@[a as int]@[b as int].fields@.len() - c,
                {
                    let v = self.frame_stack_structs[a][b].fields[c];
                    proof {
                        crate::gc::lemma_value_refs_single(v);
                        if v is Object {
                            assert(value_refers_to(
                                old(self).frame_stack_structs@[a as int]@[b as int].fields@[c as int],
                                v->Object_0,
                            ));
                            assert(old(self).stack_structs_refer(v->Object_0));
                        }
                    }
                    let ghost roots_before = self.gc.spec_roots();
                    self.gc.mark_value(&v);
                    proof {
                        crate::gc::lemma_value_refs_single(v);
                        assert(roots_before.subset_of(self.gc.spec_roots()));
                        if v is Object {
                            assert(self.gc.spec_roots().contains(v->Object_0));
                        }
                    }
                    c = c + 1;
                }
                b = b + 1;
            }
            a = a + 1;
        }
        let ghost roots_structs = self.gc.spec_roots();
        Self::mark_table(&mut self.gc, &self.trait_registry);
        Self::mark_table(&mut self.gc, &self.struct_types);
        proof {
            assert(self.gc.spec_roots().subset_of(old(self).machine_roots()));
            assert(roots_structs.subset_of(self.gc.spec_roots()));
            assert forall|x: int, y: int, z: int, q: ObjRef|
                0 <= x < self.frame_stack_structs@.len() && 0 <= y
                    < self.frame_stack_structs@[x]@.len() && 0 <= z
                    < self.frame_stack_structs@[x]@[y].fields@.len() && #[trigger] value_refers_to(
                    self.frame_stack_structs@[x]@[y].fields@[z],
                    q,
                ) implies self.gc.spec_roots().contains(q) by {
                assert(roots_structs.contains(q));
            }
        }
        let mut t: usize = 0;
        while t < self.type_methods.len()
            invariant
                self.wf(),
                self.same_program(&*old(self)),
                self.object_manager == old(self).object_manager,
                t <= self.type_methods@.len(),
                self.gc.inv(),
                self.gc.fresh(),
                self.gc.spec_universe() == self.object_manager.managed(),
                roots0.subset_of(self.gc.spec_roots()),
                crate::gc::value_refs(self.trait_registry.spec_values()).subset_of(
                    self.gc.spec_roots(),
                ),
                crate::gc::value_refs(self.struct_types.spec_values()).subset_of(
                    self.gc.spec_roots(),
                ),
                self.gc.spec_roots().subset_of(old(self).machine_roots()),
                self.gc.spec_stats() == old(self).gc.spec_stats(),
                forall|x: int, y: int, z: int, q: ObjRef|
                    0 <= x < self.frame_stack_structs@.len() && 0 <= y
                        < self.frame_stack_structs@[x]@.len() && 0 <= z
                        < self.frame_stack_structs@[x]@[y].fields@.len() && #[trigger] value_refers_to(
                        self.frame_stack_structs@[x]@[y].fields@[z],
                        q,
                    ) ==> self.gc.spec_roots().contains(q),
                forall|x: int, q: ObjRef|
                    0 <= x < t && #[trigger] crate::gc::value_refs(
                        self.type_methods@[x].1.spec_values(),
                    ).contains(q) ==> self.gc.spec_roots().contains(q),
            decreases self.type_methods@.len() - t,
        {
            let ghost roots_before = self.gc.spec_roots();
            Self::mark_table(&mut self.gc, &self.type_methods[t].1);
            proof {
                assert(roots_before.subset_of(self.gc.spec_roots()));
                assert forall|x: int, y: int, z: int, q: ObjRef|
                    0 <= x < self.frame_stack_structs@.len() && 0 <= y
                        < self.frame_stack_structs@[x]@.len() && 0 <= z
                        < self.frame_stack_structs@[x]@[y].fields@.len() && #[trigger] value_refers_to(
                        self.frame_stack_structs@[x]@[y].fields@[z],
                        q,
                    ) implies self.gc.spec_roots().contains(q) by {
                    assert(roots_before.contains(q));
                }
                assert forall|x: int, q: ObjRef|
                    0 <= x < t + 1 && #[trigger] crate::gc::value_refs(
                        self.type_methods@[x].1.spec_values(),
                    ).contains(q) implies self.gc.spec_roots().contains(q) by {
                    if x < t {
                        assert(roots_before.contains(q));
                    }
                }
                assert forall|q: ObjRef| #[trigger] crate::gc::value_refs(
                    self.type_methods@[t as int].1.spec_values(),
                ).contains(q) implies old(self).methods_refer(q) by {
                    assert(self.type_methods@[t as int] == old(self).type_methods@[t as int]);
                }
            }
            t = t + 1;
        }
        let ghost roots = self.gc.spec_roots();
        self.gc.trace_references(&self.object_manager, self.stack.as_slice());
        let ghost traced = self.gc;
        let ghost m0 = self.object_manager;
        let freed = self.gc.sweep(&mut self.object_manager);
        proof {
            assert(old(self).machine_roots().subset_of(roots)) by {
                assert forall|q: ObjRef| #[trigger] old(self).machine_roots().contains(q) implies roots.contains(
                    q,
                ) by {
                    if old(self).stack_structs_refer(q) {
                        let (x, y, z) = choose|x: int, y: int, z: int|
                            0 <= x < old(self).frame_stack_structs@.len() && 0 <= y
                                < old(self).frame_stack_structs@[x]@.len() && 0 <= z
                                < old(self).frame_stack_structs@[x]@[y].fields@.len()
                                && #[trigger] value_refers_to(
                                old(self).frame_stack_structs@[x]@[y].fields@[z],
                                q,
                            );
                        assert(value_refers_to(self.frame_stack_structs@[x]@[y].fields@[z], q));
                    } else if old(self).methods_refer(q) {
                        let x = choose|x: int|
                            0 <= x < old(self).type_methods@.len() && #[trigger] crate::gc::value_refs(
                                old(self).type_methods@[x].1.spec_values(),
                            ).contains(q);
                        assert(self.type_methods@[x] == old(self).type_methods@[x]);
                    } else if old(self).runs(q) {
                        let j = choose|j: int|
                            0 <= j < old(self).spec_frames().len() && (#[trigger] old(
                                self,
                            ).spec_frames()[j].callable_object == q || (old(self).manager().slot(
                                old(self).spec_frames()[j].callable_object,
                            ) matches Some(HeapObject::Closure(c)) && c.function == q));
                        assert(self.frames@[j] == old(self).frames@[j]);
                        assert(roots0.contains(q));
                    } else {
                        assert(marked.contains(q) || crate::gc::value_refs(
                            self.trait_registry.spec_values(),
                        ).contains(q) || crate::gc::value_refs(self.struct_types.spec_values()).contains(
                            q,
                        ));
                    }
                }
            }
            assert forall|q: ObjRef|
                crate::gc::reachable(old(self).manager(), old(self).spec_slots(), old(self).machine_roots(), q)
                implies #[trigger] self.object_manager.slot(q) == old(self).object_manager.slot(q) by {
                crate::gc::lemma_reachable_more_roots(
                    m0,
                    self.stack@,
                    old(self).machine_roots(),
                    roots,
                    q,
                );
                assert(traced.is_black(q));
            }
            assert forall|q: ObjRef| old(self).garbage(q) implies #[trigger] self.object_manager.slot(q) is None by {
                if crate::gc::reachable(m0, self.stack@, roots, q) {
                    crate::gc::lemma_reachable_more_roots(m0, self.stack@, roots, old(self).machine_roots(), q);
                }
                assert(traced.is_white(q));
            }
            assert forall|q: ObjRef|
                old(self).holds_directly(q) || old(self).runs(q) || old(self).registered(q) implies #[trigger]
                self.object_manager.slot(q) == m0.slot(q) by {
                if old(self).registered(q) {
                    let v = Value::Object(q);
                    self.globals.lemma_values();
                    self.struct_types.lemma_values();
                    self.trait_registry.lemma_values();
                    if self.globals.holds_value(v) {
                        let k = choose|k: Seq<char>| #[trigger] self.globals@.dom().contains(k) && self.globals@[k] == v;
                        let i = choose|i: int| 0 <= i < self.globals.spec_values().len() && #[trigger] self.globals.spec_values()[i] == self.globals@[k];
                        assert(value_refers_to(self.globals.spec_values()[i], q));
                        assert(crate::gc::value_refs(self.globals.spec_values()).contains(q));
                    } else if self.struct_types.holds_value(v) {
                        let k = choose|k: Seq<char>| #[trigger] self.struct_types@.dom().contains(k) && self.struct_types@[k] == v;
                        let i = choose|i: int| 0 <= i < self.struct_types.spec_values().len() && #[trigger] self.struct_types.spec_values()[i] == self.struct_types@[k];
                        assert(value_refers_to(self.struct_types.spec_values()[i], q));
                        assert(crate::gc::value_refs(self.struct_types.spec_values()).contains(q));
                    } else {
                        let k = choose|k: Seq<char>| #[trigger] self.trait_registry@.dom().contains(k) && self.trait_registry@[k] == v;
                        let i = choose|i: int| 0 <= i < self.trait_registry.spec_values().len() && #[trigger] self.trait_registry.spec_values()[i] == self.trait_registry@[k];
                        assert(value_refers_to(self.trait_registry.spec_values()[i], q));
                        assert(crate::gc::value_refs(self.trait_registry.spec_values()).contains(q));
                    }
                    assert(roots.contains(q));
                    assert(!traced.is_white(q));
                } else if old(self).runs(q) {
                    let j = choose|j: int|
                        0 <= j < old(self).spec_frames().len() && (#[trigger] old(
                            self,
                        ).spec_frames()[j].callable_object == q || (old(self).manager().slot(
                            old(self).spec_frames()[j].callable_object,
                        ) matches Some(HeapObject::Closure(c)) && c.function == q));
                    assert(self.frames@[j] == old(self).frames@[j]);
                } else if exists|i: int|
                    0 <= i < old(self).spec_stack_top() && value_refers_to(
                        #[trigger] old(self).spec_slots()[i],
                        q,
                    ) {
                    let i = choose|i: int|
                        0 <= i < old(self).spec_stack_top() && value_refers_to(
                            #[trigger] old(self).spec_slots()[i],
                            q,
                        );
                    let taken = self.stack@.take(self.stack_top_pos as int);
                    assert(taken[i] == self.stack@[i]);
                    assert(crate::gc::value_refs(taken).contains(q));
                } else {
                    assert(self.open_upvalues@.to_set().contains(q));
                }
                assert(roots.contains(q));
                assert(!traced.is_white(q));
            }
            self.intern_strings.lemma_values();
            assert forall|k: Seq<char>| #[trigger]
                self.intern_strings@.dom().contains(k) implies (self.intern_strings@[k] matches Value::Object(
                r,
            ) && self.object_manager.slot(r) matches Some(HeapObject::String(o)) && o.content@ == k) by {
                let r = self.intern_strings@[k]->Object_0;
                let i = choose|i: int|
                    0 <= i < self.intern_strings.spec_values().len()
                        && #[trigger] self.intern_strings.spec_values()[i] == self.intern_strings@[k];
                assert(crate::objects::object::value_refers_to(
                    self.intern_strings.spec_values()[i],
                    r,
                ));
                assert(crate::gc::value_refs(self.intern_strings.spec_values()).contains(r));
                assert(roots.contains(r));
                assert(!traced.is_white(r));
            }
        }
        self.bytes_allocated = self.bytes_allocated.saturating_sub(freed);
        self.update_next_gc_threshold();
        let after = self.bytes_allocated;
        let next = self.next_gc_bytes;
        let stats = self.gc.stats();
        if stats.cycles < u64::MAX && stats.total_freed_bytes <= usize::MAX - freed {
            self.gc.record_cycle(before, freed, after, next);
        }
    }

    // -----------------------------------------------------------------------------------------
    // Upvalues and stack structs
    // -----------------------------------------------------------------------------------------

    /// The value of open upvalue number `index`, if there is one.
    fn get_upvalue(&self, index: usize) -> (v: Option<Value>)
        requires
            self.wf(),
        ensures
            v == self.upvalue_value(index as int),
    {
        if index >= self.open_upvalues.len() {
            return None;
        }
        match self.object_manager.get(self.open_upvalues[index]) {
            Some(HeapObject::Upvalue(u)) => match u.location {
                UpvalueLocation::Stack(slot) => {
                    if slot < MAX_STACK_SIZE {
                        Some(self.stack[slot])
                    } else {
                        None
                    }
                },
                UpvalueLocation::Closed => Some(u.closed),
            },
            _ => None,
        }
    }

    /// Assigns `value` to the variable of open upvalue number `index`; gives false when there
    /// is no such upvalue.
    fn set_upvalue(&mut self, index: usize, value: Value) -> (ok: bool)
        requires
            old(self).wf(),
            old(self).frames@.len() > 0,
        ensures
            final(self).wf(),
            final(self).open_upvalues == old(self).open_upvalues,
            old(self).assigns_upvalue(
                *final(self),
                if ok {
                    Ok::<Option<InterpretResult>, String>(None)
                } else {
                    Err::<Option<InterpretResult>, String>(arbitrary())
                },
                index as int,
                value,
                0,
            ),
    {
        proof {
            VM::lemma_moved_zero(*self);
        }
        if index >= self.open_upvalues.len() {
            return false;
        }
        let up = self.open_upvalues[index];
        let location = match self.object_manager.get(up) {
            Some(HeapObject::Upvalue(u)) => Some(u.location),
            _ => None,
        };
        match location {
            Some(UpvalueLocation::Stack(slot)) => {
                if slot < MAX_STACK_SIZE {
                    self.stack.set(slot, value);
                    true
                } else {
                    false
                }
            },
            Some(UpvalueLocation::Closed) => {
                self.object_manager.set_upvalue(up, UpvalueLocation::Closed, value)
            },
            None => false,
        }
    }

    /// The open upvalue for stack slot `slot`, made when there is none yet; gives its index
    /// among the open upvalues.
    fn capture_upvalue(&mut self, slot: usize) -> (index: usize)
        requires
            old(self).wf(),
        ensures
            final(self).wf(),
            final(self).frames == old(self).frames,
            final(self).stack == old(self).stack,
            final(self).stack_top_pos == old(self).stack_top_pos,
            final(self).frame_stack_structs == old(self).frame_stack_structs,
            final(self).globals == old(self).globals,
            index < final(self).open_upvalues@.len(),
            old(self).open_upvalues@.len() <= final(self).open_upvalues@.len(),
            final(self).open_upvalues@.take(old(self).open_upvalues@.len() as int) == old(
                self,
            ).open_upvalues@,
            final(self).object_manager.slot(final(self).open_upvalues@[index as int]) matches Some(
                HeapObject::Upvalue(u),
            ) && u.location == UpvalueLocation::Stack(slot),
            forall|q: ObjRef|
                (old(self).holds_directly(q) || old(self).runs(q)) && old(self).object_manager.slot(q)
                    is Some ==> #[trigger] final(self).object_manager.slot(q)
                    == old(self).object_manager.slot(q),
    {
        let mut i: usize = 0;
        while i < self.open_upvalues.len()
            invariant
                self == old(self),
                old(self).wf(),
                i <= self.open_upvalues@.len(),
            decreases self.open_upvalues@.len() - i,
        {
            match self.object_manager.get(self.open_upvalues[i]) {
                Some(HeapObject::Upvalue(u)) => {
                    if u.location == UpvalueLocation::Stack(slot) {
                        return i;
                    }
                },
                _ => {},
            }
            i = i + 1;
        }
        let ghost m0 = self.object_manager;
        let (new_up, size) = self.object_manager.push_object(
            HeapObject::Upvalue(ObjectUpvalue::new(slot)),
        );
        proof {
            assert forall|k: Seq<char>| #[trigger]
                self.intern_strings@.dom().contains(k) implies (self.intern_strings@[k] matches Value::Object(
                r,
            ) && self.object_manager.slot(r) matches Some(HeapObject::String(o)) && o.content@ == k) by {
                m0.lemma_slot_in_heap(self.intern_strings@[k]->Object_0);
            }
        }
        self.open_upvalues.push(new_up);
        let ghost pushed = *self;
        proof {
            assert forall|q: ObjRef|
                (old(self).holds_directly(q) || old(self).runs(q)) && m0.slot(q) is Some implies
                pushed.holds_directly(q) || pushed.runs(q) by {
                m0.lemma_slot_in_heap(q);
                if old(self).runs(q) {
                    let j = choose|j: int|
                        0 <= j < old(self).spec_frames().len() && (#[trigger] old(
                            self,
                        ).spec_frames()[j].callable_object == q || (old(self).manager().slot(
                            old(self).spec_frames()[j].callable_object,
                        ) matches Some(HeapObject::Closure(c)) && c.function == q));
                    let callable = old(self).spec_frames()[j].callable_object;
                    if m0.slot(callable) is Some {
                        m0.lemma_slot_in_heap(callable);
                    }
                    assert(pushed.spec_frames()[j].callable_object == callable);
                } else if old(self).spec_open_upvalues().contains(q) {
                    let i = choose|i: int|
                        0 <= i < old(self).spec_open_upvalues().len()
                            && old(self).spec_open_upvalues()[i] == q;
                    assert(pushed.spec_open_upvalues()[i] == q);
                } else {
                    let i = choose|i: int|
                        0 <= i < old(self).spec_stack_top() && value_refers_to(
                            #[trigger] old(self).spec_slots()[i],
                            q,
                        );
                    assert(value_refers_to(pushed.spec_slots()[i], q));
                }
            }
            assert(self.open_upvalues@.take(old(self).open_upvalues@.len() as int)
                =~= old(self).open_upvalues@);
        }
        proof {
            let last = pushed.spec_open_upvalues().len() - 1;
            assert(pushed.spec_open_upvalues()[last] == new_up);
            assert(pushed.spec_open_upvalues().contains(new_up));
            assert(pushed.holds_directly(new_up));
        }
        self.track_allocation(size);
        proof {
            assert forall|q: ObjRef|
                (old(self).holds_directly(q) || old(self).runs(q)) && old(self).object_manager.slot(q)
                    is Some implies #[trigger] self.object_manager.slot(q)
                == old(self).object_manager.slot(q) by {
                m0.lemma_slot_in_heap(q);
                assert(pushed.object_manager.slot(q) == m0.slot(q));
                assert(pushed.holds_directly(q) || pushed.runs(q));
            }
        }
        self.open_upvalues.len() - 1
    }

    /// Whether `q` is an open upvalue whose variable is in stack slot `last` or above.
    pub open spec fn closing(&self, last: int, q: ObjRef) -> bool {
        self.manager().slot(q) matches Some(HeapObject::Upvalue(u)) && u.location matches UpvalueLocation::Stack(
            s,
        ) && last <= s < MAX_STACK_SIZE
    }

    /// `later` has closed the upvalue `q` that this machine has open on a slot from `last` on:
    /// it holds the slot's value (a stack struct goes to the heap first).
    pub open spec fn closed_in(&self, later: &Self, last: int, q: ObjRef) -> bool {
        self.closing(last, q) ==> {
            let s = self.manager().slot(q)->Some_0->Upvalue_0.location->Stack_0;
            &&& later.manager().slot(q) matches Some(HeapObject::Upvalue(w))
            &&& w.location == UpvalueLocation::Closed
            &&& !(self.spec_slots()[s as int] is StackStruct) ==> w.closed == self.spec_slots()[s as int]
        }
    }

    /// Closes every open upvalue whose variable is in stack slot `last` or above: the value
    /// moves into the upvalue (a stack struct is first promoted to the heap).
    fn close_upvalues<H: Host>(&mut self, last: usize, host: &H)
        requires
            old(self).wf(),
        ensures
            final(self).wf(),
            final(self).frames == old(self).frames,
            final(self).stack == old(self).stack,
            final(self).stack_top_pos == old(self).stack_top_pos,
            final(self).frame_stack_structs == old(self).frame_stack_structs,
            final(self).globals == old(self).globals,
            final(self).open_upvalues == old(self).open_upvalues,
            forall|i: int|
                0 <= i < old(self).open_upvalues@.len() ==> old(self).closed_in(
                    &*final(self),
                    last as int,
                    #[trigger] old(self).open_upvalues@[i],
                ),
            final(self).object_manager.heap_len() >= old(self).object_manager.heap_len(),
            forall|q: ObjRef|
                q < old(self).object_manager.heap_len() && !(old(self).open_upvalues@.contains(q)
                    && old(self).closing(last as int, q)) ==> #[trigger] final(self).object_manager.slot(q)
                    == old(self).object_manager.slot(q),
    {
        let mut i: usize = 0;
        while i < self.open_upvalues.len()
            invariant
                self.wf(),
                self.globals == old(self).globals,
                self.frames == old(self).frames,
                self.stack == old(self).stack,
                self.stack_top_pos == old(self).stack_top_pos,
                self.frame_stack_structs == old(self).frame_stack_structs,
                self.open_upvalues == old(self).open_upvalues,
                i <= self.open_upvalues@.len(),
                self.object_manager.heap_len() >= old(self).object_manager.heap_len(),
                forall|j: int|
                    0 <= j < i ==> old(self).closed_in(
                        &*self,
                        last as int,
                        #[trigger] old(self).open_upvalues@[j],
                    ),
                forall|q: ObjRef|
                    q < old(self).object_manager.heap_len() && #[trigger] self.object_manager.slot(q)
                        != old(self).object_manager.slot(q) ==> exists|j: int|
                        0 <= j < i && old(self).open_upvalues@[j] == q && old(self).closing(
                            last as int,
                            q,
                        ),
            decreases self.open_upvalues@.len() - i,
        {
            let up = self.open_upvalues[i];
            let ghost before = *self;
            let location = match self.object_manager.get(up) {
                Some(HeapObject::Upvalue(u)) => Some(u.location),
                _ => None,
            };
            match location {
                Some(UpvalueLocation::Stack(slot)) => {
                    if slot >= last && slot < MAX_STACK_SIZE {
                        let value = self.stack[slot];
                        let promoted = self.promote_stack_struct_value_reason(
                            value,
                            Some("closure capture"),
                            0,
                            host,
                        );
                        let ghost m0 = self.object_manager;
                        self.object_manager.set_upvalue(up, UpvalueLocation::Closed, promoted);
                        proof {
                            assert forall|k: Seq<char>| #[trigger]
                                self.intern_strings@.dom().contains(k) implies (self.intern_strings@[k] matches Value::Object(
                                r,
                            ) && self.object_manager.slot(r) matches Some(HeapObject::String(o))
                                && o.content@ == k) by {
                                let r = self.intern_strings@[k]->Object_0;
                                if r == up {
                                    assert(m0.slot(r) matches Some(HeapObject::String(_)));
                                }
                            }
                            before.object_manager.lemma_slot_in_heap(up);
                            assert(m0.slot(up) == before.object_manager.slot(up));
                            assert(!(value is StackStruct) ==> promoted == value);
                            assert(self.object_manager.slot(up) matches Some(HeapObject::Upvalue(w))
                                && w.location == UpvalueLocation::Closed && (!(value is StackStruct)
                                ==> w.closed == value));
                            assert(forall|q: ObjRef| q < before.object_manager.heap_len() && q != up
                                ==> #[trigger] self.object_manager.slot(q) == before.object_manager.slot(q));
                        }
                    }
                },
                _ => {},
            }
            proof {
                let o = old(self);
                assert forall|j: int| 0 <= j < i + 1 implies o.closed_in(
                    &*self,
                    last as int,
                    #[trigger] o.open_upvalues@[j],
                ) by {
                    let q = o.open_upvalues@[j];
                    if o.closing(last as int, q) {
                        o.object_manager.lemma_slot_in_heap(q);
                        if q != up {
                            assert(o.closed_in(&before, last as int, q));
                            assert(self.object_manager.slot(q) == before.object_manager.slot(q));
                        } else if before.object_manager.slot(up) != o.object_manager.slot(up) {
                            let k = choose|k: int| 0 <= k < i && o.open_upvalues@[k] == up && o.closing(last as int, up);
                            assert(o.closed_in(&before, last as int, o.open_upvalues@[k]));
                            assert(self.object_manager.slot(up) == before.object_manager.slot(up));
                        }
                    }
                }
                assert forall|q: ObjRef|
                    q < o.object_manager.heap_len() && #[trigger] self.object_manager.slot(q)
                        != o.object_manager.slot(q) implies exists|j: int|
                        0 <= j < i + 1 && o.open_upvalues@[j] == q && o.closing(last as int, q) by {
                    if q != up {
                        assert(self.object_manager.slot(q) == before.object_manager.slot(q));
                    } else if before.object_manager.slot(q) == o.object_manager.slot(q) {
                        assert(o.open_upvalues@[i as int] == q);
                    }
                }
            }
            i = i + 1;
        }
        proof {
            assert forall|q: ObjRef|
                q < old(self).object_manager.heap_len() && !(old(self).open_upvalues@.contains(q)
                    && old(self).closing(last as int, q)) implies #[trigger] self.object_manager.slot(q)
                    == old(self).object_manager.slot(q) by {
                if self.object_manager.slot(q) != old(self).object_manager.slot(q) {
                    let j = choose|j: int| 0 <= j < i && old(self).open_upvalues@[j] == q && old(self).closing(last as int, q);
                    assert(old(self).open_upvalues@.contains(q));
                }
            }
        }
    }

    /// Whether `value` is a stack struct of the running frame that promotion at `depth`
    /// copies to the heap.
    spec fn promotes(&self, value: Value, depth: int) -> bool {
        let n = self.frame_stack_structs@.len();
        &&& value matches Value::StackStruct(index)
        &&& n > 0
        &&& index < self.frame_stack_structs@[n - 1]@.len()
        &&& depth < self.frame_stack_structs@[n - 1]@.len()
    }

    /// How many more levels of nested stack structs promotion may descend through.
    spec fn promote_budget(&self, depth: int) -> int {
        let n = self.frame_stack_structs@.len();
        if n > 0 && depth < self.frame_stack_structs@[n - 1]@.len() {
            self.frame_stack_structs@[n - 1]@.len() - depth
        } else {
            0
        }
    }

    /// A heap instance with the type and (promoted) fields of the stack struct `value`; any
    /// other value is given back as it is. With a `reason`, warns of the promotion. Stops
    /// descending after as many levels as the frame has stack structs.
    fn promote_stack_struct_value_reason<H: Host>(
        &mut self,
        value: Value,
        reason: Option<&str>,
        depth: usize,
        host: &H,
    ) -> (v: Value)
        requires
            old(self).wf(),
        ensures
            final(self).wf(),
            final(self).same_program(&*old(self)),
            final(self).object_manager.heap_len() >= old(self).object_manager.heap_len(),
            forall|q: ObjRef|
                q < old(self).object_manager.heap_len() ==> #[trigger] final(self).object_manager.slot(q)
                    == old(self).object_manager.slot(q),
            !old(self).promotes(value, depth as int) ==> v == value,
            old(self).promotes(value, depth as int) ==> {
                let source = old(self).frame_stack_structs@.last()@[value->StackStruct_0 as int];
                &&& v matches Value::Object(r)
                &&& r == old(self).object_manager.heap_len()
                &&& final(self).object_manager.slot(r) matches Some(HeapObject::StructInstance(instance))
                &&& instance.struct_type == source.struct_type
                &&& instance.fields@.len() == source.fields@.len()
                &&& forall|i: int|
                    0 <= i < source.fields@.len() && !(source.fields@[i] is StackStruct)
                        ==> #[trigger] instance.fields@[i] == source.fields@[i]
            },
        decreases old(self).promote_budget(depth as int),
    {
        let index = match value {
            Value::StackStruct(index) => index,
            _ => return value,
        };
        if depth == 0 {
            match reason {
                Some(r) => {
                    let mut message = "Implicit promotion of stack struct to heap (".to_string();
                    message.append(r);
                    message.append(")");
                    host.warn(message);
                },
                None => {},
            }
        }
        let n = self.frame_stack_structs.len();
        if n == 0 {
            return value;
        }
        let arena_len = self.frame_stack_structs[n - 1].len();
        if index >= arena_len || depth >= arena_len {
            return value;
        }
        let struct_type = self.frame_stack_structs[n - 1][index].struct_type;
        let field_len = self.frame_stack_structs[n - 1][index].fields.len();
        let ghost m0 = self.object_manager;
        let (instance, _size) = self.object_manager.push_object(
            HeapObject::StructInstance(ObjectStructInstance::new(struct_type, field_len)),
        );
        proof {
            assert forall|k: Seq<char>| #[trigger]
                self.intern_strings@.dom().contains(k) implies (self.intern_strings@[k] matches Value::Object(
                r,
            ) && self.object_manager.slot(r) matches Some(HeapObject::String(o)) && o.content@ == k) by {
                m0.lemma_slot_in_heap(self.intern_strings@[k]->Object_0);
            }
        }
        let ghost entry = *self;
        let mut i: usize = 0;
        while i < field_len
            invariant
                self.wf(),
                self.same_program(&entry),
                entry.same_program(&*old(self)),
                n == self.frame_stack_structs@.len(),
                n > 0,
                index < self.frame_stack_structs@[n - 1]@.len(),
                depth < self.frame_stack_structs@[n - 1]@.len(),
                arena_len == self.frame_stack_structs@[n - 1]@.len(),
                field_len == self.frame_stack_structs@[n - 1]@[index as int].fields@.len(),
                old(self).promote_budget(depth as int) == self.frame_stack_structs@[n - 1]@.len()
                    - depth,
                i <= field_len,
                instance == old(self).object_manager.heap_len(),
                self.object_manager.heap_len() > instance,
                forall|q: ObjRef|
                    q < old(self).object_manager.heap_len() ==> #[trigger] self.object_manager.slot(q)
                        == old(self).object_manager.slot(q),
                self.object_manager.slot(instance) matches Some(HeapObject::StructInstance(inst))
                    && inst.struct_type == struct_type && inst.fields@.len() == field_len
                    && forall|j: int|
                    0 <= j < i && !(self.frame_stack_structs@[n - 1]@[index as int].fields@[j] is StackStruct)
                        ==> #[trigger] inst.fields@[j] == self.frame_stack_structs@[n - 1]@[index as int].fields@[j],
            decreases field_len - i,
        {
            let field = self.frame_stack_structs[n - 1][index].fields[i];
            let ghost before = *self;
            let promoted = self.promote_stack_struct_value_reason(field, None, depth + 1, host);
            let ghost m1 = self.object_manager;
            self.object_manager.set_instance_field(instance, i, promoted);
            proof {
                assert(m1.slot(instance) == before.object_manager.slot(instance));
                assert forall|k: Seq<char>| #[trigger]
                    self.intern_strings@.dom().contains(k) implies (self.intern_strings@[k] matches Value::Object(
                    r,
                ) && self.object_manager.slot(r) matches Some(HeapObject::String(o))
                    && o.content@ == k) by {
                    let r = self.intern_strings@[k]->Object_0;
                    if r == instance {
                        assert(m1.slot(r) matches Some(HeapObject::String(_)));
                    }
                }
            }
            i = i + 1;
        }
        Value::Object(instance)
    }

    /// The slot of field `name` in instances of the struct type `struct_type`: the position of
    /// the name among the type's fields.
    fn field_slot(&self, struct_type: ObjRef, name: &String) -> (slot: Option<usize>)
        requires
            self.wf(),
        ensures
            slot matches Some(i) ==> self.field_position(struct_type, name@) == Some(i as int),
            slot is None ==> self.field_position(struct_type, name@) is None,
    {
        match self.object_manager.get(struct_type) {
            Some(HeapObject::StructType(t)) => {
                let mut i: usize = 0;
                while i < t.field_names.len()
                    invariant
                        i <= t.field_names@.len(),
                        self.manager().slot(struct_type) == Some(HeapObject::StructType(*t)),
                        forall|j: int|
                            #![trigger t.field_names@[j]]
                            0 <= j < i ==> t.field_names@[j]@ != name@,
                    decreases t.field_names@.len() - i,
                {
                    if t.field_names[i] == *name {
                        proof {
                            let names = t.field_names@;
                            let n = name@;
                            assert(0 <= i < names.len() && names[i as int]@ == n && forall|j: int|
                                #![trigger names[j]]
                                0 <= j < i ==> names[j]@ != n);
                            let c = choose|k: int|
                                #![trigger names[k]]
                                0 <= k < names.len() && names[k]@ == n && forall|j: int|
                                    #![trigger names[j]]
                                    0 <= j < k ==> names[j]@ != n;
                            if c < i {
                                assert(names[c]@ != n);
                            }
                            if c > i {
                                assert(names[i as int]@ != n);
                            }
                            assert(c == i);
                        }
                        return Some(i);
                    }
                    i = i + 1;
                }
                None
            },
            _ => None,
        }
    }

    /// The name of the struct type `struct_type`.
    fn struct_type_name(&self, struct_type: ObjRef) -> (name: Option<String>)
        requires
            self.wf(),
        ensures
            name matches Some(n) ==> (self.manager().slot(struct_type) matches Some(
                HeapObject::StructType(t),
            ) && t.name@ == n@),
            name is None ==> !(self.manager().slot(struct_type) matches Some(
                HeapObject::StructType(_),
            )),
    {
        match self.object_manager.get(struct_type) {
            Some(HeapObject::StructType(t)) => Some(t.name.clone()),
            _ => None,
        }
    }

    // -----------------------------------------------------------------------------------------
    // Calls
    // -----------------------------------------------------------------------------------------

    /// Starts a call of the function `function` with the `argument_count` values on top of the
    /// stack as arguments; gives false when the call cannot start.
    fn call_function(&mut self, function: ObjRef, argument_count: u8) -> (ok: bool)
        requires
            old(self).wf(),
        ensures
            final(self).wf(),
            final(self).globals == old(self).globals,
            final(self).object_manager == old(self).object_manager,
            !ok ==> *final(self) == *old(self),
            match old(self).manager().slot(function) {
                Some(HeapObject::Function(f)) => old(self).starts_frame(
                    *final(self),
                    ok,
                    function,
                    f.arity,
                    argument_count,
                ),
                _ => !ok,
            },
    {
        let arity = match self.object_manager.get(function) {
            Some(HeapObject::Function(f)) => f.arity,
            _ => return false,
        };
        self.start_frame(function, arity, argument_count)
    }

    /// Starts a call of the closure `closure`.
    fn call_closure(&mut self, closure: ObjRef, argument_count: u8) -> (ok: bool)
        requires
            old(self).wf(),
        ensures
            final(self).wf(),
            final(self).globals == old(self).globals,
            final(self).object_manager == old(self).object_manager,
            !ok ==> *final(self) == *old(self),
            match old(self).manager().slot(closure) {
                Some(HeapObject::Closure(c)) => match old(self).manager().slot(c.function) {
                    Some(HeapObject::Function(f)) => old(self).starts_frame(
                        *final(self),
                        ok,
                        closure,
                        f.arity,
                        argument_count,
                    ),
                    _ => !ok,
                },
                _ => !ok,
            },
    {
        let arity = match self.object_manager.get(closure) {
            Some(HeapObject::Closure(c)) => match self.object_manager.get(c.function) {
                Some(HeapObject::Function(f)) => f.arity,
                _ => return false,
            },
            _ => return false,
        };
        self.start_frame(closure, arity, argument_count)
    }

    /// Pushes the frame of a call of `callable` when the argument count matches its arity and
    /// there is room for another frame.
    /// `after` is this machine once a call of `callable` with `argument_count` arguments has
    /// started, if `ok`: the arity matches, a frame is free and the callee and arguments are
    /// on the stack; otherwise `ok` is false.
    spec fn starts_frame(
        &self,
        after: VM,
        ok: bool,
        callable: ObjRef,
        arity: u8,
        argument_count: u8,
    ) -> bool {
        if arity == argument_count && self.frames@.len() < MAX_FRAMES_SIZE && argument_count + 1
            <= self.stack_top_pos {
            &&& ok
            &&& after.frames@ == self.frames@.push(
                CallFrame {
                    callable_object: callable,
                    ip: 0,
                    stack_base_offset: (self.stack_top_pos - argument_count - 1) as usize,
                },
            )
            &&& after.stack == self.stack
            &&& after.stack_top_pos == self.stack_top_pos
        } else {
            &&& !ok
            &&& after == *self
        }
    }

    fn start_frame(&mut self, callable: ObjRef, arity: u8, argument_count: u8) -> (ok: bool)
        requires
            old(self).wf(),
        ensures
            final(self).wf(),
            final(self).globals == old(self).globals,
            final(self).object_manager == old(self).object_manager,
            old(self).starts_frame(*final(self), ok, callable, arity, argument_count),
    {
        if arity != argument_count {
            return false;
        }
        if self.frames.len() >= MAX_FRAMES_SIZE {
            return false;
        }
        let needed = argument_count as usize + 1;
        if self.stack_top_pos < needed {
            return false;
        }
        let stack_base_pos = self.stack_top_pos - needed;
        self.frames.push(CallFrame::new(callable, stack_base_pos));
        self.frame_stack_structs.push(Vec::new());
        true
    }

    /// Finishes a call of a native function of `arity` parameters with what the host gave
    /// back: its number replaces the callee and the arguments. A failure, or too few values
    /// on the stack, leaves the machine as it was and gives false.
    pub fn finish_native_call(&mut self, outcome: Result<u64, String>, arity: u8) -> (ok: bool)
        requires
            old(self).wf(),
        ensures
            final(self).wf(),
            ok == (outcome is Ok && old(self).spec_stack_top() >= arity + 1),
            ok ==> final(self).spec_stack_top() == old(self).spec_stack_top() - arity
                && final(self).spec_slots() == old(self).spec_slots().update(
                old(self).spec_stack_top() - arity - 1,
                Value::Number(outcome->Ok_0),
            ),
            !ok ==> *final(self) == *old(self),
            final(self).spec_frames() == old(self).spec_frames(),
            final(self).spec_globals() == old(self).spec_globals(),
            final(self).manager() == old(self).manager(),
    {
        match outcome {
            Ok(bits) => {
                let drop = arity as usize + 1;
                if self.stack_top_pos < drop {
                    return false;
                }
                self.stack_top_pos = self.stack_top_pos - drop;
                self.push(Value::Number(bits))
            },
            Err(_) => false,
        }
    }

    /// Calls `callee` with `argument_count` arguments: a function or a closure gets a new
    /// frame; a native function runs at once and its result replaces the callee and the
    /// arguments, but one that takes arguments is refused, since none are handed to it. Gives
    /// false when `callee` cannot be called.
    fn call_value<H: Host>(&mut self, callee: Value, argument_count: u8, host: &H) -> (ok: bool)
        requires
            old(self).wf(),
        ensures
            final(self).wf(),
            final(self).globals == old(self).globals,
            final(self).object_manager == old(self).object_manager,
            !ok ==> final(self).frames == old(self).frames,
            match callee {
                Value::Object(q) => match old(self).manager().slot(q) {
                    Some(HeapObject::NativeFunction(f)) => {
                        let top = old(self).stack_top_pos;
                        let base = top - f.arity - 1;
                        &&& base < 0 ==> !ok
                        &&& f.arity > 0 ==> !ok
                        &&& ok ==> {
                            &&& final(self).stack_top_pos == base + 1
                            &&& final(self).stack@ == old(self).stack@.update(
                                base,
                                final(self).stack@[base],
                            )
                            &&& final(self).stack@[base] is Number
                            &&& final(self).frames@ == old(self).frames@
                        }
                    },
                    _ => match old(self).callable_arity(q) {
                        Some(arity) => old(self).starts_frame(
                            *final(self),
                            ok,
                            q,
                            arity,
                            argument_count,
                        ),
                        None => !ok,
                    },
                },
                _ => !ok,
            },
    {
        let r = match callee {
            Value::Object(r) => r,
            _ => return false,
        };
        let kind: u8 = match self.object_manager.get(r) {
            Some(HeapObject::Function(_)) => 0,
            Some(HeapObject::NativeFunction(_)) => 1,
            Some(HeapObject::Closure(_)) => 2,
            _ => 3,
        };
        if kind == 0 {
            self.call_function(r, argument_count)
        } else if kind == 1 {
            let (native_id, arity) = match self.object_manager.get(r) {
                Some(HeapObject::NativeFunction(f)) => (f.native_id, f.arity),
                _ => return false,
            };
            if arity > 0 {
                return false;
            }
            let outcome = host.call_native(native_id);
            self.finish_native_call(outcome, arity)
        } else if kind == 2 {
            self.call_closure(r, argument_count)
        } else {
            false
        }
    }

    // -----------------------------------------------------------------------------------------
    // Running
    // -----------------------------------------------------------------------------------------

    /// A runtime error with `message`.
    fn report(&self, message: &str) -> (r: Result<Option<InterpretResult>, String>)
        requires
            self.wf(),
        ensures
            r matches Err(text) && ("Runtime error: "@ + message@).len() <= text@.len()
                && text@.subrange(0, ("Runtime error: "@ + message@).len() as int)
                == "Runtime error: "@ + message@,
            r matches Err(text) && text@ == self.error_text(message@),
    {
        Err(self.runtime_error(message))
    }

    /// `message` followed by `name` and then `tail`, as one text.
    fn message_with(message: &str, name: &str, tail: &str) -> (s: String)
        ensures
            s@ == message@ + name@ + tail@,
    {
        let mut s = message.to_string();
        s.append(name);
        s.append(tail);
        s
    }

    /// Pops a value; a runtime error when the stack is empty.
    fn pop_or_report(&mut self) -> (r: Result<Value, String>)
        requires
            old(self).wf(),
        ensures
            final(self).wf(),
            old(self).stack_top_pos > 0 ==> r == Ok::<Value, String>(
                old(self).stack@[old(self).stack_top_pos - 1],
            ) && final(self).stack_top_pos == old(self).stack_top_pos - 1,
            old(self).stack_top_pos == 0 ==> r is Err,
            old(self).stack_top_pos == 0 ==> (r matches Err(text) && text@ == old(self).error_text(
                "Stack underflow"@,
            ) && final(self).stack_top_pos == 0),
            final(self).stack == old(self).stack,
            final(self).frames == old(self).frames,
            final(self).frame_stack_structs == old(self).frame_stack_structs,
            final(self).object_manager == old(self).object_manager,
            final(self).globals == old(self).globals,
            final(self).intern_strings == old(self).intern_strings,
            final(self).open_upvalues == old(self).open_upvalues,
            final(self).struct_types == old(self).struct_types,
            final(self).trait_registry == old(self).trait_registry,
            final(self).type_methods == old(self).type_methods,
    {
        match self.pop() {
            Some(v) => Ok(v),
            None => Err(self.runtime_error("Stack underflow")),
        }
    }

    /// Pushes a value; a runtime error when the stack is full.
    fn push_or_report(&mut self, value: Value) -> (r: Result<Option<InterpretResult>, String>)
        requires
            old(self).wf(),
        ensures
            final(self).wf(),
            r is Ok ==> r == Ok::<Option<InterpretResult>, String>(None),
            old(self).stack_top_pos < MAX_STACK_SIZE ==> r is Ok && final(self).stack@ == old(
                self,
            ).stack@.update(old(self).stack_top_pos as int, value) && final(self).stack_top_pos
                == old(self).stack_top_pos + 1,
            old(self).stack_top_pos >= MAX_STACK_SIZE ==> r is Err,
            final(self).frames == old(self).frames,
            final(self).frame_stack_structs == old(self).frame_stack_structs,
            final(self).object_manager == old(self).object_manager,
            final(self).globals == old(self).globals,
            final(self).intern_strings == old(self).intern_strings,
            final(self).open_upvalues == old(self).open_upvalues,
    {
        if self.push(value) {
            Ok(None)
        } else {
            self.report("Stack overflow")
        }
    }

    /// Whether `a` and `b` are equal values: of one kind, and the same number, boolean,
    /// object or stack struct (nil equals nil).
    fn values_equal<H: Host>(a: Value, b: Value, host: &H) -> (eq: bool)
        ensures
            !(a is Number && b is Number) ==> eq == (a == b),
            (a is Number && b is Number) ==> eq == host.spec_numbers_equal(
                a->Number_0,
                b->Number_0,
            ),
            !(a.spec_value_type() == b.spec_value_type()) ==> !eq,
    {
        match (a, b) {
            (Value::Bool(x), Value::Bool(y)) => x == y,
            (Value::Nil, Value::Nil) => true,
            (Value::Number(x), Value::Number(y)) => host.numbers_equal(x, y),
            (Value::Object(x), Value::Object(y)) => x == y,
            (Value::StackStruct(x), Value::StackStruct(y)) => x == y,
            _ => false,
        }
    }

    /// An arithmetic or comparison instruction on the two numbers on top of the stack.
    fn binary_op<H: Host>(&mut self, op_code: OpCode, host: &H) -> (r: Result<
        Option<InterpretResult>,
        String,
    >)
        requires
            old(self).wf(),
            old(self).frames@.len() > 0,
            op_code == OpCode::Greater || op_code == OpCode::Less || op_code == OpCode::Add
                || op_code == OpCode::Subtract || op_code == OpCode::Multiply || op_code
                == OpCode::Divide,
        ensures
            final(self).wf(),
            old(self).combines_numbers(host, *final(self), r, op_code, 0),
    {
        proof {
            VM::lemma_moved_zero(*self);
        }
        if self.stack_top_pos < 2 {
            return self.report("Binary operator must have two operands.");
        }
        let b = match self.peek_steps(0) {
            Some(Value::Number(b)) => b,
            _ => return self.report("Second operand must be a number."),
        };
        let a = match self.peek_steps(1) {
            Some(Value::Number(a)) => a,
            _ => return self.report("First operand must be a number."),
        };
        self.pop();
        self.pop();
        let result = match op_code {
            OpCode::Greater => Value::Bool(host.greater(a, b)),
            OpCode::Less => Value::Bool(host.less(a, b)),
            OpCode::Add => Value::Number(host.add(a, b)),
            OpCode::Subtract => Value::Number(host.subtract(a, b)),
            OpCode::Multiply => Value::Number(host.multiply(a, b)),
            OpCode::Divide => Value::Number(host.divide(a, b)),
            _ => return self.report("Unknown binary operator."),
        };
        self.push_or_report(result)
    }

    /// `+`: concatenates two strings (interning the result) or adds two numbers.
    fn op_add<H: Host>(&mut self, host: &H) -> (r: Result<Option<InterpretResult>, String>)
        requires
            old(self).wf(),
            old(self).frames@.len() > 0,
        ensures
            final(self).wf(),
            old(self).adds(host, *final(self), r, 0),
    {
        proof {
            VM::lemma_moved_zero(*self);
        }
        if self.stack_top_pos < 2 {
            return self.report("There is a lack of operands in the '+' Operation.");
        }
        let value_b = self.peek_steps(0).unwrap();
        let value_a = self.peek_steps(1).unwrap();
        let string_b = self.string_of(&value_b);
        let string_a = self.string_of(&value_a);
        match (string_a, string_b) {
            (Some(a), Some(b)) => {
                self.pop();
                self.pop();
                let combination = a.concat(b.as_str());
                let value = make_string_value(
                    &mut self.object_manager,
                    &mut self.intern_strings,
                    combination.as_str(),
                );
                self.push_or_report(value)
            },
            _ => {
                match (value_a, value_b) {
                    (Value::Number(_), Value::Number(_)) => self.binary_op(OpCode::Add, host),
                    _ => self.report("Operands must be two numbers or two strings."),
                }
            },
        }
    }

    /// The name held by constant operand `value`, if it is a string.
    fn name_constant(&self, value: Option<Value>) -> (s: Option<String>)
        requires
            self.wf(),
        ensures
            s matches Some(t) ==> value matches Some(v) && self.string_content(v) == Some(t@),
            s is None ==> value is None || self.string_content(value->0) is None,
    {
        match value {
            Some(v) => self.string_of(&v),
            None => None,
        }
    }

    fn op_define_global<H: Host>(&mut self, host: &H) -> (r: Result<
        Option<InterpretResult>,
        String,
    >)
        requires
            old(self).wf(),
        ensures
            final(self).wf(),
            old(self).code_byte(0) is Some ==> old(self).spec_ip() + 1 <= usize::MAX,
            match old(self).constant_name(0) {
                Some(name) => if old(self).spec_stack_top() == 0 {
                    r is Err
                } else {
                    let top = old(self).spec_stack_top();
                    let value = final(self).spec_globals()@[name];
                    &&& r == Ok::<Option<InterpretResult>, String>(None)
                    &&& final(self).spec_stack_top() == top - 1
                    &&& final(self).spec_slots() == old(self).spec_slots().update(top - 1, value)
                    &&& final(self).spec_frames() == old(self).frames_moved(1)
                    &&& final(self).spec_globals()@ == old(self).spec_globals()@.insert(name, value)
                    &&& !(old(self).spec_slots()[top - 1] is StackStruct) ==> value == old(
                        self,
                    ).spec_slots()[top - 1]
                },
                None => r is Err,
            },
    {
        let ghost s0 = *self;
        let constant = self.read_constant();
        proof {
            if s0.code_byte(0) is Some {
                VM::lemma_shift(s0, *self, 1);
            }
            if s0.stack_top_pos > 0 {
                assert(s0.stack@.update(s0.stack_top_pos - 1, s0.stack@[s0.stack_top_pos - 1])
                    =~= s0.stack@);
            }
        }
        let name = match self.name_constant(constant) {
            Some(name) => name,
            None => return self.report("Unknown global variable defination."),
        };
        let value = match self.peek() {
            Some(v) => v,
            None => {
                let message = Self::message_with(
                    "No value on stack to define the global value ",
                    name.as_str(),
                    ".",
                );
                return self.report(message.as_str());
            },
        };
        let promoted = self.promote_stack_struct_value_reason(
            value,
            Some("global assignment"),
            0,
            host,
        );
        if promoted.value_type() != value.value_type() {
            self.set_top(promoted);
        }
        match self.peek() {
            Some(top) => {
                self.globals.insert(name, top);
            },
            None => {},
        }
        self.pop();
        Ok(None)
    }

    fn op_get_global(&mut self) -> (r: Result<Option<InterpretResult>, String>)
        requires
            old(self).wf(),
        ensures
            final(self).wf(),
            old(self).code_byte(0) is Some ==> old(self).spec_ip() + 1 <= usize::MAX,
            match old(self).constant_name(0) {
                Some(name) => if old(self).spec_globals()@.dom().contains(name) {
                    old(self).rewrites(*final(self), r, 0, seq![old(self).spec_globals()@[name]], 1)
                } else {
                    r is Err
                },
                None => r is Err,
            },
    {
        let ghost s0 = *self;
        let constant = self.read_constant();
        proof {
            if s0.code_byte(0) is Some {
                VM::lemma_shift(s0, *self, 1);
            }
        }
        let name = match self.name_constant(constant) {
            Some(name) => name,
            None => return self.report("Unknown global variable."),
        };
        match self.globals.find(name.as_str()) {
            Some(value) => self.push_value(value),
            None => {
                let message = Self::message_with("Undefined global variable ", name.as_str(), ".");
                self.report(message.as_str())
            },
        }
    }

    fn op_set_global<H: Host>(&mut self, host: &H) -> (r: Result<Option<InterpretResult>, String>)
        requires
            old(self).wf(),
        ensures
            final(self).wf(),
            old(self).code_byte(0) is Some ==> old(self).spec_ip() + 1 <= usize::MAX,
            match old(self).constant_name(0) {
                Some(name) => if old(self).spec_stack_top() == 0 || !old(
                    self,
                ).spec_globals()@.dom().contains(name) {
                    r is Err
                } else {
                    let top = old(self).spec_stack_top();
                    &&& r == Ok::<Option<InterpretResult>, String>(None)
                    &&& final(self).spec_stack_top() == top
                    &&& final(self).spec_frames() == old(self).frames_moved(1)
                    &&& final(self).spec_globals()@ == old(self).spec_globals()@.insert(
                        name,
                        old(self).spec_slots()[top - 1],
                    )
                    &&& !(old(self).spec_slots()[top - 1] is StackStruct)
                        ==> final(self).spec_slots() == old(self).spec_slots()
                },
                None => r is Err,
            },
    {
        let ghost s0 = *self;
        let constant = self.read_constant();
        proof {
            if s0.code_byte(0) is Some {
                VM::lemma_shift(s0, *self, 1);
            }
        }
        let name = match self.name_constant(constant) {
            Some(name) => name,
            None => return self.report("Unknown global variable."),
        };
        let value = match self.peek() {
            Some(v) => v,
            None => {
                let message = Self::message_with(
                    "No value on stack to set the global value ",
                    name.as_str(),
                    ".",
                );
                return self.report(message.as_str());
            },
        };
        let key = name.clone();
        let promoted = self.promote_stack_struct_value_reason(
            value,
            Some("global assignment"),
            0,
            host,
        );
        if promoted.value_type() != value.value_type() {
            self.set_top(promoted);
        }
        if self.globals.insert(key, value).is_none() {
            self.globals.remove(&name);
            return self.report("Unknown global variable.");
        }
        Ok(None)
    }

    /// The stack slot of local `slot` of the running frame, if it is on the stack.
    fn local_position(&self, slot: u8) -> (p: Option<usize>)
        requires
            self.wf(),
        ensures
            p == (if self.frames@.len() > 0 && self.frame_base() + slot < MAX_STACK_SIZE {
                Some((self.frame_base() + slot) as usize)
            } else {
                None::<usize>
            }),
    {
        let n = self.frames.len();
        if n == 0 {
            return None;
        }
        let base = self.frames[n - 1].stack_base_offset;
        if (slot as usize) < MAX_STACK_SIZE - base {
            Some(base + slot as usize)
        } else {
            None
        }
    }

    fn op_get_local(&mut self) -> (r: Result<Option<InterpretResult>, String>)
        requires
            old(self).wf(),
        ensures
            final(self).wf(),
            match old(self).code_byte(0) {
                Some(slot) => if old(self).frame_base() + slot < MAX_STACK_SIZE {
                    old(self).rewrites(
                        *final(self),
                        r,
                        0,
                        seq![old(self).spec_slots()[old(self).frame_base() + slot]],
                        1,
                    )
                } else {
                    r is Err
                },
                None => r is Err,
            },
            old(self).code_byte(0) is Some ==> old(self).spec_ip() + 1 <= usize::MAX,
    {
        let ghost s0 = *self;
        let slot = match self.read_byte() {
            Some(slot) => slot,
            None => return self.report("Unknown local variable."),
        };
        match self.local_position(slot) {
            Some(i) => {
                let local = self.stack[i];
                proof {
                    if self.stack_top_pos < MAX_STACK_SIZE {
                        lemma_splice_update(self.stack@, self.stack_top_pos as int, local);
                    }
                }
                self.push_or_report(local)
            },
            None => self.report("Unknown local variable."),
        }
    }

    fn op_set_local(&mut self) -> (r: Result<Option<InterpretResult>, String>)
        requires
            old(self).wf(),
        ensures
            final(self).wf(),
            match old(self).code_byte(0) {
                Some(slot) => if old(self).spec_stack_top() == 0 || old(self).frame_base() + slot
                    >= MAX_STACK_SIZE {
                    r is Err
                } else {
                    &&& r == Ok::<Option<InterpretResult>, String>(None)
                    &&& final(self).spec_stack_top() == old(self).spec_stack_top()
                    &&& final(self).spec_slots() == old(self).spec_slots().update(
                        old(self).frame_base() + slot,
                        old(self).spec_slots()[old(self).spec_stack_top() - 1],
                    )
                    &&& final(self).spec_frames() == old(self).frames_moved(1)
                    &&& final(self).spec_globals()@ == old(self).spec_globals()@
                },
                None => r is Err,
            },
            old(self).code_byte(0) is Some ==> old(self).spec_ip() + 1 <= usize::MAX,
    {
        let slot = match self.read_byte() {
            Some(slot) => slot,
            None => return self.report("Unknown local variable."),
        };
        let value = match self.peek() {
            Some(v) => v,
            None => return self.report("No value on stack to set the local value."),
        };
        match self.local_position(slot) {
            Some(i) => {
                self.stack.set(i, value);
                Ok(None)
            },
            None => self.report("Unknown local variable."),
        }
    }

    /// The index, among the open upvalues, of capture `slot` of the closure the running frame
    /// runs.
    fn frame_upvalue(&self, slot: usize) -> (u: Option<usize>)
        requires
            self.wf(),
        ensures
            u == self.capture_index(slot as int),
    {
        let n = self.frames.len();
        if n == 0 {
            return None;
        }
        match self.object_manager.get(self.frames[n - 1].callable_object) {
            Some(HeapObject::Closure(c)) => {
                if slot < c.upvalues.len() {
                    Some(c.upvalues[slot])
                } else {
                    None
                }
            },
            _ => None,
        }
    }

    fn op_get_upvalue(&mut self) -> (r: Result<Option<InterpretResult>, String>)
        requires
            old(self).wf(),
        ensures
            final(self).wf(),
            old(self).code_byte(0) is Some ==> old(self).spec_ip() + 1 <= usize::MAX,
            match old(self).code_byte(0) {
                Some(slot) => match old(self).capture_index(slot as int) {
                    Some(index) => match old(self).upvalue_value(index as int) {
                        Some(value) => old(self).rewrites(*final(self), r, 0, seq![value], 1),
                        None => r is Err,
                    },
                    None => r is Err,
                },
                None => r is Err,
            },
    {
        let ghost s0 = *self;
        let slot = match self.read_byte() {
            Some(slot) => slot,
            None => return self.report("Unknown upvalue."),
        };
        proof {
            VM::lemma_shift(s0, *self, 1);
        }
        let index = match self.frame_upvalue(slot as usize) {
            Some(index) => index,
            None => return self.report("Unknown upvalue."),
        };
        match self.get_upvalue(index) {
            Some(value) => self.push_value(value),
            None => self.report("Unknown upvalue."),
        }
    }

    fn op_set_upvalue(&mut self) -> (r: Result<Option<InterpretResult>, String>)
        requires
            old(self).wf(),
        ensures
            final(self).wf(),
            old(self).code_byte(0) is Some ==> old(self).spec_ip() + 1 <= usize::MAX,
            match old(self).code_byte(0) {
                Some(slot) => match old(self).capture_index(slot as int) {
                    Some(index) => if old(self).spec_stack_top() == 0 {
                        r is Err
                    } else {
                        old(self).assigns_upvalue(
                            *final(self),
                            r,
                            index as int,
                            old(self).spec_slots()[old(self).spec_stack_top() - 1],
                            1,
                        )
                    },
                    None => r is Err,
                },
                None => r is Err,
            },
    {
        let ghost s0 = *self;
        let slot = match self.read_byte() {
            Some(slot) => slot,
            None => return self.report("Unknown upvalue."),
        };
        proof {
            VM::lemma_shift(s0, *self, 1);
        }
        let index = match self.frame_upvalue(slot as usize) {
            Some(index) => index,
            None => return self.report("Unknown upvalue."),
        };
        let value = match self.peek() {
            Some(v) => v,
            None => return self.report("No value on stack to set the upvalue."),
        };
        if self.set_upvalue(index, value) {
            Ok(None)
        } else {
            self.report("Unknown upvalue.")
        }
    }

    /// Moves the running frame's next instruction `offset` bytes forward, or backward.
    fn jump(&mut self, offset: u16, forward: bool) -> (r: Result<Option<InterpretResult>, String>)
        requires
            old(self).wf(),
            old(self).frames@.len() > 0,
        ensures
            final(self).wf(),
            old(self).jumps(*final(self), r, 0, offset as int, forward),
    {
        let n = self.frames.len();
        if n == 0 {
            return self.report("There are not enough bytes to read a short.");
        }
        let frame = self.frames[n - 1];
        let distance = offset as usize;
        if forward {
            if frame.ip <= usize::MAX - distance {
                self.frames.set(n - 1, CallFrame { ip: frame.ip + distance, ..frame });
                return Ok(None);
            }
        } else {
            if frame.ip >= distance {
                self.frames.set(n - 1, CallFrame { ip: frame.ip - distance, ..frame });
                return Ok(None);
            }
        }
        self.report("Jump out of the code.")
    }

    fn op_jump(&mut self, op: OpCode) -> (r: Result<Option<InterpretResult>, String>)
        requires
            old(self).wf(),
            op == OpCode::Jump || op == OpCode::Loop || op == OpCode::JumpIfFalse || op
                == OpCode::JumpIfTrue,
        ensures
            final(self).wf(),
            match old(self).short_operand(0) {
                Some(offset) => match op {
                    OpCode::Jump => old(self).jumps(*final(self), r, 2, offset, true),
                    OpCode::Loop => old(self).jumps(*final(self), r, 2, offset, false),
                    OpCode::JumpIfFalse => old(self).jumps_if(*final(self), r, 2, offset, true),
                    _ => old(self).jumps_if(*final(self), r, 2, offset, false),
                },
                None => r is Err,
            },
            old(self).short_operand(0) is Some ==> old(self).spec_ip() + 2 <= usize::MAX,
    {
        let ghost s0 = *self;
        let offset = match self.read_short() {
            Some(offset) => offset,
            None => return self.report("There are not enough bytes to read a short."),
        };
        proof {
            VM::lemma_shift_more(s0, *self, 2);
        }
        match op {
            OpCode::Jump => self.jump(offset, true),
            OpCode::Loop => self.jump(offset, false),
            _ => {
                let value = match self.peek() {
                    Some(v) => v,
                    None => return self.report(
                        "No value on stack for condition expression result.",
                    ),
                };
                let take = if op == OpCode::JumpIfFalse {
                    Self::is_falsey(&value)
                } else {
                    !Self::is_falsey(&value)
                };
                if take {
                    self.jump(offset, true)
                } else {
                    Ok(None)
                }
            },
        }
    }

    fn op_call<H: Host>(&mut self, host: &H) -> (r: Result<Option<InterpretResult>, String>)
        requires
            old(self).wf(),
        ensures
            final(self).wf(),
            old(self).code_byte(0) is Some ==> old(self).spec_ip() + 1 <= usize::MAX,
            match old(self).code_byte(0) {
                Some(argument_count) => old(self).calls(*final(self), r, argument_count as int, 1),
                None => r is Err,
            },
    {
        let ghost s0 = *self;
        let argument_count = match self.read_byte() {
            Some(count) => count,
            None => return self.report("There are not enough bytes to read a short."),
        };
        proof {
            VM::lemma_shift(s0, *self, 1);
        }
        let callee = match self.peek_steps(argument_count as usize) {
            Some(callee) => callee,
            None => return self.report("Instruction Call failed."),
        };
        if !self.call_value(callee, argument_count, host) {
            return self.report("Instruction Call failed.");
        }
        Ok(None)
    }

    /// The name of the struct type of `receiver`: a heap instance or a stack struct of the
    /// running frame.
    fn receiver_type_name(&self, receiver: Value) -> (r: Result<String, String>)
        requires
            self.wf(),
        ensures
            r matches Ok(name) ==> self.receiver_struct_name(receiver) == Some(name@),
            r is Err ==> self.receiver_struct_name(receiver) is None,
    {
        match receiver {
            Value::Object(r) => {
                let struct_type = match self.object_manager.get(r) {
                    Some(HeapObject::StructInstance(i)) => i.struct_type,
                    _ => return Err(
                        self.runtime_error("Invoke receiver must be struct instance"),
                    ),
                };
                match self.struct_type_name(struct_type) {
                    Some(name) => Ok(name),
                    None => Err(self.runtime_error("Invoke receiver must be struct instance")),
                }
            },
            Value::StackStruct(index) => {
                let n = self.frame_stack_structs.len();
                if n == 0 {
                    return Err(self.runtime_error("Missing frame arena"));
                }
                if index >= self.frame_stack_structs[n - 1].len() {
                    return Err(self.runtime_error("Invalid stack struct index"));
                }
                match self.struct_type_name(self.frame_stack_structs[n - 1][index].struct_type) {
                    Some(name) => Ok(name),
                    None => Err(self.runtime_error("Invalid stack struct index")),
                }
            },
            _ => Err(self.runtime_error("Invoke receiver must be object or stack struct")),
        }
    }

    /// The position of the method table of type `name`, if there is one.
    fn method_table(&self, name: &String) -> (i: Option<usize>)
        ensures
            i matches Some(k) ==> k < self.type_methods@.len(),
            i matches Some(k) ==> self.method_table_index(name@) == Some(k as int),
            i is None ==> self.method_table_index(name@) is None,
    {
        let ghost tables = self.spec_type_methods();
        let mut k: usize = 0;
        while k < self.type_methods.len()
            invariant
                k <= self.type_methods@.len(),
                tables == self.spec_type_methods(),
                forall|j: int| #![trigger tables[j]] 0 <= j < k ==> tables[j].0@ != name@,
            decreases self.type_methods@.len() - k,
        {
            if self.type_methods[k].0 == *name {
                proof {
                    let n = name@;
                    assert(0 <= k < tables.len() && tables[k as int].0@ == n && forall|j: int|
                        #![trigger tables[j]]
                        0 <= j < k ==> tables[j].0@ != n);
                    let c = choose|i: int|
                        #![trigger tables[i]]
                        0 <= i < tables.len() && tables[i].0@ == n && forall|j: int|
                            #![trigger tables[j]]
                            0 <= j < i ==> tables[j].0@ != n;
                    if c < k {
                        assert(tables[c].0@ != n);
                    }
                    if c > k {
                        assert(tables[k as int].0@ != n);
                    }
                    assert(c == k);
                }
                return Some(k);
            }
            k = k + 1;
        }
        None
    }

    /// Moves the values from stack slot `base` up to the top one slot up and puts `value` in
    /// slot `base`.
    fn insert_below(&mut self, base: usize, value: Value)
        requires
            old(self).wf(),
            base <= old(self).stack_top_pos < MAX_STACK_SIZE,
        ensures
            final(self).wf(),
            final(self).stack_top_pos == old(self).stack_top_pos + 1,
            final(self).stack@ == old(self).stack@.take(base as int) + seq![value] + old(
                self,
            ).stack@.subrange(base as int, old(self).stack_top_pos as int) + old(self).stack@.skip(
                old(self).stack_top_pos + 1,
            ),
            final(self).frames == old(self).frames,
            final(self).object_manager == old(self).object_manager,
            final(self).globals == old(self).globals,
            final(self).intern_strings == old(self).intern_strings,
            final(self).open_upvalues == old(self).open_upvalues,
            final(self).frame_stack_structs == old(self).frame_stack_structs,
            final(self).struct_types == old(self).struct_types,
            final(self).trait_registry == old(self).trait_registry,
            final(self).type_methods == old(self).type_methods,
    {
        let ghost s0 = self.stack@;
        let old_top = self.stack_top_pos;
        self.stack_top_pos = self.stack_top_pos + 1;
        let mut i = old_top;
        while i > base
            invariant
                self.wf(),
                base <= i <= old_top,
                old_top < MAX_STACK_SIZE,
                self.stack_top_pos == old_top + 1,
                self.frames == old(self).frames,
                self.object_manager == old(self).object_manager,
                self.globals == old(self).globals,
                self.intern_strings == old(self).intern_strings,
                self.open_upvalues == old(self).open_upvalues,
                self.frame_stack_structs == old(self).frame_stack_structs,
                self.struct_types == old(self).struct_types,
                self.trait_registry == old(self).trait_registry,
                self.type_methods == old(self).type_methods,
                s0 == old(self).stack@,
                old_top == old(self).stack_top_pos,
                self.stack@.len() == s0.len(),
                forall|j: int| 0 <= j <= i ==> #[trigger] self.stack@[j] == s0[j],
                forall|j: int| i < j <= old_top ==> #[trigger] self.stack@[j] == s0[j - 1],
                forall|j: int| old_top < j < s0.len() ==> #[trigger] self.stack@[j] == s0[j],
            decreases i,
        {
            let moved = self.stack[i - 1];
            self.stack.set(i, moved);
            i = i - 1;
        }
        self.stack.set(base, value);
        proof {
            assert(self.stack@ =~= s0.take(base as int) + seq![value] + s0.subrange(
                base as int,
                old_top as int,
            ) + s0.skip(old_top + 1));
        }
    }

    fn op_invoke<H: Host>(&mut self, host: &H) -> (r: Result<Option<InterpretResult>, String>)
        requires
            old(self).wf(),
        ensures
            final(self).wf(),
            old(self).code_byte(0) is Some ==> old(self).spec_ip() + 1 <= usize::MAX,
            old(self).code_byte(1) is Some ==> old(self).spec_ip() + 2 <= usize::MAX,
            match old(self).code_byte(1) {
                Some(argument_count) => old(self).invokes(
                    *final(self),
                    r,
                    old(self).constant_name(0),
                    argument_count as int,
                    2,
                ),
                None => r is Err,
            },
    {
        let ghost s0 = *self;
        let method_index = match self.read_byte() {
            Some(b) => b as usize,
            None => return self.report("Malformed Invoke (missing method index)"),
        };
        proof {
            VM::lemma_shift(s0, *self, 1);
        }
        let arg_count = match self.read_byte() {
            Some(b) => b,
            None => return self.report("Malformed Invoke (missing arg count)"),
        };
        proof {
            assert(self.frames@ =~= s0.frames_moved(2));
            VM::lemma_shift(s0, *self, 2);
            VM::lemma_shift_more(s0, *self, 2);
        }
        let receiver = match self.peek_steps(arg_count as usize) {
            Some(v) => v,
            None => return self.report("Invoke receiver must be object or stack struct"),
        };
        let receiver_type = match self.receiver_type_name(receiver) {
            Ok(name) => name,
            Err(e) => return Err(e),
        };
        let method_value = self.constant_at(method_index);
        let method_name = match self.name_constant(method_value) {
            Some(name) => name,
            None => return self.report("Invoke method name constant not string"),
        };
        proof {
            assert(self.spec_type_methods() == s0.spec_type_methods());
            assert(self.method_table_index(receiver_type@) == s0.method_table_index(
                receiver_type@,
            ));
            assert(s0.spec_slots() == self.spec_slots());
        }
        let table_index = match self.method_table(&receiver_type) {
            Some(k) => k,
            None => {
                let message = Self::message_with(
                    "No methods registered for type '",
                    receiver_type.as_str(),
                    "'",
                );
                return self.report(message.as_str());
            },
        };
        proof {
            assert(s0.methods_of(receiver_type@) == Some(self.type_methods@[table_index as int].1@));
        }
        let function_value = match self.type_methods[table_index].1.find(method_name.as_str()) {
            Some(v) => v,
            None => {
                let mut message = Self::message_with("Unknown method '", method_name.as_str(), "'");
                message.append(" for type '");
                message.append(receiver_type.as_str());
                message.append("'");
                return self.report(message.as_str());
            },
        };
        if self.stack_top_pos >= MAX_STACK_SIZE {
            return self.report("Stack overflow during invoke");
        }
        if arg_count == 255 {
            return self.report("Invoke call failed");
        }
        let insert_pos = self.stack_top_pos - arg_count as usize - 1;
        let ghost named = *self;
        self.insert_below(insert_pos, function_value);
        proof {
            VM::lemma_moved_zero(named);
        }
        if !self.call_value(function_value, arg_count + 1, host) {
            return self.report("Invoke call failed");
        }
        Ok(None)
    }

    #[verifier::spinoff_prover]
    #[verifier::rlimit(60)]
    fn op_closure(&mut self) -> (r: Result<Option<InterpretResult>, String>)
        requires
            old(self).wf(),
        ensures
            final(self).wf(),
            old(self).code_byte(0) is Some ==> old(self).spec_ip() + 1 <= usize::MAX,
            old(self).makes_closure(*final(self), r, 0),
    {
        let ghost s1 = *self;
        let function_value = match self.read_constant() {
            Some(v) => v,
            None => return self.report("There are not enough bytes to read a short."),
        };
        proof {
            VM::lemma_shift(s1, *self, 1);
        }
        let function = match function_value {
            Value::Object(r) => r,
            _ => return self.report("Closure constant is not a function."),
        };
        let upvalue_count = match self.object_manager.get(function) {
            Some(HeapObject::Function(f)) => f.upvalue_count,
            _ => return self.report("Closure constant is not a function."),
        };
        let mut closure = ObjectClosure::new(function);
        let mut k: usize = 0;
        while k < upvalue_count
            invariant
                self.wf(),
                k <= upvalue_count,
                s1 == *old(self),
                s1.frames@.len() > 0,
                s1.running_chunk() is Some,
                s1.code_byte(0) is Some,
                s1.spec_ip() + 1 <= usize::MAX,
                s1.constant_function(0) matches Some((g, f)) && g == function && f.upvalue_count
                    == upvalue_count,
                self.frames@ == s1.frames_moved(1 + 2 * k),
                s1.spec_ip() + 1 + 2 * k <= usize::MAX,
                self.stack == s1.stack,
                self.stack_top_pos == s1.stack_top_pos,
                self.globals == s1.globals,
                forall|q: ObjRef|
                    s1.runs(q) && s1.object_manager.slot(q) is Some ==> #[trigger] self.object_manager.slot(q)
                        == s1.object_manager.slot(q),
                forall|j: int| 0 <= j < k ==> #[trigger] s1.capture_ok(1, j),
                closure.function == function,
                closure.upvalues@.len() == k,
                forall|j: int|
                    0 <= j < k ==> #[trigger] s1.captured(*self, 1, j, closure.upvalues@[j]),
            decreases upvalue_count - k,
        {
            let ghost before = *self;
            proof {
                VM::lemma_code_kept(s1, before, 1 + 2 * k);
            }
            let is_local = match self.read_byte() {
                Some(b) => b,
                None => {
                    assert(!s1.capture_ok(1, k as int));
                    return self.report("Malformed Closure (missing capture)");
                },
            };
            let ghost first = *self;
            proof {
                VM::lemma_shift(before, first, 1);
            }
            let index = match self.read_byte() {
                Some(b) => b,
                None => {
                    assert(!s1.capture_ok(1, k as int));
                    return self.report("Malformed Closure (missing capture)");
                },
            };
            let ghost second = *self;
            proof {
                VM::lemma_shift(first, second, 1);
                assert(s1.code_byte(1 + 2 * k) == Some(is_local));
                assert(s1.code_byte(1 + 2 * k + 1) == Some(index));
            }
            if is_local == 0 {
                match self.frame_upvalue(index as usize) {
                    Some(u) => closure.add_upvalue(u),
                    None => {
                        assert(!s1.capture_ok(1, k as int));
                        return self.report("Unknown upvalue.");
                    },
                }
                proof {
                    assert forall|j: int| 0 <= j < k + 1 implies #[trigger] s1.captured(
                        *self,
                        1,
                        j,
                        closure.upvalues@[j],
                    ) by {
                        if j < k {
                            assert(s1.captured(before, 1, j, closure.upvalues@[j]));
                        }
                    }
                }
            } else {
                match self.local_position(index) {
                    Some(slot) => {
                        let u = self.capture_upvalue(slot);
                        closure.add_upvalue(u);
                        proof {
                            VM::lemma_runs_kept(s1, second);
                            assert forall|j: int| 0 <= j < k + 1 implies #[trigger] s1.captured(
                                *self,
                                1,
                                j,
                                closure.upvalues@[j],
                            ) by {
                                if j < k {
                                    assert(s1.captured(before, 1, j, closure.upvalues@[j]));
                                    let up = closure.upvalues@[j];
                                    if s1.code_byte(1 + 2 * j) != Some(0u8) {
                                        assert(self.open_upvalues@.take(
                                            second.open_upvalues@.len() as int,
                                        )[up as int] == self.open_upvalues@[up as int]);
                                        let obj = second.open_upvalues@[up as int];
                                        assert(second.spec_open_upvalues().contains(obj));
                                        assert(second.holds_directly(obj));
                                    }
                                }
                            }
                        }
                    },
                    None => {
                        assert(!s1.capture_ok(1, k as int));
                        return self.report("Unknown local variable.");
                    },
                }
            }
            proof {
                assert(s1.capture_ok(1, k as int));
            }
            k = k + 1;
        }
        let ghost looped = *self;
        let ghost m0 = self.object_manager;
        let (closure_ref, size) = self.object_manager.push_object(HeapObject::Closure(closure));
        proof {
            assert forall|key: Seq<char>| #[trigger]
                self.intern_strings@.dom().contains(key) implies (self.intern_strings@[key] matches Value::Object(
                r,
            ) && self.object_manager.slot(r) matches Some(HeapObject::String(o)) && o.content@ == key) by {
                m0.lemma_slot_in_heap(self.intern_strings@[key]->Object_0);
            }
        }
        if !self.push(Value::Object(closure_ref)) {
            return self.report("Stack overflow");
        }
        let ghost pushed = *self;
        proof {
            let top = s1.stack_top_pos as int;
            assert(pushed.spec_slots()[top] == Value::Object(closure_ref));
            assert(pushed.holds_directly(closure_ref));
            assert forall|j: int| 0 <= j < k implies #[trigger] s1.captured(
                pushed,
                1,
                j,
                closure.upvalues@[j],
            ) by {
                assert(s1.captured(looped, 1, j, closure.upvalues@[j]));
                let up = closure.upvalues@[j];
                if s1.code_byte(1 + 2 * j) != Some(0u8) {
                    m0.lemma_slot_in_heap(looped.open_upvalues@[up as int]);
                }
            }
        }
        self.track_allocation(size);
        proof {
            assert forall|j: int| 0 <= j < k implies #[trigger] s1.captured(
                *self,
                1,
                j,
                closure.upvalues@[j],
            ) by {
                assert(s1.captured(pushed, 1, j, closure.upvalues@[j]));
                let up = closure.upvalues@[j];
                if s1.code_byte(1 + 2 * j) != Some(0u8) {
                    let obj = pushed.open_upvalues@[up as int];
                    assert(pushed.spec_open_upvalues().contains(obj));
                    assert(pushed.holds_directly(obj));
                }
            }
        }
        Ok(None)
    }

    fn op_close_upvalue<H: Host>(&mut self, host: &H) -> (r: Result<
        Option<InterpretResult>,
        String,
    >)
        requires
            old(self).wf(),
            old(self).frames@.len() > 0,
        ensures
            final(self).wf(),
            old(self).rewrites(*final(self), r, 1, Seq::empty(), 0),
    {
        proof {
            VM::lemma_moved_zero(*self);
            if self.stack_top_pos > 0 {
                lemma_splice_none(self.stack@, self.stack_top_pos - 1);
            }
        }
        if self.stack_top_pos == 0 {
            return self.report("Stack underflow");
        }
        let last = self.stack_top_pos - 1;
        self.close_upvalues(last, host);
        self.pop();
        Ok(None)
    }

    fn op_return<H: Host>(&mut self, host: &H) -> (r: Result<Option<InterpretResult>, String>)
        requires
            old(self).wf(),
        ensures
            final(self).wf(),
            old(self).returns_from_call(*final(self), r),
    {
        let result = match self.pop_or_report() {
            Ok(v) => v,
            Err(e) => return Err(e),
        };
        if result.value_type() == ValueType::ValueStackStruct {
            return self.report(
                "Cannot return stack-allocated struct; use 'new' to allocate on heap",
            );
        }
        let n = self.frames.len();
        if n == 0 {
            return self.report("Unexpected end of bytecode");
        }
        let base = self.frames[n - 1].stack_base_offset;
        self.close_upvalues(base, host);
        self.frames.pop();
        self.frame_stack_structs.pop();
        if self.frames.len() == 0 {
            assert(self.frames@ =~= Seq::<CallFrame>::empty());
            self.pop();
            return Ok(Some(InterpretResult::InterpretOk));
        }
        self.stack_top_pos = base;
        self.push_or_report(result)
    }

    /// The contents of the string constants named by the next `count` bytes.
    fn read_names(&mut self, count: usize, missing: &str, not_string: &str) -> (r: Result<
        Vec<String>,
        String,
    >)
        requires
            old(self).wf(),
            old(self).frames@.len() > 0,
        ensures
            final(self).wf(),
            final(self).stack == old(self).stack,
            final(self).stack_top_pos == old(self).stack_top_pos,
            final(self).object_manager == old(self).object_manager,
            final(self).globals == old(self).globals,
            final(self).intern_strings == old(self).intern_strings,
            final(self).open_upvalues == old(self).open_upvalues,
            final(self).frame_stack_structs == old(self).frame_stack_structs,
            final(self).struct_types == old(self).struct_types,
            final(self).trait_registry == old(self).trait_registry,
            final(self).type_methods == old(self).type_methods,
            final(self).gc == old(self).gc,
            r matches Ok(names) ==> old(self).constant_names(0, count as int) == Some(
                names@.map_values(|n: String| n@),
            ) && final(self).frames@ == old(self).frames_moved(count as int) && old(
                self,
            ).spec_ip() + count <= usize::MAX,
            r is Err ==> old(self).constant_names(0, count as int) is None,
    {
        let ghost s0 = *self;
        proof {
            VM::lemma_moved_zero(s0);
        }
        let mut names: Vec<String> = Vec::new();
        let mut k: usize = 0;
        while k < count
            invariant
                self.wf(),
                s0 == *old(self),
                s0.wf(),
                s0.frames@.len() > 0,
                k <= count,
                s0.spec_ip() + k <= usize::MAX,
                self.frames@ == s0.frames_moved(k as int),
                self.stack == s0.stack,
                self.stack_top_pos == s0.stack_top_pos,
                self.object_manager == s0.object_manager,
                self.globals == s0.globals,
                self.intern_strings == s0.intern_strings,
                self.open_upvalues == s0.open_upvalues,
                self.frame_stack_structs == s0.frame_stack_structs,
                self.struct_types == s0.struct_types,
                self.trait_registry == s0.trait_registry,
                self.type_methods == s0.type_methods,
                self.gc == s0.gc,
                names@.len() == k,
                forall|j: int| 0 <= j < k ==> #[trigger] s0.constant_name(0 + j) == Some(names@[j]@),
            decreases count - k,
        {
            let ghost before = *self;
            proof {
                VM::lemma_shift(s0, before, k as int);
            }
            let index = match self.read_byte() {
                Some(b) => b as usize,
                None => {
                    assert(s0.constant_name(0 + k) is None);
                    return Err(self.runtime_error(missing));
                },
            };
            proof {
                VM::lemma_shift(before, *self, 1);
            }
            let value = self.constant_at(index);
            match self.name_constant(value) {
                Some(name) => names.push(name),
                None => {
                    assert(s0.constant_name(0 + k) is None);
                    return Err(self.runtime_error(not_string));
                },
            }
            proof {
                assert(s0.constant_name(0 + k) == Some(names@[k as int]@));
                assert(self.frames@ =~= s0.frames_moved(k + 1));
            }
            k = k + 1;
        }
        proof {
            assert(names@.map_values(|n: String| n@) =~= Seq::new(
                count as nat,
                |j: int| s0.constant_name(0 + j)->0,
            ));
        }
        Ok(names)
    }

    fn op_implement_trait(&mut self) -> (r: Result<Option<InterpretResult>, String>)
        requires
            old(self).wf(),
        ensures
            final(self).wf(),
            old(self).code_byte(0) is Some ==> old(self).spec_ip() + 1 <= usize::MAX,
            old(self).code_byte(1) is None ==> r is Err,
            match old(self).code_byte(1) {
                Some(count) => match old(self).constant_names(2, count as int) {
                    Some(methods) => old(self).spec_ip() + 2 + count <= usize::MAX && old(
                        self,
                    ).implements_trait(*final(self), r, old(self).constant_value(0), methods, 2 + count),
                    None => r is Err,
                },
                None => r is Err,
            },
    {
        let ghost s0 = *self;
        let name_index = match self.read_byte() {
            Some(b) => b as usize,
            None => return self.report("Malformed ImplementTrait (missing name index)"),
        };
        proof {
            VM::lemma_shift(s0, *self, 1);
        }
        let method_count = match self.read_byte() {
            Some(b) => b as usize,
            None => return self.report("Malformed ImplementTrait (missing method count)"),
        };
        proof {
            assert(self.frames@ =~= s0.frames_moved(2));
            VM::lemma_shift(s0, *self, 2);
            VM::lemma_shift_more(s0, *self, 2);
        }
        let name_value = self.constant_at(name_index);
        let methods = match self.read_names(
            method_count,
            "Malformed ImplementTrait (missing method name index)",
            "Trait method name constant not string",
        ) {
            Ok(m) => m,
            Err(e) => return Err(e),
        };
        proof {
            assert(self.frames@ == s0.frames_moved(2 + method_count));
            assert(s0.constant_value(0) == name_value);
            assert(s0.frames_moved(2 + method_count) == s0.frames_moved(2 + method_count));
        }
        let ghost names = methods@.map_values(|m: String| m@);
        let name_value = match name_value {
            Some(v) => v,
            None => return self.report(
                "ImplementTrait constant must be trait object or name string",
            ),
        };
        let trait_object: Option<(ObjRef, String)> = match name_value {
            Value::Object(r) => match self.object_manager.get(r) {
                Some(HeapObject::Trait(t)) => Some((r, t.name.clone())),
                _ => None,
            },
            _ => None,
        };
        match trait_object {
            Some((r, name)) => {
                let ghost m0 = self.object_manager;
                self.object_manager.set_trait_methods(r, methods);
                proof {
                    assert forall|key: Seq<char>| #[trigger]
                        self.intern_strings@.dom().contains(key) implies (self.intern_strings@[key] matches Value::Object(
                        q,
                    ) && self.object_manager.slot(q) matches Some(HeapObject::String(o))
                        && o.content@ == key) by {
                        let q = self.intern_strings@[key]->Object_0;
                        if q == r {
                            assert(m0.slot(q) matches Some(HeapObject::String(_)));
                        }
                    }
                }
                self.trait_registry.insert(name, name_value);
                return Ok(None);
            },
            None => {},
        }
        match self.string_of(&name_value) {
            Some(trait_name) => {
                if self.trait_registry.find(trait_name.as_str()).is_none() {
                    let mut t = ObjectTrait::new(trait_name.clone());
                    t.method_names = methods;
                    let ghost made = t;
                    let ghost m0 = self.object_manager;
                    let (r, size) = self.object_manager.push_object(HeapObject::Trait(t));
                    proof {
                        assert forall|key: Seq<char>| #[trigger]
                            self.intern_strings@.dom().contains(key) implies (self.intern_strings@[key] matches Value::Object(
                            q,
                        ) && self.object_manager.slot(q) matches Some(HeapObject::String(o))
                            && o.content@ == key) by {
                            m0.lemma_slot_in_heap(self.intern_strings@[key]->Object_0);
                        }
                    }
                    let ghost key = trait_name@;
                    self.trait_registry.insert(trait_name, Value::Object(r));
                    let ghost inserted = *self;
                    proof {
                        assert(inserted.spec_trait_registry()@.dom().contains(key));
                        assert(inserted.spec_trait_registry().holds_value(Value::Object(r)));
                        assert(inserted.registered(r));
                    }
                    self.track_allocation(size);
                    proof {
                        assert(self.object_manager.slot(r) == Some(HeapObject::Trait(made)));
                    }
                }
                Ok(None)
            },
            None => self.report("ImplementTrait constant must be trait object or name string"),
        }
    }

    /// When some table is for `name`, a first one is.
    proof fn lemma_first_table(tables: Seq<(String, Table)>, name: Seq<char>, i: int)
        requires
            0 <= i < tables.len(),
            tables[i].0@ == name,
        ensures
            exists|k: int|
                #![trigger tables[k]]
                0 <= k < tables.len() && tables[k].0@ == name && forall|j: int|
                    #![trigger tables[j]]
                    0 <= j < k ==> tables[j].0@ != name,
        decreases i,
    {
        if exists|j: int| #![trigger tables[j]] 0 <= j < i && tables[j].0@ == name {
            let j = choose|j: int| #![trigger tables[j]] 0 <= j < i && tables[j].0@ == name;
            VM::lemma_first_table(tables, name, j);
        } else {
            assert(0 <= i < tables.len() && tables[i].0@ == name && forall|j: int|
                #![trigger tables[j]]
                0 <= j < i ==> tables[j].0@ != name);
        }
    }

    /// Which table is the first for a name depends on the names of the tables alone.
    proof fn lemma_table_index_same(a: VM, b: VM, name: Seq<char>)
        requires
            a.spec_type_methods().len() == b.spec_type_methods().len(),
            forall|i: int|
                0 <= i < a.spec_type_methods().len() ==> #[trigger] a.spec_type_methods()[i].0@
                    == b.spec_type_methods()[i].0@,
        ensures
            a.method_table_index(name) == b.method_table_index(name),
    {
        let ta = a.spec_type_methods();
        let tb = b.spec_type_methods();
        assert forall|i: int| 0 <= i < ta.len() implies #[trigger] ta[i].0@ == tb[i].0@ by {
            assert(a.spec_type_methods()[i].0@ == b.spec_type_methods()[i].0@);
        }
        if a.method_table_index(name) is Some {
            let i = a.method_table_index(name)->0;
            assert(tb[i].0@ == name);
            assert forall|j: int| #![trigger tb[j]] 0 <= j < i implies tb[j].0@ != name by {
                assert(ta[j].0@ != name);
            }
            let c = choose|k: int|
                #![trigger tb[k]]
                0 <= k < tb.len() && tb[k].0@ == name && forall|j: int|
                    #![trigger tb[j]]
                    0 <= j < k ==> tb[j].0@ != name;
            if c < i {
                assert(tb[c].0@ != name);
            }
            if c > i {
                assert(tb[i].0@ != name);
            }
        } else if b.method_table_index(name) is Some {
            let i = b.method_table_index(name)->0;
            assert(ta[i].0@ == name);
            assert forall|j: int| #![trigger ta[j]] 0 <= j < i implies ta[j].0@ != name by {
                assert(tb[j].0@ != name);
            }
        }
    }

    /// Sets the methods `entries`, in turn, in the method table of type `receiver_type`,
    /// made when there is none.
    #[verifier::spinoff_prover]
    fn store_methods(
        &mut self,
        receiver_type: String,
        entries: &Vec<(String, Value)>,
        Ghost(base): Ghost<Map<Seq<char>, Value>>,
    )
        requires
            old(self).wf(),
            base == (match old(self).methods_of(receiver_type@) {
                Some(m) => m,
                None => Map::empty(),
            }),
        ensures
            final(self).wf(),
            final(self).frames == old(self).frames,
            final(self).stack == old(self).stack,
            final(self).stack_top_pos == old(self).stack_top_pos,
            final(self).object_manager == old(self).object_manager,
            final(self).globals == old(self).globals,
            final(self).methods_of(receiver_type@) == Some(apply_entries(base, entries@)),
            forall|other: Seq<char>|
                other != receiver_type@ ==> #[trigger] final(self).methods_of(other) == old(self).methods_of(other),
    {
        let ghost looped = *self;
        let ghost s0 = *self;
        let position = match self.method_table(&receiver_type) {
            Some(k) => k,
            None => {
                self.type_methods.push((receiver_type, Table::new()));
                self.type_methods.len() - 1
            },
        };
        let ghost pushed = self.type_methods@;
        proof {
            if looped.method_table_index(receiver_type@) is None {
                assert(pushed[position as int].1@ == Map::<Seq<char>, Value>::empty());
            } else {
                assert(pushed[position as int] == looped.type_methods@[position as int]);
            }
        }
        let mut entry = self.type_methods.remove(position);
        let ghost taken_table = entry.1@;
        let ghost taken_name = entry.0;
        proof {
            assert(entry == pushed[position as int]);
            assert(looped.spec_type_methods() == s0.spec_type_methods());
            assert(looped.method_table_index(receiver_type@) == s0.method_table_index(
                receiver_type@,
            ));
            assert(taken_table == base);
        }
        let mut j: usize = 0;
        while j < entries.len()
            invariant
                entry.0 == taken_name,
                entry.1.wf(),
                j <= entries@.len(),
                entry.1@ == apply_entries(base, entries@.take(j as int)),
            decreases entries@.len() - j,
        {
            let name = entries[j].0.clone();
            let value = entries[j].1;
            proof {
                assert(entries@.take(j + 1).drop_last() =~= entries@.take(j as int));
            }
            entry.1.insert(name, value);
            j = j + 1;
        }
        proof {
            assert(entries@.take(entries@.len() as int) =~= entries@);
        }
        let ghost stored = entry;
        self.type_methods.insert(position, entry);
        proof {
            assert(self.type_methods@ =~= pushed.update(position as int, stored));
            assert(stored.0 == pushed[position as int].0);
            let after = *self;
            let before = looped;
            if before.method_table_index(receiver_type@) is Some {
                VM::lemma_table_index_same(before, after, receiver_type@);
                assert forall|other: Seq<char>| other != receiver_type@ implies #[trigger] after.methods_of(other)
                    == before.methods_of(other) by {
                    VM::lemma_table_index_same(before, after, other);
                }
            } else {
                let n = before.spec_type_methods().len();
                let tables = after.spec_type_methods();
                assert(tables.len() == n + 1);
                assert(tables[n as int].0@ == receiver_type@);
                assert forall|i: int| 0 <= i < n implies #[trigger] tables[i].0@ != receiver_type@ by {
                    if tables[i].0@ == receiver_type@ {
                        assert(before.spec_type_methods()[i].0@ == receiver_type@);
                        VM::lemma_first_table(before.spec_type_methods(), receiver_type@, i);
                    }
                }
                assert(after.method_table_index(receiver_type@) == Some(n as int));
                assert forall|other: Seq<char>| other != receiver_type@ implies #[trigger] after.methods_of(other)
                    == before.methods_of(other) by {
                    if before.method_table_index(other) is Some {
                        let i = before.method_table_index(other)->0;
                        assert(tables[i] == before.spec_type_methods()[i]);
                        assert forall|j: int| #![trigger tables[j]] 0 <= j < i implies tables[j].0@ != other by {
                            assert(before.spec_type_methods()[j].0@ != other);
                        }
                        let c = choose|k: int|
                            #![trigger tables[k]]
                            0 <= k < tables.len() && tables[k].0@ == other && forall|j: int|
                                #![trigger tables[j]]
                                0 <= j < k ==> tables[j].0@ != other;
                        if c < i {
                            assert(tables[c].0@ != other);
                        }
                        if c > i {
                            assert(tables[i].0@ != other);
                        }
                    } else if after.method_table_index(other) is Some {
                        let i = after.method_table_index(other)->0;
                        assert(i < n);
                        assert(before.spec_type_methods()[i].0@ == other);
                        VM::lemma_first_table(before.spec_type_methods(), other, i);
                    }
                }
            }
        }
    }

    #[verifier::spinoff_prover]
    fn op_impl_register(&mut self) -> (r: Result<Option<InterpretResult>, String>)
        requires
            old(self).wf(),
        ensures
            final(self).wf(),
            old(self).code_byte(0) is Some ==> old(self).spec_ip() + 1 <= usize::MAX,
            match (old(self).constant_name(0), old(self).constant_name(1), old(self).code_byte(2)) {
                (Some(trait_name), Some(receiver_type), Some(count)) => old(self).registers_methods(
                    *final(self),
                    r,
                    trait_name,
                    receiver_type,
                    3,
                    count as int,
                ),
                _ => r is Err,
            },
    {
        let ghost s0 = *self;
        let trait_index = match self.read_byte() {
            Some(b) => b as usize,
            None => return self.report("Malformed ImplRegister (missing trait index)"),
        };
        proof {
            VM::lemma_shift(s0, *self, 1);
        }
        let type_index = match self.read_byte() {
            Some(b) => b as usize,
            None => return self.report("Malformed ImplRegister (missing type index)"),
        };
        proof {
            assert(self.frames@ =~= s0.frames_moved(2));
            VM::lemma_shift(s0, *self, 2);
        }
        let count = match self.read_byte() {
            Some(b) => b as usize,
            None => return self.report("Malformed ImplRegister (missing method count)"),
        };
        proof {
            assert(self.frames@ =~= s0.frames_moved(3));
            VM::lemma_shift(s0, *self, 3);
        }
        let trait_value = self.constant_at(trait_index);
        let type_value = self.constant_at(type_index);
        let trait_name = self.name_constant(trait_value);
        let receiver_type = self.name_constant(type_value);
        let (trait_name, receiver_type) = match (trait_name, receiver_type) {
            (Some(a), Some(b)) => (a, b),
            _ => return self.report("ImplRegister expects string constants"),
        };
        if self.trait_registry.find(trait_name.as_str()).is_none() {
            return self.report("ImplRegister references unknown trait");
        }
        let ghost base = match s0.methods_of(receiver_type@) {
            Some(m) => m,
            None => Map::empty(),
        };
        let mut entries: Vec<(String, Value)> = Vec::new();
        let mut k: usize = 0;
        while k < count
            invariant
                self.wf(),
                s0 == *old(self),
                k <= count,
                s0.frames@.len() > 0,
                s0.spec_ip() + 3 + 2 * k <= usize::MAX,
                self.frames@ == s0.frames_moved(3 + 2 * k),
                self.stack == s0.stack,
                self.stack_top_pos == s0.stack_top_pos,
                self.object_manager == s0.object_manager,
                self.globals == s0.globals,
                self.intern_strings == s0.intern_strings,
                self.open_upvalues == s0.open_upvalues,
                self.frame_stack_structs == s0.frame_stack_structs,
                self.struct_types == s0.struct_types,
                self.trait_registry == s0.trait_registry,
                self.type_methods == s0.type_methods,
                s0.constant_name(0) == Some(trait_name@),
                s0.constant_name(1) == Some(receiver_type@),
                s0.code_byte(2) matches Some(c) && c as usize == count,
                s0.spec_trait_registry()@.dom().contains(trait_name@),
                forall|j: int|
                    0 <= j < k ==> #[trigger] s0.constant_name(3 + 2 * j) is Some && s0.code_byte(
                        3 + 2 * j + 1,
                    ) is Some,
                apply_entries(base, entries@) == s0.methods_added(base, 3, k as int),
            decreases count - k,
        {
            let ghost before = *self;
            proof {
                VM::lemma_shift(s0, before, 3 + 2 * k);
            }
            let name_index = match self.read_byte() {
                Some(b) => b as usize,
                None => {
                    assert(!(s0.constant_name(3 + 2 * k) is Some && s0.code_byte(3 + 2 * k + 1) is Some));
                    assert(!s0.method_pairs_ok(3, count as int));
                    return self.report("Malformed ImplRegister (missing method name index)");
                },
            };
            let ghost first = *self;
            proof {
                VM::lemma_shift(before, first, 1);
            }
            let function_index = match self.read_byte() {
                Some(b) => b as usize,
                None => {
                    assert(!(s0.constant_name(3 + 2 * k) is Some && s0.code_byte(3 + 2 * k + 1) is Some));
                    assert(!s0.method_pairs_ok(3, count as int));
                    return self.report(
                        "Malformed ImplRegister (missing function const index)",
                    );
                },
            };
            proof {
                VM::lemma_shift(first, *self, 1);
                assert(self.frames@ =~= s0.frames_moved(3 + 2 * (k + 1)));
            }
            let name_value = self.constant_at(name_index);
            let function_value = self.constant_at(function_index);
            let method_name = match self.name_constant(name_value) {
                Some(name) => name,
                None => {
                    assert(s0.constant_name(3 + 2 * k) is None);
                    assert(!s0.method_pairs_ok(3, count as int));
                    return self.report("ImplRegister method name not string");
                },
            };
            proof {
                assert(s0.constant_name(3 + 2 * k) == Some(method_name@));
                assert(s0.constant_value(3 + 2 * k + 1) == function_value);
            }
            let ghost entries_before = entries@;
            match function_value {
                Some(Value::Object(r)) => {
                    entries.push((method_name, Value::Object(r)));
                    proof {
                        assert(entries@.drop_last() =~= entries_before);
                    }
                },
                _ => {},
            }
            proof {
                assert(s0.methods_added(base, 3, k + 1) == (match s0.constant_value(3 + 2 * k + 1) {
                    Some(Value::Object(q)) => s0.methods_added(base, 3, k as int).insert(
                        s0.constant_name(3 + 2 * k)->0,
                        Value::Object(q),
                    ),
                    _ => s0.methods_added(base, 3, k as int),
                }));
            }
            k = k + 1;
        }
        let ghost looped = *self;
        let ghost receiver = receiver_type@;
        proof {
            assert(looped.spec_type_methods() == s0.spec_type_methods());
            assert(looped.method_table_index(receiver) == s0.method_table_index(receiver));
            assert forall|other: Seq<char>| #[trigger] looped.methods_of(other) == s0.methods_of(other) by {
                assert(looped.method_table_index(other) == s0.method_table_index(other));
            }
        }
        self.store_methods(receiver_type, &entries, Ghost(base));
        Ok(None)
    }

    fn op_struct_type<H: Host>(&mut self, host: &H) -> (r: Result<
        Option<InterpretResult>,
        String,
    >)
        requires
            old(self).wf(),
        ensures
            final(self).wf(),
            old(self).code_byte(0) is Some ==> old(self).spec_ip() + 1 <= usize::MAX,
            match (old(self).constant_name(0), old(self).code_byte(1)) {
                (Some(name), Some(count)) => match old(self).constant_names(2, count as int) {
                    Some(fields) => old(self).spec_ip() + 2 + count <= usize::MAX && old(
                        self,
                    ).registers_struct(*final(self), r, name, fields, 2 + count),
                    None => r is Err,
                },
                _ => r is Err,
            },
    {
        let ghost s0 = *self;
        let name_index = match self.read_byte() {
            Some(b) => b as usize,
            None => return self.report("Malformed StructType (missing name index)"),
        };
        proof {
            VM::lemma_shift(s0, *self, 1);
        }
        let field_count = match self.read_byte() {
            Some(b) => b as usize,
            None => return self.report("Malformed StructType (missing field count)"),
        };
        proof {
            assert(self.frames@ =~= s0.frames_moved(2));
            VM::lemma_shift(s0, *self, 2);
            VM::lemma_shift_more(s0, *self, 2);
        }
        let ghost s2 = *self;
        let name_value = self.constant_at(name_index);
        let struct_name = match self.name_constant(name_value) {
            Some(name) => name,
            None => return self.report("StructType name constant not string"),
        };
        let field_names = match self.read_names(
            field_count,
            "Malformed StructType (missing field name index)",
            "StructType field name constant not string",
        ) {
            Ok(names) => names,
            Err(e) => return Err(e),
        };
        proof {
            assert(self.frames@ == s0.frames_moved(2 + field_count));
            assert(s0.constant_names(2, field_count as int) == Some(
                field_names@.map_values(|n: String| n@),
            ));
        }
        let ghost read = *self;
        if self.struct_types.find(struct_name.as_str()).is_none() {
            let mut struct_type = ObjectStructType::new(struct_name.clone());
            let mut k: usize = 0;
            while k < field_names.len()
                invariant
                    struct_type.field_index.wf(),
                    k <= field_names@.len(),
                    struct_type.field_names@.len() == k,
                    struct_type.name@ == struct_name@,
                    forall|j: int| 0 <= j < k ==> #[trigger] struct_type.field_names@[j]@ == field_names@[j]@,
                decreases field_names@.len() - k,
            {
                let position = struct_type.field_names.len();
                struct_type.field_index.insert(
                    field_names[k].clone(),
                    Value::Number(host.index_number(position)),
                );
                struct_type.field_names.push(field_names[k].clone());
                k = k + 1;
            }
            proof {
                assert(struct_type.field_names@.map_values(|f: String| f@) =~= field_names@.map_values(
                    |n: String| n@,
                ));
            }
            let ghost m0 = self.object_manager;
            let ghost made = struct_type;
            let (r, size) = self.object_manager.push_object(HeapObject::StructType(struct_type));
            proof {
                assert forall|key: Seq<char>| #[trigger]
                    self.intern_strings@.dom().contains(key) implies (self.intern_strings@[key] matches Value::Object(
                    q,
                ) && self.object_manager.slot(q) matches Some(HeapObject::String(o)) && o.content@
                    == key) by {
                    m0.lemma_slot_in_heap(self.intern_strings@[key]->Object_0);
                }
            }
            let ghost key = struct_name@;
            self.struct_types.insert(struct_name, Value::Object(r));
            let ghost inserted = *self;
            proof {
                assert(inserted.spec_struct_types()@.dom().contains(key));
                assert(inserted.spec_struct_types().holds_value(Value::Object(r)));
                assert(inserted.registered(r));
            }
            self.track_allocation(size);
            proof {
                assert(self.object_manager.slot(r) == Some(HeapObject::StructType(made)));
            }
        }
        Ok(None)
    }

    /// The (position, value) pairs, in literal order, that the pairs `provided` hold in
    /// reverse.
    spec fn pairs_of(provided: Seq<(usize, Value)>) -> Seq<(int, Value)> {
        Seq::new(
            provided.len(),
            |i: int| (provided[provided.len() - 1 - i].0 as int, provided[provided.len() - 1 - i].1),
        )
    }

    /// Pops the values of a struct literal of type `struct_type` whose field names are `names`,
    /// last first, and finds the position of each field; an error when there are too few
    /// values or a field is unknown.
    fn pop_literal(&mut self, struct_type: ObjRef, names: &Vec<String>) -> (r: Result<
        Vec<(usize, Value)>,
        String,
    >)
        requires
            old(self).wf(),
        ensures
            final(self).wf(),
            final(self).stack == old(self).stack,
            final(self).frames == old(self).frames,
            final(self).globals == old(self).globals,
            final(self).struct_types == old(self).struct_types,
            final(self).object_manager == old(self).object_manager,
            final(self).frame_stack_structs == old(self).frame_stack_structs,
            final(self).open_upvalues == old(self).open_upvalues,
            r is Ok <==> (old(self).stack_top_pos >= names@.len() && forall|i: int|
                0 <= i < names@.len() ==> #[trigger] old(self).field_position(
                    struct_type,
                    names@[i]@,
                ) is Some),
            r matches Ok(provided) ==> {
                let n = names@.len() as int;
                let top = old(self).stack_top_pos as int;
                &&& final(self).stack_top_pos == top - n
                &&& provided@.len() == n
                &&& forall|i: int|
                    0 <= i < n ==> #[trigger] provided@[i] == (
                        old(self).field_position(struct_type, names@[n - 1 - i]@)->0 as usize,
                        old(self).stack@[top - 1 - i],
                    )
            },
    {
        let ghost s0 = *self;
        let ghost n = names@.len() as int;
        let mut provided: Vec<(usize, Value)> = Vec::new();
        let mut k = names.len();
        while k > 0
            invariant
                self.wf(),
                s0 == *old(self),
                k <= names@.len(),
                n == names@.len(),
                self.stack == s0.stack,
                self.frames == s0.frames,
                self.globals == s0.globals,
                self.struct_types == s0.struct_types,
                self.object_manager == s0.object_manager,
                self.frame_stack_structs == s0.frame_stack_structs,
                self.open_upvalues == s0.open_upvalues,
                s0.stack_top_pos >= n - k,
                self.stack_top_pos == s0.stack_top_pos - (n - k),
                provided@.len() == n - k,
                forall|i: int| k <= i < n ==> #[trigger] s0.field_position(struct_type, names@[i]@) is Some,
                forall|i: int|
                    0 <= i < n - k ==> #[trigger] provided@[i] == (
                        s0.field_position(struct_type, names@[n - 1 - i]@)->0 as usize,
                        s0.stack@[s0.stack_top_pos - 1 - i],
                    ),
            decreases k,
        {
            let value = match self.pop_or_report() {
                Ok(v) => v,
                Err(e) => {
                    assert(s0.stack_top_pos < names@.len());
                    return Err(e);
                },
            };
            let slot = match self.field_slot(struct_type, &names[k - 1]) {
                Some(slot) => slot,
                None => {
                    assert(s0.field_position(struct_type, names@[k - 1]@) is None);
                    return Err(self.runtime_error("Unknown field in struct literal"));
                },
            };
            provided.push((slot, value));
            k = k - 1;
        }
        Ok(provided)
    }

    /// Makes an instance of `struct_type` with `count` fields, sets the fields from the pairs
    /// `provided` (last pair first) and pushes it.
    fn make_instance(&mut self, struct_type: ObjRef, count: usize, provided: &Vec<(usize, Value)>) -> (r:
        Result<Option<InterpretResult>, String>)
        requires
            old(self).wf(),
            forall|i: int| 0 <= i < provided@.len() ==> #[trigger] provided@[i].0 < count,
        ensures
            final(self).wf(),
            final(self).frames == old(self).frames,
            final(self).globals == old(self).globals,
            old(self).stack_top_pos < MAX_STACK_SIZE ==> {
                let top = old(self).stack_top_pos as int;
                let v = final(self).stack@[top];
                &&& r == Ok::<Option<InterpretResult>, String>(None)
                &&& final(self).stack_top_pos == top + 1
                &&& final(self).stack@ == old(self).stack@.update(top, v)
                &&& v is Object
                &&& final(self).struct_of(v) == Some(
                    (struct_type, literal_fields(VM::pairs_of(provided@), count as int)),
                )
            },
            old(self).stack_top_pos >= MAX_STACK_SIZE ==> r is Err,
    {
        let ghost pairs = VM::pairs_of(provided@);
        let ghost n = provided@.len() as int;
        let ghost m0 = self.object_manager;
        let (instance, size) = self.object_manager.push_object(
            HeapObject::StructInstance(ObjectStructInstance::new(struct_type, count)),
        );
        proof {
            assert forall|key: Seq<char>| #[trigger]
                self.intern_strings@.dom().contains(key) implies (self.intern_strings@[key] matches Value::Object(
                q,
            ) && self.object_manager.slot(q) matches Some(HeapObject::String(o)) && o.content@
                == key) by {
                m0.lemma_slot_in_heap(self.intern_strings@[key]->Object_0);
            }
            assert(Seq::new(count as nat, |p: int| Value::Nil) =~= Seq::new(
                count as nat,
                |p: int| assigned(pairs, 0, p),
            ));
        }
        let ghost s1 = *self;
        let mut j = provided.len();
        while j > 0
            invariant
                self.wf(),
                j <= provided@.len(),
                n == provided@.len(),
                pairs == VM::pairs_of(provided@),
                forall|i: int| 0 <= i < provided@.len() ==> #[trigger] provided@[i].0 < count,
                self.frames == s1.frames,
                self.stack == s1.stack,
                self.stack_top_pos == s1.stack_top_pos,
                self.globals == s1.globals,
                self.open_upvalues == s1.open_upvalues,
                self.object_manager.slot(instance) matches Some(HeapObject::StructInstance(o)) && o.struct_type
                    == struct_type && o.fields@ == Seq::new(
                    count as nat,
                    |p: int| assigned(pairs, n - j, p),
                ),
            decreases j,
        {
            let (slot, value) = provided[j - 1];
            let ghost m1 = self.object_manager;
            let ghost before = self.object_manager.slot(instance);
            self.object_manager.set_instance_field(instance, slot, value);
            proof {
                assert forall|key: Seq<char>| #[trigger]
                    self.intern_strings@.dom().contains(key) implies (self.intern_strings@[key] matches Value::Object(
                    q,
                ) && self.object_manager.slot(q) matches Some(HeapObject::String(o))
                    && o.content@ == key) by {
                    let q = self.intern_strings@[key]->Object_0;
                    if q == instance {
                        assert(m1.slot(q) matches Some(HeapObject::String(_)));
                    }
                }
                let m = n - j;
                assert(pairs[m] == (slot as int, value));
                if let Some(HeapObject::StructInstance(o)) = self.object_manager.slot(instance) {
                    assert(o.fields@ =~= Seq::new(
                        count as nat,
                        |p: int| assigned(pairs, m + 1, p),
                    ));
                }
            }
            j = j - 1;
        }
        let ghost filled = self.object_manager.slot(instance);
        if !self.push(Value::Object(instance)) {
            return self.report("Stack overflow");
        }
        let ghost pushed = *self;
        proof {
            assert(pushed.spec_slots()[s1.stack_top_pos as int] == Value::Object(instance));
            assert(pushed.holds_directly(instance));
            assert(literal_fields(pairs, count as int) =~= Seq::new(
                count as nat,
                |p: int| assigned(pairs, n, p),
            ));
        }
        self.track_allocation(size);
        Ok(None)
    }

    /// Makes a stack struct of `struct_type` with `count` fields set from the pairs
    /// `provided` (last pair first), in the running call's arena, and pushes it.
    fn make_stack_struct(&mut self, struct_type: ObjRef, count: usize, provided: &Vec<(usize, Value)>) -> (r:
        Result<Option<InterpretResult>, String>)
        requires
            old(self).wf(),
            forall|i: int| 0 <= i < provided@.len() ==> #[trigger] provided@[i].0 < count,
        ensures
            final(self).wf(),
            final(self).frames == old(self).frames,
            final(self).globals == old(self).globals,
            old(self).stack_struct_count() is None ==> r is Err,
            old(self).stack_struct_count() is Some && old(self).stack_top_pos >= MAX_STACK_SIZE
                ==> r is Err,
            old(self).stack_struct_count() is Some && old(self).stack_top_pos < MAX_STACK_SIZE ==> {
                let top = old(self).stack_top_pos as int;
                let v = Value::StackStruct(old(self).stack_struct_count()->0 as usize);
                &&& r == Ok::<Option<InterpretResult>, String>(None)
                &&& final(self).stack_top_pos == top + 1
                &&& final(self).stack@ == old(self).stack@.update(top, v)
                &&& final(self).struct_of(v) == Some(
                    (struct_type, literal_fields(VM::pairs_of(provided@), count as int)),
                )
            },
    {
        let ghost pairs = VM::pairs_of(provided@);
        let ghost n = provided@.len() as int;
        let mut fields: Vec<Value> = Vec::new();
        let mut f: usize = 0;
        while f < count
            invariant
                f <= count,
                fields@ == Seq::new(f as nat, |p: int| Value::Nil),
            decreases count - f,
        {
            fields.push(Value::Nil);
            f = f + 1;
        }
        proof {
            assert(fields@ =~= Seq::new(count as nat, |p: int| assigned(pairs, 0, p)));
        }
        let mut j = provided.len();
        while j > 0
            invariant
                j <= provided@.len(),
                n == provided@.len(),
                pairs == VM::pairs_of(provided@),
                forall|i: int| 0 <= i < provided@.len() ==> #[trigger] provided@[i].0 < count,
                fields@ == Seq::new(count as nat, |p: int| assigned(pairs, n - j, p)),
            decreases j,
        {
            let (slot, value) = provided[j - 1];
            proof {
                let m = n - j;
                assert(pairs[m] == (slot as int, value));
                assert(fields@.update(slot as int, value) =~= Seq::new(
                    count as nat,
                    |p: int| assigned(pairs, m + 1, p),
                ));
            }
            fields.set(slot, value);
            j = j - 1;
        }
        let n = self.frame_stack_structs.len();
        if n == 0 {
            return self.report("No frame arena for stack struct");
        }
        if self.stack_top_pos >= MAX_STACK_SIZE {
            return self.report("Stack overflow");
        }
        proof {
            assert(literal_fields(pairs, count as int) =~= fields@);
        }
        let ghost before = self.frame_stack_structs@;
        let mut arena = self.frame_stack_structs.pop().unwrap();
        arena.push(StackStruct { struct_type, fields });
        let index = arena.len() - 1;
        self.frame_stack_structs.push(arena);
        proof {
            assert(self.frame_stack_structs@.last()@[index as int].fields@ == literal_fields(pairs, count as int));
        }
        self.push_or_report(Value::StackStruct(index))
    }

    /// Instantiates a struct from a literal: on the heap, or as a stack struct of the running
    /// frame.
    #[verifier::spinoff_prover]
    #[verifier::rlimit(80)]
    fn op_struct_instantiate(&mut self, on_heap: bool) -> (r: Result<
        Option<InterpretResult>,
        String,
    >)
        requires
            old(self).wf(),
        ensures
            final(self).wf(),
            old(self).code_byte(0) is Some ==> old(self).spec_ip() + 1 <= usize::MAX,
            match (old(self).constant_name(0), old(self).code_byte(1)) {
                (Some(name), Some(count)) => match old(self).constant_names(2, count as int) {
                    Some(literal) => old(self).spec_ip() + 2 + count <= usize::MAX && old(
                        self,
                    ).instantiates(*final(self), r, name, literal, 2 + count, on_heap),
                    None => r is Err,
                },
                _ => r is Err,
            },
    {
        let ghost s0 = *self;
        let type_name_index = match self.read_byte() {
            Some(b) => b as usize,
            None => return self.report(
                if on_heap {
                    "Malformed StructInstantiate (missing type name index)"
                } else {
                    "Malformed StructInstantiateStack (missing type name index)"
                },
            ),
        };
        proof {
            VM::lemma_shift(s0, *self, 1);
        }
        let field_count = match self.read_byte() {
            Some(b) => b as usize,
            None => return self.report(
                if on_heap {
                    "Malformed StructInstantiate (missing field count)"
                } else {
                    "Malformed StructInstantiateStack (missing field count)"
                },
            ),
        };
        proof {
            assert(self.frames@ =~= s0.frames_moved(2));
            VM::lemma_shift(s0, *self, 2);
            VM::lemma_shift_more(s0, *self, 2);
        }
        let type_name_value = self.constant_at(type_name_index);
        let struct_name = match self.name_constant(type_name_value) {
            Some(name) => name,
            None => return self.report(
                if on_heap {
                    "StructInstantiate type name constant not string"
                } else {
                    "StructInstantiateStack type name constant not string"
                },
            ),
        };
        let literal_field_names = match self.read_names(
            field_count,
            if on_heap {
                "Malformed StructInstantiate (missing field name const index)"
            } else {
                "Malformed StructInstantiateStack (missing field name const index)"
            },
            if on_heap {
                "StructInstantiate field name constant not string"
            } else {
                "StructInstantiateStack field name constant not string"
            },
        ) {
            Ok(names) => names,
            Err(e) => return Err(e),
        };
        let ghost literal = literal_field_names@.map_values(|n: String| n@);
        proof {
            assert(self.frames@ == s0.frames_moved(2 + field_count));
            assert(s0.constant_names(2, field_count as int) == Some(literal));
        }
        let struct_type_value = match self.struct_types.find(struct_name.as_str()) {
            Some(v) => v,
            None => return self.report(
                if on_heap {
                    "Unknown struct type in literal"
                } else {
                    "Unknown struct type in stack literal"
                },
            ),
        };
        let struct_type = match struct_type_value {
            Value::Object(r) => r,
            _ => return self.report("Struct type registry entry invalid"),
        };
        let expected_count = match self.object_manager.get(struct_type) {
            Some(HeapObject::StructType(t)) => t.field_names.len(),
            _ => return self.report("Registry entry not struct type"),
        };
        if field_count != expected_count {
            return self.report(
                if on_heap {
                    "Field count mismatch in struct literal"
                } else {
                    "Field count mismatch in stack struct literal"
                },
            );
        }
        let ghost named = *self;
        let provided = match self.pop_literal(struct_type, &literal_field_names) {
            Ok(p) => p,
            Err(e) => {
                proof {
                    if named.stack_top_pos >= field_count {
                        assert(!(forall|i: int|
                            0 <= i < literal_field_names@.len() ==> #[trigger] named.field_position(
                                struct_type,
                                literal_field_names@[i]@,
                            ) is Some));
                        let i = choose|i: int|
                            !(0 <= i < literal_field_names@.len() ==> #[trigger] named.field_position(
                                struct_type,
                                literal_field_names@[i]@,
                            ) is Some);
                        assert(literal[i] == literal_field_names@[i]@);
                        assert(s0.field_position(struct_type, literal[i]) is None);
                    }
                }
                return Err(e);
            },
        };
        proof {
            let pairs = VM::pairs_of(provided@);
            assert(literal_field_names@.len() == field_count);
            assert forall|i: int| 0 <= i < provided@.len() implies #[trigger] provided@[i].0
                < expected_count by {
                let nm = literal_field_names@[field_count - 1 - i]@;
                assert(named.field_position(struct_type, nm) is Some);
                let names = match named.manager().slot(struct_type) {
                    Some(HeapObject::StructType(t)) => t.field_names@,
                    _ => Seq::empty(),
                };
                assert(names.len() == expected_count);
                let p = named.field_position(struct_type, nm)->0;
                assert(0 <= p < names.len());
            }
            assert(pairs =~= s0.literal_pairs(struct_type, literal));
            assert forall|i: int| 0 <= i < literal.len() implies #[trigger] s0.field_position(
                struct_type,
                literal[i],
            ) is Some by {
                assert(literal[i] == literal_field_names@[i]@);
                assert(named.field_position(struct_type, literal_field_names@[i]@) is Some);
            }
        }
        if on_heap {
            self.make_instance(struct_type, expected_count, &provided)
        } else {
            self.make_stack_struct(struct_type, expected_count, &provided)
        }
    }

    fn op_get_field(&mut self) -> (r: Result<Option<InterpretResult>, String>)
        requires
            old(self).wf(),
        ensures
            final(self).wf(),
            old(self).code_byte(0) is Some ==> old(self).spec_ip() + 1 <= usize::MAX,
            match old(self).constant_name(0) {
                Some(name) => if old(self).spec_stack_top() == 0 {
                    r is Err
                } else {
                    match old(self).field_value(
                        old(self).spec_slots()[old(self).spec_stack_top() - 1],
                        name,
                    ) {
                        Some(value) => old(self).rewrites(*final(self), r, 1, seq![value], 1),
                        None => r is Err,
                    }
                },
                None => r is Err,
            },
    {
        let ghost s0 = *self;
        let name_index = match self.read_byte() {
            Some(b) => b as usize,
            None => return self.report("Malformed GetField (missing name index)"),
        };
        proof {
            VM::lemma_shift(s0, *self, 1);
        }
        let name_value = self.constant_at(name_index);
        let field_name = match self.name_constant(name_value) {
            Some(name) => name,
            None => return self.report("GetField constant not string"),
        };
        let receiver = match self.pop_or_report() {
            Ok(v) => v,
            Err(e) => return Err(e),
        };
        let value = match receiver {
            Value::Object(r) => {
                let struct_type = match self.object_manager.get(r) {
                    Some(HeapObject::StructInstance(i)) => i.struct_type,
                    _ => return self.report("Receiver not struct instance"),
                };
                let slot = match self.field_slot(struct_type, &field_name) {
                    Some(slot) => slot,
                    None => return self.report("Unknown field on struct instance"),
                };
                match self.object_manager.get(r) {
                    Some(HeapObject::StructInstance(i)) => {
                        if slot < i.fields.len() {
                            i.fields[slot]
                        } else {
                            return self.report("Unknown field on struct instance");
                        }
                    },
                    _ => return self.report("Receiver not struct instance"),
                }
            },
            Value::StackStruct(index) => {
                let n = self.frame_stack_structs.len();
                if n == 0 {
                    return self.report("Missing frame arena");
                }
                if index >= self.frame_stack_structs[n - 1].len() {
                    return self.report("Invalid stack struct index");
                }
                let struct_type = self.frame_stack_structs[n - 1][index].struct_type;
                let slot = match self.field_slot(struct_type, &field_name) {
                    Some(slot) => slot,
                    None => return self.report("Unknown field on stack struct"),
                };
                if slot < self.frame_stack_structs[n - 1][index].fields.len() {
                    self.frame_stack_structs[n - 1][index].fields[slot]
                } else {
                    return self.report("Unknown field on stack struct");
                }
            },
            _ => return self.report("Only instances have fields"),
        };
        proof {
            lemma_splice_update(self.stack@, self.stack_top_pos as int, value);
        }
        self.push_or_report(value)
    }

    /// Sets field `name` of the struct `receiver` to `value`; gives false, changing nothing,
    /// when `receiver` is no struct or has no such field.
    fn store_field(&mut self, receiver: Value, name: &String, value: Value) -> (ok: bool)
        requires
            old(self).wf(),
        ensures
            final(self).wf(),
            final(self).stack == old(self).stack,
            final(self).stack_top_pos == old(self).stack_top_pos,
            final(self).frames == old(self).frames,
            final(self).globals == old(self).globals,
            final(self).open_upvalues == old(self).open_upvalues,
            match old(self).struct_of(receiver) {
                Some((t, fields)) => match old(self).field_position(t, name@) {
                    Some(p) => ok == (p < fields.len()) && (ok ==> final(self).struct_of(receiver)
                        == Some((t, fields.update(p, value)))),
                    None => !ok,
                },
                None => !ok,
            },
    {
        match receiver {
            Value::Object(r) => {
                let struct_type = match self.object_manager.get(r) {
                    Some(HeapObject::StructInstance(i)) => i.struct_type,
                    _ => return false,
                };
                let slot = match self.field_slot(struct_type, name) {
                    Some(slot) => slot,
                    None => return false,
                };
                let ghost m0 = self.object_manager;
                let done = self.object_manager.set_instance_field(r, slot, value);
                proof {
                    assert forall|key: Seq<char>| #[trigger]
                        self.intern_strings@.dom().contains(key) implies (self.intern_strings@[key] matches Value::Object(
                        q,
                    ) && self.object_manager.slot(q) matches Some(HeapObject::String(o))
                        && o.content@ == key) by {
                        let q = self.intern_strings@[key]->Object_0;
                        if q == r {
                            assert(m0.slot(q) matches Some(HeapObject::String(_)));
                        }
                    }
                }
                done
            },
            Value::StackStruct(index) => {
                let n = self.frame_stack_structs.len();
                if n == 0 {
                    return false;
                }
                if index >= self.frame_stack_structs[n - 1].len() {
                    return false;
                }
                let struct_type = self.frame_stack_structs[n - 1][index].struct_type;
                let slot = match self.field_slot(struct_type, name) {
                    Some(slot) => slot,
                    None => return false,
                };
                if slot >= self.frame_stack_structs[n - 1][index].fields.len() {
                    return false;
                }
                let ghost before = self.frame_stack_structs@;
                let mut arena = self.frame_stack_structs.pop().unwrap();
                let mut taken = StackStruct { struct_type: 0, fields: Vec::new() };
                std::mem::swap(&mut taken, &mut arena[index]);
                taken.fields.set(slot, value);
                std::mem::swap(&mut taken, &mut arena[index]);
                self.frame_stack_structs.push(arena);
                proof {
                    assert(self.frame_stack_structs@.last()@[index as int].fields@ == before.last()@[index as int].fields@.update(slot as int, value));
                }
                true
            },
            _ => false,
        }
    }

    /// Sets field `name` of the struct below the top value to that value, which then replaces
    /// both on the stack.
    #[verifier::spinoff_prover]
    #[verifier::rlimit(80)]
    fn set_top_field(&mut self, name: &String) -> (r: Result<Option<InterpretResult>, String>)
        requires
            old(self).wf(),
            old(self).frames@.len() > 0,
        ensures
            final(self).wf(),
            old(self).sets_field(*final(self), r, name@, 0),
    {
        proof {
            VM::lemma_moved_zero(*self);
        }
        let ghost s0 = *self;
        let value = match self.pop_or_report() {
            Ok(v) => v,
            Err(e) => return Err(e),
        };
        let receiver = match self.pop_or_report() {
            Ok(v) => v,
            Err(e) => return Err(e),
        };
        let ghost popped = *self;
        proof {
            assert(popped.manager() == s0.manager());
            assert(popped.struct_of(receiver) == s0.struct_of(receiver));
        }
        if !self.store_field(receiver, name, value) {
            return self.report("Unknown field on struct");
        }
        let ghost stored = *self;
        proof {
            lemma_splice_update(self.stack@, self.stack_top_pos as int, value);
        }
        let r = self.push_or_report(value);
        proof {
            assert(self.struct_of(receiver) == stored.struct_of(receiver));
        }
        r
    }

    fn op_set_field(&mut self) -> (r: Result<Option<InterpretResult>, String>)
        requires
            old(self).wf(),
        ensures
            final(self).wf(),
            old(self).code_byte(0) is Some ==> old(self).spec_ip() + 1 <= usize::MAX,
            match old(self).constant_name(0) {
                Some(name) => old(self).sets_field(*final(self), r, name, 1),
                None => r is Err,
            },
    {
        let ghost s0 = *self;
        let name_index = match self.read_byte() {
            Some(b) => b as usize,
            None => return self.report("Malformed SetField (missing name index)"),
        };
        proof {
            VM::lemma_shift(s0, *self, 1);
            VM::lemma_shift_more(s0, *self, 1);
        }
        let name_value = self.constant_at(name_index);
        let field_name = match self.name_constant(name_value) {
            Some(name) => name,
            None => return self.report("SetField constant not string"),
        };
        self.set_top_field(&field_name)
    }

    /// Only an instruction that defines or assigns a global variable changes the globals: a
    /// step of any other instruction that succeeds leaves them as they were.
    pub proof fn lemma_step_keeps_globals<H: Host>(
        host: &H,
        before: VM,
        after: VM,
        r: Result<Option<InterpretResult>, String>,
        printed: Option<Printed>,
    )
        requires
            before.wf(),
            before.steps_to(host, after, r, printed),
            r is Ok,
            before.next_instruction() != Some(OpCode::DefineGlobal),
            before.next_instruction() != Some(OpCode::SetGlobal),
        ensures
            after.spec_globals()@ == before.spec_globals()@,
    {
    }

    /// Runs one instruction of the running function; gives `Ok(None)` while the script goes
    /// on, `Ok(Some(result))` when its outermost call returns, and the message of a runtime
    /// error.
    #[verifier::spinoff_prover]
    #[verifier::rlimit(50)]
    pub fn step<H: Host>(&mut self, host: &H) -> (out: (Result<Option<InterpretResult>, String>, Option<Printed>))
        requires
            old(self).wf(),
        ensures
            final(self).wf(),
            old(self).steps_to(host, *final(self), out.0, out.1),
    {
        let (r, printed) = self.execute(host);
        let ghost executed = *self;
        self.sync_pending_allocations();
        proof {
            let open = executed.spec_open_upvalues();
            assert forall|i: int| 0 <= i < open.len() implies #[trigger] self.manager().slot(
                open[i],
            ) == executed.manager().slot(open[i]) by {
                assert(open.contains(open[i]));
                assert(executed.holds_directly(open[i]));
            }
            let slots = executed.spec_slots();
            assert forall|i: int|
                0 <= i < executed.spec_stack_top() && slots[i] is Object implies #[trigger] self.manager().slot(
                slots[i]->Object_0,
            ) == executed.manager().slot(slots[i]->Object_0) by {
                assert(value_refers_to(slots[i], slots[i]->Object_0));
                assert(executed.holds_directly(slots[i]->Object_0));
            }
            assert forall|q: ObjRef| executed.registered(q) implies #[trigger] self.manager().slot(q)
                == executed.manager().slot(q) by {}
            if old(self).next_instruction() == Some(OpCode::StructType) && r is Ok {
                let types = executed.spec_struct_types()@;
                if let (Some(name), Some(count)) = (old(self).constant_name(1), old(self).code_byte(2)) {
                    if !old(self).spec_struct_types()@.dom().contains(name) && types.dom().contains(name) && types[name] is Object {
                        let q = types[name]->Object_0;
                        assert(executed.spec_struct_types().holds_value(Value::Object(q)));
                        assert(executed.registered(q));
                    }
                }
            }
            assert(self.spec_type_methods() == executed.spec_type_methods());
            assert forall|name: Seq<char>| #[trigger] self.methods_of(name) == executed.methods_of(
                name,
            ) by {
                assert(self.method_table_index(name) == executed.method_table_index(name));
            }
            if old(self).next_instruction() == Some(OpCode::ImplementTrait) && r is Ok {
                let traits = executed.spec_trait_registry()@;
                if let Some(Value::Object(q)) = old(self).constant_value(1) {
                    if let Some(HeapObject::Trait(t)) = old(self).manager().slot(q) {
                        if traits.dom().contains(t.name@) && traits[t.name@] == Value::Object(q) {
                            assert(executed.spec_trait_registry().holds_value(Value::Object(q)));
                            assert(executed.registered(q));
                        }
                    }
                }
                assert forall|name: Seq<char>| traits.dom().contains(name) && #[trigger] traits[name] is Object
                    implies self.manager().slot(traits[name]->Object_0) == executed.manager().slot(
                    traits[name]->Object_0,
                ) by {
                    assert(executed.spec_trait_registry().holds_value(Value::Object(traits[name]->Object_0)));
                    assert(executed.registered(traits[name]->Object_0));
                }
            }
            if old(self).next_instruction() == Some(OpCode::Closure) {
                let top = old(self).spec_stack_top();
                if r is Ok {
                    assert(slots[top] is Object);
                    assert(self.manager().slot(slots[top]->Object_0) == executed.manager().slot(
                        slots[top]->Object_0,
                    ));
                    if let Some(HeapObject::Closure(c)) = executed.manager().slot(slots[top]->Object_0) {
                        assert forall|j: int|
                            0 <= j < c.upvalues@.len() implies #[trigger] old(self).captured(
                            *self,
                            2,
                            j,
                            c.upvalues@[j],
                        ) by {
                            assert(old(self).captured(executed, 2, j, c.upvalues@[j]));
                            if old(self).code_byte(2 + 2 * j) != Some(0u8) {
                                let up = c.upvalues@[j] as int;
                                assert(self.manager().slot(open[up]) == executed.manager().slot(
                                    open[up],
                                ));
                            }
                        }
                    }
                }
            }
        }
        (r, printed)
    }

    /// As `lemma_shift`, for the instructions whose results the host computes.
    proof fn lemma_shift_numbers<H: Host>(s0: VM, s1: VM, d: int, host: &H)
        requires
            s0.frames@.len() > 0,
            0 <= s0.spec_ip() + d <= usize::MAX,
            s1.frames@ == s0.frames_moved(d),
            s1.stack == s0.stack,
            s1.stack_top_pos == s0.stack_top_pos,
            s1.object_manager == s0.object_manager,
            s1.globals == s0.globals,
            s1.intern_strings == s0.intern_strings,
        ensures
            forall|after: VM, r: Result<Option<InterpretResult>, String>, c: OpCode, k: int|
                0 <= s1.spec_ip() + k <= usize::MAX ==> #[trigger] s1.combines_numbers(host, after, r, c, k)
                    == s0.combines_numbers(host, after, r, c, k + d),
            forall|after: VM, r: Result<Option<InterpretResult>, String>, k: int|
                0 <= s1.spec_ip() + k <= usize::MAX ==> #[trigger] s1.adds(host, after, r, k)
                    == s0.adds(host, after, r, k + d),
            forall|after: VM, r: Result<Option<InterpretResult>, String>, k: int|
                0 <= s1.spec_ip() + k <= usize::MAX ==> #[trigger] s1.negates(host, after, r, k)
                    == s0.negates(host, after, r, k + d),
    {
        assert forall|k: int| 0 <= s1.spec_ip() + k <= usize::MAX implies s1.frames_moved(k)
            == s0.frames_moved(k + d) by {
            assert(s1.frames_moved(k) =~= s0.frames_moved(k + d));
        }
    }

    /// Once the running call has moved `d` bytes on and nothing else has changed, the rest
    /// of an instruction does from here what the whole instruction does from before.
    proof fn lemma_shift(s0: VM, s1: VM, d: int)
        requires
            s0.frames@.len() > 0,
            0 <= s0.spec_ip() + d <= usize::MAX,
            s1.frames@ == s0.frames_moved(d),
            s1.stack == s0.stack,
            s1.stack_top_pos == s0.stack_top_pos,
            s1.object_manager == s0.object_manager,
            s1.globals == s0.globals,
            s1.open_upvalues == s0.open_upvalues,
            s1.frame_stack_structs == s0.frame_stack_structs,
        ensures
            s1.frames@.len() > 0,
            s1.running_chunk() == s0.running_chunk(),
            s1.running_constants() == s0.running_constants(),
            s1.spec_ip() == s0.spec_ip() + d,
            s1.frame_base() == s0.frame_base(),
            forall|j: int| #[trigger] s1.code_byte(j) == s0.code_byte(j + d),
            forall|j: int| #[trigger] s1.short_operand(j) == s0.short_operand(j + d),
            forall|j: int| #[trigger] s1.constant_name(j) == s0.constant_name(j + d),
            forall|k: int|
                0 <= s1.spec_ip() + k <= usize::MAX ==> #[trigger] s1.frames_moved(k)
                    == s0.frames_moved(k + d),
            forall|after: VM, r: Result<Option<InterpretResult>, String>, c: int, v: Seq<Value>, k: int|
                0 <= s1.spec_ip() + k <= usize::MAX ==> #[trigger] s1.rewrites(after, r, c, v, k)
                    == s0.rewrites(after, r, c, v, k + d),
            forall|after: VM, r: Result<Option<InterpretResult>, String>, k: int|
                0 <= s1.spec_ip() + k <= usize::MAX ==> #[trigger] s1.moves(after, r, k)
                    == s0.moves(after, r, k + d),
    {
        assert forall|k: int| 0 <= s1.spec_ip() + k <= usize::MAX implies s1.frames_moved(k)
            == s0.frames_moved(k + d) by {
            assert(s1.frames_moved(k) =~= s0.frames_moved(k + d));
        }
        assert forall|j: int| #[trigger] s1.code_byte(j) == s0.code_byte(j + d) by {}
        assert forall|j: int| #[trigger] s1.constant_name(j) == s0.constant_name(j + d) by {
            assert(s1.code_byte(j) == s0.code_byte(j + d));
        }
        assert forall|j: int| #[trigger] s1.short_operand(j) == s0.short_operand(j + d) by {
            assert(s1.code_byte(j) == s0.code_byte(j + d));
            assert(s1.code_byte(j + 1) == s0.code_byte(j + 1 + d));
        }
    }

    /// The same, for the effects of the instructions with more to them.
    proof fn lemma_shift_more(s0: VM, s1: VM, d: int)
        requires
            s0.frames@.len() > 0,
            0 <= s0.spec_ip() + d <= usize::MAX,
            s1.frames@ == s0.frames_moved(d),
            s1.stack == s0.stack,
            s1.stack_top_pos == s0.stack_top_pos,
            s1.object_manager == s0.object_manager,
            s1.globals == s0.globals,
            s1.open_upvalues == s0.open_upvalues,
            s1.frame_stack_structs == s0.frame_stack_structs,
            s1.struct_types == s0.struct_types,
            s1.trait_registry == s0.trait_registry,
            s1.type_methods == s0.type_methods,
        ensures
            forall|j: int| #[trigger] s1.capture_index(j) == s0.capture_index(j),
            forall|v: Value, n: Seq<char>| #[trigger] s1.field_value(v, n) == s0.field_value(v, n),
            forall|j: int, c: int| #[trigger] s1.constant_names(j, c) == s0.constant_names(j + d, c),
            forall|j: int| #[trigger] s1.constant_value(j) == s0.constant_value(j + d),
            forall|after: VM, r: Result<Option<InterpretResult>, String>, c: Option<Value>, m: Seq<Seq<char>>, k: int|
                0 <= s1.spec_ip() + k <= usize::MAX ==> #[trigger] s1.implements_trait(after, r, c, m, k)
                    == s0.implements_trait(after, r, c, m, k + d),
            forall|after: VM, r: Result<Option<InterpretResult>, String>|
                #[trigger] s1.returns_from_call(after, r) == s0.returns_from_call(after, r),
            forall|after: VM, r: Result<Option<InterpretResult>, String>, a: int, k: int|
                0 <= s1.spec_ip() + k <= usize::MAX ==> #[trigger] s1.calls(after, r, a, k)
                    == s0.calls(after, r, a, k + d),
            forall|after: VM, r: Result<Option<InterpretResult>, String>, n: Seq<char>, k: int|
                0 <= s1.spec_ip() + k <= usize::MAX ==> #[trigger] s1.sets_field(after, r, n, k)
                    == s0.sets_field(after, r, n, k + d),
            forall|after: VM, r: Result<Option<InterpretResult>, String>, i: int, v: Value, k: int|
                0 <= s1.spec_ip() + k <= usize::MAX ==> #[trigger] s1.assigns_upvalue(after, r, i, v, k)
                    == s0.assigns_upvalue(after, r, i, v, k + d),
            forall|after: VM, r: Result<Option<InterpretResult>, String>, n: Seq<char>, f: Seq<Seq<char>>, k: int|
                0 <= s1.spec_ip() + k <= usize::MAX ==> #[trigger] s1.registers_struct(after, r, n, f, k)
                    == s0.registers_struct(after, r, n, f, k + d),
            forall|after: VM, r: Result<Option<InterpretResult>, String>, length: int, offset: int, forward: bool|
                #[trigger] s1.jumps(after, r, length, offset, forward)
                    == s0.jumps(after, r, length + d, offset, forward),
            forall|after: VM, r: Result<Option<InterpretResult>, String>, length: int, offset: int, when_false: bool|
                0 <= s1.spec_ip() + length <= usize::MAX ==> #[trigger] s1.jumps_if(after, r, length, offset, when_false)
                    == s0.jumps_if(after, r, length + d, offset, when_false),
    {
        VM::lemma_shift(s0, s1, d);
        assert forall|k: int| 0 <= s1.spec_ip() + k <= usize::MAX implies s1.frames_moved(k)
            == s0.frames_moved(k + d) by {
            assert(s1.frames_moved(k) =~= s0.frames_moved(k + d));
        }
        assert(s1.spec_frames().drop_last() =~= s0.spec_frames().drop_last());
        assert(s1.frame_base() == s0.frame_base());
        assert forall|after: VM, l: int, q: ObjRef| #[trigger] s1.closed_in(&after, l, q) == s0.closed_in(&after, l, q) by {}
        assert forall|after: VM, r: Result<Option<InterpretResult>, String>|
            #[trigger] s1.returns_from_call(after, r) == s0.returns_from_call(after, r) by {
            assert(s1.spec_open_upvalues() == s0.spec_open_upvalues());
            assert(s1.spec_slots() == s0.spec_slots());
            assert(s1.spec_stack_top() == s0.spec_stack_top());
            assert(s1.spec_globals() == s0.spec_globals());
            assert forall|i: int| 0 <= i < s1.spec_open_upvalues().len() implies s1.closed_in(
                &after,
                s1.frame_base(),
                #[trigger] s1.spec_open_upvalues()[i],
            ) == s0.closed_in(&after, s0.frame_base(), s0.spec_open_upvalues()[i]) by {}
        }
        assert forall|x: ObjRef, y: Seq<char>|
            #![trigger s1.field_position(x, y)]
            #![trigger s0.field_position(x, y)]
            s1.field_position(x, y) == s0.field_position(x, y) by {}
        assert forall|x: ObjRef, y: Seq<Seq<char>>| #[trigger] s1.literal_pairs(x, y)
            == s0.literal_pairs(x, y) by {
            assert(s1.literal_pairs(x, y) =~= s0.literal_pairs(x, y));
        }
        assert(s1.stack_struct_count() == s0.stack_struct_count());
        assert(s1.spec_struct_types() == s0.spec_struct_types());
        assert(s1.spec_trait_registry() == s0.spec_trait_registry());
        assert(s1.spec_type_methods() == s0.spec_type_methods());
        assert forall|name: Seq<char>| #[trigger] s1.methods_of(name) == s0.methods_of(name) by {
            assert(s1.method_table_index(name) == s0.method_table_index(name));
        }
        assert forall|j: int| #[trigger] s1.constant_value(j) == s0.constant_value(j + d) by {
            assert(s1.code_byte(j) == s0.code_byte(j + d));
        }
        assert forall|j: int, c: int| #[trigger] s1.constant_names(j, c) == s0.constant_names(
            j + d,
            c,
        ) by {
            assert forall|i: int|
                #![trigger s1.constant_name(j + i)]
                #![trigger s0.constant_name(j + d + i)]
                s1.constant_name(j + i) == s0.constant_name(j + d + i) by {
                assert(s1.constant_name(j + i) == s0.constant_name(j + i + d));
            }
            if s1.constant_names(j, c) is Some {
                assert(s1.constant_names(j, c)->0 =~= s0.constant_names(j + d, c)->0);
            }
        }
    }

    /// The same, for the instructions that read the registries.
    proof fn lemma_shift_tables(s0: VM, s1: VM, d: int)
        requires
            s0.frames@.len() > 0,
            0 <= s0.spec_ip() + d <= usize::MAX,
            s1.frames@ == s0.frames_moved(d),
            s1.stack == s0.stack,
            s1.stack_top_pos == s0.stack_top_pos,
            s1.object_manager == s0.object_manager,
            s1.globals == s0.globals,
            s1.open_upvalues == s0.open_upvalues,
            s1.frame_stack_structs == s0.frame_stack_structs,
            s1.struct_types == s0.struct_types,
            s1.trait_registry == s0.trait_registry,
            s1.type_methods == s0.type_methods,
        ensures
            forall|after: VM, r: Result<Option<InterpretResult>, String>, m: Option<Seq<char>>, a: int, k: int|
                0 <= s1.spec_ip() + k <= usize::MAX ==> #[trigger] s1.invokes(after, r, m, a, k)
                    == s0.invokes(after, r, m, a, k + d),
            forall|after: VM, r: Result<Option<InterpretResult>, String>, a: Seq<char>, b: Seq<char>, k: int, c: int|
                0 <= s1.spec_ip() + k && 0 <= c ==> #[trigger] s1.registers_methods(after, r, a, b, k, c)
                    == s0.registers_methods(after, r, a, b, k + d, c),
            forall|after: VM, r: Result<Option<InterpretResult>, String>, n: Seq<char>, f: Seq<Seq<char>>, k: int, h: bool|
                0 <= s1.spec_ip() + k <= usize::MAX ==> #[trigger] s1.instantiates(after, r, n, f, k, h)
                    == s0.instantiates(after, r, n, f, k + d, h),
    {
        VM::lemma_shift_more(s0, s1, d);
        assert forall|k: int| 0 <= s1.spec_ip() + k <= usize::MAX implies s1.frames_moved(k)
            == s0.frames_moved(k + d) by {
            assert(s1.frames_moved(k) =~= s0.frames_moved(k + d));
        }
        assert forall|x: ObjRef, y: Seq<char>|
            #![trigger s1.field_position(x, y)]
            #![trigger s0.field_position(x, y)]
            s1.field_position(x, y) == s0.field_position(x, y) by {}
        assert(s1.stack_struct_count() == s0.stack_struct_count());
        assert(s1.spec_struct_types() == s0.spec_struct_types());
        assert(s1.spec_type_methods() == s0.spec_type_methods());
        assert forall|name: Seq<char>| #[trigger] s1.methods_of(name) == s0.methods_of(name) by {
            assert(s1.method_table_index(name) == s0.method_table_index(name));
        }
        assert forall|after: VM, r: Result<Option<InterpretResult>, String>, m: Option<Seq<char>>, a: int, k: int|
            0 <= s1.spec_ip() + k <= usize::MAX implies #[trigger] s1.invokes(after, r, m, a, k)
                == s0.invokes(after, r, m, a, k + d) by {
            assert(s1.frames_moved(k) == s0.frames_moved(k + d));
            let top = s0.spec_stack_top();
            if a < top {
                let receiver = s0.spec_slots()[top - 1 - a];
                assert(s1.struct_of(receiver) == s0.struct_of(receiver));
                assert(s1.receiver_struct_name(receiver) == s0.receiver_struct_name(receiver));
            }
        }
        assert forall|after: VM, r: Result<Option<InterpretResult>, String>, a: Seq<char>, b: Seq<char>, k: int, c: int|
            0 <= s1.spec_ip() + k && 0 <= c implies #[trigger] s1.registers_methods(after, r, a, b, k, c)
                == s0.registers_methods(after, r, a, b, k + d, c) by {
            assert forall|j: int|
                #![trigger s1.constant_name(k + 2 * j)]
                #![trigger s0.constant_name(k + d + 2 * j)]
                s1.constant_name(k + 2 * j) == s0.constant_name(k + d + 2 * j)
                    && s1.code_byte(k + 2 * j + 1) == s0.code_byte(k + d + 2 * j + 1) by {
                assert(s1.constant_name(k + 2 * j) == s0.constant_name(k + 2 * j + d));
                assert(s1.code_byte(k + 2 * j + 1) == s0.code_byte(k + 2 * j + 1 + d));
            }
            assert(s1.method_pairs_ok(k, c) == s0.method_pairs_ok(k + d, c));
            assert(s1.spec_type_methods() == s0.spec_type_methods());
            assert(s1.method_table_index(b) == s0.method_table_index(b));
            assert(s1.methods_of(b) == s0.methods_of(b));
            let base = match s0.methods_of(b) {
                Some(m) => m,
                None => Map::empty(),
            };
            VM::lemma_methods_added_shift(s0, s1, d, base, k, c);
            if s1.spec_ip() + k + 2 * c <= usize::MAX && 0 <= c {
                assert(s1.frames_moved(k + 2 * c) == s0.frames_moved(k + d + 2 * c));
            }
        }
        assert forall|
            after: VM,
            r: Result<Option<InterpretResult>, String>,
            n: Seq<char>,
            f: Seq<Seq<char>>,
            k: int,
            h: bool,
        | 0 <= s1.spec_ip() + k <= usize::MAX implies #[trigger] s1.instantiates(after, r, n, f, k, h)
            == s0.instantiates(after, r, n, f, k + d, h) by {
            assert(s1.frames_moved(k) == s0.frames_moved(k + d));
            let types = s0.spec_struct_types()@;
            if types.dom().contains(n) && types[n] is Object {
                let st = types[n]->Object_0;
                assert(s1.literal_pairs(st, f) == s0.literal_pairs(st, f));
                assert((exists|i: int|
                    0 <= i < f.len() && #[trigger] s1.field_position(st, f[i]) is None) == (exists|
                    i: int,
                | 0 <= i < f.len() && #[trigger] s0.field_position(st, f[i]) is None));
            }
        }
    }

    /// The methods an impl adds read the same once the running call has moved on.
    proof fn lemma_methods_added_shift(
        s0: VM,
        s1: VM,
        d: int,
        base: Map<Seq<char>, Value>,
        k: int,
        count: int,
    )
        requires
            forall|j: int| #[trigger] s1.code_byte(j) == s0.code_byte(j + d),
            s1.running_constants() == s0.running_constants(),
            s1.object_manager == s0.object_manager,
        ensures
            s1.methods_added(base, k, count) == s0.methods_added(base, k + d, count),
        decreases count,
    {
        if count > 0 {
            VM::lemma_methods_added_shift(s0, s1, d, base, k, count - 1);
            let j = count - 1;
            assert(s1.code_byte(k + 2 * j + 1) == s0.code_byte(k + d + 2 * j + 1));
            assert(s1.code_byte(k + 2 * j) == s0.code_byte(k + d + 2 * j));
            assert(s1.constant_value(k + 2 * j + 1) == s0.constant_value(k + d + 2 * j + 1));
            assert(s1.constant_name(k + 2 * j) == s0.constant_name(k + d + 2 * j));
        }
    }

    /// The same, for making a closure.
    proof fn lemma_shift_closure(s0: VM, s1: VM, d: int)
        requires
            s0.frames@.len() > 0,
            0 <= s0.spec_ip() + d <= usize::MAX,
            s1.frames@ == s0.frames_moved(d),
            s1.stack == s0.stack,
            s1.stack_top_pos == s0.stack_top_pos,
            s1.object_manager == s0.object_manager,
            s1.globals == s0.globals,
            s1.open_upvalues == s0.open_upvalues,
            s1.frame_stack_structs == s0.frame_stack_structs,
        ensures
            forall|after: VM, r: Result<Option<InterpretResult>, String>, k: int|
                #[trigger] s1.makes_closure(after, r, k) == s0.makes_closure(after, r, k + d),
    {
        VM::lemma_shift(s0, s1, d);
        assert forall|k: int| 0 <= s1.spec_ip() + k <= usize::MAX implies s1.frames_moved(k)
            == s0.frames_moved(k + d) by {
            assert(s1.frames_moved(k) =~= s0.frames_moved(k + d));
        }
        assert forall|after: VM, r: Result<Option<InterpretResult>, String>, k: int|
            #[trigger] s1.makes_closure(after, r, k) == s0.makes_closure(after, r, k + d) by {
            assert(s1.code_byte(k) == s0.code_byte(k + d));
            assert(s1.constant_function(k) == s0.constant_function(k + d));
            assert forall|j: int|
                #![trigger s1.capture_ok(k + 1, j)]
                #![trigger s0.capture_ok(k + d + 1, j)]
                s1.capture_ok(k + 1, j) == s0.capture_ok(k + d + 1, j) by {
                assert(s1.code_byte(k + 1 + 2 * j) == s0.code_byte(k + d + 1 + 2 * j));
                assert(s1.code_byte(k + 1 + 2 * j + 1) == s0.code_byte(k + d + 1 + 2 * j + 1));
            }
            assert forall|j: int, u: usize|
                #![trigger s1.captured(after, k + 1, j, u)]
                #![trigger s0.captured(after, k + d + 1, j, u)]
                s1.captured(after, k + 1, j, u) == s0.captured(after, k + d + 1, j, u) by {
                assert(s1.code_byte(k + 1 + 2 * j) == s0.code_byte(k + d + 1 + 2 * j));
                assert(s1.code_byte(k + 1 + 2 * j + 1) == s0.code_byte(k + d + 1 + 2 * j + 1));
            }
            match s0.constant_function(k + d) {
                Some((function, f)) => {
                    let count = f.upvalue_count as int;
                    let length = k + 1 + 2 * count;
                    if 0 <= s1.spec_ip() + length <= usize::MAX {
                        assert(s1.frames_moved(length) == s0.frames_moved(length + d));
                    }
                    assert((forall|j: int| 0 <= j < count ==> #[trigger] s1.capture_ok(k + 1, j))
                        == (forall|j: int|
                        0 <= j < count ==> #[trigger] s0.capture_ok(k + d + 1, j)));
                    if s1.makes_closure(after, r, k) != s0.makes_closure(after, r, k + d) {
                        let top = s1.spec_stack_top();
                        let v = after.spec_slots()[top];
                        if let Some(HeapObject::Closure(c)) = after.manager().slot(v->Object_0) {
                            assert((forall|j: int|
                                0 <= j < count ==> #[trigger] s1.captured(
                                    after,
                                    k + 1,
                                    j,
                                    c.upvalues@[j],
                                )) == (forall|j: int|
                                0 <= j < count ==> #[trigger] s0.captured(
                                    after,
                                    k + d + 1,
                                    j,
                                    c.upvalues@[j],
                                )));
                        }
                    }
                },
                None => {},
            }
        }
    }

    /// Moving zero bytes on leaves the frames as they are.
    proof fn lemma_moved_zero(s: VM)
        requires
            s.frames@.len() > 0,
        ensures
            s.frames_moved(0) == s.spec_frames(),
    {
        assert(s.frames_moved(0) =~= s.spec_frames());
    }

    /// Pushes `value`.
    fn push_value(&mut self, value: Value) -> (r: Result<Option<InterpretResult>, String>)
        requires
            old(self).wf(),
            old(self).frames@.len() > 0,
        ensures
            final(self).wf(),
            old(self).rewrites(*final(self), r, 0, seq![value], 0),
    {
        proof {
            VM::lemma_moved_zero(*self);
            if self.stack_top_pos < MAX_STACK_SIZE {
                lemma_splice_update(self.stack@, self.stack_top_pos as int, value);
            }
        }
        self.push_or_report(value)
    }

    /// Pushes the constant named by the next byte; a missing constant pushes nothing.
    fn op_constant(&mut self) -> (r: Result<Option<InterpretResult>, String>)
        requires
            old(self).wf(),
            old(self).frames@.len() > 0,
        ensures
            final(self).wf(),
            match old(self).code_byte(0) {
                Some(i) => if i < old(self).running_constants().len() {
                    old(self).rewrites(*final(self), r, 0, seq![old(self).running_constants()[i as int]], 1)
                } else {
                    old(self).moves(*final(self), r, 1)
                },
                None => old(self).moves(*final(self), r, 0),
            },
            old(self).code_byte(0) is Some ==> old(self).spec_ip() + 1 <= usize::MAX,
    {
        let ghost s0 = *self;
        proof {
            VM::lemma_moved_zero(*self);
        }
        match self.read_constant() {
            Some(constant) => {
                proof {
                    VM::lemma_shift(s0, *self, 1);
                }
                self.push_value(constant)
            },
            None => Ok(None),
        }
    }

    /// Pops the top value.
    fn op_pop(&mut self) -> (r: Result<Option<InterpretResult>, String>)
        requires
            old(self).wf(),
            old(self).frames@.len() > 0,
        ensures
            final(self).wf(),
            old(self).rewrites(*final(self), r, 1, Seq::empty(), 0),
            r is Ok ==> old(self).spec_stack_top() > 0,
    {
        proof {
            VM::lemma_moved_zero(*self);
        }
        match self.pop_or_report() {
            Ok(_) => {
                proof {
                    lemma_splice_none(self.stack@, self.stack_top_pos as int);
                }
                Ok(None)
            },
            Err(e) => Err(e),
        }
    }

    /// Replaces the top value by whether it is false.
    fn op_not(&mut self) -> (r: Result<Option<InterpretResult>, String>)
        requires
            old(self).wf(),
            old(self).frames@.len() > 0,
        ensures
            final(self).wf(),
            old(self).rewrites(
                *final(self),
                r,
                1,
                seq![Value::Bool(falsey(old(self).spec_slots()[old(self).spec_stack_top() - 1]))],
                0,
            ),
    {
        proof {
            VM::lemma_moved_zero(*self);
        }
        let value = match self.pop_or_report() {
            Ok(v) => v,
            Err(e) => return Err(e),
        };
        proof {
            lemma_splice_update(self.stack@, self.stack_top_pos as int, Value::Bool(falsey(value)));
        }
        self.push_or_report(Value::Bool(Self::is_falsey(&value)))
    }

    /// Replaces the number on top by its negation.
    fn op_negate<H: Host>(&mut self, host: &H) -> (r: Result<Option<InterpretResult>, String>)
        requires
            old(self).wf(),
            old(self).frames@.len() > 0,
        ensures
            final(self).wf(),
            old(self).negates(host, *final(self), r, 0),
    {
        proof {
            VM::lemma_moved_zero(*self);
        }
        match self.peek_steps(0) {
            Some(Value::Number(_)) => {},
            Some(_) => return self.report("Operand must be a number."),
            None => {},
        }
        match self.pop_or_report() {
            Ok(Value::Number(bits)) => self.push_or_report(Value::Number(host.negate(bits))),
            Ok(_) => self.report("Operand must be a number."),
            Err(e) => Err(e),
        }
    }

    /// Replaces the two top values by whether they are equal.
    fn op_equal<H: Host>(&mut self, host: &H) -> (r: Result<Option<InterpretResult>, String>)
        requires
            old(self).wf(),
            old(self).frames@.len() > 0,
        ensures
            final(self).wf(),
            ({
                let top = old(self).spec_stack_top();
                if top < 2 {
                    r is Err
                } else {
                    let a = old(self).spec_slots()[top - 2];
                    let b = old(self).spec_slots()[top - 1];
                    let result = final(self).spec_slots()[top - 2];
                    &&& r == Ok::<Option<InterpretResult>, String>(None)
                    &&& final(self).spec_stack_top() == top - 1
                    &&& final(self).spec_slots() == old(self).spec_slots().update(top - 2, result)
                    &&& final(self).spec_frames() == old(self).frames_moved(0)
                    &&& final(self).spec_globals()@ == old(self).spec_globals()@
                    &&& result is Bool
                    &&& !(a is Number && b is Number) ==> result == Value::Bool(a == b)
                    &&& (a is Number && b is Number) ==> result == Value::Bool(
                        host.spec_numbers_equal(a->Number_0, b->Number_0),
                    )
                }
            }),
    {
        proof {
            VM::lemma_moved_zero(*self);
        }
        let b = match self.pop_or_report() {
            Ok(v) => v,
            Err(e) => return Err(e),
        };
        let a = match self.pop_or_report() {
            Ok(v) => v,
            Err(e) => return Err(e),
        };
        let equal = Self::values_equal(a, b, host);
        self.push_or_report(Value::Bool(equal))
    }

    /// Pops the top value and hands its text to the host.
    fn op_print(&mut self) -> (out: (Result<Option<InterpretResult>, String>, Option<Printed>))
        requires
            old(self).wf(),
            old(self).frames@.len() > 0,
        ensures
            final(self).wf(),
            old(self).rewrites(*final(self), out.0, 1, Seq::empty(), 0),
            out.0 is Ok ==> (out.1 matches Some(p) && prints_as(
                old(self).spec_slots()[old(self).spec_stack_top() - 1],
                old(self).manager(),
                p,
            )),
    {
        let top = self.peek();
        let ghost m0 = self.object_manager;
        let printed = match top {
            Some(value) => Some(value_text(&value, &self.object_manager)),
            None => None,
        };
        let r = self.op_pop();
        (r, printed)
    }

    /// Runs the next instruction.
    fn execute<H: Host>(&mut self, host: &H) -> (out: (Result<Option<InterpretResult>, String>, Option<Printed>))
        requires
            old(self).wf(),
        ensures
            final(self).wf(),
            old(self).steps_to(host, *final(self), out.0, out.1),
    {
        let ghost s0 = *self;
        let instruction = match self.read_byte() {
            Some(byte) => OpCode::from_byte(byte),
            None => return (self.report("Unexpected end of bytecode"), None),
        };
        let mut printed: Option<Printed> = None;
        proof {
            VM::lemma_shift(s0, *self, 1);
            VM::lemma_shift_more(s0, *self, 1);
            VM::lemma_shift_numbers(s0, *self, 1, host);
            VM::lemma_shift_tables(s0, *self, 1);
            VM::lemma_shift_closure(s0, *self, 1);
        }
        let r = match instruction {
            Some(OpCode::Constant) => self.op_constant(),
            Some(OpCode::Nil) => self.push_value(Value::Nil),
            Some(OpCode::True) => self.push_value(Value::Bool(true)),
            Some(OpCode::False) => self.push_value(Value::Bool(false)),
            Some(OpCode::Equal) => self.op_equal(host),
            Some(OpCode::Greater) => self.binary_op(OpCode::Greater, host),
            Some(OpCode::Less) => self.binary_op(OpCode::Less, host),
            Some(OpCode::Add) => self.op_add(host),
            Some(OpCode::Subtract) => self.binary_op(OpCode::Subtract, host),
            Some(OpCode::Multiply) => self.binary_op(OpCode::Multiply, host),
            Some(OpCode::Divide) => self.binary_op(OpCode::Divide, host),
            Some(OpCode::Not) => self.op_not(),
            Some(OpCode::Negate) => self.op_negate(host),
            Some(OpCode::Print) => {
                let (r, p) = self.op_print();
                printed = p;
                r
            },
            Some(OpCode::Pop) => self.op_pop(),
            Some(OpCode::DefineGlobal) => self.op_define_global(host),
            Some(OpCode::GetGlobal) => self.op_get_global(),
            Some(OpCode::SetGlobal) => self.op_set_global(host),
            Some(OpCode::GetLocal) => self.op_get_local(),
            Some(OpCode::SetLocal) => self.op_set_local(),
            Some(OpCode::GetUpvalue) => self.op_get_upvalue(),
            Some(OpCode::SetUpvalue) => self.op_set_upvalue(),
            Some(OpCode::JumpIfFalse) => self.op_jump(OpCode::JumpIfFalse),
            Some(OpCode::JumpIfTrue) => self.op_jump(OpCode::JumpIfTrue),
            Some(OpCode::Jump) => self.op_jump(OpCode::Jump),
            Some(OpCode::Loop) => self.op_jump(OpCode::Loop),
            Some(OpCode::Call) => self.op_call(host),
            Some(OpCode::Invoke) => self.op_invoke(host),
            Some(OpCode::Closure) => self.op_closure(),
            Some(OpCode::CloseUpvalue) => self.op_close_upvalue(host),
            Some(OpCode::Return) => self.op_return(host),
            Some(OpCode::ImplementTrait) => self.op_implement_trait(),
            Some(OpCode::ImplRegister) => self.op_impl_register(),
            Some(OpCode::StructType) => self.op_struct_type(host),
            Some(OpCode::StructInstantiate) => self.op_struct_instantiate(true),
            Some(OpCode::StructInstantiateStack) => self.op_struct_instantiate(false),
            Some(OpCode::GetField) => self.op_get_field(),
            Some(OpCode::SetField) => self.op_set_field(),
            None => self.report("Unknown opcode"),
        };
        (r, printed)
    }

    /// Defines the native functions as globals.
    fn setup_standards(&mut self)
        requires
            old(self).wf(),
        ensures
            final(self).wf(),
            final(self).frames == old(self).frames,
            final(self).stack == old(self).stack,
            final(self).stack_top_pos == old(self).stack_top_pos,
            final(self).globals@.dom() == old(self).globals@.dom().insert("clock"@),
    {
        let ghost m0 = self.object_manager;
        let (clock, size) = self.object_manager.push_object(
            HeapObject::NativeFunction(
                ObjectNativeFunction::new("clock".to_string(), 0, CLOCK_NATIVE),
            ),
        );
        proof {
            assert forall|key: Seq<char>| #[trigger]
                self.intern_strings@.dom().contains(key) implies (self.intern_strings@[key] matches Value::Object(
                q,
            ) && self.object_manager.slot(q) matches Some(HeapObject::String(o)) && o.content@
                == key) by {
                m0.lemma_slot_in_heap(self.intern_strings@[key]->Object_0);
            }
        }
        self.globals.insert("clock".to_string(), Value::Object(clock));
        self.track_allocation(size);
    }

    /// Defines the native functions, then compiles `source` and starts running the script;
    /// gives the compile errors when there are some. `step` runs the script on.
    pub fn interpret<H: Host>(&mut self, source: &str, host: &H) -> (r: Result<
        (),
        Vec<crate::compiler::CompileError>,
    >)
        requires
            old(self).wf(),
            source@.len() < usize::MAX,
        ensures
            final(self).wf(),
            r matches Err(errors) ==> errors@.len() > 0,
            final(self).spec_globals()@.dom() == old(self).spec_globals()@.dom().insert("clock"@),
            r is Ok && old(self).spec_stack_top() < MAX_STACK_SIZE && old(self).spec_frames().len()
                < MAX_FRAMES_SIZE ==> {
                let top = old(self).spec_stack_top();
                let script = final(self).spec_slots()[top];
                &&& script is Object
                &&& final(self).spec_stack() == old(self).spec_stack().push(script)
                &&& final(self).spec_frames() == old(self).spec_frames().push(
                    CallFrame {
                        callable_object: script->Object_0,
                        ip: 0,
                        stack_base_offset: top as usize,
                    },
                )
                &&& final(self).manager().slot(script->Object_0) matches Some(
                    HeapObject::Function(f),
                )
                &&& f.arity == 0
                &&& f.chunk.spec_code().len() >= 2
                &&& f.chunk.spec_code()[f.chunk.spec_code().len() - 2] == OpCode::Nil.spec_byte()
                &&& f.chunk.spec_code()[f.chunk.spec_code().len() - 1]
                    == OpCode::Return.spec_byte()
                &&& scan_step(source@, 0, 1).0.token_type == TokenType::Eof ==> f.chunk.spec_code()
                    == seq![OpCode::Nil.spec_byte(), OpCode::Return.spec_byte()]
            },
            scan_step(source@, 0, 1).0.token_type == TokenType::Eof ==> r is Ok,
            scan_step(source@, 0, 1).0.token_type == TokenType::Error ==> r is Err,
            scan_step(source@, 0, 1).0.token_type == TokenType::Return ==> r is Err,
    {
        self.setup_standards();
        let mut object_manager = ObjectManager::new();
        let mut intern_strings = Table::new();
        std::mem::swap(&mut object_manager, &mut self.object_manager);
        std::mem::swap(&mut intern_strings, &mut self.intern_strings);
        let mut parser = Parser::new(object_manager, intern_strings);
        let result = parser.compile(source, host);
        let (object_manager, intern_strings, errors) = parser.into_parts_and_errors();
        self.object_manager = object_manager;
        self.intern_strings = intern_strings;
        match result {
            Some(function) => {
                let ghost before = *self;
                self.push(Value::Object(function));
                self.call_function(function, 0);
                let ghost called = *self;
                self.sync_pending_allocations();
                proof {
                    let top = before.stack_top_pos as int;
                    if top < MAX_STACK_SIZE && before.frames@.len() < MAX_FRAMES_SIZE {
                        assert(called.spec_slots()[top] == Value::Object(function));
                        assert(value_refers_to(called.spec_slots()[top], function));
                        assert(called.holds_directly(function));
                        assert(self.spec_stack() =~= before.spec_stack().push(Value::Object(function)));
                    }
                }
                Ok(())
            },
            None => Err(errors),
        }
    }
}

} // verus!
