use vstd::prelude::*;

use crate::objects::object::{
    add_buffer, buffer_bytes, capped, chunk_element_sizes, lemma_buffer_bytes_nonneg,
    lemma_size_step, vec_capacity, GcSize,
};
use crate::value::Value;
use crate::vm::Host;

verus! {
/// The instructions of the bytecode. Each is encoded as one byte, its position in this list.
#[derive(Debug, Clone, Copy, PartialEq, Eq, Structural)]
pub enum OpCode {
    Constant,
    Nil,
    True,
    False,
    Equal,
    Greater,
    Less,
    Add,
    Subtract,
    Multiply,
    Divide,
    Not,
    Negate,
    Print,
    Pop,
    DefineGlobal,
    GetGlobal,
    SetGlobal,
    GetLocal,
    SetLocal,
    GetUpvalue,
    SetUpvalue,
    JumpIfFalse,
    JumpIfTrue,
    Jump,
    Loop,
    Call,
    Closure,
    CloseUpvalue,
    Return,
    ImplementTrait,
    StructType,
    StructInstantiate,
    GetField,
    SetField,
    StructInstantiateStack,
    Invoke,
    ImplRegister,
}

/// Number of instructions; the bytes from this one up encode none.
pub const OPCODE_COUNT: u8 = 38;

impl OpCode {
    /// The byte that encodes the instruction.
    pub open spec fn spec_byte(self) -> u8 {
        match self {
            OpCode::Constant => 0,
            OpCode::Nil => 1,
            OpCode::True => 2,
            OpCode::False => 3,
            OpCode::Equal => 4,
            OpCode::Greater => 5,
            OpCode::Less => 6,
            OpCode::Add => 7,
            OpCode::Subtract => 8,
            OpCode::Multiply => 9,
            OpCode::Divide => 10,
            OpCode::Not => 11,
            OpCode::Negate => 12,
            OpCode::Print => 13,
            OpCode::Pop => 14,
            OpCode::DefineGlobal => 15,
            OpCode::GetGlobal => 16,
            OpCode::SetGlobal => 17,
            OpCode::GetLocal => 18,
            OpCode::SetLocal => 19,
            OpCode::GetUpvalue => 20,
            OpCode::SetUpvalue => 21,
            OpCode::JumpIfFalse => 22,
            OpCode::JumpIfTrue => 23,
            OpCode::Jump => 24,
            OpCode::Loop => 25,
            OpCode::Call => 26,
            OpCode::Closure => 27,
            OpCode::CloseUpvalue => 28,
            OpCode::Return => 29,
            OpCode::ImplementTrait => 30,
            OpCode::StructType => 31,
            OpCode::StructInstantiate => 32,
            OpCode::GetField => 33,
            OpCode::SetField => 34,
            OpCode::StructInstantiateStack => 35,
            OpCode::Invoke => 36,
            OpCode::ImplRegister => 37,
        }
    }

    /// The instruction that a byte encodes, if any.
    pub open spec fn spec_from_byte(byte: u8) -> Option<OpCode> {
        if byte == 0 {
            Some(OpCode::Constant)
        } else if byte == 1 {
            Some(OpCode::Nil)
        } else if byte == 2 {
            Some(OpCode::True)
        } else if byte == 3 {
            Some(OpCode::False)
        } else if byte == 4 {
            Some(OpCode::Equal)
        } else if byte == 5 {
            Some(OpCode::Greater)
        } else if byte == 6 {
            Some(OpCode::Less)
        } else if byte == 7 {
            Some(OpCode::Add)
        } else if byte == 8 {
            Some(OpCode::Subtract)
        } else if byte == 9 {
            Some(OpCode::Multiply)
        } else if byte == 10 {
            Some(OpCode::Divide)
        } else if byte == 11 {
            Some(OpCode::Not)
        } else if byte == 12 {
            Some(OpCode::Negate)
        } else if byte == 13 {
            Some(OpCode::Print)
        } else if byte == 14 {
            Some(OpCode::Pop)
        } else if byte == 15 {
            Some(OpCode::DefineGlobal)
        } else if byte == 16 {
            Some(OpCode::GetGlobal)
        } else if byte == 17 {
            Some(OpCode::SetGlobal)
        } else if byte == 18 {
            Some(OpCode::GetLocal)
        } else if byte == 19 {
            Some(OpCode::SetLocal)
        } else if byte == 20 {
            Some(OpCode::GetUpvalue)
        } else if byte == 21 {
            Some(OpCode::SetUpvalue)
        } else if byte == 22 {
            Some(OpCode::JumpIfFalse)
        } else if byte == 23 {
            Some(OpCode::JumpIfTrue)
        } else if byte == 24 {
            Some(OpCode::Jump)
        } else if byte == 25 {
            Some(OpCode::Loop)
        } else if byte == 26 {
            Some(OpCode::Call)
        } else if byte == 27 {
            Some(OpCode::Closure)
        } else if byte == 28 {
            Some(OpCode::CloseUpvalue)
        } else if byte == 29 {
            Some(OpCode::Return)
        } else if byte == 30 {
            Some(OpCode::ImplementTrait)
        } else if byte == 31 {
            Some(OpCode::StructType)
        } else if byte == 32 {
            Some(OpCode::StructInstantiate)
        } else if byte == 33 {
            Some(OpCode::GetField)
        } else if byte == 34 {
            Some(OpCode::SetField)
        } else if byte == 35 {
            Some(OpCode::StructInstantiateStack)
        } else if byte == 36 {
            Some(OpCode::Invoke)
        } else if byte == 37 {
            Some(OpCode::ImplRegister)
        } else {
            None
        }
    }

    /// The name of the instruction.
    pub open spec fn spec_name(self) -> Seq<char> {
        match self {
            OpCode::Constant => "Constant"@,
            OpCode::Nil => "Nil"@,
            OpCode::True => "True"@,
            OpCode::False => "False"@,
            OpCode::Equal => "Equal"@,
            OpCode::Greater => "Greater"@,
            OpCode::Less => "Less"@,
            OpCode::Add => "Add"@,
            OpCode::Subtract => "Subtract"@,
            OpCode::Multiply => "Multiply"@,
            OpCode::Divide => "Divide"@,
            OpCode::Not => "Not"@,
            OpCode::Negate => "Negate"@,
            OpCode::Print => "Print"@,
            OpCode::Pop => "Pop"@,
            OpCode::DefineGlobal => "DefineGlobal"@,
            OpCode::GetGlobal => "GetGlobal"@,
            OpCode::SetGlobal => "SetGlobal"@,
            OpCode::GetLocal => "GetLocal"@,
            OpCode::SetLocal => "SetLocal"@,
            OpCode::GetUpvalue => "GetUpvalue"@,
            OpCode::SetUpvalue => "SetUpvalue"@,
            OpCode::JumpIfFalse => "JumpIfFalse"@,
            OpCode::JumpIfTrue => "JumpIfTrue"@,
            OpCode::Jump => "Jump"@,
            OpCode::Loop => "Loop"@,
            OpCode::Call => "Call"@,
            OpCode::Closure => "Closure"@,
            OpCode::CloseUpvalue => "CloseUpvalue"@,
            OpCode::Return => "Return"@,
            OpCode::ImplementTrait => "ImplementTrait"@,
            OpCode::StructType => "StructType"@,
            OpCode::StructInstantiate => "StructInstantiate"@,
            OpCode::GetField => "GetField"@,
            OpCode::SetField => "SetField"@,
            OpCode::StructInstantiateStack => "StructInstantiateStack"@,
            OpCode::Invoke => "Invoke"@,
            OpCode::ImplRegister => "ImplRegister"@,
        }
    }

    /// Decodes a byte.
    pub fn from_byte(byte: u8) -> (r: Option<Self>)
        ensures
            r == Self::spec_from_byte(byte),
    {
        match byte {
            0 => Some(OpCode::Constant),
            1 => Some(OpCode::Nil),
            2 => Some(OpCode::True),
            3 => Some(OpCode::False),
            4 => Some(OpCode::Equal),
            5 => Some(OpCode::Greater),
            6 => Some(OpCode::Less),
            7 => Some(OpCode::Add),
            8 => Some(OpCode::Subtract),
            9 => Some(OpCode::Multiply),
            10 => Some(OpCode::Divide),
            11 => Some(OpCode::Not),
            12 => Some(OpCode::Negate),
            13 => Some(OpCode::Print),
            14 => Some(OpCode::Pop),
            15 => Some(OpCode::DefineGlobal),
            16 => Some(OpCode::GetGlobal),
            17 => Some(OpCode::SetGlobal),
            18 => Some(OpCode::GetLocal),
            19 => Some(OpCode::SetLocal),
            20 => Some(OpCode::GetUpvalue),
            21 => Some(OpCode::SetUpvalue),
            22 => Some(OpCode::JumpIfFalse),
            23 => Some(OpCode::JumpIfTrue),
            24 => Some(OpCode::Jump),
            25 => Some(OpCode::Loop),
            26 => Some(OpCode::Call),
            27 => Some(OpCode::Closure),
            28 => Some(OpCode::CloseUpvalue),
            29 => Some(OpCode::Return),
            30 => Some(OpCode::ImplementTrait),
            31 => Some(OpCode::StructType),
            32 => Some(OpCode::StructInstantiate),
            33 => Some(OpCode::GetField),
            34 => Some(OpCode::SetField),
            35 => Some(OpCode::StructInstantiateStack),
            36 => Some(OpCode::Invoke),
            37 => Some(OpCode::ImplRegister),
            _ => None,
        }
    }

    /// Encodes the instruction as a byte.
    pub fn to_byte(self) -> (b: u8)
        ensures
            b == self.spec_byte(),
    {
        match self {
            OpCode::Constant => 0,
            OpCode::Nil => 1,
            OpCode::True => 2,
            OpCode::False => 3,
            OpCode::Equal => 4,
            OpCode::Greater => 5,
            OpCode::Less => 6,
            OpCode::Add => 7,
            OpCode::Subtract => 8,
            OpCode::Multiply => 9,
            OpCode::Divide => 10,
            OpCode::Not => 11,
            OpCode::Negate => 12,
            OpCode::Print => 13,
            OpCode::Pop => 14,
            OpCode::DefineGlobal => 15,
            OpCode::GetGlobal => 16,
            OpCode::SetGlobal => 17,
            OpCode::GetLocal => 18,
            OpCode::SetLocal => 19,
            OpCode::GetUpvalue => 20,
            OpCode::SetUpvalue => 21,
            OpCode::JumpIfFalse => 22,
            OpCode::JumpIfTrue => 23,
            OpCode::Jump => 24,
            OpCode::Loop => 25,
            OpCode::Call => 26,
            OpCode::Closure => 27,
            OpCode::CloseUpvalue => 28,
            OpCode::Return => 29,
            OpCode::ImplementTrait => 30,
            OpCode::StructType => 31,
            OpCode::StructInstantiate => 32,
            OpCode::GetField => 33,
            OpCode::SetField => 34,
            OpCode::StructInstantiateStack => 35,
            OpCode::Invoke => 36,
            OpCode::ImplRegister => 37,
        }
    }

    /// The name of the instruction, as text.
    pub fn name(&self) -> (s: &'static str)
        ensures
            s@ == self.spec_name(),
    {
        match self {
            OpCode::Constant => "Constant",
            OpCode::Nil => "Nil",
            OpCode::True => "True",
            OpCode::False => "False",
            OpCode::Equal => "Equal",
            OpCode::Greater => "Greater",
            OpCode::Less => "Less",
            OpCode::Add => "Add",
            OpCode::Subtract => "Subtract",
            OpCode::Multiply => "Multiply",
            OpCode::Divide => "Divide",
            OpCode::Not => "Not",
            OpCode::Negate => "Negate",
            OpCode::Print => "Print",
            OpCode::Pop => "Pop",
            OpCode::DefineGlobal => "DefineGlobal",
            OpCode::GetGlobal => "GetGlobal",
            OpCode::SetGlobal => "SetGlobal",
            OpCode::GetLocal => "GetLocal",
            OpCode::SetLocal => "SetLocal",
            OpCode::GetUpvalue => "GetUpvalue",
            OpCode::SetUpvalue => "SetUpvalue",
            OpCode::JumpIfFalse => "JumpIfFalse",
            OpCode::JumpIfTrue => "JumpIfTrue",
            OpCode::Jump => "Jump",
            OpCode::Loop => "Loop",
            OpCode::Call => "Call",
            OpCode::Closure => "Closure",
            OpCode::CloseUpvalue => "CloseUpvalue",
            OpCode::Return => "Return",
            OpCode::ImplementTrait => "ImplementTrait",
            OpCode::StructType => "StructType",
            OpCode::StructInstantiate => "StructInstantiate",
            OpCode::GetField => "GetField",
            OpCode::SetField => "SetField",
            OpCode::StructInstantiateStack => "StructInstantiateStack",
            OpCode::Invoke => "Invoke",
            OpCode::ImplRegister => "ImplRegister",
        }
    }

    /// The name of a decoded instruction, or `None` when the byte encoded none.
    pub fn byte_to_string(byte: &Option<OpCode>) -> (s: String)
        ensures
            s@ == (match *byte {
                Some(code) => code.spec_name(),
                None => "None"@,
            }),
    {
        match byte {
            Some(code) => code.name().to_string(),
            None => "None".to_string(),
        }
    }
}

/// Decoding gives back the instruction that was encoded.
pub proof fn lemma_from_byte_to_byte(op: OpCode)
    ensures
        OpCode::spec_from_byte(op.spec_byte()) == Some(op),
{
}

/// A byte decodes to an instruction exactly when it is below the number of instructions, and
/// encoding that instruction gives the byte back.
pub proof fn lemma_to_byte_from_byte(byte: u8)
    ensures
        (OpCode::spec_from_byte(byte) is Some) == (byte < OPCODE_COUNT),
        OpCode::spec_from_byte(byte) matches Some(op) ==> op.spec_byte() == byte,
{
}

/// A compiled unit: bytecode with a source line per byte, and a pool of constants.
#[derive(Clone)]
pub struct Chunk {
    code: Vec<u8>,
    lines: Vec<usize>,
    constants: Vec<Value>,
}

/// Whether `host` counts `a` and `b` equal: numbers as it compares them, other values when
/// they are the same.
pub open spec fn host_counts_equal<H: Host>(host: &H, a: Value, b: Value) -> bool {
    if a is Number && b is Number {
        host.spec_numbers_equal(a->Number_0, b->Number_0)
    } else {
        a == b
    }
}

impl Chunk {
    pub closed spec fn spec_code(&self) -> Seq<u8> {
        self.code@
    }

    pub closed spec fn spec_lines(&self) -> Seq<usize> {
        self.lines@
    }

    pub closed spec fn spec_constants(&self) -> Seq<Value> {
        self.constants@
    }

    /// Each byte of code has its line.
    pub open spec fn wf(&self) -> bool {
        &&& self.spec_code().len() == self.spec_lines().len()
        &&& self.spec_code().len() <= usize::MAX
    }

    pub fn new() -> (c: Self)
        ensures
            c.wf(),
            c.spec_code() == Seq::<u8>::empty(),
            c.spec_lines() == Seq::<usize>::empty(),
            c.spec_constants() == Seq::<Value>::empty(),
    {
        Chunk { code: Vec::new(), constants: Vec::new(), lines: Vec::new() }
    }

    /// Appends a byte that came from source line `line`.
    pub fn write(&mut self, byte: u8, line: usize)
        requires
            old(self).wf(),
        ensures
            final(self).wf(),
            final(self).spec_code() == old(self).spec_code().push(byte),
            final(self).spec_lines() == old(self).spec_lines().push(line),
            final(self).spec_constants() == old(self).spec_constants(),
    {
        self.code.push(byte);
        self.lines.push(line);
        let _ = self.code.len();
    }

    /// Overwrites the byte at `offset`.
    pub fn write_by_offset(&mut self, offset: usize, byte: u8)
        requires
            old(self).wf(),
            offset < old(self).spec_code().len(),
        ensures
            final(self).wf(),
            final(self).spec_code() == old(self).spec_code().update(offset as int, byte),
            final(self).spec_lines() == old(self).spec_lines(),
            final(self).spec_constants() == old(self).spec_constants(),
    {
        self.code.set(offset, byte)
    }

    /// The byte at `offset`, if there is one.
    pub fn read_from_offset(&self, offset: usize) -> (r: Option<u8>)
        ensures
            r == (if offset < self.spec_code().len() {
                Some(self.spec_code()[offset as int])
            } else {
                None::<u8>
            }),
    {
        if offset < self.code.len() {
            Some(self.code[offset])
        } else {
            None
        }
    }

    /// The line of the byte at `offset`, if there is one.
    pub fn read_line_from_offset(&self, offset: usize) -> (r: Option<usize>)
        ensures
            r == (if offset < self.spec_lines().len() {
                Some(self.spec_lines()[offset as int])
            } else {
                None::<usize>
            }),
    {
        if offset < self.lines.len() {
            Some(self.lines[offset])
        } else {
            None
        }
    }

    /// Appends a constant and gives its index.
    pub fn add_constant(&mut self, value: Value) -> (index: usize)
        requires
            old(self).wf(),
        ensures
            final(self).wf(),
            final(self).spec_constants() == old(self).spec_constants().push(value),
            index == old(self).spec_constants().len(),
            final(self).spec_code() == old(self).spec_code(),
            final(self).spec_lines() == old(self).spec_lines(),
    {
        self.constants.push(value);
        self.constants.len() - 1
    }

    /// Index of the first constant that `host` counts equal to `value`, if any: numbers are
    /// compared as the host compares them, other values by kind and content.
    pub fn find_constant<H: Host>(&self, value: Value, host: &H) -> (r: Option<usize>)
        ensures
            r matches Some(i) ==> i < self.spec_constants().len() && host_counts_equal(
                host,
                self.spec_constants()[i as int],
                value,
            ) && forall|j: int|
                0 <= j < i ==> !host_counts_equal(host, #[trigger] self.spec_constants()[j], value),
            r is None ==> forall|j: int|
                0 <= j < self.spec_constants().len() ==> !host_counts_equal(
                    host,
                    #[trigger] self.spec_constants()[j],
                    value,
                ),
    {
        let mut i: usize = 0;
        while i < self.constants.len()
            invariant
                i <= self.constants@.len(),
                self.constants@ == self.spec_constants(),
                forall|j: int|
                    0 <= j < i ==> !host_counts_equal(host, #[trigger] self.spec_constants()[j], value),
            decreases self.constants@.len() - i,
        {
            let equal = match (self.constants[i], value) {
                (Value::Number(c), Value::Number(b)) => host.numbers_equal(c, b),
                (c, v) => c == v,
            };
            if equal {
                return Some(i);
            }
            i = i + 1;
        }
        None
    }

    /// Index of the first constant identical to `value`, if any.
    pub(crate) fn position_of(&self, value: Value) -> (r: Option<usize>)
        ensures
            r is None ==> !self.spec_constants().contains(value),
            r matches Some(i) ==> i < self.spec_constants().len() && self.spec_constants()[i as int]
                == value && forall|j: int| 0 <= j < i ==> self.spec_constants()[j] != value,
    {
        let mut i: usize = 0;
        while i < self.constants.len()
            invariant
                i <= self.constants@.len(),
                forall|j: int| 0 <= j < i ==> self.constants@[j] != value,
            decreases self.constants@.len() - i,
        {
            if self.constants[i] == value {
                return Some(i);
            }
            i = i + 1;
        }
        None
    }

    /// The constant at `offset`.
    /// The position of the first number constant that `host` counts equal to the number
    /// `bits`, if any.
    pub fn find_number_constant<H: Host>(&self, bits: u64, host: &H) -> (r: Option<usize>)
        ensures
            r matches Some(i) ==> (i < self.spec_constants().len() && (self.spec_constants()[i as int] matches Value::Number(
                c,
            ) && host.spec_numbers_equal(c, bits)) && forall|j: int|
                0 <= j < i ==> !(#[trigger] self.spec_constants()[j] matches Value::Number(d)
                    && host.spec_numbers_equal(d, bits))),
            r is None ==> forall|j: int|
                0 <= j < self.spec_constants().len() ==> !(#[trigger] self.spec_constants()[j] matches Value::Number(
                    d,
                ) && host.spec_numbers_equal(d, bits)),
    {
        let mut i: usize = 0;
        while i < self.constants.len()
            invariant
                i <= self.constants@.len(),
                self.constants@ == self.spec_constants(),
                forall|j: int|
                    0 <= j < i ==> !(#[trigger] self.spec_constants()[j] matches Value::Number(d)
                        && host.spec_numbers_equal(d, bits)),
            decreases self.constants@.len() - i,
        {
            match self.constants[i] {
                Value::Number(c) => {
                    if host.numbers_equal(c, bits) {
                        return Some(i);
                    }
                },
                _ => {},
            }
            i = i + 1;
        }
        None
    }

    pub fn get_constant(&self, offset: usize) -> (v: &Value)
        requires
            offset < self.spec_constants().len(),
        ensures
            *v == self.spec_constants()[offset as int],
    {
        &self.constants[offset]
    }

    /// Number of bytes of code.
    pub fn len(&self) -> (n: usize)
        ensures
            n == self.spec_code().len(),
    {
        self.code.len()
    }

    /// The constants, in order.
    pub fn iter_constants(&self) -> (r: &Vec<Value>)
        ensures
            r@ == self.spec_constants(),
    {
        &self.constants
    }
}

impl GcSize for Chunk {
    fn shallow_size(&self) -> (n: usize)
        ensures
            n == core::mem::size_of::<Chunk>(),
    {
        core::mem::size_of::<Chunk>()
    }

    fn deep_size(&self) -> (n: usize)
        ensures
            n >= core::mem::size_of::<Chunk>(),
            exists|caps: Seq<int>|
                #![trigger buffer_bytes(caps, chunk_element_sizes())]
                caps.len() == 3 && self.spec_code().len() <= caps[0] <= usize::MAX
                    && self.spec_lines().len() <= caps[1] <= usize::MAX
                    && self.spec_constants().len() <= caps[2] <= usize::MAX && n == capped(
                    core::mem::size_of::<Chunk>() + buffer_bytes(caps, chunk_element_sizes()),
                ),
    {
        let header = self.shallow_size();
        let c0 = vec_capacity(&self.code);
        let e0 = core::mem::size_of::<u8>();
        let t0 = add_buffer(header, c0, e0);
        let c1 = vec_capacity(&self.lines);
        let e1 = core::mem::size_of::<usize>();
        let t1 = add_buffer(t0, c1, e1);
        let c2 = vec_capacity(&self.constants);
        let e2 = core::mem::size_of::<Value>();
        let t2 = add_buffer(t1, c2, e2);
        proof {
            let h = header as int;
            let e: Seq<int> = Seq::empty();
            lemma_size_step(h, e, e, h, c0 as int, e0 as int);
            lemma_size_step(h, e.push(c0 as int), e.push(e0 as int), t0 as int, c1 as int, e1 as int);
            lemma_size_step(
                h,
                e.push(c0 as int).push(c1 as int),
                e.push(e0 as int).push(e1 as int),
                t1 as int,
                c2 as int,
                e2 as int,
            );
            let caps = e.push(c0 as int).push(c1 as int).push(c2 as int);
            assert(e.push(e0 as int).push(e1 as int).push(e2 as int) =~= chunk_element_sizes());
            assert(caps[0] == c0 && caps[1] == c1 && caps[2] == c2);
            lemma_buffer_bytes_nonneg(caps, chunk_element_sizes());
        }
        t2
    }
}

} // verus!
