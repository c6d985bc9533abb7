use vstd::prelude::*;

use crate::chunk::{Chunk, OpCode};
use crate::objects::object::HeapObject;
use crate::objects::object_manager::ObjectManager;
use crate::value::Value;

verus! {

/// A captured variable listed after a `Closure` instruction.
#[derive(Debug, Clone, Copy, PartialEq, Eq)]
pub struct Capture {
    /// Offset of the pair of bytes.
    pub offset: usize,
    pub is_local: u8,
    pub index: u8,
}

/// The operand of a decoded instruction.
#[derive(Debug, Clone, PartialEq, Eq)]
pub enum Operand {
    /// No operand.
    Simple,
    /// A constant, by index, and its value.
    Constant { index: u8, value: Value },
    /// A one-byte operand: a slot, an upvalue index or an argument count.
    Byte { operand: u8 },
    /// A jump, with the offset it lands on.
    Jump { target: usize },
    /// A closure: the constant holding its function, and the captures listed after it.
    Closure { index: u8, value: Value, captures: Vec<Capture> },
    /// A byte that encodes no instruction this disassembler knows.
    Unknown,
}

/// One decoded instruction: where it is, its source line (and whether that is the line of
/// the byte before), what it is, and its operand.
#[derive(Debug, Clone, PartialEq, Eq)]
pub struct DecodedInstruction {
    pub offset: usize,
    pub line: usize,
    pub same_line: bool,
    pub opcode: Option<OpCode>,
    pub operand: Operand,
}

/// Instructions whose operand is a constant.
pub open spec fn is_constant_op(op: OpCode) -> bool {
    op == OpCode::Constant || op == OpCode::DefineGlobal || op == OpCode::GetGlobal || op
        == OpCode::SetGlobal
}

/// Instructions without an operand.
pub open spec fn is_simple_op(op: OpCode) -> bool {
    op == OpCode::Nil || op == OpCode::True || op == OpCode::False || op == OpCode::Equal || op
        == OpCode::Greater || op == OpCode::Less || op == OpCode::Negate || op == OpCode::Add || op
        == OpCode::Subtract || op == OpCode::Multiply || op == OpCode::Divide || op == OpCode::Not
        || op == OpCode::Print || op == OpCode::Pop || op == OpCode::CloseUpvalue || op
        == OpCode::Return
}

/// Instructions with a one-byte operand.
pub open spec fn is_byte_op(op: OpCode) -> bool {
    op == OpCode::GetLocal || op == OpCode::SetLocal || op == OpCode::GetUpvalue || op
        == OpCode::SetUpvalue || op == OpCode::Call
}

/// Instructions with a two-byte jump distance.
pub open spec fn is_jump_op(op: OpCode) -> bool {
    op == OpCode::Jump || op == OpCode::JumpIfFalse || op == OpCode::JumpIfTrue || op
        == OpCode::Loop
}

/// The number of captures of the function that constant `c` of `chunk` holds.
pub open spec fn closure_captures(chunk: Chunk, manager: ObjectManager, c: int) -> int {
    match chunk.spec_constants()[c] {
        Value::Object(r) => match manager.slot(r) {
            Some(HeapObject::Function(f)) => f.upvalue_count as int,
            _ => 0,
        },
        _ => 0,
    }
}

/// The instruction at `offset` can be decoded: its operand bytes are there, its constant
/// exists and, for a closure, the constant is a function whose captures can be read.
pub open spec fn fits(chunk: Chunk, manager: ObjectManager, offset: int) -> bool {
    let code = chunk.spec_code();
    &&& 0 <= offset < code.len()
    &&& match OpCode::spec_from_byte(code[offset]) {
        Some(op) => if is_constant_op(op) {
            offset + 1 < code.len() && (code[offset + 1] as int) < chunk.spec_constants().len()
        } else if is_byte_op(op) {
            offset + 1 < code.len()
        } else if is_jump_op(op) {
            offset + 2 < code.len()
        } else if op == OpCode::Closure {
            &&& offset + 1 < code.len()
            &&& (code[offset + 1] as int) < chunk.spec_constants().len()
            &&& chunk.spec_constants()[code[offset + 1] as int] matches Value::Object(r)
            &&& manager.slot(r) matches Some(HeapObject::Function(_))
            &&& offset + 2 * closure_captures(chunk, manager, code[offset + 1] as int)
                <= code.len()
            &&& offset + 2 * closure_captures(chunk, manager, code[offset + 1] as int) + 2
                <= usize::MAX
        } else {
            true
        },
        None => true,
    }
}

/// The offset of the instruction after the one at `offset`.
pub open spec fn next_offset(chunk: Chunk, manager: ObjectManager, offset: int) -> int {
    let code = chunk.spec_code();
    match OpCode::spec_from_byte(code[offset]) {
        Some(op) => if is_constant_op(op) || is_byte_op(op) {
            offset + 2
        } else if is_jump_op(op) {
            offset + 3
        } else if op == OpCode::Closure {
            offset + 2 * closure_captures(chunk, manager, code[offset + 1] as int) + 2
        } else {
            offset + 1
        },
        None => offset + 1,
    }
}

/// `x` taken modulo the range of `usize`, for `x` less than one range away from it.
pub open spec fn wrap(x: int) -> int {
    if x < 0 {
        x + usize::MAX + 1
    } else if x > usize::MAX {
        x - usize::MAX - 1
    } else {
        x
    }
}

/// What is left of the code from `offset` on.
pub open spec fn remaining(len: int, offset: int) -> int {
    if offset < len {
        len - offset
    } else {
        0
    }
}

/// The jump distance encoded at `offset + 1`, high byte first.
pub open spec fn jump_distance(code: Seq<u8>, offset: int) -> int {
    code[offset + 1] * 256 + code[offset + 2]
}

/// `d` is what the instruction at `d.offset` decodes to.
pub open spec fn decoded_ok(chunk: Chunk, manager: ObjectManager, d: DecodedInstruction) -> bool {
    let code = chunk.spec_code();
    let lines = chunk.spec_lines();
    let o = d.offset as int;
    &&& d.line == lines[o]
    &&& d.same_line == (o > 0 && lines[o] == lines[o - 1])
    &&& d.opcode == OpCode::spec_from_byte(code[o])
    &&& match OpCode::spec_from_byte(code[o]) {
        Some(op) => if is_constant_op(op) {
            d.operand == Operand::Constant {
                index: code[o + 1],
                value: chunk.spec_constants()[code[o + 1] as int],
            }
        } else if is_simple_op(op) {
            d.operand == Operand::Simple
        } else if is_byte_op(op) {
            d.operand == Operand::Byte { operand: code[o + 1] }
        } else if is_jump_op(op) {
            d.operand == Operand::Jump {
                target: wrap(
                    if op == OpCode::Loop {
                        o + 3 - jump_distance(code, o)
                    } else {
                        o + 3 + jump_distance(code, o)
                    },
                ) as usize,
            }
        } else if op == OpCode::Closure {
            d.operand matches Operand::Closure { index, value, captures } && index == code[o + 1]
                && value == chunk.spec_constants()[index as int] && captures@.len()
                == closure_captures(chunk, manager, index as int) && forall|i: int|
                0 <= i < captures@.len() ==> #[trigger] captures@[i] == (Capture {
                    offset: (o + 2 * i) as usize,
                    is_local: code[o + 2 * i],
                    index: code[o + 2 * i + 1],
                })
        } else {
            d.operand == Operand::Unknown
        },
        None => d.operand == Operand::Unknown,
    }
}

/// Decodes the instruction at `offset`; gives it and the offset of the next one.
pub fn disassemble_instruction(chunk: &Chunk, manager: &ObjectManager, offset: usize) -> (r: (
    DecodedInstruction,
    usize,
))
    requires
        chunk.wf(),
        fits(*chunk, *manager, offset as int),
    ensures
        r.0.offset == offset,
        decoded_ok(*chunk, *manager, r.0),
        r.1 == next_offset(*chunk, *manager, offset as int),
{
    let line = chunk.read_line_from_offset(offset).unwrap();
    let same_line = offset > 0 && chunk.read_line_from_offset(offset - 1).unwrap() == line;
    let byte = chunk.read_from_offset(offset).unwrap();
    let opcode = OpCode::from_byte(byte);
    let (operand, next) = match opcode {
        Some(op) => match op {
            OpCode::Constant | OpCode::DefineGlobal | OpCode::GetGlobal | OpCode::SetGlobal => {
                let index = chunk.read_from_offset(offset + 1).unwrap();
                (Operand::Constant { index, value: *chunk.get_constant(index as usize) }, offset + 2)
            },
            OpCode::GetLocal | OpCode::SetLocal | OpCode::GetUpvalue | OpCode::SetUpvalue
            | OpCode::Call => {
                let operand = chunk.read_from_offset(offset + 1).unwrap();
                (Operand::Byte { operand }, offset + 2)
            },
            OpCode::Jump | OpCode::JumpIfFalse | OpCode::JumpIfTrue | OpCode::Loop => {
                let high = chunk.read_from_offset(offset + 1).unwrap() as usize;
                let low = chunk.read_from_offset(offset + 2).unwrap() as usize;
                let distance = high * 256 + low;
                let target = if op == OpCode::Loop {
                    (offset + 3).wrapping_sub(distance)
                } else {
                    (offset + 3).wrapping_add(distance)
                };
                (Operand::Jump { target }, offset + 3)
            },
            OpCode::Closure => {
                let index = chunk.read_from_offset(offset + 1).unwrap();
                let value = *chunk.get_constant(index as usize);
                let count = match value {
                    Value::Object(r) => match manager.get(r) {
                        Some(HeapObject::Function(f)) => f.upvalue_count,
                        _ => 0,
                    },
                    _ => 0,
                };
                let mut captures: Vec<Capture> = Vec::new();
                let mut i: usize = 0;
                while i < count
                    invariant
                        chunk.wf(),
                        fits(*chunk, *manager, offset as int),
                        count == closure_captures(*chunk, *manager, index as int),
                        offset + 1 < chunk.spec_code().len(),
                        index == chunk.spec_code()[offset + 1],
                        offset + 2 * count <= chunk.spec_code().len(),
                        i <= count,
                        captures@.len() == i,
                        forall|j: int|
                            0 <= j < i ==> #[trigger] captures@[j] == (Capture {
                                offset: (offset + 2 * j) as usize,
                                is_local: chunk.spec_code()[offset + 2 * j],
                                index: chunk.spec_code()[offset + 2 * j + 1],
                            }),
                    decreases count - i,
                {
                    let at = offset + 2 * i;
                    let is_local = chunk.read_from_offset(at).unwrap();
                    let capture_index = chunk.read_from_offset(at + 1).unwrap();
                    captures.push(Capture { offset: at, is_local, index: capture_index });
                    i = i + 1;
                }
                (Operand::Closure { index, value, captures }, offset + 2 * count + 2)
            },
            OpCode::Nil | OpCode::True | OpCode::False | OpCode::Equal | OpCode::Greater
            | OpCode::Less | OpCode::Negate | OpCode::Add | OpCode::Subtract | OpCode::Multiply
            | OpCode::Divide | OpCode::Not | OpCode::Print | OpCode::Pop | OpCode::CloseUpvalue
            | OpCode::Return => (Operand::Simple, offset + 1),
            _ => (Operand::Unknown, offset + 1),
        },
        None => (Operand::Unknown, offset + 1),
    };
    (DecodedInstruction { offset, line, same_line, opcode, operand }, next)
}

/// Every instruction from `offset` to the end of the code can be decoded in turn.
pub open spec fn decodes_from(chunk: Chunk, manager: ObjectManager, offset: int) -> bool
    decreases remaining(chunk.spec_code().len() as int, offset),
{
    if 0 <= offset < chunk.spec_code().len() {
        fits(chunk, manager, offset) && next_offset(chunk, manager, offset) > offset
            && decodes_from(chunk, manager, next_offset(chunk, manager, offset))
    } else {
        true
    }
}

/// The offsets of the instructions from `offset` to the end of the code.
pub open spec fn instruction_offsets(chunk: Chunk, manager: ObjectManager, offset: int) -> Seq<int>
    decreases remaining(chunk.spec_code().len() as int, offset),
{
    if 0 <= offset < chunk.spec_code().len() && next_offset(chunk, manager, offset) > offset {
        seq![offset] + instruction_offsets(chunk, manager, next_offset(chunk, manager, offset))
    } else {
        Seq::empty()
    }
}

/// Decodes all the instructions of `chunk`, in order.
pub fn disassemble_chunk(chunk: &Chunk, manager: &ObjectManager) -> (r: Vec<DecodedInstruction>)
    requires
        chunk.wf(),
        decodes_from(*chunk, *manager, 0),
    ensures
        r@.len() == instruction_offsets(*chunk, *manager, 0).len(),
        forall|i: int|
            0 <= i < r@.len() ==> (#[trigger] r@[i]).offset == instruction_offsets(
                *chunk,
                *manager,
                0,
            )[i] && decoded_ok(*chunk, *manager, r@[i]),
{
    let mut result: Vec<DecodedInstruction> = Vec::new();
    let mut offset: usize = 0;
    let code_len = chunk.len();
    let ghost all = instruction_offsets(*chunk, *manager, 0);
    while offset < code_len
        invariant
            chunk.wf(),
            code_len == chunk.spec_code().len(),
            decodes_from(*chunk, *manager, offset as int),
            all == result@.map_values(|d: DecodedInstruction| d.offset as int) + instruction_offsets(
                *chunk,
                *manager,
                offset as int,
            ),
            forall|i: int| 0 <= i < result@.len() ==> decoded_ok(*chunk, *manager, #[trigger] result@[i]),
            offset <= code_len || !(0 <= offset < code_len),
        decreases remaining(code_len as int, offset as int),
    {
        let (decoded, next) = disassemble_instruction(chunk, manager, offset);
        let ghost before = result@;
        result.push(decoded);
        proof {
            assert(result@.map_values(|d: DecodedInstruction| d.offset as int) =~= before.map_values(
                |d: DecodedInstruction| d.offset as int,
            ).push(offset as int));
            assert(instruction_offsets(*chunk, *manager, offset as int) =~= seq![offset as int]
                + instruction_offsets(*chunk, *manager, next as int));
        }
        offset = next;
    }
    proof {
        assert(instruction_offsets(*chunk, *manager, offset as int) =~= Seq::<int>::empty());
        assert(result@.map_values(|d: DecodedInstruction| d.offset as int).len() == result@.len());
        assert forall|i: int| 0 <= i < result@.len() implies (#[trigger] result@[i]).offset == all[i] by {
            assert(all[i] == result@.map_values(|d: DecodedInstruction| d.offset as int)[i]);
        }
    }
    result
}

/// Whether the instruction at `offset` can be decoded.
pub fn fits_at(chunk: &Chunk, manager: &ObjectManager, offset: usize) -> (b: bool)
    requires
        chunk.wf(),
    ensures
        b == fits(*chunk, *manager, offset as int),
{
    if offset >= chunk.len() {
        return false;
    }
    let byte = chunk.read_from_offset(offset).unwrap();
    match OpCode::from_byte(byte) {
        Some(op) => match op {
            OpCode::Constant | OpCode::DefineGlobal | OpCode::GetGlobal | OpCode::SetGlobal => {
                offset + 1 < chunk.len() && (chunk.read_from_offset(offset + 1).unwrap() as usize)
                    < chunk.iter_constants().len()
            },
            OpCode::GetLocal | OpCode::SetLocal | OpCode::GetUpvalue | OpCode::SetUpvalue
            | OpCode::Call => offset + 1 < chunk.len(),
            OpCode::Jump | OpCode::JumpIfFalse | OpCode::JumpIfTrue | OpCode::Loop => chunk.len()
                - offset > 2,
            OpCode::Closure => {
                if offset + 1 >= chunk.len() {
                    return false;
                }
                let index = chunk.read_from_offset(offset + 1).unwrap() as usize;
                if index >= chunk.iter_constants().len() {
                    return false;
                }
                match *chunk.get_constant(index) {
                    Value::Object(r) => match manager.get(r) {
                        Some(HeapObject::Function(f)) => {
                            let count = f.upvalue_count;
                            count <= (chunk.len() - offset) / 2 && usize::MAX - offset >= 2
                                && count <= (usize::MAX - offset - 2) / 2
                        },
                        _ => false,
                    },
                    _ => false,
                }
            },
            _ => true,
        },
        None => true,
    }
}

/// Whether every instruction of `chunk` can be decoded in turn.
pub fn decodable(chunk: &Chunk, manager: &ObjectManager) -> (b: bool)
    requires
        chunk.wf(),
    ensures
        b == decodes_from(*chunk, *manager, 0),
{
    let mut offset: usize = 0;
    let code_len = chunk.len();
    while offset < code_len
        invariant
            chunk.wf(),
            code_len == chunk.spec_code().len(),
            decodes_from(*chunk, *manager, 0) == decodes_from(*chunk, *manager, offset as int),
        decreases remaining(code_len as int, offset as int),
    {
        if !fits_at(chunk, manager, offset) {
            return false;
        }
        let (_decoded, next) = disassemble_instruction(chunk, manager, offset);
        if next <= offset {
            return false;
        }
        offset = next;
    }
    true
}

} // verus!
