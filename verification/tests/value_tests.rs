use dynac::objects::object_string::ObjectString;
use dynac::chunk::{Chunk, OpCode};
use dynac::debug::{decodable, disassemble_chunk, disassemble_instruction, fits_at, Operand};
use dynac::objects::object::HeapObject;
use dynac::objects::object_manager::ObjectManager;
use dynac::objects::object_upvalue::UpvalueLocation;
use dynac::table::Table;
use dynac::value::{
    as_number, copy_chunk, is_closure, is_function, is_native_function, is_string,
    make_string_value, print_object, value_text, Printed, Value,
};
use dynac::vm::decimal;

#[test]
fn interning_the_same_text_twice_gives_one_object() {
    let mut manager = ObjectManager::new();
    let mut table = Table::new();
    let first = make_string_value(&mut manager, &mut table, "hello");
    let objects_after_first = manager.iter().len();
    let second = make_string_value(&mut manager, &mut table, "hello");
    assert_eq!(first, second);
    assert_eq!(manager.iter().len(), objects_after_first);
    assert_eq!(table.len(), 1);
    let other = make_string_value(&mut manager, &mut table, "world");
    assert_ne!(first, other);
    assert_eq!(table.len(), 2);
}

#[test]
fn prints_values_and_objects() {
    let mut manager = ObjectManager::new();
    let (s, _) = manager.alloc_string("text");
    let (f, _) = manager.alloc_function(0, "add".to_string());
    let (script, _) = manager.alloc_function(0, String::new());
    let (native, _) = manager.alloc_native_function("clock".to_string(), 0, 0);
    let (closure, _) = manager.alloc_closure(f);
    let (up, _) = manager.alloc_upvalue(3);
    let (tr, _) = manager.alloc_trait("Show".to_string());
    let (st, _) = manager.alloc_struct_type("Point".to_string());
    let (inst, _) = manager.alloc_struct_instance(st, 2);
    assert_eq!(print_object(&manager, s), "text");
    assert_eq!(print_object(&manager, f), "<fn add>");
    assert_eq!(print_object(&manager, script), "<script>");
    assert_eq!(print_object(&manager, native), "<native fn clock>");
    assert_eq!(print_object(&manager, closure), "<closure add>");
    assert_eq!(print_object(&manager, up), "<upvalue>");
    assert_eq!(print_object(&manager, tr), "<trait Show>");
    assert_eq!(print_object(&manager, st), "<struct Point>");
    assert_eq!(print_object(&manager, inst), "<Point instance>");
    assert_eq!(value_text(&Value::Bool(true), &manager), Printed::Text("true".to_string()));
    assert_eq!(value_text(&Value::Bool(false), &manager), Printed::Text("false".to_string()));
    assert_eq!(value_text(&Value::Nil, &manager), Printed::Text("nil".to_string()));
    assert_eq!(value_text(&Value::StackStruct(0), &manager), Printed::Text("<stack struct>".to_string()));
    assert_eq!(value_text(&Value::Number(2.5f64.to_bits()), &manager), Printed::Number(2.5f64.to_bits()));
    assert_eq!(value_text(&Value::Object(s), &manager), Printed::Text("text".to_string()));
    assert!(is_string(&Value::Object(s), &manager));
    assert!(is_function(&Value::Object(f), &manager));
    assert!(is_native_function(&Value::Object(native), &manager));
    assert!(is_closure(&Value::Object(closure), &manager));
    assert!(!is_string(&Value::Object(f), &manager));
    assert!(!is_string(&Value::Nil, &manager));
    assert_eq!(as_number(&Value::Number(7)), 7);
}

#[test]
fn deep_clone_copies_strings_functions_closures_and_upvalues() {
    let mut manager = ObjectManager::new();
    let (s, _) = manager.alloc_string("text");
    let (f, _) = manager.alloc_function(2, "f".to_string());
    let (closure, _) = manager.alloc_closure(f);
    let (up, _) = manager.alloc_upvalue(4);
    let (tr, _) = manager.alloc_trait("T".to_string());

    let s2 = Value::Object(s).deep_clone(&mut manager);
    assert_ne!(s2, Value::Object(s));
    assert_eq!(print_object(&manager, match s2 { Value::Object(r) => r, _ => unreachable!() }), "text");

    let f2 = match Value::Object(f).deep_clone(&mut manager) { Value::Object(r) => r, _ => unreachable!() };
    assert_ne!(f2, f);
    match manager.get(f2) {
        Some(HeapObject::Function(g)) => {
            assert_eq!(g.arity, 2);
            assert_eq!(g.name, "f");
        }
        _ => panic!("not a function"),
    }

    let before = manager.slots();
    let c2 = match Value::Object(closure).deep_clone(&mut manager) { Value::Object(r) => r, _ => unreachable!() };
    assert_eq!(c2, before + 1);
    match manager.get(c2) {
        Some(HeapObject::Closure(c)) => assert_eq!(c.function, before),
        _ => panic!("not a closure"),
    }

    let u2 = match Value::Object(up).deep_clone(&mut manager) { Value::Object(r) => r, _ => unreachable!() };
    match manager.get(u2) {
        Some(HeapObject::Upvalue(u)) => assert_eq!(u.location, UpvalueLocation::Stack(4)),
        _ => panic!("not an upvalue"),
    }

    assert_eq!(Value::Object(tr).deep_clone(&mut manager), Value::Object(tr));
    assert_eq!(Value::Number(9).deep_clone(&mut manager), Value::Number(9));
}

#[test]
fn copy_chunk_keeps_code_lines_and_constants() {
    let mut chunk = Chunk::new();
    chunk.write(OpCode::Nil.to_byte(), 3);
    chunk.write(OpCode::Return.to_byte(), 4);
    chunk.add_constant(Value::Bool(true));
    let copy = copy_chunk(&chunk);
    assert_eq!(copy.len(), 2);
    assert_eq!(copy.read_from_offset(1), Some(OpCode::Return.to_byte()));
    assert_eq!(copy.read_line_from_offset(0), Some(3));
    assert_eq!(*copy.get_constant(0), Value::Bool(true));
}

#[test]
fn disassembles_each_kind_of_instruction() {
    let mut manager = ObjectManager::new();
    let mut chunk = Chunk::new();
    let c = chunk.add_constant(Value::Number(1.5f64.to_bits()));
    chunk.write(OpCode::Constant.to_byte(), 1);
    chunk.write(c as u8, 1);
    chunk.write(OpCode::GetLocal.to_byte(), 2);
    chunk.write(7, 2);
    chunk.write(OpCode::Jump.to_byte(), 2);
    chunk.write(0, 2);
    chunk.write(4, 2);
    chunk.write(OpCode::Loop.to_byte(), 3);
    chunk.write(0, 3);
    chunk.write(10, 3);
    chunk.write(OpCode::Return.to_byte(), 3);
    chunk.write(200, 3);
    assert!(decodable(&chunk, &manager));
    let listing = disassemble_chunk(&chunk, &manager);
    assert_eq!(listing.len(), 6);
    assert_eq!(listing[0].operand, Operand::Constant { index: 0, value: Value::Number(1.5f64.to_bits()) });
    assert!(!listing[0].same_line);
    assert_eq!(listing[1].operand, Operand::Byte { operand: 7 });
    assert_eq!(listing[2].operand, Operand::Jump { target: 4 + 3 + 4 });
    assert!(listing[2].same_line);
    assert_eq!(listing[3].operand, Operand::Jump { target: 7 + 3 - 10 });
    assert_eq!(listing[4].operand, Operand::Simple);
    assert_eq!(listing[4].opcode, Some(OpCode::Return));
    assert_eq!(listing[5].operand, Operand::Unknown);
    assert_eq!(listing[5].opcode, None);
    let (first, next) = disassemble_instruction(&chunk, &manager, 0);
    assert_eq!(first.line, 1);
    assert_eq!(next, 2);

    let (f, _) = manager.alloc_function(0, "g".to_string());
    let mut closure_chunk = Chunk::new();
    let k = closure_chunk.add_constant(Value::Object(f));
    closure_chunk.write(OpCode::Closure.to_byte(), 1);
    closure_chunk.write(k as u8, 1);
    assert!(fits_at(&closure_chunk, &manager, 0));
    let (closure, after) = disassemble_instruction(&closure_chunk, &manager, 0);
    assert_eq!(after, 2);
    match closure.operand {
        Operand::Closure { index, captures, .. } => {
            assert_eq!(index, 0);
            assert!(captures.is_empty());
        }
        _ => panic!("not a closure"),
    }

    let mut short = Chunk::new();
    short.write(OpCode::Constant.to_byte(), 1);
    assert!(!fits_at(&short, &manager, 0));
    assert!(!decodable(&short, &manager));
}

#[test]
fn decimal_writes_numbers() {
    assert_eq!(decimal(0), "0");
    assert_eq!(decimal(7), "7");
    assert_eq!(decimal(10), "10");
    assert_eq!(decimal(4096), "4096");
    assert_eq!(decimal(usize::MAX), usize::MAX.to_string());
}

#[test]
fn object_manager_updates_instances_and_upvalues_in_place() {
    let mut manager = ObjectManager::new();
    let (st, _) = manager.alloc_struct_type("P".to_string());
    let (inst, _) = manager.alloc_struct_instance(st, 2);
    assert!(manager.set_instance_field(inst, 1, Value::Bool(true)));
    assert!(!manager.set_instance_field(inst, 2, Value::Bool(true)));
    assert!(!manager.set_instance_field(st, 0, Value::Bool(true)));
    match manager.get(inst) {
        Some(HeapObject::StructInstance(i)) => {
            assert_eq!(i.fields[0], Value::Nil);
            assert_eq!(i.fields[1], Value::Bool(true));
        }
        _ => panic!("not an instance"),
    }
    let (up, _) = manager.alloc_upvalue(5);
    assert!(manager.set_upvalue(up, UpvalueLocation::Closed, Value::Number(3)));
    match manager.get(up) {
        Some(HeapObject::Upvalue(u)) => {
            assert_eq!(u.location, UpvalueLocation::Closed);
            assert_eq!(u.closed, Value::Number(3));
        }
        _ => panic!("not an upvalue"),
    }
    let (tr, _) = manager.alloc_trait("T".to_string());
    assert!(manager.set_trait_methods(tr, vec!["m".to_string()]));
    assert!(!manager.set_trait_methods(up, vec![]));
}

#[test]
fn test_object_strings_equal_by_content() {
    assert!(ObjectString::new("same") == ObjectString::new("same"));
    assert!(ObjectString::new("same") != ObjectString::new("other"));
}
