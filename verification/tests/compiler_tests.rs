use dynac::chunk::{Chunk, OpCode};
use dynac::compiler::{CompileError, ErrorLocation, Parser};
use dynac::objects::object::HeapObject;
use dynac::objects::object_function::ObjectFunction;
use dynac::objects::object_manager::ObjectManager;
use dynac::table::Table;
use dynac::value::{ObjRef, Printed, Value};
use dynac::vm::Host;

fn parse_number(text: &str) -> u64 {
    text.parse::<f64>().map(|n| n.to_bits()).unwrap_or(0)
}

fn float(bits: u64) -> f64 {
    f64::from_bits(bits)
}

/// Reads number literals and compares numbers as the interpreter's host does.
struct NumberHost;

impl Host for NumberHost {
    fn spec_parse_number(&self, text: &str) -> u64 {
        self.parse_number(text)
    }
    fn spec_add(&self, a: u64, b: u64) -> u64 {
        self.add(a, b)
    }
    fn spec_subtract(&self, a: u64, b: u64) -> u64 {
        self.subtract(a, b)
    }
    fn spec_multiply(&self, a: u64, b: u64) -> u64 {
        self.multiply(a, b)
    }
    fn spec_divide(&self, a: u64, b: u64) -> u64 {
        self.divide(a, b)
    }
    fn spec_negate(&self, a: u64) -> u64 {
        self.negate(a)
    }
    fn spec_greater(&self, a: u64, b: u64) -> bool {
        self.greater(a, b)
    }
    fn spec_less(&self, a: u64, b: u64) -> bool {
        self.less(a, b)
    }
    fn spec_numbers_equal(&self, a: u64, b: u64) -> bool {
        self.numbers_equal(a, b)
    }
    fn parse_number(&self, text: &str) -> u64 {
        parse_number(text)
    }
    fn add(&self, a: u64, b: u64) -> u64 {
        (float(a) + float(b)).to_bits()
    }
    fn subtract(&self, a: u64, b: u64) -> u64 {
        (float(a) - float(b)).to_bits()
    }
    fn multiply(&self, a: u64, b: u64) -> u64 {
        (float(a) * float(b)).to_bits()
    }
    fn divide(&self, a: u64, b: u64) -> u64 {
        (float(a) / float(b)).to_bits()
    }
    fn negate(&self, a: u64) -> u64 {
        (-float(a)).to_bits()
    }
    fn greater(&self, a: u64, b: u64) -> bool {
        float(a) > float(b)
    }
    fn less(&self, a: u64, b: u64) -> bool {
        float(a) < float(b)
    }
    fn numbers_equal(&self, a: u64, b: u64) -> bool {
        (float(a) - float(b)).abs() < f64::EPSILON
    }
    fn index_number(&self, index: usize) -> u64 {
        (index as f64).to_bits()
    }
    fn call_native(&self, _native_id: usize) -> Result<u64, String> {
        Ok(0)
    }
    fn print(&self, _printed: Printed) {}
    fn warn(&self, _message: String) {}
}

fn number(n: f64) -> Value {
    Value::Number(n.to_bits())
}

fn function_of(parser: &Parser, r: ObjRef) -> ObjectFunction {
    match parser.object_manager().get(r) {
        Some(HeapObject::Function(f)) => ObjectFunction {
            object: f.object,
            arity: f.arity,
            chunk: f.chunk.clone(),
            name: f.name.clone(),
            upvalue_count: f.upvalue_count,
        },
        _ => panic!("not a function"),
    }
}

fn code_of(chunk: &Chunk) -> Vec<u8> {
    (0..chunk.len()).map(|i| chunk.read_from_offset(i).unwrap()).collect()
}

fn string_content(parser: &Parser, v: Value) -> String {
    match v {
        Value::Object(r) => match parser.object_manager().get(r) {
            Some(HeapObject::String(s)) => s.content.clone(),
            _ => panic!("not a string"),
        },
        _ => panic!("not an object"),
    }
}

fn compile(source: &'static str) -> (Parser<'static>, Option<ObjRef>) {
    let mut parser = Parser::new(ObjectManager::new(), Table::new());
    let result = parser.compile(source, &NumberHost);
    (parser, result)
}

#[test]
fn test_compile() {
    let mut object_manager = ObjectManager::new();
    let intern_strings = Table::new();
    let _ = &mut object_manager;
    let mut parser = Parser::new(object_manager, intern_strings);
    let result = parser.compile(r#"!(5 - 4 > 3 * 2 == !nil);"#, &NumberHost);
    assert!(result.is_some());

    let function = function_of(&parser, result.unwrap());
    let chunk = &function.chunk;

    assert!(*chunk.get_constant(0) == number(5.0));
    assert!(*chunk.get_constant(1) == number(4.0));

    assert!(chunk.read_from_offset(0).unwrap() == OpCode::Constant.to_byte());
    assert!(chunk.read_from_offset(1).unwrap() == 0);
    assert!(chunk.read_from_offset(2).unwrap() == OpCode::Constant.to_byte());
    assert!(chunk.read_from_offset(3).unwrap() == 1);
    assert!(chunk.read_from_offset(4).unwrap() == OpCode::Subtract.to_byte());
    assert!(chunk.read_from_offset(5).unwrap() == OpCode::Constant.to_byte());
    assert!(chunk.read_from_offset(6).unwrap() == 2);
    assert!(chunk.read_from_offset(7).unwrap() == OpCode::Constant.to_byte());
    assert!(chunk.read_from_offset(8).unwrap() == 3);
    assert!(chunk.read_from_offset(9).unwrap() == OpCode::Multiply.to_byte());
    assert!(chunk.read_from_offset(10).unwrap() == OpCode::Greater.to_byte());
    assert!(chunk.read_from_offset(11).unwrap() == OpCode::Nil.to_byte());
    assert!(chunk.read_from_offset(12).unwrap() == OpCode::Not.to_byte());
    assert!(chunk.read_from_offset(13).unwrap() == OpCode::Equal.to_byte());
    assert!(chunk.read_from_offset(14).unwrap() == OpCode::Not.to_byte());
    assert!(chunk.read_from_offset(15).unwrap() == OpCode::Pop.to_byte());
    assert!(chunk.read_from_offset(16).unwrap() == OpCode::Nil.to_byte());
    assert!(chunk.read_from_offset(17).unwrap() == OpCode::Return.to_byte());
}

#[test]
fn test_intern_strings() {
    let object_manager = ObjectManager::new();
    let intern_strings = Table::new();
    let mut parser = Parser::new(object_manager, intern_strings);

    let result = parser.compile(r#""this is a test string";"#, &NumberHost);
    assert!(result.is_some());

    let (object_manager, intern_strings) = parser.into_parts();
    parser = Parser::new(object_manager, intern_strings);
    let result = parser.compile(r#""this is a test string";"#, &NumberHost);
    assert!(result.is_some());

    assert!(parser.intern_strings().len() == 1);
}

#[test]
fn test_function_declaration() {
    let object_manager = ObjectManager::new();
    let intern_strings = Table::new();
    let mut parser = Parser::new(object_manager, intern_strings);

    let result = parser.compile(
        r#"fn areWeHavingItYet() {
                        print "Yes we are!";
                    }
                    print areWeHavingItYet;"#,
        &NumberHost,
    );
    assert!(result.is_some());
}

#[test]
fn test_function_with_arguments() {
    let object_manager = ObjectManager::new();
    let intern_strings = Table::new();
    let mut parser = Parser::new(object_manager, intern_strings);

    let result = parser.compile(
        r#"fn sum(a, b, c) {
                        return a + b + c;
                    }
                    print 4 + sum(5, 6, 7);"#,
        &NumberHost,
    );
    assert!(result.is_some());
}

#[test]
fn compiles_global_variable_definition() {
    let (parser, result) = compile(r#"var beverage = "coffee";"#);
    let function = function_of(&parser, result.unwrap());
    let code = code_of(&function.chunk);
    // constant 0 is the name, constant 1 the value
    assert_eq!(
        code,
        vec![
            OpCode::Constant.to_byte(),
            1,
            OpCode::DefineGlobal.to_byte(),
            0,
            OpCode::Nil.to_byte(),
            OpCode::Return.to_byte()
        ]
    );
    assert_eq!(string_content(&parser, *function.chunk.get_constant(0)), "beverage");
    assert_eq!(string_content(&parser, *function.chunk.get_constant(1)), "coffee");
}

#[test]
fn compiles_block_locals_with_pops() {
    let (parser, result) = compile("{ var a = 1; var b = 2; }");
    let function = function_of(&parser, result.unwrap());
    let code = code_of(&function.chunk);
    assert_eq!(
        code,
        vec![
            OpCode::Constant.to_byte(),
            0,
            OpCode::Constant.to_byte(),
            1,
            OpCode::Pop.to_byte(),
            OpCode::Pop.to_byte(),
            OpCode::Nil.to_byte(),
            OpCode::Return.to_byte()
        ]
    );
}

#[test]
fn compiles_if_with_patched_jumps() {
    let (parser, result) = compile("if (true) print 1;");
    let function = function_of(&parser, result.unwrap());
    let code = code_of(&function.chunk);
    assert_eq!(
        code,
        vec![
            OpCode::True.to_byte(),
            OpCode::JumpIfFalse.to_byte(),
            0,
            7,
            OpCode::Pop.to_byte(),
            OpCode::Constant.to_byte(),
            0,
            OpCode::Print.to_byte(),
            OpCode::Jump.to_byte(),
            0,
            1,
            OpCode::Pop.to_byte(),
            OpCode::Nil.to_byte(),
            OpCode::Return.to_byte()
        ]
    );
}

#[test]
fn compiles_while_with_backward_loop() {
    let (parser, result) = compile("while (false) print 1;");
    let function = function_of(&parser, result.unwrap());
    let code = code_of(&function.chunk);
    assert_eq!(
        code,
        vec![
            OpCode::False.to_byte(),
            OpCode::JumpIfFalse.to_byte(),
            0,
            7,
            OpCode::Pop.to_byte(),
            OpCode::Constant.to_byte(),
            0,
            OpCode::Print.to_byte(),
            OpCode::Loop.to_byte(),
            0,
            11,
            OpCode::Pop.to_byte(),
            OpCode::Nil.to_byte(),
            OpCode::Return.to_byte()
        ]
    );
}

#[test]
fn repeated_constant_is_shared() {
    let (parser, result) = compile("print 1 + 1;");
    let function = function_of(&parser, result.unwrap());
    let code = code_of(&function.chunk);
    assert_eq!(
        code,
        vec![
            OpCode::Constant.to_byte(),
            0,
            OpCode::Constant.to_byte(),
            0,
            OpCode::Add.to_byte(),
            OpCode::Print.to_byte(),
            OpCode::Nil.to_byte(),
            OpCode::Return.to_byte()
        ]
    );
}

#[test]
fn closure_captures_enclosing_local() {
    let (parser, result) = compile("fn outer() { var x = 1; fn inner() { print x; } }");
    assert!(result.is_some());
    // the script defines `outer`; `outer` makes a closure over its local slot 1
    let script = function_of(&parser, result.unwrap());
    let outer_value = (0..)
        .map(|i| *script.chunk.get_constant(i))
        .find(|v| matches!(v, Value::Object(r) if matches!(parser.object_manager().get(*r), Some(HeapObject::Function(_)))))
        .unwrap();
    let outer = match outer_value {
        Value::Object(r) => function_of(&parser, r),
        _ => unreachable!(),
    };
    assert_eq!(outer.name, "outer");
    let code = code_of(&outer.chunk);
    let closure_at = code.iter().position(|b| *b == OpCode::Closure.to_byte()).unwrap();
    assert_eq!(code[closure_at + 2], 1); // captures a local
    assert_eq!(code[closure_at + 3], 1); // slot 1
}

#[test]
fn reports_error_at_token() {
    let (parser, result) = compile("var = 1;");
    assert!(result.is_none());
    assert_eq!(
        parser.errors()[0],
        CompileError {
            line: 1,
            location: ErrorLocation::AtToken("=".to_string()),
            message: "Expect variable name.".to_string()
        }
    );
}

#[test]
fn reports_error_at_end() {
    let (parser, result) = compile("print 1");
    assert!(result.is_none());
    assert_eq!(parser.errors()[0].location, ErrorLocation::AtEnd);
    assert_eq!(parser.errors()[0].message, "Expect ';' after value.");
}

#[test]
fn reports_top_level_return() {
    let (parser, result) = compile("return 1;");
    assert!(result.is_none());
    assert_eq!(parser.errors()[0].message, "Can't return from top-level code.");
}

#[test]
fn reports_returning_stack_struct() {
    let (parser, result) = compile("struct P { x } fn make() { return P { x = 1 }; }");
    assert!(result.is_none());
    assert_eq!(
        parser.errors()[0].message,
        "Cannot return stack-allocated struct literal; use 'new' to allocate on heap."
    );
}

#[test]
fn reports_scanner_error_unplaced() {
    let (parser, result) = compile("print 1 # 2;");
    assert!(result.is_none());
    assert_eq!(parser.errors()[0].location, ErrorLocation::Unplaced);
    assert_eq!(parser.errors()[0].message, "Unexpected character.");
}

#[test]
fn reports_duplicate_local() {
    let (parser, result) = compile("{ var a = 1; var a = 2; }");
    assert!(result.is_none());
    assert_eq!(parser.errors()[0].message, "Already a variable with this name in this scope.");
}

#[test]
fn reports_reading_local_in_own_initializer() {
    let (parser, result) = compile("{ var a = a; }");
    assert!(result.is_none());
    assert_eq!(parser.errors()[0].message, "Can't read local variable in its own initializer.");
}

#[test]
fn compiles_struct_trait_and_impl() {
    let (parser, result) = compile(
        "struct Point { x, y, } trait Show { fn show(); } impl Show for Point { fn show() { print 1; } } var p = new Point { x = 1, y = 2 }; print p.x;",
    );
    assert!(result.is_some(), "{:?}", parser.errors());
}

#[test]
fn errors_recover_and_continue() {
    let (parser, result) = compile("var = 1; print 2 print 3;");
    assert!(result.is_none());
    assert_eq!(parser.errors().len(), 2);
}

#[test]
fn compiles_for_with_increment_and_exit() {
    let (parser, result) = compile("for (var i = 0; i < 2; i = i + 1) print i;");
    let function = function_of(&parser, result.unwrap());
    let code = code_of(&function.chunk);
    assert_eq!(
        code,
        vec![
            OpCode::Constant.to_byte(),
            0,
            OpCode::GetLocal.to_byte(),
            1,
            OpCode::Constant.to_byte(),
            1,
            OpCode::Less.to_byte(),
            OpCode::JumpIfFalse.to_byte(),
            0,
            21,
            OpCode::Pop.to_byte(),
            OpCode::Jump.to_byte(),
            0,
            11,
            OpCode::GetLocal.to_byte(),
            1,
            OpCode::Constant.to_byte(),
            2,
            OpCode::Add.to_byte(),
            OpCode::SetLocal.to_byte(),
            1,
            OpCode::Pop.to_byte(),
            OpCode::Loop.to_byte(),
            0,
            23,
            OpCode::GetLocal.to_byte(),
            1,
            OpCode::Print.to_byte(),
            OpCode::Loop.to_byte(),
            0,
            17,
            OpCode::Pop.to_byte(),
            OpCode::Pop.to_byte(),
            OpCode::Nil.to_byte(),
            OpCode::Return.to_byte()
        ]
    );
}

#[test]
fn compiles_and_with_short_circuit_jump() {
    let (parser, result) = compile("print true and false;");
    let function = function_of(&parser, result.unwrap());
    let code = code_of(&function.chunk);
    assert_eq!(
        code,
        vec![
            OpCode::True.to_byte(),
            OpCode::JumpIfFalse.to_byte(),
            0,
            2,
            OpCode::Pop.to_byte(),
            OpCode::False.to_byte(),
            OpCode::Print.to_byte(),
            OpCode::Nil.to_byte(),
            OpCode::Return.to_byte()
        ]
    );
}

#[test]
fn compiles_struct_declaration_with_field_names() {
    let (parser, result) = compile("struct Point { x, y }");
    let function = function_of(&parser, result.unwrap());
    let code = code_of(&function.chunk);
    assert_eq!(code.len(), 7);
    assert_eq!(code[0], OpCode::StructType.to_byte());
    assert_eq!(code[2], 2);
    assert_eq!(string_content(&parser, *function.chunk.get_constant(code[1] as usize)), "Point");
    assert_eq!(string_content(&parser, *function.chunk.get_constant(code[3] as usize)), "x");
    assert_eq!(string_content(&parser, *function.chunk.get_constant(code[4] as usize)), "y");
}

#[test]
fn reports_duplicate_struct_field() {
    let (parser, result) = compile("struct Point { x, x }");
    assert!(result.is_none());
    assert_eq!(parser.errors()[0].message, "Duplicate field name in struct.");
}

#[test]
fn reports_duplicate_field_in_struct_literal() {
    let (parser, result) = compile("struct P { x } var p = P { x = 1, x = 2 };");
    assert!(result.is_none());
    assert_eq!(parser.errors()[0].message, "Duplicate field in struct literal.");
}

#[test]
fn test_blank_source_compiles_to_bare_return() {
    let (parser, result) = compile("  // only a comment\n\t ");
    let f = function_of(&parser, result.expect("blank source compiles"));
    assert_eq!(
        code_of(&f.chunk),
        vec![OpCode::Nil.to_byte(), OpCode::Return.to_byte()]
    );
}

#[test]
fn test_rejected_first_token_fails() {
    let (parser, result) = compile("@ 1;");
    assert!(result.is_none());
    assert!(!parser.errors().is_empty());
}

#[test]
fn test_empty_trait_compiles() {
    let (_parser, result) = compile("trait Empty {}");
    assert!(result.is_some());
}

#[test]
fn test_empty_struct_literal_compiles() {
    let (_parser, result) = compile("struct Unit {} var u = Unit {};");
    assert!(result.is_some());
}

#[test]
fn test_trait_declares_its_method_names_in_order() {
    let (parser, result) = compile("trait Shape { fn area(); fn scale(factor, extra); }");
    let f = function_of(&parser, result.expect("trait compiles"));
    let code = code_of(&f.chunk);
    assert_eq!(code[0], OpCode::ImplementTrait.to_byte());
    assert_eq!(string_content(&parser, *f.chunk.get_constant(code[1] as usize)), "Shape");
    assert_eq!(code[2], 2);
    assert_eq!(string_content(&parser, *f.chunk.get_constant(code[3] as usize)), "area");
    assert_eq!(string_content(&parser, *f.chunk.get_constant(code[4] as usize)), "scale");
}

#[test]
fn test_return_at_top_level_is_an_error() {
    let (parser, result) = compile("return 1;");
    assert!(result.is_none());
    assert!(!parser.errors().is_empty());
}
