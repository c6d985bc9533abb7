use std::cell::RefCell;
use std::time::{SystemTime, UNIX_EPOCH};

use dynac::value::Printed;
use dynac::vm::{Host, InterpretResult, VM};

struct TestHost {
    printed: RefCell<Vec<String>>,
}

impl TestHost {
    fn new() -> Self {
        TestHost { printed: RefCell::new(Vec::new()) }
    }
}

fn number_text(value: f64) -> String {
    if value.fract() == 0.0 {
        format!("{}", value as i64)
    } else {
        let formatted = format!("{:.10}", value).trim_end_matches('0').to_string();
        formatted.trim_end_matches('.').to_string()
    }
}

impl Host for TestHost {
    fn spec_parse_number(&self, text: &str) -> u64 {
        self.parse_number(text)
    }
    fn spec_add(&self, a: u64, b: u64) -> u64 {
        self.add(a, b)
    }
    fn spec_subtract(&self, a: u64, b: u64) -> u64 {
        self.subtract(a, b)
    }
    fn spec_multiply(&self, a: u64, b: u64) -> u64 {
        self.multiply(a, b)
    }
    fn spec_divide(&self, a: u64, b: u64) -> u64 {
        self.divide(a, b)
    }
    fn spec_negate(&self, a: u64) -> u64 {
        self.negate(a)
    }
    fn spec_greater(&self, a: u64, b: u64) -> bool {
        self.greater(a, b)
    }
    fn spec_less(&self, a: u64, b: u64) -> bool {
        self.less(a, b)
    }
    fn spec_numbers_equal(&self, a: u64, b: u64) -> bool {
        self.numbers_equal(a, b)
    }
    fn parse_number(&self, text: &str) -> u64 {
        text.parse::<f64>().map(|n| n.to_bits()).unwrap_or(0)
    }
    fn add(&self, a: u64, b: u64) -> u64 {
        (f64::from_bits(a) + f64::from_bits(b)).to_bits()
    }
    fn subtract(&self, a: u64, b: u64) -> u64 {
        (f64::from_bits(a) - f64::from_bits(b)).to_bits()
    }
    fn multiply(&self, a: u64, b: u64) -> u64 {
        (f64::from_bits(a) * f64::from_bits(b)).to_bits()
    }
    fn divide(&self, a: u64, b: u64) -> u64 {
        (f64::from_bits(a) / f64::from_bits(b)).to_bits()
    }
    fn negate(&self, a: u64) -> u64 {
        (-f64::from_bits(a)).to_bits()
    }
    fn greater(&self, a: u64, b: u64) -> bool {
        f64::from_bits(a) > f64::from_bits(b)
    }
    fn less(&self, a: u64, b: u64) -> bool {
        f64::from_bits(a) < f64::from_bits(b)
    }
    fn numbers_equal(&self, a: u64, b: u64) -> bool {
        (f64::from_bits(a) - f64::from_bits(b)).abs() < f64::EPSILON
    }
    fn index_number(&self, index: usize) -> u64 {
        (index as f64).to_bits()
    }
    fn call_native(&self, _native_id: usize) -> Result<u64, String> {
        let millis = SystemTime::now().duration_since(UNIX_EPOCH).unwrap().as_millis();
        Ok((millis as f64).to_bits())
    }
    fn print(&self, printed: Printed) {
        let text = match printed {
            Printed::Number(bits) => number_text(f64::from_bits(bits)),
            Printed::Text(t) => t,
        };
        self.printed.borrow_mut().push(text);
    }
    fn warn(&self, _message: String) {}
}

fn run(vm: &mut VM, host: &TestHost, source: &str) -> InterpretResult {
    match vm.interpret(source, host) {
        Err(_) => InterpretResult::InterpretCompileError,
        Ok(()) => loop {
            let (result, printed) = vm.step(host);
            if let Some(p) = printed {
                host.print(p);
            }
            match result {
                Ok(None) => continue,
                Ok(Some(result)) => return result,
                Err(_) => return InterpretResult::InterpretRuntimeError,
            }
        },
    }
}

struct Session {
    vm: VM,
    host: TestHost,
}

impl Session {
    fn new() -> Self {
        Session { vm: VM::new(), host: TestHost::new() }
    }
    fn interpret(&mut self, source: &str) -> InterpretResult {
        run(&mut self.vm, &self.host, source)
    }
    fn printed(&self) -> Vec<String> {
        self.host.printed.borrow().clone()
    }
}

#[test]
fn test_comparison_expression() {
    let mut vm = Session::new();
    assert!(vm.interpret(r"!(5 - 4 > 3 * 2 == !nil);") == InterpretResult::InterpretOk);
}

#[test]
fn test_string_concatenate() {
    let mut vm = Session::new();
    assert!(vm.interpret(r#""st" + "ri" + "ng";"#) == InterpretResult::InterpretOk);
}

#[test]
fn test_print_statement() {
    let mut vm = Session::new();
    assert!(vm.interpret(r#"print 1 + 2; print 3 * 4;"#) == InterpretResult::InterpretOk);
    assert_eq!(vm.printed(), vec!["3", "12"]);
}

#[test]
fn test_print_global_var() {
    let mut vm = Session::new();
    assert!(vm.interpret(
        r#"var beverage = "coffee"; 
                var breakfast = "beignets with " + beverage;
                print breakfast;"#
    ) == InterpretResult::InterpretOk);
    assert_eq!(vm.printed(), vec!["beignets with coffee"]);
}

#[test]
fn test_define_global_var() {
    let mut vm = Session::new();
    assert!(vm.interpret(r#"var beverage = "coffee";"#) == InterpretResult::InterpretOk);
}

#[test]
fn test_print_local_var() {
    let mut vm = Session::new();
    assert!(vm.interpret(r#"{var a = "hello world!"; a = "111"; print a;}"#) == InterpretResult::InterpretOk);
    assert!(vm.interpret(
        r#"{
                                var a = "the first";
                                {
                                    var a = "the second";
                                    print a;
                                }
                                print a;
                            }"#
    ) == InterpretResult::InterpretOk);
    assert_eq!(vm.printed(), vec!["111", "the second", "the first"]);
}

#[test]
fn test_if_statement() {
    let mut vm = Session::new();
    assert!(vm.interpret(
        r#"print "test if statement...";
                            if (1 > 0) {
                                print "'1 > 0' is true";
                            }"#
    ) == InterpretResult::InterpretOk);
}

#[test]
fn test_else_statement() {
    let mut vm = Session::new();
    assert!(vm.interpret(
        r#"print "test else clause...";
                            if (1 < 0) {
                                print "'1 < 0' is true";
                            } else {
                                print "'1 < 0' is false";
                            }"#
    ) == InterpretResult::InterpretOk);
    assert_eq!(vm.printed(), vec!["test else clause...", "'1 < 0' is false"]);
}

#[test]
fn test_and_operator() {
    let mut vm = Session::new();
    assert!(vm.interpret(
        r#"print "test and operator...";
                            if ( 1 > 0 and 2 > 1) {
                                print "'1 > 0 and 2 > 1' is true";
                            } else {
                                print "'1 > 0 and 2 > 1' is false";
                            }
                            
                            if ( 1 > 0 and 2 < 1) {
                                print "'1 > 0 and 2 < 1' is true";
                            } else {
                                print "'1 > 0 and 2 < 1' is false";
                            }"#
    ) == InterpretResult::InterpretOk);
    assert_eq!(
        vm.printed(),
        vec!["test and operator...", "'1 > 0 and 2 > 1' is true", "'1 > 0 and 2 < 1' is false"]
    );
}

#[test]
fn test_or_operator() {
    let mut vm = Session::new();
    assert!(vm.interpret(
        r#"print "test or operator...";
                            if ( 1 > 0 or 2 > 1) {
                                print "'1 > 0 or 2 > 1' is true";
                            } else {
                                print "'1 > 0 or 2 > 1' is false";
                            }
                            
                            if ( 1 > 0 or 2 < 1) {
                                print "'1 > 0 or 2 < 1' is true";
                            } else {
                                print "'1 > 0 or 2 < 1' is false";
                            }"#
    ) == InterpretResult::InterpretOk);
}

#[test]
fn test_while_statement() {
    let mut vm = Session::new();
    assert!(vm.interpret(
        r#"print "test while statement...";
                            var count = 1;
                            while (count > 0) {
                                print count;
                                count = count - 1;
                            }"#
    ) == InterpretResult::InterpretOk);
    assert_eq!(vm.printed(), vec!["test while statement...", "1"]);
}

#[test]
fn test_for_statement() {
    let mut vm = Session::new();
    let result = vm.interpret(
        r#"print "test for statement...";
                            for(var i = 0; i < 2; i = i + 1) {
                                print i;
                            }
                            var i = 0;
                            for (; i < 2; i = i + 1) {
                                print i;
                            }
                            i = 0;
                            for (; i < 1;) {
                                print i;
                                i = i + 1;
                            }"#,
    );
    assert!(result == InterpretResult::InterpretOk);
    assert_eq!(vm.printed(), vec!["test for statement...", "0", "1", "0", "1", "0"]);
}

#[test]
fn test_function_call() {
    let mut vm = Session::new();
    let result = vm.interpret(
        r#"fn sum(a, b, c) {
                        return a + b + c;
                    }
                    print 4 + sum(5, 6, 7);"#,
    );
    assert!(result == InterpretResult::InterpretOk);
    assert_eq!(vm.printed(), vec!["22"]);
}

#[test]
fn test_native_function_call() {
    let mut vm = Session::new();
    let result = vm.interpret(r#"print clock();"#);
    assert!(result == InterpretResult::InterpretOk);
}

#[test]
fn test_fib_function() {
    let mut vm = Session::new();
    let result = vm.interpret(
        r#"
            fn fib(number) {
                if (number < 2) {
                    return number;
                }

                return fib(number - 2) + fib(number - 1);
            }
            
            var start = clock();
            var result = fib(5);
            print result;
            var end = clock();
            print end - start;"#,
    );
    assert!(result == InterpretResult::InterpretOk);
    assert_eq!(vm.printed()[0], "5");
}

#[test]
fn test_closure() {
    let mut vm = Session::new();
    let result = vm.interpret(
        r#"
            fn outer() {
                var x = "outside";
                fn inner() {
                    print x;
                }
                return inner;
            }
            var closure = outer();
            closure();"#,
    );
    assert!(result == InterpretResult::InterpretOk);
    assert_eq!(vm.printed(), vec!["outside"]);
}

#[test]
fn test_closure_with_shared_variable() {
    let mut vm = Session::new();
    let result = vm.interpret(
        r#"
            var globalSet;
            var globalGet;

            fn main() {
                var a = "initial";

                fn set(value) { a = value; }
                fn get() { print a; }

                globalSet = set;
                globalGet = get;
            }

            main();
            globalSet("updated");
            globalGet();
            globalSet("initial");
            globalGet();"#,
    );
    assert!(result == InterpretResult::InterpretOk);
    assert_eq!(vm.printed(), vec!["updated", "initial"]);
}

#[test]
fn test_gc_pressure_many_strings() {
    let mut vm = Session::new();
    vm.vm.set_gc_threshold(0);
    let script = r#"
            var s = "";
            var i = 0;
            while (i < 1500) {
                s = s + "abcdefgh";
                i = i + 1;
            }"#;
    let result = vm.interpret(script);
    assert_eq!(result, InterpretResult::InterpretOk);
    assert!(vm.vm.gc_stats().cycles > 0, "Expected GC cycles > 0, got {}", vm.vm.gc_stats().cycles);
}

#[test]
fn test_gc_pressure_functions_and_closures_original() {
    let mut vm = Session::new();
    vm.vm.set_gc_threshold(0);
    let script = r#"
            var i = 0;
            while (i < 300) {
                fn f() {
                    return i;
                }
                f();
                i = i + 1;
            }"#;
    let result = vm.interpret(script);
    assert_eq!(result, InterpretResult::InterpretOk);
    assert!(vm.vm.gc_stats().cycles > 0, "Expected GC cycles > 0, got {}", vm.vm.gc_stats().cycles);
}

#[test]
fn test_trait_impl_parsing_only() {
    let mut vm = Session::new();
    let script = r#"
            trait Printable {
                fn print_self();
                fn clone();
            }

            impl Printable for string {
                fn print_self() { print "impl running"; }
                fn clone() { print "clone"; }
            }

            print "after trait/impl";
        "#;
    let result = vm.interpret(script);
    assert_eq!(result, InterpretResult::InterpretOk);
}

#[test]
fn test_struct_declaration_parsing_only() {
    let mut vm = Session::new();
    let script = r#"
            struct Point { x, y, }
            print "struct parsed";
        "#;
    let result = vm.interpret(script);
    assert_eq!(result, InterpretResult::InterpretOk);
}

#[test]
fn test_struct_literal_basic() {
    let mut vm = Session::new();
    let script = r#"
            struct Point { x, y }
            var p = Point { x = 1, y = 2 };
            print p.x; // expect 1
            print p.y; // expect 2
        "#;
    let result = vm.interpret(script);
    assert_eq!(result, InterpretResult::InterpretOk);
    assert_eq!(vm.printed(), vec!["1", "2"]);
}

#[test]
fn test_struct_literal_field_order_swap() {
    let mut vm = Session::new();
    let script = r#"
            struct Point { x, y }
            var p = Point { y = 5, x = 3 }; // order reversed
            print p.x; // expect 3
            print p.y; // expect 5
        "#;
    let result = vm.interpret(script);
    assert_eq!(result, InterpretResult::InterpretOk);
    assert_eq!(vm.printed(), vec!["3", "5"]);
}

#[test]
fn test_struct_field_assignment() {
    let mut vm = Session::new();
    let script = r#"
            struct Point { x, y }
            var p = Point { x = 10, y = 20 };
            p.x = 42;
            print p.x; // expect 42
            p.y = p.x + 1; // 43
            print p.y; // expect 43
        "#;
    let result = vm.interpret(script);
    assert_eq!(result, InterpretResult::InterpretOk);
    assert_eq!(vm.printed(), vec!["42", "43"]);
}

#[test]
fn test_struct_literal_missing_field_error() {
    let mut vm = Session::new();
    let script = r#"
            struct Point { x, y }
            var p = Point { x = 1 }; // missing y
        "#;
    let result = vm.interpret(script);
    assert_eq!(result, InterpretResult::InterpretRuntimeError);
}

#[test]
fn test_struct_field_wrong_receiver_errors() {
    let mut vm = Session::new();
    let script_get = r#"
            var a = 1; a.value; // invalid get
        "#;
    assert_eq!(vm.interpret(script_get), InterpretResult::InterpretRuntimeError);

    let mut vm2 = Session::new();
    let script_set = r#"
            var a = 1; a.value = 2; // invalid set
        "#;
    assert_eq!(vm2.interpret(script_set), InterpretResult::InterpretRuntimeError);
}

#[test]
fn test_new_struct_literal_basic() {
    let mut vm = Session::new();
    let script = r#"
            struct Point { x, y }
            var p = new Point { x = 7, y = 9 };
            print p.x; // 7
            print p.y; // 9
        "#;
    assert_eq!(vm.interpret(script), InterpretResult::InterpretOk);
    assert_eq!(vm.printed(), vec!["7", "9"]);
}

#[test]
fn test_new_struct_field_assignment() {
    let mut vm = Session::new();
    let script = r#"
            struct Point { x, y }
            var p = new Point { x = 0, y = 0 };
            p.x = 11;
            p.y = p.x + 1; // 12
            print p.x; print p.y;
        "#;
    assert_eq!(vm.interpret(script), InterpretResult::InterpretOk);
    assert_eq!(vm.printed(), vec!["11", "12"]);
}

#[test]
fn test_return_stack_struct_compile_error() {
    let mut vm = Session::new();
    let script = r#"
            struct Point { x, y }
            fn make() { return Point { x = 1, y = 2 }; }
        "#;
    assert_eq!(vm.interpret(script), InterpretResult::InterpretCompileError);
}

#[test]
fn test_return_heap_struct_allowed() {
    let mut vm = Session::new();
    let script = r#"
            struct Point { x, y }
            fn make() { return new Point { x = 1, y = 2 }; }
            var p = make();
            print p.x; print p.y;
        "#;
    assert_eq!(vm.interpret(script), InterpretResult::InterpretOk);
    assert_eq!(vm.printed(), vec!["1", "2"]);
}

#[test]
fn test_closure_captures_promoted_struct() {
    let mut vm = Session::new();
    let script = r#"
            struct Point { x, y }
            fn makeGetter() {
                var p = Point { x = 3, y = 4 };
                fn getX() { return p.x; }
                return getX;
            }
            var gx = makeGetter();
            print gx(); // expect 3
        "#;
    assert_eq!(vm.interpret(script), InterpretResult::InterpretOk);
    assert_eq!(vm.printed(), vec!["3"]);
}

#[test]
fn test_global_promotion_struct() {
    let mut vm = Session::new();
    let script = r#"
            struct Point { x, y }
            var gp = Point { x = 10, y = 20 }; // should promote to heap
            gp.x = 15;
            print gp.x; // expect 15
        "#;
    assert_eq!(vm.interpret(script), InterpretResult::InterpretOk);
    assert_eq!(vm.printed(), vec!["15"]);
}

#[test]
fn test_return_expression() {
    let mut vm = Session::new();
    let script = r#"
            fn f() { return 1 + 2; }
            print f(); // expect 3
        "#;
    assert_eq!(vm.interpret(script), InterpretResult::InterpretOk);
    assert_eq!(vm.printed(), vec!["3"]);
}

#[test]
fn test_nested_struct_promotion_in_global() {
    let mut vm = Session::new();
    let script = r#"
            struct Inner { a }
            struct Outer { i }
            var g = Outer { i = Inner { a = 7 } }; // promotion should deep-copy inner
            print g.i.a; // expect 7
        "#;
    assert_eq!(vm.interpret(script), InterpretResult::InterpretOk);
    assert_eq!(vm.printed(), vec!["7"]);
}

#[test]
fn test_nested_struct_promotion_in_closure() {
    let mut vm = Session::new();
    let script = r#"
            struct Inner { a }
            struct Outer { i }
            fn make() {
                var o = Outer { i = Inner { a = 42 } };
                fn get() { return o.i.a; }
                return get;
            }
            var g = make();
            print g(); // expect 42
        "#;
    assert_eq!(vm.interpret(script), InterpretResult::InterpretOk);
    assert_eq!(vm.printed(), vec!["42"]);
}

#[test]
fn test_heap_instance_assignment_alias() {
    let mut vm = Session::new();
    let script = r#"
            struct Point { x, y }
            var p = new Point { x = 1, y = 2 };
            var q = p; // alias, no deep copy
            q.x = 99;
            print p.x; // expect 99
        "#;
    assert_eq!(vm.interpret(script), InterpretResult::InterpretOk);
    assert_eq!(vm.printed(), vec!["99"]);
}

#[test]
fn test_heap_instance_pass_by_reference() {
    let mut vm = Session::new();
    let script = r#"
            struct Point { x, y }
            fn setX(pt) { pt.x = 77; }
            var p = new Point { x = 1, y = 2 };
            setX(p);
            print p.x; // expect 77
        "#;
    assert_eq!(vm.interpret(script), InterpretResult::InterpretOk);
    assert_eq!(vm.printed(), vec!["77"]);
}

#[test]
fn test_stack_instance_assignment_alias_same_frame() {
    let mut vm = Session::new();
    let script = r#"
            struct P { a }
            {
                var s = P { a = 5 };
                var t = s; // alias same stack struct within frame
                t.a = 8;
                print s.a; // expect 8
            }
        "#;
    assert_eq!(vm.interpret(script), InterpretResult::InterpretOk);
    assert_eq!(vm.printed(), vec!["8"]);
}

#[test]
fn test_trait_invoke_on_struct() {
    let mut vm = Session::new();
    let script = r#"
            struct Point { x, y }

            trait Summable {
                fn sum();
                fn add(v);
            }

            impl Summable for Point {
                fn sum() { return self.x + self.y; }
                fn add(v) { return self.x + self.y + v; }
            }

            var p = new Point { x = 2, y = 3 };
            print p.sum(); // 5
            print p.add(5); // 10
        "#;
    assert_eq!(vm.interpret(script), InterpretResult::InterpretOk);
}

#[test]
fn test_invoke_unknown_method_errors() {
    let mut vm = Session::new();
    let script = r#"
            struct Point { x, y }
            var p = new Point { x = 1, y = 2 };
            p.nope(); // no impl registered
        "#;
    assert_eq!(vm.interpret(script), InterpretResult::InterpretRuntimeError);
}

#[test]
fn test_globals_change_only_at_definitions() {
    let mut vm = VM::new();
    let host = TestHost::new();
    assert!(vm.interpret("var a = 1; print a + 2; var b = a;", &host).is_ok());
    let mut sizes: Vec<usize> = vec![vm.globals().len()];
    loop {
        let (result, printed) = vm.step(&host);
        if let Some(p) = printed {
            host.print(p);
        }
        match result {
            Ok(None) => sizes.push(vm.globals().len()),
            Ok(Some(result)) => {
                assert_eq!(result, InterpretResult::InterpretOk);
                break;
            },
            Err(e) => panic!("{}", e),
        }
    }
    let changes = sizes.windows(2).filter(|w| w[0] != w[1]).count();
    assert_eq!(changes, 2);
    assert_eq!(sizes.last().copied(), Some(3));
    assert_eq!(host.printed.borrow().clone(), vec!["3".to_string()]);
}

#[test]
fn test_method_survives_collection_while_running() {
    let mut vm = VM::new();
    vm.set_gc_threshold(0);
    let host = TestHost::new();
    let script = r#"
        struct Counter { n }
        trait Count { fn twice(); }
        impl Count for Counter {
            fn twice() {
                var parts = "a" + "b";
                var more = parts + "c";
                return self.n + self.n;
            }
        }
        var c = new Counter { n = 21 };
        print c.twice();
    "#;
    assert_eq!(run(&mut vm, &host, script), InterpretResult::InterpretOk);
    assert_eq!(host.printed.borrow().clone(), vec!["42".to_string()]);
    assert!(vm.gc_stats().cycles > 0);
}

#[test]
fn test_struct_literal_fields_in_any_order() {
    let mut vm = Session::new();
    let script = r#"
        struct Pair { x, y }
        fn f() {
            var p = Pair { y = 2, x = 1 };
            print p.x;
            print p.y;
        }
        f();
        var q = new Pair { y = 4, x = 3 };
        print q.x - q.y;
    "#;
    assert_eq!(vm.interpret(script), InterpretResult::InterpretOk);
    assert_eq!(vm.printed(), vec!["1".to_string(), "2".to_string(), "-1".to_string()]);
}

#[test]
fn test_variable_without_initializer_is_nil() {
    let mut vm = Session::new();
    assert!(vm.interpret(r#"var empty; print empty; { var inner; print inner; }"#) == InterpretResult::InterpretOk);
    assert_eq!(vm.printed(), vec!["nil", "nil"]);
}

#[test]
fn test_for_statement_without_increment() {
    let mut vm = Session::new();
    assert!(vm.interpret(r#"for (var i = 0; i < 3;) { print i; i = i + 1; }"#) == InterpretResult::InterpretOk);
    assert_eq!(vm.printed(), vec!["0", "1", "2"]);
}

#[test]
fn test_arithmetic_operand_order() {
    let mut vm = Session::new();
    assert!(vm.interpret(r#"print 5 - 3; print 8 / 2; print 2 > 1; print 2 < 1; print -4;"#) == InterpretResult::InterpretOk);
    assert_eq!(vm.printed(), vec!["2", "4", "true", "false", "-4"]);
}

#[test]
fn test_number_constants_within_epsilon_are_shared() {
    let mut vm = Session::new();
    assert!(vm.interpret(r#"var a = 0.00000000000000001; print 0.00000000000000002 * 100000000000000000;"#) == InterpretResult::InterpretOk);
    assert_eq!(vm.printed(), vec!["1"]);
}
