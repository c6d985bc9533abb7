use dynac::gc::GarbageCollector;
use dynac::objects::object::HeapObject;
use dynac::objects::object_manager::ObjectManager;
use dynac::table::Table;
use dynac::value::{ObjRef, Value};

fn value_from_object(r: ObjRef) -> Value {
    Value::Object(r)
}

#[test]
fn gc_collects_unreachable_objects() {
    let mut manager = ObjectManager::new();
    let (keep, _) = manager.alloc_string("keep");
    let (_drop1, _) = manager.alloc_string("drop1");
    let (_drop2, _) = manager.alloc_string("drop2");
    let (_drop3, _) = manager.alloc_string("drop3");

    let mut gc = GarbageCollector::new();
    let mut stack = [Value::new(); 8];
    stack[0] = value_from_object(keep);
    let stack_top = 1;
    let globals = Table::new();
    let frames: Vec<usize> = vec![];
    let open_upvalues: Vec<ObjRef> = vec![];

    let intern_strings = Table::new();
    gc.prepare_collection(&manager);
    gc.mark_roots(&stack, stack_top, &globals, &intern_strings, &frames, &open_upvalues);
    gc.trace_references(&manager, &stack);
    let freed = gc.sweep(&mut manager);
    assert!(freed > 0, "Expected some bytes to be freed");
    let remaining = manager.iter().len();
    assert_eq!(remaining, 1, "Only the rooted object should remain (got {remaining})");
}

#[test]
fn gc_preserves_reachable_closure_and_function() {
    let mut manager = ObjectManager::new();
    let (func_root, _) = manager.alloc_function(0, "f1".to_string());
    let (closure_root, _) = manager.alloc_closure(func_root);
    let (_func_unreachable, _) = manager.alloc_function(0, "f2".to_string());

    let mut gc = GarbageCollector::new();
    let mut stack = [Value::new(); 8];
    stack[0] = value_from_object(closure_root);
    let stack_top = 1;
    let globals = Table::new();
    let frames: Vec<usize> = vec![];
    let open_upvalues: Vec<ObjRef> = vec![];

    let intern_strings = Table::new();
    gc.prepare_collection(&manager);
    gc.mark_roots(&stack, stack_top, &globals, &intern_strings, &frames, &open_upvalues);
    gc.trace_references(&manager, &stack);
    gc.sweep(&mut manager);
    let remaining = manager.iter().len();
    assert_eq!(remaining, 2, "Closure and its function should remain");
}

#[test]
fn gc_marks_via_upvalue() {
    let mut manager = ObjectManager::new();
    let (string_ptr, _) = manager.alloc_string("captured");
    let mut stack = [Value::new(); 8];
    stack[0] = value_from_object(string_ptr);
    let stack_top = 1;
    // The upvalue points at stack slot 0.
    let (upvalue_ptr, _) = manager.alloc_upvalue(0);

    let mut gc = GarbageCollector::new();
    let globals = Table::new();
    let frames: Vec<usize> = vec![];
    let open_upvalues: Vec<ObjRef> = vec![upvalue_ptr];

    let intern_strings = Table::new();
    gc.prepare_collection(&manager);
    gc.mark_roots(&stack, stack_top, &globals, &intern_strings, &frames, &open_upvalues);
    gc.trace_references(&manager, &stack);
    gc.sweep(&mut manager);
    let remaining = manager.iter().len();
    assert_eq!(remaining, 2, "Upvalue and captured string should remain");
}

#[test]
fn gc_stats_record_cycle() {
    let mut gc = GarbageCollector::new();
    assert_eq!(gc.stats().cycles, 0);
    gc.record_cycle(1000, 400, 600, 1200);
    assert_eq!(gc.stats().cycles, 1);
    assert_eq!(gc.stats().last_before_bytes, 1000);
    assert_eq!(gc.stats().last_freed_bytes, 400);
    assert_eq!(gc.stats().last_after_bytes, 600);
    assert_eq!(gc.stats().last_next_trigger_bytes, 1200);
    assert_eq!(gc.stats().total_freed_bytes, 400);
}

#[test]
fn gc_keeps_objects_reached_through_globals_and_struct_fields() {
    let mut manager = ObjectManager::new();
    let (stype, _) = manager.alloc_struct_type("Point".to_string());
    let (inst, _) = manager.alloc_struct_instance(stype, 1);
    let (_lost, _) = manager.alloc_string("lost");
    let mut globals = Table::new();
    globals.insert("p".to_string(), Value::Object(inst));
    let intern_strings = Table::new();
    let stack = [Value::new(); 2];
    let mut gc = GarbageCollector::new();
    gc.prepare_collection(&manager);
    gc.mark_roots(&stack, 0, &globals, &intern_strings, &[], &[]);
    gc.trace_references(&manager, &stack);
    gc.sweep(&mut manager);
    let mut live: Vec<ObjRef> = manager.iter().to_vec();
    live.sort();
    assert_eq!(live, vec![stype, inst]);
    assert!(manager.get(2).is_none());
}

#[test]
fn gc_follows_function_constants_and_frames() {
    let mut manager = ObjectManager::new();
    let (s, _) = manager.alloc_string("constant");
    let (f, _) = manager.alloc_function(1, "g".to_string());
    let (_other, _) = manager.alloc_string("other");
    let stack = [Value::new(), Value::Object(f)];
    let globals = Table::new();
    let intern_strings = Table::new();
    // The function's chunk is empty here, so only the frame root keeps it.
    let mut gc = GarbageCollector::new();
    gc.prepare_collection(&manager);
    gc.mark_roots(&stack, 0, &globals, &intern_strings, &[1], &[]);
    gc.trace_references(&manager, &stack);
    gc.sweep(&mut manager);
    let mut live: Vec<ObjRef> = manager.iter().to_vec();
    live.sort();
    assert_eq!(live, vec![f]);
    assert!(manager.get(s).is_none());
    match manager.get(f) {
        Some(HeapObject::Function(func)) => assert_eq!(func.name, "g"),
        _ => panic!("function should survive"),
    }
}

#[test]
fn fresh_collector_sweeps_nothing() {
    let mut manager = ObjectManager::new();
    manager.alloc_string("kept");
    manager.alloc_string("also kept");
    let mut gc = GarbageCollector::new();
    assert_eq!(gc.sweep(&mut manager), 0);
    assert_eq!(manager.iter().len(), 2);
}

#[test]
fn sweep_frees_the_sizes_of_the_white_objects() {
    let mut manager = ObjectManager::new();
    let (keep, _) = manager.alloc_string("keep");
    let (gone, _) = manager.alloc_string("gone");
    let expected = match manager.get(gone) {
        Some(o) => o.deep_size(),
        None => panic!("allocated object missing"),
    };
    let mut gc = GarbageCollector::new();
    let mut stack = [Value::new(); 4];
    stack[0] = value_from_object(keep);
    let frames: Vec<usize> = vec![];
    let open_upvalues: Vec<ObjRef> = vec![];
    gc.prepare_collection(&manager);
    gc.mark_roots(&stack, 1, &Table::new(), &Table::new(), &frames, &open_upvalues);
    gc.trace_references(&manager, &stack);
    assert_eq!(gc.sweep(&mut manager), expected);
    assert!(expected >= std::mem::size_of::<dynac::objects::object_string::ObjectString>() + 4);
}

#[test]
fn tracing_again_blackens_what_a_new_gray_object_reaches() {
    let mut manager = ObjectManager::new();
    let (root, _) = manager.alloc_string("root");
    let (func, _) = manager.alloc_function(0, "late".to_string());
    let (closure, _) = manager.alloc_closure(func);
    let (_loose, _) = manager.alloc_string("loose");
    let mut stack = [Value::new(); 4];
    stack[0] = value_from_object(root);
    let frames: Vec<usize> = vec![];
    let open_upvalues: Vec<ObjRef> = vec![];
    let mut gc = GarbageCollector::new();
    gc.prepare_collection(&manager);
    gc.mark_roots(&stack, 1, &Table::new(), &Table::new(), &frames, &open_upvalues);
    gc.trace_references(&manager, &stack);
    // The closure is marked only now, after tracing: tracing again from this state keeps the
    // objects that were black and adds the closure and its function.
    gc.mark_object(closure);
    gc.trace_references(&manager, &stack);
    gc.sweep(&mut manager);
    assert_eq!(manager.iter().len(), 3);
    assert!(manager.get(closure).is_some());
    assert!(manager.get(func).is_some());
    assert!(manager.get(root).is_some());
}
