# dynac

A small dynamic language (Latte) with a bytecode compiler and a virtual machine, written in
Verus: closures, first-class functions, structs on the heap and on the stack, traits with
methods, and a mark-and-sweep garbage collector.

## Layout

- `src/scanner.rs`, `src/keyword_trie.rs`: the tokenizer and the keyword lookup.
- `src/compiler.rs`: the single-pass compiler from source text to bytecode.
- `src/chunk.rs`, `src/debug.rs`: bytecode, its constants and line table, and its decoding.
- `src/vm.rs`: the machine. `VM::step` runs one instruction; its contract (`steps_to`) states
  the effect of every instruction on the stack, the frames, the globals and the heap.
- `src/gc.rs`, `src/objects/`: the heap, its objects and the collector.
- `src/value.rs`, `src/table.rs`, `src/value_order.rs`: values, string interning, printing and
  the name tables.
- `app/main.rs`: the `latte` program: file and REPL input, the run loop, printing, and the
  floating-point arithmetic the machine asks its host for.

## The host

Numbers are IEEE-754 doubles. The library holds them as bit patterns and leaves every
computation on them, the clock and printing to a `Host` that the caller supplies; `app/` has
the real one, `tests/vm_tests.rs` one that records what is printed.
