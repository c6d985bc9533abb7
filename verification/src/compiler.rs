use vstd::prelude::*;

use crate::chunk::OpCode;
use crate::objects::object::HeapObject;
use crate::objects::object_function::ObjectFunction;
use crate::objects::object_manager::ObjectManager;
use crate::scanner::{
    lemma_end_of_input, lemma_scan_step_progress, lemma_tokens_from_step, scan_step, tokens_from,
    Scanner, SpecToken, Token, TokenType,
};
use crate::table::Table;
use crate::value::{make_string_value, strings_interned, ObjRef, Value};
use crate::vm::Host;

verus! {

/// Where in the source a compile error was found.
#[derive(Debug, Clone, PartialEq, Eq)]
pub enum ErrorLocation {
    /// At the end of the source.
    AtEnd,
    /// At the token with this text.
    AtToken(String),
    /// At a token the scanner rejected; its message says what was wrong.
    Unplaced,
}

/// A compile error: the line, where on it, and what was wrong.
#[derive(Debug, Clone, PartialEq, Eq)]
pub struct CompileError {
    pub line: usize,
    pub location: ErrorLocation,
    pub message: String,
}

/// A local variable of the function being compiled. A depth of -1 marks a variable whose
/// initializer is still being compiled.
#[derive(Clone, Copy)]
struct Local<'a> {
    name: &'a str,
    kind: TokenType,
    depth: i32,
    captured: bool,
}

/// A variable that a function captures from an enclosing one: a local slot of the enclosing
/// function (`is_local`), or one of its upvalues.
#[derive(Clone, Copy)]
struct Upvalue {
    index: usize,
    is_local: bool,
}

#[derive(Clone, Copy, PartialEq, Eq, Structural)]
enum FunctionType {
    Function,
    Script,
}

/// The state of one function being compiled.
struct Compiler<'a> {
    function: ObjectFunction,
    function_type: FunctionType,
    locals: Vec<Local<'a>>,
    upvalues: Vec<Upvalue>,
    scope_depth: i32,
}

impl<'a> Compiler<'a> {
    spec fn wf(&self) -> bool {
        &&& self.function.chunk.wf()
        &&& self.locals@.len() <= 255
        &&& self.scope_depth >= 0
        &&& self.function.upvalue_count == self.upvalues@.len()
    }

    /// Only the upvalues and the locals' capture marks may differ from `other`.
    spec fn same_but_captures(&self, other: &Self) -> bool {
        &&& self.function.chunk == other.function.chunk
        &&& self.function.arity == other.function.arity
        &&& self.function.name == other.function.name
        &&& self.function_type == other.function_type
        &&& self.scope_depth == other.scope_depth
        &&& self.locals@.len() == other.locals@.len()
    }

    /// Captures `index` (a local slot of the enclosing function when `is_local`, else one of
    /// its upvalues), unless it is captured already; gives the upvalue's index.
    fn add_upvalue(&mut self, index: usize, is_local: bool) -> (r: usize)
        requires
            old(self).wf(),
        ensures
            final(self).wf(),
            final(self).same_but_captures(&*old(self)),
            final(self).locals == old(self).locals,
            r < final(self).upvalues@.len(),
            final(self).upvalues@[r as int] == (Upvalue { index, is_local }),
            final(self).upvalues@ == old(self).upvalues@ || final(self).upvalues@ == old(self).upvalues@.push(Upvalue { index, is_local }),
            old(self).upvalues@.contains(Upvalue { index, is_local }) ==> final(self).upvalues@
                == old(self).upvalues@,
    {
        let mut i: usize = 0;
        while i < self.upvalues.len()
            invariant
                self == old(self),
                old(self).wf(),
                i <= self.upvalues@.len(),
                forall|j: int| 0 <= j < i ==> self.upvalues@[j] != (Upvalue { index, is_local }),
            decreases self.upvalues@.len() - i,
        {
            let upvalue = self.upvalues[i];
            if upvalue.is_local == is_local && upvalue.index == index {
                return i;
            }
            i = i + 1;
        }
        self.upvalues.push(Upvalue { index, is_local });
        self.function.upvalue_count = self.upvalues.len();
        self.upvalues.len() - 1
    }

    /// Marks local `slot` as captured by a closure.
    fn mark_captured(&mut self, slot: usize)
        requires
            old(self).wf(),
            slot < old(self).locals@.len(),
        ensures
            final(self).wf(),
            final(self).same_but_captures(&*old(self)),
            final(self).upvalues == old(self).upvalues,
            final(self).locals@ == old(self).locals@.update(
                slot as int,
                Local { captured: true, ..old(self).locals@[slot as int] },
            ),
    {
        let mut local = self.locals[slot];
        local.captured = true;
        self.locals.set(slot, local);
    }

    spec fn code(&self) -> Seq<u8> {
        self.function.chunk.spec_code()
    }

    spec fn constants(&self) -> Seq<Value> {
        self.function.chunk.spec_constants()
    }

    /// A compiler for a new function: slot zero holds the function itself.
    fn new(function_type: FunctionType, name: String) -> (c: Self)
        ensures
            c.wf(),
            c.function_type == function_type,
            c.code() == Seq::<u8>::empty(),
            c.constants() == Seq::<Value>::empty(),
            c.locals@.len() == 1,
            c.upvalues@.len() == 0,
            c.scope_depth == 0,
            c.function.arity == 0,
            c.function.upvalue_count == 0,
            c.function.name@ == name@,
    {
        let mut locals: Vec<Local<'a>> = Vec::new();
        locals.push(Local { name: "", kind: TokenType::Eof, depth: 0, captured: false });
        Compiler {
            function: ObjectFunction::new(0, name),
            function_type,
            locals,
            upvalues: Vec::new(),
            scope_depth: 0,
        }
    }
}

/// Binding strength of operators, weakest first.
#[derive(Clone, Copy, PartialEq, Eq, Structural)]
enum Precedence {
    Lowest,
    Assignment,
    Or,
    And,
    Equality,
    Comparison,
    Term,
    Factor,
    Unary,
    Call,
    Primary,
}

/// The code of a function's chunk stays the same.
/// The contents of each text in `names`.
/// The texts of the tokens that follow a `fn` token in `t`, in order: the names of the methods
/// that a trait body declares.
pub open spec fn fn_names(t: Seq<SpecToken>) -> Seq<Seq<char>>
    decreases t.len(),
{
    if t.len() < 2 {
        Seq::empty()
    } else {
        fn_names(t.drop_last()) + if t[t.len() - 2].token_type == TokenType::Fn {
            seq![t.last().value]
        } else {
            Seq::empty()
        }
    }
}

/// One token more adds its text when it follows `fn`.
proof fn lemma_fn_names_take(log: Seq<SpecToken>, k: int)
    requires
        0 <= k < log.len(),
    ensures
        fn_names(log.take(k + 1)) == fn_names(log.take(k)) + if k >= 1 && log[k - 1].token_type
            == TokenType::Fn {
            seq![log[k].value]
        } else {
            Seq::<Seq<char>>::empty()
        },
{
    assert(log.take(k + 1).drop_last() =~= log.take(k));
    if k == 0 {
        assert(log.take(0).len() == 0);
    }
}

spec fn texts(names: Seq<&str>) -> Seq<Seq<char>> {
    names.map_values(|t: &str| t@)
}

/// The two bytes at `at`, high byte first, give the distance of a forward jump from just
/// after them to `target`.
spec fn jumps_to(code: Seq<u8>, at: int, target: int) -> bool {
    code[at] * 256 + code[at + 1] == target - (at + 2)
}

/// The two bytes at `at`, high byte first, give the distance of a backward jump from just
/// after them to `target`.
spec fn loops_to(code: Seq<u8>, at: int, target: int) -> bool {
    code[at] * 256 + code[at + 1] == (at + 2) - target
}

/// The operand bytes of a closure instruction for `captures`: for each, whether it is a
/// local of the enclosing function, then its index.
spec fn capture_bytes(captures: Seq<Upvalue>) -> Seq<u8>
    decreases captures.len(),
{
    if captures.len() == 0 {
        Seq::empty()
    } else {
        let last = captures.last();
        capture_bytes(captures.drop_last()) + seq![
            if last.is_local {
                1u8
            } else {
                0u8
            },
            last.index as u8,
        ]
    }
}

/// A token that starts a declaration or a statement, where compiling resumes after an error.
spec fn starts_declaration(t: TokenType) -> bool {
    t == TokenType::Trait || t == TokenType::Impl || t == TokenType::Struct || t == TokenType::New
        || t == TokenType::Fn || t == TokenType::Var || t == TokenType::For || t == TokenType::If
        || t == TokenType::While || t == TokenType::Print || t == TokenType::Return
}

/// The instructions that apply the binary operator `t` to the two values on the stack.
spec fn binary_bytes(t: TokenType) -> Seq<u8> {
    match t {
        TokenType::BangEqual => seq![OpCode::Equal.spec_byte(), OpCode::Not.spec_byte()],
        TokenType::EqualEqual => seq![OpCode::Equal.spec_byte()],
        TokenType::Greater => seq![OpCode::Greater.spec_byte()],
        TokenType::GreaterEqual => seq![OpCode::Less.spec_byte(), OpCode::Not.spec_byte()],
        TokenType::Less => seq![OpCode::Less.spec_byte()],
        TokenType::LessEqual => seq![OpCode::Greater.spec_byte(), OpCode::Not.spec_byte()],
        TokenType::Plus => seq![OpCode::Add.spec_byte()],
        TokenType::Minus => seq![OpCode::Subtract.spec_byte()],
        TokenType::Star => seq![OpCode::Multiply.spec_byte()],
        _ => seq![OpCode::Divide.spec_byte()],
    }
}

/// The instruction that pushes the literal `t`.
spec fn literal_byte(t: TokenType) -> u8 {
    match t {
        TokenType::False => OpCode::False.spec_byte(),
        TokenType::True => OpCode::True.spec_byte(),
        _ => OpCode::Nil.spec_byte(),
    }
}

/// The text of a string literal: its token without the quotes.
spec fn string_contents(token: Seq<char>) -> Seq<char> {
    if token.len() >= 2 {
        token.subrange(1, token.len() - 1)
    } else {
        Seq::empty()
    }
}

/// The code from `start` on ends with `tail`.
spec fn ends_with(code: Seq<u8>, start: int, tail: Seq<u8>) -> bool {
    &&& start + tail.len() <= code.len()
    &&& code.subrange(code.len() - tail.len(), code.len() as int) == tail
}

/// A variable read: from a local, an upvalue or a global.
spec fn is_get_op(op: u8) -> bool {
    op == OpCode::GetLocal.spec_byte() || op == OpCode::GetUpvalue.spec_byte() || op
        == OpCode::GetGlobal.spec_byte()
}

/// A variable assignment: to a local, an upvalue or a global.
spec fn is_set_op(op: u8) -> bool {
    op == OpCode::SetLocal.spec_byte() || op == OpCode::SetUpvalue.spec_byte() || op
        == OpCode::SetGlobal.spec_byte()
}

/// The instruction that makes a struct instance: on the heap, or on the stack.
spec fn instantiate_op(heap: bool) -> u8 {
    if heap {
        OpCode::StructInstantiate.spec_byte()
    } else {
        OpCode::StructInstantiateStack.spec_byte()
    }
}

/// No name occurs twice in `names`.
spec fn all_distinct(names: Seq<Seq<char>>) -> bool {
    forall|i: int, j: int| 0 <= i < j < names.len() ==> names[i] != names[j]
}

spec fn same_code(a: Compiler, b: Compiler) -> bool {
    &&& a.code() == b.code()
    &&& a.constants() == b.constants()
    &&& a.scope_depth == b.scope_depth
    &&& a.function_type == b.function_type
}

/// Whether two texts are the same.
fn same_text(a: &str, b: &str) -> (r: bool)
    ensures
        r == (a@ == b@),
{
    a.to_string() == b.to_string()
}

/// The byte that closes a local as its scope ends.
spec fn closing_byte(l: Local) -> u8 {
    if l.captured {
        OpCode::CloseUpvalue.spec_byte()
    } else {
        OpCode::Pop.spec_byte()
    }
}

/// The bytes that close the locals `locals[k..]`, innermost first.
spec fn closing_bytes(locals: Seq<Local>, k: int) -> Seq<u8>
    decreases locals.len(),
{
    if 0 <= k < locals.len() {
        seq![closing_byte(locals.last())] + closing_bytes(locals.drop_last(), k)
    } else {
        Seq::empty()
    }
}

/// `locals[k..]` closed innermost first is `locals[k+1..]` closed, then `locals[k]`.
proof fn lemma_closing_bytes_step(locals: Seq<Local>, k: int)
    requires
        0 < k <= locals.len(),
    ensures
        closing_bytes(locals, k - 1) == closing_bytes(locals, k).push(closing_byte(locals[k - 1])),
    decreases locals.len(),
{
    if k < locals.len() {
        lemma_closing_bytes_step(locals.drop_last(), k);
        assert(closing_bytes(locals, k - 1) =~= seq![closing_byte(locals.last())]
            + closing_bytes(locals.drop_last(), k - 1));
        assert(closing_bytes(locals, k) =~= seq![closing_byte(locals.last())] + closing_bytes(
            locals.drop_last(),
            k,
        ));
        assert(closing_bytes(locals, k - 1) =~= closing_bytes(locals, k).push(
            closing_byte(locals[k - 1]),
        ));
    } else {
        assert(closing_bytes(locals.drop_last(), k - 1) =~= Seq::<u8>::empty());
        assert(closing_bytes(locals, k) =~= Seq::<u8>::empty());
        assert(closing_bytes(locals, k - 1) =~= closing_bytes(locals, k).push(
            closing_byte(locals[k - 1]),
        ));
    }
}

/// A local whose name is the text of `token` (and of the same kind of token).
spec fn names_match(l: Local, token: Token) -> bool {
    l.kind == token.token_type && l.name@ == token.value@
}


impl Precedence {
    spec fn spec_level(self) -> u8 {
        match self {
            Precedence::Lowest => 0,
            Precedence::Assignment => 1,
            Precedence::Or => 2,
            Precedence::And => 3,
            Precedence::Equality => 4,
            Precedence::Comparison => 5,
            Precedence::Term => 6,
            Precedence::Factor => 7,
            Precedence::Unary => 8,
            Precedence::Call => 9,
            Precedence::Primary => 10,
        }
    }

    /// The rank of the precedence, from 0 for the weakest.
    fn level(self) -> (l: u8)
        ensures
            l == self.spec_level(),
    {
        match self {
            Precedence::Lowest => 0,
            Precedence::Assignment => 1,
            Precedence::Or => 2,
            Precedence::And => 3,
            Precedence::Equality => 4,
            Precedence::Comparison => 5,
            Precedence::Term => 6,
            Precedence::Factor => 7,
            Precedence::Unary => 8,
            Precedence::Call => 9,
            Precedence::Primary => 10,
        }
    }

    /// The precedence of rank `level`.
    fn from_level(level: u8) -> (p: Precedence)
        requires
            level <= 10,
        ensures
            p.spec_level() == level,
    {
        match level {
            0 => Precedence::Lowest,
            1 => Precedence::Assignment,
            2 => Precedence::Or,
            3 => Precedence::And,
            4 => Precedence::Equality,
            5 => Precedence::Comparison,
            6 => Precedence::Term,
            7 => Precedence::Factor,
            8 => Precedence::Unary,
            9 => Precedence::Call,
            _ => Precedence::Primary,
        }
    }
}

/// How a token that starts an expression is compiled.
#[derive(Clone, Copy, PartialEq, Eq, Structural)]
enum PrefixRule {
    Grouping,
    Unary,
    Number,
    StringLiteral,
    Literal,
    Variable,
    New,
}

/// How a token that continues an expression is compiled.
#[derive(Clone, Copy, PartialEq, Eq, Structural)]
enum InfixRule {
    Call,
    Binary,
    Dot,
    And,
    Or,
}

/// `t` is an operator between two operands that compiles to arithmetic or a comparison.
pub open spec fn is_binary_operator(t: TokenType) -> bool {
    t == TokenType::Minus || t == TokenType::Plus || t == TokenType::Slash || t == TokenType::Star
        || t == TokenType::BangEqual || t == TokenType::EqualEqual || t == TokenType::Greater || t
        == TokenType::GreaterEqual || t == TokenType::Less || t == TokenType::LessEqual
}

/// How a token starts an expression, if it can.
spec fn spec_prefix_rule(t: TokenType) -> Option<PrefixRule> {
    match t {
        TokenType::LeftParen => Some(PrefixRule::Grouping),
        TokenType::Minus | TokenType::Bang => Some(PrefixRule::Unary),
        TokenType::Number => Some(PrefixRule::Number),
        TokenType::String => Some(PrefixRule::StringLiteral),
        TokenType::False | TokenType::True | TokenType::Nil => Some(PrefixRule::Literal),
        TokenType::Identifier => Some(PrefixRule::Variable),
        TokenType::New => Some(PrefixRule::New),
        _ => None,
    }
}

/// How a token continues an expression, if it can.
spec fn spec_infix_rule(t: TokenType) -> Option<InfixRule> {
    match t {
        TokenType::LeftParen => Some(InfixRule::Call),
        TokenType::Minus | TokenType::Plus | TokenType::Slash | TokenType::Star
        | TokenType::BangEqual | TokenType::EqualEqual | TokenType::Greater
        | TokenType::GreaterEqual | TokenType::Less | TokenType::LessEqual => Some(
            InfixRule::Binary,
        ),
        TokenType::Identifier | TokenType::Dot => Some(InfixRule::Dot),
        TokenType::And => Some(InfixRule::And),
        TokenType::Or => Some(InfixRule::Or),
        _ => None,
    }
}

fn prefix_rule(t: TokenType) -> (r: Option<PrefixRule>)
    ensures
        r == spec_prefix_rule(t),
        r is Some ==> t != TokenType::Eof,
        r == Some(PrefixRule::Unary) ==> t == TokenType::Minus || t == TokenType::Bang,
        r == Some(PrefixRule::Literal) ==> t == TokenType::False || t == TokenType::True || t
            == TokenType::Nil,
{
    match t {
        TokenType::LeftParen => Some(PrefixRule::Grouping),
        TokenType::Minus => Some(PrefixRule::Unary),
        TokenType::Bang => Some(PrefixRule::Unary),
        TokenType::Number => Some(PrefixRule::Number),
        TokenType::String => Some(PrefixRule::StringLiteral),
        TokenType::False => Some(PrefixRule::Literal),
        TokenType::True => Some(PrefixRule::Literal),
        TokenType::Nil => Some(PrefixRule::Literal),
        TokenType::Identifier => Some(PrefixRule::Variable),
        TokenType::New => Some(PrefixRule::New),
        _ => None,
    }
}

fn infix_rule(t: TokenType) -> (r: Option<InfixRule>)
    ensures
        r == spec_infix_rule(t),
        r == Some(InfixRule::Binary) ==> is_binary_operator(t),
{
    match t {
        TokenType::LeftParen => Some(InfixRule::Call),
        TokenType::Minus => Some(InfixRule::Binary),
        TokenType::Plus => Some(InfixRule::Binary),
        TokenType::Slash => Some(InfixRule::Binary),
        TokenType::Star => Some(InfixRule::Binary),
        TokenType::BangEqual => Some(InfixRule::Binary),
        TokenType::EqualEqual => Some(InfixRule::Binary),
        TokenType::Greater => Some(InfixRule::Binary),
        TokenType::GreaterEqual => Some(InfixRule::Binary),
        TokenType::Less => Some(InfixRule::Binary),
        TokenType::LessEqual => Some(InfixRule::Binary),
        TokenType::Identifier => Some(InfixRule::Dot),
        TokenType::Dot => Some(InfixRule::Dot),
        TokenType::And => Some(InfixRule::And),
        TokenType::Or => Some(InfixRule::Or),
        _ => None,
    }
}

/// How tightly a token binds when it continues an expression, from 0 for a token that
/// continues none: `or` weakest, then `and`, equality, comparisons, sums, products, and
/// calls and field access tightest.
pub open spec fn binding_level(t: TokenType) -> u8 {
    match t {
        TokenType::LeftParen | TokenType::Dot => 9,
        TokenType::New => 10,
        TokenType::Star | TokenType::Slash => 7,
        TokenType::Plus | TokenType::Minus => 6,
        TokenType::Greater | TokenType::GreaterEqual | TokenType::Less | TokenType::LessEqual => 5,
        TokenType::BangEqual | TokenType::EqualEqual => 4,
        TokenType::And => 3,
        TokenType::Or => 2,
        _ => 0,
    }
}

/// The binding strength of a unary operator's operand: tighter than every binary operator,
/// `and` and `or`.
pub open spec fn unary_level() -> u8 {
    8
}

/// `t` is `+` or `-`.
pub open spec fn is_sum_operator(t: TokenType) -> bool {
    t == TokenType::Plus || t == TokenType::Minus
}

/// `t` is `*` or `/`.
pub open spec fn is_product_operator(t: TokenType) -> bool {
    t == TokenType::Star || t == TokenType::Slash
}

/// `t` compares two values by order.
pub open spec fn is_comparison_operator(t: TokenType) -> bool {
    t == TokenType::Greater || t == TokenType::GreaterEqual || t == TokenType::Less || t
        == TokenType::LessEqual
}

/// `t` compares two values for equality.
pub open spec fn is_equality_operator(t: TokenType) -> bool {
    t == TokenType::BangEqual || t == TokenType::EqualEqual
}

/// The order of binding: products bind tighter than sums, sums than comparisons, comparisons
/// than equality, equality than `and`, `and` than `or`; a unary operator's operand binds
/// tighter than every one of them.
pub proof fn lemma_binding_order(a: TokenType, b: TokenType)
    ensures
        is_sum_operator(a) && is_product_operator(b) ==> binding_level(a) < binding_level(b),
        is_comparison_operator(a) && is_sum_operator(b) ==> binding_level(a) < binding_level(b),
        is_equality_operator(a) && is_comparison_operator(b) ==> binding_level(a) < binding_level(
            b,
        ),
        a == TokenType::And && is_equality_operator(b) ==> binding_level(a) < binding_level(b),
        a == TokenType::Or && b == TokenType::And ==> binding_level(a) < binding_level(b),
        is_binary_operator(a) || a == TokenType::And || a == TokenType::Or ==> binding_level(a)
            < unary_level(),
{
}

/// The precedence with which a token continues an expression.
fn rule_precedence(t: TokenType) -> (p: Precedence)
    ensures
        t == TokenType::Eof ==> p.spec_level() == 0,
        is_binary_operator(t) ==> 4 <= p.spec_level() <= 7,
        p.spec_level() == binding_level(t),
        is_sum_operator(t) ==> p == Precedence::Term,
        is_product_operator(t) ==> p == Precedence::Factor,
        t == TokenType::And ==> p == Precedence::And,
        t == TokenType::Or ==> p == Precedence::Or,
{
    match t {
        TokenType::LeftParen => Precedence::Call,
        TokenType::Minus => Precedence::Term,
        TokenType::Plus => Precedence::Term,
        TokenType::Slash => Precedence::Factor,
        TokenType::Star => Precedence::Factor,
        TokenType::BangEqual => Precedence::Equality,
        TokenType::EqualEqual => Precedence::Equality,
        TokenType::Greater => Precedence::Comparison,
        TokenType::GreaterEqual => Precedence::Comparison,
        TokenType::Less => Precedence::Comparison,
        TokenType::LessEqual => Precedence::Comparison,
        TokenType::New => Precedence::Primary,
        TokenType::Dot => Precedence::Call,
        TokenType::And => Precedence::And,
        TokenType::Or => Precedence::Or,
        _ => Precedence::Lowest,
    }
}

/// Whether `names` holds `name`.
fn contains_text(names: &Vec<&str>, name: &str) -> (r: bool)
    ensures
        r == exists|i: int| 0 <= i < names@.len() && (#[trigger] names@[i])@ == name@,
{
    let mut i: usize = 0;
    while i < names.len()
        invariant
            i <= names@.len(),
            forall|j: int| 0 <= j < i ==> (#[trigger] names@[j])@ != name@,
        decreases names@.len() - i,
    {
        if same_text(names[i], name) {
            return true;
        }
        i = i + 1;
    }
    false
}

/// Turns source text into the bytecode of a script function.
pub struct Parser<'a> {
    current: Token<'a>,
    previous: Token<'a>,
    scanner: Scanner<'a>,
    has_error: bool,
    panic_mode: bool,
    compiler: Compiler<'a>,
    enclosing: Vec<Compiler<'a>>,
    object_manager: ObjectManager,
    intern_strings: Table,
    last_expr_stack_struct: bool,
    force_heap_struct_literal: bool,
    errors: Vec<CompileError>,
    /// The heap as compiling began.
    base_heap: Ghost<ObjectManager>,
    /// The interned strings as compiling began.
    base_strings: Ghost<Map<Seq<char>, Value>>,
    /// The operators that continued the operand the last expression parse compiled, at that
    /// parse's own level (not those inside nested operands).
    operand_ops: Ghost<Seq<TokenType>>,
}

impl<'a> Parser<'a> {
    /// The heap the parser allocates in.
    pub closed spec fn manager(&self) -> ObjectManager {
        self.object_manager
    }

    /// The table of interned strings.
    pub closed spec fn strings(&self) -> Table {
        self.intern_strings
    }

    /// The errors reported so far, in order.
    pub closed spec fn spec_errors(&self) -> Seq<CompileError> {
        self.errors@
    }

    /// Freshly made: nothing compiled yet.
    pub closed spec fn ready(&self) -> bool {
        &&& self.enclosing@.len() == 0
        &&& self.compiler.wf()
        &&& self.compiler.function_type == FunctionType::Script
        &&& self.compiler.code() == Seq::<u8>::empty()
        &&& self.compiler.constants() == Seq::<Value>::empty()
        &&& self.compiler.locals@.len() == 1
        &&& self.compiler.upvalues@.len() == 0
        &&& self.compiler.scope_depth == 0
        &&& self.compiler.function.name@ == Seq::<char>::empty()
        &&& self.compiler.function.arity == 0
        &&& !self.has_error
        &&& !self.panic_mode
        &&& self.errors@.len() == 0
        &&& self.object_manager.wf()
        &&& self.intern_strings.wf()
        &&& strings_interned(self.intern_strings, self.object_manager)
    }

    /// The characters of the source being compiled.
    spec fn src(&self) -> Seq<char> {
        self.scanner.spec_source()
    }

    /// Twice the characters left to scan, plus one while the current token is not the end:
    /// every token consumed lowers it.
    spec fn fuel(&self) -> int {
        2 * (self.scanner.spec_source().len() - self.scanner.spec_pos()) + (if self.current.token_type
            == TokenType::Eof {
            0int
        } else {
            1int
        })
    }

    spec fn code_len(&self) -> int {
        self.compiler.code().len() as int
    }

    /// A chunk holds more than 256 constants only after an error.
    spec fn constants_ok(&self, c: Compiler) -> bool {
        c.constants().len() <= 256 || self.has_error
    }

    spec fn wf(&self) -> bool {
        &&& self.scanner.wf()
        &&& 0 <= self.scanner.spec_pos() <= self.scanner.spec_source().len()
        &&& self.compiler.wf()
        &&& self.constants_ok(self.compiler)
        &&& forall|i: int|
            0 <= i < self.enclosing@.len() ==> (#[trigger] self.enclosing@[i]).wf()
                && self.constants_ok(self.enclosing@[i])
        &&& self.object_manager.wf()
        &&& self.intern_strings.wf()
        &&& strings_interned(self.intern_strings, self.object_manager)
        &&& self.has_error == (self.errors@.len() > 0)
        &&& self.panic_mode ==> self.has_error
        &&& self.script_ok()
        &&& self.keeps_base()
    }

    /// Every interned string and every heap object there was as compiling began is still
    /// there, unchanged.
    spec fn keeps_base(&self) -> bool {
        &&& self.base_strings@.submap_of(self.intern_strings@)
        &&& self.object_manager.heap_len() >= self.base_heap@.heap_len()
        &&& forall|q: ObjRef|
            q < self.base_heap@.heap_len() ==> #[trigger] self.object_manager.slot(q)
                == self.base_heap@.slot(q)
    }

    /// The outermost compiler is the script's: no parameters, no name, no captures.
    spec fn script_ok(&self) -> bool {
        let c = self.compiler_at(0);
        &&& c.function_type == FunctionType::Script
        &&& c.function.arity == 0
        &&& c.function.name@ == Seq::<char>::empty()
        &&& c.upvalues@.len() == 0
    }

    /// `later` is this state after some compiling: still well formed, on the same source, with
    /// no more fuel, the enclosing functions' code untouched, the current chunk no shorter and
    /// with the code it had, the constants and interned strings it had, and an error once
    /// reported still reported.
    spec fn evolves_to(&self, later: &Self) -> bool {
        self.evolves_keeping(later, self.code_len())
    }

    /// The tokens the scanner has still to give, after the current one.
    spec fn upcoming(&self) -> Seq<SpecToken> {
        tokens_from(self.src(), self.scanner.spec_pos(), self.scanner.spec_line())
    }

    /// The tokens from the current one on.
    spec fn token_log(&self) -> Seq<SpecToken> {
        seq![self.current.spec_token()] + self.upcoming()
    }

    /// The parser stands at token `k` of `log`: that token is the current one, the ones after
    /// it are still to come, and the one before it was just consumed.
    spec fn stands_at(&self, log: Seq<SpecToken>, k: int) -> bool {
        &&& 0 <= k < log.len()
        &&& self.current.spec_token() == log[k]
        &&& self.current.token_type != TokenType::Eof ==> self.upcoming() == log.skip(k + 1)
        &&& k >= 1 ==> self.previous.spec_token() == log[k - 1]
    }

    proof fn lemma_stands_at_start(&self)
        ensures
            self.stands_at(self.token_log(), 0),
    {
        assert(self.token_log().skip(1) =~= self.upcoming());
    }

    /// Consuming the current token without an error moves the parser one token on.
    proof fn lemma_stands_step(&self, later: &Self, log: Seq<SpecToken>, k: int)
        requires
            self.wf(),
            later.src() == self.src(),
            self.stands_at(log, k),
            self.current.token_type != TokenType::Eof,
            self.advances_to(later),
            later.previous == self.current,
            !later.has_error,
        ensures
            later.stands_at(log, k + 1),
    {
        lemma_tokens_from_step(self.src(), self.scanner.spec_pos(), self.scanner.spec_line());
        assert(log.skip(k + 1)[0] == log[k + 1]);
        if later.current.token_type != TokenType::Eof {
            assert(log.skip(k + 1).drop_first() =~= log.skip(k + 2));
        }
    }

    /// After a step to an accepted token, the tokens still to come are the rest of those that
    /// were to come.
    proof fn lemma_step_upcoming(&self, later: &Self)
        requires
            self.wf(),
            later.src() == self.src(),
            self.advances_to(later),
            self.upcoming()[0].token_type != TokenType::Error,
            self.upcoming()[0].token_type != TokenType::Eof,
        ensures
            later.current.spec_token() == self.upcoming()[0],
            later.upcoming() == self.upcoming().drop_first(),
            later.errors == self.errors,
            later.has_error == self.has_error,
            later.panic_mode == self.panic_mode,
    {
        lemma_tokens_from_step(self.src(), self.scanner.spec_pos(), self.scanner.spec_line());
    }

    /// `later` holds the token the scanner gives next from here: when the scanner accepts it,
    /// it is the current token and no error was reported; when it rejects it, an error was.
    spec fn advances_to(&self, later: &Self) -> bool {
        let (t, next) = scan_step(self.src(), self.scanner.spec_pos(), self.scanner.spec_line());
        &&& t.token_type != TokenType::Error ==> {
            &&& later.current.spec_token() == t
            &&& later.scanner.spec_pos() == next
            &&& later.scanner.spec_line() == t.line
            &&& later.errors == self.errors
            &&& later.has_error == self.has_error
            &&& later.panic_mode == self.panic_mode
        }
        &&& t.token_type == TokenType::Error ==> later.has_error
    }

    /// As `evolves_to`, but only the first `keep` bytes of the current chunk are sure to be
    /// kept.
    spec fn evolves_keeping(&self, later: &Self, keep: int) -> bool {
        &&& later.wf()
        &&& forall|k: int|
            0 <= k < keep && k < self.code_len() ==> #[trigger] later.compiler.code()[k]
                == self.compiler.code()[k]
        &&& later.src() == self.src()
        &&& later.fuel() <= self.fuel()
        &&& later.enclosing@.len() == self.enclosing@.len()
        &&& forall|i: int|
            0 <= i < self.enclosing@.len() ==> same_code(
                #[trigger] later.enclosing@[i],
                self.enclosing@[i],
            )
        &&& later.compiler.function_type == self.compiler.function_type
        &&& later.code_len() >= self.code_len()
        &&& later.base_heap == self.base_heap
        &&& later.base_strings == self.base_strings
        &&& self.has_error ==> later.has_error
        &&& self.names_grow_to(later)
        &&& later.object_manager.heap_len() >= self.object_manager.heap_len()
        &&& forall|q: ObjRef|
            q < self.object_manager.heap_len() ==> #[trigger] later.object_manager.slot(q)
                == self.object_manager.slot(q)
    }

    /// Unless `later` reports an error, it ends with an access to the variable `name`: a
    /// read, or an assignment where one is allowed; a local's operand is the slot of a local
    /// of that name, a global's names it.
    spec fn accesses_variable(&self, later: &Self, name: Token, can_assign: bool) -> bool {
        !later.has_error ==> {
            let code = later.compiler.code();
            let n = code.len() as int;
            let op = code[n - 2];
            &&& self.code_len() + 2 <= n
            &&& is_get_op(op) || (can_assign && is_set_op(op))
            &&& (op == OpCode::GetGlobal.spec_byte() || op == OpCode::SetGlobal.spec_byte())
                ==> later.names_constant(code[n - 1], name.value@)
            &&& (op == OpCode::GetLocal.spec_byte() || op == OpCode::SetLocal.spec_byte())
                ==> code[n - 1] < self.compiler.locals@.len() && names_match(
                self.compiler.locals@[code[n - 1] as int],
                name,
            )
        }
    }

    /// The current chunk is at least `least` long and ends with the definition of the global
    /// `name`.
    spec fn defines_global(&self, least: int, name: Seq<char>) -> bool {
        let code = self.compiler.code();
        let n = code.len() as int;
        &&& least + 2 <= n
        &&& code[n - 2] == OpCode::DefineGlobal.spec_byte()
        &&& self.names_constant(code[n - 1], name)
    }

    /// From `start` on, the current chunk ends with a use of the field `name`: a read, an
    /// assignment where one is allowed, or a method call.
    spec fn uses_field(&self, start: int, name: Seq<char>, can_assign: bool) -> bool {
        let code = self.compiler.code();
        let n = code.len() as int;
        exists|k: int|
            #![trigger code[k]]
            start <= k && k + 2 <= n && self.names_constant(code[k + 1], name) && ((code[k]
                == OpCode::GetField.spec_byte() && k + 2 == n) || (can_assign && code[k]
                == OpCode::SetField.spec_byte() && k + 2 == n) || (code[k]
                == OpCode::Invoke.spec_byte() && k + 3 == n))
    }

    /// Unless there is an error, the current chunk ends, after `start`, with the instruction
    /// that makes a struct `name` (on the heap when `heap`) from distinct fields.
    spec fn builds_struct(&self, start: int, name: Seq<char>, heap: bool) -> bool {
        !self.has_error ==> exists|fields: Seq<Seq<char>>|
            #[trigger] self.declares_names(
                self.compiler.code().len() - 3 - fields.len(),
                instantiate_op(heap),
                name,
                fields,
            ) && all_distinct(fields) && start <= self.compiler.code().len() - 3 - fields.len()
    }

    /// What the current chunk declares depends on the chunk and the interned strings alone.
    proof fn lemma_declares_same(&self, other: &Self, start: int, op: u8, name: Seq<char>, names: Seq<Seq<char>>)
        requires
            self.compiler == other.compiler,
            self.intern_strings == other.intern_strings,
            self.declares_names(start, op, name, names),
        ensures
            other.declares_names(start, op, name, names),
    {
        let code = self.compiler.code();
        assert forall|i: int| 0 <= i < names.len() implies #[trigger] other.names_constant(
            code.subrange(start + 3, code.len() as int)[i],
            names[i],
        ) by {
            assert(self.names_constant(code.subrange(start + 3, code.len() as int)[i], names[i]));
        }
    }

    proof fn lemma_evolves_trans(&self, middle: &Self, later: &Self)
        requires
            self.evolves_to(middle),
            middle.evolves_to(later),
        ensures
            self.evolves_to(later),
    {
    }

    /// Everything but the error state is as in `other`.
    spec fn same_but_errors(&self, other: &Self) -> bool {
        &&& self.base_heap == other.base_heap
        &&& self.base_strings == other.base_strings
        &&& self.current == other.current
        &&& self.previous == other.previous
        &&& self.scanner == other.scanner
        &&& self.compiler == other.compiler
        &&& self.enclosing == other.enclosing
        &&& self.object_manager == other.object_manager
        &&& self.intern_strings == other.intern_strings
        &&& self.last_expr_stack_struct == other.last_expr_stack_struct
        &&& self.force_heap_struct_literal == other.force_heap_struct_literal
        &&& self.operand_ops == other.operand_ops
    }

    /// The scope, the locals and the kind of struct literal being compiled are as in `self`.
    spec fn keeps_context(&self, later: &Self) -> bool {
        &&& later.compiler.scope_depth == self.compiler.scope_depth
        &&& later.compiler.locals == self.compiler.locals
        &&& later.force_heap_struct_literal == self.force_heap_struct_literal
    }

    /// `later` has emitted code, or has reported an error.
    spec fn emits_or_fails(&self, later: &Self) -> bool {
        later.code_len() > self.code_len() || later.has_error
    }

    /// Everything but the current chunk is as in `other`.
    spec fn same_but_chunk(&self, other: &Self) -> bool {
        &&& self.base_heap == other.base_heap
        &&& self.base_strings == other.base_strings
        &&& self.current == other.current
        &&& self.previous == other.previous
        &&& self.scanner == other.scanner
        &&& self.has_error == other.has_error
        &&& self.panic_mode == other.panic_mode
        &&& self.errors == other.errors
        &&& self.compiler.function_type == other.compiler.function_type
        &&& self.compiler.locals == other.compiler.locals
        &&& self.compiler.upvalues == other.compiler.upvalues
        &&& self.compiler.scope_depth == other.compiler.scope_depth
        &&& self.enclosing == other.enclosing
        &&& self.object_manager == other.object_manager
        &&& self.intern_strings == other.intern_strings
        &&& self.last_expr_stack_struct == other.last_expr_stack_struct
        &&& self.force_heap_struct_literal == other.force_heap_struct_literal
        &&& self.operand_ops == other.operand_ops
    }

    /// A parser that allocates in `object_manager` and interns strings in `intern_strings`.
    pub fn new(object_manager: ObjectManager, intern_strings: Table) -> (parser: Self)
        requires
            object_manager.wf(),
            intern_strings.wf(),
            strings_interned(intern_strings, object_manager),
        ensures
            parser.ready(),
            parser.manager() == object_manager,
            parser.strings() == intern_strings,
    {
        proof {
            reveal_strlit("");
        }
        let ghost base_heap = object_manager;
        let ghost base_strings = intern_strings@;
        let scanner = Scanner::new("");
        Parser {
            current: Token { token_type: TokenType::Eof, value: "", line: 0 },
            previous: Token { token_type: TokenType::Eof, value: "", line: 0 },
            scanner: *scanner,
            has_error: false,
            panic_mode: false,
            compiler: Compiler::new(FunctionType::Script, String::new()),
            enclosing: Vec::new(),
            object_manager,
            intern_strings,
            last_expr_stack_struct: false,
            force_heap_struct_literal: false,
            errors: Vec::new(),
            base_heap: Ghost(base_heap),
            base_strings: Ghost(base_strings),
            operand_ops: Ghost(Seq::empty()),
        }
    }

    /// Gives back the heap and the table of interned strings.
    pub fn into_parts(self) -> (parts: (ObjectManager, Table))
        ensures
            parts.0 == self.manager(),
            parts.1 == self.strings(),
    {
        (self.object_manager, self.intern_strings)
    }

    /// The heap the parser allocates in.
    pub fn object_manager(&self) -> (m: &ObjectManager)
        ensures
            *m == self.manager(),
    {
        &self.object_manager
    }

    /// The table of interned strings.
    pub fn intern_strings(&self) -> (t: &Table)
        ensures
            *t == self.strings(),
    {
        &self.intern_strings
    }

    /// The errors reported so far, in order.
    pub fn errors(&self) -> (e: &Vec<CompileError>)
        ensures
            e@ == self.spec_errors(),
    {
        &self.errors
    }

    /// Gives back the heap, the table of interned strings and the errors reported.
    pub fn into_parts_and_errors(self) -> (parts: (ObjectManager, Table, Vec<CompileError>))
        ensures
            parts.0 == self.manager(),
            parts.1 == self.strings(),
            parts.2@ == self.spec_errors(),
    {
        (self.object_manager, self.intern_strings, self.errors)
    }

    // -----------------------------------------------------------------------------------------
    // Tokens
    // -----------------------------------------------------------------------------------------

    /// Reports `message` at `token`, unless an error is already being recovered from.
    fn error_at(&mut self, token: Token<'a>, message: &str)
        requires
            old(self).has_error == (old(self).errors@.len() > 0),
        ensures
            final(self).same_but_errors(&*old(self)),
            final(self).panic_mode,
            final(self).has_error == (old(self).has_error || !old(self).panic_mode),
            final(self).has_error == (final(self).errors@.len() > 0),
            old(self).panic_mode ==> final(self).errors == old(self).errors,
    {
        if self.panic_mode {
            return;
        }
        self.panic_mode = true;
        let location = match token.token_type {
            TokenType::Eof => ErrorLocation::AtEnd,
            TokenType::Error => ErrorLocation::Unplaced,
            _ => ErrorLocation::AtToken(token.value.to_string()),
        };
        self.errors.push(CompileError { line: token.line, location, message: message.to_string() });
        self.has_error = true;
    }

    /// Reports `message` at the token just consumed.
    fn error(&mut self, message: &str)
        requires
            old(self).has_error == (old(self).errors@.len() > 0),
        ensures
            final(self).same_but_errors(&*old(self)),
            final(self).panic_mode,
            final(self).has_error == (old(self).has_error || !old(self).panic_mode),
            final(self).has_error == (final(self).errors@.len() > 0),
            old(self).panic_mode ==> final(self).errors == old(self).errors,
    {
        let token = self.previous;
        self.error_at(token, message);
    }

    /// Reports `message` at the current token.
    fn error_at_current(&mut self, message: &str)
        requires
            old(self).has_error == (old(self).errors@.len() > 0),
        ensures
            final(self).same_but_errors(&*old(self)),
            final(self).panic_mode,
            final(self).has_error == (old(self).has_error || !old(self).panic_mode),
            final(self).has_error == (final(self).errors@.len() > 0),
            old(self).panic_mode ==> final(self).errors == old(self).errors,
    {
        let token = self.current;
        self.error_at(token, message);
    }

    /// Moves to the next token the scanner accepts, reporting the ones it rejects.
    fn advance(&mut self)
        requires
            old(self).wf(),
        ensures
            old(self).evolves_to(&*final(self)),
            final(self).previous == old(self).current,
            final(self).current.token_type != TokenType::Error,
            old(self).current.token_type != TokenType::Eof ==> final(self).fuel() < old(self).fuel(),
            final(self).compiler == old(self).compiler,
            final(self).enclosing == old(self).enclosing,
            final(self).object_manager == old(self).object_manager,
            final(self).intern_strings == old(self).intern_strings,
            final(self).last_expr_stack_struct == old(self).last_expr_stack_struct,
            final(self).force_heap_struct_literal == old(self).force_heap_struct_literal,
            old(self).advances_to(&*final(self)),
    {
        let ghost p0 = self.scanner.spec_pos();
        let ghost line0 = self.scanner.spec_line();
        let ghost len = self.scanner.spec_source().len();
        let ghost first = scan_step(self.src(), p0, line0).0;
        self.previous = self.current;
        let ghost mut rejected = false;
        loop
            invariant_except_break
                !rejected ==> {
                    &&& self.scanner.spec_pos() == p0
                    &&& self.scanner.spec_line() == line0
                    &&& self.errors == old(self).errors
                    &&& self.has_error == old(self).has_error
                    &&& self.panic_mode == old(self).panic_mode
                },
            invariant
                rejected ==> first.token_type == TokenType::Error && self.has_error,
                first == scan_step(old(self).src(), p0, line0).0,
                line0 == old(self).scanner.spec_line(),
                self.wf(),
                self.src() == old(self).src(),
                self.previous == old(self).current,
                p0 <= self.scanner.spec_pos() <= len,
                len == self.scanner.spec_source().len(),
                rejected ==> p0 < self.scanner.spec_pos(),
                old(self).has_error ==> self.has_error,
                self.compiler == old(self).compiler,
                self.enclosing == old(self).enclosing,
                self.object_manager == old(self).object_manager,
                self.intern_strings == old(self).intern_strings,
                self.last_expr_stack_struct == old(self).last_expr_stack_struct,
                self.force_heap_struct_literal == old(self).force_heap_struct_literal,
                self.base_heap == old(self).base_heap,
                self.base_strings == old(self).base_strings,
                old(self).wf(),
                old(self).scanner.spec_pos() == p0,
            ensures
                rejected ==> first.token_type == TokenType::Error && self.has_error,
                !rejected ==> {
                    &&& self.current.spec_token() == first
                    &&& (self.current.spec_token(), self.scanner.spec_pos()) == scan_step(
                        old(self).src(),
                        p0,
                        line0,
                    )
                    &&& self.scanner.spec_line() == first.line
                    &&& self.errors == old(self).errors
                    &&& self.has_error == old(self).has_error
                    &&& self.panic_mode == old(self).panic_mode
                },
                self.wf(),
                self.src() == old(self).src(),
                self.previous == old(self).current,
                self.current.token_type != TokenType::Error,
                p0 <= self.scanner.spec_pos() <= len,
                self.current.token_type != TokenType::Eof ==> p0 < self.scanner.spec_pos(),
                rejected ==> p0 < self.scanner.spec_pos(),
                old(self).has_error ==> self.has_error,
                self.compiler == old(self).compiler,
                self.enclosing == old(self).enclosing,
                self.object_manager == old(self).object_manager,
                self.intern_strings == old(self).intern_strings,
                self.last_expr_stack_struct == old(self).last_expr_stack_struct,
                self.force_heap_struct_literal == old(self).force_heap_struct_literal,
                self.base_heap == old(self).base_heap,
                self.base_strings == old(self).base_strings,
            decreases len - self.scanner.spec_pos(),
        {
            let ghost before = self.scanner;
            proof {
                lemma_scan_step_progress(
                    before.spec_source(),
                    before.spec_pos(),
                    before.spec_line(),
                );
            }
            let token = self.scanner.scan_token();
            self.current = token;
            proof {
                if !rejected {
                    assert(token.spec_token() == first);
                }
            }
            if token.token_type != TokenType::Error {
                break ;
            }
            self.error_at_current(token.value);
            proof {
                rejected = true;
            }
        }
    }

    /// Whether the current token has type `token_type`.
    fn check(&self, token_type: TokenType) -> (b: bool)
        ensures
            b == (self.current.token_type == token_type),
    {
        self.current.token_type == token_type
    }

    /// Consumes the current token if it has type `token_type`.
    fn match_token(&mut self, token_type: TokenType) -> (b: bool)
        requires
            old(self).wf(),
        ensures
            old(self).evolves_to(&*final(self)),
            b == (old(self).current.token_type == token_type),
            !b ==> *final(self) == *old(self),
            b ==> final(self).previous == old(self).current,
            b && token_type != TokenType::Eof ==> final(self).fuel() < old(self).fuel(),
            final(self).current.token_type != TokenType::Error || !b,
            b ==> old(self).advances_to(&*final(self)),
            final(self).compiler == old(self).compiler,
            final(self).enclosing == old(self).enclosing,
            final(self).object_manager == old(self).object_manager,
            final(self).intern_strings == old(self).intern_strings,
            final(self).last_expr_stack_struct == old(self).last_expr_stack_struct,
            final(self).force_heap_struct_literal == old(self).force_heap_struct_literal,
    {
        if !self.check(token_type) {
            return false;
        }
        self.advance();
        true
    }

    /// Consumes the current token, which should have type `token_type`; else reports `message`.
    fn consume(&mut self, token_type: TokenType, message: &str)
        requires
            old(self).wf(),
        ensures
            old(self).evolves_to(&*final(self)),
            old(self).current.token_type == token_type ==> final(self).previous == old(self).current,
            old(self).current.token_type != token_type ==> final(self).has_error,
            old(self).current.token_type == token_type && token_type != TokenType::Eof
                ==> final(self).fuel() < old(self).fuel(),
            old(self).current.token_type == token_type ==> old(self).advances_to(&*final(self)),
            final(self).compiler == old(self).compiler,
            final(self).enclosing == old(self).enclosing,
            final(self).object_manager == old(self).object_manager,
            final(self).intern_strings == old(self).intern_strings,
            final(self).last_expr_stack_struct == old(self).last_expr_stack_struct,
            final(self).force_heap_struct_literal == old(self).force_heap_struct_literal,
    {
        if self.current.token_type == token_type {
            self.advance();
            return ;
        }
        self.error_at_current(message);
    }

    // -----------------------------------------------------------------------------------------
    // Emitting code
    // -----------------------------------------------------------------------------------------

    /// Appends `byte` to the current chunk, with the line of the token just consumed.
    fn emit_byte(&mut self, byte: u8)
        requires
            old(self).wf(),
        ensures
            final(self).wf(),
            final(self).same_but_chunk(&*old(self)),
            final(self).compiler.code() == old(self).compiler.code().push(byte),
            final(self).compiler.constants() == old(self).compiler.constants(),
            final(self).compiler.function.arity == old(self).compiler.function.arity,
            final(self).compiler.function.name == old(self).compiler.function.name,
            final(self).compiler.function.upvalue_count == old(self).compiler.function.upvalue_count,
    {
        let line = self.previous.line;
        self.compiler.function.chunk.write(byte, line);
    }

    fn emit_bytes(&mut self, byte1: u8, byte2: u8)
        requires
            old(self).wf(),
        ensures
            final(self).wf(),
            final(self).same_but_chunk(&*old(self)),
            final(self).compiler.code() == old(self).compiler.code().push(byte1).push(byte2),
            final(self).compiler.constants() == old(self).compiler.constants(),
            final(self).compiler.function.arity == old(self).compiler.function.arity,
            final(self).compiler.function.name == old(self).compiler.function.name,
            final(self).compiler.function.upvalue_count == old(self).compiler.function.upvalue_count,
    {
        self.emit_byte(byte1);
        self.emit_byte(byte2);
    }

    /// Everything but the current chunk and the error state is as in `other`.
    spec fn same_but_output(&self, other: &Self) -> bool {
        &&& self.base_heap == other.base_heap
        &&& self.base_strings == other.base_strings
        &&& self.current == other.current
        &&& self.previous == other.previous
        &&& self.scanner == other.scanner
        &&& self.compiler.function_type == other.compiler.function_type
        &&& self.compiler.locals == other.compiler.locals
        &&& self.compiler.upvalues == other.compiler.upvalues
        &&& self.compiler.scope_depth == other.compiler.scope_depth
        &&& self.enclosing == other.enclosing
        &&& self.object_manager == other.object_manager
        &&& self.intern_strings == other.intern_strings
        &&& self.last_expr_stack_struct == other.last_expr_stack_struct
        &&& self.force_heap_struct_literal == other.force_heap_struct_literal
        &&& self.operand_ops == other.operand_ops
    }

    /// The index of `value` in the constants of the current chunk, adding it if it is not
    /// there; reports an error when the chunk would hold more than 256 constants.
    fn make_constant(&mut self, value: Value) -> (index: u8)
        requires
            old(self).wf(),
        ensures
            old(self).evolves_to(&*final(self)),
            final(self).same_but_output(&*old(self)),
            final(self).compiler.code() == old(self).compiler.code(),
            final(self).compiler.constants() == old(self).compiler.constants()
                || final(self).compiler.constants() == old(self).compiler.constants().push(value),
            !final(self).has_error ==> index < final(self).compiler.constants().len()
                && final(self).compiler.constants()[index as int] == value,
            old(self).compiler.constants().contains(value) ==> final(self).compiler.constants()
                == old(self).compiler.constants(),
            old(self).compiler.constants().len() < 256 ==> final(self).errors == old(self).errors
                && final(self).has_error == old(self).has_error && final(self).panic_mode
                == old(self).panic_mode,
            final(self).compiler.function.arity == old(self).compiler.function.arity,
            final(self).compiler.function.name == old(self).compiler.function.name,
            final(self).compiler.function.upvalue_count == old(self).compiler.function.upvalue_count,
    {
        if let Some(index) = self.compiler.function.chunk.position_of(value) {
            return #[verifier::truncate] (index as u8);
        }
        let constant_index = self.compiler.function.chunk.add_constant(value);
        if constant_index > 255 {
            self.error("Too many constants in one chunk.");
            return 0;
        }
        constant_index as u8
    }

    /// Emits code that pushes `value`.
    fn emit_constant(&mut self, value: Value)
        requires
            old(self).wf(),
        ensures
            old(self).evolves_to(&*final(self)),
            final(self).same_but_output(&*old(self)),
            exists|index: u8|
                final(self).compiler.code() == old(self).compiler.code().push(
                    OpCode::Constant.spec_byte(),
                ).push(index) && (!final(self).has_error ==> index
                    < final(self).compiler.constants().len()
                    && final(self).compiler.constants()[index as int] == value),
    {
        let index = self.make_constant(value);
        self.emit_bytes(OpCode::Constant.to_byte(), index);
    }

    /// Emits the implicit `return nil`.
    fn emit_return(&mut self)
        requires
            old(self).wf(),
        ensures
            final(self).wf(),
            final(self).same_but_chunk(&*old(self)),
            final(self).compiler.code() == old(self).compiler.code().push(
                OpCode::Nil.spec_byte(),
            ).push(OpCode::Return.spec_byte()),
            final(self).compiler.constants() == old(self).compiler.constants(),
            final(self).compiler.function.arity == old(self).compiler.function.arity,
            final(self).compiler.function.name == old(self).compiler.function.name,
            final(self).compiler.function.upvalue_count == old(self).compiler.function.upvalue_count,
    {
        self.emit_bytes(OpCode::Nil.to_byte(), OpCode::Return.to_byte());
    }

    /// Emits a jump instruction with a placeholder operand; gives the operand's offset.
    fn emit_jump_bytes(&mut self, instruction: u8) -> (offset: usize)
        requires
            old(self).wf(),
        ensures
            final(self).wf(),
            final(self).same_but_chunk(&*old(self)),
            final(self).compiler.code() == old(self).compiler.code().push(instruction).push(
                0xffu8,
            ).push(0xffu8),
            offset + 2 == final(self).compiler.code().len(),
            final(self).compiler.constants() == old(self).compiler.constants(),
            final(self).compiler.function.arity == old(self).compiler.function.arity,
            final(self).compiler.function.name == old(self).compiler.function.name,
            final(self).compiler.function.upvalue_count == old(self).compiler.function.upvalue_count,
    {
        self.emit_byte(instruction);
        self.emit_byte(0xff);
        self.emit_byte(0xff);
        self.compiler.function.chunk.len() - 2
    }

    /// Fills in the operand at `offset` with the distance from after it to the end of the
    /// code, high byte first; reports an error when that does not fit in 16 bits.
    fn patch_jump_offset(&mut self, offset: usize)
        requires
            old(self).wf(),
            offset + 2 <= old(self).compiler.code().len(),
        ensures
            old(self).evolves_keeping(&*final(self), offset as int),
            final(self).same_but_output(&*old(self)),
            ({
                let jump = old(self).compiler.code().len() - offset - 2;
                &&& jump <= 0xffff ==> final(self).compiler.code() == old(self).compiler.code().update(offset as int, (jump / 256) as u8).update(
                    offset + 1,
                    (jump % 256) as u8,
                )
                &&& jump > 0xffff ==> final(self).has_error
                &&& final(self).compiler.code().len() == old(self).compiler.code().len()
            }),
            final(self).compiler.constants() == old(self).compiler.constants(),
            final(self).compiler.function.arity == old(self).compiler.function.arity,
            final(self).compiler.function.name == old(self).compiler.function.name,
            final(self).compiler.function.upvalue_count == old(self).compiler.function.upvalue_count,
    {
        let jump = self.compiler.function.chunk.len() - offset - 2;
        if jump > 0xffff {
            self.error("Too much code to jump over.");
        }
        let high = ((jump / 256) % 256) as u8;
        let low = (jump % 256) as u8;
        self.compiler.function.chunk.write_by_offset(offset, high);
        self.compiler.function.chunk.write_by_offset(offset + 1, low);
    }

    /// Emits a backward jump to `loop_start`; reports an error when the distance does not fit
    /// in 16 bits.
    fn emit_loop(&mut self, loop_start: usize)
        requires
            old(self).wf(),
            loop_start <= old(self).compiler.code().len(),
        ensures
            old(self).evolves_to(&*final(self)),
            final(self).same_but_output(&*old(self)),
            ({
                let distance = old(self).compiler.code().len() + 3 - loop_start;
                &&& distance <= 0xffff ==> final(self).compiler.code() == old(self).compiler.code().push(OpCode::Loop.spec_byte()).push((distance / 256) as u8).push(
                    (distance % 256) as u8,
                )
                &&& distance > 0xffff ==> final(self).has_error
                &&& final(self).compiler.code().len() == old(self).compiler.code().len() + 3
            }),
            final(self).compiler.constants() == old(self).compiler.constants(),
            final(self).compiler.function.arity == old(self).compiler.function.arity,
            final(self).compiler.function.name == old(self).compiler.function.name,
            final(self).compiler.function.upvalue_count == old(self).compiler.function.upvalue_count,
    {
        self.emit_byte(OpCode::Loop.to_byte());
        let span = self.compiler.function.chunk.len() - loop_start;
        if span > 0xffff - 2 {
            self.error("Loop body too large.");
        }
        let distance = span % 0x10000 + 2;
        self.emit_byte(((distance / 256) % 256) as u8);
        self.emit_byte((distance % 256) as u8);
    }

    /// Constant `index` of the current chunk is the interned string holding `name`.
    spec fn names_constant(&self, index: u8, name: Seq<char>) -> bool {
        &&& self.intern_strings@.dom().contains(name)
        &&& index < self.compiler.constants().len()
        &&& self.compiler.constants()[index as int] == self.intern_strings@[name]
    }

    /// What `later` knows of the current chunk's constants and the interned strings still
    /// holds of this state's: both only grew.
    spec fn names_grow_to(&self, later: &Self) -> bool {
        &&& forall|k: Seq<char>|
            #[trigger] self.intern_strings@.dom().contains(k) ==> later.intern_strings@.dom().contains(k)
                && later.intern_strings@[k] == self.intern_strings@[k]
        &&& self.compiler.constants().len() <= later.compiler.constants().len()
        &&& forall|k: int|
            0 <= k < self.compiler.constants().len() ==> #[trigger] later.compiler.constants()[k]
                == self.compiler.constants()[k]
    }

    /// Each of `operands` names the interned string of the name at the same place.
    spec fn names_constants(&self, operands: Seq<u8>, names: Seq<Seq<char>>) -> bool {
        &&& operands.len() == names.len()
        &&& forall|i: int| 0 <= i < names.len() ==> #[trigger] self.names_constant(operands[i], names[i])
    }

    /// From `start` on, the current chunk holds exactly the instruction `op` with a constant
    /// operand naming `name`, the number of `names`, and a constant operand naming each of
    /// them.
    spec fn declares_names(&self, start: int, op: u8, name: Seq<char>, names: Seq<Seq<char>>) -> bool {
        let code = self.compiler.code();
        &&& code.len() == start + 3 + names.len()
        &&& code[start] == op
        &&& self.names_constant(code[start + 1], name)
        &&& code[start + 2] == names.len()
        &&& self.names_constants(code.subrange(start + 3, code.len() as int), names)
    }

    /// The interned string constant holding `name`.
    fn identifier_constant(&mut self, name: &str) -> (index: u8)
        requires
            old(self).wf(),
        ensures
            old(self).evolves_to(&*final(self)),
            !final(self).has_error ==> final(self).names_constant(index, name@),
            final(self).current == old(self).current,
            final(self).previous == old(self).previous,
            final(self).scanner == old(self).scanner,
            final(self).compiler.function_type == old(self).compiler.function_type,
            final(self).compiler.locals == old(self).compiler.locals,
            final(self).compiler.upvalues == old(self).compiler.upvalues,
            final(self).compiler.scope_depth == old(self).compiler.scope_depth,
            final(self).enclosing == old(self).enclosing,
            final(self).last_expr_stack_struct == old(self).last_expr_stack_struct,
            final(self).force_heap_struct_literal == old(self).force_heap_struct_literal,
            final(self).compiler.code() == old(self).compiler.code(),
            final(self).intern_strings@.dom().contains(name@),
            !final(self).has_error ==> index < final(self).compiler.constants().len()
                && final(self).compiler.constants()[index as int] == final(self).intern_strings@[name@],
            old(self).compiler.constants().len() < 256 ==> final(self).errors == old(self).errors
                && final(self).has_error == old(self).has_error && final(self).panic_mode
                == old(self).panic_mode,
            final(self).compiler.function.arity == old(self).compiler.function.arity,
            final(self).compiler.function.name == old(self).compiler.function.name,
            final(self).compiler.function.upvalue_count == old(self).compiler.function.upvalue_count,
    {
        let ghost t0 = self.intern_strings@;
        let value = make_string_value(&mut self.object_manager, &mut self.intern_strings, name);
        proof {
            assert(t0.submap_of(self.intern_strings@));
            vstd::map_lib::lemma_submap_of_trans(self.base_strings@, t0, self.intern_strings@);
            assert(self.base_strings@.submap_of(self.intern_strings@));
            assert(self.object_manager.heap_len() >= self.base_heap@.heap_len());
            assert(self.keeps_base());
            assert(self.script_ok());
            assert(self.wf());
        }
        self.make_constant(value)
    }

    /// The compiler at depth `ci`: the enclosing ones first, then the current one.
    spec fn compiler_at(&self, ci: int) -> Compiler<'a> {
        if ci == self.enclosing@.len() {
            self.compiler
        } else {
            self.enclosing@[ci]
        }
    }

    /// Everything but the locals, the scope depth, the current chunk and the error state is
    /// as in `other`.
    spec fn same_but_scope(&self, other: &Self) -> bool {
        &&& self.base_heap == other.base_heap
        &&& self.base_strings == other.base_strings
        &&& self.current == other.current
        &&& self.previous == other.previous
        &&& self.scanner == other.scanner
        &&& self.compiler.function_type == other.compiler.function_type
        &&& self.compiler.upvalues == other.compiler.upvalues
        &&& self.compiler.function.arity == other.compiler.function.arity
        &&& self.compiler.function.upvalue_count == other.compiler.function.upvalue_count
        &&& self.enclosing == other.enclosing
        &&& self.object_manager == other.object_manager
        &&& self.intern_strings == other.intern_strings
        &&& self.last_expr_stack_struct == other.last_expr_stack_struct
        &&& self.force_heap_struct_literal == other.force_heap_struct_literal
    }

    /// Opens a block scope.
    fn begin_scope(&mut self)
        requires
            old(self).wf(),
        ensures
            old(self).evolves_to(&*final(self)),
            final(self).same_but_scope(&*old(self)),
            final(self).compiler.locals == old(self).compiler.locals,
            final(self).compiler.code() == old(self).compiler.code(),
            final(self).compiler.constants() == old(self).compiler.constants(),
            old(self).compiler.scope_depth < i32::MAX ==> final(self).compiler.scope_depth == old(self).compiler.scope_depth + 1,
            old(self).compiler.scope_depth == i32::MAX ==> final(self).has_error,
    {
        if self.compiler.scope_depth < i32::MAX {
            self.compiler.scope_depth = self.compiler.scope_depth + 1;
        } else {
            self.error("Too many nested scopes.");
        }
    }

    /// Closes a block scope: emits a `Pop`, or a `CloseUpvalue` for a captured local, for
    /// each local of the scope, innermost first, and forgets them.
    fn end_scope(&mut self)
        requires
            old(self).wf(),
        ensures
            old(self).evolves_to(&*final(self)),
            final(self).same_but_scope(&*old(self)),
            final(self).has_error == old(self).has_error,
            final(self).compiler.constants() == old(self).compiler.constants(),
            final(self).compiler.scope_depth == (if old(self).compiler.scope_depth > 0 {
                old(self).compiler.scope_depth - 1
            } else {
                0
            }),
            ({
                let k = final(self).compiler.locals@.len() as int;
                let l0 = old(self).compiler.locals@;
                &&& k <= l0.len()
                &&& final(self).compiler.locals@ == l0.subrange(0, k)
                &&& final(self).compiler.code() == old(self).compiler.code() + closing_bytes(
                    l0,
                    k,
                )
                &&& forall|i: int|
                    k <= i < l0.len() ==> (#[trigger] l0[i]).depth > final(self).compiler.scope_depth
                &&& k > 0 ==> l0[k - 1].depth <= final(self).compiler.scope_depth
            }),
    {
        if self.compiler.scope_depth > 0 {
            self.compiler.scope_depth = self.compiler.scope_depth - 1;
        }
        let depth = self.compiler.scope_depth;
        let ghost l0 = old(self).compiler.locals@;
        let ghost code0 = old(self).compiler.code();
        loop
            invariant
                old(self).wf(),
                self.wf(),
                old(self).evolves_to(&*self),
                self.same_but_scope(&*old(self)),
                self.has_error == old(self).has_error,
                self.compiler.constants() == old(self).compiler.constants(),
                self.compiler.scope_depth == depth,
                l0 == old(self).compiler.locals@,
                code0 == old(self).compiler.code(),
                depth == (if old(self).compiler.scope_depth > 0 {
                    old(self).compiler.scope_depth - 1
                } else {
                    0
                }),
                self.compiler.locals@.len() <= l0.len(),
                self.compiler.locals@ == l0.subrange(0, self.compiler.locals@.len() as int),
                self.compiler.code() == code0 + closing_bytes(
                    l0,
                    self.compiler.locals@.len() as int,
                ),
                forall|i: int|
                    self.compiler.locals@.len() <= i < l0.len() ==> (#[trigger] l0[i]).depth
                        > depth,
            ensures
                self.wf(),
                old(self).evolves_to(&*self),
                self.same_but_scope(&*old(self)),
                self.has_error == old(self).has_error,
                self.compiler.constants() == old(self).compiler.constants(),
                self.compiler.scope_depth == depth,
                self.compiler.locals@.len() <= l0.len(),
                self.compiler.locals@ == l0.subrange(0, self.compiler.locals@.len() as int),
                self.compiler.code() == code0 + closing_bytes(
                    l0,
                    self.compiler.locals@.len() as int,
                ),
                forall|i: int|
                    self.compiler.locals@.len() <= i < l0.len() ==> (#[trigger] l0[i]).depth
                        > depth,
                self.compiler.locals@.len() > 0 ==> l0[self.compiler.locals@.len() - 1].depth
                    <= depth,
            decreases self.compiler.locals@.len(),
        {
            let n = self.compiler.locals.len();
            if n == 0 {
                break ;
            }
            let local = self.compiler.locals[n - 1];
            if local.depth <= depth {
                break ;
            }
            proof {
                assert(local == l0[n - 1]);
                lemma_closing_bytes_step(l0, n as int);
            }
            if local.captured {
                self.emit_byte(OpCode::CloseUpvalue.to_byte());
            } else {
                self.emit_byte(OpCode::Pop.to_byte());
            }
            self.compiler.locals.pop();
            proof {
                assert(self.compiler.locals@ =~= l0.subrange(0, n - 1));
                assert(self.compiler.code() =~= code0 + closing_bytes(l0, n - 1));
            }
        }
    }

    /// Adds a local named by `name`, not yet initialized; reports an error when the function
    /// already has the most locals it can address.
    fn add_local(&mut self, name: Token<'a>)
        requires
            old(self).wf(),
        ensures
            old(self).evolves_to(&*final(self)),
            final(self).same_but_scope(&*old(self)),
            final(self).compiler.code() == old(self).compiler.code(),
            final(self).compiler.constants() == old(self).compiler.constants(),
            final(self).compiler.scope_depth == old(self).compiler.scope_depth,
            old(self).compiler.locals@.len() < 255 ==> final(self).compiler.locals@ == old(self).compiler.locals@.push(
                Local { name: name.value, kind: name.token_type, depth: -1i32, captured: false },
            ),
            old(self).compiler.locals@.len() >= 255 ==> final(self).compiler.locals
                == old(self).compiler.locals && final(self).has_error,
    {
        if self.compiler.locals.len() >= 255 {
            self.error("Too many local variables in function.");
            return ;
        }
        self.compiler.locals.push(
            Local { name: name.value, kind: name.token_type, depth: -1, captured: false },
        );
    }

    /// Declares the variable named by the token just consumed as a local of the current
    /// scope (at top level, variables are global and nothing is declared); reports an error
    /// when the scope already has one of that name.
    fn declare_variable(&mut self)
        requires
            old(self).wf(),
        ensures
            old(self).evolves_to(&*final(self)),
            final(self).same_but_scope(&*old(self)),
            final(self).compiler.code() == old(self).compiler.code(),
            final(self).compiler.constants() == old(self).compiler.constants(),
            final(self).compiler.scope_depth == old(self).compiler.scope_depth,
            old(self).compiler.scope_depth == 0 ==> *final(self) == *old(self),
            old(self).compiler.scope_depth > 0 && old(self).compiler.locals@.len() < 255
                ==> final(self).compiler.locals@ == old(self).compiler.locals@.push(
                Local {
                    name: old(self).previous.value,
                    kind: old(self).previous.token_type,
                    depth: -1i32,
                    captured: false,
                },
            ),
    {
        let scope_depth = self.compiler.scope_depth;
        if scope_depth == 0 {
            return ;
        }
        let name = self.previous;
        let mut err = false;
        let mut i = self.compiler.locals.len();
        while i > 0
            invariant
                i <= self.compiler.locals@.len(),
            decreases i,
        {
            let local = self.compiler.locals[i - 1];
            if local.depth != -1 && local.depth < scope_depth {
                break ;
            }
            if local.kind == name.token_type && same_text(local.name, name.value) {
                err = true;
                break ;
            }
            i = i - 1;
        }
        if err {
            self.error("Already a variable with this name in this scope.");
        }
        self.add_local(name);
    }

    /// Gives the local just declared the current scope's depth, which makes it usable.
    fn mark_initialized(&mut self)
        requires
            old(self).wf(),
        ensures
            old(self).evolves_to(&*final(self)),
            final(self).same_but_scope(&*old(self)),
            final(self).has_error == old(self).has_error,
            final(self).compiler.code() == old(self).compiler.code(),
            final(self).compiler.constants() == old(self).compiler.constants(),
            final(self).compiler.scope_depth == old(self).compiler.scope_depth,
            final(self).compiler.locals@.len() == old(self).compiler.locals@.len(),
            old(self).compiler.scope_depth > 0 && old(self).compiler.locals@.len() > 0 ==> ({
                let n = old(self).compiler.locals@.len() - 1;
                final(self).compiler.locals@ == old(self).compiler.locals@.update(
                    n,
                    Local { depth: old(self).compiler.scope_depth, ..old(self).compiler.locals@[n] },
                )
            }),
            old(self).compiler.scope_depth == 0 ==> *final(self) == *old(self),
    {
        let scope_depth = self.compiler.scope_depth;
        if scope_depth == 0 {
            return ;
        }
        let n = self.compiler.locals.len();
        if n > 0 {
            let mut local = self.compiler.locals[n - 1];
            local.depth = scope_depth;
            self.compiler.locals.set(n - 1, local);
        }
    }

    /// Emits the definition of the global named by constant `global`; a local needs no code,
    /// it is only marked initialized.
    fn define_variable(&mut self, global: u8)
        requires
            old(self).wf(),
        ensures
            old(self).evolves_to(&*final(self)),
            final(self).same_but_scope(&*old(self)),
            final(self).has_error == old(self).has_error,
            final(self).compiler.constants() == old(self).compiler.constants(),
            final(self).compiler.scope_depth == old(self).compiler.scope_depth,
            final(self).compiler.locals@.len() == old(self).compiler.locals@.len(),
            old(self).compiler.scope_depth == 0 ==> final(self).compiler.locals == old(self).compiler.locals,
            old(self).compiler.scope_depth > 0 && old(self).compiler.locals@.len() > 0 ==> ({
                let n = old(self).compiler.locals@.len() - 1;
                final(self).compiler.locals@ == old(self).compiler.locals@.update(
                    n,
                    Local { depth: old(self).compiler.scope_depth, ..old(self).compiler.locals@[n] },
                )
            }),
            old(self).compiler.scope_depth == 0 ==> final(self).compiler.code() == old(self).compiler.code().push(OpCode::DefineGlobal.spec_byte()).push(global),
            old(self).compiler.scope_depth > 0 ==> final(self).compiler.code() == old(self).compiler.code(),
    {
        if self.compiler.scope_depth > 0 {
            self.mark_initialized();
            return ;
        }
        self.emit_bytes(OpCode::DefineGlobal.to_byte(), global);
    }

    /// Compiler `ci` declares a local named `name`.
    spec fn declares_in(&self, ci: int, name: Token) -> bool {
        exists|i: int|
            0 <= i < self.compiler_at(ci).locals@.len() && names_match(
                #[trigger] self.compiler_at(ci).locals@[i],
                name,
            )
    }

    /// A function enclosing compiler `ci` declares a local named `name`: compiler `ci` can
    /// capture it.
    spec fn captures_name(&self, ci: int, name: Token) -> bool
        decreases ci,
    {
        if ci <= 0 {
            false
        } else {
            self.declares_in(ci - 1, name) || self.captures_name(ci - 1, name)
        }
    }

    proof fn lemma_captures_name_same(&self, other: &Self, ci: int, name: Token)
        requires
            self.compiler == other.compiler,
            self.enclosing == other.enclosing,
        ensures
            self.captures_name(ci, name) == other.captures_name(ci, name),
        decreases ci,
    {
        if ci > 0 {
            self.lemma_captures_name_same(other, ci - 1, name);
            assert(self.compiler_at(ci - 1) == other.compiler_at(ci - 1));
        }
    }

    /// Everything but the capture bookkeeping of the compilers (and the error state) is as
    /// in `other`.
    spec fn same_but_captures(&self, other: &Self) -> bool {
        &&& self.base_heap == other.base_heap
        &&& self.base_strings == other.base_strings
        &&& self.current == other.current
        &&& self.previous == other.previous
        &&& self.scanner == other.scanner
        &&& self.compiler.same_but_captures(&other.compiler)
        &&& self.enclosing@.len() == other.enclosing@.len()
        &&& forall|i: int|
            0 <= i < self.enclosing@.len() ==> (#[trigger] self.enclosing@[i]).same_but_captures(
                &other.enclosing@[i],
            )
        &&& self.object_manager == other.object_manager
        &&& self.intern_strings == other.intern_strings
        &&& self.last_expr_stack_struct == other.last_expr_stack_struct
        &&& self.force_heap_struct_literal == other.force_heap_struct_literal
    }

    /// Adds the capture to compiler `ci`; gives the upvalue's index.
    fn add_upvalue(&mut self, ci: usize, index: usize, is_local: bool) -> (r: usize)
        requires
            old(self).wf(),
            1 <= ci <= old(self).enclosing@.len(),
        ensures
            old(self).evolves_to(&*final(self)),
            final(self).same_but_captures(&*old(self)),
            final(self).has_error == old(self).has_error,
            final(self).compiler.locals == old(self).compiler.locals,
            r < final(self).compiler_at(ci as int).upvalues@.len(),
            final(self).compiler_at(ci as int).upvalues@[r as int] == (Upvalue { index, is_local }),
    {
        if ci == self.enclosing.len() {
            self.compiler.add_upvalue(index, is_local)
        } else {
            let mut c = self.enclosing.remove(ci);
            let r = c.add_upvalue(index, is_local);
            self.enclosing.insert(ci, c);
            proof {
                assert forall|i: int| 0 <= i < self.enclosing@.len() implies (
                #[trigger] self.enclosing@[i]).same_but_captures(&old(self).enclosing@[i]) by {
                    if i != ci {
                        assert(self.enclosing@[i] == old(self).enclosing@[i]);
                    }
                }
            }
            r
        }
    }

    /// Resolves `name` as a variable that compiler `ci` captures from the functions around
    /// it, adding the captures on the way; gives the upvalue's index, or nothing when no
    /// enclosing function has such a local.
    fn resolve_upvalue(&mut self, ci: usize, name: Token<'a>) -> (r: Option<usize>)
        requires
            old(self).wf(),
            ci <= old(self).enclosing@.len(),
        ensures
            old(self).evolves_to(&*final(self)),
            final(self).same_but_captures(&*old(self)),
            r matches Some(u) ==> u < final(self).compiler_at(ci as int).upvalues@.len(),
            ci == 0 ==> r is None && *final(self) == *old(self),
            r is Some <==> old(self).captures_name(ci as int, name),
            final(self).compiler.locals == old(self).compiler.locals,
        decreases ci,
    {
        if ci == 0 {
            return None;
        }
        let local = self.resolve_local(ci - 1, name);
        proof {
            old(self).lemma_captures_name_same(&*self, ci - 1, name);
            if local != -1 {
                assert(names_match(old(self).compiler_at(ci - 1).locals@[local as int], name));
                assert(old(self).declares_in(ci - 1, name));
            } else {
                assert(!old(self).declares_in(ci - 1, name));
            }
        }
        if local != -1 {
            let ghost mid = *self;
            let mut c = self.enclosing.remove(ci - 1);
            c.mark_captured(local as usize);
            self.enclosing.insert(ci - 1, c);
            proof {
                assert forall|i: int| 0 <= i < self.enclosing@.len() implies (
                #[trigger] self.enclosing@[i]).same_but_captures(&old(self).enclosing@[i]) by {
                    if i != ci - 1 {
                        assert(self.enclosing@[i] == mid.enclosing@[i]);
                    }
                }
                assert(old(self).evolves_to(&*self));
            }
            return Some(self.add_upvalue(ci, local as usize, true));
        }
        match self.resolve_upvalue(ci - 1, name) {
            Some(upvalue) => Some(self.add_upvalue(ci, upvalue, false)),
            None => None,
        }
    }

    /// The slot of the innermost local of compiler `ci` named by `name`, or -1; reports an
    /// error when that local is still being initialized.
    fn resolve_local(&mut self, ci: usize, name: Token<'a>) -> (r: i32)
        requires
            old(self).wf(),
            ci <= old(self).enclosing@.len(),
        ensures
            final(self).same_but_errors(&*old(self)),
            old(self).evolves_to(&*final(self)),
            ({
                let locals = old(self).compiler_at(ci as int).locals@;
                &&& r == -1 ==> forall|i: int|
                    0 <= i < locals.len() ==> !names_match(#[trigger] locals[i], name)
                &&& r != -1 ==> 0 <= r < locals.len() && names_match(locals[r as int], name)
                    && forall|j: int| r < j < locals.len() ==> !names_match(#[trigger] locals[j], name)
            }),
    {
        let ghost locals = self.compiler_at(ci as int).locals@;
        let mut i: usize = if ci == self.enclosing.len() {
            self.compiler.locals.len()
        } else {
            self.enclosing[ci].locals.len()
        };
        while i > 0
            invariant
                self == old(self),
                ci <= self.enclosing@.len(),
                locals == self.compiler_at(ci as int).locals@,
                i <= locals.len(),
                locals.len() <= 255,
                self.wf(),
                forall|j: int| i <= j < locals.len() ==> !names_match(#[trigger] locals[j], name),
            decreases i,
        {
            let local = if ci == self.enclosing.len() {
                self.compiler.locals[i - 1]
            } else {
                self.enclosing[ci].locals[i - 1]
            };
            if local.kind == name.token_type && same_text(local.name, name.value) {
                if local.depth == -1 {
                    self.error("Can't read local variable in its own initializer.");
                }
                return (i - 1) as i32;
            }
            i = i - 1;
        }
        -1
    }

    /// A number literal, converted by `num`: its constant is the first number of the chunk
    /// that the host counts equal to it, or a new one.
    fn number<N: Host>(&mut self, num: &N)
        requires
            old(self).wf(),
        ensures
            old(self).evolves_to(&*final(self)),
            old(self).keeps_context(&*final(self)),
            final(self).compiler.code().len() == old(self).code_len() + 2,
            final(self).compiler.code() == old(self).compiler.code().push(OpCode::Constant.spec_byte()).push(
                final(self).compiler.code()[old(self).code_len() + 1],
            ),
            ({
                let bits = num.spec_parse_number(old(self).previous.value);
                let index = final(self).compiler.code()[old(self).code_len() + 1];
                !final(self).has_error ==> (index < final(self).compiler.constants().len()
                    && (final(self).compiler.constants()[index as int] matches Value::Number(c) && (c
                    == bits || num.spec_numbers_equal(c, bits))))
            }),
    {
        let text = self.previous.value;
        let bits = num.parse_number(text);
        match self.compiler.function.chunk.find_number_constant(bits, num) {
            Some(index) => {
                self.emit_bytes(OpCode::Constant.to_byte(), #[verifier::truncate] (index as u8));
                proof {
                    if !self.has_error {
                        assert(self.compiler.constants().len() <= 256);
                    }
                }
            },
            None => self.emit_constant(Value::Number(bits)),
        }
    }

    /// A string literal: the interned string of the text between the quotes.
    fn string(&mut self)
        requires
            old(self).wf(),
        ensures
            old(self).evolves_to(&*final(self)),
            old(self).keeps_context(&*final(self)),
            final(self).compiler.code().len() == old(self).code_len() + 2,
            final(self).compiler.code() == old(self).compiler.code().push(OpCode::Constant.spec_byte()).push(
                final(self).compiler.code()[old(self).code_len() + 1],
            ),
            !final(self).has_error ==> final(self).names_constant(
                final(self).compiler.code()[old(self).code_len() + 1],
                string_contents(old(self).previous.value@),
            ),
    {
        let text = self.previous.value;
        let n = text.unicode_len();
        let literal = if n >= 2 {
            text.substring_char(1, n - 1)
        } else {
            ""
        };
        proof {
            reveal_strlit("");
            assert(literal@ == string_contents(text@));
        }
        let ghost t0 = self.intern_strings@;
        let value = make_string_value(&mut self.object_manager, &mut self.intern_strings, literal);
        proof {
            assert(t0.submap_of(self.intern_strings@));
            assert(self.base_strings@.submap_of(self.intern_strings@));
            assert(self.object_manager.heap_len() >= self.base_heap@.heap_len());
            assert(self.keeps_base());
            assert(self.script_ok());
            assert(self.wf());
        }
        let ghost valued = *self;
        self.emit_constant(value);
        proof {
            if !self.has_error {
                let index = self.compiler.code()[old(self).code_len() + 1];
                assert(valued.intern_strings@[literal@] == value);
                assert(self.names_constant(index, literal@));
            }
        }
    }

    /// `false`, `true` or `nil`.
    fn literal(&mut self)
        requires
            old(self).wf(),
            old(self).previous.token_type == TokenType::False || old(self).previous.token_type
                == TokenType::True || old(self).previous.token_type == TokenType::Nil,
        ensures
            old(self).evolves_to(&*final(self)),
            old(self).keeps_context(&*final(self)),
            final(self).compiler.code() == old(self).compiler.code().push(
                literal_byte(old(self).previous.token_type),
            ),
    {
        match self.previous.token_type {
            TokenType::False => self.emit_byte(OpCode::False.to_byte()),
            TokenType::True => self.emit_byte(OpCode::True.to_byte()),
            _ => self.emit_byte(OpCode::Nil.to_byte()),
        }
    }

    /// Consumes a variable's name and declares it; gives the constant holding the name of a
    /// global, or 0 for a local.
    fn parse_variable(&mut self, message: &str) -> (global: u8)
        requires
            old(self).wf(),
        ensures
            old(self).evolves_to(&*final(self)),
            final(self).compiler.scope_depth == old(self).compiler.scope_depth,
            final(self).force_heap_struct_literal == old(self).force_heap_struct_literal,
            final(self).compiler.code() == old(self).compiler.code(),
            !final(self).has_error ==> old(self).current.token_type == TokenType::Identifier,
            old(self).compiler.scope_depth == 0 ==> final(self).compiler.locals == old(self).compiler.locals
                && (!final(self).has_error ==> final(self).names_constant(global, old(self).current.value@)),
            old(self).compiler.scope_depth > 0 ==> global == 0,
            old(self).compiler.scope_depth > 0 && old(self).current.token_type == TokenType::Identifier
                && old(self).compiler.locals@.len() < 255 ==> final(self).compiler.locals@
                == old(self).compiler.locals@.push(
                Local {
                    name: old(self).current.value,
                    kind: TokenType::Identifier,
                    depth: -1i32,
                    captured: false,
                },
            ),
    {
        self.consume(TokenType::Identifier, message);
        self.declare_variable();
        if self.compiler.scope_depth > 0 {
            return 0;
        }
        let name = self.previous;
        self.identifier_constant(name.value)
    }

    /// Leaves panic mode and skips tokens up to a likely start of a statement.
    fn synchronize(&mut self)
        requires
            old(self).wf(),
        ensures
            old(self).evolves_to(&*final(self)),
            final(self).compiler == old(self).compiler,
            final(self).intern_strings == old(self).intern_strings,
            final(self).current.token_type == TokenType::Eof || final(self).previous.token_type
                == TokenType::Semicolon || starts_declaration(final(self).current.token_type),
    {
        self.panic_mode = false;
        let ghost entry = *self;
        loop
            invariant
                entry.wf(),
                old(self).evolves_to(&entry),
                entry.evolves_to(&*self),
                self.compiler == old(self).compiler,
                self.intern_strings == old(self).intern_strings,
            ensures
                entry.evolves_to(&*self),
                self.compiler == old(self).compiler,
                self.intern_strings == old(self).intern_strings,
                self.current.token_type == TokenType::Eof,
            decreases self.fuel(),
        {
            if self.current.token_type == TokenType::Eof {
                break ;
            }
            if self.previous.token_type == TokenType::Semicolon {
                return ;
            }
            match self.current.token_type {
                TokenType::Trait | TokenType::Impl | TokenType::Struct | TokenType::New
                | TokenType::Fn | TokenType::Var | TokenType::For | TokenType::If
                | TokenType::While | TokenType::Print | TokenType::Return => {
                    return ;
                },
                _ => {},
            }
            self.advance();
        }
    }

    /// Skips tokens up to the next `fn`, the closing brace or the end.
    fn synchronize_trait_body(&mut self)
        requires
            old(self).wf(),
        ensures
            old(self).evolves_to(&*final(self)),
            final(self).compiler == old(self).compiler,
            final(self).intern_strings == old(self).intern_strings,
            old(self).current.token_type != TokenType::RightBrace && old(self).current.token_type
                != TokenType::Eof && old(self).current.token_type != TokenType::Fn ==> final(self).fuel() < old(self).fuel(),
    {
        let ghost entry = *self;
        let ghost mut moved = false;
        loop
            invariant
                entry == *old(self),
                entry.wf(),
                entry.evolves_to(&*self),
                moved ==> self.fuel() < entry.fuel(),
                !moved ==> *self == entry,
                self.compiler == entry.compiler,
                self.intern_strings == entry.intern_strings,
            ensures
                entry.evolves_to(&*self),
                self.compiler == entry.compiler,
                self.intern_strings == entry.intern_strings,
                moved ==> self.fuel() < entry.fuel(),
                !moved ==> *self == entry,
                self.current.token_type == TokenType::RightBrace || self.current.token_type
                    == TokenType::Eof,
            decreases self.fuel(),
        {
            if self.check(TokenType::RightBrace) || self.check(TokenType::Eof) {
                break ;
            }
            if self.check(TokenType::Fn) {
                return ;
            }
            self.advance();
            proof {
                moved = true;
            }
        }
    }

    /// Skips tokens up to the next `fn`, the closing brace or the end.
    fn synchronize_impl_body(&mut self)
        requires
            old(self).wf(),
        ensures
            old(self).evolves_to(&*final(self)),
            final(self).compiler == old(self).compiler,
            final(self).intern_strings == old(self).intern_strings,
            old(self).current.token_type != TokenType::RightBrace && old(self).current.token_type
                != TokenType::Eof && old(self).current.token_type != TokenType::Fn ==> final(self).fuel() < old(self).fuel(),
    {
        let ghost entry = *self;
        let ghost mut moved = false;
        loop
            invariant
                entry == *old(self),
                entry.wf(),
                entry.evolves_to(&*self),
                moved ==> self.fuel() < entry.fuel(),
                !moved ==> *self == entry,
                self.compiler == entry.compiler,
                self.intern_strings == entry.intern_strings,
            ensures
                entry.evolves_to(&*self),
                self.compiler == entry.compiler,
                self.intern_strings == entry.intern_strings,
                moved ==> self.fuel() < entry.fuel(),
                !moved ==> *self == entry,
                self.current.token_type == TokenType::RightBrace || self.current.token_type
                    == TokenType::Eof,
            decreases self.fuel(),
        {
            if self.check(TokenType::RightBrace) || self.check(TokenType::Eof) {
                break ;
            }
            if self.check(TokenType::Fn) {
                return ;
            }
            self.advance();
            proof {
                moved = true;
            }
        }
    }

    /// Emits each name of `names` as a constant operand: the interned string holding it.
    fn emit_name_constants(&mut self, names: &Vec<&str>)
        requires
            old(self).wf(),
        ensures
            old(self).evolves_to(&*final(self)),
            final(self).compiler.code().len() == old(self).compiler.code().len() + names@.len(),
            final(self).compiler.code().subrange(0, old(self).compiler.code().len() as int)
                == old(self).compiler.code(),
            !final(self).has_error ==> final(self).names_constants(
                final(self).compiler.code().subrange(
                    old(self).compiler.code().len() as int,
                    final(self).compiler.code().len() as int,
                ),
                texts(names@),
            ),
            names@.len() == 0 ==> final(self).has_error == old(self).has_error,
            final(self).current == old(self).current,
            final(self).previous == old(self).previous,
    {
        let ghost entry = *self;
        proof {
            assert(self.compiler.constants().subrange(0, self.compiler.constants().len() as int)
                =~= self.compiler.constants());
            assert(self.compiler.code().subrange(0, self.compiler.code().len() as int)
                =~= self.compiler.code());
        }
        let mut i: usize = 0;
        while i < names.len()
            invariant
                entry == *old(self),
                entry.wf(),
                entry.evolves_to(&*self),
                i <= names@.len(),
                i == 0 ==> self.has_error == entry.has_error,
                self.current == entry.current,
                self.previous == entry.previous,
                self.compiler.code().len() == entry.compiler.code().len() + i,
                self.compiler.code().subrange(0, entry.compiler.code().len() as int)
                    == entry.compiler.code(),
                !self.has_error ==> forall|j: int|
                    0 <= j < i ==> #[trigger] self.names_constant(
                        self.compiler.code()[entry.compiler.code().len() + j],
                        names@[j]@,
                    ),
            decreases names@.len() - i,
        {
            let ghost before = *self;
            let index = self.identifier_constant(names[i]);
            let ghost middle = *self;
            self.emit_byte(index);
            proof {
                let n0 = entry.compiler.code().len() as int;
                assert(self.compiler.code() == middle.compiler.code().push(index));
                assert(self.compiler.code().subrange(0, n0) == entry.compiler.code()) by {
                    assert(self.compiler.code().subrange(0, n0) =~= before.compiler.code().subrange(0, n0));
                }
                if !self.has_error {
                    assert forall|j: int| 0 <= j < i + 1 implies #[trigger] self.names_constant(
                        self.compiler.code()[n0 + j],
                        names@[j]@,
                    ) by {
                        if j < i {
                            assert(self.compiler.code()[n0 + j] == before.compiler.code()[n0 + j]);
                            assert(before.names_constant(before.compiler.code()[n0 + j], names@[j]@));
                        } else {
                            assert(self.compiler.code()[n0 + j] == index);
                        }
                    }
                }
            }
            i = i + 1;
        }
        proof {
            let n0 = entry.compiler.code().len() as int;
            let ops = self.compiler.code().subrange(n0, self.compiler.code().len() as int);
            if !self.has_error {
                assert forall|j: int| 0 <= j < names@.len() implies #[trigger] self.names_constant(
                    ops[j],
                    texts(names@)[j],
                ) by {
                    assert(ops[j] == self.compiler.code()[n0 + j]);
                    assert(self.names_constant(self.compiler.code()[n0 + j], names@[j]@));
                }
            }
        }
    }

    /// `trait Name { fn method(parameters); ... }`: emits the trait's name and its methods'
    /// names.
    fn trait_declaration(&mut self)
        requires
            old(self).wf(),
        ensures
            old(self).evolves_to(&*final(self)),
            final(self).compiler.code().subrange(0, old(self).compiler.code().len() as int)
                == old(self).compiler.code(),
            !final(self).has_error ==> old(self).current.token_type == TokenType::Identifier,
            !final(self).has_error ==> exists|methods: Seq<Seq<char>>|
                #[trigger] final(self).declares_names(
                    old(self).compiler.code().len() as int,
                    OpCode::ImplementTrait.spec_byte(),
                    old(self).current.value@,
                    methods,
                ),
            !final(self).has_error ==> exists|j: int|
                1 <= j < old(self).token_log().len() && final(self).current.spec_token() == old(
                    self,
                ).token_log()[j] && old(self).token_log()[j - 1].token_type == TokenType::RightBrace
                    && #[trigger] final(self).declares_names(
                    old(self).compiler.code().len() as int,
                    OpCode::ImplementTrait.spec_byte(),
                    old(self).current.value@,
                    fn_names(old(self).token_log().take(j)),
                ),
            ({
                let u = old(self).upcoming();
                &&& !old(self).has_error
                &&& old(self).current.token_type == TokenType::Identifier
                &&& u[0].token_type == TokenType::LeftBrace
                &&& u[1].token_type == TokenType::RightBrace
                &&& u[2].token_type != TokenType::Error
                &&& old(self).compiler.constants().len() < 256
            }) ==> !final(self).has_error,
    {
        let ghost entry = *self;
        let ghost happy = {
            let u = entry.upcoming();
            &&& !entry.has_error
            &&& entry.current.token_type == TokenType::Identifier
            &&& u[0].token_type == TokenType::LeftBrace
            &&& u[1].token_type == TokenType::RightBrace
            &&& u[2].token_type != TokenType::Error
            &&& entry.compiler.constants().len() < 256
        };
        let ghost log = entry.token_log();
        let ghost mut k: int = 0;
        proof {
            entry.lemma_stands_at_start();
        }
        self.consume(TokenType::Identifier, "Expect trait name.");
        let ghost started = *self;
        let trait_name = self.previous;
        proof {
            assert(entry.current.token_type != TokenType::Identifier ==> started.has_error);
            assert(!started.has_error ==> trait_name == entry.current);
            if !started.has_error {
                entry.lemma_stands_step(&started, log, 0);
                lemma_fn_names_take(log, 0);
            }
            k = 1;
            if happy {
                entry.lemma_step_upcoming(&started);
                assert(started.upcoming()[0] == entry.upcoming()[1]);
            }
        }
        self.consume(TokenType::LeftBrace, "Expect '{' after trait name.");
        let ghost opened = *self;
        proof {
            if !opened.has_error {
                started.lemma_stands_step(&opened, log, 1);
                lemma_fn_names_take(log, 1);
                assert(log.take(1).len() == 1);
                assert(fn_names(log.take(2)) =~= Seq::<Seq<char>>::empty());
            }
            k = 2;
            if happy {
                started.lemma_step_upcoming(&opened);
                assert(opened.upcoming()[0] == entry.upcoming()[2]);
                assert(opened.current.token_type == TokenType::RightBrace);
                assert(!opened.has_error);
            }
        }
        let mut method_names: Vec<&'a str> = Vec::new();
        loop
            invariant
                happy ==> *self == opened && method_names@.len() == 0,
                happy ==> opened.current.token_type == TokenType::RightBrace && !opened.has_error
                    && opened.upcoming()[0].token_type != TokenType::Error && opened.compiler
                    == entry.compiler,
                entry == *old(self),
                entry.wf(),
                entry.evolves_to(&*self),
                self.compiler == entry.compiler,
                !started.has_error ==> trait_name == entry.current && entry.current.token_type
                    == TokenType::Identifier,
                started.has_error ==> self.has_error,
                log == entry.token_log(),
                k >= 2,
                !self.has_error ==> self.stands_at(log, k),
                !self.has_error ==> texts(method_names@) == fn_names(log.take(k)),
                !self.has_error ==> self.previous.token_type == TokenType::LeftBrace
                    || self.previous.token_type == TokenType::Semicolon,
            decreases self.fuel(),
        {
            if self.check(TokenType::RightBrace) || self.check(TokenType::Eof) {
                break ;
            }
            let ghost b0 = *self;
            if !self.match_token(TokenType::Fn) {
                self.error("Expect 'fn' in trait body.");
                self.synchronize_trait_body();
                continue ;
            }
            proof {
                if !self.has_error {
                    b0.lemma_stands_step(&*self, log, k);
                    lemma_fn_names_take(log, k);
                }
                k = k + 1;
            }
            let ghost b1 = *self;
            self.consume(TokenType::Identifier, "Expect method name.");
            let ghost names_before = method_names@;
            method_names.push(self.previous.value);
            proof {
                if !self.has_error {
                    b1.lemma_stands_step(&*self, log, k);
                    lemma_fn_names_take(log, k);
                    assert(log[k - 1].token_type == TokenType::Fn);
                    assert(texts(method_names@) =~= texts(names_before).push(log[k].value));
                }
                k = k + 1;
            }
            let ghost b3 = *self;
            self.consume(TokenType::LeftParen, "Expect '(' after method name.");
            proof {
                if !self.has_error {
                    b3.lemma_stands_step(&*self, log, k);
                    lemma_fn_names_take(log, k);
                }
                k = k + 1;
            }
            if !self.check(TokenType::RightParen) {
                let ghost inner = *self;
                loop
                    invariant
                        entry.wf(),
                        entry.evolves_to(&inner),
                        inner.evolves_to(&*self),
                        self.compiler == entry.compiler,
                        !started.has_error ==> trait_name == entry.current && entry.current.token_type
                            == TokenType::Identifier,
                        started.has_error ==> self.has_error,
                        log == entry.token_log(),
                        k >= 2,
                        !self.has_error ==> self.stands_at(log, k),
                        !self.has_error ==> texts(method_names@) == fn_names(log.take(k)),
                        !self.has_error ==> self.previous.token_type == TokenType::LeftParen
                            || self.previous.token_type == TokenType::Comma
                            || self.previous.token_type == TokenType::Identifier,
                    decreases self.fuel(),
                {
                    let ghost c0 = *self;
                    self.consume(TokenType::Identifier, "Expect parameter name.");
                    proof {
                        if !self.has_error {
                            c0.lemma_stands_step(&*self, log, k);
                            lemma_fn_names_take(log, k);
                        }
                        k = k + 1;
                    }
                    let ghost c1 = *self;
                    if !self.match_token(TokenType::Comma) {
                        break ;
                    }
                    proof {
                        if !self.has_error {
                            c1.lemma_stands_step(&*self, log, k);
                            lemma_fn_names_take(log, k);
                        }
                        k = k + 1;
                    }
                }
            }
            let ghost d0 = *self;
            self.consume(TokenType::RightParen, "Expect ')' after parameters.");
            proof {
                if !self.has_error {
                    d0.lemma_stands_step(&*self, log, k);
                    lemma_fn_names_take(log, k);
                }
                k = k + 1;
            }
            let ghost d1 = *self;
            self.consume(TokenType::Semicolon, "Expect ';' after trait method signature.");
            proof {
                if !self.has_error {
                    d1.lemma_stands_step(&*self, log, k);
                    lemma_fn_names_take(log, k);
                }
                k = k + 1;
            }
        }
        let ghost closing = *self;
        self.consume(TokenType::RightBrace, "Expect '}' after trait body.");
        let ghost after_brace = *self;
        proof {
            if !self.has_error {
                closing.lemma_stands_step(&*self, log, k);
                lemma_fn_names_take(log, k);
            }
            k = k + 1;
            if happy {
                lemma_tokens_from_step(
                    closing.src(),
                    closing.scanner.spec_pos(),
                    closing.scanner.spec_line(),
                );
                assert(!self.has_error);
                assert(self.compiler == entry.compiler);
            }
        }
        let const_index = self.identifier_constant(trait_name.value);
        let ghost named = *self;
        self.emit_byte(OpCode::ImplementTrait.to_byte());
        self.emit_byte(const_index);
        let count = method_names.len();
        if count > 255 {
            self.error("Too many trait methods.");
            return ;
        }
        self.emit_byte(count as u8);
        let ghost header = *self;
        self.emit_name_constants(&method_names);
        proof {
            if happy {
                assert(!named.has_error);
                assert(!header.has_error);
                assert(method_names@.len() == 0);
                assert(!self.has_error);
            }
            if !self.has_error {
                assert(!started.has_error);
                assert(trait_name == entry.current);
                assert(entry == *old(self));
            }
            let n0 = entry.compiler.code().len() as int;
            let code = self.compiler.code();
            assert(header.compiler.code() == entry.compiler.code().push(
                OpCode::ImplementTrait.spec_byte(),
            ).push(const_index).push(count as u8));
            assert(code.subrange(0, n0) =~= entry.compiler.code()) by {
                assert(code.subrange(0, n0) =~= code.subrange(0, header.compiler.code().len() as int).subrange(0, n0));
            }
            if !self.has_error {
                assert(header.compiler.constants() == named.compiler.constants());
                assert(header.intern_strings == named.intern_strings);
                assert(header.names_constant(const_index, trait_name.value@));
                assert(code[n0] == header.compiler.code()[n0]);
                assert(code[n0 + 1] == header.compiler.code()[n0 + 1]);
                assert(code[n0 + 2] == header.compiler.code()[n0 + 2]);
                assert(self.declares_names(
                    n0,
                    OpCode::ImplementTrait.spec_byte(),
                    trait_name.value@,
                    texts(method_names@),
                ));
                assert(!after_brace.has_error);
                assert(self.current == after_brace.current);
                assert(texts(method_names@) == fn_names(log.take(k)));
                assert(log[k - 1].token_type == TokenType::RightBrace);
                assert(self.declares_names(
                    n0,
                    OpCode::ImplementTrait.spec_byte(),
                    entry.current.value@,
                    fn_names(entry.token_log().take(k)),
                ));
            }
        }
    }

    /// Constant `index` of the current chunk is a function on the heap.
    spec fn function_constant(&self, index: u8) -> bool {
        &&& index < self.compiler.constants().len()
        &&& self.compiler.constants()[index as int] matches Value::Object(r) && r
            < self.object_manager.heap_len() && self.object_manager.slot(r) matches Some(
            HeapObject::Function(_),
        )
    }

    /// From `start` on, the current chunk holds exactly the registration of methods: the
    /// instruction, constant operands naming `trait_name` and `target`, the number of
    /// `methods`, then for each method a constant operand naming it and the constant
    /// `functions[i]`, a function on the heap.
    spec fn registers_methods(
        &self,
        start: int,
        trait_name: Seq<char>,
        target: Seq<char>,
        methods: Seq<Seq<char>>,
        functions: Seq<u8>,
    ) -> bool {
        let code = self.compiler.code();
        &&& code.len() == start + 4 + 2 * methods.len()
        &&& code[start] == OpCode::ImplRegister.spec_byte()
        &&& self.names_constant(code[start + 1], trait_name)
        &&& self.names_constant(code[start + 2], target)
        &&& code[start + 3] == methods.len()
        &&& functions.len() == methods.len()
        &&& forall|i: int|
            0 <= i < methods.len() ==> #[trigger] self.names_constant(
                code[start + 4 + 2 * i],
                methods[i],
            ) && code[start + 5 + 2 * i] == functions[i] && self.function_constant(functions[i])
    }

    /// `impl Trait for Type { fn method(parameters) { body } ... }`: compiles each method as a
    /// function taking `self` first, then emits the registration of the methods for the type:
    /// the trait's and the type's names, the number of methods, and each method's name and
    /// function.
    #[verifier::rlimit(40)]
    fn impl_declaration<N: Host>(&mut self, num: &N)
        requires
            old(self).wf(),
        ensures
            old(self).evolves_to(&*final(self)),
            final(self).compiler.code().subrange(0, old(self).code_len()) == old(self).compiler.code(),
            !final(self).has_error ==> exists|
                trait_name: Seq<char>,
                target: Seq<char>,
                methods: Seq<Seq<char>>,
                functions: Seq<u8>,
            |
                #[trigger] final(self).registers_methods(
                    old(self).code_len(),
                    trait_name,
                    target,
                    methods,
                    functions,
                ),
        decreases old(self).fuel(), 25int,
    {
        let ghost entry = *self;
        self.consume(TokenType::Identifier, "Expect trait name after 'impl'.");
        let trait_name = self.previous;
        self.consume(TokenType::For, "Expect 'for' after trait name.");
        self.consume(TokenType::Identifier, "Expect target type name after 'for'.");
        let target = self.previous;
        self.consume(TokenType::LeftBrace, "Expect '{' after impl header.");
        let mut method_names: Vec<&'a str> = Vec::new();
        let mut functions: Vec<u8> = Vec::new();
        loop
            invariant
                entry == *old(self),
                entry.wf(),
                entry.evolves_to(&*self),
                self.fuel() <= entry.fuel(),
                self.compiler.code() == entry.compiler.code(),
                functions@.len() == method_names@.len(),
                !self.has_error ==> forall|j: int|
                    0 <= j < functions@.len() ==> #[trigger] self.function_constant(functions@[j]),
            decreases self.fuel(),
        {
            if self.check(TokenType::RightBrace) || self.check(TokenType::Eof) {
                break ;
            }
            let ghost top = *self;
            if !self.match_token(TokenType::Fn) {
                self.error("Expect 'fn' in impl body.");
                self.synchronize_impl_body();
                continue ;
            }
            self.consume(TokenType::Identifier, "Expect method name.");
            method_names.push(self.previous.value);
            let (function_ref, _upvalues) = self.function_body(num, FunctionType::Function, true);
            let ghost compiled = *self;
            let index = self.make_constant(Value::Object(function_ref));
            let ghost old_functions = functions@;
            functions.push(index);
            proof {
                if !self.has_error {
                    compiled.object_manager.lemma_slot_in_heap(function_ref);
                    assert forall|j: int| 0 <= j < functions@.len() implies #[trigger] self.function_constant(
                        functions@[j],
                    ) by {
                        if j < old_functions.len() {
                            assert(functions@[j] == old_functions[j]);
                            assert(top.function_constant(old_functions[j]));
                            let r = top.compiler.constants()[old_functions[j] as int]->Object_0;
                            assert(self.object_manager.slot(r) == top.object_manager.slot(r));
                        }
                    }
                }
            }
        }
        let ghost listed = *self;
        self.consume(TokenType::RightBrace, "Expect '}' after impl body.");
        let trait_index = self.identifier_constant(trait_name.value);
        let ghost traited = *self;
        let target_index = self.identifier_constant(target.value);
        self.emit_byte(OpCode::ImplRegister.to_byte());
        self.emit_bytes(trait_index, target_index);
        let count = method_names.len();
        if count > 255 {
            self.error("Too many methods in impl.");
            return ;
        }
        self.emit_byte(count as u8);
        let ghost header = *self;
        proof {
            if !self.has_error {
                assert forall|j: int| 0 <= j < functions@.len() implies #[trigger] self.function_constant(
                    functions@[j],
                ) by {
                    assert(listed.function_constant(functions@[j]));
                    let r = listed.compiler.constants()[functions@[j] as int]->Object_0;
                    assert(self.object_manager.slot(r) == listed.object_manager.slot(r));
                }
            }
        }
        let mut i: usize = 0;
        while i < method_names.len() && i < functions.len()
            invariant
                entry == *old(self),
                entry.wf(),
                entry.evolves_to(&header),
                header.evolves_to(&*self),
                functions@.len() == method_names@.len(),
                i <= method_names@.len(),
                self.compiler.code().len() == header.compiler.code().len() + 2 * i,
                forall|k: int| 0 <= k < header.code_len() ==> #[trigger] self.compiler.code()[k] == header.compiler.code()[k],
                !self.has_error ==> forall|j: int| 0 <= j < functions@.len() ==> #[trigger] self.function_constant(functions@[j]),
                !self.has_error ==> forall|j: int|
                    0 <= j < i ==> #[trigger] self.names_constant(
                        self.compiler.code()[header.code_len() + 2 * j],
                        texts(method_names@)[j],
                    ) && self.compiler.code()[header.code_len() + 2 * j + 1] == functions@[j],
            decreases method_names@.len() - i,
        {
            let ghost before = *self;
            let name_index = self.identifier_constant(method_names[i]);
            let ghost named = *self;
            self.emit_bytes(name_index, functions[i]);
            proof {
                if !self.has_error {
                    let h = header.code_len();
                    assert forall|j: int| 0 <= j < functions@.len() implies #[trigger] self.function_constant(
                        functions@[j],
                    ) by {
                        assert(before.function_constant(functions@[j]));
                        let r = before.compiler.constants()[functions@[j] as int]->Object_0;
                        assert(self.object_manager.slot(r) == before.object_manager.slot(r));
                    }
                    assert forall|j: int| 0 <= j < i + 1 implies #[trigger] self.names_constant(
                        self.compiler.code()[h + 2 * j],
                        texts(method_names@)[j],
                    ) && self.compiler.code()[h + 2 * j + 1] == functions@[j] by {
                        if j < i {
                            assert(self.compiler.code()[h + 2 * j] == before.compiler.code()[h + 2 * j]);
                            assert(self.compiler.code()[h + 2 * j + 1] == before.compiler.code()[h + 2 * j + 1]);
                            assert(before.names_constant(before.compiler.code()[h + 2 * j], texts(method_names@)[j]));
                        }
                    }
                }
            }
            i = i + 1;
        }
        proof {
            let n0 = entry.code_len();
            let code = self.compiler.code();
            assert(header.compiler.code() == entry.compiler.code().push(OpCode::ImplRegister.spec_byte()).push(
                trait_index,
            ).push(target_index).push(count as u8));
            assert(code.subrange(0, n0) =~= entry.compiler.code());
            if !self.has_error {
                assert(traited.names_constant(trait_index, trait_name.value@));
                assert(header.names_constant(trait_index, trait_name.value@));
                assert(header.names_constant(target_index, target.value@));
                assert(code[n0] == header.compiler.code()[n0]);
                assert(code[n0 + 1] == header.compiler.code()[n0 + 1]);
                assert(code[n0 + 2] == header.compiler.code()[n0 + 2]);
                assert(code[n0 + 3] == header.compiler.code()[n0 + 3]);
                assert forall|j: int| 0 <= j < method_names@.len() implies #[trigger] self.names_constant(
                    code[n0 + 4 + 2 * j],
                    texts(method_names@)[j],
                ) && code[n0 + 5 + 2 * j] == functions@[j] && self.function_constant(functions@[j]) by {
                    let h = header.code_len();
                    assert(n0 + 4 + 2 * j == h + 2 * j);
                    assert(self.names_constant(code[h + 2 * j], texts(method_names@)[j]));
                    assert(code[h + 2 * j + 1] == functions@[j]);
                    assert(self.function_constant(functions@[j]));
                }
                assert(self.registers_methods(n0, trait_name.value@, target.value@, texts(method_names@), functions@));
            }
        }
    }

    /// `struct Name { field, ... }`: emits the struct's name and its fields' names; a field
    /// named twice is an error.
    fn struct_declaration(&mut self)
        requires
            old(self).wf(),
        ensures
            old(self).evolves_to(&*final(self)),
            final(self).compiler.code().subrange(0, old(self).compiler.code().len() as int)
                == old(self).compiler.code(),
            !final(self).has_error ==> old(self).current.token_type == TokenType::Identifier,
            !final(self).has_error ==> exists|fields: Seq<Seq<char>>|
                #[trigger] final(self).declares_names(
                    old(self).compiler.code().len() as int,
                    OpCode::StructType.spec_byte(),
                    old(self).current.value@,
                    fields,
                ) && all_distinct(fields),
    {
        let ghost entry = *self;
        self.consume(TokenType::Identifier, "Expect struct name.");
        let ghost started = *self;
        let name = self.previous;
        proof {
            assert(entry.current.token_type != TokenType::Identifier ==> started.has_error);
        }
        self.consume(TokenType::LeftBrace, "Expect '{' after struct name.");
        let mut fields: Vec<&'a str> = Vec::new();
        if !self.check(TokenType::RightBrace) {
            loop
                invariant
                    entry == *old(self),
                    entry.wf(),
                    entry.evolves_to(&*self),
                    self.compiler == entry.compiler,
                    self.intern_strings == entry.intern_strings,
                    !started.has_error ==> name == entry.current && entry.current.token_type
                        == TokenType::Identifier,
                    started.has_error ==> self.has_error,
                    !self.has_error ==> all_distinct(texts(fields@)),
                decreases self.fuel(),
            {
                self.consume(TokenType::Identifier, "Expect field name.");
                let field_name = self.previous.value;
                let ghost seen = fields@;
                if contains_text(&fields, field_name) {
                    self.error("Duplicate field name in struct.");
                }
                fields.push(field_name);
                proof {
                    if !self.has_error {
                        assert forall|i: int, j: int| 0 <= i < j < texts(fields@).len() implies
                            texts(fields@)[i] != texts(fields@)[j] by {
                            if j == seen.len() {
                                assert(fields@[i] == seen[i]);
                            } else {
                                assert(texts(seen)[i] == texts(fields@)[i]);
                                assert(texts(seen)[j] == texts(fields@)[j]);
                            }
                        }
                    }
                }
                if !self.match_token(TokenType::Comma) {
                    break ;
                }
                if self.check(TokenType::RightBrace) {
                    break ;
                }
            }
        }
        self.consume(TokenType::RightBrace, "Expect '}' after struct fields.");
        let struct_name_index = self.identifier_constant(name.value);
        let ghost named = *self;
        self.emit_byte(OpCode::StructType.to_byte());
        self.emit_byte(struct_name_index);
        let count = fields.len();
        if count > 255 {
            self.error("Too many struct fields.");
            return ;
        }
        self.emit_byte(count as u8);
        let ghost header = *self;
        self.emit_name_constants(&fields);
        proof {
            if !self.has_error {
                assert(!started.has_error);
                assert(name == old(self).current);
            }
            let n0 = entry.compiler.code().len() as int;
            let code = self.compiler.code();
            assert(header.compiler.code() == entry.compiler.code().push(OpCode::StructType.spec_byte()).push(
                struct_name_index,
            ).push(count as u8));
            assert(code.subrange(0, n0) =~= entry.compiler.code()) by {
                assert(code.subrange(0, n0) =~= code.subrange(0, header.compiler.code().len() as int).subrange(0, n0));
            }
            if !self.has_error {
                assert(header.compiler.constants() == named.compiler.constants());
                assert(header.intern_strings == named.intern_strings);
                assert(header.names_constant(struct_name_index, name.value@));
                assert(code[n0] == header.compiler.code()[n0]);
                assert(code[n0 + 1] == header.compiler.code()[n0 + 1]);
                assert(code[n0 + 2] == header.compiler.code()[n0 + 2]);
                assert(self.declares_names(n0, OpCode::StructType.spec_byte(), name.value@, texts(fields@)));
            }
        }
    }

    /// Starts compiling a new function, named by the token just consumed; the current one
    /// becomes the innermost enclosing one.
    fn init_compiler(&mut self, function_type: FunctionType)
        requires
            old(self).wf(),
            function_type == FunctionType::Function,
        ensures
            final(self).wf(),
            final(self).src() == old(self).src(),
            final(self).fuel() == old(self).fuel(),
            final(self).enclosing@ == old(self).enclosing@.push(old(self).compiler),
            final(self).base_heap == old(self).base_heap,
            final(self).base_strings == old(self).base_strings,
            final(self).compiler.function_type == function_type,
            final(self).compiler.code() == Seq::<u8>::empty(),
            final(self).has_error == old(self).has_error,
            final(self).intern_strings == old(self).intern_strings,
            final(self).object_manager == old(self).object_manager,
    {
        let name = if function_type == FunctionType::Script {
            String::new()
        } else {
            self.previous.value.to_string()
        };
        let mut compiler = Compiler::new(function_type, name);
        std::mem::swap(&mut compiler, &mut self.compiler);
        self.enclosing.push(compiler);
    }

    /// Finishes the current function with the implicit return, puts it on the heap and goes
    /// back to the innermost enclosing function; gives the function's handle and the
    /// variables it captures.
    fn end_compiler(&mut self) -> (r: (ObjRef, Vec<Upvalue>))
        requires
            old(self).wf(),
            old(self).enclosing@.len() >= 1,
        ensures
            final(self).wf(),
            final(self).src() == old(self).src(),
            final(self).fuel() == old(self).fuel(),
            final(self).enclosing@ == old(self).enclosing@.drop_last(),
            final(self).compiler == old(self).enclosing@.last(),
            final(self).base_heap == old(self).base_heap,
            final(self).base_strings == old(self).base_strings,
            r.1@ == old(self).compiler.upvalues@,
            final(self).has_error == old(self).has_error,
            final(self).intern_strings == old(self).intern_strings,
            final(self).object_manager.slot(r.0) matches Some(HeapObject::Function(f))
                && f.upvalue_count == r.1@.len(),
            final(self).object_manager.heap_len() >= old(self).object_manager.heap_len(),
            forall|q: ObjRef|
                q < old(self).object_manager.heap_len() ==> #[trigger] final(self).object_manager.slot(q)
                    == old(self).object_manager.slot(q),
    {
        self.emit_return();
        let ghost before = *self;
        let mut done = self.enclosing.pop().unwrap();
        std::mem::swap(&mut done, &mut self.compiler);
        let Compiler { function, upvalues, .. } = done;
        let (handle, _size) = self.object_manager.push_object(HeapObject::Function(function));
        proof {
            let om0 = before.object_manager;
            assert forall|k: Seq<char>| #[trigger]
                self.intern_strings@.dom().contains(k) implies (self.intern_strings@[k] matches Value::Object(
                r,
            ) && self.object_manager.slot(r) matches Some(HeapObject::String(s)) && s.content@ == k) by {
                let r = self.intern_strings@[k]->Object_0;
                om0.lemma_slot_in_heap(r);
            }
        }
        (handle, upvalues)
    }

    /// Compiles `source` as a script; gives the handle of the script function, or nothing when
    /// errors were found (they are in `errors`). Number literals are converted by
    /// the host, which gives the bits of the double a literal denotes and says which numbers
    /// count as equal.
    pub fn compile<N: Host>(&mut self, source: &'a str, host: &N) -> (r:
        Option<ObjRef>)
        requires
            old(self).ready(),
            source@.len() < usize::MAX,
        ensures
            r is Some <==> final(self).spec_errors().len() == 0,
            final(self).manager().wf(),
            final(self).strings().wf(),
            strings_interned(final(self).strings(), final(self).manager()),
            old(self).strings()@.submap_of(final(self).strings()@),
            final(self).manager().heap_len() >= old(self).manager().heap_len(),
            forall|q: ObjRef|
                q < old(self).manager().heap_len() ==> #[trigger] final(self).manager().slot(q)
                    == old(self).manager().slot(q),
            r matches Some(f) ==> final(self).manager().slot(f) matches Some(HeapObject::Function(function))
                && function.chunk.wf() && function.arity == 0 && function.name@
                == Seq::<char>::empty() && function.upvalue_count == 0 && ({
                let code = function.chunk.spec_code();
                &&& code.len() >= 2
                &&& code[code.len() - 2] == OpCode::Nil.spec_byte()
                &&& code[code.len() - 1] == OpCode::Return.spec_byte()
            }),
            scan_step(source@, 0, 1).0.token_type == TokenType::Eof ==> (r matches Some(f)
                && final(self).manager().slot(f) matches Some(HeapObject::Function(function))
                && function.chunk.spec_code() == seq![
                OpCode::Nil.spec_byte(),
                OpCode::Return.spec_byte(),
            ]),
            scan_step(source@, 0, 1).0.token_type == TokenType::Error ==> r is None,
            scan_step(source@, 0, 1).0.token_type == TokenType::Return ==> r is None,
    {
        let scanner = Scanner::new(source);
        self.scanner = *scanner;
        self.base_heap = Ghost(self.object_manager);
        self.base_strings = Ghost(self.intern_strings@);
        self.current = Token { token_type: TokenType::Eof, value: "", line: 0 };
        self.previous = Token { token_type: TokenType::Eof, value: "", line: 0 };
        let ghost start = *self;
        self.advance();
        let ghost entry = *self;
        let ghost blank = scan_step(source@, 0, 1).0.token_type == TokenType::Eof;
        let ghost returns_first = scan_step(source@, 0, 1).0.token_type == TokenType::Return;
        let ghost mut rounds: int = 0;
        let ghost len = source@.len() as int;
        proof {
            if blank {
                lemma_end_of_input(source@, 0, 1, 1);
            }
        }
        loop
            invariant
                entry.wf(),
                entry.evolves_to(&*self),
                entry.enclosing@.len() == 0,
                entry.compiler.function_type == FunctionType::Script,
                self.src() == source@,
                len == source@.len(),
                blank ==> {
                    &&& !self.has_error
                    &&& self.errors@.len() == 0
                    &&& self.current.token_type == TokenType::Eof
                    &&& self.scanner.spec_pos() == len
                    &&& self.compiler == entry.compiler
                },
                rounds >= 0,
                returns_first && rounds == 0 ==> *self == entry,
                returns_first ==> entry.current.token_type == TokenType::Return,
                returns_first && rounds > 0 ==> self.has_error,
            decreases self.fuel(),
        {
            proof {
                if blank {
                    lemma_end_of_input(source@, len, self.scanner.spec_line(), self.scanner.spec_line());
                }
            }
            if self.match_token(TokenType::Eof) {
                break ;
            }
            self.declaration(host);
            proof {
                rounds = rounds + 1;
            }
        }
        proof {
            if blank {
                lemma_end_of_input(source@, len, self.scanner.spec_line(), self.scanner.spec_line());
            }
        }
        self.consume(TokenType::Eof, "Expect end of expression.");
        proof {
            if blank {
                assert(self.compiler == entry.compiler);
                assert(entry.compiler == start.compiler);
            }
        }
        if self.has_error {
            return None;
        }
        let ghost before_end = *self;
        let handle = self.end_script();
        proof {
            if blank {
                assert(before_end.compiler.code() =~= Seq::<u8>::empty());
            }
        }
        Some(handle)
    }

    /// Finishes the script with the implicit return and puts it on the heap; gives its handle.
    fn end_script(&mut self) -> (handle: ObjRef)
        requires
            old(self).wf(),
            old(self).enclosing@.len() == 0,
        ensures
            final(self).wf(),
            final(self).errors == old(self).errors,
            final(self).has_error == old(self).has_error,
            final(self).base_heap == old(self).base_heap,
            final(self).base_strings == old(self).base_strings,
            final(self).manager().slot(handle) matches Some(HeapObject::Function(function))
                && function.chunk.spec_code() == old(self).compiler.code().push(
                OpCode::Nil.spec_byte(),
            ).push(OpCode::Return.spec_byte()),
            final(self).manager().slot(handle) matches Some(HeapObject::Function(function))
                && function.chunk.wf() && function.arity == 0 && function.name@
                == Seq::<char>::empty() && function.upvalue_count == 0 && ({
                let code = function.chunk.spec_code();
                &&& code.len() >= 2
                &&& code[code.len() - 2] == OpCode::Nil.spec_byte()
                &&& code[code.len() - 1] == OpCode::Return.spec_byte()
            }),
    {
        self.emit_return();
        let ghost before = *self;
        let mut done = Compiler::new(FunctionType::Script, String::new());
        std::mem::swap(&mut done, &mut self.compiler);
        let Compiler { function, .. } = done;
        let (handle, _size) = self.object_manager.push_object(HeapObject::Function(function));
        proof {
            let om0 = before.object_manager;
            assert forall|k: Seq<char>| #[trigger]
                self.intern_strings@.dom().contains(k) implies (self.intern_strings@[k] matches Value::Object(
                r,
            ) && self.object_manager.slot(r) matches Some(HeapObject::String(s)) && s.content@ == k) by {
                let r = self.intern_strings@[k]->Object_0;
                om0.lemma_slot_in_heap(r);
            }
        }
        handle
    }

    /// Compiles an expression whose operators bind at least as tightly as `precedence`.
    fn parse_precedence<N: Host>(&mut self, num: &N, precedence: Precedence)
        requires
            old(self).wf(),
            precedence.spec_level() >= 1,
        ensures
            old(self).evolves_to(&*final(self)),
            old(self).current.token_type != TokenType::Eof ==> final(self).fuel() < old(self).fuel(),
            old(self).keeps_context(&*final(self)),
            old(self).emits_or_fails(&*final(self)),
            forall|i: int|
                0 <= i < final(self).operand_ops@.len() ==> binding_level(
                    #[trigger] final(self).operand_ops@[i],
                ) >= precedence.spec_level(),
            !final(self).has_error ==> binding_level(final(self).current.token_type)
                < precedence.spec_level(),
        decreases old(self).fuel(), 14int,
    {
        let ghost entry = *self;
        let ghost mut ops: Seq<TokenType> = Seq::empty();
        self.advance();
        let level = precedence.level();
        let can_assign = level <= 1;
        match prefix_rule(self.previous.token_type) {
            None => {
                self.error("Expect expression.");
                self.operand_ops = Ghost(ops);
                return ;
            },
            Some(rule) => {
                self.prefix(num, rule, can_assign);
            },
        }
        loop
            invariant
                entry == *old(self),
                entry.wf(),
                entry.evolves_to(&*self),
                entry.keeps_context(&*self),
                entry.emits_or_fails(&*self),
                self.fuel() < entry.fuel(),
                level == precedence.spec_level(),
                level >= 1,
                forall|i: int| 0 <= i < ops.len() ==> binding_level(#[trigger] ops[i]) >= level,
            ensures
                binding_level(self.current.token_type) < level,
            decreases self.fuel(),
        {
            let current_level = rule_precedence(self.current.token_type).level();
            if current_level < level {
                break ;
            }
            self.advance();
            proof {
                ops = ops.push(self.previous.token_type);
            }
            match infix_rule(self.previous.token_type) {
                None => {
                    self.error("Expect infix parse function.");
                    self.operand_ops = Ghost(ops);
                    return ;
                },
                Some(rule) => {
                    self.infix(num, rule, can_assign);
                },
            }
        }
        if can_assign && self.match_token(TokenType::Equal) {
            self.error("Invalid assignment target.");
        }
        self.operand_ops = Ghost(ops);
    }

    /// Compiles the expression that the token just consumed starts.
    fn prefix<N: Host>(&mut self, num: &N, rule: PrefixRule, can_assign: bool)
        requires
            old(self).wf(),
            rule == PrefixRule::Unary ==> old(self).previous.token_type == TokenType::Minus || old(self).previous.token_type == TokenType::Bang,
            rule == PrefixRule::Literal ==> old(self).previous.token_type == TokenType::False || old(self).previous.token_type == TokenType::True || old(self).previous.token_type == TokenType::Nil,
        ensures
            old(self).evolves_to(&*final(self)),
            old(self).keeps_context(&*final(self)),
            old(self).emits_or_fails(&*final(self)),
        decreases old(self).fuel(), 18int,
    {
        match rule {
            PrefixRule::Grouping => self.grouping(num),
            PrefixRule::Unary => self.unary(num),
            PrefixRule::Number => self.number(num),
            PrefixRule::StringLiteral => self.string(),
            PrefixRule::Literal => self.literal(),
            PrefixRule::Variable => self.variable(num, can_assign),
            PrefixRule::New => self.new_struct(num),
        }
    }

    /// Compiles the rest of an expression that the token just consumed continues.
    fn infix<N: Host>(&mut self, num: &N, rule: InfixRule, can_assign: bool)
        requires
            old(self).wf(),
            rule == InfixRule::Binary ==> is_binary_operator(old(self).previous.token_type),
        ensures
            old(self).evolves_to(&*final(self)),
            old(self).keeps_context(&*final(self)),
            old(self).emits_or_fails(&*final(self)),
        decreases old(self).fuel(), 18int,
    {
        match rule {
            InfixRule::Call => self.call(num),
            InfixRule::Binary => self.binary(num),
            InfixRule::Dot => self.dot(num, can_assign),
            InfixRule::And => self.and(num),
            InfixRule::Or => self.or(num),
        }
    }

    /// A parenthesized expression.
    fn grouping<N: Host>(&mut self, num: &N)
        requires
            old(self).wf(),
        ensures
            old(self).evolves_to(&*final(self)),
            old(self).keeps_context(&*final(self)),
            old(self).emits_or_fails(&*final(self)),
            !final(self).has_error ==> final(self).previous.token_type == TokenType::RightParen,
        decreases old(self).fuel(), 16int,
    {
        self.expression(num);
        self.consume(TokenType::RightParen, "Expect ')' after expression.");
    }

    /// `!` or unary `-` and its operand.
    fn unary<N: Host>(&mut self, num: &N)
        requires
            old(self).wf(),
            old(self).previous.token_type == TokenType::Minus || old(self).previous.token_type == TokenType::Bang,
        ensures
            old(self).evolves_to(&*final(self)),
            old(self).keeps_context(&*final(self)),
            old(self).code_len() < final(self).code_len(),
            final(self).compiler.code().last() == (if old(self).previous.token_type == TokenType::Bang {
                OpCode::Not.spec_byte()
            } else {
                OpCode::Negate.spec_byte()
            }),
            forall|i: int|
                0 <= i < final(self).operand_ops@.len() ==> binding_level(
                    #[trigger] final(self).operand_ops@[i],
                ) >= unary_level(),
            !final(self).has_error ==> binding_level(final(self).current.token_type)
                < unary_level(),
        decreases old(self).fuel(), 16int,
    {
        let operator_type = self.previous.token_type;
        self.parse_precedence(num, Precedence::Unary);
        if operator_type == TokenType::Bang {
            self.emit_byte(OpCode::Not.to_byte());
        } else {
            self.emit_byte(OpCode::Negate.to_byte());
        }
    }

    /// The right operand of the binary operator just consumed, then the operator.
    fn binary<N: Host>(&mut self, num: &N)
        requires
            old(self).wf(),
            is_binary_operator(old(self).previous.token_type),
        ensures
            old(self).evolves_to(&*final(self)),
            old(self).keeps_context(&*final(self)),
            ends_with(
                final(self).compiler.code(),
                old(self).code_len(),
                binary_bytes(old(self).previous.token_type),
            ),
            forall|i: int|
                0 <= i < final(self).operand_ops@.len() ==> binding_level(
                    #[trigger] final(self).operand_ops@[i],
                ) > binding_level(old(self).previous.token_type),
            !final(self).has_error ==> binding_level(final(self).current.token_type)
                <= binding_level(old(self).previous.token_type),
        decreases old(self).fuel(), 16int,
    {
        let operator_type = self.previous.token_type;
        let level = rule_precedence(operator_type).level();
        self.parse_precedence(num, Precedence::from_level(level + 1));
        let ghost operand = self.compiler.code();
        match operator_type {
            TokenType::BangEqual => self.emit_bytes(OpCode::Equal.to_byte(), OpCode::Not.to_byte()),
            TokenType::EqualEqual => self.emit_byte(OpCode::Equal.to_byte()),
            TokenType::Greater => self.emit_byte(OpCode::Greater.to_byte()),
            TokenType::GreaterEqual => self.emit_bytes(OpCode::Less.to_byte(), OpCode::Not.to_byte()),
            TokenType::Less => self.emit_byte(OpCode::Less.to_byte()),
            TokenType::LessEqual => self.emit_bytes(OpCode::Greater.to_byte(), OpCode::Not.to_byte()),
            TokenType::Plus => self.emit_byte(OpCode::Add.to_byte()),
            TokenType::Minus => self.emit_byte(OpCode::Subtract.to_byte()),
            TokenType::Star => self.emit_byte(OpCode::Multiply.to_byte()),
            _ => self.emit_byte(OpCode::Divide.to_byte()),
        }
        proof {
            let tail = binary_bytes(operator_type);
            let code = self.compiler.code();
            assert(code =~= operand + tail);
            assert(code.subrange(code.len() - tail.len(), code.len() as int) =~= tail);
        }
    }

    /// A call's arguments and the call.
    fn call<N: Host>(&mut self, num: &N)
        requires
            old(self).wf(),
        ensures
            old(self).evolves_to(&*final(self)),
            old(self).keeps_context(&*final(self)),
            old(self).code_len() + 2 <= final(self).code_len(),
            final(self).compiler.code()[final(self).code_len() - 2] == OpCode::Call.spec_byte(),
        decreases old(self).fuel(), 17int,
    {
        let argument_count = self.argument_list(num);
        self.emit_bytes(OpCode::Call.to_byte(), argument_count);
    }

    /// The arguments of a call, up to the closing parenthesis; gives their number.
    fn argument_list<N: Host>(&mut self, num: &N) -> (count: u8)
        requires
            old(self).wf(),
        ensures
            old(self).evolves_to(&*final(self)),
            old(self).keeps_context(&*final(self)),
            old(self).current.token_type == TokenType::RightParen ==> count == 0,
            !final(self).has_error ==> final(self).previous.token_type == TokenType::RightParen
                && old(self).code_len() + count <= final(self).code_len(),
        decreases old(self).fuel(), 16int,
    {
        let ghost entry = *self;
        let mut argument_count: u8 = 0;
        if !self.check(TokenType::RightParen) {
            loop
                invariant
                entry == *old(self),
                entry.wf(),
                entry.evolves_to(&*self),
                entry.keeps_context(&*self),
                !self.has_error ==> entry.code_len() + argument_count <= self.code_len(),
                decreases self.fuel(),
            {
                self.expression(num);
                if argument_count >= 255 {
                    self.error("Can't have more than 255 arguments.");
                }
                argument_count = argument_count.wrapping_add(1);
                if !self.match_token(TokenType::Comma) {
                    break ;
                }
            }
        }
        self.consume(TokenType::RightParen, "Expect ')' after arguments.");
        argument_count
    }

    /// A field access, a field assignment, or a method call.
    fn dot<N: Host>(&mut self, num: &N, can_assign: bool)
        requires
            old(self).wf(),
        ensures
            old(self).evolves_to(&*final(self)),
            old(self).keeps_context(&*final(self)),
            !final(self).has_error ==> old(self).current.token_type == TokenType::Identifier
                && final(self).uses_field(old(self).code_len(), old(self).current.value@, can_assign),
        decreases old(self).fuel(), 16int,
    {
        self.consume(TokenType::Identifier, "Expect property name after '.'.");
        let name = self.previous;
        let name_index = self.identifier_constant(name.value);
        let ghost named = *self;
        let ghost mut before_op = *self;
        if can_assign && self.match_token(TokenType::Equal) {
            self.expression(num);
            proof {
                before_op = *self;
            }
            self.emit_bytes(OpCode::SetField.to_byte(), name_index);
        } else if self.match_token(TokenType::LeftParen) {
            let argument_count = self.argument_list(num);
            proof {
                before_op = *self;
            }
            self.emit_byte(OpCode::Invoke.to_byte());
            self.emit_bytes(name_index, argument_count);
        } else {
            self.emit_bytes(OpCode::GetField.to_byte(), name_index);
        }
        proof {
            if !self.has_error {
                let k = before_op.code_len();
                let code = self.compiler.code();
                assert(named.names_constant(name_index, name.value@));
                assert(self.names_constant(name_index, name.value@));
                assert(code[k + 1] == name_index);
                assert(name == old(self).current);
                assert(old(self).code_len() <= k);
                assert((code[k] == OpCode::GetField.spec_byte() && k + 2 == code.len()) || (can_assign
                    && code[k] == OpCode::SetField.spec_byte() && k + 2 == code.len()) || (code[k]
                    == OpCode::Invoke.spec_byte() && k + 3 == code.len()));
                assert(self.uses_field(old(self).code_len(), old(self).current.value@, can_assign));
            }
        }
    }

    /// The right operand of `and`, skipped when the left one is false.
    fn and<N: Host>(&mut self, num: &N)
        requires
            old(self).wf(),
        ensures
            old(self).evolves_to(&*final(self)),
            old(self).keeps_context(&*final(self)),
            old(self).code_len() + 4 <= final(self).code_len(),
            !final(self).has_error ==> {
                let code = final(self).compiler.code();
                let start = old(self).code_len();
                &&& start + 4 <= code.len()
                &&& code[start] == OpCode::JumpIfFalse.spec_byte()
                &&& jumps_to(code, start + 1, code.len() as int)
                &&& code[start + 3] == OpCode::Pop.spec_byte()
            },
            forall|i: int|
                0 <= i < final(self).operand_ops@.len() ==> binding_level(
                    #[trigger] final(self).operand_ops@[i],
                ) >= binding_level(TokenType::And),
            !final(self).has_error ==> binding_level(final(self).current.token_type)
                < binding_level(TokenType::And),
        decreases old(self).fuel(), 16int,
    {
        let jump = self.emit_jump_bytes(OpCode::JumpIfFalse.to_byte());
        self.emit_byte(OpCode::Pop.to_byte());
        let ghost guarded = *self;
        self.parse_precedence(num, Precedence::And);
        self.patch_jump_offset(jump);
        proof {
            if !self.has_error {
                let start = old(self).code_len();
                assert(self.compiler.code()[start] == guarded.compiler.code()[start]);
                assert(self.compiler.code()[start + 3] == guarded.compiler.code()[start + 3]);
            }
        }
    }

    /// The right operand of `or`, skipped when the left one is true.
    fn or<N: Host>(&mut self, num: &N)
        requires
            old(self).wf(),
        ensures
            old(self).evolves_to(&*final(self)),
            old(self).keeps_context(&*final(self)),
            old(self).code_len() + 4 <= final(self).code_len(),
            !final(self).has_error ==> {
                let code = final(self).compiler.code();
                let start = old(self).code_len();
                &&& start + 4 <= code.len()
                &&& code[start] == OpCode::JumpIfTrue.spec_byte()
                &&& jumps_to(code, start + 1, code.len() as int)
                &&& code[start + 3] == OpCode::Pop.spec_byte()
            },
            forall|i: int|
                0 <= i < final(self).operand_ops@.len() ==> binding_level(
                    #[trigger] final(self).operand_ops@[i],
                ) >= binding_level(TokenType::Or),
            !final(self).has_error ==> binding_level(final(self).current.token_type)
                < binding_level(TokenType::Or),
        decreases old(self).fuel(), 16int,
    {
        let jump = self.emit_jump_bytes(OpCode::JumpIfTrue.to_byte());
        self.emit_byte(OpCode::Pop.to_byte());
        let ghost guarded = *self;
        self.parse_precedence(num, Precedence::Or);
        self.patch_jump_offset(jump);
        proof {
            if !self.has_error {
                let start = old(self).code_len();
                assert(self.compiler.code()[start] == guarded.compiler.code()[start]);
                assert(self.compiler.code()[start + 3] == guarded.compiler.code()[start + 3]);
            }
        }
    }

    /// A variable named by the identifier just consumed, or a struct literal of that type.
    fn variable<N: Host>(&mut self, num: &N, can_assign: bool)
        requires
            old(self).wf(),
        ensures
            old(self).evolves_to(&*final(self)),
            old(self).keeps_context(&*final(self)),
            old(self).emits_or_fails(&*final(self)),
            old(self).current.token_type == TokenType::LeftBrace ==> final(self).builds_struct(
                old(self).code_len(),
                old(self).previous.value@,
                final(self).force_heap_struct_literal,
            ),
            old(self).current.token_type != TokenType::LeftBrace ==> old(self).accesses_variable(
                &*final(self),
                old(self).previous,
                can_assign,
            ),
        decreases old(self).fuel(), 17int,
    {
        if self.check(TokenType::LeftBrace) {
            let struct_name = self.previous;
            self.struct_literal(num, struct_name);
            return ;
        }
        let name = self.previous;
        self.named_variable(num, name, can_assign);
    }

    /// `new Type { ... }`: a struct literal allocated on the heap.
    fn new_struct<N: Host>(&mut self, num: &N)
        requires
            old(self).wf(),
        ensures
            old(self).evolves_to(&*final(self)),
            old(self).keeps_context(&*final(self)),
            old(self).emits_or_fails(&*final(self)),
            !final(self).has_error ==> old(self).current.token_type == TokenType::Identifier
                && final(self).builds_struct(old(self).code_len(), old(self).current.value@, true),
        decreases old(self).fuel(), 17int,
    {
        self.consume(TokenType::Identifier, "Expect type name after 'new'.");
        let struct_name = self.previous;
        if !self.check(TokenType::LeftBrace) {
            self.error("Expect '{' after type name in new expression.");
            return ;
        }
        let prev_force = self.force_heap_struct_literal;
        self.force_heap_struct_literal = true;
        let ghost forced = *self;
        self.struct_literal(num, struct_name);
        let ghost built = *self;
        self.force_heap_struct_literal = prev_force;
        self.last_expr_stack_struct = false;
        proof {
            assert(old(self).evolves_to(&forced));
            assert(built.evolves_to(&*self));
            old(self).lemma_evolves_trans(&forced, &built);
            old(self).lemma_evolves_trans(&built, &*self);
            if !self.has_error {
                let n = self.compiler.code().len();
                assert(built.force_heap_struct_literal);
                assert(built.builds_struct(forced.code_len(), struct_name.value@, true));
                assert(self.compiler == built.compiler);
                assert(self.intern_strings == built.intern_strings);
                let fields = choose|fields: Seq<Seq<char>>|
                    #[trigger] built.declares_names(
                        n - 3 - fields.len(),
                        instantiate_op(true),
                        struct_name.value@,
                        fields,
                    ) && all_distinct(fields) && forced.code_len() <= n - 3 - fields.len();
                built.lemma_declares_same(&*self, n - 3 - fields.len(), instantiate_op(true), struct_name.value@, fields);
            }
        }
    }

    /// Reads, or assigns when allowed and `=` follows, the variable `name`: a local, an
    /// upvalue or a global, looked up in that order.
    fn named_variable<N: Host>(&mut self, num: &N, name: Token<'a>, can_assign: bool)
        requires
            old(self).wf(),
        ensures
            old(self).evolves_to(&*final(self)),
            old(self).keeps_context(&*final(self)),
            old(self).emits_or_fails(&*final(self)),
            old(self).accesses_variable(&*final(self), name, can_assign),
        decreases old(self).fuel(), 16int,
    {
        let ci = self.enclosing.len();
        let local = self.resolve_local(ci, name);
        let get_op;
        let set_op;
        let index: u8;
        if local != -1 {
            get_op = OpCode::GetLocal;
            set_op = OpCode::SetLocal;
            index = local as u8;
        } else {
            match self.resolve_upvalue(ci, name) {
                Some(upvalue) => {
                    get_op = OpCode::GetUpvalue;
                    set_op = OpCode::SetUpvalue;
                    index = #[verifier::truncate] (upvalue as u8);
                },
                None => {
                    get_op = OpCode::GetGlobal;
                    set_op = OpCode::SetGlobal;
                    index = self.identifier_constant(name.value);
                },
            }
        }
        if can_assign && self.match_token(TokenType::Equal) {
            self.expression(num);
            self.emit_bytes(set_op.to_byte(), index);
        } else {
            self.emit_bytes(get_op.to_byte(), index);
        }
    }

    /// `Type { field = value, ... }`: the field values in order, then the instantiation with
    /// the type's name and the field names; on the stack unless `new` asked for the heap.
    fn struct_literal<N: Host>(&mut self, num: &N, struct_name: Token<'a>)
        requires
            old(self).wf(),
        ensures
            old(self).evolves_to(&*final(self)),
            old(self).keeps_context(&*final(self)),
            old(self).emits_or_fails(&*final(self)),
            final(self).builds_struct(
                old(self).code_len(),
                struct_name.value@,
                final(self).force_heap_struct_literal,
            ),
            !final(self).has_error ==> final(self).last_expr_stack_struct
                == !final(self).force_heap_struct_literal,
            !final(self).has_error ==> exists|fields: Seq<Seq<char>>|
                #[trigger] final(self).declares_names(
                    final(self).compiler.code().len() - 3 - fields.len(),
                    instantiate_op(final(self).force_heap_struct_literal),
                    struct_name.value@,
                    fields,
                ) && all_distinct(fields) && old(self).compiler.code().len()
                    <= final(self).compiler.code().len() - 3 - fields.len(),
            ({
                let u = old(self).upcoming();
                &&& !old(self).has_error
                &&& old(self).current.token_type == TokenType::LeftBrace
                &&& u[0].token_type == TokenType::RightBrace
                &&& u[1].token_type != TokenType::Error
                &&& old(self).compiler.constants().len() < 256
            }) ==> !final(self).has_error,
        decreases old(self).fuel(), 16int,
    {
        let ghost entry = *self;
        let ghost happy = {
            let u = entry.upcoming();
            &&& !entry.has_error
            &&& entry.current.token_type == TokenType::LeftBrace
            &&& u[0].token_type == TokenType::RightBrace
            &&& u[1].token_type != TokenType::Error
            &&& entry.compiler.constants().len() < 256
        };
        self.consume(TokenType::LeftBrace, "Expect '{' after struct type name.");
        let ghost opened = *self;
        proof {
            if happy {
                entry.lemma_step_upcoming(&opened);
                assert(opened.upcoming()[0] == entry.upcoming()[1]);
                assert(opened.current.token_type == TokenType::RightBrace);
            }
        }
        let mut field_names: Vec<&'a str> = Vec::new();
        let mut field_name_indices: Vec<u8> = Vec::new();
        if !self.check(TokenType::RightBrace) {
            loop
                invariant
                    entry == *old(self),
                    entry.wf(),
                    entry.evolves_to(&*self),
                    entry.keeps_context(&*self),
                    field_name_indices@.len() == field_names@.len(),
                    !self.has_error ==> all_distinct(texts(field_names@)),
                    !self.has_error ==> self.names_constants(field_name_indices@, texts(field_names@)),
                decreases self.fuel(),
            {
                let ghost top = *self;
                self.consume(TokenType::Identifier, "Expect field name in struct literal.");
                let field_name = self.previous.value;
                let ghost seen = field_names@;
                if contains_text(&field_names, field_name) {
                    self.error("Duplicate field in struct literal.");
                }
                field_names.push(field_name);
                self.consume(TokenType::Equal, "Expect '=' after field name in struct literal.");
                let ghost before = *self;
                self.expression(num);
                let field_index = self.identifier_constant(field_name);
                let ghost old_indices = field_name_indices@;
                field_name_indices.push(field_index);
                proof {
                    if !self.has_error {
                        assert forall|i: int, j: int| 0 <= i < j < texts(field_names@).len() implies
                            texts(field_names@)[i] != texts(field_names@)[j] by {
                            if j == seen.len() {
                                assert(field_names@[i] == seen[i]);
                            } else {
                                assert(texts(seen)[i] == texts(field_names@)[i]);
                                assert(texts(seen)[j] == texts(field_names@)[j]);
                            }
                        }
                        assert forall|j: int| 0 <= j < field_names@.len() implies #[trigger] self.names_constant(
                            field_name_indices@[j],
                            texts(field_names@)[j],
                        ) by {
                            if j < seen.len() {
                                assert(field_name_indices@[j] == old_indices[j]);
                                assert(texts(field_names@)[j] == texts(seen)[j]);
                                assert(top.names_constant(old_indices[j], texts(seen)[j]));
                            }
                        }
                    }
                }
                let ghost filled = *self;
                let more = self.match_token(TokenType::Comma);
                proof {
                    if !self.has_error {
                        assert forall|j: int| 0 <= j < field_names@.len() implies #[trigger] self.names_constant(
                            field_name_indices@[j],
                            texts(field_names@)[j],
                        ) by {
                            assert(filled.names_constant(field_name_indices@[j], texts(field_names@)[j]));
                        }
                    }
                }
                if !more {
                    break ;
                }
                if self.check(TokenType::RightBrace) {
                    break ;
                }
            }
        }
        let ghost listed = *self;
        proof {
            if !self.has_error && field_names@.len() == 0 {
                assert(texts(field_names@).len() == 0);
            }
        }
        self.consume(TokenType::RightBrace, "Expect '}' after struct literal fields.");
        proof {
            if happy {
                assert(listed == opened);
                lemma_tokens_from_step(
                    opened.src(),
                    opened.scanner.spec_pos(),
                    opened.scanner.spec_line(),
                );
                assert(!self.has_error);
                assert(self.compiler == entry.compiler);
                assert(field_name_indices@.len() == 0);
            }
        }
        let type_name_index = self.identifier_constant(struct_name.value);
        let op = if self.force_heap_struct_literal {
            OpCode::StructInstantiate.to_byte()
        } else {
            OpCode::StructInstantiateStack.to_byte()
        };
        self.emit_byte(op);
        self.emit_byte(type_name_index);
        let count = field_name_indices.len();
        if count > 255 {
            self.error("Too many fields in struct literal.");
            return ;
        }
        self.emit_byte(count as u8);
        let ghost header = *self;
        let mut i: usize = 0;
        while i < field_name_indices.len()
            invariant
                entry == *old(self),
                entry.wf(),
                entry.evolves_to(&header),
                header.evolves_to(&*self),
                entry.keeps_context(&header),
                header.keeps_context(&*self),
                i <= field_name_indices@.len(),
                self.compiler.code() == header.compiler.code() + field_name_indices@.subrange(0, i as int),
                self.compiler.constants() == header.compiler.constants(),
                self.intern_strings == header.intern_strings,
                self.has_error == header.has_error,
                self.force_heap_struct_literal == header.force_heap_struct_literal,
            decreases field_name_indices@.len() - i,
        {
            self.emit_byte(field_name_indices[i]);
            proof {
                assert(field_name_indices@.subrange(0, i + 1) =~= field_name_indices@.subrange(0, i as int).push(field_name_indices@[i as int]));
            }
            i = i + 1;
        }
        self.last_expr_stack_struct = !self.force_heap_struct_literal;
        proof {
            if !self.has_error {
                let fields = texts(field_names@);
                let code = self.compiler.code();
                let start = code.len() - 3 - fields.len();
                assert(field_name_indices@.subrange(0, field_name_indices@.len() as int) =~= field_name_indices@);
                assert(start == header.compiler.code().len() - 3);
                assert(code[start] == header.compiler.code()[start]);
                assert(code[start + 1] == header.compiler.code()[start + 1]);
                assert(code[start + 2] == header.compiler.code()[start + 2]);
                assert(code.subrange(start + 3, code.len() as int) =~= field_name_indices@);
                assert(listed.names_constants(field_name_indices@, fields));
                assert forall|j: int| 0 <= j < fields.len() implies #[trigger] self.names_constant(
                    field_name_indices@[j],
                    fields[j],
                ) by {
                    assert(listed.names_constant(field_name_indices@[j], fields[j]));
                }
                assert(self.declares_names(
                    start,
                    instantiate_op(self.force_heap_struct_literal),
                    struct_name.value@,
                    fields,
                ));
            }
        }
    }

    /// An expression.
    fn expression<N: Host>(&mut self, num: &N)
        requires
            old(self).wf(),
        ensures
            old(self).evolves_to(&*final(self)),
            old(self).current.token_type != TokenType::Eof ==> final(self).fuel() < old(self).fuel(),
            old(self).keeps_context(&*final(self)),
            old(self).emits_or_fails(&*final(self)),
            !final(self).has_error ==> binding_level(final(self).current.token_type) == 0,
        decreases old(self).fuel(), 15int,
    {
        self.last_expr_stack_struct = false;
        self.parse_precedence(num, Precedence::Assignment);
    }

    /// A declaration or a statement; after an error, skips to a likely start of the next.
    fn declaration<N: Host>(&mut self, num: &N)
        requires
            old(self).wf(),
        ensures
            old(self).evolves_to(&*final(self)),
            old(self).current.token_type != TokenType::Eof ==> final(self).fuel() < old(self).fuel(),
            old(self).current.token_type == TokenType::Return && old(self).compiler.function_type
                == FunctionType::Script ==> final(self).has_error,
        decreases old(self).fuel(), 20int,
    {
        if self.match_token(TokenType::Trait) {
            self.trait_declaration();
        } else if self.match_token(TokenType::Impl) {
            self.impl_declaration(num);
        } else if self.match_token(TokenType::Struct) {
            self.struct_declaration();
        } else if self.match_token(TokenType::Var) {
            self.variable_declaration(num);
        } else if self.match_token(TokenType::Fn) {
            self.function_declaration(num);
        } else {
            self.statement(num);
        }
        if self.panic_mode {
            self.synchronize();
        }
    }

    /// A statement.
    fn statement<N: Host>(&mut self, num: &N)
        requires
            old(self).wf(),
        ensures
            old(self).evolves_to(&*final(self)),
            old(self).current.token_type != TokenType::Eof ==> final(self).fuel() < old(self).fuel(),
            old(self).current.token_type == TokenType::Return && old(self).compiler.function_type
                == FunctionType::Script ==> final(self).has_error,
        decreases old(self).fuel(), 19int,
    {
        if self.match_token(TokenType::If) {
            self.if_statement(num);
        } else if self.match_token(TokenType::LeftBrace) {
            self.begin_scope();
            self.block(num);
            self.end_scope();
        } else if self.match_token(TokenType::While) {
            self.while_statement(num);
        } else if self.match_token(TokenType::For) {
            self.for_statement(num);
        } else if self.match_token(TokenType::Return) {
            self.return_statement(num);
        } else if self.match_token(TokenType::Print) {
            self.print_statement(num);
        } else {
            self.expression_statement(num);
        }
    }

    /// The declarations of a block, up to its closing brace.
    fn block<N: Host>(&mut self, num: &N)
        requires
            old(self).wf(),
        ensures
            old(self).evolves_to(&*final(self)),
            !final(self).has_error ==> final(self).previous.token_type == TokenType::RightBrace,
        decreases old(self).fuel(), 21int,
    {
        let ghost entry = *self;
        loop
            invariant
                entry == *old(self),
                entry.wf(),
                entry.evolves_to(&*self),
            decreases self.fuel(),
        {
            if self.check(TokenType::RightBrace) || self.check(TokenType::Eof) {
                break ;
            }
            self.declaration(num);
        }
        self.consume(TokenType::RightBrace, "Expect '}' after block.");
    }

    /// `if (condition) statement`, with an optional `else` branch.
    fn if_statement<N: Host>(&mut self, num: &N)
        requires
            old(self).wf(),
        ensures
            old(self).evolves_to(&*final(self)),
            !final(self).has_error ==> exists|then_jump: int, else_jump: int|
                #[trigger] final(self).compiles_if(old(self).code_len(), then_jump, else_jump),
        decreases old(self).fuel(), 24int,
    {
        self.consume(TokenType::LeftParen, "Expect '(' after 'if'.");
        self.expression(num);
        self.consume(TokenType::RightParen, "Expect ')' after condition.");
        let jump = self.emit_jump_bytes(OpCode::JumpIfFalse.to_byte());
        self.emit_byte(OpCode::Pop.to_byte());
        let ghost guarded = *self;
        self.statement(num);
        let else_jump = self.emit_jump_bytes(OpCode::Jump.to_byte());
        let ghost skipped = *self;
        self.patch_jump_offset(jump);
        let ghost patched = *self;
        self.emit_byte(OpCode::Pop.to_byte());
        let ghost popped = *self;
        if self.match_token(TokenType::Else) {
            self.statement(num);
        }
        let ghost done = *self;
        self.patch_jump_offset(else_jump);
        proof {
            if !self.has_error {
                let t = jump - 1;
                let e = else_jump - 1;
                let code = self.compiler.code();
                assert(code[t] == guarded.compiler.code()[t]);
                assert(code[t + 3] == guarded.compiler.code()[t + 3]);
                assert(code[jump as int] == patched.compiler.code()[jump as int]);
                assert(code[jump + 1] == patched.compiler.code()[jump + 1]);
                assert(code[e] == skipped.compiler.code()[e]);
                assert(code[e + 3] == popped.compiler.code()[e + 3]);
                assert(self.compiles_if(old(self).code_len(), t, e));
            }
        }
    }

    /// From `start` on, the current chunk holds a choice: the condition, a conditional jump at
    /// `then_jump` to the pop that starts the other branch, a pop of the condition, the first
    /// branch, a jump at `else_jump` to the end, the other branch's pop of the condition, and
    /// the other branch.
    spec fn compiles_if(&self, start: int, then_jump: int, else_jump: int) -> bool {
        let code = self.compiler.code();
        let n = code.len() as int;
        &&& start <= then_jump
        &&& then_jump + 4 <= else_jump
        &&& else_jump + 4 <= n
        &&& code[then_jump] == OpCode::JumpIfFalse.spec_byte()
        &&& jumps_to(code, then_jump + 1, else_jump + 3)
        &&& code[then_jump + 3] == OpCode::Pop.spec_byte()
        &&& code[else_jump] == OpCode::Jump.spec_byte()
        &&& jumps_to(code, else_jump + 1, n)
        &&& code[else_jump + 3] == OpCode::Pop.spec_byte()
    }

    /// From `start` on, the current chunk holds a loop: the condition, a conditional jump at
    /// `exit` to the last byte, a pop of the condition, the body, a jump back to `start`, and
    /// a pop of the condition on the way out.
    spec fn compiles_while(&self, start: int, exit: int) -> bool {
        let code = self.compiler.code();
        let n = code.len() as int;
        &&& start <= exit
        &&& exit + 4 <= n - 4
        &&& code[exit] == OpCode::JumpIfFalse.spec_byte()
        &&& jumps_to(code, exit + 1, n - 1)
        &&& code[exit + 3] == OpCode::Pop.spec_byte()
        &&& code[n - 4] == OpCode::Loop.spec_byte()
        &&& loops_to(code, n - 3, start)
        &&& code[n - 1] == OpCode::Pop.spec_byte()
    }

    /// `while (condition) statement`.
    fn while_statement<N: Host>(&mut self, num: &N)
        requires
            old(self).wf(),
        ensures
            old(self).evolves_to(&*final(self)),
            !final(self).has_error ==> exists|exit: int|
                #[trigger] final(self).compiles_while(old(self).code_len(), exit),
        decreases old(self).fuel(), 24int,
    {
        let loop_start = self.compiler.function.chunk.len();
        self.consume(TokenType::LeftParen, "Expect '(' after 'while'.");
        self.expression(num);
        self.consume(TokenType::RightParen, "Expect ')' after condition.");
        let exit_jump = self.emit_jump_bytes(OpCode::JumpIfFalse.to_byte());
        self.emit_byte(OpCode::Pop.to_byte());
        let ghost guarded = *self;
        self.statement(num);
        let ghost body = *self;
        self.emit_loop(loop_start);
        let ghost looped = *self;
        self.patch_jump_offset(exit_jump);
        let ghost patched = *self;
        self.emit_byte(OpCode::Pop.to_byte());
        proof {
            if !self.has_error {
                let exit = exit_jump - 1;
                let code = self.compiler.code();
                let n = code.len() as int;
                assert(code[exit] == guarded.compiler.code()[exit]);
                assert(code[exit + 3] == guarded.compiler.code()[exit + 3]);
                assert(code[n - 4] == looped.compiler.code()[n - 4]);
                assert(code[n - 3] == looped.compiler.code()[n - 3]);
                assert(code[n - 2] == looped.compiler.code()[n - 2]);
                assert(code[exit_jump as int] == patched.compiler.code()[exit_jump as int]);
                assert(code[exit_jump + 1] == patched.compiler.code()[exit_jump + 1]);
                assert(self.compiles_while(loop_start as int, exit));
            }
        }
    }

    /// The condition clause of a `for`, up to its `;`: when there is one, the condition, a
    /// conditional jump whose operand's offset is given, and a pop of the condition.
    fn for_condition<N: Host>(&mut self, num: &N) -> (exit: Option<usize>)
        requires
            old(self).wf(),
        ensures
            old(self).evolves_to(&*final(self)),
            exit is None <==> old(self).current.token_type == TokenType::Semicolon,
            match exit {
                Some(x) => {
                    &&& old(self).code_len() + 1 <= x
                    &&& x + 3 == final(self).code_len()
                    &&& final(self).compiler.code()[x - 1] == OpCode::JumpIfFalse.spec_byte()
                    &&& final(self).compiler.code()[x + 2] == OpCode::Pop.spec_byte()
                },
                None => final(self).code_len() == old(self).code_len(),
            },
        decreases old(self).fuel(), 20int,
    {
        if self.match_token(TokenType::Semicolon) {
            return None;
        }
        self.expression(num);
        self.consume(TokenType::Semicolon, "Expect ';' after loop condition.");
        let exit = self.emit_jump_bytes(OpCode::JumpIfFalse.to_byte());
        self.emit_byte(OpCode::Pop.to_byte());
        Some(exit)
    }

    /// The increment clause of a `for`, up to its `)`: a jump over it to what follows, the
    /// increment, a pop of its value and a jump back to `loop_start`; gives where the
    /// increment starts.
    fn for_increment<N: Host>(&mut self, num: &N, loop_start: usize) -> (increment_start: usize)
        requires
            old(self).wf(),
            loop_start <= old(self).code_len(),
        ensures
            old(self).evolves_to(&*final(self)),
            increment_start == old(self).code_len() + 3,
            increment_start + 3 <= final(self).code_len(),
            !final(self).has_error ==> {
                let code = final(self).compiler.code();
                let b = old(self).code_len();
                let n = final(self).code_len();
                &&& code[b] == OpCode::Jump.spec_byte()
                &&& jumps_to(code, b + 1, n)
                &&& code[n - 3] == OpCode::Loop.spec_byte()
                &&& loops_to(code, n - 2, loop_start as int)
            },
        decreases old(self).fuel(), 20int,
    {
        let body_jump = self.emit_jump_bytes(OpCode::Jump.to_byte());
        let ghost jumped = *self;
        let increment_start = self.compiler.function.chunk.len();
        self.expression(num);
        self.emit_byte(OpCode::Pop.to_byte());
        self.consume(TokenType::RightParen, "Expect ')' after for clauses.");
        self.emit_loop(loop_start);
        let ghost looped = *self;
        self.patch_jump_offset(body_jump);
        proof {
            if !self.has_error {
                let n = self.code_len();
                assert(self.compiler.code()[body_jump - 1] == jumped.compiler.code()[body_jump - 1]);
                assert(self.compiler.code()[n - 3] == looped.compiler.code()[n - 3]);
                assert(self.compiler.code()[n - 2] == looped.compiler.code()[n - 2]);
                assert(self.compiler.code()[n - 1] == looped.compiler.code()[n - 1]);
            }
        }
        increment_start
    }

    /// From `start` on, the current chunk holds a counted loop: the initializer, then from
    /// `cond_start` the condition, if any, with a conditional jump at `exit` to the pop after
    /// the loop; then, if there is an increment, a jump at `step.0` over it to the body, the
    /// increment and a jump back at `step.1` to `cond_start`; then the body and a jump back at
    /// `back` to the increment, or to `cond_start` when there is none.
    spec fn compiles_for(&self, start: int, cond_start: int, exit: Option<int>, step: Option<(int, int)>, back: int) -> bool {
        let code = self.compiler.code();
        let n = code.len() as int;
        &&& start <= cond_start
        &&& back + 3 <= n
        &&& code[back] == OpCode::Loop.spec_byte()
        &&& match exit {
            Some(x) => {
                &&& cond_start <= x
                &&& x + 4 <= back
                &&& code[x] == OpCode::JumpIfFalse.spec_byte()
                &&& jumps_to(code, x + 1, back + 3)
                &&& code[x + 3] == OpCode::Pop.spec_byte()
                &&& back + 4 <= n
                &&& code[back + 3] == OpCode::Pop.spec_byte()
            },
            None => true,
        }
        &&& match step {
            Some((b, m)) => {
                &&& cond_start <= b
                &&& (exit matches Some(x) ==> x + 4 <= b)
                &&& b + 3 <= m
                &&& m + 3 <= back
                &&& code[b] == OpCode::Jump.spec_byte()
                &&& jumps_to(code, b + 1, m + 3)
                &&& code[m] == OpCode::Loop.spec_byte()
                &&& loops_to(code, m + 1, cond_start)
                &&& loops_to(code, back + 1, b + 3)
            },
            None => loops_to(code, back + 1, cond_start),
        }
    }

    /// `for (initializer; condition; increment) statement`, each clause optional.
    #[verifier::rlimit(40)]
    fn for_statement<N: Host>(&mut self, num: &N)
        requires
            old(self).wf(),
        ensures
            old(self).evolves_to(&*final(self)),
            !final(self).has_error ==> exists|
                cond_start: int,
                exit: Option<int>,
                step: Option<(int, int)>,
                back: int,
            | #[trigger] final(self).compiles_for(old(self).code_len(), cond_start, exit, step, back),
        decreases old(self).fuel(), 24int,
    {
        self.begin_scope();
        self.consume(TokenType::LeftParen, "Expect '(' after 'for'.");
        if self.match_token(TokenType::Semicolon) {
        } else if self.match_token(TokenType::Var) {
            self.variable_declaration(num);
        } else {
            self.expression_statement(num);
        }
        let mut loop_start = self.compiler.function.chunk.len();
        let ghost cond_start = loop_start as int;
        let exit_jump = self.for_condition(num);
        let ghost conditioned = *self;
        let ghost mut step: Option<(int, int)> = None;
        let ghost mut stepped = *self;
        if !self.match_token(TokenType::RightParen) {
            let ghost before = *self;
            loop_start = self.for_increment(num, loop_start);
            proof {
                step = Some((before.code_len(), self.code_len() - 3));
                stepped = *self;
            }
        }
        self.statement(num);
        let ghost back = self.code_len();
        self.emit_loop(loop_start);
        let ghost backed = *self;
        if let Some(exit) = exit_jump {
            self.patch_jump_offset(exit);
            self.emit_byte(OpCode::Pop.to_byte());
        }
        let ghost closing = *self;
        self.end_scope();
        proof {
            if !self.has_error {
                let exit_at: Option<int> = match exit_jump {
                    Some(x) => Some(x - 1),
                    None => None,
                };
                let code = self.compiler.code();
                assert(code[back] == backed.compiler.code()[back]);
                assert(code[back + 1] == backed.compiler.code()[back + 1]);
                assert(code[back + 2] == backed.compiler.code()[back + 2]);
                if let Some(x) = exit_jump {
                    assert(code[x - 1] == conditioned.compiler.code()[x - 1]);
                    assert(code[x + 2] == conditioned.compiler.code()[x + 2]);
                    assert(code[x as int] == closing.compiler.code()[x as int]);
                    assert(code[x + 1] == closing.compiler.code()[x + 1]);
                    assert(code[back + 3] == closing.compiler.code()[back + 3]);
                }
                if let Some((b, m)) = step {
                    assert(code[b] == stepped.compiler.code()[b]);
                    assert(code[b + 1] == stepped.compiler.code()[b + 1]);
                    assert(code[b + 2] == stepped.compiler.code()[b + 2]);
                    assert(code[m] == stepped.compiler.code()[m]);
                    assert(code[m + 1] == stepped.compiler.code()[m + 1]);
                    assert(code[m + 2] == stepped.compiler.code()[m + 2]);
                }
                assert(self.compiles_for(old(self).code_len(), cond_start, exit_at, step, back));
            }
        }
    }

    /// `return;` or `return value;`.
    fn return_statement<N: Host>(&mut self, num: &N)
        requires
            old(self).wf(),
        ensures
            old(self).evolves_to(&*final(self)),
            old(self).compiler.function_type == FunctionType::Script ==> final(self).has_error,
            old(self).code_len() < final(self).code_len(),
            final(self).compiler.code().last() == OpCode::Return.spec_byte(),
            old(self).current.token_type == TokenType::Semicolon ==> final(self).compiler.code()
                == old(self).compiler.code().push(OpCode::Nil.spec_byte()).push(
                OpCode::Return.spec_byte(),
            ),
        decreases old(self).fuel(), 16int,
    {
        if self.compiler.function_type == FunctionType::Script {
            self.error("Can't return from top-level code.");
        }
        if self.match_token(TokenType::Semicolon) {
            self.emit_return();
        } else {
            self.expression(num);
            if self.last_expr_stack_struct {
                self.error(
                    "Cannot return stack-allocated struct literal; use 'new' to allocate on heap.",
                );
            }
            self.consume(TokenType::Semicolon, "Expect ';' after return value.");
            self.emit_byte(OpCode::Return.to_byte());
        }
    }

    /// `print value;`.
    fn print_statement<N: Host>(&mut self, num: &N)
        requires
            old(self).wf(),
        ensures
            old(self).evolves_to(&*final(self)),
            old(self).code_len() < final(self).code_len(),
            final(self).compiler.code().last() == OpCode::Print.spec_byte(),
        decreases old(self).fuel(), 16int,
    {
        self.expression(num);
        self.consume(TokenType::Semicolon, "Expect ';' after value.");
        self.emit_byte(OpCode::Print.to_byte());
    }

    /// An expression whose value is dropped.
    fn expression_statement<N: Host>(&mut self, num: &N)
        requires
            old(self).wf(),
        ensures
            old(self).evolves_to(&*final(self)),
            old(self).code_len() < final(self).code_len(),
            final(self).compiler.code().last() == OpCode::Pop.spec_byte(),
            old(self).current.token_type != TokenType::Eof ==> final(self).fuel() < old(self).fuel(),
        decreases old(self).fuel(), 18int,
    {
        self.expression(num);
        self.consume(TokenType::Semicolon, "Expect ';' after expression.");
        self.emit_byte(OpCode::Pop.to_byte());
    }

    /// `var name = value;`, the value nil when left out.
    fn variable_declaration<N: Host>(&mut self, num: &N)
        requires
            old(self).wf(),
        ensures
            old(self).evolves_to(&*final(self)),
            final(self).compiler.scope_depth == old(self).compiler.scope_depth,
            !final(self).has_error ==> old(self).current.token_type == TokenType::Identifier,
            old(self).compiler.scope_depth == 0 && !final(self).has_error ==> final(self).defines_global(
                old(self).code_len() + 1,
                old(self).current.value@,
            ),
            old(self).compiler.scope_depth > 0 && old(self).current.token_type == TokenType::Identifier
                && old(self).compiler.locals@.len() < 255 ==> final(self).compiler.locals@
                == old(self).compiler.locals@.push(
                Local {
                    name: old(self).current.value,
                    kind: TokenType::Identifier,
                    depth: old(self).compiler.scope_depth,
                    captured: false,
                },
            ),
        decreases old(self).fuel(), 16int,
    {
        let global = self.parse_variable("Expect variable name.");
        if self.match_token(TokenType::Equal) {
            self.expression(num);
        } else {
            self.emit_byte(OpCode::Nil.to_byte());
        }
        self.consume(TokenType::Semicolon, "Expect ';' after variable declaration.");
        self.define_variable(global);
    }

    /// `fn name(parameters) { body }`.
    fn function_declaration<N: Host>(&mut self, num: &N)
        requires
            old(self).wf(),
        ensures
            old(self).evolves_to(&*final(self)),
            final(self).compiler.scope_depth == old(self).compiler.scope_depth,
            !final(self).has_error ==> old(self).current.token_type == TokenType::Identifier,
            old(self).compiler.scope_depth == 0 && !final(self).has_error ==> final(self).defines_global(
                old(self).code_len(),
                old(self).current.value@,
            ),
        decreases old(self).fuel(), 24int,
    {
        let global = self.parse_variable("Expect function name.");
        self.mark_initialized();
        let ghost named = *self;
        self.function(num, FunctionType::Function);
        let ghost compiled = *self;
        self.define_variable(global);
        proof {
            if old(self).compiler.scope_depth == 0 && !self.has_error {
                let n = self.code_len();
                assert(named.names_constant(global, old(self).current.value@));
                assert(compiled.names_constant(global, old(self).current.value@));
                assert(self.compiler.code()[n - 1] == global);
            }
        }
    }

    /// The parameters and body of a function, compiled by a compiler of its own, which is put
    /// on the heap; gives its handle and the variables it captures. A method gets `self` as an
    /// implicit first parameter.
    fn function_body<N: Host>(&mut self, num: &N, function_type: FunctionType, with_self: bool) -> (r: (ObjRef, Vec<Upvalue>))
        requires
            old(self).wf(),
            function_type == FunctionType::Function,
        ensures
            old(self).evolves_to(&*final(self)),
            final(self).compiler.code() == old(self).compiler.code(),
            final(self).compiler.scope_depth == old(self).compiler.scope_depth,
            final(self).object_manager.slot(r.0) matches Some(HeapObject::Function(f))
                && f.upvalue_count == r.1@.len(),
        decreases old(self).fuel(), 22int,
    {
        let ghost entry = *self;
        self.init_compiler(function_type);
        self.begin_scope();
        if with_self {
            self.compiler.function.arity = 1;
            let receiver = Token { token_type: TokenType::Identifier, value: "self", line: self.previous.line };
            self.add_local(receiver);
            self.mark_initialized();
        }
        self.consume(TokenType::LeftParen, "Expect '(' after function name.");
        let ghost start = *self;
        if !self.check(TokenType::RightParen) {
            loop
                invariant
                    entry == *old(self),
                    entry.wf(),
                    start.wf(),
                    start.evolves_to(&*self),
                    start.enclosing@.len() == entry.enclosing@.len() + 1,
                    start.fuel() <= entry.fuel(),
                    start.src() == entry.src(),
                    forall|i: int| 0 <= i < entry.enclosing@.len() ==> same_code(#[trigger] start.enclosing@[i], entry.enclosing@[i]),
                    same_code(start.enclosing@[entry.enclosing@.len() as int], entry.compiler),
                decreases self.fuel(),
            {
                let ghost before = *self;
                self.compiler.function.arity = self.compiler.function.arity.wrapping_add(1);
                proof {
                    assert(self.compiler.constants() == before.compiler.constants());
                    assert(self.compiler.code() == before.compiler.code());
                }
                if self.compiler.function.arity >= 255 {
                    self.error("Can't have more than 255 parameters.");
                }
                assert(start.evolves_to(&*self));
                let ghost named = *self;
                let constant = self.parse_variable("Expect parameter name.");
                self.define_variable(constant);
                assert(start.names_grow_to(&named));
                assert(named.names_grow_to(&*self));
                if !self.match_token(TokenType::Comma) {
                    break ;
                }
            }
        }
        self.consume(TokenType::RightParen, "Expect ')' after parameters.");
        self.consume(TokenType::LeftBrace, "Expect '{' before function body.");
        self.block(num);
        self.end_compiler()
    }

    /// From `start` on, the current chunk holds exactly the closure instruction for constant
    /// `index`, a function on the heap with one capture for each of `captures`, followed by
    /// the captures.
    spec fn makes_closure_at(&self, start: int, index: u8, captures: Seq<Upvalue>) -> bool {
        let code = self.compiler.code();
        &&& 0 <= start <= code.len()
        &&& code.subrange(start, code.len() as int) == seq![OpCode::Closure.spec_byte(), index]
            + capture_bytes(captures)
        &&& index < self.compiler.constants().len()
        &&& self.compiler.constants()[index as int] matches Value::Object(r)
            && self.object_manager.slot(r) matches Some(HeapObject::Function(f))
            && f.upvalue_count == captures.len()
    }

    /// A function: its body, then the closure instruction that makes it, with the variables it
    /// captures.
    fn function<N: Host>(&mut self, num: &N, function_type: FunctionType)
        requires
            old(self).wf(),
            function_type == FunctionType::Function,
        ensures
            old(self).evolves_to(&*final(self)),
            final(self).compiler.scope_depth == old(self).compiler.scope_depth,
            !final(self).has_error ==> exists|index: u8, captures: Seq<Upvalue>|
                #[trigger] final(self).makes_closure_at(old(self).code_len(), index, captures),
        decreases old(self).fuel(), 23int,
    {
        let ghost entry = *self;
        let (function_ref, upvalues) = self.function_body(num, function_type, false);
        let index = self.make_constant(Value::Object(function_ref));
        self.emit_bytes(OpCode::Closure.to_byte(), index);
        let ghost after = *self;
        let mut i: usize = 0;
        while i < upvalues.len()
            invariant
                entry == *old(self),
                entry.wf(),
                entry.evolves_to(&after),
                after.evolves_to(&*self),
                i <= upvalues@.len(),
                self.compiler.code() == after.compiler.code() + capture_bytes(upvalues@.subrange(0, i as int)),
                self.compiler.constants() == after.compiler.constants(),
                self.object_manager == after.object_manager,
                self.has_error == after.has_error,
                self.compiler.scope_depth == after.compiler.scope_depth,
            decreases upvalues@.len() - i,
        {
            let upvalue = upvalues[i];
            if upvalue.is_local {
                self.emit_byte(1);
            } else {
                self.emit_byte(0);
            }
            self.emit_byte(#[verifier::truncate] (upvalue.index as u8));
            proof {
                let before = upvalues@.subrange(0, i as int);
                let next = upvalues@.subrange(0, i + 1);
                assert(next.drop_last() =~= before);
                assert(next.last() == upvalue);
            }
            i = i + 1;
        }
        proof {
            if !self.has_error {
                let n0 = entry.code_len();
                let code = self.compiler.code();
                assert(upvalues@.subrange(0, upvalues@.len() as int) =~= upvalues@);
                assert(code.subrange(n0, code.len() as int) =~= seq![OpCode::Closure.spec_byte(), index]
                    + capture_bytes(upvalues@));
                assert(self.makes_closure_at(n0, index, upvalues@));
            }
        }
    }
}

} // verus!
