//! The interpreter: it runs the nodes of a parsed program against the tape.
use vstd::prelude::*;
use std::collections::HashMap;
use crate::strings::{string_from_chars, chars_of, string_clone, string_eq, text};
use crate::parsing::parser::{
    ASTNode, DougChain, ExprV, Expression, NodeV, PState, Parser, SynV, SyntaxError, copy_chains,
    spec_parse_block,
    node_view, nodes_view,
};
use crate::values::Operator;
use crate::values::literal::{Literal, LiteralV};
use crate::values::tape::{MutatorView, stored, tape_read, out_of_memory};
use crate::values::tape::bump::StickyImmixHeap;
use crate::values::tape::pointers::TaggedCellPtr;
use crate::values::value::{Number, TapeObject, Value, ValueV};

verus! {

/// What reads text aloud.
pub trait TtsEngine {
    fn speak(&self, text: &str);
}

/// An error of a running program.
#[derive(Debug)]
pub enum RuntimeError {
    OutOfRange(i32),
    TapeOverFlow,
    NotDefined(String),
    NoRExpression(String),
    BadExpression(String, String, String),
    AllocError(String),
    SyntaxError(String),
    SegmentationFault,
}

pub enum RuntimeErrorV {
    OutOfRange(i32),
    TapeOverFlow,
    NotDefined(Seq<char>),
    NoRExpression(Seq<char>),
    BadExpression(Seq<char>, Seq<char>, Seq<char>),
    AllocError(Seq<char>),
    SyntaxError(Seq<char>),
    SegmentationFault,
}

impl View for RuntimeError {
    type V = RuntimeErrorV;

    open spec fn view(&self) -> RuntimeErrorV {
        match self {
            RuntimeError::OutOfRange(i) => RuntimeErrorV::OutOfRange(*i),
            RuntimeError::TapeOverFlow => RuntimeErrorV::TapeOverFlow,
            RuntimeError::NotDefined(s) => RuntimeErrorV::NotDefined(s@),
            RuntimeError::NoRExpression(s) => RuntimeErrorV::NoRExpression(s@),
            RuntimeError::BadExpression(a, b, c) => RuntimeErrorV::BadExpression(a@, b@, c@),
            RuntimeError::AllocError(s) => RuntimeErrorV::AllocError(s@),
            RuntimeError::SyntaxError(s) => RuntimeErrorV::SyntaxError(s@),
            RuntimeError::SegmentationFault => RuntimeErrorV::SegmentationFault,
        }
    }
}

/// The decimal digits of `n`, most significant first.
pub open spec fn digits(n: nat) -> Seq<char>
    decreases n,
{
    if n < 10 {
        seq![((n + 48) as u8) as char]
    } else {
        digits(n / 10).push((((n % 10) + 48) as u8) as char)
    }
}

/// The decimal text of `i`, with a minus sign when it is negative.
pub open spec fn decimal(i: int) -> Seq<char> {
    if i < 0 {
        seq!['-'] + digits((-i) as nat)
    } else {
        digits(i as nat)
    }
}

/// The decimal digits of `n`.
fn digits_of(n: u32) -> (r: Vec<char>)
    ensures
        r@ == digits(n as nat),
    decreases n,
{
    let d: u8 = (n % 10) as u8;
    let c = (d + 48) as char;
    if n < 10 {
        let mut v: Vec<char> = Vec::new();
        v.push(c);
        assert(v@ =~= seq![c]);
        v
    } else {
        let mut v = digits_of(n / 10);
        v.push(c);
        v
    }
}

/// The decimal text of `i`.
pub fn decimal_text(i: i32) -> (r: String)
    ensures
        r@ == decimal(i as int),
{
    if i < 0 {
        let n: u32 = (0i64 - i as i64) as u32;
        let d = digits_of(n);
        let mut v: Vec<char> = Vec::new();
        v.push('-');
        let mut k: usize = 0;
        while k < d.len()
            invariant
                k <= d@.len(),
                v@ == seq!['-'] + d@.take(k as int),
            decreases d@.len() - k,
        {
            v.push(d[k]);
            assert(d@.take(k + 1) =~= d@.take(k as int).push(d@[k as int]));
            k = k + 1;
        }
        assert(d@.take(k as int) =~= d@);
        string_from_chars(&v)
    } else {
        string_from_chars(&digits_of(i as u32))
    }
}

/// `a` followed by `b`.
pub fn join(a: &String, b: &String) -> (r: String)
    ensures
        r@ == a@ + b@,
{
    let mut v = chars_of(a);
    let w = chars_of(b);
    let mut k: usize = 0;
    while k < w.len()
        invariant
            k <= w@.len(),
            v@ == a@ + w@.take(k as int),
            w@ == b@,
        decreases w@.len() - k,
    {
        v.push(w[k]);
        assert(w@.take(k + 1) =~= w@.take(k as int).push(w@[k as int]));
        k = k + 1;
    }
    assert(w@.take(k as int) =~= w@);
    string_from_chars(&v)
}

/// The message of an error.
pub open spec fn message_of(e: RuntimeErrorV) -> Seq<char> {
    match e {
        RuntimeErrorV::OutOfRange(i) => "Value "@ + decimal(i as int) + " is out of range of Tape"@,
        RuntimeErrorV::TapeOverFlow => "Stack overflow :3"@,
        RuntimeErrorV::NotDefined(s) => s + " is not defined"@,
        RuntimeErrorV::NoRExpression(s) => "Expression "@ + s + " requires both a left and right value"@,
        RuntimeErrorV::BadExpression(a, b, c) => "Could not evaluate expression "@ + a + " "@ + b + " "@
            + c,
        RuntimeErrorV::AllocError(s) => "Allocation error: "@ + s,
        RuntimeErrorV::SyntaxError(s) => "Syntax error: "@ + s,
        RuntimeErrorV::SegmentationFault => "Value is nil"@,
    }
}

impl RuntimeError {
    /// The message of the error.
    pub fn message(&self) -> (r: String)
        ensures
            r@ == message_of(self@),
    {
        match self {
            RuntimeError::OutOfRange(i) => {
                let a = join(&text("Value "), &decimal_text(*i));
                join(&a, &text(" is out of range of Tape"))
            },
            RuntimeError::TapeOverFlow => text("Stack overflow :3"),
            RuntimeError::NotDefined(s) => join(s, &text(" is not defined")),
            RuntimeError::NoRExpression(s) => {
                let a = join(&text("Expression "), s);
                join(&a, &text(" requires both a left and right value"))
            },
            RuntimeError::BadExpression(a, b, c) => {
                let x = join(&text("Could not evaluate expression "), a);
                let x = join(&x, &text(" "));
                let x = join(&x, b);
                let x = join(&x, &text(" "));
                join(&x, c)
            },
            RuntimeError::AllocError(s) => join(&text("Allocation error: "), s),
            RuntimeError::SyntaxError(s) => join(&text("Syntax error: "), s),
            RuntimeError::SegmentationFault => text("Value is nil"),
        }
    }

    /// A copy of the error.
    pub fn duplicate(&self) -> (r: RuntimeError)
        ensures
            r@ == self@,
    {
        match self {
            RuntimeError::OutOfRange(i) => RuntimeError::OutOfRange(*i),
            RuntimeError::TapeOverFlow => RuntimeError::TapeOverFlow,
            RuntimeError::NotDefined(s) => RuntimeError::NotDefined(string_clone(s)),
            RuntimeError::NoRExpression(s) => RuntimeError::NoRExpression(string_clone(s)),
            RuntimeError::BadExpression(a, b, c) => RuntimeError::BadExpression(
                string_clone(a),
                string_clone(b),
                string_clone(c),
            ),
            RuntimeError::AllocError(s) => RuntimeError::AllocError(string_clone(s)),
            RuntimeError::SyntaxError(s) => RuntimeError::SyntaxError(string_clone(s)),
            RuntimeError::SegmentationFault => RuntimeError::SegmentationFault,
        }
    }
}

/// The value of a chain of `count` Dougs: 2 to the power `count - 1`, as
/// a 32-bit shift (the shift amount taken modulo 32, as a release build
/// computes it).
pub open spec fn chain_value(count: usize) -> i32 {
    1i32.wrapping_shl(count.wrapping_sub(1) as u32)
}

/// The tape index that a Doug notation reaches from `start`: the chains'
/// values are added and subtracted in turn (wrapping, as a release build
/// computes it).
pub open spec fn notation(chains: Seq<DougChain>, start: i32) -> i32
    decreases chains.len(),
{
    if chains.len() == 0 {
        start
    } else {
        let prev = notation(chains.drop_last(), start);
        let v = chain_value(chains.last().count);
        if (chains.len() - 1) % 2 == 0 {
            prev.wrapping_add(v)
        } else {
            prev.wrapping_sub(v)
        }
    }
}

/// The cell of the left or right half of the tape that the index `i`
/// names: `i` itself on the right, `-i - 1` on the left.
pub open spec fn cell_index(i: i32) -> u32 {
    if i < 0 {
        (-(i + 1)) as u32
    } else {
        i as u32
    }
}

/// The last entry of `vars` for `name`.
pub open spec fn find_var(vars: Seq<(Seq<char>, i32)>, name: Seq<char>) -> Option<int>
    decreases vars.len(),
{
    if vars.len() == 0 {
        None
    } else if vars.last().0 == name {
        Some(vars.len() - 1)
    } else {
        find_var(vars.drop_last(), name)
    }
}

/// The tape index a variable names, if it is declared.
pub open spec fn lookup(vars: Seq<(Seq<char>, i32)>, name: Seq<char>) -> Option<i32> {
    match find_var(vars, name) {
        Some(j) => Some(vars[j].1),
        None => None,
    }
}

/// The variables after `name` is declared at `idx`: a name declared
/// before now names `idx`.
pub open spec fn declare(vars: Seq<(Seq<char>, i32)>, name: Seq<char>, idx: i32) -> Seq<(Seq<char>, i32)> {
    match find_var(vars, name) {
        Some(j) => vars.update(j, (name, idx)),
        None => vars.push((name, idx)),
    }
}

/// Which nodes a frame runs: the program, the body of a loop, or a branch
/// of a prediction.
#[derive(Clone, Copy, Debug, PartialEq, Eq, Structural)]
pub enum FrameKind {
    Program,
    Loop,
    Believers,
    Doubters,
}

/// A block being run: the position of its next node, and which block it
/// is (it is found from the node at its parent's position).
#[derive(Clone, Copy, Debug, PartialEq, Eq, Structural)]
pub struct Frame {
    pub pos: usize,
    pub kind: FrameKind,
}

/// The body or branch of the node `n` that a frame of kind `kind` runs.
pub open spec fn child_body(n: NodeV, kind: FrameKind) -> Option<Seq<NodeV>> {
    match (n, kind) {
        (NodeV::Loop { body }, FrameKind::Loop) => Some(body),
        (NodeV::Prediction { believers_body, .. }, FrameKind::Believers) => Some(believers_body),
        (NodeV::Prediction { doubters_body, .. }, FrameKind::Doubters) => Some(doubters_body),
        _ => None,
    }
}

/// The nodes that frame `k` runs.
pub open spec fn nodes_at(program: Seq<NodeV>, frames: Seq<Frame>, k: int) -> Seq<NodeV>
    decreases k,
{
    if k <= 0 {
        program
    } else {
        let parent = nodes_at(program, frames, k - 1);
        let p = frames[k - 1].pos as int;
        if 0 <= p < parent.len() {
            match child_body(parent[p], frames[k].kind) {
                Some(b) => b,
                None => seq![],
            }
        } else {
            seq![]
        }
    }
}

/// Frame `k` runs the body or branch at its parent's position.
pub open spec fn child_ok(program: Seq<NodeV>, frames: Seq<Frame>, k: int) -> bool {
    let parent = nodes_at(program, frames, k - 1);
    let p = frames[k - 1].pos as int;
    &&& p < parent.len()
    &&& child_body(parent[p], frames[k].kind) is Some
}

/// The frames are a path into the program: the first runs the program,
/// each other one the body or branch at its parent's position.
pub open spec fn frames_wf(program: Seq<NodeV>, frames: Seq<Frame>) -> bool {
    &&& frames.len() > 0 ==> frames[0].kind == FrameKind::Program
    &&& forall|k: int|
        0 <= k < frames.len() ==> (#[trigger] frames[k]).pos <= nodes_at(program, frames, k).len()
    &&& forall|k: int| 1 <= k < frames.len() ==> #[trigger] child_ok(program, frames, k)
}

/// The frames after the innermost one is done: its parent moves past the
/// node that started it.
pub open spec fn advance(frames: Seq<Frame>) -> Seq<Frame> {
    if frames.len() == 0 {
        frames
    } else {
        frames.update(
            frames.len() - 1,
            Frame { pos: (frames.last().pos + 1) as usize, kind: frames.last().kind },
        )
    }
}

/// The frames after a `break`: all up to the innermost loop end, and the
/// block around that loop goes on after it; with no loop, all end.
pub open spec fn after_break(frames: Seq<Frame>) -> Seq<Frame>
    decreases frames.len(),
{
    if frames.len() == 0 {
        frames
    } else if frames.last().kind == FrameKind::Loop {
        advance(frames.drop_last())
    } else {
        after_break(frames.drop_last())
    }
}

/// A `break` ends the innermost loop and every block inside it, and the
/// block around the loop goes on after the loop; with no loop around it, it
/// ends every block.
pub proof fn lemma_break_ends_innermost_loop(frames: Seq<Frame>, j: int)
    requires
        -1 <= j < frames.len(),
        j >= 0 ==> frames[j].kind == FrameKind::Loop,
        forall|k: int| j < k < frames.len() ==> (#[trigger] frames[k]).kind != FrameKind::Loop,
    ensures
        after_break(frames) == (if j >= 0 {
            advance(frames.take(j))
        } else {
            Seq::<Frame>::empty()
        }),
    decreases frames.len(),
{
    if frames.len() > 0 {
        if frames.len() - 1 == j {
            assert(frames.drop_last() =~= frames.take(j));
        } else {
            assert forall|k: int| j < k < frames.drop_last().len() implies (#[trigger] frames.drop_last()[k]).kind
                != FrameKind::Loop by {
                assert(frames.drop_last()[k] == frames[k]);
            }
            lemma_break_ends_innermost_loop(frames.drop_last(), j);
            if j >= 0 {
                assert(frames.drop_last().take(j) =~= frames.take(j));
            }
        }
    } else {
        assert(frames =~= Seq::<Frame>::empty());
    }
}

/// Whether a value counts as true: a non-zero number (NaN included), a
/// non-empty text, `true`; an error counts as false.
pub open spec fn truth(v: ValueV) -> bool {
    match v {
        ValueV::Boolean(b) => b,
        ValueV::Number(Number::Narrow(b)) => b & 0x7fff_ffffu32 != 0,
        ValueV::Number(Number::Wide(b)) => b & 0x7fff_ffff_ffff_ffffu64 != 0,
        ValueV::String(s) => s.len() > 0,
        ValueV::Error(_) => false,
    }
}

/// The symbol of an operator.
pub open spec fn symbol(op: Operator) -> Seq<char> {
    match op {
        Operator::Plus => "+"@,
        Operator::Minus => "-"@,
        Operator::Multiply => "*"@,
        Operator::Divide => "/"@,
        Operator::Equals => "=="@,
        Operator::Greater => ">"@,
        Operator::GreaterEquals => ">="@,
        Operator::Less => "<"@,
        Operator::LessEquals => "<="@,
    }
}

/// The symbol of an operator.
pub fn op_symbol(op: Operator) -> (r: String)
    ensures
        r@ == symbol(op),
{
    match op {
        Operator::Plus => text("+"),
        Operator::Minus => text("-"),
        Operator::Multiply => text("*"),
        Operator::Divide => text("/"),
        Operator::Equals => text("=="),
        Operator::Greater => text(">"),
        Operator::GreaterEquals => text(">="),
        Operator::Less => text("<"),
        Operator::LessEquals => text("<="),
    }
}

/// A step of the evaluation of an expression that is left to do: the right
/// operand and the operator after a left operand, or the operator after
/// both.
pub enum Task {
    Left { op: Option<Operator>, right: Option<Expression> },
    Right { op: Option<Operator>, left: Value },
}

pub enum TaskV {
    Left { op: Option<Operator>, right: Option<ExprV> },
    Right { op: Option<Operator>, left: ValueV },
}

pub open spec fn task_view(t: Task) -> TaskV {
    match t {
        Task::Left { op, right } => TaskV::Left {
            op,
            right: match right {
                Some(e) => Some(e@),
                None => None,
            },
        },
        Task::Right { op, left } => TaskV::Right { op, left: left@ },
    }
}

/// What the value of the expression being evaluated is for: a cell to set
/// (with the cell's old value and an operator to combine it with, for an
/// assignment with an operator), a text to speak, or the condition of a
/// prediction.
pub enum Cont {
    Idle,
    Store { target: i32 },
    StoreCombined { target: i32, left: Value, op: Operator },
    Print,
    Branch,
}

pub enum ContV {
    Idle,
    Store { target: i32 },
    StoreCombined { target: i32, left: ValueV, op: Operator },
    Print,
    Branch,
}

pub open spec fn cont_view(c: Cont) -> ContV {
    match c {
        Cont::Idle => ContV::Idle,
        Cont::Store { target } => ContV::Store { target },
        Cont::StoreCombined { target, left, op } => ContV::StoreCombined { target, left: left@, op },
        Cont::Print => ContV::Print,
        Cont::Branch => ContV::Branch,
    }
}

/// What the interpreter waits for from outside.
#[derive(Clone, Copy, Debug, PartialEq, Eq, Structural)]
pub enum Wait {
    /// The `f32` bits of a number literal.
    Number,
    /// The result of an operator, for the expression being evaluated.
    AppliedExpr,
    /// The result of an operator, to be kept in the cell `target`.
    AppliedStore { target: i32 },
    /// The text of the left operand of `op`, which has no right operand.
    Shown { op: Operator },
    /// The `f32` bits of a number to be kept in the cell `target`.
    Narrowed { target: i32 },
    /// The end of speaking a text.
    Printed,
}

/// Where the interpreter stands.
pub enum Mode {
    /// Runs the next node.
    Exec,
    /// Evaluates the expression.
    Eval(Expression),
    /// Hands the result of an expression on.
    Deliver(Result<Value, RuntimeError>),
    /// Keeps the value in the cell `target`.
    Store { target: i32, value: Value },
    /// Waits for outside work.
    Waiting(Wait),
    /// The program has ended.
    Done,
}

pub enum ModeV {
    Exec,
    Eval(ExprV),
    Deliver(Result<ValueV, RuntimeErrorV>),
    Store { target: i32, value: ValueV },
    Waiting(Wait),
    Done,
}

pub open spec fn result_view(r: Result<Value, RuntimeError>) -> Result<ValueV, RuntimeErrorV> {
    match r {
        Ok(v) => Ok(v@),
        Err(e) => Err(e@),
    }
}

pub open spec fn mode_view(m: Mode) -> ModeV {
    match m {
        Mode::Exec => ModeV::Exec,
        Mode::Eval(e) => ModeV::Eval(e@),
        Mode::Deliver(r) => ModeV::Deliver(result_view(r)),
        Mode::Store { target, value } => ModeV::Store { target, value: value@ },
        Mode::Waiting(w) => ModeV::Waiting(w),
        Mode::Done => ModeV::Done,
    }
}

/// What the outside world hands the interpreter: nothing (to go on), the
/// bits of a number literal, the result of an operator, the text of a
/// value, or the `f32` bits of a narrowed number.
pub enum Event {
    Go,
    Number(u32),
    Value(Value),
    Text(String),
    Narrowed(u32),
}

pub enum EventV {
    Go,
    Number(u32),
    Value(ValueV),
    Text(Seq<char>),
    Narrowed(u32),
}

impl View for Event {
    type V = EventV;

    open spec fn view(&self) -> EventV {
        match self {
            Event::Go => EventV::Go,
            Event::Number(b) => EventV::Number(*b),
            Event::Value(v) => EventV::Value(v@),
            Event::Text(t) => EventV::Text(t@),
            Event::Narrowed(b) => EventV::Narrowed(*b),
        }
    }
}

/// What the interpreter asks of the outside world: to call it again; to
/// read a number literal (as an `f64`, narrowed to `f32`, answered with
/// `Event::Number`); to apply an operator (`Event::Value`); to write a value
/// as text (`Event::Text`); to narrow an `f64` to `f32`
/// (`Event::Narrowed`); to print and speak a value (`Event::Go`); or the
/// end of the program: with an error, with a panic message, normally, or
/// because an event came that it was not waiting for; or the source text
/// was rejected by the parser.
#[derive(Debug)]
pub enum Action {
    Step,
    ParseNumber(String),
    Apply(Value, Operator, Value),
    Show(Value),
    Narrow(u64),
    Print(Value),
    Fail(RuntimeError),
    Abort(String),
    Finish,
    Unexpected,
    Rejected(SyntaxError),
}

pub enum ActionV {
    Step,
    ParseNumber(Seq<char>),
    Apply(ValueV, Operator, ValueV),
    Show(ValueV),
    Narrow(u64),
    Print(ValueV),
    Fail(RuntimeErrorV),
    Abort(Seq<char>),
    Finish,
    Unexpected,
    Rejected(SynV),
}

impl View for Action {
    type V = ActionV;

    open spec fn view(&self) -> ActionV {
        match self {
            Action::Step => ActionV::Step,
            Action::ParseNumber(t) => ActionV::ParseNumber(t@),
            Action::Apply(l, op, r) => ActionV::Apply(l@, *op, r@),
            Action::Show(v) => ActionV::Show(v@),
            Action::Narrow(b) => ActionV::Narrow(*b),
            Action::Print(v) => ActionV::Print(v@),
            Action::Fail(e) => ActionV::Fail(e@),
            Action::Abort(m) => ActionV::Abort(m@),
            Action::Finish => ActionV::Finish,
            Action::Unexpected => ActionV::Unexpected,
            Action::Rejected(e) => ActionV::Rejected(e@),
        }
    }
}

/// The state of a running program: the current tape index, the values of
/// the two halves of the tape, the variables, the program, the blocks being
/// run, the evaluation under way, and where the interpreter stands.
pub struct InterpV {
    pub idx: i32,
    pub right: Map<u32, ValueV>,
    pub left: Map<u32, ValueV>,
    pub vars: Seq<(Seq<char>, i32)>,
    pub program: Seq<NodeV>,
    pub frames: Seq<Frame>,
    pub tasks: Seq<TaskV>,
    pub cont: ContV,
    pub mode: ModeV,
}

/// The value at the tape index `i`, or the error of a cell that was never
/// set.
pub open spec fn tape_get(s: InterpV, i: i32) -> Result<ValueV, RuntimeErrorV> {
    let m = if i < 0 {
        s.left
    } else {
        s.right
    };
    if m.contains_key(cell_index(i)) {
        Ok(m[cell_index(i)])
    } else {
        Err(RuntimeErrorV::OutOfRange(i))
    }
}

/// The state after the value `v` is kept at the tape index `i`.
pub open spec fn tape_set(s: InterpV, i: i32, v: ValueV) -> InterpV {
    if i < 0 {
        InterpV { left: s.left.insert(cell_index(i), stored(v)), ..s }
    } else {
        InterpV { right: s.right.insert(cell_index(i), stored(v)), ..s }
    }
}

/// Distinct tape indices name distinct cells: the right half holds the
/// indices from 0 up, the left half those from -1 down.
pub proof fn lemma_cell_index(i: i32, j: i32)
    requires
        i != j,
        (i < 0) == (j < 0),
    ensures
        cell_index(i) != cell_index(j),
{
}

/// Reading the tape index `i` right after the value `v` is kept there
/// gives back what the tape keeps of `v`; every other index reads as
/// before.
pub proof fn lemma_tape_set_get(s: InterpV, i: i32, j: i32, v: ValueV)
    ensures
        tape_get(tape_set(s, i, v), i) == Ok::<ValueV, RuntimeErrorV>(stored(v)),
        j != i ==> tape_get(tape_set(s, i, v), j) == tape_get(s, j),
{
    if j != i && (i < 0) == (j < 0) {
        lemma_cell_index(i, j);
    }
}

/// Running the next node.
pub open spec fn exec_spec(s: InterpV) -> (InterpV, ActionV) {
    if s.frames.len() == 0 {
        (InterpV { mode: ModeV::Done, ..s }, ActionV::Finish)
    } else {
        let k = s.frames.len() - 1;
        let f = s.frames[k];
        let nodes = nodes_at(s.program, s.frames, k);
        if f.pos >= nodes.len() {
            match f.kind {
                FrameKind::Loop => (
                    InterpV { frames: s.frames.update(k, Frame { pos: 0, kind: FrameKind::Loop }), ..s },
                    ActionV::Step,
                ),
                FrameKind::Program => (InterpV { frames: s.frames.drop_last(), ..s }, ActionV::Step),
                _ => (InterpV { frames: advance(s.frames.drop_last()), ..s }, ActionV::Step),
            }
        } else {
            node_spec(s, nodes[f.pos as int])
        }
    }
}

/// Running the node `n`, the next one of the innermost frame.
pub open spec fn node_spec(s: InterpV, n: NodeV) -> (InterpV, ActionV) {
    let s1 = InterpV { frames: advance(s.frames), ..s };
    match n {
        NodeV::Doug { chains, reset } => (
            InterpV {
                idx: notation(
                    chains,
                    if reset {
                        0
                    } else {
                        s.idx
                    },
                ),
                ..s1
            },
            ActionV::Step,
        ),
        NodeV::Declare { name, ptr } => {
            let t = notation(ptr, s.idx);
            (InterpV { idx: t, vars: declare(s.vars, name, t), ..s1 }, ActionV::Step)
        },
        NodeV::Break => (InterpV { frames: after_break(s.frames), ..s }, ActionV::Step),
        NodeV::Loop { .. } => (
            InterpV { frames: s.frames.push(Frame { pos: 0, kind: FrameKind::Loop }), ..s },
            ActionV::Step,
        ),
        NodeV::Prediction { condition, .. } => (
            InterpV { cont: ContV::Branch, mode: ModeV::Eval(condition), ..s },
            ActionV::Step,
        ),
        NodeV::SetValue { value, op } => match op {
            None => (
                InterpV { cont: ContV::Store { target: s.idx }, mode: ModeV::Eval(value), ..s1 },
                ActionV::Step,
            ),
            Some(o) => match tape_get(s, s.idx) {
                Err(e) => (InterpV { mode: ModeV::Done, ..s1 }, ActionV::Fail(e)),
                Ok(l) => (
                    InterpV {
                        cont: ContV::StoreCombined { target: s.idx, left: l, op: o },
                        mode: ModeV::Eval(value),
                        ..s1
                    },
                    ActionV::Step,
                ),
            },
        },
        NodeV::Modify { name, op, value } => match lookup(s.vars, name) {
            None => (InterpV { mode: ModeV::Done, ..s1 }, ActionV::Abort("Name is not expected"@)),
            Some(t) => match op {
                None => (
                    InterpV { cont: ContV::Store { target: t }, mode: ModeV::Eval(value), ..s1 },
                    ActionV::Step,
                ),
                Some(o) => match tape_get(s, t) {
                    Err(e) => (InterpV { mode: ModeV::Done, ..s1 }, ActionV::Fail(e)),
                    Ok(l) => (
                        InterpV {
                            cont: ContV::StoreCombined { target: t, left: l, op: o },
                            mode: ModeV::Eval(value),
                            ..s1
                        },
                        ActionV::Step,
                    ),
                },
            },
        },
        NodeV::Tts { msg, use_index } => if use_index {
            match tape_get(s, s.idx) {
                Err(e) => (InterpV { mode: ModeV::Done, ..s1 }, ActionV::Fail(e)),
                Ok(v) => (InterpV { mode: ModeV::Waiting(Wait::Printed), ..s1 }, ActionV::Print(v)),
            }
        } else {
            match msg {
                Some(m) => (InterpV { cont: ContV::Print, mode: ModeV::Eval(m), ..s1 }, ActionV::Step),
                None => (
                    InterpV { mode: ModeV::Done, ..s1 },
                    ActionV::Abort("called `Option::unwrap()` on a `None` value"@),
                ),
            }
        },
    }
}

/// Starting the evaluation of the expression `e`: a leaf is read at once
/// (a number literal is read outside), an operation evaluates its left
/// operand first.
pub open spec fn eval_spec(s: InterpV, e: ExprV) -> (InterpV, ActionV) {
    match e {
        ExprV::Literal(LiteralV::String(t)) => (
            InterpV { mode: ModeV::Deliver(Ok(ValueV::String(t))), ..s },
            ActionV::Step,
        ),
        ExprV::Literal(LiteralV::Number(t)) => (
            InterpV { mode: ModeV::Waiting(Wait::Number), ..s },
            ActionV::ParseNumber(t),
        ),
        ExprV::DougSequence(c) => (
            InterpV { mode: ModeV::Deliver(tape_get(s, notation(c, 0))), ..s },
            ActionV::Step,
        ),
        ExprV::Variable(v) => match lookup(s.vars, v) {
            None => (InterpV { mode: ModeV::Deliver(Err(RuntimeErrorV::NotDefined(v))), ..s }, ActionV::Step),
            Some(t) => (InterpV { mode: ModeV::Deliver(tape_get(s, t)), ..s }, ActionV::Step),
        },
        ExprV::RSequence { left, op, right } => (
            InterpV {
                tasks: s.tasks.push(
                    TaskV::Left {
                        op,
                        right: match right {
                            Some(r) => Some(*r),
                            None => None,
                        },
                    },
                ),
                mode: ModeV::Eval(*left),
                ..s
            },
            ActionV::Step,
        ),
    }
}

/// An operation whose operands are done: with no operator the left value;
/// with one, an error of either operand, the operator applied (outside), or,
/// with no right operand, an error that quotes the left value.
pub open spec fn finish_spec(s: InterpV, op: Option<Operator>, l: ValueV, r: Option<Result<ValueV, RuntimeErrorV>>) -> (InterpV, ActionV) {
    match op {
        None => (InterpV { mode: ModeV::Deliver(Ok(l)), ..s }, ActionV::Step),
        Some(o) => match r {
            None => (InterpV { mode: ModeV::Waiting(Wait::Shown { op: o }), ..s }, ActionV::Show(l)),
            Some(Err(e)) => (InterpV { mode: ModeV::Deliver(Err(e)), ..s }, ActionV::Step),
            Some(Ok(rv)) => (InterpV { mode: ModeV::Waiting(Wait::AppliedExpr), ..s }, ActionV::Apply(l, o, rv)),
        },
    }
}

/// Handing the result `r` of an expression on: to the operation around
/// it, or, at the top, to what the expression is for.
pub open spec fn deliver_spec(s: InterpV, r: Result<ValueV, RuntimeErrorV>) -> (InterpV, ActionV) {
    if s.tasks.len() == 0 {
        match r {
            Err(e) => match s.cont {
                ContV::Idle => (InterpV { mode: ModeV::Exec, ..s }, ActionV::Step),
                _ => (InterpV { mode: ModeV::Done, ..s }, ActionV::Fail(e)),
            },
            Ok(v) => match s.cont {
                ContV::Idle => (InterpV { mode: ModeV::Exec, ..s }, ActionV::Step),
                ContV::Store { target } => (
                    InterpV { cont: ContV::Idle, mode: ModeV::Store { target, value: v }, ..s },
                    ActionV::Step,
                ),
                ContV::StoreCombined { target, left, op } => (
                    InterpV { cont: ContV::Idle, mode: ModeV::Waiting(Wait::AppliedStore { target }), ..s },
                    ActionV::Apply(left, op, v),
                ),
                ContV::Print => (
                    InterpV { cont: ContV::Idle, mode: ModeV::Waiting(Wait::Printed), ..s },
                    ActionV::Print(v),
                ),
                ContV::Branch => (
                    InterpV {
                        cont: ContV::Idle,
                        mode: ModeV::Exec,
                        frames: s.frames.push(
                            Frame {
                                pos: 0,
                                kind: if truth(v) {
                                    FrameKind::Believers
                                } else {
                                    FrameKind::Doubters
                                },
                            },
                        ),
                        ..s
                    },
                    ActionV::Step,
                ),
            },
        }
    } else {
        let t = s.tasks.last();
        let s1 = InterpV { tasks: s.tasks.drop_last(), ..s };
        match t {
            TaskV::Left { op, right } => match r {
                Err(e) => (InterpV { mode: ModeV::Deliver(Err(e)), ..s1 }, ActionV::Step),
                Ok(l) => match right {
                    Some(re) => (
                        InterpV {
                            tasks: s1.tasks.push(TaskV::Right { op, left: l }),
                            mode: ModeV::Eval(re),
                            ..s1
                        },
                        ActionV::Step,
                    ),
                    None => finish_spec(s1, op, l, None),
                },
            },
            TaskV::Right { op, left } => finish_spec(s1, op, left, Some(r)),
        }
    }
}

/// Keeping `v` in the cell `target`: a wide number is narrowed (outside)
/// first; when the tape has no room (`ok` false) the program fails.
pub open spec fn store_spec(s: InterpV, target: i32, v: ValueV, ok: bool) -> (InterpV, ActionV) {
    match v {
        ValueV::Number(Number::Wide(b)) => (
            InterpV { mode: ModeV::Waiting(Wait::Narrowed { target }), ..s },
            ActionV::Narrow(b),
        ),
        _ => if ok {
            (InterpV { mode: ModeV::Exec, ..tape_set(s, target, v) }, ActionV::Step)
        } else {
            (InterpV { mode: ModeV::Done, ..s }, ActionV::Fail(out_of_memory()))
        },
    }
}

/// Taking in the answer `e` to what the interpreter waits for.
pub open spec fn answer_spec(s: InterpV, w: Wait, e: EventV) -> (InterpV, ActionV) {
    match (w, e) {
        (Wait::Number, EventV::Number(b)) => (
            InterpV { mode: ModeV::Deliver(Ok(ValueV::Number(Number::Narrow(b)))), ..s },
            ActionV::Step,
        ),
        (Wait::AppliedExpr, EventV::Value(v)) => (InterpV { mode: ModeV::Deliver(Ok(v)), ..s }, ActionV::Step),
        (Wait::AppliedStore { target }, EventV::Value(v)) => (
            InterpV { mode: ModeV::Store { target, value: v }, ..s },
            ActionV::Step,
        ),
        (Wait::Shown { op }, EventV::Text(t)) => (
            InterpV {
                mode: ModeV::Deliver(Err(RuntimeErrorV::NoRExpression(t + " "@ + symbol(op)))),
                ..s
            },
            ActionV::Step,
        ),
        (Wait::Narrowed { target }, EventV::Narrowed(b)) => (
            InterpV { mode: ModeV::Store { target, value: ValueV::Number(Number::Narrow(b)) }, ..s },
            ActionV::Step,
        ),
        (Wait::Printed, EventV::Go) => (InterpV { mode: ModeV::Exec, ..s }, ActionV::Step),
        _ => (s, ActionV::Unexpected),
    }
}

/// One step of the interpreter, given the event `e`; `ok` says whether the
/// tape has room for a value that is kept in this step.
pub open spec fn step_spec(s: InterpV, e: EventV, ok: bool) -> (InterpV, ActionV) {
    match s.mode {
        ModeV::Exec => exec_spec(s),
        ModeV::Eval(x) => eval_spec(s, x),
        ModeV::Deliver(r) => deliver_spec(s, r),
        ModeV::Store { target, value } => store_spec(s, target, value, ok),
        ModeV::Waiting(w) => answer_spec(s, w, e),
        ModeV::Done => (s, ActionV::Finish),
    }
}

/// The next node of the innermost frame of `s`.
pub open spec fn next_node(s: InterpV) -> Option<NodeV> {
    if s.frames.len() == 0 {
        None
    } else {
        let k = s.frames.len() - 1;
        let nodes = nodes_at(s.program, s.frames, k);
        let p = s.frames[k].pos as int;
        if 0 <= p < nodes.len() {
            Some(nodes[p])
        } else {
            None
        }
    }
}

/// A loop whose body is only `break` is the same as no node at all: two
/// steps later the program goes on after the loop, and nothing else has
/// changed.
pub proof fn lemma_loop_of_break_is_skipped(s: InterpV, e1: EventV, e2: EventV, ok1: bool, ok2: bool)
    requires
        s.mode == ModeV::Exec,
        next_node(s) == Some(NodeV::Loop { body: seq![NodeV::Break] }),
    ensures
        ({
            let (s1, a1) = step_spec(s, e1, ok1);
            let (s2, a2) = step_spec(s1, e2, ok2);
            &&& a1 == ActionV::Step
            &&& a2 == ActionV::Step
            &&& s2 == InterpV { frames: advance(s.frames), ..s }
        }),
{
    let k = s.frames.len() - 1;
    let pushed = s.frames.push(Frame { pos: 0, kind: FrameKind::Loop });
    assert(pushed.drop_last() =~= s.frames);
    lemma_nodes_at_prefix(s.program, pushed, s.frames, k);
    assert(pushed[k] == s.frames[k]);
    assert(nodes_at(s.program, pushed, k + 1) == seq![NodeV::Break]);
    let s1 = step_spec(s, e1, ok1).0;
    assert(s1 == InterpV { frames: pushed, ..s });
    assert(s1.frames.len() - 1 == k + 1);
    assert(after_break(pushed) == advance(s.frames));
}

/// A prediction evaluates its condition first; an error of the condition
/// ends the program with that error and runs neither branch, and a value
/// runs the believers' branch when it counts as true and the doubters'
/// branch otherwise, from its first node.
pub proof fn lemma_prediction_runs_the_branch_it_picks(
    s: InterpV,
    condition: ExprV,
    b: Seq<NodeV>,
    d: Seq<NodeV>,
    r: Result<ValueV, RuntimeErrorV>,
)
    requires
        s.mode == ModeV::Exec,
        s.tasks.len() == 0,
        next_node(s) == Some(NodeV::Prediction { believers_body: b, doubters_body: d, condition }),
    ensures
        ({
            let (s1, a1) = exec_spec(s);
            let t = InterpV { mode: ModeV::Deliver(r), ..s1 };
            let (s2, a2) = deliver_spec(t, r);
            let k = s.frames.len() - 1;
            &&& a1 == ActionV::Step
            &&& s1 == InterpV { cont: ContV::Branch, mode: ModeV::Eval(condition), ..s }
            &&& match r {
                Err(e) => s2 == InterpV { mode: ModeV::Done, ..t } && a2 == ActionV::Fail(e),
                Ok(v) => {
                    &&& a2 == ActionV::Step
                    &&& s2.mode == ModeV::Exec
                    &&& s2.frames.len() == k + 2
                    &&& s2.frames.take(k + 1) == s.frames
                    &&& s2.frames[k + 1].pos == 0
                    &&& nodes_at(s2.program, s2.frames, k + 1) == if truth(v) {
                        b
                    } else {
                        d
                    }
                },
            }
        }),
{
    let k = s.frames.len() - 1;
    let s1 = exec_spec(s).0;
    let t = InterpV { mode: ModeV::Deliver(r), ..s1 };
    if let Ok(v) = r {
        let s2 = deliver_spec(t, r).0;
        let kind = if truth(v) {
            FrameKind::Believers
        } else {
            FrameKind::Doubters
        };
        let pushed = s.frames.push(Frame { pos: 0, kind });
        assert(s2.frames == pushed);
        assert(pushed.take(k + 1) =~= s.frames);
        lemma_nodes_at_prefix(s.program, pushed, s.frames, k);
        assert(pushed[k] == s.frames[k]);
    }
}

/// The tape index that the chains reach from `start` when the first of
/// them is subtracted (`odd`) or added, the signs alternating after it.
pub open spec fn notation_phase(chains: Seq<DougChain>, start: i32, odd: bool) -> i32
    decreases chains.len(),
{
    if chains.len() == 0 {
        start
    } else {
        let prev = notation_phase(chains.drop_last(), start, odd);
        let v = chain_value(chains.last().count);
        if ((chains.len() - 1) % 2 == 0) != odd {
            prev.wrapping_add(v)
        } else {
            prev.wrapping_sub(v)
        }
    }
}

/// Reading a notation after some chains goes on from where those chains
/// led: the next chain is added after an even number of chains and
/// subtracted after an odd number, the signs alternating from there.
pub proof fn lemma_notation_concat(a: Seq<DougChain>, b: Seq<DougChain>, start: i32)
    ensures
        notation(a + b, start) == notation_phase(b, notation(a, start), a.len() % 2 == 1),
    decreases b.len(),
{
    if b.len() == 0 {
        assert(a + b =~= a);
    } else {
        assert((a + b).drop_last() =~= a + b.drop_last());
        assert((a + b).last() == b.last());
        lemma_notation_concat(a, b.drop_last(), start);
    }
}

/// A step that fails the program ends it and keeps every effect made
/// before: the tape, the variables and the index stay as they were.
pub proof fn lemma_failure_keeps_effects(s: InterpV, e: EventV, ok: bool)
    ensures
        step_spec(s, e, ok).1 is Fail ==> {
            let s2 = step_spec(s, e, ok).0;
            &&& s2.mode == ModeV::Done
            &&& s2.right == s.right
            &&& s2.left == s.left
            &&& s2.vars == s.vars
            &&& s2.idx == s.idx
        },
{
}

/// A Doug sequence reads the cell its notation reaches from 0, whatever the
/// current index is; a variable reads the cell it names, or is not
/// defined. Nothing else changes.
pub proof fn lemma_eval_reads_cells(s: InterpV, chains: Seq<DougChain>, v: Seq<char>)
    ensures
        eval_spec(s, ExprV::DougSequence(chains)) == (
            InterpV { mode: ModeV::Deliver(tape_get(s, notation(chains, 0))), ..s },
            ActionV::Step,
        ),
        eval_spec(s, ExprV::Variable(v)) == (
            InterpV {
                mode: ModeV::Deliver(
                    match lookup(s.vars, v) {
                        None => Err(RuntimeErrorV::NotDefined(v)),
                        Some(t) => tape_get(s, t),
                    },
                ),
                ..s
            },
            ActionV::Step,
        ),
{
}

/// An operation evaluates its left operand first; once that gives `lv`
/// (or fails, which is handed on), with no right operand it gives `lv`
/// without an operator and otherwise an error quoting `lv` and the
/// operator; with a right operand it evaluates that next, and its result
/// `rr` then gives `lv` without an operator, its error, or the operator
/// applied to both values.
pub proof fn lemma_operation_evaluates(
    s: InterpV,
    left: ExprV,
    op: Option<Operator>,
    right: Option<ExprV>,
    lr: Result<ValueV, RuntimeErrorV>,
    rr: Result<ValueV, RuntimeErrorV>,
    shown: Seq<char>,
)
    ensures
        ({
            let e = ExprV::RSequence {
                left: Box::new(left),
                op,
                right: match right {
                    Some(r) => Some(Box::new(r)),
                    None => None,
                },
            };
            let (s1, a1) = eval_spec(s, e);
            let t = InterpV { mode: ModeV::Deliver(lr), ..s1 };
            let (s2, a2) = deliver_spec(t, lr);
            &&& a1 == ActionV::Step
            &&& s1 == InterpV {
                tasks: s.tasks.push(TaskV::Left { op, right }),
                mode: ModeV::Eval(left),
                ..s
            }
            &&& match lr {
                Err(err) => s2 == InterpV { tasks: s.tasks, mode: ModeV::Deliver(Err(err)), ..t }
                    && a2 == ActionV::Step,
                Ok(lv) => match right {
                    None => match op {
                        None => s2.mode == ModeV::Deliver(Ok::<ValueV, RuntimeErrorV>(lv)) && s2.tasks
                            == s.tasks,
                        Some(o) => {
                            &&& a2 == ActionV::Show(lv)
                            &&& s2.mode == ModeV::Waiting(Wait::Shown { op: o })
                            &&& answer_spec(s2, Wait::Shown { op: o }, EventV::Text(shown)).0.mode
                                == ModeV::Deliver(
                                Err::<ValueV, RuntimeErrorV>(
                                    RuntimeErrorV::NoRExpression(shown + " "@ + symbol(o)),
                                ),
                            )
                        },
                    },
                    Some(r) => {
                        let u = InterpV { mode: ModeV::Deliver(rr), ..s2 };
                        let (s3, a3) = deliver_spec(u, rr);
                        &&& s2.mode == ModeV::Eval(r)
                        &&& s2.tasks == s.tasks.push(TaskV::Right { op, left: lv })
                        &&& s3.tasks == s.tasks
                        &&& match (op, rr) {
                            (None, _) => s3.mode == ModeV::Deliver(Ok::<ValueV, RuntimeErrorV>(lv)),
                            (Some(o), Err(err)) => s3.mode == ModeV::Deliver(
                                Err::<ValueV, RuntimeErrorV>(err),
                            ),
                            (Some(o), Ok(rv)) => a3 == ActionV::Apply(lv, o, rv) && s3.mode
                                == ModeV::Waiting(Wait::AppliedExpr),
                        }
                    },
                },
            }
        }),
{
    let s1 = InterpV { tasks: s.tasks.push(TaskV::Left { op, right }), mode: ModeV::Eval(left), ..s };
    assert(s1.tasks.drop_last() =~= s.tasks);
    if let Ok(lv) = lr {
        if let Some(r) = right {
            let t = InterpV { mode: ModeV::Deliver(lr), ..s1 };
            let s2 = deliver_spec(t, lr).0;
            assert(s2.tasks.drop_last() =~= s.tasks);
        }
    }
}

/// A number counts as true exactly when it is not zero, whatever its sign:
/// of the `f32` bits, only those of `0.0` and `-0.0` count as false (a NaN
/// is not zero), and a number and its negation count alike.
pub proof fn lemma_number_truth(b: u32, w: u64)
    ensures
        truth(ValueV::Number(Number::Narrow(b))) <==> (b != 0u32 && b != 0x8000_0000u32),
        truth(ValueV::Number(Number::Narrow(b))) == truth(
            ValueV::Number(Number::Narrow(b ^ 0x8000_0000u32)),
        ),
        truth(ValueV::Number(Number::Wide(w))) <==> (w != 0u64 && w != 0x8000_0000_0000_0000u64),
        truth(ValueV::Number(Number::Wide(w))) == truth(
            ValueV::Number(Number::Wide(w ^ 0x8000_0000_0000_0000u64)),
        ),
{
    assert((b & 0x7fff_ffffu32 != 0) <==> (b != 0u32 && b != 0x8000_0000u32)) by (bit_vector);
    assert(((b ^ 0x8000_0000u32) & 0x7fff_ffffu32) == (b & 0x7fff_ffffu32)) by (bit_vector);
    assert((w & 0x7fff_ffff_ffff_ffffu64 != 0) <==> (w != 0u64 && w != 0x8000_0000_0000_0000u64))
        by (bit_vector);
    assert(((w ^ 0x8000_0000_0000_0000u64) & 0x7fff_ffff_ffff_ffffu64) == (w
        & 0x7fff_ffff_ffff_ffffu64)) by (bit_vector);
}

/// After a declaration `name` names the cell that its chains reach from
/// the current index, and that cell becomes the current index.
pub proof fn lemma_declare_moves_the_index(s: InterpV, name: Seq<char>, ptr: Seq<DougChain>)
    requires
        s.mode == ModeV::Exec,
        next_node(s) == Some(NodeV::Declare { name, ptr }),
    ensures
        exec_spec(s).0.idx == notation(ptr, s.idx),
        lookup(exec_spec(s).0.vars, name) == Some(notation(ptr, s.idx)),
        exec_spec(s).1 == ActionV::Step,
{
    lemma_lookup_declare(s.vars, name, notation(ptr, s.idx));
}

proof fn lemma_find_var_range(vars: Seq<(Seq<char>, i32)>, name: Seq<char>)
    ensures
        find_var(vars, name) matches Some(j) ==> 0 <= j < vars.len() && vars[j].0 == name,
    decreases vars.len(),
{
    if vars.len() > 0 && vars.last().0 != name {
        lemma_find_var_range(vars.drop_last(), name);
    }
}

proof fn lemma_find_var_update(vars: Seq<(Seq<char>, i32)>, name: Seq<char>, j: int, t: i32)
    requires
        find_var(vars, name) == Some(j),
    ensures
        find_var(vars.update(j, (name, t)), name) == Some(j),
    decreases vars.len(),
{
    lemma_find_var_range(vars, name);
    let u = vars.update(j, (name, t));
    if vars.last().0 != name {
        lemma_find_var_update(vars.drop_last(), name, j, t);
        assert(u.drop_last() =~= vars.drop_last().update(j, (name, t)));
        assert(u.last() == vars.last());
    }
}

/// A name just declared at `t` names `t`.
pub proof fn lemma_lookup_declare(vars: Seq<(Seq<char>, i32)>, name: Seq<char>, t: i32)
    ensures
        lookup(declare(vars, name, t), name) == Some(t),
{
    match find_var(vars, name) {
        Some(j) => {
            lemma_find_var_range(vars, name);
            lemma_find_var_update(vars, name, j, t);
        },
        None => {
            assert(vars.push((name, t)).last() == (name, t));
        },
    }
}

/// An assignment with an operator combines the cell's old value with the
/// new one in that order: once the new value `v` is there, the operator is
/// asked for with the old value `l` on the left and `v` on the right, and
/// its result is kept in the same cell.
pub proof fn lemma_combined_assignment_order(
    s: InterpV,
    value: ExprV,
    name: Seq<char>,
    t: i32,
    o: Operator,
    l: ValueV,
    v: ValueV,
    r: ValueV,
)
    requires
        s.mode == ModeV::Exec,
        s.tasks.len() == 0,
        s.cont == ContV::Idle,
    ensures
        next_node(s) == Some(NodeV::SetValue { value, op: Some(o) }) && tape_get(s, s.idx) == Ok::<
            ValueV,
            RuntimeErrorV,
        >(l) ==> {
            let s1 = exec_spec(s).0;
            let (s2, a2) = deliver_spec(InterpV { mode: ModeV::Deliver(Ok(v)), ..s1 }, Ok(v));
            &&& s1.mode == ModeV::Eval(value)
            &&& a2 == ActionV::Apply(l, o, v)
            &&& answer_spec(s2, Wait::AppliedStore { target: s.idx }, EventV::Value(r)).0.mode
                == ModeV::Store { target: s.idx, value: r }
            &&& s2.mode == ModeV::Waiting(Wait::AppliedStore { target: s.idx })
        },
        next_node(s) == Some(NodeV::Modify { name, op: Some(o), value }) && lookup(s.vars, name)
            == Some(t) && tape_get(s, t) == Ok::<ValueV, RuntimeErrorV>(l) ==> {
            let s1 = exec_spec(s).0;
            let (s2, a2) = deliver_spec(InterpV { mode: ModeV::Deliver(Ok(v)), ..s1 }, Ok(v));
            &&& s1.mode == ModeV::Eval(value)
            &&& a2 == ActionV::Apply(l, o, v)
            &&& s2.mode == ModeV::Waiting(Wait::AppliedStore { target: t })
        },
{
}

/// What counts as true besides numbers: `true`, and a text that is not
/// empty; an error never does.
pub proof fn lemma_truth_of_other_values(b: bool, t: Seq<char>, e: RuntimeErrorV)
    ensures
        truth(ValueV::Boolean(b)) == b,
        truth(ValueV::String(t)) <==> t.len() != 0,
        !truth(ValueV::Error(e)),
{
}

/// A `Doug` statement moves the index by its chains, from the current index
/// or, after `Bald`, from 0; nothing else but the position changes.
pub proof fn lemma_doug_moves_the_index(s: InterpV, chains: Seq<DougChain>, reset: bool)
    requires
        s.mode == ModeV::Exec,
        next_node(s) == Some(NodeV::Doug { chains, reset }),
    ensures
        exec_spec(s).0.idx == notation(chains, if reset { 0 } else { s.idx }),
        exec_spec(s).0.vars == s.vars,
        exec_spec(s).0.right == s.right,
        exec_spec(s).0.left == s.left,
        exec_spec(s).1 == ActionV::Step,
{
}

/// A plain assignment keeps the value of its expression in the cell of
/// the current index: once that value `v` is there (a number already
/// narrowed), reading that cell gives `v` back and every other cell is as
/// before.
pub proof fn lemma_assignment_keeps_the_value(s: InterpV, value: ExprV, v: ValueV, j: i32)
    requires
        s.mode == ModeV::Exec,
        s.tasks.len() == 0,
        s.cont == ContV::Idle,
        next_node(s) == Some(NodeV::SetValue { value, op: None }),
        !(v is Number && v->Number_0 is Wide),
    ensures
        ({
            let s1 = exec_spec(s).0;
            let s2 = deliver_spec(InterpV { mode: ModeV::Deliver(Ok(v)), ..s1 }, Ok(v)).0;
            let s3 = store_spec(s2, s.idx, v, true).0;
            &&& s1.mode == ModeV::Eval(value)
            &&& s2.mode == ModeV::Store { target: s.idx, value: v }
            &&& tape_get(s3, s.idx) == Ok::<ValueV, RuntimeErrorV>(stored(v))
            &&& j != s.idx ==> tape_get(s3, j) == tape_get(s, j)
        }),
{
    let s1 = exec_spec(s).0;
    let s2 = deliver_spec(InterpV { mode: ModeV::Deliver(Ok(v)), ..s1 }, Ok(v)).0;
    lemma_tape_set_get(s2, s.idx, j, v);
    assert(s2.right == s.right && s2.left == s.left);
}

/// At the end of its body a loop starts its body again from the first
/// node, and no other frame changes.
pub proof fn lemma_loop_repeats(s: InterpV)
    requires
        s.mode == ModeV::Exec,
        s.frames.len() > 0,
        s.frames.last().kind == FrameKind::Loop,
        s.frames.last().pos >= nodes_at(s.program, s.frames, s.frames.len() - 1).len(),
    ensures
        exec_spec(s).0.frames.len() == s.frames.len(),
        exec_spec(s).0.frames.last() == (Frame { pos: 0, kind: FrameKind::Loop }),
        exec_spec(s).0.frames.drop_last() == s.frames.drop_last(),
        exec_spec(s).1 == ActionV::Step,
{
    let k = s.frames.len() - 1;
    assert(s.frames.update(k, Frame { pos: 0, kind: FrameKind::Loop }).drop_last() =~= s.frames.drop_last());
}

/// `tts` on its own prints the value of the cell at the current index (or
/// fails when that cell was never set); `tts` with a message evaluates it
/// and prints its value.
pub proof fn lemma_tts_prints(s: InterpV, m: ExprV, v: ValueV)
    requires
        s.mode == ModeV::Exec,
        s.tasks.len() == 0,
        s.cont == ContV::Idle,
    ensures
        next_node(s) == Some(NodeV::Tts { msg: None, use_index: true }) ==> match tape_get(s, s.idx) {
            Ok(x) => exec_spec(s).1 == ActionV::Print(x),
            Err(e) => exec_spec(s).1 == ActionV::Fail(e),
        },
        next_node(s) == Some(NodeV::Tts { msg: Some(m), use_index: false }) ==> {
            let s1 = exec_spec(s).0;
            &&& s1.mode == ModeV::Eval(m)
            &&& deliver_spec(InterpV { mode: ModeV::Deliver(Ok(v)), ..s1 }, Ok(v)).1
                == ActionV::Print(v)
        },
{
}

/// A text literal gives its text; a number literal asks for its text to
/// be read as a number, and gives the number that comes back.
pub proof fn lemma_literals_evaluate(s: InterpV, t: Seq<char>, bits: u32)
    ensures
        eval_spec(s, ExprV::Literal(LiteralV::String(t))).0.mode == ModeV::Deliver(
            Ok::<ValueV, RuntimeErrorV>(ValueV::String(t)),
        ),
        eval_spec(s, ExprV::Literal(LiteralV::Number(t))).1 == ActionV::ParseNumber(t),
        answer_spec(
            eval_spec(s, ExprV::Literal(LiteralV::Number(t))).0,
            Wait::Number,
            EventV::Number(bits),
        ).0.mode == ModeV::Deliver(Ok::<ValueV, RuntimeErrorV>(ValueV::Number(Number::Narrow(bits)))),
{
}

/// Assigning to a named variable keeps the value in the cell the name
/// names, not at the current index.
pub proof fn lemma_named_assignment_target(s: InterpV, name: Seq<char>, value: ExprV, t: i32, v: ValueV)
    requires
        s.mode == ModeV::Exec,
        s.tasks.len() == 0,
        s.cont == ContV::Idle,
        next_node(s) == Some(NodeV::Modify { name, op: None, value }),
        lookup(s.vars, name) == Some(t),
    ensures
        ({
            let s1 = exec_spec(s).0;
            let s2 = deliver_spec(InterpV { mode: ModeV::Deliver(Ok(v)), ..s1 }, Ok(v)).0;
            &&& s1.mode == ModeV::Eval(value)
            &&& s2.mode == ModeV::Store { target: t, value: v }
        }),
{
}

/// A chain of one `Doug` is worth 1, and each further `Doug` doubles the
/// value (up to 31 of them, past which the value wraps).
pub proof fn lemma_chain_doubles(c: usize)
    requires
        1 <= c <= 30,
    ensures
        chain_value(1) == 1,
        chain_value((c + 1) as usize) == 2 * chain_value(c),
        chain_value(c) > 0,
{
    let n: u32 = (c - 1) as u32;
    assert(c.wrapping_sub(1) == c - 1);
    assert(((c + 1) as usize).wrapping_sub(1) == c);
    assert(1usize.wrapping_sub(1) == 0);
    assert(1i32.wrapping_shl(0u32) == 1i32) by (bit_vector);
    assert(n < 30 ==> 1i32.wrapping_shl((n + 1) as u32) == 2 * 1i32.wrapping_shl(n) && 1i32.wrapping_shl(n) > 0)
        by (bit_vector);
}

/// The nodes a frame runs depend only on the frames up to it.
proof fn lemma_nodes_at_prefix(program: Seq<NodeV>, f1: Seq<Frame>, f2: Seq<Frame>, k: int)
    requires
        0 <= k,
        k < f1.len(),
        k < f2.len(),
        forall|j: int| 0 <= j < k ==> (#[trigger] f1[j]).pos == f2[j].pos,
        forall|j: int| 0 <= j <= k ==> (#[trigger] f1[j]).kind == f2[j].kind,
    ensures
        nodes_at(program, f1, k) == nodes_at(program, f2, k),
    decreases k,
{
    if k > 0 {
        lemma_nodes_at_prefix(program, f1, f2, k - 1);
        assert(f1[k - 1].pos == f2[k - 1].pos);
        assert(f1[k].kind == f2[k].kind);
    }
}

/// Frames that agree up to `n` run the same nodes up to `n`.
proof fn lemma_same_path(program: Seq<NodeV>, f: Seq<Frame>, g: Seq<Frame>, n: int)
    requires
        0 <= n <= f.len(),
        n <= g.len(),
        forall|j: int| 0 <= j < n ==> f[j] == g[j],
    ensures
        forall|k: int| 0 <= k < n ==> #[trigger] nodes_at(program, g, k) == nodes_at(program, f, k),
        forall|k: int| 1 <= k < n ==> #[trigger] child_ok(program, g, k) == child_ok(program, f, k),
{
    assert forall|k: int| 0 <= k < n implies #[trigger] nodes_at(program, g, k) == nodes_at(program, f, k) by {
        lemma_nodes_at_prefix(program, g, f, k);
    }
    assert forall|k: int| 1 <= k < n implies #[trigger] child_ok(program, g, k) == child_ok(program, f, k) by {
        lemma_nodes_at_prefix(program, g, f, k - 1);
    }
}

/// Setting the position of the innermost frame (within its nodes) keeps
/// the frames a path into the program.
proof fn lemma_frames_set_pos(program: Seq<NodeV>, f: Seq<Frame>, p: usize)
    requires
        frames_wf(program, f),
        f.len() > 0,
        p <= nodes_at(program, f, f.len() - 1).len(),
    ensures
        frames_wf(program, f.update(f.len() - 1, Frame { pos: p, kind: f.last().kind })),
        forall|k: int|
            0 <= k < f.len() ==> #[trigger] nodes_at(
                program,
                f.update(f.len() - 1, Frame { pos: p, kind: f.last().kind }),
                k,
            ) == nodes_at(program, f, k),
{
    let g = f.update(f.len() - 1, Frame { pos: p, kind: f.last().kind });
    lemma_same_path(program, f, g, f.len() - 1);
    lemma_nodes_at_prefix(program, g, f, f.len() - 1);
    if f.len() > 1 {
        lemma_nodes_at_prefix(program, g, f, f.len() - 2);
        assert(child_ok(program, g, f.len() - 1) == child_ok(program, f, f.len() - 1));
    }
    assert forall|k: int| 0 <= k < g.len() implies (#[trigger] g[k]).pos <= nodes_at(program, g, k).len() by {
        if k < f.len() - 1 {
            assert(g[k] == f[k]);
        }
    }
    assert forall|k: int| 1 <= k < g.len() implies #[trigger] child_ok(program, g, k) by {
        assert(child_ok(program, f, k));
    }
}

/// Dropping the innermost frame keeps the frames a path into the program.
proof fn lemma_frames_pop(program: Seq<NodeV>, f: Seq<Frame>)
    requires
        frames_wf(program, f),
        f.len() > 0,
    ensures
        frames_wf(program, f.drop_last()),
        forall|k: int| 0 <= k < f.len() - 1 ==> #[trigger] nodes_at(program, f.drop_last(), k) == nodes_at(program, f, k),
{
    let g = f.drop_last();
    lemma_same_path(program, f, g, g.len() as int);
    assert forall|k: int| 0 <= k < g.len() implies (#[trigger] g[k]).pos <= nodes_at(program, g, k).len() by {
        assert(g[k] == f[k]);
    }
    assert forall|k: int| 1 <= k < g.len() implies #[trigger] child_ok(program, g, k) by {
        assert(child_ok(program, f, k));
    }
}

/// A new frame for the body or branch of the node at the innermost frame's
/// position keeps the frames a path into the program.
proof fn lemma_frames_push(program: Seq<NodeV>, f: Seq<Frame>, kind: FrameKind)
    requires
        frames_wf(program, f),
        f.len() > 0,
        f.last().pos < nodes_at(program, f, f.len() - 1).len(),
        child_body(nodes_at(program, f, f.len() - 1)[f.last().pos as int], kind) is Some,
    ensures
        frames_wf(program, f.push(Frame { pos: 0, kind })),
        nodes_at(program, f.push(Frame { pos: 0, kind }), f.len() as int) == child_body(
            nodes_at(program, f, f.len() - 1)[f.last().pos as int],
            kind,
        ).unwrap(),
{
    let g = f.push(Frame { pos: 0, kind });
    lemma_same_path(program, f, g, f.len() as int);
    assert(g[f.len() - 1] == f.last());
    assert(child_ok(program, g, f.len() as int));
    assert forall|k: int| 0 <= k < g.len() implies (#[trigger] g[k]).pos <= nodes_at(program, g, k).len() by {
        if k < f.len() {
            assert(g[k] == f[k]);
        }
    }
    assert forall|k: int| 1 <= k < g.len() implies #[trigger] child_ok(program, g, k) by {
        if k < f.len() {
            assert(child_ok(program, f, k));
        }
    }
}

/// Ending the innermost frame and moving its parent past the node that
/// started it keeps the frames a path into the program.
proof fn lemma_frames_advance_pop(program: Seq<NodeV>, f: Seq<Frame>)
    requires
        frames_wf(program, f),
        f.len() > 0,
    ensures
        frames_wf(program, advance(f.drop_last())),
{
    lemma_frames_pop(program, f);
    let g = f.drop_last();
    if g.len() > 0 {
        assert(child_ok(program, f, f.len() - 1));
        assert(g.last() == f[f.len() - 2]);
        lemma_frames_set_pos(program, g, (g.last().pos + 1) as usize);
    }
}

/// A `break` keeps the frames a path into the program.
proof fn lemma_frames_break(program: Seq<NodeV>, f: Seq<Frame>)
    requires
        frames_wf(program, f),
    ensures
        frames_wf(program, after_break(f)),
    decreases f.len(),
{
    if f.len() > 0 {
        if f.last().kind == FrameKind::Loop {
            lemma_frames_advance_pop(program, f);
        } else {
            lemma_frames_pop(program, f);
            lemma_frames_break(program, f.drop_last());
        }
    }
}

/// What running a node needs of it: the node itself, without the bodies
/// of loops and predictions (those are run from where they stand).
pub enum NodeStep {
    Doug { chains: Vec<DougChain>, reset: bool },
    Declare { name: String, ptr: Vec<DougChain> },
    Break,
    Loop,
    Prediction { condition: Expression },
    SetValue { value: Expression, op: Option<Operator> },
    Modify { name: String, op: Option<Operator>, value: Expression },
    Tts { msg: Option<Expression>, use_index: bool },
}

/// `ns` holds what running the node `n` needs of it.
pub open spec fn step_of(ns: NodeStep, n: NodeV) -> bool {
    match (ns, n) {
        (NodeStep::Doug { chains: c, reset: r }, NodeV::Doug { chains, reset }) => c@ == chains && r == reset,
        (NodeStep::Declare { name: a, ptr: p }, NodeV::Declare { name, ptr }) => a@ == name && p@ == ptr,
        (NodeStep::Break, NodeV::Break) => true,
        (NodeStep::Loop, NodeV::Loop { .. }) => true,
        (NodeStep::Prediction { condition: c }, NodeV::Prediction { condition, .. }) => c@ == condition,
        (NodeStep::SetValue { value: v, op: o }, NodeV::SetValue { value, op }) => v@ == value && o == op,
        (NodeStep::Modify { name: a, op: o, value: v }, NodeV::Modify { name, op, value }) => a@ == name
            && o == op && v@ == value,
        (NodeStep::Tts { msg: m, use_index: u }, NodeV::Tts { msg, use_index }) => u == use_index
            && match (m, msg) {
            (Some(x), Some(y)) => x@ == y,
            (None, None) => true,
            _ => false,
        },
        _ => false,
    }
}

/// The innermost frame stands at a prediction, whose condition is being
/// evaluated.
pub open spec fn branch_ready(s: InterpV) -> bool {
    &&& s.frames.len() > 0
    &&& s.frames.last().pos < nodes_at(s.program, s.frames, s.frames.len() - 1).len()
    &&& nodes_at(s.program, s.frames, s.frames.len() - 1)[s.frames.last().pos as int] is Prediction
}

/// The modes in which no expression is being evaluated.
pub open spec fn idle_mode(m: Mode) -> bool {
    match m {
        Mode::Exec => true,
        Mode::Store { .. } => true,
        Mode::Waiting(Wait::Printed) => true,
        Mode::Waiting(Wait::AppliedStore { .. }) => true,
        Mode::Waiting(Wait::Narrowed { .. }) => true,
        _ => false,
    }
}

/// The values of the cells of one half of the tape.
pub open spec fn cells_view(cells: Map<u32, TaggedCellPtr>, contents: Map<usize, TapeObject>) -> Map<u32, ValueV> {
    Map::new(
        |k: u32| cells.contains_key(k),
        |k: u32|
            match tape_read(cells[k].ptr(), contents) {
                Some(v) => v,
                None => ValueV::Boolean(false),
            },
    )
}

pub open spec fn vars_view(v: Seq<(String, i32)>) -> Seq<(Seq<char>, i32)> {
    v.map_values(|p: (String, i32)| (p.0@, p.1))
}

pub open spec fn tasks_view(t: Seq<Task>) -> Seq<TaskV> {
    t.map_values(|x: Task| task_view(x))
}

/// The view of the nodes, node by node.
proof fn lemma_nodes_view(s: Seq<ASTNode>)
    ensures
        nodes_view(s).len() == s.len(),
        forall|i: int| 0 <= i < s.len() ==> nodes_view(s)[i] == node_view(#[trigger] s[i]),
    decreases s.len(),
{
    if s.len() > 0 {
        lemma_nodes_view(s.drop_last());
        assert forall|i: int| 0 <= i < s.len() implies nodes_view(s)[i] == node_view(#[trigger] s[i]) by {
            if i < s.len() - 1 {
                assert(s.drop_last()[i] == s[i]);
            }
        }
    }
}

/// An interpreter of programs: it parses a source text and runs it, one
/// step at a time; the work that needs floating point, printing or speech
/// is asked of the caller (see [`Action`]).
pub struct Interpreter {
    parser: Parser,
    values_idx: i32,
    values_right: HashMap<u32, TaggedCellPtr>,
    values_left: HashMap<u32, TaggedCellPtr>,
    variables: Vec<(String, i32)>,
    mem: MutatorView,
    program: Vec<ASTNode>,
    frames: Vec<Frame>,
    tasks: Vec<Task>,
    cont: Cont,
    mode: Mode,
}

impl View for Interpreter {
    type V = InterpV;

    closed spec fn view(&self) -> InterpV {
        InterpV {
            idx: self.values_idx,
            right: cells_view(self.values_right@, self.mem.tape_of().contents()),
            left: cells_view(self.values_left@, self.mem.tape_of().contents()),
            vars: vars_view(self.variables@),
            program: nodes_view(self.program@),
            frames: self.frames@,
            tasks: tasks_view(self.tasks@),
            cont: cont_view(self.cont),
            mode: mode_view(self.mode),
        }
    }
}

impl Interpreter {
    pub closed spec fn wf(&self) -> bool {
        &&& self.mem.wf()
        &&& self.mem.tape_of().holds(self.values_right@)
        &&& self.mem.tape_of().holds(self.values_left@)
        &&& frames_wf(nodes_view(self.program@), self.frames@)
        &&& (self.cont matches Cont::Branch ==> branch_ready(self@))
        &&& (idle_mode(self.mode) ==> self.cont matches Cont::Idle)
    }

    /// The tape has no room left for another value.
    pub closed spec fn exhausted(&self) -> bool {
        self.mem.tape_of().exhausted()
    }

    /// An interpreter that parses with `parser`, with an empty tape and no
    /// program yet.
    pub fn new(parser: Parser) -> (r: Interpreter)
        ensures
            r.wf(),
            r@.idx == 0,
            r@.right == Map::<u32, ValueV>::empty(),
            r@.left == Map::<u32, ValueV>::empty(),
            r@.vars == Seq::<(Seq<char>, i32)>::empty(),
            r@.frames == Seq::<Frame>::empty(),
            r@.mode == ModeV::Done,
    {
        let r = Interpreter {
            parser,
            values_idx: 0,
            values_right: HashMap::new(),
            values_left: HashMap::new(),
            variables: Vec::new(),
            mem: MutatorView::new_with(StickyImmixHeap::new()),
            program: Vec::new(),
            frames: Vec::new(),
            tasks: Vec::new(),
            cont: Cont::Idle,
            mode: Mode::Done,
        };
        assert(r@.right =~= Map::<u32, ValueV>::empty());
        assert(r@.left =~= Map::<u32, ValueV>::empty());
        assert(r@.vars =~= Seq::<(Seq<char>, i32)>::empty());
        r
    }

    /// The index of the tape cell that `chains` reach from `start_i`: the
    /// value of each chain of `count` Dougs is 2 to the power `count - 1`;
    /// the first chain's value is added, the second's subtracted, and so on.
    pub fn get_doug_notation_index(chains: &Vec<DougChain>, start_i: i32) -> (r: i32)
        ensures
            r == notation(chains@, start_i),
    {
        let mut res_i = start_i;
        let mut i: usize = 0;
        while i < chains.len()
            invariant
                i <= chains@.len(),
                res_i == notation(chains@.take(i as int), start_i),
            decreases chains@.len() - i,
        {
            let count = chains[i].count;
            let value = 1i32.wrapping_shl(count.wrapping_sub(1) as u32);
            proof {
                assert(chains@.take(i + 1).drop_last() =~= chains@.take(i as int));
            }
            if i % 2 == 0 {
                res_i = res_i.wrapping_add(value);
            } else {
                res_i = res_i.wrapping_sub(value);
            }
            i = i + 1;
        }
        assert(chains@.take(i as int) =~= chains@);
        res_i
    }

    /// The value at the tape index `i` (the left half of the tape holds the
    /// negative indices); an error if that cell was never set.
    fn get_value(&self, i: i32) -> (r: Result<Value, RuntimeError>)
        requires
            self.wf(),
        ensures
            result_view(r) == tape_get(self@, i),
    {
        let neg = i < 0;
        let idx: u32 = if neg {
            (-(i + 1)) as u32
        } else {
            i as u32
        };
        let got = if neg {
            self.mem.get_value(idx, &self.values_left)
        } else {
            self.mem.get_value(idx, &self.values_right)
        };
        match got {
            Some(v) => Ok(v),
            None => Err(RuntimeError::OutOfRange(i)),
        }
    }

    /// Keeps `value` at the tape index `i`.
    fn set_value(&mut self, i: i32, value: Value) -> (r: Result<(), RuntimeError>)
        requires
            old(self).wf(),
            !(value@ matches ValueV::Number(Number::Wide(_))),
        ensures
            final(self).wf(),
            match r {
                Ok(_) => final(self)@ == tape_set(old(self)@, i, value@),
                Err(e) => e@ == out_of_memory() && final(self)@ == old(self)@ && old(self).exhausted(),
            },
    {
        let ghost v = value@;
        let ghost before = self@;
        let neg = i < 0;
        let idx: u32 = if neg {
            (-(i + 1)) as u32
        } else {
            i as u32
        };
        let ghost old_contents = self.mem.tape_of().contents();
        let ghost old_left = self.values_left@;
        let ghost old_right = self.values_right@;
        if neg {
            let r = self.mem.upsert_value(idx, value, &mut self.values_left);
            proof {
                assert forall|j: u32| #[trigger] old_right.contains_key(j) implies tape_read(
                    old_right[j].ptr(),
                    self.mem.tape_of().contents(),
                ) == tape_read(old_right[j].ptr(), old_contents) by {
                    assert(tape_read(old_right[j].ptr(), old_contents) is Some);
                }
                assert(self@.right =~= before.right);
                if r is Ok {
                    assert(self@.left =~= before.left.insert(idx, stored(v)));
                } else {
                    assert(self@.left =~= before.left);
                }
            }
            r
        } else {
            let r = self.mem.upsert_value(idx, value, &mut self.values_right);
            proof {
                assert forall|j: u32| #[trigger] old_left.contains_key(j) implies tape_read(
                    old_left[j].ptr(),
                    self.mem.tape_of().contents(),
                ) == tape_read(old_left[j].ptr(), old_contents) by {
                    assert(tape_read(old_left[j].ptr(), old_contents) is Some);
                }
                assert(self@.left =~= before.left);
                if r is Ok {
                    assert(self@.right =~= before.right.insert(idx, stored(v)));
                } else {
                    assert(self@.right =~= before.right);
                }
            }
            r
        }
    }

    /// The position of the entry of `name` among the variables.
    fn find_var_index(&self, name: &String) -> (r: Option<usize>)
        ensures
            match r {
                Some(j) => find_var(self@.vars, name@) == Some(j as int),
                None => find_var(self@.vars, name@) is None,
            },
            r matches Some(j) ==> j < self.variables@.len() && self@.vars[j as int] == (
                name@,
                self.variables@[j as int].1,
            ),
            self@.vars.len() == self.variables@.len(),
    {
        let ghost vs = vars_view(self.variables@);
        assert(vs.take(vs.len() as int) =~= vs);
        let mut i = self.variables.len();
        while i > 0
            invariant
                i <= self.variables@.len(),
                vs == vars_view(self.variables@),
                vs.len() == self.variables@.len(),
                find_var(vs, name@) == find_var(vs.take(i as int), name@),
            decreases i,
        {
            let j = i - 1;
            proof {
                assert(vs.take(i as int).drop_last() =~= vs.take(j as int));
                assert(vs.take(i as int).last() == vs[j as int]);
            }
            if string_eq(&self.variables[j].0, name) {
                return Some(j);
            }
            i = j;
        }
        None
    }

    /// The tape index the variable `name` names, if it is declared.
    fn lookup_var(&self, name: &String) -> (r: Option<i32>)
        ensures
            r == lookup(self@.vars, name@),
    {
        match self.find_var_index(name) {
            Some(j) => Some(self.variables[j].1),
            None => None,
        }
    }

    /// Declares `name` at `idx`: a name declared before now names `idx`.
    fn declare_var(&mut self, name: String, idx: i32)
        ensures
            final(self)@ == (InterpV { vars: declare(old(self)@.vars, name@, idx), ..old(self)@ }),
            final(self).wf() == old(self).wf(),
    {
        let ghost vs = vars_view(self.variables@);
        let ghost n = name@;
        match self.find_var_index(&name) {
            Some(j) => {
                self.variables.set(j, (name, idx));
                assert(vars_view(self.variables@) =~= vs.update(j as int, (n, idx)));
            },
            None => {
                self.variables.push((name, idx));
                assert(vars_view(self.variables@) =~= vs.push((n, idx)));
            },
        }
    }

    /// The nodes of the innermost frame.
    fn top_nodes(&self) -> (r: &Vec<ASTNode>)
        requires
            self.wf(),
            self.frames@.len() > 0,
        ensures
            nodes_view(r@) == nodes_at(self@.program, self@.frames, self@.frames.len() - 1),
    {
        let ghost prog = nodes_view(self.program@);
        let mut cur: &Vec<ASTNode> = &self.program;
        let mut k: usize = 0;
        let n = self.frames.len();
        while k + 1 < n
            invariant
                n == self.frames@.len(),
                k < n,
                self.wf(),
                prog == nodes_view(self.program@),
                nodes_view(cur@) == nodes_at(prog, self.frames@, k as int),
            decreases n - k,
        {
            let p = self.frames[k].pos;
            let kind = self.frames[k + 1].kind;
            proof {
                lemma_nodes_view(cur@);
                assert(child_ok(prog, self.frames@, k + 1));
            }
            let node = &cur[p];
            cur = match node {
                ASTNode::Loop { body } => body,
                ASTNode::Prediction { believers_body, doubters_body, .. } => match kind {
                    FrameKind::Believers => believers_body,
                    _ => doubters_body,
                },
                _ => {
                    proof {
                        assert(false);
                    }
                    cur
                },
            };
            k = k + 1;
        }
        cur
    }

    /// Moves the innermost frame past its current node.
    fn advance_top(&mut self)
        requires
            old(self).wf(),
            old(self).cont matches Cont::Idle,
            old(self)@.frames.len() > 0,
            old(self)@.frames.last().pos < nodes_at(
                old(self)@.program,
                old(self)@.frames,
                old(self)@.frames.len() - 1,
            ).len(),
        ensures
            final(self).wf(),
            final(self)@ == (InterpV { frames: advance(old(self)@.frames), ..old(self)@ }),
            final(self).cont matches Cont::Idle,
    {
        let nodes = self.top_nodes();
        let len = nodes.len();
        proof {
            lemma_nodes_view(nodes@);
        }
        let k = self.frames.len() - 1;
        let f = self.frames[k];
        proof {
            lemma_frames_set_pos(self@.program, self.frames@, (f.pos + 1) as usize);
        }
        self.frames.set(k, Frame { pos: f.pos + 1, kind: f.kind });
    }

    /// Ends the frames up to the innermost loop.
    fn do_break(&mut self)
        requires
            old(self).wf(),
            old(self).cont matches Cont::Idle,
        ensures
            final(self).wf(),
            final(self)@ == (InterpV { frames: after_break(old(self)@.frames), ..old(self)@ }),
    {
        let ghost target = after_break(self.frames@);
        loop
            invariant
                self.wf(),
                target == after_break(self.frames@),
                target == after_break(old(self)@.frames),
                self@ == (InterpV { frames: self.frames@, ..old(self)@ }),
                self.cont matches Cont::Idle,
            decreases self.frames@.len(),
        {
            let ghost before = self.frames@;
            let n = self.frames.len();
            if n == 0 {
                return;
            }
            let f = self.frames[n - 1];
            proof {
                lemma_frames_pop(self@.program, before);
                if n > 1 {
                    assert(child_ok(self@.program, before, n - 1));
                    assert(before.drop_last().last() == before[n - 2]);
                }
            }
            self.frames.pop();
            assert(self.frames@ =~= before.drop_last());
            match f.kind {
                FrameKind::Loop => {
                    if n > 1 {
                        self.advance_top();
                    }
                    return;
                },
                _ => {},
            }
        }
    }

    /// What running the node at `pos` of the innermost frame needs of it.
    fn node_step(&self, pos: usize) -> (r: NodeStep)
        requires
            self.wf(),
            self@.frames.len() > 0,
            pos < nodes_at(self@.program, self@.frames, self@.frames.len() - 1).len(),
        ensures
            step_of(r, nodes_at(self@.program, self@.frames, self@.frames.len() - 1)[pos as int]),
    {
        let nodes = self.top_nodes();
        proof {
            lemma_nodes_view(nodes@);
        }
        match &nodes[pos] {
            ASTNode::Doug { chains, reset } => NodeStep::Doug { chains: copy_chains(chains), reset: *reset },
            ASTNode::Declare { name, ptr } => NodeStep::Declare { name: string_clone(name), ptr: copy_chains(ptr) },
            ASTNode::Break => NodeStep::Break,
            ASTNode::Loop { .. } => NodeStep::Loop,
            ASTNode::Prediction { condition, .. } => NodeStep::Prediction { condition: condition.duplicate() },
            ASTNode::SetValue { value, op } => NodeStep::SetValue { value: value.duplicate(), op: *op },
            ASTNode::Modify { name, op, value } => NodeStep::Modify {
                name: string_clone(name),
                op: *op,
                value: value.duplicate(),
            },
            ASTNode::Tts { msg, use_index } => NodeStep::Tts {
                msg: match msg {
                    Some(m) => Some(m.duplicate()),
                    None => None,
                },
                use_index: *use_index,
            },
        }
    }

    /// Runs the node `n`, the next one of the innermost frame, from what
    /// `ns` holds of it.
    fn run_node(&mut self, ns: NodeStep, Ghost(n): Ghost<NodeV>) -> (a: Action)
        requires
            old(self).wf(),
            old(self)@.frames.len() > 0,
            old(self)@.frames.last().pos < nodes_at(
                old(self)@.program,
                old(self)@.frames,
                old(self)@.frames.len() - 1,
            ).len(),
            n == nodes_at(old(self)@.program, old(self)@.frames, old(self)@.frames.len() - 1)[old(
                self,
            )@.frames.last().pos as int],
            step_of(ns, n),
            old(self).cont matches Cont::Idle,
        ensures
            final(self).wf(),
            (final(self)@, a@) == node_spec(old(self)@, n),
    {
        match ns {
            NodeStep::Doug { chains, reset } => {
                let start = if reset {
                    0
                } else {
                    self.values_idx
                };
                let t = Self::get_doug_notation_index(&chains, start);
                self.advance_top();
                self.values_idx = t;
                Action::Step
            },
            NodeStep::Declare { name, ptr } => {
                let t = Self::get_doug_notation_index(&ptr, self.values_idx);
                self.advance_top();
                self.values_idx = t;
                self.declare_var(name, t);
                Action::Step
            },
            NodeStep::Break => {
                self.do_break();
                Action::Step
            },
            NodeStep::Loop => {
                proof {
                    lemma_frames_push(self@.program, self@.frames, FrameKind::Loop);
                }
                self.frames.push(Frame { pos: 0, kind: FrameKind::Loop });
                Action::Step
            },
            NodeStep::Prediction { condition } => {
                self.cont = Cont::Branch;
                self.mode = Mode::Eval(condition);
                Action::Step
            },
            NodeStep::SetValue { value, op } => {
                let t = self.values_idx;
                self.set_node(t, op, value)
            },
            NodeStep::Modify { name, op, value } => {
                let found = self.lookup_var(&name);
                match found {
                    None => {
                        self.advance_top();
                        self.mode = Mode::Done;
                        Action::Abort(text("Name is not expected"))
                    },
                    Some(t) => self.set_node(t, op, value),
                }
            },
            NodeStep::Tts { msg, use_index } => {
                if use_index {
                    let got = self.get_value(self.values_idx);
                    self.advance_top();
                    match got {
                        Err(e) => {
                            self.mode = Mode::Done;
                            Action::Fail(e)
                        },
                        Ok(v) => {
                            self.mode = Mode::Waiting(Wait::Printed);
                            Action::Print(v)
                        },
                    }
                } else {
                    self.advance_top();
                    match msg {
                        Some(m) => {
                            self.cont = Cont::Print;
                            self.mode = Mode::Eval(m);
                            Action::Step
                        },
                        None => {
                            self.mode = Mode::Done;
                            Action::Abort(text("called `Option::unwrap()` on a `None` value"))
                        },
                    }
                }
            },
        }
    }

    /// An assignment of the expression `value` to the tape index `t`,
    /// combined by `op` with the value there when there is an operator.
    fn set_node(&mut self, t: i32, op: Option<Operator>, value: Expression) -> (a: Action)
        requires
            old(self).wf(),
            old(self)@.frames.len() > 0,
            old(self)@.frames.last().pos < nodes_at(
                old(self)@.program,
                old(self)@.frames,
                old(self)@.frames.len() - 1,
            ).len(),
            old(self).cont matches Cont::Idle,
        ensures
            final(self).wf(),
            (final(self)@, a@) == (match op {
                None => (
                    InterpV {
                        cont: ContV::Store { target: t },
                        mode: ModeV::Eval(value@),
                        frames: advance(old(self)@.frames),
                        ..old(self)@
                    },
                    ActionV::Step,
                ),
                Some(o) => match tape_get(old(self)@, t) {
                    Err(e) => (
                        InterpV { mode: ModeV::Done, frames: advance(old(self)@.frames), ..old(self)@ },
                        ActionV::Fail(e),
                    ),
                    Ok(l) => (
                        InterpV {
                            cont: ContV::StoreCombined { target: t, left: l, op: o },
                            mode: ModeV::Eval(value@),
                            frames: advance(old(self)@.frames),
                            ..old(self)@
                        },
                        ActionV::Step,
                    ),
                },
            }),
    {
        match op {
            None => {
                self.advance_top();
                self.cont = Cont::Store { target: t };
                self.mode = Mode::Eval(value);
                Action::Step
            },
            Some(o) => {
                let got = self.get_value(t);
                self.advance_top();
                match got {
                    Err(e) => {
                        self.mode = Mode::Done;
                        Action::Fail(e)
                    },
                    Ok(l) => {
                        self.cont = Cont::StoreCombined { target: t, left: l, op: o };
                        self.mode = Mode::Eval(value);
                        Action::Step
                    },
                }
            },
        }
    }

    /// Runs the next node, or moves on from a block that is done.
    fn exec_step(&mut self) -> (a: Action)
        requires
            old(self).wf(),
            old(self).mode matches Mode::Exec,
            old(self).cont matches Cont::Idle,
        ensures
            final(self).wf(),
            (final(self)@, a@) == exec_spec(old(self)@),
    {
        let n = self.frames.len();
        if n == 0 {
            self.mode = Mode::Done;
            return Action::Finish;
        }
        let k = n - 1;
        let f = self.frames[k];
        let nodes = self.top_nodes();
        let len = nodes.len();
        proof {
            lemma_nodes_view(nodes@);
        }
        if f.pos >= len {
            match f.kind {
                FrameKind::Loop => {
                    proof {
                        lemma_frames_set_pos(self@.program, self@.frames, 0);
                    }
                    self.frames.set(k, Frame { pos: 0, kind: FrameKind::Loop });
                },
                FrameKind::Program => {
                    proof {
                        lemma_frames_pop(self@.program, self@.frames);
                    }
                    self.frames.pop();
                },
                _ => {
                    let ghost before = self.frames@;
                    proof {
                        lemma_frames_pop(self@.program, before);
                        if n > 1 {
                            assert(child_ok(self@.program, before, n - 1));
                            assert(before.drop_last().last() == before[n - 2]);
                        }
                    }
                    self.frames.pop();
                    assert(self.frames@ =~= before.drop_last());
                    if n > 1 {
                        self.advance_top();
                    }
                },
            }
            return Action::Step;
        }
        let ns = self.node_step(f.pos);
        let ghost node = nodes_at(self@.program, self@.frames, self@.frames.len() - 1)[f.pos as int];
        self.run_node(ns, Ghost(node))
    }

    /// Starts evaluating the expression `e`.
    fn eval_step(&mut self, e: Expression) -> (a: Action)
        requires
            old(self).wf(),
        ensures
            final(self).wf(),
            (final(self)@, a@) == eval_spec(old(self)@, e@),
            final(self).cont == old(self).cont,
    {
        match e {
            Expression::Literal(Literal::String(t)) => {
                self.mode = Mode::Deliver(Ok(Value::String(t)));
                Action::Step
            },
            Expression::Literal(Literal::Number(t)) => {
                self.mode = Mode::Waiting(Wait::Number);
                Action::ParseNumber(t)
            },
            Expression::DougSequence(c) => {
                let i = Self::get_doug_notation_index(&c, 0);
                let r = self.get_value(i);
                self.mode = Mode::Deliver(r);
                Action::Step
            },
            Expression::Variable(v) => {
                match self.lookup_var(&v) {
                    None => {
                        self.mode = Mode::Deliver(Err(RuntimeError::NotDefined(v)));
                    },
                    Some(t) => {
                        let r = self.get_value(t);
                        self.mode = Mode::Deliver(r);
                    },
                }
                Action::Step
            },
            Expression::RSequence { left, op, right } => {
                let right = match right {
                    Some(b) => Some(*b),
                    None => None,
                };
                let task = Task::Left { op, right };
                let ghost before = self.tasks@;
                self.tasks.push(task);
                assert(tasks_view(self.tasks@) =~= tasks_view(before).push(task_view(task)));
                self.mode = Mode::Eval(*left);
                Action::Step
            },
        }
    }

    /// Whether a value counts as true (see [`truth`]).
    fn truth_of(v: &Value) -> (r: bool)
        ensures
            r == truth(v@),
    {
        match v {
            Value::Boolean(b) => *b,
            Value::Number(Number::Narrow(b)) => *b & 0x7fff_ffffu32 != 0,
            Value::Number(Number::Wide(b)) => *b & 0x7fff_ffff_ffff_ffffu64 != 0,
            Value::String(s) => chars_of(s).len() > 0,
            Value::Error(_) => false,
        }
    }

    /// An operation whose operands are done (see [`finish_spec`]).
    fn finish(&mut self, op: Option<Operator>, l: Value, r: Option<Result<Value, RuntimeError>>) -> (a: Action)
        requires
            old(self).wf(),
        ensures
            final(self).wf(),
            (final(self)@, a@) == finish_spec(
                old(self)@,
                op,
                l@,
                match r {
                    Some(x) => Some(result_view(x)),
                    None => None,
                },
            ),
            final(self).cont == old(self).cont,
    {
        match op {
            None => {
                self.mode = Mode::Deliver(Ok(l));
                Action::Step
            },
            Some(o) => match r {
                None => {
                    self.mode = Mode::Waiting(Wait::Shown { op: o });
                    Action::Show(l)
                },
                Some(Err(e)) => {
                    self.mode = Mode::Deliver(Err(e));
                    Action::Step
                },
                Some(Ok(rv)) => {
                    self.mode = Mode::Waiting(Wait::AppliedExpr);
                    Action::Apply(l, o, rv)
                },
            },
        }
    }

    /// Hands the result `r` of an expression on (see [`deliver_spec`]).
    fn deliver_step(&mut self, r: Result<Value, RuntimeError>) -> (a: Action)
        requires
            old(self).wf(),
        ensures
            final(self).wf(),
            (final(self)@, a@) == deliver_spec(old(self)@, result_view(r)),
    {
        if self.tasks.len() == 0 {
            match r {
                Err(e) => match self.cont {
                    Cont::Idle => {
                        self.mode = Mode::Exec;
                        Action::Step
                    },
                    _ => {
                        self.mode = Mode::Done;
                        Action::Fail(e)
                    },
                },
                Ok(v) => {
                    let ghost s0 = self@;
                    let mut c = Cont::Idle;
                    std::mem::swap(&mut c, &mut self.cont);
                    match c {
                        Cont::Idle => {
                            self.mode = Mode::Exec;
                            Action::Step
                        },
                        Cont::Store { target } => {
                            self.mode = Mode::Store { target, value: v };
                            Action::Step
                        },
                        Cont::StoreCombined { target, left, op } => {
                            self.mode = Mode::Waiting(Wait::AppliedStore { target });
                            Action::Apply(left, op, v)
                        },
                        Cont::Print => {
                            self.mode = Mode::Waiting(Wait::Printed);
                            Action::Print(v)
                        },
                        Cont::Branch => {
                            let kind = if Self::truth_of(&v) {
                                FrameKind::Believers
                            } else {
                                FrameKind::Doubters
                            };
                            proof {
                                lemma_frames_push(s0.program, s0.frames, kind);
                            }
                            self.frames.push(Frame { pos: 0, kind });
                            self.mode = Mode::Exec;
                            Action::Step
                        },
                    }
                },
            }
        } else {
            let ghost before = self.tasks@;
            let t = self.tasks.pop().unwrap();
            assert(tasks_view(self.tasks@) =~= tasks_view(before).drop_last());
            match t {
                Task::Left { op, right } => match r {
                    Err(e) => {
                        self.mode = Mode::Deliver(Err(e));
                        Action::Step
                    },
                    Ok(l) => match right {
                        Some(re) => {
                            let ghost mid = self.tasks@;
                            let task = Task::Right { op, left: l };
                            self.tasks.push(task);
                            assert(tasks_view(self.tasks@) =~= tasks_view(mid).push(task_view(task)));
                            self.mode = Mode::Eval(re);
                            Action::Step
                        },
                        None => self.finish(op, l, None),
                    },
                },
                Task::Right { op, left } => self.finish(op, left, Some(r)),
            }
        }
    }

    /// Keeps `v` in the cell `target` (see [`store_spec`]).
    fn store_step(&mut self, target: i32, v: Value) -> (a: Action)
        requires
            old(self).wf(),
            old(self).cont matches Cont::Idle,
        ensures
            final(self).wf(),
            (final(self)@, a@) == store_spec(old(self)@, target, v@, true) || (old(self).exhausted()
                && (final(self)@, a@) == store_spec(old(self)@, target, v@, false)),
    {
        match v {
            Value::Number(Number::Wide(b)) => {
                self.mode = Mode::Waiting(Wait::Narrowed { target });
                Action::Narrow(b)
            },
            other => {
                match self.set_value(target, other) {
                    Ok(()) => {
                        self.mode = Mode::Exec;
                        Action::Step
                    },
                    Err(e) => {
                        self.mode = Mode::Done;
                        Action::Fail(e)
                    },
                }
            },
        }
    }

    /// Takes in the answer `e` to what the interpreter waits for (see
    /// [`answer_spec`]).
    fn answer_step(&mut self, w: Wait, e: Event) -> (a: Action)
        requires
            old(self).wf(),
            old(self).mode matches Mode::Waiting(x) && x == w,
        ensures
            final(self).wf(),
            (final(self)@, a@) == answer_spec(old(self)@, w, e@),
    {
        match (w, e) {
            (Wait::Number, Event::Number(b)) => {
                self.mode = Mode::Deliver(Ok(Value::Number(Number::Narrow(b))));
                Action::Step
            },
            (Wait::AppliedExpr, Event::Value(v)) => {
                self.mode = Mode::Deliver(Ok(v));
                Action::Step
            },
            (Wait::AppliedStore { target }, Event::Value(v)) => {
                self.mode = Mode::Store { target, value: v };
                Action::Step
            },
            (Wait::Shown { op }, Event::Text(t)) => {
                let m = join(&join(&t, &text(" ")), &op_symbol(op));
                self.mode = Mode::Deliver(Err(RuntimeError::NoRExpression(m)));
                Action::Step
            },
            (Wait::Narrowed { target }, Event::Narrowed(b)) => {
                self.mode = Mode::Store { target, value: Value::Number(Number::Narrow(b)) };
                Action::Step
            },
            (Wait::Printed, Event::Go) => {
                self.mode = Mode::Exec;
                Action::Step
            },
            _ => Action::Unexpected,
        }
    }

    /// One step of the program, given the answer `e` to the last action
    /// (see [`step_spec`]; `Event::Go` when the last action asked for
    /// nothing).
    pub fn step(&mut self, e: Event) -> (a: Action)
        requires
            old(self).wf(),
        ensures
            final(self).wf(),
            (final(self)@, a@) == step_spec(old(self)@, e@, true) || (old(self).exhausted() && (
            final(self)@, a@) == step_spec(old(self)@, e@, false)),
    {
        let ghost s0 = self@;
        let mut mode = Mode::Done;
        std::mem::swap(&mut mode, &mut self.mode);
        match mode {
            Mode::Exec => {
                self.mode = Mode::Exec;
                assert(self@ == s0);
                if let Cont::Idle = self.cont {
                    self.exec_step()
                } else {
                    proof {
                        assert(false);
                    }
                    Action::Finish
                }
            },
            Mode::Eval(x) => self.eval_step(x),
            Mode::Deliver(r) => self.deliver_step(r),
            Mode::Store { target, value } => self.store_step(target, value),
            Mode::Waiting(w) => {
                self.mode = Mode::Waiting(w);
                assert(self@ == s0);
                self.answer_step(w, e)
            },
            Mode::Done => {
                self.mode = Mode::Done;
                assert(self@ == s0);
                Action::Finish
            },
        }
    }

    /// The state of the parser.
    pub closed spec fn parser_state(&self) -> PState {
        self.parser.pstate()
    }

    /// The parser reads the `xaelia` dialect.
    pub closed spec fn xaelia(&self) -> bool {
        self.parser.xaelia()
    }

    /// Parses the source text `source` and starts running it: the program's
    /// outermost block becomes the one frame. A source text the parser
    /// rejects ends the run with the syntax error; one in which the lexer
    /// reaches a word outside ASCII ends it with an abort.
    #[verifier::rlimit(30)]
    pub fn run(&mut self, source: Vec<u8>) -> (a: Action)
        requires
            old(self).wf(),
        ensures
            final(self).wf(),
            final(self)@.idx == old(self)@.idx,
            final(self)@.right == old(self)@.right,
            final(self)@.left == old(self)@.left,
            final(self)@.vars == old(self)@.vars,
            final(self).xaelia() == old(self).xaelia(),
            ({
                let p = spec_parse_block(
                    PState { rest: source@, has_source: true, ..old(self).parser_state() },
                    true,
                    old(self).xaelia(),
                );
                if p.1.halted {
                    &&& a@ == ActionV::Abort("byte index is not a char boundary: a word is not ASCII"@)
                    &&& final(self)@.mode == ModeV::Done
                } else {
                    match a@ {
                        ActionV::Rejected(e) => {
                            &&& p.0 == Err::<Seq<NodeV>, SynV>(e)
                            &&& final(self)@.mode == ModeV::Done
                        },
                        ActionV::Step => {
                            &&& p.0 == Ok::<Seq<NodeV>, SynV>(final(self)@.program)
                            &&& final(self)@.frames == seq![
                                Frame { pos: 0, kind: FrameKind::Program },
                            ]
                            &&& final(self)@.tasks.len() == 0
                            &&& final(self)@.cont == ContV::Idle
                            &&& final(self)@.mode == ModeV::Exec
                        },
                        _ => false,
                    }
                }
            }),
    {
        let ghost s0 = self@;
        let ghost p = spec_parse_block(
            PState { rest: source@, has_source: true, ..self.parser_state() },
            true,
            self.xaelia(),
        );
        let data = self.mem.take_data();
        let parsed = self.parser.run(source, data);
        assert(self.parser.pstate().halted == p.1.halted);
        if let Some(d) = self.parser.take_data() {
            self.mem.put_data(d);
        }
        assert(self@.right == s0.right && self@.left == s0.left);
        if self.parser.halted() {
            self.tasks = Vec::new();
            self.cont = Cont::Idle;
            self.mode = Mode::Done;
            assert(self@.right == s0.right);
            return Action::Abort(text("byte index is not a char boundary: a word is not ASCII"));
        }
        match parsed {
            Err(e) => {
                self.tasks = Vec::new();
                self.cont = Cont::Idle;
                self.mode = Mode::Done;
                assert(self@.right == s0.right);
                Action::Rejected(e)
            },
            Ok(nodes) => {
                self.program = nodes;
                let mut frames: Vec<Frame> = Vec::new();
                frames.push(Frame { pos: 0, kind: FrameKind::Program });
                self.frames = frames;
                self.tasks = Vec::new();
                self.cont = Cont::Idle;
                self.mode = Mode::Exec;
                assert(self@.frames =~= seq![Frame { pos: 0, kind: FrameKind::Program }]);
                assert(tasks_view(self.tasks@) =~= Seq::<TaskV>::empty());
                Action::Step
            },
        }
    }
}

} // verus!
