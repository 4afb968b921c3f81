//! The flat instruction sequence, and the lowering of the program tree
//! into it: constant folding, control flow with generated labels, and
//! scoped bindings.

use vstd::prelude::*;
use crate::hir::{distinct_names, AstKind, AstNode, Binding, Const, IConst, Intrinsic, Proc, TopLevel};
use crate::span::Span;
use crate::textbuf::chars_of;
use crate::emit::pool_view;
use crate::eval::{ConstEval, EvalOutcome, EvalResult};
use crate::lexer::slice_chars;
use crate::textbuf::{decimal, digit_char, put_chars, put_decimal};

verus! {

/// One instruction of the flat stack machine.
#[derive(Clone, Debug, PartialEq, Eq)]
pub enum Op {
    Push(IConst),
    PushStr(usize),
    PushMem(Vec<char>),
    Drop,
    Dup,
    Swap,
    Over,

    ReadU8,
    WriteU8,
    ReadU64,
    WriteU64,

    Dump,
    Print,
    PutC,

    Syscall0,
    Syscall1,
    Syscall2,
    Syscall3,
    Syscall4,
    Syscall5,
    Syscall6,
    Argc,
    Argv,

    Add,
    Sub,
    Divmod,
    Mul,

    Eq,
    Ne,
    Lt,
    Le,
    Gt,
    Ge,

    Bind,
    UseBinding(usize),
    Unbind,

    ReserveLocals(usize),
    FreeLocals(usize),
    PushLvar(usize),
    ReserveEscaping(usize),
    PushEscaping(usize),

    Proc(Vec<char>),
    Label(Vec<char>),
    Jump(Vec<char>),
    JumpF(Vec<char>),
    Call(Vec<char>),
    Return,
    Exit,
}

/// An instruction with its names seen as character sequences.
pub ghost enum OpV {
    Push(IConst),
    PushStr(nat),
    PushMem(Seq<char>),
    Drop,
    Dup,
    Swap,
    Over,
    ReadU8,
    WriteU8,
    ReadU64,
    WriteU64,
    Dump,
    Print,
    PutC,
    Syscall0,
    Syscall1,
    Syscall2,
    Syscall3,
    Syscall4,
    Syscall5,
    Syscall6,
    Argc,
    Argv,
    Add,
    Sub,
    Divmod,
    Mul,
    Eq,
    Ne,
    Lt,
    Le,
    Gt,
    Ge,
    Bind,
    UseBinding(nat),
    Unbind,
    ReserveLocals(nat),
    FreeLocals(nat),
    PushLvar(nat),
    ReserveEscaping(nat),
    PushEscaping(nat),
    Proc(Seq<char>),
    Label(Seq<char>),
    Jump(Seq<char>),
    JumpF(Seq<char>),
    Call(Seq<char>),
    Return,
    Exit,
}

impl View for Op {
    type V = OpV;

    open spec fn view(&self) -> OpV {
        match self {
            Op::Push(c) => OpV::Push(*c),
            Op::PushStr(i) => OpV::PushStr(*i as nat),
            Op::PushMem(n) => OpV::PushMem(n@),
            Op::Drop => OpV::Drop,
            Op::Dup => OpV::Dup,
            Op::Swap => OpV::Swap,
            Op::Over => OpV::Over,
            Op::ReadU8 => OpV::ReadU8,
            Op::WriteU8 => OpV::WriteU8,
            Op::ReadU64 => OpV::ReadU64,
            Op::WriteU64 => OpV::WriteU64,
            Op::Dump => OpV::Dump,
            Op::Print => OpV::Print,
            Op::PutC => OpV::PutC,
            Op::Syscall0 => OpV::Syscall0,
            Op::Syscall1 => OpV::Syscall1,
            Op::Syscall2 => OpV::Syscall2,
            Op::Syscall3 => OpV::Syscall3,
            Op::Syscall4 => OpV::Syscall4,
            Op::Syscall5 => OpV::Syscall5,
            Op::Syscall6 => OpV::Syscall6,
            Op::Argc => OpV::Argc,
            Op::Argv => OpV::Argv,
            Op::Add => OpV::Add,
            Op::Sub => OpV::Sub,
            Op::Divmod => OpV::Divmod,
            Op::Mul => OpV::Mul,
            Op::Eq => OpV::Eq,
            Op::Ne => OpV::Ne,
            Op::Lt => OpV::Lt,
            Op::Le => OpV::Le,
            Op::Gt => OpV::Gt,
            Op::Ge => OpV::Ge,
            Op::Bind => OpV::Bind,
            Op::UseBinding(k) => OpV::UseBinding(*k as nat),
            Op::Unbind => OpV::Unbind,
            Op::ReserveLocals(n) => OpV::ReserveLocals(*n as nat),
            Op::FreeLocals(n) => OpV::FreeLocals(*n as nat),
            Op::PushLvar(n) => OpV::PushLvar(*n as nat),
            Op::ReserveEscaping(n) => OpV::ReserveEscaping(*n as nat),
            Op::PushEscaping(n) => OpV::PushEscaping(*n as nat),
            Op::Proc(l) => OpV::Proc(l@),
            Op::Label(l) => OpV::Label(l@),
            Op::Jump(l) => OpV::Jump(l@),
            Op::JumpF(l) => OpV::JumpF(l@),
            Op::Call(l) => OpV::Call(l@),
            Op::Return => OpV::Return,
            Op::Exit => OpV::Exit,
        }
    }
}

/// The views of a sequence of instructions.
pub open spec fn ops_view(ops: Seq<Op>) -> Seq<OpV> {
    ops.map_values(|o: Op| o@)
}

/// What is known of a reachable constant while lowering.
#[derive(Clone, Copy, Debug, PartialEq, Eq, Structural)]
pub enum ConstState {
    /// Not folded yet.
    Pending,
    /// Being folded: its body is being lowered or evaluated.
    InProgress,
    Folded(IConst),
}

/// The context of lowering: the procedure being lowered, the names bound
/// by enclosing `bind` blocks (innermost last; `None` for `_`), and the
/// reachable constants with their states.
pub ghost struct Cx {
    pub name: Seq<char>,
    pub scope: Seq<Option<Seq<char>>>,
    pub consts: Seq<Seq<char>>,
    pub states: Seq<ConstState>,
}

/// What lowering has produced so far: the instructions, the label counter
/// and the string pool.
pub ghost struct Low {
    pub ops: Seq<OpV>,
    pub label: nat,
    pub pool: Seq<Seq<u8>>,
}

/// The name of label number `k` of procedure `name`: `.`, the name, `~`
/// and the counter in decimal. The counter's digits hold no `~`, so the
/// last `~` of a label parts the name from the counter, and two labels are
/// equal only for the same procedure and counter value (see
/// `lemma_label_names_distinct`).
pub open spec fn label_name(name: Seq<char>, k: nat) -> Seq<char> {
    seq!['.'] + name + seq!['~'] + decimal(k)
}

/// The depth, counted from the innermost binding, of the innermost binding
/// of `w`.
pub open spec fn find_binding(scope: Seq<Option<Seq<char>>>, w: Seq<char>) -> Option<nat>
    decreases scope.len(),
{
    if scope.len() == 0 {
        None
    } else if scope.last() == Some(w) {
        Some(0)
    } else {
        match find_binding(scope.drop_last(), w) {
            Some(k) => Some(k + 1),
            None => None,
        }
    }
}

/// The index of the first constant named `w`.
pub open spec fn const_index(consts: Seq<Seq<char>>, w: Seq<char>) -> Option<nat>
    decreases consts.len(),
{
    if consts.len() == 0 {
        None
    } else {
        match const_index(consts.drop_last(), w) {
            Some(i) => Some(i),
            None => if consts.last() == w {
                Some((consts.len() - 1) as nat)
            } else {
                None
            },
        }
    }
}

/// The folded value of the constant named `w`, if it has one.
pub open spec fn folded_value(cx: Cx, w: Seq<char>) -> Option<IConst> {
    match const_index(cx.consts, w) {
        Some(i) => if i < cx.states.len() {
            match cx.states[i as int] {
                ConstState::Folded(v) => Some(v),
                _ => None,
            }
        } else {
            None
        },
        None => None,
    }
}

/// The instruction for a word: a bound name reads its binding, a folded
/// constant pushes its value, anything else is called by name.
pub open spec fn word_op(cx: Cx, w: Seq<char>) -> OpV {
    match find_binding(cx.scope, w) {
        Some(k) => OpV::UseBinding(k),
        None => match folded_value(cx, w) {
            Some(v) => OpV::Push(v),
            None => OpV::Call(w),
        },
    }
}

impl Default for Compiler {
    fn default() -> (r: Self)
        ensures
            r.is_new(),
    {
        Compiler::new()
    }
}

/// The instruction for an intrinsic; pointer arithmetic is integer
/// arithmetic. The debugging stop has none.
pub open spec fn intrinsic_op(i: Intrinsic) -> Option<OpV> {
    match i {
        Intrinsic::Drop => Some(OpV::Drop),
        Intrinsic::Dup => Some(OpV::Dup),
        Intrinsic::Swap => Some(OpV::Swap),
        Intrinsic::Over => Some(OpV::Over),
        Intrinsic::CompStop => None,
        Intrinsic::Dump => Some(OpV::Dump),
        Intrinsic::Print => Some(OpV::Print),
        Intrinsic::PutC => Some(OpV::PutC),
        Intrinsic::Add => Some(OpV::Add),
        Intrinsic::Sub => Some(OpV::Sub),
        Intrinsic::Divmod => Some(OpV::Divmod),
        Intrinsic::Mul => Some(OpV::Mul),
        Intrinsic::Eq => Some(OpV::Eq),
        Intrinsic::Ne => Some(OpV::Ne),
        Intrinsic::Lt => Some(OpV::Lt),
        Intrinsic::Le => Some(OpV::Le),
        Intrinsic::Gt => Some(OpV::Gt),
        Intrinsic::Ge => Some(OpV::Ge),
        Intrinsic::ReadU8 => Some(OpV::ReadU8),
        Intrinsic::WriteU8 => Some(OpV::WriteU8),
        Intrinsic::ReadU64 => Some(OpV::ReadU64),
        Intrinsic::WriteU64 => Some(OpV::WriteU64),
        Intrinsic::PtrAdd => Some(OpV::Add),
        Intrinsic::PtrSub => Some(OpV::Sub),
    }
}

pub open spec fn emit(st: Low, op: OpV) -> Low {
    Low { ops: st.ops.push(op), ..st }
}

/// `st` with `k` copies of `op` appended.
pub open spec fn emit_n(st: Low, op: OpV, k: nat) -> Low
    decreases k,
{
    if k == 0 {
        st
    } else {
        emit(emit_n(st, op, (k - 1) as nat), op)
    }
}

/// A fresh label: `st` with its counter advanced.
pub open spec fn next_label(st: Low) -> Low {
    Low { label: st.label + 1, ..st }
}

pub open spec fn binding_name(b: Binding) -> Option<Seq<char>> {
    match b {
        Binding::Ignore => None,
        Binding::Bind { name, .. } => Some(name@),
    }
}

/// The scope inside a `bind` block: the first binding is the innermost, at
/// depth 0, as it takes the value that was deepest on the stack.
pub open spec fn bind_scope(scope: Seq<Option<Seq<char>>>, bs: Seq<Binding>) -> Seq<Option<Seq<char>>>
    decreases bs.len(),
{
    if bs.len() == 0 {
        scope
    } else {
        bind_scope(scope, bs.drop_first()).push(binding_name(bs[0]))
    }
}

/// The lowering of one node.
pub open spec fn lower_node(n: AstNode, cx: Cx, st: Low) -> Low
    decreases n,
{
    match n.ast {
        AstKind::Literal(c) => emit(st, OpV::Push(c)),
        AstKind::Str(s) => Low {
            ops: st.ops.push(OpV::PushStr(st.pool.len())),
            label: st.label,
            pool: st.pool.push(s@),
        },
        AstKind::Word(w) => emit(st, word_op(cx, w@)),
        AstKind::Intrinsic(i) => match intrinsic_op(i) {
            Some(op) => emit(st, op),
            None => st,
        },
        AstKind::If(c) => {
            let l0 = label_name(cx.name, st.label);
            let s1 = lower_block(c.truth@, cx, emit(next_label(st), OpV::JumpF(l0)));
            match c.lie {
                None => emit(s1, OpV::Label(l0)),
                Some(lie) => {
                    let l1 = label_name(cx.name, s1.label);
                    let s2 = emit(emit(next_label(s1), OpV::Jump(l1)), OpV::Label(l0));
                    emit(lower_block(lie@, cx, s2), OpV::Label(l1))
                },
            }
        },
        AstKind::While(w) => {
            let l0 = label_name(cx.name, st.label);
            let l1 = label_name(cx.name, st.label + 1);
            let s0 = emit(next_label(next_label(st)), OpV::Label(l0));
            let s1 = emit(lower_block(w.cond@, cx, s0), OpV::JumpF(l1));
            emit(emit(lower_block(w.body@, cx, s1), OpV::Jump(l0)), OpV::Label(l1))
        },
        AstKind::Bind(b) => {
            let k = b.bindings@.len();
            let inner = Cx { scope: bind_scope(cx.scope, b.bindings@), ..cx };
            emit_n(lower_block(b.body@, inner, emit_n(st, OpV::Bind, k)), OpV::Unbind, k)
        },
    }
}

/// The lowering of a block, node after node; a debugging stop ends it.
pub open spec fn lower_block(b: Seq<AstNode>, cx: Cx, st: Low) -> Low
    decreases b,
{
    if b.len() == 0 {
        st
    } else if b[0].ast matches AstKind::Intrinsic(Intrinsic::CompStop) {
        st
    } else {
        lower_block(b.subrange(1, b.len() as int), cx, lower_node(b[0], cx, st))
    }
}

proof fn lemma_emit_n(st: Low, op: OpV, k: nat)
    ensures
        emit_n(st, op, k).label == st.label,
        emit_n(st, op, k).pool == st.pool,
    decreases k,
{
    if k > 0 {
        lemma_emit_n(st, op, (k - 1) as nat);
    }
}

proof fn lemma_lower_node_label(n: AstNode, cx: Cx, st: Low)
    ensures
        lower_node(n, cx, st).label >= st.label,
    decreases n,
{
    match n.ast {
        AstKind::If(c) => {
            let l0 = label_name(cx.name, st.label);
            let s0 = emit(next_label(st), OpV::JumpF(l0));
            lemma_lower_block_label(c.truth@, cx, s0);
            let s1 = lower_block(c.truth@, cx, s0);
            if let Some(lie) = &c.lie {
                let l1 = label_name(cx.name, s1.label);
                let s2 = emit(emit(next_label(s1), OpV::Jump(l1)), OpV::Label(l0));
                lemma_lower_block_label(lie@, cx, s2);
            }
        },
        AstKind::While(w) => {
            let l0 = label_name(cx.name, st.label);
            let l1 = label_name(cx.name, st.label + 1);
            let s0 = emit(next_label(next_label(st)), OpV::Label(l0));
            lemma_lower_block_label(w.cond@, cx, s0);
            let s1 = emit(lower_block(w.cond@, cx, s0), OpV::JumpF(l1));
            lemma_lower_block_label(w.body@, cx, s1);
        },
        AstKind::Bind(b) => {
            let k = b.bindings@.len();
            let inner = Cx { scope: bind_scope(cx.scope, b.bindings@), ..cx };
            lemma_emit_n(st, OpV::Bind, k);
            let s0 = emit_n(st, OpV::Bind, k);
            lemma_lower_block_label(b.body@, inner, s0);
            lemma_emit_n(lower_block(b.body@, inner, s0), OpV::Unbind, k);
        },
        _ => {},
    }
}

proof fn lemma_lower_block_label(b: Seq<AstNode>, cx: Cx, st: Low)
    ensures
        lower_block(b, cx, st).label >= st.label,
    decreases b,
{
    if b.len() > 0 && !(b[0].ast matches AstKind::Intrinsic(Intrinsic::CompStop)) {
        lemma_lower_node_label(b[0], cx, st);
        lemma_lower_block_label(b.subrange(1, b.len() as int), cx, lower_node(b[0], cx, st));
    }
}

proof fn lemma_node_label_independent(n: AstNode, cx: Cx, a: Low, b: Low)
    requires
        a.label == b.label,
    ensures
        lower_node(n, cx, a).label == lower_node(n, cx, b).label,
    decreases n,
{
    match n.ast {
        AstKind::If(c) => {
            let l0 = label_name(cx.name, a.label);
            let a0 = emit(next_label(a), OpV::JumpF(l0));
            let b0 = emit(next_label(b), OpV::JumpF(l0));
            lemma_block_label_independent(c.truth@, cx, a0, b0);
            let a1 = lower_block(c.truth@, cx, a0);
            let b1 = lower_block(c.truth@, cx, b0);
            if let Some(lie) = c.lie {
                let l1 = label_name(cx.name, a1.label);
                let a2 = emit(emit(next_label(a1), OpV::Jump(l1)), OpV::Label(l0));
                let b2 = emit(emit(next_label(b1), OpV::Jump(l1)), OpV::Label(l0));
                lemma_block_label_independent(lie@, cx, a2, b2);
            }
        },
        AstKind::While(w) => {
            let l0 = label_name(cx.name, a.label);
            let l1 = label_name(cx.name, a.label + 1);
            let a0 = emit(next_label(next_label(a)), OpV::Label(l0));
            let b0 = emit(next_label(next_label(b)), OpV::Label(l0));
            lemma_block_label_independent(w.cond@, cx, a0, b0);
            let a1 = emit(lower_block(w.cond@, cx, a0), OpV::JumpF(l1));
            let b1 = emit(lower_block(w.cond@, cx, b0), OpV::JumpF(l1));
            lemma_block_label_independent(w.body@, cx, a1, b1);
        },
        AstKind::Bind(bd) => {
            let k = bd.bindings@.len();
            let inner = Cx { scope: bind_scope(cx.scope, bd.bindings@), ..cx };
            lemma_emit_n(a, OpV::Bind, k);
            lemma_emit_n(b, OpV::Bind, k);
            let a0 = emit_n(a, OpV::Bind, k);
            let b0 = emit_n(b, OpV::Bind, k);
            lemma_block_label_independent(bd.body@, inner, a0, b0);
            lemma_emit_n(lower_block(bd.body@, inner, a0), OpV::Unbind, k);
            lemma_emit_n(lower_block(bd.body@, inner, b0), OpV::Unbind, k);
        },
        _ => {},
    }
}

proof fn lemma_block_label_independent(bl: Seq<AstNode>, cx: Cx, a: Low, b: Low)
    requires
        a.label == b.label,
    ensures
        lower_block(bl, cx, a).label == lower_block(bl, cx, b).label,
    decreases bl,
{
    if bl.len() > 0 && !(bl[0].ast matches AstKind::Intrinsic(Intrinsic::CompStop)) {
        lemma_node_label_independent(bl[0], cx, a, b);
        lemma_block_label_independent(
            bl.subrange(1, bl.len() as int),
            cx,
            lower_node(bl[0], cx, a),
            lower_node(bl[0], cx, b),
        );
    }
}

proof fn lemma_const_index_prefix(consts: Seq<Seq<char>>, j: int, w: Seq<char>)
    requires
        0 <= j <= consts.len(),
        const_index(consts.subrange(0, j), w) is Some,
    ensures
        const_index(consts, w) == const_index(consts.subrange(0, j), w),
    decreases consts.len() - j,
{
    if j < consts.len() {
        let p = consts.drop_last();
        assert(p.subrange(0, j) =~= consts.subrange(0, j));
        lemma_const_index_prefix(p, j, w);
    } else {
        assert(consts.subrange(0, j) =~= consts);
    }
}

proof fn lemma_const_index_found(consts: Seq<Seq<char>>, w: Seq<char>)
    ensures
        const_index(consts, w) matches Some(j) ==> j < consts.len() && consts[j as int] == w,
    decreases consts.len(),
{
    if consts.len() > 0 {
        lemma_const_index_found(consts.drop_last(), w);
    }
}

proof fn lemma_bind_scope_prefix(scope: Seq<Option<Seq<char>>>, bs: Seq<Binding>)
    ensures
        bind_scope(scope, bs).len() == scope.len() + bs.len(),
        bind_scope(scope, bs).subrange(0, scope.len() as int) == scope,
    decreases bs.len(),
{
    if bs.len() > 0 {
        lemma_bind_scope_prefix(scope, bs.drop_first());
        let inner = bind_scope(scope, bs.drop_first());
        assert(inner.push(binding_name(bs[0])).subrange(0, scope.len() as int) =~= inner.subrange(
            0,
            scope.len() as int,
        ));
    } else {
        assert(scope.subrange(0, scope.len() as int) =~= scope);
    }
}

#[derive(Clone, Debug, PartialEq, Eq)]
pub enum LowerError {
    /// The constant with this name depends on itself.
    Cycle(Vec<char>),
    /// Evaluating the constant with this name stayed blocked on a name that
    /// is no constant still to fold, or was blocked a second time.
    Unresolved(Vec<char>),
    /// The evaluator could not evaluate the constant with this name.
    EvalFailed(Vec<char>),
    /// A procedure needs more labels than a counter can number.
    TooManyLabels,
}

/// A lowering error with its names seen as character sequences.
pub ghost enum LowerErrorV {
    Cycle(Seq<char>),
    Unresolved(Seq<char>),
    EvalFailed(Seq<char>),
    TooManyLabels,
}

impl View for LowerError {
    type V = LowerErrorV;

    open spec fn view(&self) -> LowerErrorV {
        match self {
            LowerError::Cycle(n) => LowerErrorV::Cycle(n@),
            LowerError::Unresolved(n) => LowerErrorV::Unresolved(n@),
            LowerError::EvalFailed(n) => LowerErrorV::EvalFailed(n@),
            LowerError::TooManyLabels => LowerErrorV::TooManyLabels,
        }
    }
}

pub open spec fn const_result_view(r: Result<IConst, LowerError>) -> Result<IConst, LowerErrorV> {
    match r {
        Ok(v) => Ok(v),
        Err(e) => Err(e@),
    }
}

pub open spec fn unit_result_view(r: Result<(), LowerError>) -> Result<(), LowerErrorV> {
    match r {
        Ok(()) => Ok(()),
        Err(e) => Err(e@),
    }
}

/// The lowering of constant `idx`'s body with the constant states `states`,
/// its strings joining the pool `pool`.
pub open spec fn body_lowering(
    consts: Seq<Seq<char>>,
    defs: Seq<Const>,
    states: Seq<ConstState>,
    pool: Seq<Seq<u8>>,
    idx: int,
) -> Low {
    const_lowering(defs[idx].body@, consts, states, pool)
}

/// What the evaluator gives for constant `idx`: its body lowered with the
/// constant states `states` and the pool `pool`, then `exit`, run with the
/// pool that the lowering leaves; `None` where the lowering needs more
/// labels than a counter can number.
pub open spec fn eval_const<E: ConstEval>(
    e: &E,
    consts: Seq<Seq<char>>,
    defs: Seq<Const>,
    states: Seq<ConstState>,
    pool: Seq<Seq<u8>>,
    idx: int,
) -> Option<EvalOutcome> {
    let l = body_lowering(consts, defs, states, pool, idx);
    if l.label > usize::MAX {
        None
    } else {
        Some(e.outcome(l.ops.push(OpV::Exit), l.pool))
    }
}

/// The end of folding constant `idx` once the evaluator has given `out`: a
/// word becomes the constant's value, read as its declared type.
pub open spec fn finish_fold(
    consts: Seq<Seq<char>>,
    defs: Seq<Const>,
    states: Seq<ConstState>,
    pool: Seq<Seq<u8>>,
    idx: int,
    out: EvalOutcome,
) -> (Result<IConst, LowerErrorV>, Seq<ConstState>, Seq<Seq<u8>>) {
    match out {
        EvalOutcome::Value(w) => {
            let v = IConst::of_type(defs[idx].ty, w);
            (Ok(v), states.update(idx, ConstState::Folded(v)), pool)
        },
        EvalOutcome::Blocked(req) => (Err(LowerErrorV::Unresolved(req)), states, pool),
        EvalOutcome::Failed => (Err(LowerErrorV::EvalFailed(consts[idx])), states, pool),
    }
}

/// Folding constant `idx` from the states `states` and the string pool
/// `pool`: the result, the states after it and the pool after it (the
/// strings of the bodies lowered join the pool).
///
/// A folded constant gives its value and changes nothing. A constant being
/// folded is met again only through a reference cycle, which is an error.
/// A pending constant is marked as being folded; the constants named by
/// the words of its body are folded first, in order; then its lowered body
/// is evaluated. Where the evaluator is blocked on a pending constant, that
/// constant is folded and the body lowered and evaluated once more.
pub open spec fn fold_spec<E: ConstEval>(
    e: &E,
    consts: Seq<Seq<char>>,
    defs: Seq<Const>,
    states: Seq<ConstState>,
    pool: Seq<Seq<u8>>,
    idx: int,
) -> (Result<IConst, LowerErrorV>, Seq<ConstState>, Seq<Seq<u8>>)
    decreases pending_count(states), 1nat, 0int,
{
    if idx < 0 || idx >= states.len() || idx >= consts.len() || idx >= defs.len() {
        (Err(LowerErrorV::TooManyLabels), states, pool)
    } else {
        match states[idx] {
            ConstState::Folded(v) => (Ok(v), states, pool),
            ConstState::InProgress => (Err(LowerErrorV::Cycle(consts[idx])), states, pool),
            ConstState::Pending => {
                let marked = states.update(idx, ConstState::InProgress);
                if pending_count(marked) >= pending_count(states) {
                    (Err(LowerErrorV::TooManyLabels), states, pool)
                } else {
                    let (r1, s1, p1) = fold_words_spec(
                        e,
                        consts,
                        defs,
                        marked,
                        pool,
                        block_words(defs[idx].body@),
                        0,
                    );
                    match r1 {
                        Err(err) => (Err(err), s1, p1),
                        Ok(_) => if pending_count(s1) > pending_count(marked) {
                            (Err(LowerErrorV::TooManyLabels), s1, p1)
                        } else {
                            let q1 = body_lowering(consts, defs, s1, p1, idx).pool;
                            match eval_const(e, consts, defs, s1, p1, idx) {
                                None => (Err(LowerErrorV::TooManyLabels), s1, p1),
                                Some(EvalOutcome::Blocked(req)) => match const_index(consts, req) {
                                    Some(j) => if j < s1.len() && s1[j as int] is Pending {
                                        let (r2, s2, p2) = fold_spec(e, consts, defs, s1, q1, j as int);
                                        match r2 {
                                            Err(err) => (Err(err), s2, p2),
                                            Ok(_) => match eval_const(e, consts, defs, s2, p2, idx) {
                                                None => (Err(LowerErrorV::TooManyLabels), s2, p2),
                                                Some(out) => finish_fold(
                                                    consts,
                                                    defs,
                                                    s2,
                                                    body_lowering(consts, defs, s2, p2, idx).pool,
                                                    idx,
                                                    out,
                                                ),
                                            },
                                        }
                                    } else {
                                        (Err(LowerErrorV::Unresolved(req)), s1, q1)
                                    },
                                    None => (Err(LowerErrorV::Unresolved(req)), s1, q1),
                                },
                                Some(out) => finish_fold(consts, defs, s1, q1, idx, out),
                            }
                        },
                    }
                }
            },
        }
    }
}

/// Folding, in order, the pending constants that the words `ws` from `k`
/// on name; a word that names a constant being folded closes a cycle.
pub open spec fn fold_words_spec<E: ConstEval>(
    e: &E,
    consts: Seq<Seq<char>>,
    defs: Seq<Const>,
    states: Seq<ConstState>,
    pool: Seq<Seq<u8>>,
    ws: Seq<Seq<char>>,
    k: int,
) -> (Result<(), LowerErrorV>, Seq<ConstState>, Seq<Seq<u8>>)
    decreases pending_count(states), 2nat, ws.len() - k,
{
    if k < 0 || k >= ws.len() {
        (Ok(()), states, pool)
    } else {
        match const_index(consts, ws[k]) {
            Some(j) => if j >= states.len() {
                fold_words_spec(e, consts, defs, states, pool, ws, k + 1)
            } else {
                match states[j as int] {
                    ConstState::Pending => {
                        let (r, s, p) = fold_spec(e, consts, defs, states, pool, j as int);
                        match r {
                            Err(err) => (Err(err), s, p),
                            Ok(_) => if pending_count(s) > pending_count(states) {
                                (Ok(()), s, p)
                            } else {
                                fold_words_spec(e, consts, defs, s, p, ws, k + 1)
                            },
                        }
                    },
                    ConstState::InProgress => (Err(LowerErrorV::Cycle(ws[k])), states, pool),
                    ConstState::Folded(_) => fold_words_spec(e, consts, defs, states, pool, ws, k + 1),
                }
            },
            None => fold_words_spec(e, consts, defs, states, pool, ws, k + 1),
        }
    }
}

/// Folding the constants from `j` on, in order, stopping at the first error.
pub open spec fn fold_all_spec<E: ConstEval>(
    e: &E,
    consts: Seq<Seq<char>>,
    defs: Seq<Const>,
    states: Seq<ConstState>,
    pool: Seq<Seq<u8>>,
    j: int,
) -> (Result<(), LowerErrorV>, Seq<ConstState>, Seq<Seq<u8>>)
    decreases states.len() - j,
{
    if j < 0 || j >= states.len() {
        (Ok(()), states, pool)
    } else {
        let (r, s, p) = fold_spec(e, consts, defs, states, pool, j);
        match r {
            Err(err) => (Err(err), s, p),
            Ok(_) => if s.len() != states.len() {
                (Ok(()), s, p)
            } else {
                fold_all_spec(e, consts, defs, s, p, j + 1)
            },
        }
    }
}

pub open spec fn scope_view(s: Seq<Option<Vec<char>>>) -> Seq<Option<Seq<char>>> {
    s.map_values(
        |o: Option<Vec<char>>|
            match o {
                Some(v) => Some(v@),
                None => None,
            },
    )
}

pub open spec fn names_view(s: Seq<Vec<char>>) -> Seq<Seq<char>> {
    s.map_values(|v: Vec<char>| v@)
}

/// The number of constants still to fold.
pub open spec fn pending_count(s: Seq<ConstState>) -> nat
    decreases s.len(),
{
    if s.len() == 0 {
        0
    } else {
        pending_count(s.drop_last()) + if s.last() is Pending {
            1nat
        } else {
            0nat
        }
    }
}

/// From `a` to `b` folding has only gone forward: folded values stay, and
/// no constant has gone back to pending.
pub open spec fn advances(a: Seq<ConstState>, b: Seq<ConstState>) -> bool {
    &&& a.len() == b.len()
    &&& forall|j: int|
        0 <= j < a.len() ==> ((a[j] is Folded ==> b[j] == a[j]) && (a[j] is InProgress
            ==> b[j] is InProgress) && (b[j] is Pending ==> a[j] is Pending))
}

proof fn lemma_pending_count_advances(a: Seq<ConstState>, b: Seq<ConstState>)
    requires
        advances(a, b),
    ensures
        pending_count(b) <= pending_count(a),
    decreases a.len(),
{
    if a.len() > 0 {
        assert(advances(a.drop_last(), b.drop_last())) by {
            assert forall|j: int| 0 <= j < a.len() - 1 implies ((a.drop_last()[j] is Folded
                ==> b.drop_last()[j] == a.drop_last()[j]) && (a.drop_last()[j] is InProgress
                ==> b.drop_last()[j] is InProgress) && (b.drop_last()[j] is Pending
                ==> a.drop_last()[j] is Pending)) by {
                assert(a.drop_last()[j] == a[j]);
                assert(b.drop_last()[j] == b[j]);
            }
        }
        lemma_pending_count_advances(a.drop_last(), b.drop_last());
        assert(a.last() == a[a.len() - 1]);
    }
}

proof fn lemma_pending_count_mark(a: Seq<ConstState>, i: int)
    requires
        0 <= i < a.len(),
        a[i] is Pending,
    ensures
        pending_count(a.update(i, ConstState::InProgress)) < pending_count(a),
    decreases a.len(),
{
    let b = a.update(i, ConstState::InProgress);
    if i == a.len() - 1 {
        assert(b.drop_last() =~= a.drop_last());
    } else {
        assert(b.drop_last() =~= a.drop_last().update(i, ConstState::InProgress));
        lemma_pending_count_mark(a.drop_last(), i);
    }
}

/// The context in which a constant's body is lowered: no procedure, no
/// binding.
pub open spec fn const_cx(consts: Seq<Seq<char>>, states: Seq<ConstState>) -> Cx {
    Cx { name: Seq::empty(), scope: Seq::empty(), consts, states }
}

/// The lowering of a constant's body, from a fresh label counter, its
/// strings joining the pool `pool`.
pub open spec fn const_lowering(
    body: Seq<AstNode>,
    consts: Seq<Seq<char>>,
    states: Seq<ConstState>,
    pool: Seq<Seq<u8>>,
) -> Low {
    lower_block(body, const_cx(consts, states), Low { ops: Seq::empty(), label: 0, pool })
}

/// The words of a node, nested blocks included, in order.
pub open spec fn node_words(n: AstNode) -> Seq<Seq<char>>
    decreases n,
{
    match n.ast {
        AstKind::Word(w) => seq![w@],
        AstKind::If(c) => block_words(c.truth@) + match c.lie {
            Some(l) => block_words(l@),
            None => Seq::empty(),
        },
        AstKind::While(w) => block_words(w.cond@) + block_words(w.body@),
        AstKind::Bind(bd) => block_words(bd.body@),
        _ => Seq::empty(),
    }
}

/// The words of a block, nested blocks included, in order.
pub open spec fn block_words(b: Seq<AstNode>) -> Seq<Seq<char>>
    decreases b,
{
    if b.len() == 0 {
        Seq::empty()
    } else {
        node_words(b[0]) + block_words(b.subrange(1, b.len() as int))
    }
}

proof fn lemma_block_words_push(b: Seq<AstNode>, n: AstNode)
    ensures
        block_words(b.push(n)) == block_words(b) + node_words(n),
    decreases b.len(),
{
    let bp = b.push(n);
    if b.len() == 0 {
        assert(bp.subrange(1, bp.len() as int) =~= Seq::<AstNode>::empty());
        assert(bp[0] == n);
        assert(block_words(Seq::<AstNode>::empty()) == Seq::<Seq<char>>::empty());
        assert(block_words(b) == Seq::<Seq<char>>::empty());
        assert(block_words(bp) =~= block_words(b) + node_words(n));
    } else {
        let rest = b.subrange(1, b.len() as int);
        assert(bp.subrange(1, bp.len() as int) =~= rest.push(n));
        lemma_block_words_push(rest, n);
        assert(bp[0] == b[0]);
        assert(block_words(bp) =~= block_words(b) + node_words(n));
    }
}

fn collect_node_words(n: &AstNode, out: &mut Vec<Vec<char>>)
    ensures
        names_view(final(out)@) == names_view(old(out)@) + node_words(*n),
    decreases n, 0nat,
{
    let ghost before = names_view(out@);
    match &n.ast {
        AstKind::Word(w) => {
            let c = slice_chars(w, 0, w.len());
            assert(c@ =~= w@);
            let ghost old_out = out@;
            out.push(c);
            assert(names_view(out@) =~= names_view(old_out).push(c@));
            assert(names_view(out@) =~= before + node_words(*n));
        },
        AstKind::If(c) => {
            collect_words(&c.truth, out);
            if let Some(lie) = &c.lie {
                collect_words(lie, out);
            }
            assert(names_view(out@) =~= before + node_words(*n));
        },
        AstKind::While(w) => {
            collect_words(&w.cond, out);
            collect_words(&w.body, out);
            assert(names_view(out@) =~= before + node_words(*n));
        },
        AstKind::Bind(bd) => {
            collect_words(&bd.body, out);
        },
        _ => {
            assert(names_view(out@) =~= before + node_words(*n));
        },
    }
}

/// Appends every word of `b`, nested blocks included, in order.
fn collect_words(b: &Vec<AstNode>, out: &mut Vec<Vec<char>>)
    ensures
        names_view(final(out)@) == names_view(old(out)@) + block_words(b@),
    decreases b, 1nat,
{
    let ghost before = names_view(out@);
    let mut i: usize = 0;
    assert(b@.subrange(0, 0) =~= Seq::<AstNode>::empty());
    assert(before + block_words(b@.subrange(0, 0)) =~= before);
    while i < b.len()
        invariant
            i <= b@.len(),
            names_view(out@) == before + block_words(b@.subrange(0, i as int)),
        decreases b@.len() - i,
    {
        collect_node_words(&b[i], out);
        proof {
            assert(b@.subrange(0, i + 1) =~= b@.subrange(0, i as int).push(b@[i as int]));
            lemma_block_words_push(b@.subrange(0, i as int), b@[i as int]);
        }
        i = i + 1;
    }
    assert(b@.subrange(0, b@.len() as int) =~= b@);
}

/// A program item handed to lowering: its name, the item, its range of
/// source text, and whether it is reachable from `main`.
pub type LowerItem = (Vec<char>, TopLevel, Span, bool);

/// The reachable procedures, in order.
pub open spec fn needed_procs(items: Seq<LowerItem>) -> Seq<(Vec<char>, Proc)>
    decreases items.len(),
{
    if items.len() == 0 {
        Seq::empty()
    } else {
        let it = items.last();
        needed_procs(items.drop_last()) + match it.1 {
            TopLevel::Proc(p) => if it.3 {
                seq![(it.0, p)]
            } else {
                Seq::empty()
            },
            TopLevel::Const(_) => Seq::empty(),
        }
    }
}

/// The reachable constants, in order.
pub open spec fn needed_consts(items: Seq<LowerItem>) -> Seq<(Vec<char>, Const)>
    decreases items.len(),
{
    if items.len() == 0 {
        Seq::empty()
    } else {
        let it = items.last();
        needed_consts(items.drop_last()) + match it.1 {
            TopLevel::Const(c) => if it.3 {
                seq![(it.0, c)]
            } else {
                Seq::empty()
            },
            TopLevel::Proc(_) => Seq::empty(),
        }
    }
}

/// The lowering of a procedure: its entry, its body from label 0, and
/// `return`.
pub open spec fn lower_proc(
    name: Seq<char>,
    body: Seq<AstNode>,
    consts: Seq<Seq<char>>,
    states: Seq<ConstState>,
    st: Low,
) -> Low {
    let cx = Cx { name, scope: Seq::empty(), consts, states };
    emit(lower_block(body, cx, Low { label: 0, ..emit(st, OpV::Proc(name)) }), OpV::Return)
}

/// The lowering of the procedures `procs`, one after the other.
pub open spec fn lower_procs(
    procs: Seq<(Vec<char>, Proc)>,
    consts: Seq<Seq<char>>,
    states: Seq<ConstState>,
    st: Low,
) -> Low
    decreases procs.len(),
{
    if procs.len() == 0 {
        st
    } else {
        let p = procs.last();
        lower_proc(p.0@, p.1.body@, consts, states, lower_procs(procs.drop_last(), consts, states, st))
    }
}

/// The names of the reachable constants, in order.
pub open spec fn const_names_of(items: Seq<LowerItem>) -> Seq<Seq<char>> {
    needed_consts(items).map_values(|c: (Vec<char>, Const)| c.0@)
}

/// The definitions of the reachable constants, in order.
pub open spec fn const_defs_of(items: Seq<LowerItem>) -> Seq<Const> {
    needed_consts(items).map_values(|c: (Vec<char>, Const)| c.1)
}

/// Folding every reachable constant of a program, in order, from all of
/// them pending and an empty string pool.
pub open spec fn program_folding<E: ConstEval>(e: &E, items: Seq<LowerItem>) -> (
    Result<(), LowerErrorV>,
    Seq<ConstState>,
    Seq<Seq<u8>>,
) {
    fold_all_spec(
        e,
        const_names_of(items),
        const_defs_of(items),
        Seq::new(needed_consts(items).len(), |i: int| ConstState::Pending),
        Seq::empty(),
        0,
    )
}

/// Every reachable procedure, lowered with the constant states `states`,
/// needs no more labels than a counter can number.
pub open spec fn labels_fit(items: Seq<LowerItem>, states: Seq<ConstState>) -> bool {
    forall|k: int|
        0 <= k < needed_procs(items).len() ==> lower_proc(
            (#[trigger] needed_procs(items)[k]).0@,
            needed_procs(items)[k].1.body@,
            const_names_of(items),
            states,
            Low { ops: Seq::empty(), label: 0, pool: Seq::empty() },
        ).label <= usize::MAX
}

/// The lowering of a program once its reachable constants have the states
/// `states`: a call of `main`, `exit`, then each reachable procedure.
pub open spec fn program_lowering(
    items: Seq<LowerItem>,
    states: Seq<ConstState>,
    pool: Seq<Seq<u8>>,
) -> Low {
    lower_procs(
        needed_procs(items),
        needed_consts(items).map_values(|c: (Vec<char>, Const)| c.0@),
        states,
        Low { ops: seq![OpV::Call("main"@), OpV::Exit], label: 0, pool },
    )
}

/// The state of lowering: the label counter and the name of the procedure
/// being lowered, the instructions so far, the string pool, the names bound
/// by the enclosing `bind` blocks and the reachable constants.
pub struct Compiler {
    label: usize,
    current_name: Vec<char>,
    result: Vec<Op>,
    strings: Vec<Vec<u8>>,
    scope: Vec<Option<Vec<char>>>,
    const_names: Vec<Vec<char>>,
    const_defs: Vec<Const>,
    states: Vec<ConstState>,
}

fn same_chars(a: &Vec<char>, b: &Vec<char>) -> (r: bool)
    ensures
        r == (a@ == b@),
{
    if a.len() != b.len() {
        return false;
    }
    let mut i: usize = 0;
    while i < a.len()
        invariant
            a@.len() == b@.len(),
            i <= a@.len(),
            forall|k: int| 0 <= k < i ==> a@[k] == b@[k],
        decreases a@.len() - i,
    {
        if a[i] != b[i] {
            return false;
        }
        i = i + 1;
    }
    assert(a@ =~= b@);
    true
}

fn copy_bytes(v: &Vec<u8>) -> (r: Vec<u8>)
    ensures
        r@ == v@,
{
    let mut r: Vec<u8> = Vec::new();
    let mut i: usize = 0;
    while i < v.len()
        invariant
            i <= v@.len(),
            r@ == v@.subrange(0, i as int),
        decreases v@.len() - i,
    {
        r.push(v[i]);
        i = i + 1;
        assert(r@ =~= v@.subrange(0, i as int));
    }
    assert(r@ =~= v@);
    r
}

fn copy_pool(p: &Vec<Vec<u8>>) -> (r: Vec<Vec<u8>>)
    ensures
        pool_view(r@) == pool_view(p@),
{
    let mut r: Vec<Vec<u8>> = Vec::new();
    let mut i: usize = 0;
    while i < p.len()
        invariant
            i <= p@.len(),
            r@.len() == i,
            pool_view(r@) == pool_view(p@.subrange(0, i as int)),
        decreases p@.len() - i,
    {
        let ghost before = r@;
        let c = copy_bytes(&p[i]);
        r.push(c);
        assert(r@ == before.push(c));
        proof {
            assert forall|k: int| 0 <= k < i + 1 implies pool_view(r@)[k] == pool_view(
                p@.subrange(0, i + 1),
            )[k] by {
                if k < i {
                    assert(r@[k] == before[k]);
                    assert(pool_view(before)[k] == pool_view(p@.subrange(0, i as int))[k]);
                }
            }
        }
        i = i + 1;
        assert(pool_view(r@) =~= pool_view(p@.subrange(0, i as int)));
    }
    assert(p@.subrange(0, p@.len() as int) =~= p@);
    r
}

fn intrinsic_instr(i: Intrinsic) -> (r: Option<Op>)
    ensures
        match r {
            Some(op) => intrinsic_op(i) == Some(op@),
            None => intrinsic_op(i) is None,
        },
{
    match i {
        Intrinsic::Drop => Some(Op::Drop),
        Intrinsic::Dup => Some(Op::Dup),
        Intrinsic::Swap => Some(Op::Swap),
        Intrinsic::Over => Some(Op::Over),
        Intrinsic::CompStop => None,
        Intrinsic::Dump => Some(Op::Dump),
        Intrinsic::Print => Some(Op::Print),
        Intrinsic::PutC => Some(Op::PutC),
        Intrinsic::Add => Some(Op::Add),
        Intrinsic::Sub => Some(Op::Sub),
        Intrinsic::Divmod => Some(Op::Divmod),
        Intrinsic::Mul => Some(Op::Mul),
        Intrinsic::Eq => Some(Op::Eq),
        Intrinsic::Ne => Some(Op::Ne),
        Intrinsic::Lt => Some(Op::Lt),
        Intrinsic::Le => Some(Op::Le),
        Intrinsic::Gt => Some(Op::Gt),
        Intrinsic::Ge => Some(Op::Ge),
        Intrinsic::ReadU8 => Some(Op::ReadU8),
        Intrinsic::WriteU8 => Some(Op::WriteU8),
        Intrinsic::ReadU64 => Some(Op::ReadU64),
        Intrinsic::WriteU64 => Some(Op::WriteU64),
        Intrinsic::PtrAdd => Some(Op::Add),
        Intrinsic::PtrSub => Some(Op::Sub),
    }
}

impl Compiler {
    pub closed spec fn cx(&self) -> Cx {
        Cx {
            name: self.current_name@,
            scope: scope_view(self.scope@),
            consts: names_view(self.const_names@),
            states: self.states@,
        }
    }

    pub closed spec fn low(&self) -> Low {
        Low { ops: ops_view(self.result@), label: self.label as nat, pool: pool_view(self.strings@) }
    }

    pub closed spec fn defs(&self) -> Seq<Const> {
        self.const_defs@
    }

    fn emit(&mut self, op: Op)
        ensures
            final(self).low() == emit(old(self).low(), op@),
            final(self).cx() == old(self).cx(),
            final(self).defs() == old(self).defs(),
    {
        let ghost before = self.result@;
        self.result.push(op);
        assert(ops_view(self.result@) =~= ops_view(before).push(op@));
    }

    fn gen_label(&mut self) -> (r: Result<Vec<char>, LowerError>)
        ensures
            final(self).cx() == old(self).cx(),
            final(self).defs() == old(self).defs(),
            match r {
                Ok(l) => l@ == label_name(old(self).cx().name, old(self).low().label)
                    && final(self).low() == next_label(old(self).low()),
                Err(e) => e is TooManyLabels && old(self).low().label == usize::MAX
                    && final(self).low() == old(self).low(),
            },
    {
        if self.label == usize::MAX {
            return Err(LowerError::TooManyLabels);
        }
        let mut l: Vec<char> = Vec::new();
        l.push('.');
        put_chars(&mut l, &self.current_name);
        l.push('~');
        put_decimal(&mut l, self.label as u64);
        assert(l@ =~= label_name(self.current_name@, self.label as nat));
        self.label = self.label + 1;
        Ok(l)
    }

    fn compile_if(&mut self, n: &AstNode) -> (r: Result<(), LowerError>)
        requires
            n.ast is If,
        ensures
            final(self).cx() == old(self).cx(),
            final(self).defs() == old(self).defs(),
            match r {
                Ok(()) => final(self).low() == lower_node(*n, old(self).cx(), old(self).low()),
                Err(e) => e is TooManyLabels && lower_node(*n, old(self).cx(), old(self).low()).label
                    > usize::MAX,
            },
        decreases n, 0nat,
    {
        let ghost cx = self.cx();
        let ghost st = self.low();
        let c = match &n.ast {
            AstKind::If(c) => c,
            _ => {
                return Ok(());
            },
        };
        let ghost l0v = label_name(cx.name, st.label);
        let ghost s0 = emit(next_label(st), OpV::JumpF(l0v));
        proof {
            lemma_lower_block_label(c.truth@, cx, s0);
        }
        let ghost s1 = lower_block(c.truth@, cx, s0);
        proof {
            if let Some(lie) = &c.lie {
                let l1 = label_name(cx.name, s1.label);
                let s2 = emit(emit(next_label(s1), OpV::Jump(l1)), OpV::Label(l0v));
                lemma_lower_block_label(lie@, cx, s2);
            }
        }
        let l0 = self.gen_label()?;
        let l0c = slice_chars(&l0, 0, l0.len());
        assert(l0c@ =~= l0@);
        self.emit(Op::JumpF(l0c));
        self.compile_body(&c.truth)?;
        match &c.lie {
            None => {
                self.emit(Op::Label(l0));
                Ok(())
            },
            Some(lie) => {
                let l1 = self.gen_label()?;
                let l1c = slice_chars(&l1, 0, l1.len());
                assert(l1c@ =~= l1@);
                self.emit(Op::Jump(l1c));
                self.emit(Op::Label(l0));
                self.compile_body(lie)?;
                self.emit(Op::Label(l1));
                Ok(())
            },
        }
    }

    fn compile_while(&mut self, n: &AstNode) -> (r: Result<(), LowerError>)
        requires
            n.ast is While,
        ensures
            final(self).cx() == old(self).cx(),
            final(self).defs() == old(self).defs(),
            match r {
                Ok(()) => final(self).low() == lower_node(*n, old(self).cx(), old(self).low()),
                Err(e) => e is TooManyLabels && lower_node(*n, old(self).cx(), old(self).low()).label
                    > usize::MAX,
            },
        decreases n, 0nat,
    {
        let ghost cx = self.cx();
        let ghost st = self.low();
        let w = match &n.ast {
            AstKind::While(w) => w,
            _ => {
                return Ok(());
            },
        };
        let ghost l0v = label_name(cx.name, st.label);
        let ghost l1v = label_name(cx.name, st.label + 1);
        let ghost s0 = emit(next_label(next_label(st)), OpV::Label(l0v));
        proof {
            lemma_lower_block_label(w.cond@, cx, s0);
            let s1 = emit(lower_block(w.cond@, cx, s0), OpV::JumpF(l1v));
            lemma_lower_block_label(w.body@, cx, s1);
        }
        let l0 = self.gen_label()?;
        let l1 = self.gen_label()?;
        let l0c = slice_chars(&l0, 0, l0.len());
        let l1c = slice_chars(&l1, 0, l1.len());
        assert(l0c@ =~= l0@);
        assert(l1c@ =~= l1@);
        self.emit(Op::Label(l0c));
        self.compile_body(&w.cond)?;
        self.emit(Op::JumpF(l1c));
        self.compile_body(&w.body)?;
        self.emit(Op::Jump(l0));
        self.emit(Op::Label(l1));
        Ok(())
    }

    fn compile_bind(&mut self, n: &AstNode) -> (r: Result<(), LowerError>)
        requires
            n.ast is Bind,
        ensures
            final(self).cx() == old(self).cx(),
            final(self).defs() == old(self).defs(),
            match r {
                Ok(()) => final(self).low() == lower_node(*n, old(self).cx(), old(self).low()),
                Err(e) => e is TooManyLabels && lower_node(*n, old(self).cx(), old(self).low()).label
                    > usize::MAX,
            },
        decreases n, 0nat,
    {
        let ghost cx = self.cx();
        let ghost st = self.low();
        let b = match &n.ast {
            AstKind::Bind(b) => b,
            _ => {
                return Ok(());
            },
        };
        let k = b.bindings.len();
        let mut i: usize = 0;
        while i < k
            invariant
                k == b.bindings@.len(),
                i <= k,
                self.cx() == cx,
                self.defs() == old(self).defs(),
                self.low() == emit_n(st, OpV::Bind, i as nat),
            decreases k - i,
        {
            self.emit(Op::Bind);
            i = i + 1;
        }
        let ghost s0 = self.low();
        let ghost inner = Cx { scope: bind_scope(cx.scope, b.bindings@), ..cx };
        let old_len = self.scope.len();
        let mut j = k;
        assert(b.bindings@.subrange(k as int, k as int) =~= Seq::<Binding>::empty());
        while j > 0
            invariant
                k == b.bindings@.len(),
                j <= k,
                old_len == cx.scope.len(),
                self.low() == s0,
                self.defs() == old(self).defs(),
                self.cx() == (Cx { scope: bind_scope(cx.scope, b.bindings@.subrange(j as int, k as int)), ..cx }),
            decreases j,
        {
            let name = match &b.bindings[j - 1] {
                Binding::Ignore => None,
                Binding::Bind { name, .. } => {
                    let c = slice_chars(name, 0, name.len());
                    assert(c@ =~= name@);
                    Some(c)
                },
            };
            let ghost before = self.scope@;
            self.scope.push(name);
            proof {
                let sub = b.bindings@.subrange(j - 1, k as int);
                assert(sub.drop_first() =~= b.bindings@.subrange(j as int, k as int));
                assert(scope_view(self.scope@) =~= scope_view(before).push(binding_name(sub[0])));
            }
            j = j - 1;
        }
        assert(b.bindings@.subrange(0, k as int) =~= b.bindings@);
        assert(self.cx() == inner);
        proof {
            lemma_lower_block_label(b.body@, inner, s0);
            lemma_emit_n(lower_block(b.body@, inner, s0), OpV::Unbind, k as nat);
            lemma_bind_scope_prefix(cx.scope, b.bindings@);
        }
        let r = self.compile_body(&b.body);
        self.scope.truncate(old_len);
        assert(scope_view(self.scope@) =~= bind_scope(cx.scope, b.bindings@).subrange(
            0,
            old_len as int,
        ));
        if r.is_err() {
            return r;
        }
        let ghost s1 = self.low();
        let mut u: usize = 0;
        while u < k
            invariant
                u <= k,
                self.cx() == cx,
                self.defs() == old(self).defs(),
                self.low() == emit_n(s1, OpV::Unbind, u as nat),
            decreases k - u,
        {
            self.emit(Op::Unbind);
            u = u + 1;
        }
        Ok(())
    }

    fn compile_node(&mut self, n: &AstNode) -> (r: Result<(), LowerError>)
        ensures
            final(self).cx() == old(self).cx(),
            final(self).defs() == old(self).defs(),
            match r {
                Ok(()) => final(self).low() == lower_node(*n, old(self).cx(), old(self).low()),
                Err(e) => e is TooManyLabels && lower_node(*n, old(self).cx(), old(self).low()).label
                    > usize::MAX,
            },
        decreases n, 1nat,
    {
        match &n.ast {
            AstKind::Literal(c) => {
                self.emit(Op::Push(*c));
                Ok(())
            },
            AstKind::Str(bytes) => {
                let i = self.strings.len();
                let ghost before = self.strings@;
                self.strings.push(copy_bytes(bytes));
                assert(pool_view(self.strings@) =~= pool_view(before).push(bytes@));
                self.emit(Op::PushStr(i));
                Ok(())
            },
            AstKind::Word(w) => {
                let op = self.word_instr(w);
                self.emit(op);
                Ok(())
            },
            AstKind::Intrinsic(i) => {
                match intrinsic_instr(*i) {
                    Some(op) => self.emit(op),
                    None => {},
                }
                Ok(())
            },
            AstKind::If(_) => self.compile_if(n),
            AstKind::While(_) => self.compile_while(n),
            AstKind::Bind(_) => self.compile_bind(n),
        }
    }

    /// Lowers a block, node after node, up to its end or to a debugging
    /// stop.
    fn compile_body(&mut self, b: &Vec<AstNode>) -> (r: Result<(), LowerError>)
        ensures
            final(self).cx() == old(self).cx(),
            final(self).defs() == old(self).defs(),
            match r {
                Ok(()) => final(self).low() == lower_block(b@, old(self).cx(), old(self).low()),
                Err(e) => e is TooManyLabels && lower_block(b@, old(self).cx(), old(self).low()).label
                    > usize::MAX,
            },
        decreases b, 2nat,
    {
        let ghost cx = self.cx();
        let mut i: usize = 0;
        assert(b@.subrange(0, b@.len() as int) =~= b@);
        while i < b.len()
            invariant
                i <= b@.len(),
                cx == old(self).cx(),
                self.cx() == cx,
                self.defs() == old(self).defs(),
                lower_block(b@, cx, old(self).low()) == lower_block(
                    b@.subrange(i as int, b@.len() as int),
                    cx,
                    self.low(),
                ),
            decreases b@.len() - i,
        {
            let ghost rest = b@.subrange(i as int, b@.len() as int);
            assert(rest[0] == b@[i as int]);
            if let AstKind::Intrinsic(Intrinsic::CompStop) = &b[i].ast {
                return Ok(());
            }
            let ghost st = self.low();
            assert(rest.subrange(1, rest.len() as int) =~= b@.subrange(i + 1, b@.len() as int));
            let r = self.compile_node(&b[i]);
            if r.is_err() {
                proof {
                    lemma_lower_block_label(
                        b@.subrange(i + 1, b@.len() as int),
                        cx,
                        lower_node(b@[i as int], cx, st),
                    );
                }
                return r;
            }
            i = i + 1;
        }
        assert(b@.subrange(i as int, b@.len() as int) =~= Seq::<AstNode>::empty());
        Ok(())
    }

    /// The tables of constants agree in length.
    pub closed spec fn wf(&self) -> bool {
        &&& self.const_names@.len() == self.const_defs@.len()
        &&& self.const_defs@.len() == self.states@.len()
    }

    pub closed spec fn states(&self) -> Seq<ConstState> {
        self.states@
    }

    /// The index of the first constant named `w`.
    fn const_position(&self, w: &Vec<char>) -> (r: Option<usize>)
        ensures
            match r {
                Some(i) => const_index(self.cx().consts, w@) == Some(i as nat) && i
                    < self.const_names@.len(),
                None => const_index(self.cx().consts, w@) is None,
            },
    {
        let ghost cv = names_view(self.const_names@);
        let mut i: usize = 0;
        while i < self.const_names.len()
            invariant
                i <= self.const_names@.len(),
                cv == names_view(self.const_names@),
                const_index(cv.subrange(0, i as int), w@) is None,
            decreases self.const_names@.len() - i,
        {
            let ghost pre = cv.subrange(0, i + 1);
            assert(pre.drop_last() =~= cv.subrange(0, i as int));
            assert(pre.last() == self.const_names@[i as int]@);
            if same_chars(&self.const_names[i], w) {
                proof {
                    assert(const_index(pre, w@) == Some(i as nat));
                    lemma_const_index_prefix(cv, i + 1, w@);
                }
                return Some(i);
            }
            i = i + 1;
        }
        assert(cv.subrange(0, cv.len() as int) =~= cv);
        None
    }

    /// Lowers the body of constant `idx` apart from the rest of the state,
    /// and appends `exit`.
    fn lower_const_body(&mut self, idx: usize) -> (r: Result<Vec<Op>, LowerError>)
        requires
            old(self).wf(),
            idx < old(self).states().len(),
        ensures
            final(self).wf(),
            final(self).cx() == old(self).cx(),
            final(self).low().ops == old(self).low().ops,
            final(self).low().label == old(self).low().label,
            final(self).defs() == old(self).defs(),
            final(self).states() == old(self).states(),
            ({
                let l = body_lowering(
                    old(self).cx().consts,
                    old(self).defs(),
                    old(self).states(),
                    old(self).low().pool,
                    idx as int,
                );
                match r {
                    Ok(ops) => ops_view(ops@) == l.ops.push(OpV::Exit) && final(self).low().pool
                        == l.pool && l.label <= usize::MAX,
                    Err(e) => e is TooManyLabels && l.label > usize::MAX && final(self).low().pool
                        == old(self).low().pool,
                }
            }),
    {
        let mut result: Vec<Op> = Vec::new();
        let mut scope: Vec<Option<Vec<char>>> = Vec::new();
        let mut name: Vec<char> = Vec::new();
        let mut defs: Vec<Const> = Vec::new();
        std::mem::swap(&mut self.result, &mut result);
        std::mem::swap(&mut self.scope, &mut scope);
        std::mem::swap(&mut self.current_name, &mut name);
        std::mem::swap(&mut self.const_defs, &mut defs);
        let label = self.label;
        self.label = 0;
        assert(scope_view(self.scope@) =~= Seq::<Option<Seq<char>>>::empty());
        assert(ops_view(self.result@) =~= Seq::<OpV>::empty());
        assert(self.cx() == const_cx(old(self).cx().consts, old(self).states()));
        let saved = copy_pool(&self.strings);
        let r = self.compile_body(&defs[idx].body);
        if r.is_err() {
            self.strings = saved;
        }
        std::mem::swap(&mut self.const_defs, &mut defs);
        std::mem::swap(&mut self.result, &mut result);
        std::mem::swap(&mut self.scope, &mut scope);
        std::mem::swap(&mut self.current_name, &mut name);
        self.label = label;
        assert(names_view(self.const_names@).len() == self.const_names@.len());
        assert(names_view(old(self).const_names@).len() == old(self).const_names@.len());
        assert(self.wf());
        match r {
            Err(e) => Err(e),
            Ok(()) => {
                let ghost before = result@;
                result.push(Op::Exit);
                assert(ops_view(result@) =~= ops_view(before).push(OpV::Exit));
                Ok(result)
            },
        }
    }

    /// Folds constant `idx` to its value, folding first the constants that
    /// its body names; a constant that is folded already gives its value
    /// again and changes nothing. The result and the constant states after
    /// it are exactly `fold_spec`'s: success, each error and the value are
    /// fixed by the evaluator's outcomes on the lowered bodies, so two folds
    /// from equal states give equal results.
    pub fn compile_const<E: ConstEval>(&mut self, idx: usize, e: &E) -> (r: Result<IConst, LowerError>)
        requires
            old(self).wf(),
            idx < old(self).states().len(),
        ensures
            ({
                let f = fold_spec(
                    e,
                    old(self).cx().consts,
                    old(self).defs(),
                    old(self).states(),
                    old(self).low().pool,
                    idx as int,
                );
                &&& const_result_view(r) == f.0
                &&& final(self).states() == f.1
                &&& final(self).low().pool == f.2
            }),
            r matches Err(LowerError::Cycle(n)) ==> exists|j: int|
                0 <= j < final(self).states().len() && old(self).cx().consts[j] == n@
                    && #[trigger] final(self).states()[j] is InProgress,
            final(self).wf(),
            final(self).low().ops == old(self).low().ops,
            final(self).low().label == old(self).low().label,
            final(self).defs() == old(self).defs(),
            final(self).cx() == (Cx { states: final(self).states(), ..old(self).cx() }),
            advances(old(self).states(), final(self).states()),
            old(self).states()[idx as int] matches ConstState::Folded(v) ==> r == Ok::<IConst, LowerError>(v)
                && final(self).states() == old(self).states(),
            old(self).states()[idx as int] is InProgress ==> r matches Err(LowerError::Cycle(_)),
            r matches Ok(v) ==> final(self).states()[idx as int] == ConstState::Folded(v),
        decreases pending_count(old(self).states()), 1nat,
    {
        match self.states[idx] {
            ConstState::Folded(v) => {
                return Ok(v);
            },
            ConstState::InProgress => {
                let n = slice_chars(&self.const_names[idx], 0, self.const_names[idx].len());
                assert(n@ =~= self.cx().consts[idx as int]);
                assert(self.states@[idx as int] is InProgress);
                return Err(LowerError::Cycle(n));
            },
            ConstState::Pending => {},
        }
        proof {
            lemma_pending_count_mark(self.states@, idx as int);
        }
        let ghost consts = self.cx().consts;
        let ghost defs = self.defs();
        let ghost start = self.states@;
        self.states.set(idx, ConstState::InProgress);
        let ghost marked = self.states@;
        let mut words: Vec<Vec<char>> = Vec::new();
        collect_words(&self.const_defs[idx].body, &mut words);
        let ghost body_words = block_words(defs[idx as int].body@);
        assert(names_view(words@) =~= body_words);
        assert(consts.len() == self.const_names@.len());
        match self.fold_words(&words, e) {
            Ok(()) => {},
            Err(err) => {
                return Err(err);
            },
        }
        let ghost after_words = self.states@;
        proof {
            lemma_pending_count_advances(marked, after_words);
        }
        let ghost p1 = self.low().pool;
        let ops = match self.lower_const_body(idx) {
            Ok(x) => x,
            Err(err) => {
                return Err(err);
            },
        };
        let mut res = e.eval(&ops, &self.strings);
        assert(eval_const(e, consts, defs, after_words, p1, idx as int) == Some(res@));
        if let EvalResult::Blocked(req) = &res {
            let pos = self.const_position(req);
            let again = match pos {
                Some(j) => match self.states[j] {
                    ConstState::Pending => true,
                    _ => false,
                },
                None => false,
            };
            if !again {
                let n = slice_chars(req, 0, req.len());
                assert(n@ =~= req@);
                return Err(LowerError::Unresolved(n));
            }
            let j = match pos {
                Some(j) => j,
                None => {
                    return Err(LowerError::TooManyLabels);
                },
            };
            match self.compile_const(j, e) {
                Ok(_) => {},
                Err(err) => {
                    return Err(err);
                },
            }
            let ghost after_dep = self.states@;
            let ghost p2 = self.low().pool;
            let ops2 = match self.lower_const_body(idx) {
                Ok(x) => x,
                Err(err) => {
                    return Err(err);
                },
            };
            res = e.eval(&ops2, &self.strings);
            assert(eval_const(e, consts, defs, after_dep, p2, idx as int) == Some(res@));
        }
        let ghost at_eval = self.states@;
        let ty = self.const_defs[idx].ty;
        match res {
            EvalResult::Value(w) => {
                let v = IConst::from_ty_bytes(ty, w);
                self.states.set(idx, ConstState::Folded(v));
                assert(self.states@.update(idx as int, ConstState::InProgress) =~= at_eval);
                Ok(v)
            },
            EvalResult::Blocked(req) => Err(LowerError::Unresolved(req)),
            EvalResult::Failed => {
                let n = slice_chars(&self.const_names[idx], 0, self.const_names[idx].len());
                assert(n@ =~= consts[idx as int]);
                Err(LowerError::EvalFailed(n))
            },
        }
    }

    /// Folds every constant that a word of `words` names and that is still
    /// pending; a word that names a constant being folded is a cycle.
    fn fold_words<E: ConstEval>(&mut self, words: &Vec<Vec<char>>, e: &E) -> (r: Result<(), LowerError>)
        requires
            old(self).wf(),
        ensures
            ({
                let f = fold_words_spec(
                    e,
                    old(self).cx().consts,
                    old(self).defs(),
                    old(self).states(),
                    old(self).low().pool,
                    names_view(words@),
                    0,
                );
                &&& unit_result_view(r) == f.0
                &&& final(self).states() == f.1
                &&& final(self).low().pool == f.2
            }),
            r matches Err(LowerError::Cycle(n)) ==> exists|j: int|
                0 <= j < final(self).states().len() && old(self).cx().consts[j] == n@
                    && #[trigger] final(self).states()[j] is InProgress,
            final(self).wf(),
            final(self).low().ops == old(self).low().ops,
            final(self).low().label == old(self).low().label,
            final(self).defs() == old(self).defs(),
            final(self).cx() == (Cx { states: final(self).states(), ..old(self).cx() }),
            advances(old(self).states(), final(self).states()),
        decreases pending_count(old(self).states()), 2nat,
    {
        let ghost wv = names_view(words@);
        let ghost consts = old(self).cx().consts;
        let ghost defs = old(self).defs();
        let mut k: usize = 0;
        while k < words.len()
            invariant
                k <= words@.len(),
                wv == names_view(words@),
                consts == old(self).cx().consts,
                defs == old(self).defs(),
                self.wf(),
                self.low().ops == old(self).low().ops,
                self.low().label == old(self).low().label,
                self.defs() == old(self).defs(),
                self.cx() == (Cx { states: self.states(), ..old(self).cx() }),
                advances(old(self).states(), self.states()),
                fold_words_spec(e, consts, defs, old(self).states(), old(self).low().pool, wv, 0)
                    == fold_words_spec(e, consts, defs, self.states(), self.low().pool, wv, k as int),
            decreases words@.len() - k,
        {
            let ghost before = self.states@;
            assert(wv[k as int] == words@[k as int]@);
            if let Some(j) = self.const_position(&words[k]) {
                match self.states[j] {
                    ConstState::Pending => {
                        proof {
                            lemma_pending_count_advances(old(self).states(), self.states@);
                        }
                        match self.compile_const(j, e) {
                            Ok(_) => {},
                            Err(err) => {
                                return Err(err);
                            },
                        }
                        proof {
                            lemma_pending_count_advances(before, self.states@);
                        }
                    },
                    ConstState::InProgress => {
                        let n = slice_chars(&words[k], 0, words[k].len());
                        proof {
                            lemma_const_index_found(consts, wv[k as int]);
                            assert(n@ =~= consts[j as int]);
                            assert(n@ =~= wv[k as int]);
                            assert(self.states@[j as int] is InProgress);
                        }
                        return Err(LowerError::Cycle(n));
                    },
                    ConstState::Folded(_) => {},
                }
            }
            k = k + 1;
        }
        assert(wv.subrange(0, wv.len() as int) =~= wv);
        Ok(())
    }

    /// A compiler with nothing lowered yet.
    pub closed spec fn is_new(&self) -> bool {
        &&& self.label == 0
        &&& self.current_name@.len() == 0
        &&& self.result@.len() == 0
        &&& self.strings@.len() == 0
        &&& self.scope@.len() == 0
        &&& self.const_names@.len() == 0
        &&& self.const_defs@.len() == 0
        &&& self.states@.len() == 0
    }

    pub fn new() -> (r: Self)
        ensures
            r.is_new(),
    {
        Compiler {
            label: 0,
            current_name: Vec::new(),
            result: Vec::new(),
            strings: Vec::new(),
            scope: Vec::new(),
            const_names: Vec::new(),
            const_defs: Vec::new(),
            states: Vec::new(),
        }
    }

    /// A compiler that holds the constants `consts` (names and definitions),
    /// all pending, and nothing lowered yet.
    pub fn with_consts(consts: Vec<(Vec<char>, Const)>) -> (r: Self)
        ensures
            r.wf(),
            r.cx().consts == consts@.map_values(|c: (Vec<char>, Const)| c.0@),
            r.defs() == consts@.map_values(|c: (Vec<char>, Const)| c.1),
            r.states() == Seq::new(consts@.len(), |i: int| ConstState::Pending),
            r.low() == (Low { ops: Seq::empty(), label: 0, pool: Seq::empty() }),
            r.cx().name.len() == 0,
            r.cx().scope.len() == 0,
    {
        let ghost cv = consts@;
        assert(consts.len() == cv.len());
        let mut consts = consts;
        let mut rev: Vec<(Vec<char>, Const)> = Vec::new();
        while consts.len() > 0
            invariant
                cv.len() <= usize::MAX,
                consts@.len() + rev@.len() == cv.len(),
                consts@ == cv.subrange(0, consts@.len() as int),
                forall|k: int| 0 <= k < rev@.len() ==> #[trigger] rev@[k] == cv[cv.len() - 1 - k],
            decreases consts@.len(),
        {
            let c = consts.pop().unwrap();
            rev.push(c);
        }
        let mut r = Compiler::new();
        let mut i: usize = 0;
        while rev.len() > 0
            invariant
                cv.len() <= usize::MAX,
                i + rev@.len() == cv.len(),
                forall|k: int| 0 <= k < rev@.len() ==> #[trigger] rev@[k] == cv[cv.len() - 1 - k],
                r.const_names@.len() == i,
                r.const_defs@.len() == i,
                r.states@.len() == i,
                forall|k: int| 0 <= k < i ==> (#[trigger] r.const_names@[k])@ == cv[k].0@
                    && r.const_defs@[k] == cv[k].1 && r.states@[k] == ConstState::Pending,
                r.label == 0,
                r.current_name@.len() == 0,
                r.result@.len() == 0,
                r.strings@.len() == 0,
                r.scope@.len() == 0,
            decreases rev@.len(),
        {
            let (name, c) = rev.pop().unwrap();
            r.const_names.push(name);
            r.const_defs.push(c);
            r.states.push(ConstState::Pending);
            proof {
                assert forall|k: int| 0 <= k < i + 1 implies (#[trigger] r.const_names@[k])@
                    == cv[k].0@ && r.const_defs@[k] == cv[k].1 && r.states@[k]
                    == ConstState::Pending by {
                    if k < i {
                        assert(r.const_names@[k] == r.const_names@.drop_last()[k]);
                    }
                }
            }
            i = i + 1;
        }
        assert forall|k: int| 0 <= k < i implies r.const_defs@[k] == cv[k].1 && r.states@[k]
            == ConstState::Pending by {
            assert((r.const_names@[k])@ == cv[k].0@);
        }
        assert(r.cx().consts =~= cv.map_values(|c: (Vec<char>, Const)| c.0@));
        assert(r.defs() =~= cv.map_values(|c: (Vec<char>, Const)| c.1));
        assert(r.states() =~= Seq::new(cv.len(), |i: int| ConstState::Pending));
        assert(r.low().ops =~= Seq::<OpV>::empty());
        assert(r.low().pool =~= Seq::<Seq<u8>>::empty());
        r
    }

    /// Lowers one procedure: its entry, its body with the label counter
    /// reset, and `return`.
    fn compile_proc(&mut self, name: &Vec<char>, body: &Vec<AstNode>) -> (r: Result<(), LowerError>)
        requires
            old(self).cx().scope.len() == 0,
        ensures
            final(self).cx() == (Cx { name: name@, ..old(self).cx() }),
            final(self).defs() == old(self).defs(),
            r is Ok ==> final(self).low() == lower_proc(
                name@,
                body@,
                old(self).cx().consts,
                old(self).cx().states,
                old(self).low(),
            ),
            r is Err ==> lower_proc(
                name@,
                body@,
                old(self).cx().consts,
                old(self).cx().states,
                old(self).low(),
            ).label > usize::MAX,
    {
        self.label = 0;
        let n = slice_chars(name, 0, name.len());
        assert(n@ =~= name@);
        self.current_name = n;
        assert(self.cx().scope =~= Seq::<Option<Seq<char>>>::empty());
        let label = slice_chars(name, 0, name.len());
        assert(label@ =~= name@);
        self.emit(Op::Proc(label));
        self.compile_body(body)?;
        self.emit(Op::Return);
        Ok(())
    }

    /// Lowers a program: `call main`, `exit`, then every reachable
    /// procedure; the reachable constants are folded first, and the others
    /// are left out. Gives the instructions and the string pool. It fails
    /// exactly where folding the constants fails (`program_folding`), with
    /// that error, or where a procedure needs too many labels; the result
    /// is a function of the items and the evaluator. Items are keyed by
    /// name: the reachable procedures have names of their own (as `procs`
    /// guarantees), and then no two labels of the unit share a name; where
    /// two reachable constants share a name, a word names the first.
    pub fn compile<E: ConstEval>(self, items: Vec<LowerItem>, e: &E) -> (r: Result<
        (Vec<Op>, Vec<Vec<u8>>),
        LowerError,
    >)
        requires
            self.is_new(),
            distinct_names(proc_names(needed_procs(items@))),
        ensures
            program_folding(e, items@).0 matches Err(err) ==> r matches Err(x) && x@ == err,
            r matches Ok((ops, _)) ==> labels_unique(ops_view(ops@)),
            program_folding(e, items@).0 is Ok ==> (r is Ok <==> labels_fit(
                items@,
                program_folding(e, items@).1,
            )),
            r matches Ok((ops, pool)) ==> {
                let states = program_folding(e, items@).1;
                let folded_pool = program_folding(e, items@).2;
                &&& program_folding(e, items@).0 is Ok
                &&& forall|i: int| 0 <= i < states.len() ==> #[trigger] states[i] is Folded
                &&& ops_view(ops@) == program_lowering(items@, states, folded_pool).ops
                &&& pool_view(pool@) == program_lowering(items@, states, folded_pool).pool
            },
            r matches Err(LowerError::Cycle(n)) ==> exists|i: int|
                0 <= i < needed_consts(items@).len() && (#[trigger] needed_consts(items@)[i]).0@
                    == n@,
    {
        let mut this = self;
        let ghost orig = items@;
        assert(items.len() == orig.len());
        let mut rest = items;
        let mut rev: Vec<LowerItem> = Vec::new();
        while rest.len() > 0
            invariant
                orig.len() <= usize::MAX,
                rest@.len() + rev@.len() == orig.len(),
                rest@ == orig.subrange(0, rest@.len() as int),
                forall|k: int| 0 <= k < rev@.len() ==> #[trigger] rev@[k] == orig[orig.len() - 1 - k],
            decreases rest@.len(),
        {
            let it = rest.pop().unwrap();
            rev.push(it);
        }
        let mut procs: Vec<(Vec<char>, Proc)> = Vec::new();
        let mut i: usize = 0;
        while rev.len() > 0
            invariant
                orig.len() <= usize::MAX,
                i + rev@.len() == orig.len(),
                forall|k: int| 0 <= k < rev@.len() ==> #[trigger] rev@[k] == orig[orig.len() - 1 - k],
                procs@ == needed_procs(orig.subrange(0, i as int)),
                this.const_defs@.len() == this.const_names@.len(),
                this.states@.len() == this.const_names@.len(),
                forall|k: int| 0 <= k < this.states@.len() ==> #[trigger] this.states@[k] is Pending,
                this.const_names@.len() == needed_consts(orig.subrange(0, i as int)).len(),
                forall|k: int| 0 <= k < this.const_names@.len() ==> (#[trigger] this.const_names@[k])@
                    == needed_consts(orig.subrange(0, i as int))[k].0@ && this.const_defs@[k]
                    == needed_consts(orig.subrange(0, i as int))[k].1,
                this.label == 0,
                this.current_name@.len() == 0,
                this.result@.len() == 0,
                this.strings@.len() == 0,
                this.scope@.len() == 0,
            decreases rev@.len(),
        {
            let it = rev.pop().unwrap();
            assert(it == orig[i as int]);
            let ghost pre = orig.subrange(0, i + 1);
            let ghost prev_consts = needed_consts(orig.subrange(0, i as int));
            let ghost names_before = this.const_names@;
            let ghost defs_before = this.const_defs@;
            assert(pre.drop_last() =~= orig.subrange(0, i as int));
            assert(pre.last() == it);
            let (name, top, _span, needed) = it;
            if needed {
                match top {
                    TopLevel::Proc(p) => {
                        assert(needed_consts(pre) =~= prev_consts);
                        procs.push((name, p));
                    },
                    TopLevel::Const(c) => {
                        let ghost entry = (name, c);
                        this.const_names.push(name);
                        this.const_defs.push(c);
                        this.states.push(ConstState::Pending);
                        assert(needed_consts(pre) == prev_consts + seq![entry]);
                    },
                }
            } else {
                assert(needed_consts(pre) =~= prev_consts);
            }
            assert forall|k: int| 0 <= k < this.const_names@.len() implies (
            #[trigger] this.const_names@[k])@ == needed_consts(pre)[k].0@ && this.const_defs@[k]
                == needed_consts(pre)[k].1 by {
                if k < names_before.len() {
                    assert(this.const_names@[k] == names_before[k]);
                    assert(this.const_defs@[k] == defs_before[k]);
                    assert(names_before[k]@ == prev_consts[k].0@);
                    assert(needed_consts(pre)[k] == prev_consts[k]);
                }
            }
            assert(this.const_names@.len() == needed_consts(pre).len());
            i = i + 1;
            assert(pre == orig.subrange(0, i as int));
        }
        assert(orig.subrange(0, i as int) =~= orig);
        assert(this.cx().consts =~= needed_consts(orig).map_values(|c: (Vec<char>, Const)| c.0@));
        assert forall|k: int| 0 <= k < this.const_defs@.len() implies this.const_defs@[k]
            == needed_consts(orig)[k].1 by {
            assert((this.const_names@[k])@ == needed_consts(orig)[k].0@);
        }
        assert(this.defs() =~= needed_consts(orig).map_values(|c: (Vec<char>, Const)| c.1));
        assert(this.low().ops =~= Seq::<OpV>::empty());
        assert(this.low().pool =~= Seq::<Seq<u8>>::empty());
        let n = this.const_names.len();
        let mut j: usize = 0;
        assert(n == needed_consts(orig).len());
        assert(this.states() =~= Seq::new(needed_consts(orig).len(), |i: int| ConstState::Pending));
        let ghost consts_now = this.cx().consts;
        while j < n
            invariant
                orig == items@,
                consts_now == this.cx().consts,
                n == this.states@.len(),
                n == needed_consts(orig).len(),
                j <= n,
                this.wf(),
                this.cx().consts == needed_consts(orig).map_values(|c: (Vec<char>, Const)| c.0@),
                this.cx().scope.len() == 0,
                this.low().ops == Seq::<OpV>::empty(),
                this.low().label == 0,
                forall|k: int| 0 <= k < j ==> #[trigger] this.states@[k] is Folded,
                this.defs() == needed_consts(orig).map_values(|c: (Vec<char>, Const)| c.1),
                program_folding(e, orig) == fold_all_spec(
                    e,
                    this.cx().consts,
                    this.defs(),
                    this.states(),
                    this.low().pool,
                    j as int,
                ),
            decreases n - j,
        {
            let ghost before = this.states@;
            match this.compile_const(j, e) {
                Ok(_) => {},
                Err(err) => {
                    proof {
                        if let LowerError::Cycle(nm) = &err {
                            let w = choose|w: int|
                                0 <= w < this.states().len() && consts_now[w] == nm@
                                    && #[trigger] this.states()[w] is InProgress;
                            assert(needed_consts(orig)[w].0@ == nm@);
                        }
                    }
                    return Err(err);
                },
            }
            assert forall|k: int| 0 <= k < j + 1 implies #[trigger] this.states@[k] is Folded by {
                if k < j {
                    assert(before[k] is Folded);
                }
            }
            j = j + 1;
        }
        let ghost states = this.states@;
        let ghost consts = this.cx().consts;
        let ghost folded_pool = this.low().pool;
        this.emit(Op::Call(chars_of("main")));
        this.emit(Op::Exit);
        assert(this.low().ops =~= seq![OpV::Call("main"@), OpV::Exit]);
        let mut k: usize = 0;
        while k < procs.len()
            invariant
                orig == items@,
                k <= procs@.len(),
                procs@ == needed_procs(orig),
                consts == const_names_of(orig),
                program_folding(e, orig) == (Ok::<(), LowerErrorV>(()), states, folded_pool),
                forall|m: int|
                    0 <= m < k ==> lower_proc(
                        (#[trigger] needed_procs(orig)[m]).0@,
                        needed_procs(orig)[m].1.body@,
                        consts,
                        states,
                        Low { ops: Seq::empty(), label: 0, pool: Seq::empty() },
                    ).label <= usize::MAX,
                this.cx().consts == consts,
                this.cx().states == states,
                this.cx().scope.len() == 0,
                this.low() == lower_procs(
                    procs@.subrange(0, k as int),
                    consts,
                    states,
                    Low { ops: seq![OpV::Call("main"@), OpV::Exit], label: 0, pool: folded_pool },
                ),
            decreases procs@.len() - k,
        {
            let ghost st = this.low();
            proof {
                let p = procs@[k as int];
                let cxp = Cx { name: p.0@, scope: Seq::empty(), consts, states };
                let zero = Low { ops: Seq::empty(), label: 0, pool: Seq::empty() };
                lemma_block_label_independent(
                    p.1.body@,
                    cxp,
                    Low { label: 0, ..emit(st, OpV::Proc(p.0@)) },
                    Low { label: 0, ..emit(zero, OpV::Proc(p.0@)) },
                );
                assert(needed_procs(orig)[k as int] == p);
            }
            let r = this.compile_proc(&procs[k].0, &procs[k].1.body);
            if r.is_err() {
                return Err(LowerError::TooManyLabels);
            }
            assert(procs@.subrange(0, k + 1).drop_last() =~= procs@.subrange(0, k as int));
            k = k + 1;
        }
        assert(procs@.subrange(0, k as int) =~= procs@);
        assert(ops_view(this.result@) == program_lowering(orig, states, folded_pool).ops);
        proof {
            lemma_program_labels_distinct(orig, states, folded_pool);
        }
        assert(labels_fit(orig, states));
        Ok((this.result, this.strings))
    }

    /// The instruction for the word `w` (see `word_op`).
    fn word_instr(&self, w: &Vec<char>) -> (r: Op)
        ensures
            r@ == word_op(self.cx(), w@),
    {
        let ghost sv = scope_view(self.scope@);
        let n = self.scope.len();
        let mut j = n;
        assert(sv.subrange(0, n as int) =~= sv);
        while j > 0
            invariant
                j <= n == self.scope@.len(),
                sv == scope_view(self.scope@),
                find_binding(sv, w@) == match find_binding(sv.subrange(0, j as int), w@) {
                    Some(k) => Some(k + (n - j) as nat),
                    None => None,
                },
            decreases j,
        {
            let hit = match &self.scope[j - 1] {
                Some(name) => same_chars(name, w),
                None => false,
            };
            let ghost pre = sv.subrange(0, j as int);
            assert(pre.drop_last() =~= sv.subrange(0, j - 1));
            assert(pre.last() == sv[j - 1]);
            if hit {
                return Op::UseBinding(n - j);
            }
            j = j - 1;
        }
        assert(sv.subrange(0, 0) =~= Seq::<Option<Seq<char>>>::empty());
        assert(find_binding(sv.subrange(0, 0), w@) is None);
        assert(find_binding(sv, w@) is None);
        let ghost cv = names_view(self.const_names@);
        let mut i: usize = 0;
        while i < self.const_names.len()
            invariant
                i <= self.const_names@.len(),
                cv == names_view(self.const_names@),
                sv == scope_view(self.scope@),
                find_binding(sv, w@) is None,
                const_index(cv.subrange(0, i as int), w@) is None,
            decreases self.const_names@.len() - i,
        {
            let ghost pre = cv.subrange(0, i + 1);
            assert(pre.drop_last() =~= cv.subrange(0, i as int));
            assert(pre.last() == self.const_names@[i as int]@);
            if same_chars(&self.const_names[i], w) {
                proof {
                    assert(const_index(pre, w@) == Some(i as nat));
                    lemma_const_index_prefix(cv, i + 1, w@);
                    assert(find_binding(sv, w@) is None);
                }
                if i < self.states.len() {
                    match self.states[i] {
                        ConstState::Folded(v) => {
                            return Op::Push(v);
                        },
                        _ => {},
                    }
                }
                let r = slice_chars(w, 0, w.len());
                assert(r@ =~= w@);
                return Op::Call(r);
            }
            i = i + 1;
        }
        assert(cv.subrange(0, cv.len() as int) =~= cv);
        let r = slice_chars(w, 0, w.len());
        assert(r@ =~= w@);
        Op::Call(r)
    }
}

/// The operand-stack effect of a straight-line instruction: how many words
/// it takes from the stack, and by how much it changes the depth.
pub open spec fn op_effect(op: OpV) -> Option<(nat, int)> {
    match op {
        OpV::Push(_) => Some((0nat, 1int)),
        OpV::Dup => Some((1nat, 1int)),
        OpV::Drop => Some((1nat, -1int)),
        OpV::Swap => Some((2nat, 0int)),
        OpV::Over => Some((2nat, 1int)),
        OpV::Add | OpV::Sub | OpV::Mul | OpV::Eq | OpV::Ne | OpV::Lt | OpV::Le | OpV::Gt
        | OpV::Ge => Some((2nat, -1int)),
        OpV::Divmod => Some((2nat, 0int)),
        _ => None,
    }
}

/// Runs `ops` against a counter of the operand-stack depth, from depth
/// `d`: `None` where an instruction would take more words than the stack
/// holds (or is not straight-line), else the final depth.
pub open spec fn simulate_depth(ops: Seq<OpV>, d: int) -> Option<int>
    decreases ops.len(),
{
    if ops.len() == 0 {
        Some(d)
    } else {
        match op_effect(ops[0]) {
            Some((need, delta)) => if d < need {
                None
            } else {
                simulate_depth(ops.subrange(1, ops.len() as int), d + delta)
            },
            None => None,
        }
    }
}

/// The stack effect of a literal or of a stack-shuffle or arithmetic
/// intrinsic, as the language defines it.
pub open spec fn node_effect(n: AstNode) -> Option<(nat, int)> {
    match n.ast {
        AstKind::Literal(_) => Some((0nat, 1int)),
        AstKind::Intrinsic(i) => match i {
            Intrinsic::Dup => Some((1nat, 1int)),
            Intrinsic::Drop => Some((1nat, -1int)),
            Intrinsic::Swap => Some((2nat, 0int)),
            Intrinsic::Over => Some((2nat, 1int)),
            Intrinsic::Add | Intrinsic::Sub | Intrinsic::Mul | Intrinsic::PtrAdd
            | Intrinsic::PtrSub | Intrinsic::Eq | Intrinsic::Ne | Intrinsic::Lt | Intrinsic::Le
            | Intrinsic::Gt | Intrinsic::Ge => Some((2nat, -1int)),
            Intrinsic::Divmod => Some((2nat, 0int)),
            _ => None,
        },
        _ => None,
    }
}

/// A block of literals and stack-shuffle and arithmetic intrinsics only.
pub open spec fn is_straight_block(b: Seq<AstNode>) -> bool {
    forall|i: int| 0 <= i < b.len() ==> (#[trigger] node_effect(b[i])) is Some
}

/// The depth after a straight block from depth `d`, by its nodes' stack
/// effects; `None` where a node takes more words than there are.
pub open spec fn block_depth(b: Seq<AstNode>, d: int) -> Option<int>
    decreases b.len(),
{
    if b.len() == 0 {
        Some(d)
    } else {
        match node_effect(b[0]) {
            Some((need, delta)) => if d < need {
                None
            } else {
                block_depth(b.subrange(1, b.len() as int), d + delta)
            },
            None => None,
        }
    }
}

/// The instructions that lowering `b` adds after those of `st`.
pub open spec fn added_ops(b: Seq<AstNode>, cx: Cx, st: Low) -> Seq<OpV> {
    let out = lower_block(b, cx, st).ops;
    out.subrange(st.ops.len() as int, out.len() as int)
}

proof fn lemma_straight_lowering(b: Seq<AstNode>, cx: Cx, st: Low, d: int)
    requires
        is_straight_block(b),
    ensures
        lower_block(b, cx, st).ops.len() >= st.ops.len(),
        lower_block(b, cx, st).ops.subrange(0, st.ops.len() as int) == st.ops,
        simulate_depth(added_ops(b, cx, st), d) == block_depth(b, d),
    decreases b.len(),
{
    let out = lower_block(b, cx, st).ops;
    if b.len() == 0 {
        assert(out.subrange(0, st.ops.len() as int) =~= st.ops);
        assert(added_ops(b, cx, st) =~= Seq::<OpV>::empty());
    } else {
        let rest = b.subrange(1, b.len() as int);
        assert(node_effect(b[0]) is Some);
        assert(is_straight_block(rest)) by {
            assert forall|i: int| 0 <= i < rest.len() implies (#[trigger] node_effect(rest[i])) is Some by {
                assert(rest[i] == b[i + 1]);
            }
        }
        let st1 = lower_node(b[0], cx, st);
        let op0 = st1.ops.last();
        assert(st1.ops == st.ops.push(op0));
        assert(op_effect(op0) == node_effect(b[0]));
        match node_effect(b[0]) {
            Some((need, delta)) => {
                lemma_straight_lowering(rest, cx, st1, d + delta);
            },
            None => {},
        }
        lemma_straight_lowering(rest, cx, st1, d);
        assert(out == lower_block(rest, cx, st1).ops);
        assert(out.subrange(0, st.ops.len() as int) =~= st.ops) by {
            assert(out.subrange(0, st1.ops.len() as int) == st1.ops);
        }
        let a = added_ops(b, cx, st);
        assert(a[0] == op0) by {
            assert(out.subrange(0, st1.ops.len() as int) == st1.ops);
            assert(out[st.ops.len() as int] == st1.ops[st.ops.len() as int]);
        }
        assert(a.subrange(1, a.len() as int) =~= added_ops(rest, cx, st1));
    }
}

/// Simulating the instructions of a straight block against a counter of
/// the operand-stack depth follows the block's own stack effects: from any
/// depth `d`, the counter goes below what an instruction needs exactly
/// where a node would, and ends where the nodes say.
pub proof fn lemma_straight_block_depth(b: Seq<AstNode>, cx: Cx, st: Low, d: int)
    requires
        is_straight_block(b),
    ensures
        simulate_depth(added_ops(b, cx, st), d) == block_depth(b, d),
{
    lemma_straight_lowering(b, cx, st, d);
}

/// For a procedure whose body is a straight block that fits its declared
/// signature (from as many words as it has inputs to as many as it has
/// outputs), the lowered body never takes more words than the stack holds
/// and ends at the depth of the outputs.
pub proof fn lemma_signature_depth(p: Proc, cx: Cx, st: Low)
    requires
        is_straight_block(p.body@),
        block_depth(p.body@, p.signature.ins@.len() as int) == Some(p.signature.outs@.len() as int),
    ensures
        simulate_depth(added_ops(p.body@, cx, st), p.signature.ins@.len() as int) == Some(
            p.signature.outs@.len() as int,
        ),
{
    lemma_straight_lowering(p.body@, cx, st, p.signature.ins@.len() as int);
}

proof fn lemma_fold_words_none<E: ConstEval>(
    e: &E,
    consts: Seq<Seq<char>>,
    defs: Seq<Const>,
    states: Seq<ConstState>,
    pool: Seq<Seq<u8>>,
    ws: Seq<Seq<char>>,
    k: int,
)
    requires
        0 <= k,
        forall|m: int| 0 <= m < ws.len() ==> #[trigger] const_index(consts, ws[m]) is None,
    ensures
        fold_words_spec(e, consts, defs, states, pool, ws, k) == (
            Ok::<(), LowerErrorV>(()),
            states,
            pool,
        ),
    decreases ws.len() - k,
{
    if k < ws.len() {
        lemma_fold_words_none(e, consts, defs, states, pool, ws, k + 1);
    }
}

/// A pending constant whose body names no constant folds to the word that
/// the evaluator gives for its lowered body, read as its declared type, and
/// fails as that evaluation fails (or where the body needs too many labels).
pub proof fn lemma_fold_leaf<E: ConstEval>(
    e: &E,
    consts: Seq<Seq<char>>,
    defs: Seq<Const>,
    states: Seq<ConstState>,
    pool: Seq<Seq<u8>>,
    idx: int,
)
    requires
        0 <= idx < states.len(),
        states.len() == consts.len(),
        states.len() == defs.len(),
        states[idx] is Pending,
        forall|m: int|
            0 <= m < block_words(defs[idx].body@).len() ==> #[trigger] const_index(
                consts,
                block_words(defs[idx].body@)[m],
            ) is None,
    ensures
        ({
            let marked = states.update(idx, ConstState::InProgress);
            let f = fold_spec(e, consts, defs, states, pool, idx);
            let q = body_lowering(consts, defs, marked, pool, idx).pool;
            &&& eval_const(e, consts, defs, marked, pool, idx) is None ==> f == (
                Err::<IConst, LowerErrorV>(LowerErrorV::TooManyLabels),
                marked,
                pool,
            )
            &&& eval_const(e, consts, defs, marked, pool, idx) matches Some(out) ==> (!(
            out is Blocked) ==> f == finish_fold(consts, defs, marked, q, idx, out))
        }),
{
    let marked = states.update(idx, ConstState::InProgress);
    lemma_pending_count_mark(states, idx);
    lemma_fold_words_none(e, consts, defs, marked, pool, block_words(defs[idx].body@), 0);
}

/// Folding a pending constant whose body's first word names constant `j`:
/// if `j` is being folded, the reference closes a cycle and folding fails
/// with `Cycle`; if `j` is pending and folding it fails, folding the first
/// fails the same way. So `A` with body `A`, and `A` naming `B` naming `A`,
/// are both rejected as cycles.
pub proof fn lemma_fold_first_word<E: ConstEval>(
    e: &E,
    consts: Seq<Seq<char>>,
    defs: Seq<Const>,
    states: Seq<ConstState>,
    pool: Seq<Seq<u8>>,
    idx: int,
    j: int,
)
    requires
        0 <= idx < states.len(),
        states.len() == consts.len(),
        states.len() == defs.len(),
        states[idx] is Pending,
        block_words(defs[idx].body@).len() > 0,
        const_index(consts, block_words(defs[idx].body@)[0]) == Some(j as nat),
        0 <= j < states.len(),
    ensures
        ({
            let marked = states.update(idx, ConstState::InProgress);
            &&& marked[j] is InProgress ==> fold_spec(e, consts, defs, states, pool, idx).0
                == Err::<IConst, LowerErrorV>(
                LowerErrorV::Cycle(block_words(defs[idx].body@)[0]),
            )
            &&& marked[j] is Pending ==> (fold_spec(e, consts, defs, marked, pool, j).0 matches Err(
                err,
            ) ==> fold_spec(e, consts, defs, states, pool, idx).0 == Err::<IConst, LowerErrorV>(
                err,
            ))
        }),
{
    lemma_pending_count_mark(states, idx);
    let marked = states.update(idx, ConstState::InProgress);
    let ws = block_words(defs[idx].body@);
    let fw = fold_words_spec(e, consts, defs, marked, pool, ws, 0);
    if marked[j] is InProgress {
        assert(fw == (Err::<(), LowerErrorV>(LowerErrorV::Cycle(ws[0])), marked, pool));
    }
    if marked[j] is Pending {
        let f = fold_spec(e, consts, defs, marked, pool, j);
        if let Err(err) = f.0 {
            assert(fw == (Err::<(), LowerErrorV>(err), f.1, f.2));
        }
    }
}

/// Folding a constant twice gives the same word: after a fold of `idx`
/// gives `v`, folding `idx` again from any later state of folding (one that
/// `advances` from the state the first fold left), with any string pool,
/// gives `v` once more and changes nothing.
pub proof fn lemma_refold_same<E: ConstEval>(
    e: &E,
    consts: Seq<Seq<char>>,
    defs: Seq<Const>,
    states: Seq<ConstState>,
    pool: Seq<Seq<u8>>,
    idx: int,
    later: Seq<ConstState>,
    later_pool: Seq<Seq<u8>>,
    v: IConst,
)
    requires
        0 <= idx < states.len(),
        states.len() == consts.len(),
        states.len() == defs.len(),
        fold_spec(e, consts, defs, states, pool, idx).0 == Ok::<IConst, LowerErrorV>(v),
        advances(fold_spec(e, consts, defs, states, pool, idx).1, later),
    ensures
        fold_spec(e, consts, defs, later, later_pool, idx) == (
            Ok::<IConst, LowerErrorV>(v),
            later,
            later_pool,
        ),
{
    let f = fold_spec(e, consts, defs, states, pool, idx);
    if states[idx] is Pending {
        let marked = states.update(idx, ConstState::InProgress);
        let ws = block_words(defs[idx].body@);
        lemma_fold_words_len(e, consts, defs, marked, pool, ws, 0);
        let (r1, s1, p1) = fold_words_spec(e, consts, defs, marked, pool, ws, 0);
        let q1 = body_lowering(consts, defs, s1, p1, idx).pool;
        if let Some(EvalOutcome::Blocked(req)) = eval_const(e, consts, defs, s1, p1, idx) {
            if let Some(j) = const_index(consts, req) {
                if j < s1.len() {
                    lemma_fold_len(e, consts, defs, s1, q1, j as int);
                }
            }
        }
    }
    assert(f.1[idx] == ConstState::Folded(v));
    assert(later[idx] == ConstState::Folded(v));
}

proof fn lemma_fold_len<E: ConstEval>(
    e: &E,
    consts: Seq<Seq<char>>,
    defs: Seq<Const>,
    states: Seq<ConstState>,
    pool: Seq<Seq<u8>>,
    idx: int,
)
    ensures
        fold_spec(e, consts, defs, states, pool, idx).1.len() == states.len(),
    decreases pending_count(states), 1nat, 0int,
{
    if 0 <= idx < states.len() && idx < consts.len() && idx < defs.len() && states[idx] is Pending {
        let marked = states.update(idx, ConstState::InProgress);
        if pending_count(marked) < pending_count(states) {
            let ws = block_words(defs[idx].body@);
            lemma_fold_words_len(e, consts, defs, marked, pool, ws, 0);
            let (r1, s1, p1) = fold_words_spec(e, consts, defs, marked, pool, ws, 0);
            if r1 is Ok && pending_count(s1) <= pending_count(marked) {
                let q1 = body_lowering(consts, defs, s1, p1, idx).pool;
                if let Some(EvalOutcome::Blocked(req)) = eval_const(e, consts, defs, s1, p1, idx) {
                    if let Some(j) = const_index(consts, req) {
                        if j < s1.len() && s1[j as int] is Pending {
                            lemma_fold_len(e, consts, defs, s1, q1, j as int);
                        }
                    }
                }
            }
        }
    }
}

proof fn lemma_fold_words_len<E: ConstEval>(
    e: &E,
    consts: Seq<Seq<char>>,
    defs: Seq<Const>,
    states: Seq<ConstState>,
    pool: Seq<Seq<u8>>,
    ws: Seq<Seq<char>>,
    k: int,
)
    ensures
        fold_words_spec(e, consts, defs, states, pool, ws, k).1.len() == states.len(),
    decreases pending_count(states), 2nat, ws.len() - k,
{
    if 0 <= k < ws.len() {
        match const_index(consts, ws[k]) {
            Some(j) => if j >= states.len() {
                lemma_fold_words_len(e, consts, defs, states, pool, ws, k + 1);
            } else {
                match states[j as int] {
                    ConstState::Pending => {
                        lemma_fold_len(e, consts, defs, states, pool, j as int);
                        let (r, s, p) = fold_spec(e, consts, defs, states, pool, j as int);
                        if r is Ok && pending_count(s) <= pending_count(states) {
                            lemma_fold_words_len(e, consts, defs, s, p, ws, k + 1);
                        }
                    },
                    ConstState::Folded(_) => {
                        lemma_fold_words_len(e, consts, defs, states, pool, ws, k + 1);
                    },
                    _ => {},
                }
            },
            None => {
                lemma_fold_words_len(e, consts, defs, states, pool, ws, k + 1);
            },
        }
    }
}

/// Once a constant is folded its value stays: every later state of folding
/// holds the same value, and folding it again gives that value back and
/// changes nothing (see `Compiler::compile_const`), so folding it directly
/// or as a dependency of another constant gives the same word.
pub proof fn lemma_folded_value_stays(a: Seq<ConstState>, b: Seq<ConstState>, idx: int, v: IConst)
    requires
        advances(a, b),
        0 <= idx < a.len(),
        a[idx] == ConstState::Folded(v),
    ensures
        b[idx] == ConstState::Folded(v),
{
}

proof fn lemma_decimal_nonempty(n: nat)
    ensures
        decimal(n).len() >= 1,
        n >= 10 ==> decimal(n).len() >= 2,
    decreases n,
{
    if n >= 10 {
        lemma_decimal_nonempty(n / 10);
    }
}

proof fn lemma_decimal_injective(a: nat, b: nat)
    requires
        decimal(a) == decimal(b),
    ensures
        a == b,
    decreases a,
{
    lemma_decimal_nonempty(a);
    lemma_decimal_nonempty(b);
    if a >= 10 && b >= 10 {
        let da = decimal(a);
        assert(da.drop_last() == decimal(a / 10));
        assert(decimal(b).drop_last() == decimal(b / 10));
        lemma_decimal_injective(a / 10, b / 10);
        assert(da.last() == digit_char(a % 10));
        assert(decimal(b).last() == digit_char(b % 10));
    } else if a < 10 && b < 10 {
        assert(decimal(a)[0] == digit_char(a));
        assert(decimal(b)[0] == digit_char(b));
    }
}

proof fn lemma_decimal_no_tilde(n: nat)
    ensures
        forall|i: int| 0 <= i < decimal(n).len() ==> #[trigger] decimal(n)[i] != '~',
    decreases n,
{
    if n >= 10 {
        lemma_decimal_no_tilde(n / 10);
        let d = decimal(n);
        assert forall|i: int| 0 <= i < d.len() implies #[trigger] d[i] != '~' by {
            if i < d.len() - 1 {
                assert(d[i] == decimal(n / 10)[i]);
            }
        }
    }
}

/// Label names never collide: two labels are equal only where both the
/// procedure names and the counter values are, so labels of one procedure
/// are pairwise distinct and labels of two procedures never alias.
pub proof fn lemma_label_names_distinct(p: Seq<char>, q: Seq<char>, k1: nat, k2: nat)
    requires
        label_name(p, k1) == label_name(q, k2),
    ensures
        p == q,
        k1 == k2,
{
    let a = label_name(p, k1);
    let b = label_name(q, k2);
    let d1 = decimal(k1);
    let d2 = decimal(k2);
    lemma_decimal_no_tilde(k1);
    lemma_decimal_no_tilde(k2);
    assert(a.len() == 2 + p.len() + d1.len());
    assert(b.len() == 2 + q.len() + d2.len());
    if d1.len() < d2.len() {
        let t: int = 1 + p.len() as int;
        assert(a[t] == '~');
        assert(b[t] == d2[t - (2 + q.len() as int)]);
    } else if d2.len() < d1.len() {
        let t: int = 1 + q.len() as int;
        assert(b[t] == '~');
        assert(a[t] == d1[t - (2 + p.len() as int)]);
    }
    assert(p.len() == q.len());
    assert(a.subrange(1, 1 + p.len() as int) =~= p);
    assert(b.subrange(1, 1 + q.len() as int) =~= q);
    assert(a.subrange(2 + p.len() as int, a.len() as int) =~= d1);
    assert(b.subrange(2 + q.len() as int, b.len() as int) =~= d2);
    lemma_decimal_injective(k1, k2);
}

/// Every label that `a` declares is label `k` of procedure `name` for a
/// counter value `lo <= k < hi`.
pub open spec fn labels_within(a: Seq<OpV>, name: Seq<char>, lo: nat, hi: nat) -> bool {
    forall|i: int|
        0 <= i < a.len() && (#[trigger] a[i]) is Label ==> exists|k: nat|
            lo <= k < hi && #[trigger] label_name(name, k) == a[i]->Label_0
}

/// No two label declarations of `a` have the same name.
pub open spec fn labels_unique(a: Seq<OpV>) -> bool {
    forall|i: int, j: int|
        0 <= i < j < a.len() && (#[trigger] a[i]) is Label && (#[trigger] a[j]) is Label
            ==> a[i]->Label_0 != a[j]->Label_0
}

proof fn lemma_labels_compose(
    x: Seq<OpV>,
    y: Seq<OpV>,
    name: Seq<char>,
    lo: nat,
    hi: nat,
    lo1: nat,
    hi1: nat,
    lo2: nat,
    hi2: nat,
)
    requires
        labels_within(x, name, lo1, hi1),
        labels_within(y, name, lo2, hi2),
        labels_unique(x),
        labels_unique(y),
        hi1 <= lo2 || hi2 <= lo1,
        lo <= lo1,
        lo <= lo2,
        hi1 <= hi,
        hi2 <= hi,
    ensures
        labels_within(x + y, name, lo, hi),
        labels_unique(x + y),
{
    let a = x + y;
    assert forall|i: int| 0 <= i < a.len() && (#[trigger] a[i]) is Label implies exists|k: nat|
        lo <= k < hi && #[trigger] label_name(name, k) == a[i]->Label_0 by {
        if i < x.len() {
            assert(a[i] == x[i]);
            let k = choose|k: nat| lo1 <= k < hi1 && #[trigger] label_name(name, k) == x[i]->Label_0;
            assert(lo <= k < hi && label_name(name, k) == a[i]->Label_0);
        } else {
            assert(a[i] == y[i - x.len()]);
            let k = choose|k: nat|
                lo2 <= k < hi2 && #[trigger] label_name(name, k) == y[i - x.len()]->Label_0;
            assert(lo <= k < hi && label_name(name, k) == a[i]->Label_0);
        }
    }
    assert forall|i: int, j: int|
        0 <= i < j < a.len() && (#[trigger] a[i]) is Label && (#[trigger] a[j]) is Label implies a[i]->Label_0
        != a[j]->Label_0 by {
        if j < x.len() {
            assert(a[i] == x[i] && a[j] == x[j]);
        } else if i >= x.len() {
            assert(a[i] == y[i - x.len()] && a[j] == y[j - x.len()]);
        } else {
            assert(a[i] == x[i] && a[j] == y[j - x.len()]);
            let ki = choose|k: nat| lo1 <= k < hi1 && #[trigger] label_name(name, k) == x[i]->Label_0;
            let kj = choose|k: nat|
                lo2 <= k < hi2 && #[trigger] label_name(name, k) == y[j - x.len()]->Label_0;
            if a[i]->Label_0 == a[j]->Label_0 {
                lemma_label_names_distinct(name, name, ki, kj);
            }
        }
    }
}

proof fn lemma_label_single(op: OpV, name: Seq<char>, lo: nat, hi: nat)
    requires
        op matches OpV::Label(l) ==> exists|k: nat| lo <= k < hi && #[trigger] label_name(name, k) == l,
    ensures
        labels_within(seq![op], name, lo, hi),
        labels_unique(seq![op]),
{
    assert forall|i: int| 0 <= i < seq![op].len() && (#[trigger] seq![op][i]) is Label implies exists|k: nat|
        lo <= k < hi && #[trigger] label_name(name, k) == seq![op][i]->Label_0 by {
        assert(seq![op][i] == op);
    }
}

proof fn lemma_emit_n_no_labels(st: Low, op: OpV, k: nat)
    requires
        !(op is Label),
    ensures
        emit_n(st, op, k).ops.len() == st.ops.len() + k,
        emit_n(st, op, k).ops.subrange(0, st.ops.len() as int) == st.ops,
        forall|i: int|
            st.ops.len() <= i < emit_n(st, op, k).ops.len() ==> !((#[trigger] emit_n(
                st,
                op,
                k,
            ).ops[i]) is Label),
    decreases k,
{
    let out = emit_n(st, op, k).ops;
    if k == 0 {
        assert(out.subrange(0, st.ops.len() as int) =~= st.ops);
    } else {
        lemma_emit_n_no_labels(st, op, (k - 1) as nat);
        let prev = emit_n(st, op, (k - 1) as nat).ops;
        assert(out == prev.push(op));
        assert(out.subrange(0, st.ops.len() as int) =~= prev.subrange(0, st.ops.len() as int));
        assert forall|i: int| st.ops.len() <= i < out.len() implies !((#[trigger] out[i]) is Label) by {
            if i < out.len() - 1 {
                assert(out[i] == prev[i]);
            }
        }
    }
}

proof fn lemma_discipline_emit_n(st: Low, op: OpV, k: nat, name: Seq<char>)
    requires
        !(op is Label),
    ensures
        label_discipline(st, emit_n(st, op, k), name),
{
    lemma_emit_n_no_labels(st, op, k);
    lemma_emit_n(st, op, k);
    let out = emit_n(st, op, k).ops;
    let a = out.subrange(st.ops.len() as int, out.len() as int);
    assert forall|i: int| 0 <= i < a.len() implies !((#[trigger] a[i]) is Label) by {
        assert(a[i] == out[st.ops.len() + i]);
    }
}

/// The facts about labels that lowering keeps: it only appends, the
/// counter only grows, the labels it declares are numbered from the
/// counter values it used, and no two of them share a name.
pub open spec fn label_discipline(st: Low, out: Low, name: Seq<char>) -> bool {
    &&& out.ops.len() >= st.ops.len()
    &&& out.ops.subrange(0, st.ops.len() as int) == st.ops
    &&& out.label >= st.label
    &&& labels_within(out.ops.subrange(st.ops.len() as int, out.ops.len() as int), name, st.label, out.label)
    &&& labels_unique(out.ops.subrange(st.ops.len() as int, out.ops.len() as int))
}

proof fn lemma_discipline_chain(a: Low, b: Low, c: Low, name: Seq<char>)
    requires
        label_discipline(a, b, name),
        label_discipline(b, c, name),
    ensures
        label_discipline(a, c, name),
{
    let x = b.ops.subrange(a.ops.len() as int, b.ops.len() as int);
    let y = c.ops.subrange(b.ops.len() as int, c.ops.len() as int);
    lemma_labels_compose(x, y, name, a.label, c.label, a.label, b.label, b.label, c.label);
    assert(c.ops.subrange(a.ops.len() as int, c.ops.len() as int) =~= x + y) by {
        assert(c.ops.subrange(0, b.ops.len() as int) == b.ops);
    }
    assert(c.ops.subrange(0, a.ops.len() as int) =~= a.ops) by {
        assert(c.ops.subrange(0, b.ops.len() as int) == b.ops);
        assert(b.ops.subrange(0, a.ops.len() as int) == a.ops);
    }
}

proof fn lemma_split(s: Seq<OpV>, p: Seq<OpV>)
    requires
        s.len() >= p.len(),
        s.subrange(0, p.len() as int) == p,
    ensures
        s == p + s.subrange(p.len() as int, s.len() as int),
{
    assert forall|i: int| 0 <= i < p.len() implies s[i] == p[i] by {
        assert(s.subrange(0, p.len() as int)[i] == s[i]);
    }
    assert(s =~= p + s.subrange(p.len() as int, s.len() as int));
}

proof fn lemma_discipline_refl(st: Low, name: Seq<char>)
    ensures
        label_discipline(st, st, name),
{
    assert(st.ops.subrange(0, st.ops.len() as int) =~= st.ops);
    assert(st.ops.subrange(st.ops.len() as int, st.ops.len() as int) =~= Seq::<OpV>::empty());
}

proof fn lemma_no_label_single(op: OpV, name: Seq<char>, lo: nat, hi: nat)
    requires
        !(op is Label),
    ensures
        labels_within(seq![op], name, lo, hi),
        labels_unique(seq![op]),
{
    lemma_label_single(op, name, lo, hi);
}

proof fn lemma_own_label(name: Seq<char>, k: nat)
    ensures
        labels_within(seq![OpV::Label(label_name(name, k))], name, k, k + 1),
        labels_unique(seq![OpV::Label(label_name(name, k))]),
{
    lemma_label_single(OpV::Label(label_name(name, k)), name, k, k + 1);
}

proof fn lemma_node_discipline(n: AstNode, cx: Cx, st: Low)
    ensures
        label_discipline(st, lower_node(n, cx, st), cx.name),
    decreases n,
{
    let name = cx.name;
    let out = lower_node(n, cx, st);
    match n.ast {
        AstKind::If(c) => {
            let l0 = label_name(name, st.label);
            let a0 = emit(next_label(st), OpV::JumpF(l0));
            lemma_block_discipline(c.truth@, cx, a0);
            let s1 = lower_block(c.truth@, cx, a0);
            let t = s1.ops.subrange(a0.ops.len() as int, s1.ops.len() as int);
            lemma_split(s1.ops, a0.ops);
            assert(a0.ops =~= st.ops + seq![OpV::JumpF(l0)]);
            assert(s1.ops =~= st.ops + seq![OpV::JumpF(l0)] + t);
            lemma_no_label_single(OpV::JumpF(l0), name, st.label + 1, st.label + 1);
            lemma_labels_compose(
                seq![OpV::JumpF(l0)],
                t,
                name,
                st.label + 1,
                s1.label,
                st.label + 1,
                st.label + 1,
                st.label + 1,
                s1.label,
            );
            let x1 = seq![OpV::JumpF(l0)] + t;
            match c.lie {
                None => {
                    lemma_own_label(name, st.label);
                    lemma_labels_compose(
                        x1,
                        seq![OpV::Label(l0)],
                        name,
                        st.label,
                        s1.label,
                        st.label + 1,
                        s1.label,
                        st.label,
                        st.label + 1,
                    );
                    assert(out.ops =~= st.ops + (x1 + seq![OpV::Label(l0)]));
                    assert(out.ops.subrange(st.ops.len() as int, out.ops.len() as int) =~= x1
                        + seq![OpV::Label(l0)]);
                    assert(out.ops.subrange(0, st.ops.len() as int) =~= st.ops);
                },
                Some(lie) => {
                    let l1 = label_name(name, s1.label);
                    let s2 = emit(emit(next_label(s1), OpV::Jump(l1)), OpV::Label(l0));
                    lemma_block_discipline(lie@, cx, s2);
                    let s3 = lower_block(lie@, cx, s2);
                    let e = s3.ops.subrange(s2.ops.len() as int, s3.ops.len() as int);
                    lemma_split(s3.ops, s2.ops);
                    assert(s2.ops =~= s1.ops + seq![OpV::Jump(l1), OpV::Label(l0)]);
                    assert(s3.ops =~= s1.ops + seq![OpV::Jump(l1), OpV::Label(l0)] + e);
                    let x2 = seq![OpV::Jump(l1), OpV::Label(l0)];
                    assert(x2 =~= seq![OpV::Jump(l1)] + seq![OpV::Label(l0)]);
                    lemma_no_label_single(OpV::Jump(l1), name, st.label, st.label);
                    lemma_own_label(name, st.label);
                    lemma_labels_compose(
                        seq![OpV::Jump(l1)],
                        seq![OpV::Label(l0)],
                        name,
                        st.label,
                        st.label + 1,
                        st.label,
                        st.label,
                        st.label,
                        st.label + 1,
                    );
                    lemma_labels_compose(
                        x1,
                        x2,
                        name,
                        st.label,
                        s1.label,
                        st.label + 1,
                        s1.label,
                        st.label,
                        st.label + 1,
                    );
                    lemma_own_label(name, s1.label);
                    lemma_labels_compose(
                        e,
                        seq![OpV::Label(l1)],
                        name,
                        s1.label,
                        s3.label,
                        s1.label + 1,
                        s3.label,
                        s1.label,
                        s1.label + 1,
                    );
                    lemma_labels_compose(
                        x1 + x2,
                        e + seq![OpV::Label(l1)],
                        name,
                        st.label,
                        s3.label,
                        st.label,
                        s1.label,
                        s1.label,
                        s3.label,
                    );
                    assert(out.ops =~= st.ops + ((x1 + x2) + (e + seq![OpV::Label(l1)])));
                    assert(out.ops.subrange(st.ops.len() as int, out.ops.len() as int) =~= (x1
                        + x2) + (e + seq![OpV::Label(l1)]));
                    assert(out.ops.subrange(0, st.ops.len() as int) =~= st.ops);
                },
            }
        },
        AstKind::While(w) => {
            let l0 = label_name(name, st.label);
            let l1 = label_name(name, st.label + 1);
            let a0 = emit(next_label(next_label(st)), OpV::Label(l0));
            lemma_block_discipline(w.cond@, cx, a0);
            let s1 = lower_block(w.cond@, cx, a0);
            let c = s1.ops.subrange(a0.ops.len() as int, s1.ops.len() as int);
            lemma_split(s1.ops, a0.ops);
            assert(a0.ops =~= st.ops + seq![OpV::Label(l0)]);
            assert(s1.ops =~= st.ops + seq![OpV::Label(l0)] + c);
            let a1 = emit(s1, OpV::JumpF(l1));
            lemma_block_discipline(w.body@, cx, a1);
            let s2 = lower_block(w.body@, cx, a1);
            let b = s2.ops.subrange(a1.ops.len() as int, s2.ops.len() as int);
            lemma_split(s2.ops, a1.ops);
            assert(a1.ops =~= s1.ops + seq![OpV::JumpF(l1)]);
            assert(s2.ops =~= s1.ops + seq![OpV::JumpF(l1)] + b);
            lemma_no_label_single(OpV::JumpF(l1), name, s1.label, s1.label);
            lemma_labels_compose(
                c,
                seq![OpV::JumpF(l1)],
                name,
                st.label + 2,
                s1.label,
                st.label + 2,
                s1.label,
                s1.label,
                s1.label,
            );
            lemma_labels_compose(
                c + seq![OpV::JumpF(l1)],
                b,
                name,
                st.label + 2,
                s2.label,
                st.label + 2,
                s1.label,
                s1.label,
                s2.label,
            );
            let x2 = c + seq![OpV::JumpF(l1)] + b;
            let x3 = seq![OpV::Jump(l0), OpV::Label(l1)];
            assert(x3 =~= seq![OpV::Jump(l0)] + seq![OpV::Label(l1)]);
            lemma_no_label_single(OpV::Jump(l0), name, st.label + 1, st.label + 1);
            lemma_own_label(name, st.label + 1);
            lemma_labels_compose(
                seq![OpV::Jump(l0)],
                seq![OpV::Label(l1)],
                name,
                st.label + 1,
                st.label + 2,
                st.label + 1,
                st.label + 1,
                st.label + 1,
                st.label + 2,
            );
            lemma_labels_compose(
                x2,
                x3,
                name,
                st.label + 1,
                s2.label,
                st.label + 2,
                s2.label,
                st.label + 1,
                st.label + 2,
            );
            lemma_own_label(name, st.label);
            lemma_labels_compose(
                seq![OpV::Label(l0)],
                x2 + x3,
                name,
                st.label,
                s2.label,
                st.label,
                st.label + 1,
                st.label + 1,
                s2.label,
            );
            assert(out.ops =~= st.ops + (seq![OpV::Label(l0)] + (x2 + x3)));
            assert(out.ops.subrange(st.ops.len() as int, out.ops.len() as int) =~= seq![
                OpV::Label(l0),
            ] + (x2 + x3));
            assert(out.ops.subrange(0, st.ops.len() as int) =~= st.ops);
        },
        AstKind::Bind(bd) => {
            let k = bd.bindings@.len();
            let inner = Cx { scope: bind_scope(cx.scope, bd.bindings@), ..cx };
            lemma_discipline_emit_n(st, OpV::Bind, k, name);
            let a0 = emit_n(st, OpV::Bind, k);
            lemma_block_discipline(bd.body@, inner, a0);
            let s1 = lower_block(bd.body@, inner, a0);
            lemma_discipline_emit_n(s1, OpV::Unbind, k, name);
            lemma_discipline_chain(st, a0, s1, name);
            lemma_discipline_chain(st, s1, out, name);
        },
        AstKind::Str(_) => {
            let op = OpV::PushStr(st.pool.len());
            lemma_no_label_single(op, name, st.label, st.label);
            assert(out.ops.subrange(st.ops.len() as int, out.ops.len() as int) =~= seq![op]);
            assert(out.ops.subrange(0, st.ops.len() as int) =~= st.ops);
        },
        AstKind::Intrinsic(i) => {
            match intrinsic_op(i) {
                Some(op) => {
                    lemma_no_label_single(op, name, st.label, st.label);
                    assert(out.ops.subrange(st.ops.len() as int, out.ops.len() as int) =~= seq![op]);
                    assert(out.ops.subrange(0, st.ops.len() as int) =~= st.ops);
                },
                None => {
                    lemma_discipline_refl(st, name);
                },
            }
        },
        _ => {
            let op = out.ops.last();
            assert(out.ops == st.ops.push(op));
            assert(!(op is Label));
            lemma_no_label_single(op, name, st.label, st.label);
            assert(out.ops.subrange(st.ops.len() as int, out.ops.len() as int) =~= seq![op]);
            assert(out.ops.subrange(0, st.ops.len() as int) =~= st.ops);
        },
    }
}

proof fn lemma_block_discipline(b: Seq<AstNode>, cx: Cx, st: Low)
    ensures
        label_discipline(st, lower_block(b, cx, st), cx.name),
    decreases b,
{
    if b.len() == 0 || b[0].ast matches AstKind::Intrinsic(Intrinsic::CompStop) {
        lemma_discipline_refl(st, cx.name);
    } else {
        let s1 = lower_node(b[0], cx, st);
        lemma_node_discipline(b[0], cx, st);
        lemma_block_discipline(b.subrange(1, b.len() as int), cx, s1);
        lemma_discipline_chain(st, s1, lower_block(b, cx, st), cx.name);
    }
}

/// Within the lowering of one procedure no two labels share a name: every
/// label it declares is the procedure's label for a counter value that the
/// procedure used (see `label_name`), and no two `label` instructions of it
/// declare the same one.
pub proof fn lemma_proc_labels_distinct(
    name: Seq<char>,
    body: Seq<AstNode>,
    consts: Seq<Seq<char>>,
    states: Seq<ConstState>,
    st: Low,
)
    ensures
        ({
            let out = lower_proc(name, body, consts, states, st);
            let added = out.ops.subrange(st.ops.len() as int, out.ops.len() as int);
            &&& out.ops.len() >= st.ops.len()
            &&& out.ops.subrange(0, st.ops.len() as int) == st.ops
            &&& labels_within(added, name, 0, out.label)
            &&& labels_unique(added)
        }),
{
    let cx = Cx { name, scope: Seq::empty(), consts, states };
    let a0 = Low { label: 0, ..emit(st, OpV::Proc(name)) };
    lemma_block_discipline(body, cx, a0);
    let s1 = lower_block(body, cx, a0);
    let out = emit(s1, OpV::Return);
    let inner = s1.ops.subrange(a0.ops.len() as int, s1.ops.len() as int);
    lemma_split(s1.ops, a0.ops);
    assert(a0.ops =~= st.ops + seq![OpV::Proc(name)]);
    assert(out.ops =~= st.ops + (seq![OpV::Proc(name)] + inner + seq![OpV::Return]));
    lemma_no_label_single(OpV::Proc(name), name, 0, 0);
    lemma_no_label_single(OpV::Return, name, 0, 0);
    lemma_labels_compose(seq![OpV::Proc(name)], inner, name, 0, s1.label, 0, 0, 0, s1.label);
    lemma_labels_compose(
        seq![OpV::Proc(name)] + inner,
        seq![OpV::Return],
        name,
        0,
        s1.label,
        0,
        s1.label,
        0,
        0,
    );
    assert(out.ops.subrange(st.ops.len() as int, out.ops.len() as int) =~= seq![OpV::Proc(name)]
        + inner + seq![OpV::Return]);
    assert(out.ops.subrange(0, st.ops.len() as int) =~= st.ops);
}

/// The names of procedures.
pub open spec fn proc_names(procs: Seq<(Vec<char>, Proc)>) -> Seq<Seq<char>> {
    procs.map_values(|p: (Vec<char>, Proc)| p.0@)
}

/// Every label that `a` declares is a label of one of the procedures
/// `names`.
pub open spec fn labels_named(a: Seq<OpV>, names: Seq<Seq<char>>) -> bool {
    forall|i: int|
        0 <= i < a.len() && (#[trigger] a[i]) is Label ==> exists|m: int, k: nat|
            0 <= m < names.len() && #[trigger] label_name(names[m], k) == a[i]->Label_0
}

proof fn lemma_procs_labels(
    procs: Seq<(Vec<char>, Proc)>,
    consts: Seq<Seq<char>>,
    states: Seq<ConstState>,
    st: Low,
)
    requires
        distinct_names(proc_names(procs)),
    ensures
        ({
            let out = lower_procs(procs, consts, states, st).ops;
            let added = out.subrange(st.ops.len() as int, out.len() as int);
            &&& out.len() >= st.ops.len()
            &&& out.subrange(0, st.ops.len() as int) == st.ops
            &&& labels_named(added, proc_names(procs))
            &&& labels_unique(added)
        }),
    decreases procs.len(),
{
    let out = lower_procs(procs, consts, states, st).ops;
    let names = proc_names(procs);
    if procs.len() == 0 {
        assert(out.subrange(0, st.ops.len() as int) =~= st.ops);
        assert(out.subrange(st.ops.len() as int, out.len() as int) =~= Seq::<OpV>::empty());
    } else {
        let init = procs.drop_last();
        let p = procs.last();
        let pnames = proc_names(init);
        assert(pnames =~= names.drop_last());
        lemma_procs_labels(init, consts, states, st);
        let prev = lower_procs(init, consts, states, st);
        lemma_proc_labels_distinct(p.0@, p.1.body@, consts, states, prev);
        let last = lower_proc(p.0@, p.1.body@, consts, states, prev);
        let x = prev.ops.subrange(st.ops.len() as int, prev.ops.len() as int);
        let y = last.ops.subrange(prev.ops.len() as int, last.ops.len() as int);
        let added = out.subrange(st.ops.len() as int, out.len() as int);
        lemma_split(prev.ops, st.ops);
        lemma_split(last.ops, prev.ops);
        assert(added =~= x + y);
        assert(out.subrange(0, st.ops.len() as int) =~= st.ops);
        assert(names[names.len() - 1] == p.0@);
        assert forall|i: int| 0 <= i < added.len() && (#[trigger] added[i]) is Label implies exists|
            m: int,
            k: nat,
        | 0 <= m < names.len() && #[trigger] label_name(names[m], k) == added[i]->Label_0 by {
            if i < x.len() {
                assert(added[i] == x[i]);
                let (m, k) = choose|m: int, k: nat|
                    0 <= m < pnames.len() && #[trigger] label_name(pnames[m], k) == x[i]->Label_0;
                assert(names[m] == pnames[m]);
                assert(label_name(names[m], k) == added[i]->Label_0);
            } else {
                assert(added[i] == y[i - x.len()]);
                let k = choose|k: nat|
                    0 <= k < last.label && #[trigger] label_name(p.0@, k) == y[i - x.len()]->Label_0;
                assert(label_name(names[names.len() - 1], k) == added[i]->Label_0);
            }
        }
        assert forall|i: int, j: int|
            0 <= i < j < added.len() && (#[trigger] added[i]) is Label && (#[trigger] added[j]) is Label
                implies added[i]->Label_0 != added[j]->Label_0 by {
            if j < x.len() {
                assert(added[i] == x[i] && added[j] == x[j]);
            } else if i >= x.len() {
                assert(added[i] == y[i - x.len()] && added[j] == y[j - x.len()]);
            } else {
                assert(added[i] == x[i] && added[j] == y[j - x.len()]);
                let (m, k) = choose|m: int, k: nat|
                    0 <= m < pnames.len() && #[trigger] label_name(pnames[m], k) == x[i]->Label_0;
                let k2 = choose|k: nat|
                    0 <= k < last.label && #[trigger] label_name(p.0@, k) == y[j - x.len()]->Label_0;
                if added[i]->Label_0 == added[j]->Label_0 {
                    lemma_label_names_distinct(pnames[m], p.0@, k, k2);
                    assert(names[m] == names[names.len() - 1]);
                }
            }
        }
    }
}

/// Across the lowering of a whole program no two labels share a name, where
/// the reachable procedures have names of their own.
pub proof fn lemma_program_labels_distinct(
    items: Seq<LowerItem>,
    states: Seq<ConstState>,
    pool: Seq<Seq<u8>>,
)
    requires
        distinct_names(proc_names(needed_procs(items))),
    ensures
        labels_unique(program_lowering(items, states, pool).ops),
{
    let st = Low { ops: seq![OpV::Call("main"@), OpV::Exit], label: 0, pool };
    let consts = needed_consts(items).map_values(|c: (Vec<char>, Const)| c.0@);
    lemma_procs_labels(needed_procs(items), consts, states, st);
    let out = program_lowering(items, states, pool).ops;
    let added = out.subrange(2, out.len() as int);
    assert forall|i: int, j: int|
        0 <= i < j < out.len() && (#[trigger] out[i]) is Label && (#[trigger] out[j]) is Label
            implies out[i]->Label_0 != out[j]->Label_0 by {
        if i < 2 {
            assert(out[i] == st.ops[i]);
        } else {
            assert(out[i] == added[i - 2] && out[j] == added[j - 2]);
        }
    }
}

} // verus!
