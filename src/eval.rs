//! Evaluating constant bodies at compile time.

use vstd::prelude::*;
use crate::emit::pool_view;
use crate::hir::IConst;
use crate::lexer::slice_chars;
use crate::lir::{Op, OpV, ops_view};

verus! {

/// What evaluating a constant's instructions gives.
pub ghost enum EvalOutcome {
    /// The word left on top of the stack at `exit`.
    Value(u64),
    /// Evaluation needs the value of the constant with this name first.
    Blocked(Seq<char>),
    /// Evaluation cannot finish.
    Failed,
}

#[derive(Clone, Debug, PartialEq, Eq)]
pub enum EvalResult {
    Value(u64),
    Blocked(Vec<char>),
    Failed,
}

impl View for EvalResult {
    type V = EvalOutcome;

    open spec fn view(&self) -> EvalOutcome {
        match self {
            EvalResult::Value(v) => EvalOutcome::Value(*v),
            EvalResult::Blocked(n) => EvalOutcome::Blocked(n@),
            EvalResult::Failed => EvalOutcome::Failed,
        }
    }
}

/// An evaluator of constant bodies at compile time: it runs a sequence of
/// instructions, with a string pool, to its `exit`.
pub trait ConstEval {
    spec fn outcome(&self, ops: Seq<OpV>, pool: Seq<Seq<u8>>) -> EvalOutcome;

    fn eval(&self, ops: &Vec<Op>, strings: &Vec<Vec<u8>>) -> (r: EvalResult)
        ensures
            r@ == self.outcome(ops_view(ops@), pool_view(strings@)),
    ;
}

/// The number of distinct 64-bit words.
pub open spec fn word_count() -> int {
    0x1_0000_0000_0000_0000
}

/// A word read as a two's-complement signed integer.
pub open spec fn signed(w: u64) -> int {
    if w < 0x8000_0000_0000_0000 {
        w as int
    } else {
        w as int - word_count()
    }
}

pub open spec fn flag(b: bool) -> u64 {
    if b { 1 } else { 0 }
}

/// The stack after a binary operation on the two top words `a` (below) and
/// `b` (on top), or `None` where the operation fails.
pub open spec fn binary(op: OpV, a: u64, b: u64) -> Option<Seq<u64>> {
    match op {
        OpV::Add => Some(seq![((a + b) % word_count()) as u64]),
        OpV::Sub => Some(seq![((a - b + word_count()) % word_count()) as u64]),
        OpV::Mul => Some(seq![((a * b) % word_count()) as u64]),
        OpV::Divmod => if b == 0 {
            None
        } else {
            Some(seq![(a / b) as u64, (a % b) as u64])
        },
        OpV::Eq => Some(seq![flag(a == b)]),
        OpV::Ne => Some(seq![flag(a != b)]),
        OpV::Lt => Some(seq![flag(signed(a) < signed(b))]),
        OpV::Le => Some(seq![flag(signed(a) <= signed(b))]),
        OpV::Gt => Some(seq![flag(signed(a) > signed(b))]),
        OpV::Ge => Some(seq![flag(signed(a) >= signed(b))]),
        OpV::Swap => Some(seq![b, a]),
        OpV::Over => Some(seq![a, b, a]),
        _ => None,
    }
}

pub open spec fn is_binary(op: OpV) -> bool {
    match op {
        OpV::Add | OpV::Sub | OpV::Mul | OpV::Divmod | OpV::Eq | OpV::Ne | OpV::Lt | OpV::Le
        | OpV::Gt | OpV::Ge | OpV::Swap | OpV::Over => true,
        _ => false,
    }
}

/// Straight-line evaluation of `ops` from instruction `i` with `stack` (top
/// last): pushes, stack shuffles, arithmetic and comparisons; `exit` gives
/// the top word, a call is blocked on its name, anything else fails.
pub open spec fn run(ops: Seq<OpV>, i: nat, stack: Seq<u64>) -> EvalOutcome
    decreases ops.len() - i,
{
    if i >= ops.len() {
        EvalOutcome::Failed
    } else {
        let n = stack.len();
        match ops[i as int] {
            OpV::Push(c) => run(ops, i + 1, stack.push(c.word())),
            OpV::Dump => run(ops, i + 1, stack),
            OpV::Dup => if n >= 1 {
                run(ops, i + 1, stack.push(stack.last()))
            } else {
                EvalOutcome::Failed
            },
            OpV::Drop => if n >= 1 {
                run(ops, i + 1, stack.drop_last())
            } else {
                EvalOutcome::Failed
            },
            OpV::Exit => if n >= 1 {
                EvalOutcome::Value(stack.last())
            } else {
                EvalOutcome::Failed
            },
            OpV::Call(name) => EvalOutcome::Blocked(name),
            op => if is_binary(op) && n >= 2 {
                match binary(op, stack[n - 2], stack[n - 1]) {
                    Some(top) => run(ops, i + 1, stack.subrange(0, n - 2) + top),
                    None => EvalOutcome::Failed,
                }
            } else {
                EvalOutcome::Failed
            },
        }
    }
}

/// An evaluator for straight-line constant bodies (see `run`).
pub struct StackEval;

fn signed_lt(a: u64, b: u64) -> (r: bool)
    ensures
        r == (signed(a) < signed(b)),
{
    let na = a >= 0x8000_0000_0000_0000;
    let nb = b >= 0x8000_0000_0000_0000;
    if na == nb {
        a < b
    } else {
        na
    }
}

fn apply_binary(op: &Op, a: u64, b: u64) -> (r: Option<Vec<u64>>)
    requires
        is_binary(op@),
    ensures
        match r {
            Some(v) => binary(op@, a, b) == Some(v@),
            None => binary(op@, a, b) is None,
        },
{
    let mut v: Vec<u64> = Vec::new();
    match op {
        Op::Add => v.push(((a as u128 + b as u128) % 0x1_0000_0000_0000_0000) as u64),
        Op::Sub => v.push(((a as u128 + 0x1_0000_0000_0000_0000 - b as u128) % 0x1_0000_0000_0000_0000) as u64),
        Op::Mul => {
            let (x, y) = (a as u128, b as u128);
            assert(x * y < 0x1_0000_0000_0000_0000_0000_0000_0000_0000) by (nonlinear_arith)
                requires
                    x < 0x1_0000_0000_0000_0000,
                    y < 0x1_0000_0000_0000_0000,
            ;
            v.push(((x * y) % 0x1_0000_0000_0000_0000) as u64);
        },
        Op::Divmod => {
            if b == 0 {
                return None;
            }
            v.push(a / b);
            v.push(a % b);
        },
        Op::Eq => v.push(if a == b { 1 } else { 0 }),
        Op::Ne => v.push(if a != b { 1 } else { 0 }),
        Op::Lt => v.push(if signed_lt(a, b) { 1 } else { 0 }),
        Op::Le => v.push(if signed_lt(b, a) { 0 } else { 1 }),
        Op::Gt => v.push(if signed_lt(b, a) { 1 } else { 0 }),
        Op::Ge => v.push(if signed_lt(a, b) { 0 } else { 1 }),
        Op::Swap => {
            v.push(b);
            v.push(a);
        },
        Op::Over => {
            v.push(a);
            v.push(b);
            v.push(a);
        },
        _ => {
            return None;
        },
    }
    assert(binary(op@, a, b) matches Some(t) && t =~= v@);
    Some(v)
}

impl ConstEval for StackEval {
    open spec fn outcome(&self, ops: Seq<OpV>, pool: Seq<Seq<u8>>) -> EvalOutcome {
        run(ops, 0, Seq::empty())
    }

    fn eval(&self, ops: &Vec<Op>, strings: &Vec<Vec<u8>>) -> (r: EvalResult) {
        let ghost ov = ops_view(ops@);
        let mut stack: Vec<u64> = Vec::new();
        let mut i: usize = 0;
        while i < ops.len()
            invariant
                ov == ops_view(ops@),
                i <= ops@.len(),
                run(ov, 0, Seq::empty()) == run(ov, i as nat, stack@),
            decreases ops@.len() - i,
        {
            let op = &ops[i];
            assert(ov[i as int] == op@);
            let n = stack.len();
            match op {
                Op::Push(c) => {
                    stack.push(c.bytes());
                },
                Op::Dump => {},
                Op::Dup => {
                    if n == 0 {
                        return EvalResult::Failed;
                    }
                    let t = stack[n - 1];
                    stack.push(t);
                },
                Op::Drop => {
                    if n == 0 {
                        return EvalResult::Failed;
                    }
                    stack.pop();
                },
                Op::Exit => {
                    if n == 0 {
                        return EvalResult::Failed;
                    }
                    return EvalResult::Value(stack[n - 1]);
                },
                Op::Call(name) => {
                    let r = slice_chars(name, 0, name.len());
                    assert(r@ =~= name@);
                    return EvalResult::Blocked(r);
                },
                _ => {
                    if n < 2 {
                        return EvalResult::Failed;
                    }
                    let is_bin = match op {
                        Op::Add | Op::Sub | Op::Mul | Op::Divmod | Op::Eq | Op::Ne | Op::Lt
                        | Op::Le | Op::Gt | Op::Ge | Op::Swap | Op::Over => true,
                        _ => false,
                    };
                    if !is_bin {
                        return EvalResult::Failed;
                    }
                    let a = stack[n - 2];
                    let b = stack[n - 1];
                    match apply_binary(op, a, b) {
                        None => {
                            return EvalResult::Failed;
                        },
                        Some(top) => {
                            let ghost before = stack@;
                            stack.truncate(n - 2);
                            let mut k: usize = 0;
                            while k < top.len()
                                invariant
                                    k <= top@.len(),
                                    n >= 2,
                                    n == before.len(),
                                    stack@ == before.subrange(0, n - 2) + top@.subrange(0, k as int),
                                decreases top@.len() - k,
                            {
                                stack.push(top[k]);
                                k = k + 1;
                                assert(stack@ =~= before.subrange(0, n - 2) + top@.subrange(0, k as int));
                            }
                            assert(top@.subrange(0, top@.len() as int) =~= top@);
                        },
                    }
                },
            }
            i = i + 1;
        }
        EvalResult::Failed
    }
}

} // verus!
