use stackc::eval::{ConstEval, EvalResult, StackEval};
use stackc::hir::{IConst, ToConst, Type};
use stackc::lir::Op;

#[test]
fn iconst_constructors() {
    assert_eq!(IConst::new(true), IConst::Bool(1));
    assert_eq!(IConst::new(5u64), IConst::U64(5));
    assert_eq!(IConst::new(-1i64), IConst::I64(u64::MAX));
    assert_eq!(false.to_const(), IConst::Bool(0));
    assert_eq!(IConst::from_ty_bytes(Type::I64, 9), IConst::I64(9));
    assert_eq!(IConst::from_ty_bytes(Type::Bool, 0), IConst::Bool(0));
    assert_eq!(IConst::U64(42).bytes(), 42);
}

fn run(ops: Vec<Op>) -> EvalResult {
    StackEval.eval(&ops, &vec![])
}

#[test]
fn evaluates_arithmetic() {
    let r = run(vec![Op::Push(IConst::U64(17)), Op::Push(IConst::U64(5)), Op::Divmod, Op::Sub, Op::Exit]);
    assert_eq!(r, EvalResult::Value(1));
    let r = run(vec![Op::Push(IConst::U64(0)), Op::Push(IConst::U64(1)), Op::Sub, Op::Exit]);
    assert_eq!(r, EvalResult::Value(u64::MAX));
    let r = run(vec![Op::Push(IConst::U64(u64::MAX)), Op::Dup, Op::Mul, Op::Exit]);
    assert_eq!(r, EvalResult::Value(1));
}

#[test]
fn evaluates_shuffles_and_signed_comparisons() {
    let r = run(vec![Op::Push(IConst::U64(1)), Op::Push(IConst::U64(2)), Op::Over, Op::Swap, Op::Drop, Op::Exit]);
    assert_eq!(r, EvalResult::Value(1));
    let r = run(vec![Op::Push(IConst::I64(u64::MAX)), Op::Push(IConst::U64(0)), Op::Lt, Op::Exit]);
    assert_eq!(r, EvalResult::Value(1));
    let r = run(vec![Op::Push(IConst::U64(3)), Op::Push(IConst::U64(3)), Op::Ge, Op::Exit]);
    assert_eq!(r, EvalResult::Value(1));
}

#[test]
fn evaluation_failures() {
    assert_eq!(run(vec![Op::Add, Op::Exit]), EvalResult::Failed);
    assert_eq!(run(vec![Op::Push(IConst::U64(1))]), EvalResult::Failed);
    assert_eq!(run(vec![Op::Call(vec!['k'])]), EvalResult::Blocked(vec!['k']));
    assert_eq!(run(vec![Op::Push(IConst::U64(1)), Op::Print, Op::Exit]), EvalResult::Failed);
}
