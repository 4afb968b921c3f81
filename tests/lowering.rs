use stackc::eval::StackEval;
use stackc::hir::{procs, AstKind, AstNode, Const, IConst, Proc, Signature, TopLevel};
use stackc::lexer::lex_string;
use stackc::lir::{Compiler, LowerError, LowerItem, Op};
use stackc::span::Span;

fn chars(s: &str) -> Vec<char> {
    s.chars().collect()
}

fn items(src: &str) -> Vec<LowerItem> {
    procs(&lex_string(src).unwrap())
        .unwrap()
        .into_iter()
        .map(|(n, t, s)| (n, t, s, true))
        .collect()
}

fn lower(src: &str) -> Result<(Vec<Op>, Vec<Vec<u8>>), LowerError> {
    Compiler::new().compile(items(src), &StackEval)
}

fn labels(ops: &[Op]) -> Vec<String> {
    ops.iter()
        .filter_map(|o| match o {
            Op::Label(l) => Some(l.iter().collect()),
            _ => None,
        })
        .collect()
}

#[test]
fn lowers_add_and_print() {
    let (ops, strings) = lower("proc main do 1 2 + print end").unwrap();
    assert_eq!(
        ops,
        vec![
            Op::Call(chars("main")),
            Op::Exit,
            Op::Proc(chars("main")),
            Op::Push(IConst::U64(1)),
            Op::Push(IConst::U64(2)),
            Op::Add,
            Op::Print,
            Op::Return,
        ]
    );
    assert!(strings.is_empty());
}

#[test]
fn lowers_if_else_with_two_labels() {
    let (ops, _) = lower("proc main do true if 1 else 2 end drop end").unwrap();
    assert_eq!(
        ops,
        vec![
            Op::Call(chars("main")),
            Op::Exit,
            Op::Proc(chars("main")),
            Op::Push(IConst::Bool(1)),
            Op::JumpF(chars(".main~0")),
            Op::Push(IConst::U64(1)),
            Op::Jump(chars(".main~1")),
            Op::Label(chars(".main~0")),
            Op::Push(IConst::U64(2)),
            Op::Label(chars(".main~1")),
            Op::Drop,
            Op::Return,
        ]
    );
    assert_eq!(labels(&ops).len(), 2);
}

#[test]
fn lowers_if_without_else() {
    let (ops, _) = lower("proc main do true if 1 print end end").unwrap();
    assert_eq!(
        ops[3..],
        [
            Op::Push(IConst::Bool(1)),
            Op::JumpF(chars(".main~0")),
            Op::Push(IConst::U64(1)),
            Op::Print,
            Op::Label(chars(".main~0")),
            Op::Return,
        ]
    );
}

#[test]
fn lowers_while() {
    let (ops, _) = lower("proc main do 3 while dup do 1 - end drop end").unwrap();
    assert_eq!(
        ops[3..],
        [
            Op::Push(IConst::U64(3)),
            Op::Label(chars(".main~0")),
            Op::Dup,
            Op::JumpF(chars(".main~1")),
            Op::Push(IConst::U64(1)),
            Op::Sub,
            Op::Jump(chars(".main~0")),
            Op::Label(chars(".main~1")),
            Op::Drop,
            Op::Return,
        ]
    );
}

#[test]
fn labels_are_distinct_within_and_across_procedures() {
    let src = "proc main do true if true if 1 end end while true do end f end \
               proc f do true if 2 end end";
    let (ops, _) = lower(src).unwrap();
    let ls = labels(&ops);
    assert_eq!(ls, vec![".main~1", ".main~0", ".main~2", ".main~3", ".f~0"]);
    let mut sorted = ls.clone();
    sorted.sort();
    sorted.dedup();
    assert_eq!(sorted.len(), ls.len());
}

#[test]
fn folds_a_constant() {
    let (ops, _) = lower("const N : uint do 2 3 + end proc main do N print end").unwrap();
    assert_eq!(
        ops,
        vec![
            Op::Call(chars("main")),
            Op::Exit,
            Op::Proc(chars("main")),
            Op::Push(IConst::U64(5)),
            Op::Print,
            Op::Return,
        ]
    );
}

#[test]
fn folds_dependencies_to_the_same_value() {
    let src = "const B : uint do A A * end const A : uint do 7 end \
               const C : int do A B - end proc main do A B C end";
    let (ops, _) = lower(src).unwrap();
    assert_eq!(
        ops[3..6],
        [
            Op::Push(IConst::U64(7)),
            Op::Push(IConst::U64(49)),
            Op::Push(IConst::I64((-42i64) as u64)),
        ]
    );
}

#[test]
fn folds_booleans_and_comparisons() {
    let (ops, _) = lower("const T : bool do 1 2 < end proc main do T end").unwrap();
    assert_eq!(ops[3], Op::Push(IConst::Bool(1)));
}

#[test]
fn constant_cycle_is_an_error() {
    let r = lower("const A : uint do B end const B : uint do A end proc main do A end");
    assert_eq!(r, Err(LowerError::Cycle(chars("A"))));
    let r = lower("const S : uint do S 1 + end proc main do S end");
    assert_eq!(r, Err(LowerError::Cycle(chars("S"))));
}

#[test]
fn constant_that_calls_a_procedure_is_unresolved() {
    let r = lower("const A : uint do f end proc f do 1 end proc main do A end");
    assert_eq!(r, Err(LowerError::Unresolved(chars("f"))));
}

#[test]
fn constant_that_cannot_be_evaluated() {
    let r = lower("const A : uint do 1 0 divmod end proc main do A end");
    assert_eq!(r, Err(LowerError::EvalFailed(chars("A"))));
}

#[test]
fn unreachable_items_are_skipped() {
    let mut its = items("proc main do 1 end proc unused do 2 end const K : uint do 1 0 divmod end");
    its[1].3 = false;
    its[2].3 = false;
    let (ops, _) = Compiler::new().compile(its, &StackEval).unwrap();
    assert_eq!(ops.len(), 5);
    assert!(!ops.contains(&Op::Proc(chars("unused"))));
}

#[test]
fn unknown_words_are_calls() {
    let (ops, _) = lower("proc main do missing end").unwrap();
    assert_eq!(ops[3], Op::Call(chars("missing")));
}

#[test]
fn bind_reads_bindings_by_depth() {
    let (ops, _) = lower("proc main do 1 2 bind a : int b : int do b a end end").unwrap();
    assert_eq!(
        ops[3..],
        [
            Op::Push(IConst::U64(1)),
            Op::Push(IConst::U64(2)),
            Op::Bind,
            Op::Bind,
            Op::UseBinding(1),
            Op::UseBinding(0),
            Op::Unbind,
            Op::Unbind,
            Op::Return,
        ]
    );
}

#[test]
fn inner_bindings_shadow_outer_ones() {
    let src = "proc main do 1 bind a : int do 2 bind a : int _ do a end a end end";
    let (ops, _) = lower(src).unwrap();
    assert_eq!(
        ops[3..],
        [
            Op::Push(IConst::U64(1)),
            Op::Bind,
            Op::Push(IConst::U64(2)),
            Op::Bind,
            Op::Bind,
            Op::UseBinding(0),
            Op::Unbind,
            Op::Unbind,
            Op::UseBinding(0),
            Op::Unbind,
            Op::Return,
        ]
    );
}

#[test]
fn debugging_stop_ends_its_block() {
    let (ops, _) = lower("proc main do true if 1 &?& 2 end 3 end").unwrap();
    assert_eq!(
        ops[3..],
        [
            Op::Push(IConst::Bool(1)),
            Op::JumpF(chars(".main~0")),
            Op::Push(IConst::U64(1)),
            Op::Label(chars(".main~0")),
            Op::Push(IConst::U64(3)),
            Op::Return,
        ]
    );
}

#[test]
fn string_literals_are_pooled_without_dedup() {
    let lit = |s: &str| AstNode { span: Span::new(0, 0), ast: AstKind::Str(s.as_bytes().to_vec()) };
    let body = vec![lit("hi"), lit("hi"), lit("yo")];
    let p = Proc { signature: Signature { ins: vec![], outs: vec![] }, body };
    let its: Vec<LowerItem> = vec![(chars("main"), TopLevel::Proc(p), Span::new(0, 0), true)];
    let (ops, strings) = Compiler::new().compile(its, &StackEval).unwrap();
    assert_eq!(ops[3..6], [Op::PushStr(0), Op::PushStr(1), Op::PushStr(2)]);
    assert_eq!(strings, vec![b"hi".to_vec(), b"hi".to_vec(), b"yo".to_vec()]);
}

#[test]
fn default_compiler_is_new() {
    let (ops, _) = Compiler::default().compile(items("proc main do end"), &StackEval).unwrap();
    assert_eq!(ops.len(), 4);
}

fn depth_after(ops: &[Op], start: i64) -> Option<i64> {
    let mut d = start;
    for op in ops {
        let (need, delta) = match op {
            Op::Push(_) => (0, 1),
            Op::Dup => (1, 1),
            Op::Drop => (1, -1),
            Op::Swap => (2, 0),
            Op::Over => (2, 1),
            Op::Divmod => (2, 0),
            Op::Add | Op::Sub | Op::Mul | Op::Eq | Op::Ne | Op::Lt | Op::Le | Op::Gt | Op::Ge => (2, -1),
            _ => return None,
        };
        if d < need {
            return None;
        }
        d += delta;
    }
    Some(d)
}

#[test]
fn straight_block_keeps_its_declared_depth() {
    let (ops, _) = lower("proc f int int : int do over over + swap drop * 3 divmod drop end").unwrap();
    let body = &ops[3..ops.len() - 1];
    assert_eq!(depth_after(body, 2), Some(1));
    assert_eq!(depth_after(body, 1), None);
}

fn consts_of(src: &str) -> Vec<(Vec<char>, Const)> {
    items(src)
        .into_iter()
        .filter_map(|(n, t, _, _)| match t {
            TopLevel::Const(c) => Some((n, c)),
            _ => None,
        })
        .collect()
}

#[test]
fn compile_const_folds_a_constant_alone() {
    let mut c = Compiler::with_consts(consts_of("const N : uint do 2 3 + end"));
    assert_eq!(c.compile_const(0, &StackEval), Ok(IConst::U64(5)));
    assert_eq!(c.compile_const(0, &StackEval), Ok(IConst::U64(5)));
}

#[test]
fn compile_const_folds_dependencies_first() {
    let mut c = Compiler::with_consts(consts_of(
        "const B : int do A 10 - end const A : uint do 4 end const T : bool do 0 end",
    ));
    assert_eq!(c.compile_const(0, &StackEval), Ok(IConst::I64((-6i64) as u64)));
    assert_eq!(c.compile_const(1, &StackEval), Ok(IConst::U64(4)));
    assert_eq!(c.compile_const(2, &StackEval), Ok(IConst::Bool(0)));
}

#[test]
fn compile_const_rejects_cycles() {
    let mut c = Compiler::with_consts(consts_of("const A : uint do A end"));
    assert_eq!(c.compile_const(0, &StackEval), Err(LowerError::Cycle(chars("A"))));
    let mut c = Compiler::with_consts(consts_of("const A : uint do B end const B : uint do A end"));
    assert_eq!(c.compile_const(0, &StackEval), Err(LowerError::Cycle(chars("A"))));
}

#[test]
fn compile_runs_agree() {
    let src = "const N : uint do 2 3 + end proc main do N print end";
    assert_eq!(lower(src), lower(src));
}

#[test]
fn labels_of_similar_procedure_names_never_alias() {
    let ifs = "true if end ".repeat(11);
    let src = format!("proc a do {}end proc a1 do true if end end proc main do a a1 end", ifs);
    let (ops, _) = lower(&src).unwrap();
    let ls = labels(&ops);
    assert!(ls.contains(&".a~10".to_string()));
    assert!(ls.contains(&".a1~0".to_string()));
    let mut sorted = ls.clone();
    sorted.sort();
    sorted.dedup();
    assert_eq!(sorted.len(), ls.len());
}
