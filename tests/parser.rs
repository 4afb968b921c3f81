use stackc::hir::{procs, AstKind, Binding, Expected, IConst, Intrinsic, ParseErrorKind, TopLevel, Type};
use stackc::lexer::Token;
use stackc::lexer::lex_string;

fn parse(src: &str) -> Result<Vec<(Vec<char>, TopLevel, stackc::span::Span)>, stackc::hir::ParseError> {
    procs(&lex_string(src).unwrap())
}

fn name(v: &[char]) -> String {
    v.iter().collect()
}

#[test]
fn parses_a_procedure() {
    let items = parse("proc main do 1 2 + print end").unwrap();
    assert_eq!(items.len(), 1);
    assert_eq!(name(&items[0].0), "main");
    let p = items[0].1.as_proc().unwrap();
    assert!(p.signature.ins.is_empty() && p.signature.outs.is_empty());
    let b = &p.body;
    assert_eq!(b.len(), 4);
    assert!(matches!(b[0].ast, AstKind::Literal(IConst::U64(1))));
    assert!(matches!(b[1].ast, AstKind::Literal(IConst::U64(2))));
    assert!(matches!(b[2].ast, AstKind::Intrinsic(Intrinsic::Add)));
    assert!(matches!(b[3].ast, AstKind::Intrinsic(Intrinsic::Print)));
    assert!(items[0].1.as_const().is_none());
}

#[test]
fn parses_signature_and_constant() {
    let items = parse("proc f int uint : bool do drop drop true end const N : uint do 2 3 + end").unwrap();
    assert_eq!(items.len(), 2);
    let p = items[0].1.as_proc().unwrap();
    assert_eq!(p.signature.ins, vec![Type::I64, Type::U64]);
    assert_eq!(p.signature.outs, vec![Type::Bool]);
    assert!(matches!(p.body[2].ast, AstKind::Literal(IConst::Bool(1))));
    let c = items[1].1.as_const().unwrap();
    assert_eq!(c.ty, Type::U64);
    assert_eq!(c.body.len(), 3);
    assert!(items[1].1.as_proc().is_none());
}

#[test]
fn parses_control_structures() {
    let items = parse("proc main do true if 1 else 2 end while dup do drop end bind a : int _ do a end end").unwrap();
    let b = &items[0].1.as_proc().unwrap().body;
    assert_eq!(b.len(), 4);
    match &b[1].ast {
        AstKind::If(i) => {
            assert_eq!(i.truth.len(), 1);
            assert_eq!(i.lie.as_ref().unwrap().len(), 1);
        }
        _ => panic!("expected if"),
    }
    match &b[2].ast {
        AstKind::While(w) => {
            assert_eq!(w.cond.len(), 1);
            assert_eq!(w.body.len(), 1);
        }
        _ => panic!("expected while"),
    }
    match &b[3].ast {
        AstKind::Bind(bd) => {
            assert_eq!(bd.bindings.len(), 2);
            assert!(matches!(&bd.bindings[0], Binding::Bind { ty: Type::I64, .. }));
            assert!(matches!(bd.bindings[1], Binding::Ignore));
            assert!(matches!(&bd.body[0].ast, AstKind::Word(w) if name(w) == "a"));
        }
        _ => panic!("expected bind"),
    }
}

#[test]
fn words_and_intrinsics() {
    let items = parse("proc main do foo dup &? &?& end").unwrap();
    let b = &items[0].1.as_proc().unwrap().body;
    assert!(matches!(&b[0].ast, AstKind::Word(w) if name(w) == "foo"));
    assert!(matches!(b[1].ast, AstKind::Intrinsic(Intrinsic::Dup)));
    assert!(matches!(b[2].ast, AstKind::Intrinsic(Intrinsic::Dump)));
    assert!(matches!(b[3].ast, AstKind::Intrinsic(Intrinsic::CompStop)));
}

#[test]
fn node_spans_cover_their_tokens() {
    let items = parse("proc main do true if 1 end end").unwrap();
    let b = &items[0].1.as_proc().unwrap().body;
    assert_eq!(b[1].span, stackc::span::Span::new(18, 26));
    assert_eq!(items[0].2, stackc::span::Span::new(0, 30));
}

#[test]
fn missing_end_is_an_error() {
    let e = parse("proc main do 1 2 +").unwrap_err();
    assert_eq!(e.kind, ParseErrorKind::UnexpectedEnd);
    assert_eq!(e.expected, Expected::End);
    assert_eq!(e.found, None);
    assert_eq!(e.span, stackc::span::Span::new(18, 18));
}

#[test]
fn unexpected_token_is_an_error() {
    let e = parse("proc main do 1 : end").unwrap_err();
    assert_eq!(e.kind, ParseErrorKind::Unexpected);
    assert_eq!(e.pos, 4);
    assert_eq!(e.found, Some(Token::SigSep));
    assert_eq!(e.expected, Expected::End);
    assert_eq!(e.span, stackc::span::Span::new(15, 16));
}

#[test]
fn intrinsic_spelling_is_no_name() {
    assert!(parse("proc dup do end").is_err());
    assert!(parse("proc main do bind + : int do end end").is_err());
}

#[test]
fn number_out_of_range_is_an_error() {
    let e = parse("proc main do 18446744073709551616 end").unwrap_err();
    assert_eq!(e.kind, ParseErrorKind::NumberOutOfRange);
    assert!(parse("proc main do 18446744073709551615 end").is_ok());
}

#[test]
fn signature_separator_needs_outputs() {
    assert!(parse("proc f int : do end").is_err());
}

#[test]
fn const_needs_its_type() {
    let e = parse("const N : do 1 end").unwrap_err();
    assert_eq!(e.expected, Expected::Type);
    let e = parse("const N").unwrap_err();
    assert_eq!(e.expected, Expected::SigSep);
    let e = parse("1 2").unwrap_err();
    assert_eq!(e.expected, Expected::Item);
}

#[test]
fn duplicate_names_are_rejected() {
    let e = parse("proc f do end const g : uint do 1 end proc f do 2 end").unwrap_err();
    assert_eq!(e.kind, ParseErrorKind::DuplicateName);
    assert_eq!(e.pos, 12);
    assert_eq!(e.found, Some(Token::Word("f".chars().collect())));
    assert!(parse("proc f do end proc g do end").is_ok());
}

#[test]
fn error_at_end_of_empty_tokens() {
    let e = procs(&vec![]).map(|_| ()).err();
    assert!(e.is_none());
    let e = parse("proc").unwrap_err();
    assert_eq!(e.kind, ParseErrorKind::UnexpectedEnd);
    assert_eq!(e.span, stackc::span::Span::new(4, 4));
}

#[test]
fn empty_program() {
    assert!(parse("").unwrap().is_empty());
}
