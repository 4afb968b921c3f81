use stackc::lexer::{lex_string, word_parser, KeyWord, LexErrorKind, Token};
use stackc::span::Span;

fn chars(s: &str) -> Vec<char> {
    s.chars().collect()
}

fn kinds(src: &str) -> Vec<Token> {
    lex_string(src).unwrap().into_iter().map(|(t, _)| t).collect()
}

#[test]
fn lexes_a_procedure() {
    let toks = kinds("proc main do 1 2 + print end");
    assert_eq!(
        toks,
        vec![
            Token::KeyWord(KeyWord::Proc),
            Token::Word(chars("main")),
            Token::KeyWord(KeyWord::Do),
            Token::Num(chars("1")),
            Token::Num(chars("2")),
            Token::Word(chars("+")),
            Token::Word(chars("print")),
            Token::KeyWord(KeyWord::End),
        ]
    );
}

#[test]
fn spans_are_character_ranges() {
    let toks = lex_string("  dup ; note\n42").unwrap();
    assert_eq!(toks.len(), 2);
    assert_eq!(toks[0].1, Span::new(2, 5));
    assert_eq!(toks[1].1, Span::new(13, 15));
}

#[test]
fn token_ranges_cover_everything_but_trivia() {
    let src = "proc f int : bool do ; comment\n  \"a b\" 'x' 12 -> &> _ true end ; tail";
    let all: Vec<char> = src.chars().collect();
    let toks = lex_string(src).unwrap();
    let mut covered = String::new();
    let mut last = 0;
    for (_, span) in &toks {
        assert!(span.start >= last && span.start < span.end);
        let gap: String = all[last..span.start].iter().collect();
        let trimmed: String = gap
            .lines()
            .map(|l| match l.find(';') {
                Some(i) => &l[..i],
                None => l,
            })
            .collect();
        assert!(trimmed.trim().is_empty(), "gap {:?} holds more than trivia", gap);
        covered.extend(all[span.start..span.end].iter());
        last = span.end;
    }
    assert_eq!(covered, "procfint:booldo\"a b\"'x'12->&>_trueend");
}

#[test]
fn keywords_booleans_and_markers() {
    let toks = kinds("if else while bind const _ true false : -> &> x_y");
    assert_eq!(
        toks,
        vec![
            Token::KeyWord(KeyWord::If),
            Token::KeyWord(KeyWord::Else),
            Token::KeyWord(KeyWord::While),
            Token::KeyWord(KeyWord::Bind),
            Token::KeyWord(KeyWord::Const),
            Token::Ignore,
            Token::Bool(true),
            Token::Bool(false),
            Token::SigSep,
            Token::FieldAccess,
            Token::Ptr,
            Token::Word(chars("x_y")),
        ]
    );
}

#[test]
fn operator_words() {
    let toks = kinds("!= &?& <= >= divmod");
    assert_eq!(
        toks,
        vec![
            Token::Word(chars("!=")),
            Token::Word(chars("&?&")),
            Token::Word(chars("<=")),
            Token::Word(chars(">=")),
            Token::Word(chars("divmod")),
        ]
    );
}

#[test]
fn numbers_have_no_leading_zeros() {
    assert_eq!(kinds("0123"), vec![Token::Num(chars("0")), Token::Num(chars("123"))]);
    assert_eq!(kinds("12abc"), vec![Token::Num(chars("12")), Token::Word(chars("abc"))]);
}

#[test]
fn string_and_char_escapes() {
    assert_eq!(kinds(r#""a\tb\\c\n""#), vec![Token::Str(chars("a\tb\\c\n"))]);
    assert_eq!(kinds(r"'\n' 'q'"), vec![Token::Char('\n'), Token::Char('q')]);
}

#[test]
fn invalid_escape_is_an_error() {
    let e = lex_string(r#""a\qb""#).unwrap_err();
    assert_eq!(e.kind, LexErrorKind::InvalidEscape);
    assert_eq!(e.span, Span::new(0, 6));
    let e = lex_string(r"'\z'").unwrap_err();
    assert_eq!(e.kind, LexErrorKind::InvalidEscape);
}

#[test]
fn invalid_character_is_an_error() {
    let e = lex_string("dup ~ drop").unwrap_err();
    assert_eq!(e.kind, LexErrorKind::InvalidChar);
    assert_eq!(e.span, Span::new(4, 5));
}

#[test]
fn unterminated_literals_are_errors() {
    assert_eq!(lex_string("\"abc").unwrap_err().kind, LexErrorKind::Unterminated);
    assert_eq!(lex_string("'a").unwrap_err().kind, LexErrorKind::Unterminated);
}

#[test]
fn empty_and_comment_only_sources() {
    assert!(lex_string("").unwrap().is_empty());
    assert!(lex_string("  ; only a comment").unwrap().is_empty());
}

#[test]
fn word_parser_finds_word_ends() {
    let src = chars("ab+c 1x");
    assert_eq!(word_parser(&src, 0), Some(4));
    assert_eq!(word_parser(&src, 4), None);
    assert_eq!(word_parser(&src, 5), None);
    assert_eq!(word_parser(&src, 6), Some(7));
}

#[test]
fn span_union_and_point() {
    let a = Span::new(3, 5);
    let b = Span::new(1, 4);
    assert_eq!(a.union(&b), Span::new(1, 5));
    assert_eq!(Span::point(7), Span::new(7, 8));
}
