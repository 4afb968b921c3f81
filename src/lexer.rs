//! Source text to tokens, each with its range of source text.

use vstd::prelude::*;
use crate::span::Span;
use crate::textbuf::chars_of;

verus! {

#[derive(Clone, Copy, Debug, PartialEq, Eq, Structural)]
pub enum KeyWord {
    Include,
    Return,
    Cond,
    If,
    Else,
    Proc,
    While,
    Do,
    Bind,
    Const,
    Mem,
    Var,
    Struct,
    Cast,
    End,
}

/// A token of the source language.
#[derive(Clone, Debug, PartialEq, Eq)]
pub enum Token {
    Bool(bool),
    Word(Vec<char>),
    Str(Vec<char>),
    Char(char),
    KeyWord(KeyWord),
    Num(Vec<char>),
    Ignore,
    SigSep,
    Ptr,
    FieldAccess,
}

/// A token with its text seen as a character sequence.
pub ghost enum TokenV {
    Bool(bool),
    Word(Seq<char>),
    Str(Seq<char>),
    Char(char),
    KeyWord(KeyWord),
    Num(Seq<char>),
    Ignore,
    SigSep,
    Ptr,
    FieldAccess,
}

impl View for Token {
    type V = TokenV;

    open spec fn view(&self) -> TokenV {
        match self {
            Token::Bool(b) => TokenV::Bool(*b),
            Token::Word(w) => TokenV::Word(w@),
            Token::Str(s) => TokenV::Str(s@),
            Token::Char(c) => TokenV::Char(*c),
            Token::KeyWord(k) => TokenV::KeyWord(*k),
            Token::Num(n) => TokenV::Num(n@),
            Token::Ignore => TokenV::Ignore,
            Token::SigSep => TokenV::SigSep,
            Token::Ptr => TokenV::Ptr,
            Token::FieldAccess => TokenV::FieldAccess,
        }
    }
}

#[derive(Clone, Copy, Debug, PartialEq, Eq, Structural)]
pub enum LexErrorKind {
    /// A character that starts no token.
    InvalidChar,
    /// A backslash escape other than `\n`, `\r`, `\t` and `\\`.
    InvalidEscape,
    /// A string or character literal without its closing quote.
    Unterminated,
}

/// A lexical error and the range of source text it concerns.
#[derive(Clone, Copy, Debug, PartialEq, Eq, Structural)]
pub struct LexError {
    pub kind: LexErrorKind,
    pub span: Span,
}

/// The tokens with their ranges, as the lexer's specification states them.
pub open spec fn tokens_view(v: Seq<(Token, Span)>) -> Seq<(TokenV, Span)> {
    v.map_values(|t: (Token, Span)| (t.0@, t.1))
}

pub open spec fn lexed_view(r: Result<Vec<(Token, Span)>, LexError>) -> Result<Seq<(TokenV, Span)>, LexError> {
    match r {
        Ok(v) => Ok(tokens_view(v@)),
        Err(e) => Err(e),
    }
}

/// White space as Unicode defines it.
pub open spec fn is_ws(c: char) -> bool {
    let u = c as u32;
    u == 0x20 || (0x09 <= u && u <= 0x0d) || u == 0x85 || u == 0xa0 || u == 0x1680 || (0x2000
        <= u && u <= 0x200a) || u == 0x2028 || u == 0x2029 || u == 0x202f || u == 0x205f || u
        == 0x3000
}

/// The punctuation that may stand in a word.
pub open spec fn is_word_punct(c: char) -> bool {
    c == '(' || c == ')' || c == '{' || c == '}' || c == '[' || c == ']' || c == '<' || c == '>'
        || c == '|' || c == '\\' || c == '/' || c == '!' || c == '@' || c == '#' || c == '$' || c
        == '%' || c == '^' || c == '&' || c == '*' || c == '-' || c == '=' || c == '+' || c == '_'
        || c == '?' || c == '.' || c == ','
}

pub open spec fn is_alpha(c: char) -> bool {
    ('a' <= c && c <= 'z') || ('A' <= c && c <= 'Z')
}

pub open spec fn is_digit(c: char) -> bool {
    '0' <= c && c <= '9'
}

pub open spec fn is_word_start(c: char) -> bool {
    is_alpha(c) || is_word_punct(c)
}

pub open spec fn is_word_char(c: char) -> bool {
    is_alpha(c) || is_digit(c) || is_word_punct(c)
}

/// The position of the first character at or after `pos` that is neither
/// white space nor part of a comment; `in_comment` says that `pos` lies in
/// a comment. A comment runs from `;` to the end of its line.
pub open spec fn skip_trivia(src: Seq<char>, pos: nat, in_comment: bool) -> nat
    decreases src.len() - pos,
{
    if pos >= src.len() {
        src.len()
    } else if in_comment {
        skip_trivia(src, pos + 1, src[pos as int] != '\n')
    } else if is_ws(src[pos as int]) {
        skip_trivia(src, pos + 1, false)
    } else if src[pos as int] == ';' {
        skip_trivia(src, pos + 1, true)
    } else {
        pos
    }
}

/// The end of the run of digits (`digits`) or of word characters that
/// starts at `pos`.
pub open spec fn run_end(src: Seq<char>, pos: nat, digits: bool) -> nat
    decreases src.len() - pos,
{
    if pos >= src.len() {
        src.len()
    } else if (digits && is_digit(src[pos as int])) || (!digits && is_word_char(
        src[pos as int],
    )) {
        run_end(src, pos + 1, digits)
    } else {
        pos
    }
}

/// The position of the first `"` at or after `pos`.
pub open spec fn find_quote(src: Seq<char>, pos: nat) -> Option<nat>
    decreases src.len() - pos,
{
    if pos >= src.len() {
        None
    } else if src[pos as int] == '"' {
        Some(pos)
    } else {
        find_quote(src, pos + 1)
    }
}

/// The character that a backslash followed by `c` stands for.
pub open spec fn escape_of(c: char) -> Option<char> {
    if c == 'n' {
        Some('\n')
    } else if c == 'r' {
        Some('\r')
    } else if c == 't' {
        Some('\t')
    } else if c == '\\' {
        Some('\\')
    } else {
        None
    }
}

/// The text of a string literal's body with its escapes replaced; `None`
/// where an escape is invalid.
pub open spec fn unescape(s: Seq<char>) -> Option<Seq<char>>
    decreases s.len(),
{
    if s.len() == 0 {
        Some(Seq::empty())
    } else if s[0] == '\\' {
        if s.len() < 2 {
            None
        } else {
            match escape_of(s[1]) {
                None => None,
                Some(c) => match unescape(s.subrange(2, s.len() as int)) {
                    None => None,
                    Some(rest) => Some(seq![c] + rest),
                },
            }
        }
    } else {
        match unescape(s.subrange(1, s.len() as int)) {
            None => None,
            Some(rest) => Some(seq![s[0]] + rest),
        }
    }
}

pub open spec fn keyword_of(w: Seq<char>) -> Option<KeyWord> {
    if w == "include"@ {
        Some(KeyWord::Include)
    } else if w == "return"@ {
        Some(KeyWord::Return)
    } else if w == "cond"@ {
        Some(KeyWord::Cond)
    } else if w == "if"@ {
        Some(KeyWord::If)
    } else if w == "else"@ {
        Some(KeyWord::Else)
    } else if w == "proc"@ {
        Some(KeyWord::Proc)
    } else if w == "while"@ {
        Some(KeyWord::While)
    } else if w == "do"@ {
        Some(KeyWord::Do)
    } else if w == "bind"@ {
        Some(KeyWord::Bind)
    } else if w == "const"@ {
        Some(KeyWord::Const)
    } else if w == "mem"@ {
        Some(KeyWord::Mem)
    } else if w == "var"@ {
        Some(KeyWord::Var)
    } else if w == "struct"@ {
        Some(KeyWord::Struct)
    } else if w == "cast"@ {
        Some(KeyWord::Cast)
    } else if w == "end"@ {
        Some(KeyWord::End)
    } else {
        None
    }
}

/// The token that a run of word characters forms.
pub open spec fn word_token(w: Seq<char>) -> TokenV {
    if w == "_"@ {
        TokenV::Ignore
    } else if w == "true"@ {
        TokenV::Bool(true)
    } else if w == "false"@ {
        TokenV::Bool(false)
    } else {
        match keyword_of(w) {
            Some(k) => TokenV::KeyWord(k),
            None => TokenV::Word(w),
        }
    }
}

pub open spec fn lex_err(kind: LexErrorKind, start: nat, end: nat) -> LexError {
    LexError { kind, span: Span { start: start as usize, end: end as usize } }
}

/// The token that starts at `pos` (a position that is not white space nor
/// comment) and the position after it.
pub open spec fn scan_token(src: Seq<char>, pos: nat) -> Result<(TokenV, nat), LexError> {
    let c = src[pos as int];
    let n = src.len();
    if c == '0' {
        Ok((TokenV::Num(seq!['0']), pos + 1))
    } else if is_digit(c) {
        let e = run_end(src, pos, true);
        Ok((TokenV::Num(src.subrange(pos as int, e as int)), e))
    } else if c == '\'' {
        if pos + 2 < n && src[(pos + 1) as int] == '\\' {
            match escape_of(src[(pos + 2) as int]) {
                None => Err(lex_err(LexErrorKind::InvalidEscape, pos + 1, pos + 3)),
                Some(e) => if pos + 3 < n && src[(pos + 3) as int] == '\'' {
                    Ok((TokenV::Char(e), pos + 4))
                } else {
                    Err(lex_err(LexErrorKind::Unterminated, pos, pos + 1))
                },
            }
        } else if pos + 2 < n && src[(pos + 2) as int] == '\'' {
            Ok((TokenV::Char(src[(pos + 1) as int]), pos + 3))
        } else {
            Err(lex_err(LexErrorKind::Unterminated, pos, pos + 1))
        }
    } else if c == '"' {
        match find_quote(src, pos + 1) {
            None => Err(lex_err(LexErrorKind::Unterminated, pos, pos + 1)),
            Some(q) => match unescape(src.subrange((pos + 1) as int, q as int)) {
                None => Err(lex_err(LexErrorKind::InvalidEscape, pos, q + 1)),
                Some(s) => Ok((TokenV::Str(s), q + 1)),
            },
        }
    } else if c == '-' && pos + 1 < n && src[(pos + 1) as int] == '>' {
        Ok((TokenV::FieldAccess, pos + 2))
    } else if c == '&' && pos + 1 < n && src[(pos + 1) as int] == '>' {
        Ok((TokenV::Ptr, pos + 2))
    } else if c == ':' {
        Ok((TokenV::SigSep, pos + 1))
    } else if is_word_start(c) {
        let e = run_end(src, pos, false);
        Ok((word_token(src.subrange(pos as int, e as int)), e))
    } else {
        Err(lex_err(LexErrorKind::InvalidChar, pos, pos + 1))
    }
}

/// The tokens of `src` from `pos` on, each with its range, or the first
/// lexical error.
pub open spec fn lex_from(src: Seq<char>, pos: nat) -> Result<Seq<(TokenV, Span)>, LexError>
    decreases src.len() - pos,
{
    let p = skip_trivia(src, pos, false);
    if pos > src.len() || p >= src.len() {
        Ok(Seq::empty())
    } else {
        match scan_token(src, p) {
            Err(e) => Err(e),
            Ok((t, e)) => if e <= pos || e > src.len() {
                Ok(Seq::empty())
            } else {
                match lex_from(src, e) {
                    Err(err) => Err(err),
                    Ok(rest) => Ok(seq![(t, Span { start: p as usize, end: e as usize })] + rest),
                }
            },
        }
    }
}

fn is_ws_char(c: char) -> (r: bool)
    ensures
        r == is_ws(c),
{
    let u = c as u32;
    u == 0x20 || (0x09 <= u && u <= 0x0d) || u == 0x85 || u == 0xa0 || u == 0x1680 || (0x2000
        <= u && u <= 0x200a) || u == 0x2028 || u == 0x2029 || u == 0x202f || u == 0x205f || u
        == 0x3000
}

fn is_word_punct_char(c: char) -> (r: bool)
    ensures
        r == is_word_punct(c),
{
    c == '(' || c == ')' || c == '{' || c == '}' || c == '[' || c == ']' || c == '<' || c == '>'
        || c == '|' || c == '\\' || c == '/' || c == '!' || c == '@' || c == '#' || c == '$' || c
        == '%' || c == '^' || c == '&' || c == '*' || c == '-' || c == '=' || c == '+' || c == '_'
        || c == '?' || c == '.' || c == ','
}

fn is_digit_char(c: char) -> (r: bool)
    ensures
        r == is_digit(c),
{
    '0' <= c && c <= '9'
}

fn is_word_start_char(c: char) -> (r: bool)
    ensures
        r == is_word_start(c),
{
    ('a' <= c && c <= 'z') || ('A' <= c && c <= 'Z') || is_word_punct_char(c)
}

fn is_word_char_char(c: char) -> (r: bool)
    ensures
        r == is_word_char(c),
{
    ('a' <= c && c <= 'z') || ('A' <= c && c <= 'Z') || ('0' <= c && c <= '9')
        || is_word_punct_char(c)
}

fn skip_trivia_at(src: &Vec<char>, pos: usize) -> (r: usize)
    requires
        pos <= src@.len(),
    ensures
        r as nat == skip_trivia(src@, pos as nat, false),
        pos <= r <= src@.len(),
{
    let mut p = pos;
    let mut in_comment = false;
    while p < src.len()
        invariant
            pos <= p <= src@.len(),
            skip_trivia(src@, pos as nat, false) == skip_trivia(src@, p as nat, in_comment),
        decreases src@.len() - p,
    {
        let c = src[p];
        if in_comment {
            in_comment = c != '\n';
        } else if is_ws_char(c) {
        } else if c == ';' {
            in_comment = true;
        } else {
            return p;
        }
        p = p + 1;
    }
    p
}

proof fn lemma_run_end_bounds(src: Seq<char>, pos: nat, digits: bool)
    requires
        pos <= src.len(),
    ensures
        pos <= run_end(src, pos, digits) <= src.len(),
    decreases src.len() - pos,
{
    if pos < src.len() {
        lemma_run_end_bounds(src, pos + 1, digits);
    }
}

fn run_end_at(src: &Vec<char>, pos: usize, digits: bool) -> (r: usize)
    requires
        pos <= src@.len(),
    ensures
        r as nat == run_end(src@, pos as nat, digits),
        pos <= r <= src@.len(),
{
    let mut p = pos;
    while p < src.len()
        invariant
            pos <= p <= src@.len(),
            run_end(src@, pos as nat, digits) == run_end(src@, p as nat, digits),
        decreases src@.len() - p,
    {
        let c = src[p];
        let more = if digits { is_digit_char(c) } else { is_word_char_char(c) };
        if !more {
            return p;
        }
        p = p + 1;
    }
    p
}

/// The end of the word that starts at `pos`: a letter or a punctuation
/// character of the word set, then letters, digits and that punctuation.
/// `None` where no word starts at `pos`.
pub fn word_parser(src: &Vec<char>, pos: usize) -> (r: Option<usize>)
    ensures
        match r {
            Some(e) => pos < src@.len() && is_word_start(src@[pos as int]) && e as nat == run_end(
                src@,
                pos as nat,
                false,
            ),
            None => !(pos < src@.len() && is_word_start(src@[pos as int])),
        },
{
    if pos < src.len() && is_word_start_char(src[pos]) {
        Some(run_end_at(src, pos, false))
    } else {
        None
    }
}

fn find_quote_at(src: &Vec<char>, pos: usize) -> (r: Option<usize>)
    requires
        pos <= src@.len(),
    ensures
        match r {
            Some(q) => find_quote(src@, pos as nat) == Some(q as nat) && pos <= q < src@.len(),
            None => find_quote(src@, pos as nat) is None,
        },
{
    let mut p = pos;
    while p < src.len()
        invariant
            pos <= p <= src@.len(),
            find_quote(src@, pos as nat) == find_quote(src@, p as nat),
        decreases src@.len() - p,
    {
        if src[p] == '"' {
            return Some(p);
        }
        p = p + 1;
    }
    None
}

fn escape_char(c: char) -> (r: Option<char>)
    ensures
        r == escape_of(c),
{
    if c == 'n' {
        Some('\n')
    } else if c == 'r' {
        Some('\r')
    } else if c == 't' {
        Some('\t')
    } else if c == '\\' {
        Some('\\')
    } else {
        None
    }
}

pub open spec fn prefixed(acc: Seq<char>, o: Option<Seq<char>>) -> Option<Seq<char>> {
    match o {
        None => None,
        Some(r) => Some(acc + r),
    }
}

fn unescape_range(src: &Vec<char>, from: usize, to: usize) -> (r: Option<Vec<char>>)
    requires
        from <= to <= src@.len(),
    ensures
        match r {
            Some(v) => unescape(src@.subrange(from as int, to as int)) == Some(v@),
            None => unescape(src@.subrange(from as int, to as int)) is None,
        },
{
    let ghost whole = src@.subrange(from as int, to as int);
    let mut acc: Vec<char> = Vec::new();
    let mut i = from;
    assert(acc@ + whole =~= whole);
    while i < to
        invariant
            from <= i <= to <= src@.len(),
            whole == src@.subrange(from as int, to as int),
            unescape(whole) == prefixed(acc@, unescape(src@.subrange(i as int, to as int))),
        decreases to - i,
    {
        let ghost s = src@.subrange(i as int, to as int);
        let c = src[i];
        assert(s[0] == c);
        if c == '\\' {
            if to - i < 2 {
                return None;
            }
            assert(s[1] == src@[i + 1]);
            match escape_char(src[i + 1]) {
                None => {
                    return None;
                },
                Some(e) => {
                    assert(s.subrange(2, s.len() as int) =~= src@.subrange(i + 2, to as int));
                    let ghost before = acc@;
                    acc.push(e);
                    proof {
                        match unescape(src@.subrange(i + 2, to as int)) {
                            None => {},
                            Some(rest) => {
                                assert(before + (seq![e] + rest) =~= acc@ + rest);
                            },
                        }
                    }
                    i = i + 2;
                },
            }
        } else {
            assert(s.subrange(1, s.len() as int) =~= src@.subrange(i + 1, to as int));
            let ghost before = acc@;
            acc.push(c);
            proof {
                match unescape(src@.subrange(i + 1, to as int)) {
                    None => {},
                    Some(rest) => {
                        assert(before + (seq![c] + rest) =~= acc@ + rest);
                    },
                }
            }
            i = i + 1;
        }
    }
    assert(unescape(src@.subrange(i as int, to as int)) == Some(Seq::<char>::empty())) by {
        assert(src@.subrange(i as int, to as int).len() == 0);
    }
    assert(acc@ + Seq::<char>::empty() =~= acc@);
    Some(acc)
}

/// Whether the characters of `v` are those of `s`.
pub fn same_text(v: &Vec<char>, s: &str) -> (r: bool)
    ensures
        r == (v@ == s@),
{
    let n = s.unicode_len();
    if v.len() != n {
        return false;
    }
    let mut i: usize = 0;
    while i < n
        invariant
            n == s@.len() == v@.len(),
            i <= n,
            forall|k: int| 0 <= k < i ==> v@[k] == s@[k],
        decreases n - i,
    {
        if v[i] != s.get_char(i) {
            return false;
        }
        i = i + 1;
    }
    assert(v@ =~= s@);
    true
}

fn keyword(w: &Vec<char>) -> (r: Option<KeyWord>)
    ensures
        r == keyword_of(w@),
{
    if same_text(w, "include") {
        Some(KeyWord::Include)
    } else if same_text(w, "return") {
        Some(KeyWord::Return)
    } else if same_text(w, "cond") {
        Some(KeyWord::Cond)
    } else if same_text(w, "if") {
        Some(KeyWord::If)
    } else if same_text(w, "else") {
        Some(KeyWord::Else)
    } else if same_text(w, "proc") {
        Some(KeyWord::Proc)
    } else if same_text(w, "while") {
        Some(KeyWord::While)
    } else if same_text(w, "do") {
        Some(KeyWord::Do)
    } else if same_text(w, "bind") {
        Some(KeyWord::Bind)
    } else if same_text(w, "const") {
        Some(KeyWord::Const)
    } else if same_text(w, "mem") {
        Some(KeyWord::Mem)
    } else if same_text(w, "var") {
        Some(KeyWord::Var)
    } else if same_text(w, "struct") {
        Some(KeyWord::Struct)
    } else if same_text(w, "cast") {
        Some(KeyWord::Cast)
    } else if same_text(w, "end") {
        Some(KeyWord::End)
    } else {
        None
    }
}

fn classify_word(w: Vec<char>) -> (r: Token)
    ensures
        r@ == word_token(w@),
{
    if same_text(&w, "_") {
        Token::Ignore
    } else if same_text(&w, "true") {
        Token::Bool(true)
    } else if same_text(&w, "false") {
        Token::Bool(false)
    } else {
        match keyword(&w) {
            Some(k) => Token::KeyWord(k),
            None => Token::Word(w),
        }
    }
}

/// The characters of `src` in `[from, to)`.
pub fn slice_chars(src: &Vec<char>, from: usize, to: usize) -> (r: Vec<char>)
    requires
        from <= to <= src@.len(),
    ensures
        r@ == src@.subrange(from as int, to as int),
{
    let mut r: Vec<char> = Vec::new();
    let mut i = from;
    while i < to
        invariant
            from <= i <= to <= src@.len(),
            r@ == src@.subrange(from as int, i as int),
        decreases to - i,
    {
        r.push(src[i]);
        i = i + 1;
        assert(r@ =~= src@.subrange(from as int, i as int));
    }
    r
}

fn error_at(kind: LexErrorKind, start: usize, end: usize) -> (r: LexError)
    ensures
        r == lex_err(kind, start as nat, end as nat),
{
    LexError { kind, span: Span { start, end } }
}

fn scan_token_at(src: &Vec<char>, pos: usize) -> (r: Result<(Token, usize), LexError>)
    requires
        pos < src@.len(),
    ensures
        match r {
            Ok((t, e)) => scan_token(src@, pos as nat) == Ok::<(TokenV, nat), LexError>((t@, e as nat))
                && pos < e <= src@.len(),
            Err(err) => scan_token(src@, pos as nat) == Err::<(TokenV, nat), LexError>(err),
        },
{
    let c = src[pos];
    let n = src.len();
    if c == '0' {
        let mut z: Vec<char> = Vec::new();
        z.push('0');
        assert(z@ =~= seq!['0']);
        Ok((Token::Num(z), pos + 1))
    } else if is_digit_char(c) {
        let e = run_end_at(src, pos, true);
        proof {
            lemma_run_end_bounds(src@, (pos + 1) as nat, true);
        }
        Ok((Token::Num(slice_chars(src, pos, e)), e))
    } else if c == '\'' {
        if n - pos > 2 && src[pos + 1] == '\\' {
            match escape_char(src[pos + 2]) {
                None => Err(error_at(LexErrorKind::InvalidEscape, pos + 1, pos + 3)),
                Some(e) => if n - pos > 3 && src[pos + 3] == '\'' {
                    Ok((Token::Char(e), pos + 4))
                } else {
                    Err(error_at(LexErrorKind::Unterminated, pos, pos + 1))
                },
            }
        } else if n - pos > 2 && src[pos + 2] == '\'' {
            Ok((Token::Char(src[pos + 1]), pos + 3))
        } else {
            Err(error_at(LexErrorKind::Unterminated, pos, pos + 1))
        }
    } else if c == '"' {
        match find_quote_at(src, pos + 1) {
            None => Err(error_at(LexErrorKind::Unterminated, pos, pos + 1)),
            Some(q) => match unescape_range(src, pos + 1, q) {
                None => Err(error_at(LexErrorKind::InvalidEscape, pos, q + 1)),
                Some(s) => Ok((Token::Str(s), q + 1)),
            },
        }
    } else if c == '-' && n - pos > 1 && src[pos + 1] == '>' {
        Ok((Token::FieldAccess, pos + 2))
    } else if c == '&' && n - pos > 1 && src[pos + 1] == '>' {
        Ok((Token::Ptr, pos + 2))
    } else if c == ':' {
        Ok((Token::SigSep, pos + 1))
    } else if is_word_start_char(c) {
        let e = run_end_at(src, pos, false);
        proof {
            lemma_run_end_bounds(src@, (pos + 1) as nat, false);
        }
        Ok((classify_word(slice_chars(src, pos, e)), e))
    } else {
        Err(error_at(LexErrorKind::InvalidChar, pos, pos + 1))
    }
}

pub open spec fn prepend_tokens(
    acc: Seq<(TokenV, Span)>,
    r: Result<Seq<(TokenV, Span)>, LexError>,
) -> Result<Seq<(TokenV, Span)>, LexError> {
    match r {
        Ok(rest) => Ok(acc + rest),
        Err(e) => Err(e),
    }
}

/// Splits source text, given as characters, into tokens with their ranges,
/// skipping white space and comments; fails at the first character that
/// starts no token, or on an invalid literal.
pub fn lex_chars(src: &Vec<char>) -> (r: Result<Vec<(Token, Span)>, LexError>)
    ensures
        lexed_view(r) == lex_from(src@, 0),
{
    let mut toks: Vec<(Token, Span)> = Vec::new();
    let mut pos: usize = 0;
    assert(tokens_view(toks@) + Seq::<(TokenV, Span)>::empty() =~= tokens_view(toks@));
    loop
        invariant
            pos <= src@.len(),
            lex_from(src@, 0) == prepend_tokens(tokens_view(toks@), lex_from(src@, pos as nat)),
        decreases src@.len() - pos,
    {
        let p = skip_trivia_at(src, pos);
        if p >= src.len() {
            assert(tokens_view(toks@) + Seq::<(TokenV, Span)>::empty() =~= tokens_view(toks@));
            return Ok(toks);
        }
        match scan_token_at(src, p) {
            Err(e) => {
                return Err(e);
            },
            Ok((t, e)) => {
                let ghost before = tokens_view(toks@);
                let ghost tv = t@;
                let span = Span { start: p, end: e };
                toks.push((t, span));
                proof {
                    assert(tokens_view(toks@) =~= before.push((tv, span)));
                    match lex_from(src@, e as nat) {
                        Err(_) => {},
                        Ok(rest) => {
                            assert(before + (seq![(tv, span)] + rest) =~= tokens_view(toks@)
                                + rest);
                        },
                    }
                }
                pos = e;
            },
        }
    }
}

/// Splits source text into tokens with their ranges (character offsets).
pub fn lex_string(source: &str) -> (r: Result<Vec<(Token, Span)>, LexError>)
    ensures
        lexed_view(r) == lex_from(source@, 0),
{
    let chars = chars_of(source);
    lex_chars(&chars)
}

/// The ranges of `toks` follow one another from `pos` on: each one begins
/// where the white space and comments after the previous one end, holds at
/// least one character, and after the last only white space and comments
/// remain.
pub open spec fn tiles_from(src: Seq<char>, pos: nat, toks: Seq<(TokenV, Span)>) -> bool
    decreases toks.len(),
{
    if toks.len() == 0 {
        skip_trivia(src, pos, false) == src.len()
    } else {
        &&& toks[0].1.start == skip_trivia(src, pos, false)
        &&& toks[0].1.start < toks[0].1.end <= src.len()
        &&& tiles_from(src, toks[0].1.end as nat, toks.drop_first())
    }
}

proof fn lemma_skip_trivia_bounds(src: Seq<char>, pos: nat, in_comment: bool)
    requires
        pos <= src.len(),
    ensures
        pos <= skip_trivia(src, pos, in_comment) <= src.len(),
    decreases src.len() - pos,
{
    if pos < src.len() {
        lemma_skip_trivia_bounds(src, pos + 1, true);
        lemma_skip_trivia_bounds(src, pos + 1, false);
    }
}

proof fn lemma_find_quote_bounds(src: Seq<char>, pos: nat)
    ensures
        find_quote(src, pos) matches Some(q) ==> pos <= q < src.len(),
    decreases src.len() - pos,
{
    if pos < src.len() {
        lemma_find_quote_bounds(src, pos + 1);
    }
}

proof fn lemma_scan_token_advances(src: Seq<char>, pos: nat)
    requires
        pos < src.len(),
    ensures
        scan_token(src, pos) matches Ok((t, e)) ==> pos < e <= src.len(),
{
    lemma_run_end_bounds(src, pos + 1, true);
    lemma_run_end_bounds(src, pos + 1, false);
    lemma_find_quote_bounds(src, pos + 1);
}

proof fn lemma_lex_tiles_from(src: Seq<char>, pos: nat)
    requires
        pos <= src.len(),
        src.len() <= usize::MAX,
    ensures
        lex_from(src, pos) matches Ok(toks) ==> tiles_from(src, pos, toks),
    decreases src.len() - pos,
{
    let p = skip_trivia(src, pos, false);
    lemma_skip_trivia_bounds(src, pos, false);
    if p < src.len() {
        lemma_scan_token_advances(src, p);
        if let Ok((t, e)) = scan_token(src, p) {
            lemma_lex_tiles_from(src, e);
            if let Ok(rest) = lex_from(src, e) {
                let toks = seq![(t, Span { start: p as usize, end: e as usize })] + rest;
                assert(toks.drop_first() =~= rest);
            }
        }
    }
}

/// Lexing drops nothing but white space and comments: the ranges of the
/// tokens, in order, cover the source text except for the white space and
/// comments between them, before the first and after the last.
pub proof fn lemma_tokens_tile_source(src: Seq<char>)
    requires
        src.len() <= usize::MAX,
    ensures
        lex_from(src, 0) matches Ok(toks) ==> tiles_from(src, 0, toks),
{
    lemma_lex_tiles_from(src, 0);
}

proof fn lemma_tiles_ordered(src: Seq<char>, pos: nat, toks: Seq<(TokenV, Span)>)
    requires
        pos <= src.len(),
        tiles_from(src, pos, toks),
    ensures
        forall|i: int|
            0 <= i < toks.len() ==> pos <= (#[trigger] toks[i]).1.start && toks[i].1.start
                < toks[i].1.end && toks[i].1.end <= src.len(),
        forall|i: int, j: int|
            0 <= i < j < toks.len() ==> (#[trigger] toks[i]).1.end <= (#[trigger] toks[j]).1.start,
    decreases toks.len(),
{
    if toks.len() > 0 {
        lemma_skip_trivia_bounds(src, pos, false);
        let rest = toks.drop_first();
        lemma_tiles_ordered(src, toks[0].1.end as nat, rest);
        assert forall|i: int| 0 <= i < toks.len() implies pos <= (#[trigger] toks[i]).1.start
            && toks[i].1.start < toks[i].1.end && toks[i].1.end <= src.len() by {
            if i > 0 {
                assert(toks[i] == rest[i - 1]);
            }
        }
        assert forall|i: int, j: int| 0 <= i < j < toks.len() implies (#[trigger] toks[i]).1.end
            <= (#[trigger] toks[j]).1.start by {
            assert(toks[j] == rest[j - 1]);
            if i > 0 {
                assert(toks[i] == rest[i - 1]);
            }
        }
    }
}

/// The ranges of the tokens are non-empty, lie within the source text and
/// come in source order: each ends before the next one starts.
pub proof fn lemma_tokens_in_order(src: Seq<char>)
    requires
        src.len() <= usize::MAX,
    ensures
        lex_from(src, 0) matches Ok(toks) ==> {
            &&& forall|i: int|
                0 <= i < toks.len() ==> (#[trigger] toks[i]).1.start < toks[i].1.end
                    && toks[i].1.end <= src.len()
            &&& forall|i: int, j: int|
                0 <= i < j < toks.len() ==> (#[trigger] toks[i]).1.end <= (#[trigger] toks[j]).1.start
        },
{
    lemma_lex_tiles_from(src, 0);
    if let Ok(toks) = lex_from(src, 0) {
        lemma_tiles_ordered(src, 0, toks);
    }
}

} // verus!
