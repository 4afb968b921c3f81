//! The program tree (procedures, constants and their blocks) and the
//! recursive-descent parser that builds it from tokens.

use vstd::prelude::*;
use crate::lexer::{KeyWord, Token, TokenV, is_digit, same_text, slice_chars};
use crate::textbuf::digit_char;
use crate::span::Span;
use crate::textbuf::decimal;

verus! {

/// An immediate value: one 64-bit word, read as a boolean, an unsigned or a
/// signed integer.
#[derive(Clone, Copy, Debug, PartialEq, Eq, Structural)]
pub enum IConst {
    Bool(u64),
    U64(u64),
    I64(u64),
}

/// The declared type of a constant, a binding or a signature slot.
#[derive(Clone, Copy, Debug, PartialEq, Eq, Structural)]
pub enum Type {
    Bool,
    U64,
    I64,
}

impl IConst {
    /// The 64-bit word that the value stores.
    pub open spec fn word(self) -> u64 {
        match self {
            IConst::Bool(w) => w,
            IConst::U64(w) => w,
            IConst::I64(w) => w,
        }
    }

    /// The value of type `ty` held in `bytes`.
    pub open spec fn of_type(ty: Type, bytes: u64) -> IConst {
        match ty {
            Type::Bool => IConst::Bool(bytes),
            Type::U64 => IConst::U64(bytes),
            Type::I64 => IConst::I64(bytes),
        }
    }

    pub fn new<T: ToConst>(v: T) -> (r: IConst)
        ensures
            r == v.const_of(),
    {
        v.to_const()
    }

    pub fn from_ty_bytes(ty: Type, bytes: u64) -> (r: IConst)
        ensures
            r == IConst::of_type(ty, bytes),
    {
        match ty {
            Type::Bool => IConst::Bool(bytes),
            Type::U64 => IConst::U64(bytes),
            Type::I64 => IConst::I64(bytes),
        }
    }

    pub fn bytes(&self) -> (r: u64)
        ensures
            r == self.word(),
    {
        match self {
            IConst::Bool(c) => *c,
            IConst::U64(c) => *c,
            IConst::I64(c) => *c,
        }
    }
}

/// Values that have an immediate form.
pub trait ToConst: Sized {
    spec fn const_of(self) -> IConst;

    fn to_const(self) -> (r: IConst)
        ensures
            r == self.const_of(),
    ;
}

impl ToConst for bool {
    open spec fn const_of(self) -> IConst {
        IConst::Bool(if self { 1 } else { 0 })
    }

    fn to_const(self) -> (r: IConst) {
        IConst::Bool(if self { 1 } else { 0 })
    }
}

impl ToConst for u64 {
    open spec fn const_of(self) -> IConst {
        IConst::U64(self)
    }

    fn to_const(self) -> (r: IConst) {
        IConst::U64(self)
    }
}

impl ToConst for i64 {
    open spec fn const_of(self) -> IConst {
        IConst::I64(self as u64)
    }

    fn to_const(self) -> (r: IConst) {
        IConst::I64(self as u64)
    }
}

/// The input and output types of a procedure.
#[derive(Clone, Debug)]
pub struct Signature {
    pub ins: Vec<Type>,
    pub outs: Vec<Type>,
}

#[derive(Debug)]
pub struct Proc {
    pub signature: Signature,
    pub body: Vec<AstNode>,
}

/// One node of a block, with the range of source text it came from.
#[derive(Debug)]
pub struct AstNode {
    pub span: Span,
    pub ast: AstKind,
}

#[derive(Debug)]
pub enum AstKind {
    Literal(IConst),
    /// A string literal: its bytes go to the string pool when lowered.
    Str(Vec<u8>),
    /// A reference to a procedure, a constant or a binding, by name.
    Word(Vec<char>),
    Intrinsic(Intrinsic),
    If(If),
    While(While),
    Bind(Bind),
}

#[derive(Clone, Copy, Debug, PartialEq, Eq, Structural)]
pub enum Intrinsic {
    Drop,
    Dup,
    Swap,
    Over,

    CompStop,
    Dump,
    Print,
    PutC,

    Add,
    Sub,
    Divmod,
    Mul,

    Eq,
    Ne,
    Lt,
    Le,
    Gt,
    Ge,

    ReadU8,
    WriteU8,
    ReadU64,
    WriteU64,
    PtrAdd,
    PtrSub,
}

#[derive(Debug)]
pub struct Const {
    pub body: Vec<AstNode>,
    pub ty: Type,
}

/// A scoped binding: the values on top of the stack get names for the
/// length of `body`.
#[derive(Debug)]
pub struct Bind {
    pub bindings: Vec<Binding>,
    pub body: Vec<AstNode>,
}

#[derive(Clone, Debug)]
pub enum Binding {
    Ignore,
    Bind { name: Vec<char>, ty: Type },
}

#[derive(Debug)]
pub struct If {
    pub truth: Vec<AstNode>,
    pub lie: Option<Vec<AstNode>>,
}

#[derive(Debug)]
pub struct While {
    pub cond: Vec<AstNode>,
    pub body: Vec<AstNode>,
}

#[derive(Debug)]
pub enum TopLevel {
    Proc(Proc),
    Const(Const),
}

impl TopLevel {
    pub fn as_proc(&self) -> (r: Option<&Proc>)
        ensures
            match self {
                TopLevel::Proc(p) => r == Some(p),
                TopLevel::Const(_) => r is None,
            },
    {
        if let TopLevel::Proc(v) = self {
            Some(v)
        } else {
            None
        }
    }

    pub fn as_const(&self) -> (r: Option<&Const>)
        ensures
            match self {
                TopLevel::Const(c) => r == Some(c),
                TopLevel::Proc(_) => r is None,
            },
    {
        if let TopLevel::Const(v) = self {
            Some(v)
        } else {
            None
        }
    }
}

/// The spelling of an intrinsic in source text, for those that have one.
pub open spec fn spelling(i: Intrinsic) -> Option<Seq<char>> {
    match i {
        Intrinsic::Drop => Some("drop"@),
        Intrinsic::Dup => Some("dup"@),
        Intrinsic::Swap => Some("swap"@),
        Intrinsic::Over => Some("over"@),
        Intrinsic::CompStop => Some("&?&"@),
        Intrinsic::Dump => Some("&?"@),
        Intrinsic::Print => Some("print"@),
        Intrinsic::Add => Some("+"@),
        Intrinsic::Sub => Some("-"@),
        Intrinsic::Mul => Some("*"@),
        Intrinsic::Divmod => Some("divmod"@),
        Intrinsic::Eq => Some("="@),
        Intrinsic::Ne => Some("!="@),
        Intrinsic::Lt => Some("<"@),
        Intrinsic::Le => Some("<="@),
        Intrinsic::Gt => Some(">"@),
        Intrinsic::Ge => Some(">="@),
        _ => None,
    }
}

/// The intrinsic that a word spells, if any.
pub open spec fn intrinsic_of(w: Seq<char>) -> Option<Intrinsic> {
    if w == "drop"@ {
        Some(Intrinsic::Drop)
    } else if w == "dup"@ {
        Some(Intrinsic::Dup)
    } else if w == "swap"@ {
        Some(Intrinsic::Swap)
    } else if w == "over"@ {
        Some(Intrinsic::Over)
    } else if w == "&?&"@ {
        Some(Intrinsic::CompStop)
    } else if w == "&?"@ {
        Some(Intrinsic::Dump)
    } else if w == "print"@ {
        Some(Intrinsic::Print)
    } else if w == "+"@ {
        Some(Intrinsic::Add)
    } else if w == "-"@ {
        Some(Intrinsic::Sub)
    } else if w == "*"@ {
        Some(Intrinsic::Mul)
    } else if w == "divmod"@ {
        Some(Intrinsic::Divmod)
    } else if w == "="@ {
        Some(Intrinsic::Eq)
    } else if w == "!="@ {
        Some(Intrinsic::Ne)
    } else if w == "<"@ {
        Some(Intrinsic::Lt)
    } else if w == "<="@ {
        Some(Intrinsic::Le)
    } else if w == ">"@ {
        Some(Intrinsic::Gt)
    } else if w == ">="@ {
        Some(Intrinsic::Ge)
    } else {
        None
    }
}

/// The type that a type name spells.
pub open spec fn type_of_name(w: Seq<char>) -> Option<Type> {
    if w == "int"@ {
        Some(Type::I64)
    } else if w == "uint"@ {
        Some(Type::U64)
    } else if w == "bool"@ {
        Some(Type::Bool)
    } else {
        None
    }
}

pub open spec fn type_spelling(t: Type) -> Seq<char> {
    match t {
        Type::I64 => "int"@,
        Type::U64 => "uint"@,
        Type::Bool => "bool"@,
    }
}

pub open spec fn cat(a: Option<Seq<TokenV>>, b: Option<Seq<TokenV>>) -> Option<Seq<TokenV>> {
    match (a, b) {
        (Some(x), Some(y)) => Some(x + y),
        _ => None,
    }
}

pub open spec fn kw(k: KeyWord) -> Option<Seq<TokenV>> {
    Some(seq![TokenV::KeyWord(k)])
}

/// The tokens of a list of types.
pub open spec fn types_tokens(ts: Seq<Type>) -> Seq<TokenV>
    decreases ts.len(),
{
    if ts.len() == 0 {
        Seq::empty()
    } else {
        types_tokens(ts.drop_last()).push(TokenV::Word(type_spelling(ts.last())))
    }
}

pub open spec fn binding_tokens(b: Binding) -> Option<Seq<TokenV>> {
    match b {
        Binding::Ignore => Some(seq![TokenV::Ignore]),
        Binding::Bind { name, ty } => if intrinsic_of(name@) is None {
            Some(seq![TokenV::Word(name@), TokenV::SigSep, TokenV::Word(type_spelling(ty))])
        } else {
            None
        },
    }
}

pub open spec fn bindings_tokens(bs: Seq<Binding>) -> Option<Seq<TokenV>>
    decreases bs.len(),
{
    if bs.len() == 0 {
        Some(Seq::empty())
    } else {
        cat(bindings_tokens(bs.drop_last()), binding_tokens(bs.last()))
    }
}

/// The tokens that a node is written with, where the node is one that the
/// parser builds: a literal of the source form, a word that is not an
/// intrinsic's spelling, an intrinsic that has a spelling, and so on down.
pub open spec fn unparse_node(n: AstNode) -> Option<Seq<TokenV>>
    decreases n,
{
    match n.ast {
        AstKind::Literal(IConst::Bool(w)) => if w == 0 {
            Some(seq![TokenV::Bool(false)])
        } else if w == 1 {
            Some(seq![TokenV::Bool(true)])
        } else {
            None
        },
        AstKind::Literal(IConst::U64(v)) => Some(seq![TokenV::Num(decimal(v as nat))]),
        AstKind::Literal(IConst::I64(_)) => None,
        AstKind::Str(_) => None,
        AstKind::Word(w) => if intrinsic_of(w@) is None {
            Some(seq![TokenV::Word(w@)])
        } else {
            None
        },
        AstKind::Intrinsic(i) => match spelling(i) {
            Some(s) => Some(seq![TokenV::Word(s)]),
            None => None,
        },
        AstKind::If(c) => cat(
            cat(kw(KeyWord::If), unparse_block(c.truth@)),
            match c.lie {
                None => kw(KeyWord::End),
                Some(l) => cat(cat(kw(KeyWord::Else), unparse_block(l@)), kw(KeyWord::End)),
            },
        ),
        AstKind::While(w) => cat(
            cat(cat(kw(KeyWord::While), unparse_block(w.cond@)), kw(KeyWord::Do)),
            cat(unparse_block(w.body@), kw(KeyWord::End)),
        ),
        AstKind::Bind(b) => if b.bindings@.len() == 0 {
            None
        } else {
            cat(
                cat(cat(kw(KeyWord::Bind), bindings_tokens(b.bindings@)), kw(KeyWord::Do)),
                cat(unparse_block(b.body@), kw(KeyWord::End)),
            )
        },
    }
}

/// The tokens that a block is written with (see `unparse_node`).
pub open spec fn unparse_block(b: Seq<AstNode>) -> Option<Seq<TokenV>>
    decreases b,
{
    if b.len() == 0 {
        Some(Seq::empty())
    } else {
        cat(unparse_node(b[0]), unparse_block(b.subrange(1, b.len() as int)))
    }
}

/// One item of a program: its name, the item and its range of source text.
pub type Item = (Vec<char>, TopLevel, Span);

pub open spec fn item_tokens(name: Seq<char>, top: TopLevel) -> Option<Seq<TokenV>> {
    if intrinsic_of(name) is Some {
        None
    } else {
        match top {
            TopLevel::Proc(p) => {
                let outs = if p.signature.outs@.len() == 0 {
                    Seq::empty()
                } else {
                    seq![TokenV::SigSep] + types_tokens(p.signature.outs@)
                };
                cat(
                    Some(seq![TokenV::KeyWord(KeyWord::Proc), TokenV::Word(name)] + types_tokens(
                        p.signature.ins@,
                    ) + outs + seq![TokenV::KeyWord(KeyWord::Do)]),
                    cat(unparse_block(p.body@), kw(KeyWord::End)),
                )
            },
            TopLevel::Const(c) => cat(
                Some(
                    seq![
                        TokenV::KeyWord(KeyWord::Const),
                        TokenV::Word(name),
                        TokenV::SigSep,
                        TokenV::Word(type_spelling(c.ty)),
                        TokenV::KeyWord(KeyWord::Do),
                    ],
                ),
                cat(unparse_block(c.body@), kw(KeyWord::End)),
            ),
        }
    }
}

/// The tokens that a program is written with, item after item.
pub open spec fn program_tokens(items: Seq<Item>) -> Option<Seq<TokenV>>
    decreases items.len(),
{
    if items.len() == 0 {
        Some(Seq::empty())
    } else {
        cat(program_tokens(items.drop_last()), item_tokens(items.last().0@, items.last().1))
    }
}

/// The value of a string of decimal digits.
pub open spec fn digits_value(d: Seq<char>) -> nat
    decreases d.len(),
{
    if d.len() == 0 {
        0
    } else {
        digits_value(d.drop_last()) * 10 + ((d.last() as u32) - 48) as nat
    }
}

/// A decimal numeral without leading zeros.
pub open spec fn canonical_number(d: Seq<char>) -> bool {
    &&& d.len() >= 1
    &&& forall|i: int| 0 <= i < d.len() ==> is_digit(#[trigger] d[i])
    &&& (d.len() == 1 || d[0] != '0')
}

/// The kinds of the tokens, without their ranges.
pub open spec fn token_kinds(toks: Seq<(Token, Span)>) -> Seq<TokenV> {
    toks.map_values(|t: (Token, Span)| t.0@)
}

pub open spec fn starts_node(t: TokenV) -> bool {
    match t {
        TokenV::Bool(_) => true,
        TokenV::Num(_) => true,
        TokenV::Word(_) => true,
        TokenV::KeyWord(k) => k == KeyWord::If || k == KeyWord::While || k == KeyWord::Bind,
        _ => false,
    }
}

pub open spec fn at_kw(tv: Seq<TokenV>, pos: nat, k: KeyWord) -> bool {
    pos < tv.len() && tv[pos as int] == TokenV::KeyWord(k)
}

/// A name: a word that spells no intrinsic.
pub open spec fn is_ident(t: TokenV) -> bool {
    t matches TokenV::Word(w) && intrinsic_of(w) is None
}

pub open spec fn is_type_token(t: TokenV) -> bool {
    t matches TokenV::Word(w) && type_of_name(w) is Some
}

/// The end of the run of type names from `pos`.
pub open spec fn types_end(tv: Seq<TokenV>, pos: nat) -> nat
    decreases tv.len() - pos,
{
    if pos < tv.len() && is_type_token(tv[pos as int]) {
        types_end(tv, pos + 1)
    } else {
        pos
    }
}

/// The end of the run of bindings (`_`, or `name : type`) from `pos`.
pub open spec fn bindings_end(tv: Seq<TokenV>, pos: nat) -> nat
    decreases tv.len() - pos,
{
    if pos < tv.len() && tv[pos as int] == TokenV::Ignore {
        bindings_end(tv, pos + 1)
    } else if pos + 2 < tv.len() && is_ident(tv[pos as int]) && tv[(pos + 1) as int] == TokenV::SigSep
        && is_type_token(tv[(pos + 2) as int]) {
        bindings_end(tv, pos + 3)
    } else {
        pos
    }
}

/// Where the node that starts at `pos` ends, or `None` where no node of the
/// grammar starts there.
pub open spec fn node_end(tv: Seq<TokenV>, pos: nat) -> Option<nat>
    decreases tv.len() - pos, 0nat,
{
    if pos >= tv.len() {
        None
    } else {
        match tv[pos as int] {
            TokenV::Bool(_) => Some(pos + 1),
            TokenV::Num(d) => if canonical_number(d) && digits_value(d) <= u64::MAX {
                Some(pos + 1)
            } else {
                None
            },
            TokenV::Word(_) => Some(pos + 1),
            TokenV::KeyWord(KeyWord::If) => match block_end(tv, pos + 1) {
                None => None,
                Some(e1) => if e1 <= pos || e1 >= tv.len() {
                    None
                } else if at_kw(tv, e1, KeyWord::Else) {
                    match block_end(tv, e1 + 1) {
                        None => None,
                        Some(e2) => if at_kw(tv, e2, KeyWord::End) {
                            Some(e2 + 1)
                        } else {
                            None
                        },
                    }
                } else if at_kw(tv, e1, KeyWord::End) {
                    Some(e1 + 1)
                } else {
                    None
                },
            },
            TokenV::KeyWord(KeyWord::While) => match block_end(tv, pos + 1) {
                None => None,
                Some(e1) => if e1 <= pos || e1 >= tv.len() || !at_kw(tv, e1, KeyWord::Do) {
                    None
                } else {
                    match block_end(tv, e1 + 1) {
                        None => None,
                        Some(e2) => if at_kw(tv, e2, KeyWord::End) {
                            Some(e2 + 1)
                        } else {
                            None
                        },
                    }
                },
            },
            TokenV::KeyWord(KeyWord::Bind) => {
                let e0 = bindings_end(tv, pos + 1);
                if e0 <= pos + 1 || e0 >= tv.len() || !at_kw(tv, e0, KeyWord::Do) {
                    None
                } else {
                    match block_end(tv, e0 + 1) {
                        None => None,
                        Some(e2) => if at_kw(tv, e2, KeyWord::End) {
                            Some(e2 + 1)
                        } else {
                            None
                        },
                    }
                }
            },
            _ => None,
        }
    }
}

/// Where the block that starts at `pos` ends: at the first token that
/// starts no node; `None` where a node that starts in it is malformed.
pub open spec fn block_end(tv: Seq<TokenV>, pos: nat) -> Option<nat>
    decreases tv.len() - pos, 1nat,
{
    if pos >= tv.len() || !starts_node(tv[pos as int]) {
        Some(pos)
    } else {
        match node_end(tv, pos) {
            None => None,
            Some(e) => if e <= pos || e > tv.len() {
                None
            } else {
                block_end(tv, e)
            },
        }
    }
}

/// Where the procedure or constant that starts at `pos` ends.
pub open spec fn item_end(tv: Seq<TokenV>, pos: nat) -> Option<nat> {
    let n = tv.len();
    if at_kw(tv, pos, KeyWord::Proc) && pos + 1 < n && is_ident(tv[(pos + 1) as int]) {
        let e_in = types_end(tv, pos + 2);
        let sig_end = if e_in < n && tv[e_in as int] == TokenV::SigSep {
            let e_out = types_end(tv, e_in + 1);
            if e_out == e_in + 1 {
                None
            } else {
                Some(e_out)
            }
        } else {
            Some(e_in)
        };
        match sig_end {
            None => None,
            Some(s) => if at_kw(tv, s, KeyWord::Do) {
                match block_end(tv, s + 1) {
                    None => None,
                    Some(e) => if at_kw(tv, e, KeyWord::End) {
                        Some(e + 1)
                    } else {
                        None
                    },
                }
            } else {
                None
            },
        }
    } else if at_kw(tv, pos, KeyWord::Const) && pos + 3 < n && is_ident(tv[(pos + 1) as int]) && tv[(pos + 2) as int] == TokenV::SigSep && is_type_token(tv[(pos + 3) as int]) && at_kw(tv, pos + 4, KeyWord::Do) {
        match block_end(tv, pos + 5) {
            None => None,
            Some(e) => if at_kw(tv, e, KeyWord::End) {
                Some(e + 1)
            } else {
                None
            },
        }
    } else {
        None
    }
}

/// The tokens from `pos` on form a sequence of items.
pub open spec fn program_ok(tv: Seq<TokenV>, pos: nat) -> bool
    decreases tv.len() - pos,
{
    if pos >= tv.len() {
        true
    } else {
        match item_end(tv, pos) {
            None => false,
            Some(e) => if e <= pos {
                false
            } else {
                program_ok(tv, e)
            },
        }
    }
}

#[derive(Clone, Copy, Debug, PartialEq, Eq, Structural)]
pub enum ParseErrorKind {
    /// A token that the grammar does not allow where it stands.
    Unexpected,
    /// The tokens end where the grammar asks for more.
    UnexpectedEnd,
    /// A numeral whose value does not fit in 64 bits.
    NumberOutOfRange,
    /// A second item with the name of an earlier one.
    DuplicateName,
}

/// What the grammar asked for where a syntax error was found.
#[derive(Clone, Copy, Debug, PartialEq, Eq, Structural)]
pub enum Expected {
    /// `proc` or `const`.
    Item,
    /// A word that spells no intrinsic.
    Name,
    /// `int`, `uint` or `bool`.
    Type,
    /// `:`.
    SigSep,
    /// `do`.
    Do,
    /// `end` (or `else`, after the first block of an `if`).
    End,
    /// A literal, a word, `if`, `while` or `bind`.
    Node,
    /// A numeral whose value fits in 64 bits.
    Number,
}

/// A syntax error: its kind, the index of the token where it was found,
/// that token and its range of source text (at the end of the tokens, no
/// token and the empty range after the last one), and what was expected
/// there.
#[derive(Clone, Debug, PartialEq, Eq)]
pub struct ParseError {
    pub kind: ParseErrorKind,
    pub pos: usize,
    pub span: Span,
    pub found: Option<Token>,
    pub expected: Expected,
}

proof fn lemma_join(tv: Seq<TokenV>, a: int, b: int, c: int)
    requires
        0 <= a <= b <= c <= tv.len(),
    ensures
        tv.subrange(a, b) + tv.subrange(b, c) == tv.subrange(a, c),
{
    assert(tv.subrange(a, b) + tv.subrange(b, c) =~= tv.subrange(a, c));
}

proof fn lemma_one(tv: Seq<TokenV>, a: int)
    requires
        0 <= a < tv.len(),
    ensures
        seq![tv[a]] == tv.subrange(a, a + 1),
{
    assert(seq![tv[a]] =~= tv.subrange(a, a + 1));
}

proof fn lemma_unparse_block_push(b: Seq<AstNode>, n: AstNode)
    ensures
        unparse_block(b.push(n)) == cat(unparse_block(b), unparse_node(n)),
    decreases b.len(),
{
    let bp = b.push(n);
    if b.len() == 0 {
        assert(bp.subrange(1, bp.len() as int) =~= Seq::<AstNode>::empty());
        assert(bp[0] == n);
        assert(unparse_block(Seq::<AstNode>::empty()) == Some(Seq::<TokenV>::empty()));
        assert(unparse_block(b) == Some(Seq::<TokenV>::empty()));
        if let Some(x) = unparse_node(n) {
            assert(x + Seq::<TokenV>::empty() =~= x);
            assert(Seq::<TokenV>::empty() + x =~= x);
        }
    } else {
        let rest = b.subrange(1, b.len() as int);
        assert(bp.subrange(1, bp.len() as int) =~= rest.push(n));
        lemma_unparse_block_push(rest, n);
        match (unparse_node(b[0]), unparse_block(rest), unparse_node(n)) {
            (Some(x), Some(y), Some(z)) => {
                assert(x + (y + z) =~= (x + y) + z);
            },
            _ => {},
        }
    }
}

proof fn lemma_digit_value(c: char)
    requires
        is_digit(c),
    ensures
        (((c as u32) - 48) as nat) < 10,
        digit_char((((c as u32) - 48) as nat)) == c,
{
}

proof fn lemma_digits_positive(d: Seq<char>)
    requires
        d.len() >= 1,
        forall|i: int| 0 <= i < d.len() ==> is_digit(#[trigger] d[i]),
        d[0] != '0',
    ensures
        digits_value(d) >= 1,
    decreases d.len(),
{
    if d.len() > 1 {
        let p = d.drop_last();
        assert forall|i: int| 0 <= i < p.len() implies is_digit(#[trigger] p[i]) by {
            assert(p[i] == d[i]);
        }
        lemma_digits_positive(p);
    }
}

proof fn lemma_digits_decimal(d: Seq<char>)
    requires
        canonical_number(d),
    ensures
        decimal(digits_value(d)) == d,
    decreases d.len(),
{
    lemma_digit_value(d.last());
    let c = ((d.last() as u32) - 48) as nat;
    if d.len() == 1 {
        assert(digits_value(d.drop_last()) == 0);
        assert(decimal(digits_value(d)) =~= d);
    } else {
        let p = d.drop_last();
        assert forall|i: int| 0 <= i < p.len() implies is_digit(#[trigger] p[i]) by {
            assert(p[i] == d[i]);
        }
        lemma_digits_positive(p);
        lemma_digits_decimal(p);
        let v = digits_value(p) * 10 + c;
        assert(v / 10 == digits_value(p) && v % 10 == c) by (nonlinear_arith)
            requires
                v == digits_value(p) * 10 + c,
                c < 10,
        ;
        assert(d =~= p.push(d.last()));
    }
}

proof fn lemma_digits_monotone(d: Seq<char>, j: int)
    requires
        0 <= j <= d.len(),
    ensures
        digits_value(d.subrange(0, j)) <= digits_value(d),
    decreases d.len(),
{
    if j < d.len() {
        let p = d.drop_last();
        assert(p.subrange(0, j) =~= d.subrange(0, j));
        lemma_digits_monotone(p, j);
    } else {
        assert(d.subrange(0, j) =~= d);
    }
}

/// The value of a decimal numeral without leading zeros, where it fits in
/// 64 bits.
pub fn number(d: &Vec<char>) -> (r: Option<u64>)
    ensures
        r is Some <==> canonical_number(d@) && digits_value(d@) <= u64::MAX,
        r matches Some(v) ==> v as nat == digits_value(d@),
{
    if d.len() == 0 || (d.len() > 1 && d[0] == '0') {
        return None;
    }
    let mut acc: u64 = 0;
    let mut i: usize = 0;
    while i < d.len()
        invariant
            i <= d@.len(),
            d@.len() >= 1,
            d@.len() == 1 || d@[0] != '0',
            forall|k: int| 0 <= k < i ==> is_digit(#[trigger] d@[k]),
            acc as nat == digits_value(d@.subrange(0, i as int)),
        decreases d@.len() - i,
    {
        let c = d[i];
        if !('0' <= c && c <= '9') {
            return None;
        }
        let dv = (c as u32 - 48) as u64;
        proof {
            assert(d@.subrange(0, i + 1).drop_last() =~= d@.subrange(0, i as int));
        }
        if acc > (u64::MAX - dv) / 10 {
            proof {
                let a = acc as nat;
                assert(a * 10 + dv > u64::MAX) by (nonlinear_arith)
                    requires
                        a > (u64::MAX - dv) / 10,
                        dv <= 9,
                ;
                lemma_digits_monotone(d@, i + 1);
            }
            return None;
        }
        assert(acc * 10 + dv <= u64::MAX) by (nonlinear_arith)
            requires
                acc <= (u64::MAX - dv) / 10,
                dv <= 9,
        ;
        acc = acc * 10 + dv;
        i = i + 1;
    }
    assert(d@.subrange(0, d@.len() as int) =~= d@);
    Some(acc)
}

/// The empty range after the last token (at 0 where there is none).
pub open spec fn end_span(toks: Seq<(Token, Span)>) -> Span {
    if toks.len() == 0 {
        Span { start: 0, end: 0 }
    } else {
        Span { start: toks.last().1.end, end: toks.last().1.end }
    }
}

/// The error stands at a token of `toks`, and holds that token and its
/// range; or it stands at their end, as an unexpected end, with the range
/// after the last token.
pub open spec fn placed(toks: Seq<(Token, Span)>, err: ParseError) -> bool {
    &&& err.pos <= toks.len()
    &&& err.pos < toks.len() ==> {
        &&& err.kind != ParseErrorKind::UnexpectedEnd
        &&& err.span == toks[err.pos as int].1
        &&& err.found matches Some(t) && t@ == toks[err.pos as int].0@
    }
    &&& err.pos == toks.len() ==> {
        &&& err.kind == ParseErrorKind::UnexpectedEnd
        &&& err.span == end_span(toks)
        &&& err.found is None
    }
}

/// A copy of a token.
pub fn copy_token(t: &Token) -> (r: Token)
    ensures
        r@ == t@,
{
    match t {
        Token::Bool(b) => Token::Bool(*b),
        Token::Word(w) => {
            let c = slice_chars(w, 0, w.len());
            assert(c@ =~= w@);
            Token::Word(c)
        },
        Token::Str(w) => {
            let c = slice_chars(w, 0, w.len());
            assert(c@ =~= w@);
            Token::Str(c)
        },
        Token::Char(c) => Token::Char(*c),
        Token::KeyWord(k) => Token::KeyWord(*k),
        Token::Num(w) => {
            let c = slice_chars(w, 0, w.len());
            assert(c@ =~= w@);
            Token::Num(c)
        },
        Token::Ignore => Token::Ignore,
        Token::SigSep => Token::SigSep,
        Token::Ptr => Token::Ptr,
        Token::FieldAccess => Token::FieldAccess,
    }
}

fn error_at(toks: &Vec<(Token, Span)>, pos: usize, kind: ParseErrorKind, expected: Expected) -> (r: ParseError)
    requires
        pos < toks@.len(),
        kind != ParseErrorKind::UnexpectedEnd,
    ensures
        placed(toks@, r),
        r.pos == pos,
        r.kind == kind,
        r.expected == expected,
{
    ParseError { kind, pos, span: toks[pos].1, found: Some(copy_token(&toks[pos].0)), expected }
}

fn unexpected(toks: &Vec<(Token, Span)>, pos: usize, expected: Expected) -> (r: ParseError)
    requires
        pos <= toks@.len(),
    ensures
        placed(toks@, r),
        r.pos == pos,
        r.expected == expected,
        r.kind != ParseErrorKind::DuplicateName,
{
    if pos < toks.len() {
        error_at(toks, pos, ParseErrorKind::Unexpected, expected)
    } else {
        let span = if toks.len() == 0 {
            Span { start: 0, end: 0 }
        } else {
            let e = toks[toks.len() - 1].1.end;
            Span { start: e, end: e }
        };
        ParseError { kind: ParseErrorKind::UnexpectedEnd, pos, span, found: None, expected }
    }
}

fn kw_at(toks: &Vec<(Token, Span)>, pos: usize, k: KeyWord) -> (r: bool)
    ensures
        r == at_kw(token_kinds(toks@), pos as nat, k),
{
    if pos < toks.len() {
        match &toks[pos].0 {
            Token::KeyWord(k2) => *k2 == k,
            _ => false,
        }
    } else {
        false
    }
}

fn sep_at(toks: &Vec<(Token, Span)>, pos: usize) -> (r: bool)
    ensures
        r == (pos < toks@.len() && token_kinds(toks@)[pos as int] == TokenV::SigSep),
{
    if pos < toks.len() {
        match &toks[pos].0 {
            Token::SigSep => true,
            _ => false,
        }
    } else {
        false
    }
}

/// The intrinsic that `w` spells, if any.
pub fn intrinsic(w: &Vec<char>) -> (r: Option<Intrinsic>)
    ensures
        r == intrinsic_of(w@),
{
    if same_text(w, "drop") {
        Some(Intrinsic::Drop)
    } else if same_text(w, "dup") {
        Some(Intrinsic::Dup)
    } else if same_text(w, "swap") {
        Some(Intrinsic::Swap)
    } else if same_text(w, "over") {
        Some(Intrinsic::Over)
    } else if same_text(w, "&?&") {
        Some(Intrinsic::CompStop)
    } else if same_text(w, "&?") {
        Some(Intrinsic::Dump)
    } else if same_text(w, "print") {
        Some(Intrinsic::Print)
    } else if same_text(w, "+") {
        Some(Intrinsic::Add)
    } else if same_text(w, "-") {
        Some(Intrinsic::Sub)
    } else if same_text(w, "*") {
        Some(Intrinsic::Mul)
    } else if same_text(w, "divmod") {
        Some(Intrinsic::Divmod)
    } else if same_text(w, "=") {
        Some(Intrinsic::Eq)
    } else if same_text(w, "!=") {
        Some(Intrinsic::Ne)
    } else if same_text(w, "<") {
        Some(Intrinsic::Lt)
    } else if same_text(w, "<=") {
        Some(Intrinsic::Le)
    } else if same_text(w, ">") {
        Some(Intrinsic::Gt)
    } else if same_text(w, ">=") {
        Some(Intrinsic::Ge)
    } else {
        None
    }
}

/// The type named by the token at `pos`, if it is a type name.
fn ty(toks: &Vec<(Token, Span)>, pos: usize) -> (r: Option<Type>)
    ensures
        r is Some <==> pos < toks@.len() && is_type_token(token_kinds(toks@)[pos as int]),
        r matches Some(t) ==> token_kinds(toks@)[pos as int] == TokenV::Word(type_spelling(t)),
{
    if pos >= toks.len() {
        return None;
    }
    match &toks[pos].0 {
        Token::Word(w) => {
            if same_text(w, "int") {
                Some(Type::I64)
            } else if same_text(w, "uint") {
                Some(Type::U64)
            } else if same_text(w, "bool") {
                Some(Type::Bool)
            } else {
                None
            }
        },
        _ => None,
    }
}

/// The name held by the token at `pos`, if it is a word that spells no
/// intrinsic.
fn identifier(toks: &Vec<(Token, Span)>, pos: usize) -> (r: Option<Vec<char>>)
    ensures
        r is Some <==> pos < toks@.len() && is_ident(token_kinds(toks@)[pos as int]),
        r matches Some(w) ==> token_kinds(toks@)[pos as int] == TokenV::Word(w@),
{
    if pos >= toks.len() {
        return None;
    }
    match &toks[pos].0 {
        Token::Word(w) => {
            if intrinsic(w).is_some() {
                None
            } else {
                let name = slice_chars(w, 0, w.len());
                assert(name@ =~= w@);
                Some(name)
            }
        },
        _ => None,
    }
}

fn types(toks: &Vec<(Token, Span)>, pos: usize) -> (r: (Vec<Type>, usize))
    requires
        pos <= toks@.len(),
    ensures
        r.1 as nat == types_end(token_kinds(toks@), pos as nat),
        pos <= r.1 <= toks@.len(),
        types_tokens(r.0@) == token_kinds(toks@).subrange(pos as int, r.1 as int),
{
    let ghost tv = token_kinds(toks@);
    let mut ts: Vec<Type> = Vec::new();
    let mut p = pos;
    loop
        invariant
            tv == token_kinds(toks@),
            pos <= p <= toks@.len(),
            types_end(tv, pos as nat) == types_end(tv, p as nat),
            types_tokens(ts@) == tv.subrange(pos as int, p as int),
        decreases toks@.len() - p,
    {
        let next = ty(toks, p);
        match next {
            None => {
                return (ts, p);
            },
            Some(t) => {
                assert(p < toks.len());
                let ghost before = ts@;
                ts.push(t);
                proof {
                    assert(ts@.drop_last() =~= before);
                    lemma_one(tv, p as int);
                    lemma_join(tv, pos as int, p as int, p + 1);
                }
                p = p + 1;
            },
        }
    }
}

fn bindings(toks: &Vec<(Token, Span)>, pos: usize) -> (r: (Vec<Binding>, usize))
    requires
        pos <= toks@.len(),
    ensures
        r.1 as nat == bindings_end(token_kinds(toks@), pos as nat),
        pos <= r.1 <= toks@.len(),
        (r.0@.len() == 0) == (r.1 == pos),
        bindings_tokens(r.0@) == Some(token_kinds(toks@).subrange(pos as int, r.1 as int)),
{
    let ghost tv = token_kinds(toks@);
    let mut bs: Vec<Binding> = Vec::new();
    let mut p = pos;
    assert(tv.subrange(pos as int, pos as int) =~= Seq::<TokenV>::empty());
    loop
        invariant
            tv == token_kinds(toks@),
            pos <= p <= toks@.len(),
            (bs@.len() == 0) == (p == pos),
            bindings_end(tv, pos as nat) == bindings_end(tv, p as nat),
            bindings_tokens(bs@) == Some(tv.subrange(pos as int, p as int)),
        decreases toks@.len() - p,
    {
        let ghost before = bs@;
        let ignore = if p < toks.len() {
            match &toks[p].0 {
                Token::Ignore => true,
                _ => false,
            }
        } else {
            false
        };
        if ignore {
            bs.push(Binding::Ignore);
            proof {
                assert(bs@.drop_last() =~= before);
                lemma_one(tv, p as int);
                lemma_join(tv, pos as int, p as int, p + 1);
            }
            p = p + 1;
        } else if toks.len() - p > 2 && sep_at(toks, p + 1) {
            match (identifier(toks, p), ty(toks, p + 2)) {
                (Some(name), Some(t)) => {
                    let ghost nv = name@;
                    bs.push(Binding::Bind { name, ty: t });
                    proof {
                        assert(bs@.drop_last() =~= before);
                        assert(seq![TokenV::Word(nv), TokenV::SigSep, TokenV::Word(type_spelling(t))]
                            =~= tv.subrange(p as int, p + 3));
                        lemma_join(tv, pos as int, p as int, p + 3);
                    }
                    p = p + 3;
                },
                _ => {
                    return (bs, p);
                },
            }
        } else {
            return (bs, p);
        }
    }
}

fn node_span(toks: &Vec<(Token, Span)>, first: usize, last: usize) -> (r: Span)
    requires
        first <= last < toks@.len(),
    ensures
        r.start == toks@[first as int].1.start,
        r.end == toks@[last as int].1.end,
{
    Span { start: toks[first].1.start, end: toks[last].1.end }
}

fn node_if(toks: &Vec<(Token, Span)>, pos: usize) -> (r: Result<(AstNode, usize), ParseError>)
    requires
        pos < toks@.len(),
        token_kinds(toks@)[pos as int] == TokenV::KeyWord(KeyWord::If),
    ensures
        match r {
            Ok((n, e)) => node_end(token_kinds(toks@), pos as nat) == Some(e as nat)
                && unparse_node(n) == Some(token_kinds(toks@).subrange(pos as int, e as int))
                && pos < e <= toks@.len() && n.span == (Span {
                start: toks@[pos as int].1.start,
                end: toks@[e - 1].1.end,
            }),
            Err(err) => node_end(token_kinds(toks@), pos as nat) is None && placed(toks@, err)
                && err.kind != ParseErrorKind::DuplicateName,
        },
    decreases toks@.len() - pos, 0nat,
{
    let ghost tv = token_kinds(toks@);
    let n = toks.len();
    proof {
        lemma_one(tv, pos as int);
    }
        let (truth, e1) = match body(toks, pos + 1) {
            Ok(x) => x,
            Err(e) => {
                return Err(e);
            },
        };
        if e1 >= n {
            return Err(unexpected(toks, e1, Expected::End));
        }
        proof {
            lemma_join(tv, pos as int, pos + 1, e1 as int);
            lemma_one(tv, e1 as int);
        }
        if kw_at(toks, e1, KeyWord::Else) {
            let (lie, e2) = match body(toks, e1 + 1) {
                Ok(x) => x,
                Err(e) => {
                    return Err(e);
                },
            };
            if !kw_at(toks, e2, KeyWord::End) {
                return Err(unexpected(toks, e2, Expected::End));
            }
            proof {
                lemma_join(tv, pos as int, e1 as int, e1 + 1);
                lemma_join(tv, pos as int, e1 + 1, e2 as int);
                lemma_one(tv, e2 as int);
                lemma_join(tv, pos as int, e2 as int, e2 + 1);
                lemma_join(tv, e1 as int, e1 + 1, e2 as int);
                lemma_join(tv, e1 as int, e2 as int, e2 + 1);
                let a = tv.subrange(pos as int, pos + 1);
                let b = tv.subrange(pos + 1, e1 as int);
                let c = tv.subrange(e1 as int, e1 + 1);
                let d = tv.subrange(e1 + 1, e2 as int);
                let f = tv.subrange(e2 as int, e2 + 1);
                assert((a + b) + ((c + d) + f) =~= tv.subrange(pos as int, e2 + 1));
            }
            let node = AstNode {
                span: node_span(toks, pos, e2),
                ast: AstKind::If(If { truth, lie: Some(lie) }),
            };
            Ok((node, e2 + 1))
        } else if kw_at(toks, e1, KeyWord::End) {
            proof {
                lemma_join(tv, pos as int, e1 as int, e1 + 1);
            }
            let node = AstNode {
                span: node_span(toks, pos, e1),
                ast: AstKind::If(If { truth, lie: None }),
            };
            Ok((node, e1 + 1))
        } else {
            Err(unexpected(toks, e1, Expected::End))
        }
}

fn node_while(toks: &Vec<(Token, Span)>, pos: usize) -> (r: Result<(AstNode, usize), ParseError>)
    requires
        pos < toks@.len(),
        token_kinds(toks@)[pos as int] == TokenV::KeyWord(KeyWord::While),
    ensures
        match r {
            Ok((n, e)) => node_end(token_kinds(toks@), pos as nat) == Some(e as nat)
                && unparse_node(n) == Some(token_kinds(toks@).subrange(pos as int, e as int))
                && pos < e <= toks@.len() && n.span == (Span {
                start: toks@[pos as int].1.start,
                end: toks@[e - 1].1.end,
            }),
            Err(err) => node_end(token_kinds(toks@), pos as nat) is None && placed(toks@, err)
                && err.kind != ParseErrorKind::DuplicateName,
        },
    decreases toks@.len() - pos, 0nat,
{
    let ghost tv = token_kinds(toks@);
    let n = toks.len();
    proof {
        lemma_one(tv, pos as int);
    }
        let (cond, e1) = match body(toks, pos + 1) {
            Ok(x) => x,
            Err(e) => {
                return Err(e);
            },
        };
        if e1 >= n || !kw_at(toks, e1, KeyWord::Do) {
            return Err(unexpected(toks, e1, Expected::Do));
        }
        let (b, e2) = match body(toks, e1 + 1) {
            Ok(x) => x,
            Err(e) => {
                return Err(e);
            },
        };
        if !kw_at(toks, e2, KeyWord::End) {
            return Err(unexpected(toks, e2, Expected::End));
        }
        proof {
            lemma_one(tv, e1 as int);
            lemma_one(tv, e2 as int);
            let a = tv.subrange(pos as int, pos + 1);
            let bb = tv.subrange(pos + 1, e1 as int);
            let c = tv.subrange(e1 as int, e1 + 1);
            let d = tv.subrange(e1 + 1, e2 as int);
            let f = tv.subrange(e2 as int, e2 + 1);
            assert(((a + bb) + c) + (d + f) =~= tv.subrange(pos as int, e2 + 1));
        }
        let node = AstNode {
            span: node_span(toks, pos, e2),
            ast: AstKind::While(While { cond, body: b }),
        };
        Ok((node, e2 + 1))
}

fn node_bind(toks: &Vec<(Token, Span)>, pos: usize) -> (r: Result<(AstNode, usize), ParseError>)
    requires
        pos < toks@.len(),
        token_kinds(toks@)[pos as int] == TokenV::KeyWord(KeyWord::Bind),
    ensures
        match r {
            Ok((n, e)) => node_end(token_kinds(toks@), pos as nat) == Some(e as nat)
                && unparse_node(n) == Some(token_kinds(toks@).subrange(pos as int, e as int))
                && pos < e <= toks@.len() && n.span == (Span {
                start: toks@[pos as int].1.start,
                end: toks@[e - 1].1.end,
            }),
            Err(err) => node_end(token_kinds(toks@), pos as nat) is None && placed(toks@, err)
                && err.kind != ParseErrorKind::DuplicateName,
        },
    decreases toks@.len() - pos, 0nat,
{
    let ghost tv = token_kinds(toks@);
    let n = toks.len();
    proof {
        lemma_one(tv, pos as int);
    }
        let (bs, e0) = bindings(toks, pos + 1);
        if e0 == pos + 1 || e0 >= n || !kw_at(toks, e0, KeyWord::Do) {
            return Err(unexpected(toks, e0, Expected::Do));
        }
        let (b, e2) = match body(toks, e0 + 1) {
            Ok(x) => x,
            Err(e) => {
                return Err(e);
            },
        };
        if !kw_at(toks, e2, KeyWord::End) {
            return Err(unexpected(toks, e2, Expected::End));
        }
        proof {
            lemma_one(tv, e0 as int);
            lemma_one(tv, e2 as int);
            let a = tv.subrange(pos as int, pos + 1);
            let bb = tv.subrange(pos + 1, e0 as int);
            let c = tv.subrange(e0 as int, e0 + 1);
            let d = tv.subrange(e0 + 1, e2 as int);
            let f = tv.subrange(e2 as int, e2 + 1);
            assert(((a + bb) + c) + (d + f) =~= tv.subrange(pos as int, e2 + 1));
        }
        let node = AstNode {
            span: node_span(toks, pos, e2),
            ast: AstKind::Bind(Bind { bindings: bs, body: b }),
        };
        Ok((node, e2 + 1))
}

/// Parses the node that starts at `pos`.
fn node(toks: &Vec<(Token, Span)>, pos: usize) -> (r: Result<(AstNode, usize), ParseError>)
    requires
        pos < toks@.len(),
    ensures
        match r {
            Ok((n, e)) => node_end(token_kinds(toks@), pos as nat) == Some(e as nat)
                && unparse_node(n) == Some(token_kinds(toks@).subrange(pos as int, e as int))
                && pos < e <= toks@.len() && n.span == (Span {
                start: toks@[pos as int].1.start,
                end: toks@[e - 1].1.end,
            }),
            Err(err) => node_end(token_kinds(toks@), pos as nat) is None && placed(toks@, err)
                && err.kind != ParseErrorKind::DuplicateName,
        },
    decreases toks@.len() - pos, 1nat,
{
    let ghost tv = token_kinds(toks@);
    let n = toks.len();
    proof {
        lemma_one(tv, pos as int);
    }
    match &toks[pos].0 {
        Token::Bool(b) => {
            let node = AstNode {
                span: toks[pos].1,
                ast: AstKind::Literal(IConst::Bool(if *b { 1 } else { 0 })),
            };
            Ok((node, pos + 1))
        },
        Token::Num(d) => {
            match number(d) {
                None => Err(error_at(toks, pos, ParseErrorKind::NumberOutOfRange, Expected::Number)),
                Some(v) => {
                    proof {
                        lemma_digits_decimal(d@);
                    }
                    let node = AstNode { span: toks[pos].1, ast: AstKind::Literal(IConst::U64(v)) };
                    Ok((node, pos + 1))
                },
            }
        },
        Token::Word(w) => {
            let kind = match intrinsic(w) {
                Some(i) => AstKind::Intrinsic(i),
                None => AstKind::Word(slice_chars(w, 0, w.len())),
            };
            proof {
                assert(w@.subrange(0, w@.len() as int) =~= w@);
            }
            Ok((AstNode { span: toks[pos].1, ast: kind }, pos + 1))
        },
        Token::KeyWord(KeyWord::If) => node_if(toks, pos),
        Token::KeyWord(KeyWord::While) => node_while(toks, pos),
        Token::KeyWord(KeyWord::Bind) => node_bind(toks, pos),
        _ => Err(unexpected(toks, pos, Expected::Node)),
    }
}

/// Parses the block that starts at `pos`: nodes up to the first token that
/// starts none.
fn body(toks: &Vec<(Token, Span)>, pos: usize) -> (r: Result<(Vec<AstNode>, usize), ParseError>)
    requires
        pos <= toks@.len(),
    ensures
        match r {
            Ok((b, e)) => block_end(token_kinds(toks@), pos as nat) == Some(e as nat)
                && unparse_block(b@) == Some(token_kinds(toks@).subrange(pos as int, e as int))
                && pos <= e <= toks@.len(),
            Err(err) => block_end(token_kinds(toks@), pos as nat) is None && placed(toks@, err)
                && err.kind != ParseErrorKind::DuplicateName,
        },
    decreases toks@.len() - pos, 2nat,
{
    let ghost tv = token_kinds(toks@);
    let mut nodes: Vec<AstNode> = Vec::new();
    let mut p = pos;
    assert(tv.subrange(pos as int, pos as int) =~= Seq::<TokenV>::empty());
    loop
        invariant
            tv == token_kinds(toks@),
            pos <= p <= toks@.len(),
            block_end(tv, pos as nat) == block_end(tv, p as nat),
            unparse_block(nodes@) == Some(tv.subrange(pos as int, p as int)),
        decreases toks@.len() - p,
    {
        if p >= toks.len() {
            return Ok((nodes, p));
        }
        let starts = match &toks[p].0 {
            Token::Bool(_) => true,
            Token::Num(_) => true,
            Token::Word(_) => true,
            Token::KeyWord(k) => *k == KeyWord::If || *k == KeyWord::While || *k == KeyWord::Bind,
            _ => false,
        };
        if !starts {
            return Ok((nodes, p));
        }
        match node(toks, p) {
            Err(e) => {
                return Err(e);
            },
            Ok((nd, e)) => {
                proof {
                    lemma_unparse_block_push(nodes@, nd);
                    lemma_join(tv, pos as int, p as int, e as int);
                }
                nodes.push(nd);
                p = e;
            },
        }
    }
}

/// Parses the procedure that starts at `pos`.
fn proc(toks: &Vec<(Token, Span)>, pos: usize) -> (r: Result<(Item, usize), ParseError>)
    requires
        pos < toks@.len(),
        at_kw(token_kinds(toks@), pos as nat, KeyWord::Proc),
    ensures
        match r {
            Ok((it, e)) => item_end(token_kinds(toks@), pos as nat) == Some(e as nat)
                && item_tokens(it.0@, it.1) == Some(token_kinds(toks@).subrange(pos as int, e as int))
                && pos < e <= toks@.len() && it.2 == (Span {
                start: toks@[pos as int].1.start,
                end: toks@[e - 1].1.end,
            }) && pos + 1 < toks@.len() && token_kinds(toks@)[pos + 1] == TokenV::Word(it.0@),
            Err(err) => item_end(token_kinds(toks@), pos as nat) is None && placed(toks@, err)
                && err.kind != ParseErrorKind::DuplicateName,
        },
{
    let ghost tv = token_kinds(toks@);
    let n = toks.len();
    if n - pos < 2 {
        return Err(unexpected(toks, pos + 1, Expected::Name));
    }
    let name = match identifier(toks, pos + 1) {
        Some(w) => w,
        None => {
            return Err(unexpected(toks, pos + 1, Expected::Name));
        },
    };
    let (ins, e_in) = types(toks, pos + 2);
    let (outs, s) = if sep_at(toks, e_in) {
        let (outs, e_out) = types(toks, e_in + 1);
        if e_out == e_in + 1 {
            return Err(unexpected(toks, e_out, Expected::Type));
        }
        (outs, e_out)
    } else {
        (Vec::new(), e_in)
    };
    if !kw_at(toks, s, KeyWord::Do) {
        return Err(unexpected(toks, s, Expected::Do));
    }
    let (b, e) = match body(toks, s + 1) {
        Ok(x) => x,
        Err(err) => {
            return Err(err);
        },
    };
    if !kw_at(toks, e, KeyWord::End) {
        return Err(unexpected(toks, e, Expected::End));
    }
    proof {
        lemma_one(tv, pos as int);
        lemma_one(tv, pos + 1);
        lemma_one(tv, s as int);
        lemma_one(tv, e as int);
        let head = seq![TokenV::KeyWord(KeyWord::Proc), TokenV::Word(name@)];
        assert(head =~= tv.subrange(pos as int, pos + 2));
        let ti = tv.subrange(pos + 2, e_in as int);
        let to = if outs@.len() == 0 {
            Seq::empty()
        } else {
            seq![TokenV::SigSep] + types_tokens(outs@)
        };
        if outs@.len() == 0 {
            assert(to =~= tv.subrange(e_in as int, s as int));
        } else {
            lemma_one(tv, e_in as int);
            assert(to =~= tv.subrange(e_in as int, s as int));
        }
        let d = tv.subrange(s as int, s + 1);
        let bt = tv.subrange(s + 1, e as int);
        let f = tv.subrange(e as int, e + 1);
        assert(head + ti + to + d + (bt + f) =~= tv.subrange(pos as int, e + 1));
    }
    let span = node_span(toks, pos, e);
    Ok(((name, TopLevel::Proc(Proc { signature: Signature { ins, outs }, body: b }), span), e + 1))
}

/// Parses the constant that starts at `pos`.
fn constant(toks: &Vec<(Token, Span)>, pos: usize) -> (r: Result<(Item, usize), ParseError>)
    requires
        pos < toks@.len(),
        at_kw(token_kinds(toks@), pos as nat, KeyWord::Const),
    ensures
        match r {
            Ok((it, e)) => item_end(token_kinds(toks@), pos as nat) == Some(e as nat)
                && item_tokens(it.0@, it.1) == Some(token_kinds(toks@).subrange(pos as int, e as int))
                && pos < e <= toks@.len() && it.2 == (Span {
                start: toks@[pos as int].1.start,
                end: toks@[e - 1].1.end,
            }) && pos + 1 < toks@.len() && token_kinds(toks@)[pos + 1] == TokenV::Word(it.0@),
            Err(err) => item_end(token_kinds(toks@), pos as nat) is None && placed(toks@, err)
                && err.kind != ParseErrorKind::DuplicateName,
        },
{
    let ghost tv = token_kinds(toks@);
    if toks.len() - pos < 2 {
        return Err(unexpected(toks, pos + 1, Expected::Name));
    }
    let name = match identifier(toks, pos + 1) {
        Some(w) => w,
        None => {
            return Err(unexpected(toks, pos + 1, Expected::Name));
        },
    };
    if !sep_at(toks, pos + 2) {
        return Err(unexpected(toks, pos + 2, Expected::SigSep));
    }
    let t = match ty(toks, pos + 3) {
        Some(t) => t,
        None => {
            return Err(unexpected(toks, pos + 3, Expected::Type));
        },
    };
    if !kw_at(toks, pos + 4, KeyWord::Do) {
        return Err(unexpected(toks, pos + 4, Expected::Do));
    }
    let (b, e) = match body(toks, pos + 5) {
        Ok(x) => x,
        Err(err) => {
            return Err(err);
        },
    };
    if !kw_at(toks, e, KeyWord::End) {
        return Err(unexpected(toks, e, Expected::End));
    }
    proof {
        lemma_one(tv, e as int);
        let head = seq![
            TokenV::KeyWord(KeyWord::Const),
            TokenV::Word(name@),
            TokenV::SigSep,
            TokenV::Word(type_spelling(t)),
            TokenV::KeyWord(KeyWord::Do),
        ];
        assert(head =~= tv.subrange(pos as int, pos + 5));
        let bt = tv.subrange(pos + 5, e as int);
        let f = tv.subrange(e as int, e + 1);
        assert(head + (bt + f) =~= tv.subrange(pos as int, e + 1));
    }
    let span = node_span(toks, pos, e);
    Ok(((name, TopLevel::Const(Const { body: b, ty: t }), span), e + 1))
}

/// The text of the word at `i`, if there is one.
pub open spec fn name_at(tv: Seq<TokenV>, i: int) -> Seq<char> {
    if 0 <= i < tv.len() && tv[i] is Word {
        tv[i]->Word_0
    } else {
        Seq::empty()
    }
}

/// The names of the items of a program, from `pos` on.
pub open spec fn program_names(tv: Seq<TokenV>, pos: nat) -> Seq<Seq<char>>
    decreases tv.len() - pos,
{
    if pos >= tv.len() {
        Seq::empty()
    } else {
        match item_end(tv, pos) {
            None => Seq::empty(),
            Some(e) => if e <= pos {
                Seq::empty()
            } else {
                seq![name_at(tv, pos + 1 as int)] + program_names(tv, e)
            },
        }
    }
}

pub open spec fn distinct_names(s: Seq<Seq<char>>) -> bool {
    forall|i: int, j: int| 0 <= i < j < s.len() ==> s[i] != s[j]
}

pub open spec fn item_names(items: Seq<Item>) -> Seq<Seq<char>> {
    items.map_values(|it: Item| it.0@)
}

/// Parses a program: a sequence of procedures and constants that covers
/// all of `toks`, each with a name of its own. It succeeds exactly when the
/// tokens follow the grammar and no two items share a name, and then the
/// items, written out again, are exactly the tokens. An error stands at
/// the token where it was found (see `placed`); a repeated name is reported
/// at its second occurrence.
pub fn procs(toks: &Vec<(Token, Span)>) -> (r: Result<Vec<Item>, ParseError>)
    ensures
        r is Ok <==> program_ok(token_kinds(toks@), 0) && distinct_names(
            program_names(token_kinds(toks@), 0),
        ),
        r matches Ok(items) ==> program_tokens(items@) == Some(token_kinds(toks@))
            && item_names(items@) == program_names(token_kinds(toks@), 0),
        r matches Err(err) ==> placed(toks@, err),
        r matches Err(err) ==> (err.kind == ParseErrorKind::DuplicateName ==> err.pos
            < toks@.len() && exists|i: int|
            0 <= i < err.pos && #[trigger] token_kinds(toks@)[i] == token_kinds(toks@)[err.pos as int]),
{
    let ghost tv = token_kinds(toks@);
    let mut items: Vec<Item> = Vec::new();
    let mut p: usize = 0;
    assert(tv.subrange(0, 0) =~= Seq::<TokenV>::empty());
    assert(item_names(items@) + program_names(tv, 0) =~= program_names(tv, 0));
    while p < toks.len()
        invariant
            tv == token_kinds(toks@),
            p <= toks@.len(),
            program_ok(tv, 0) == program_ok(tv, p as nat),
            program_tokens(items@) == Some(tv.subrange(0, p as int)),
            program_names(tv, 0) == item_names(items@) + program_names(tv, p as nat),
            distinct_names(item_names(items@)),
            forall|q: int|
                0 <= q < items@.len() ==> exists|i: int|
                    0 <= i < p && tv[i] == TokenV::Word(#[trigger] items@[q].0@),
        decreases toks@.len() - p,
    {
        let r = if kw_at(toks, p, KeyWord::Proc) {
            proc(toks, p)
        } else if kw_at(toks, p, KeyWord::Const) {
            constant(toks, p)
        } else {
            return Err(unexpected(toks, p, Expected::Item));
        };
        match r {
            Err(e) => {
                return Err(e);
            },
            Ok((it, e)) => {
                let ghost names = item_names(items@);
                assert(name_at(tv, p + 1 as int) == it.0@);
                assert(program_names(tv, p as nat) == seq![it.0@] + program_names(tv, e as nat));
                let name_pos = p + 1;
                let mut q: usize = 0;
                while q < items.len()
                    invariant
                        q <= items@.len(),
                        names == item_names(items@),
                        tv == token_kinds(toks@),
                        name_pos == p + 1,
                        p + 1 < toks@.len(),
                        tv[p + 1] == TokenV::Word(it.0@),
                        program_names(tv, 0) == names + (seq![it.0@] + program_names(tv, e as nat)),
                        forall|q: int|
                            0 <= q < items@.len() ==> exists|i: int|
                                0 <= i < p && tv[i] == TokenV::Word(#[trigger] items@[q].0@),
                        forall|m: int| 0 <= m < q ==> names[m] != it.0@,
                    decreases items@.len() - q,
                {
                    if same_chars_vec(&items[q].0, &it.0) {
                        proof {
                            let all = program_names(tv, 0);
                            assert(all[q as int] == names[q as int]);
                            assert(all[names.len() as int] == it.0@);
                            assert(!distinct_names(all));
                            let i = choose|i: int|
                                0 <= i < p && tv[i] == TokenV::Word(#[trigger] items@[q as int].0@);
                            assert(tv[i] == tv[p + 1]);
                        }
                        return Err(error_at(toks, name_pos, ParseErrorKind::DuplicateName, Expected::Name));
                    }
                    q = q + 1;
                }
                let ghost before = items@;
                items.push(it);
                proof {
                    assert(items@.drop_last() =~= before);
                    lemma_join(tv, 0, p as int, e as int);
                    assert(item_names(items@) =~= names.push(items@.last().0@));
                    assert(program_names(tv, 0) =~= item_names(items@) + program_names(
                        tv,
                        e as nat,
                    ));
                    assert forall|q: int| 0 <= q < items@.len() implies exists|i: int|
                        0 <= i < e && tv[i] == TokenV::Word(#[trigger] items@[q].0@) by {
                        if q < before.len() {
                            assert(items@[q] == before[q]);
                        } else {
                            assert(tv[p + 1] == TokenV::Word(items@[q].0@));
                        }
                    }
                }
                p = e;
            },
        }
    }
    assert(tv.subrange(0, tv.len() as int) =~= tv);
    assert(item_names(items@) + program_names(tv, p as nat) =~= item_names(items@));
    Ok(items)
}

fn same_chars_vec(a: &Vec<char>, b: &Vec<char>) -> (r: bool)
    ensures
        r == (a@ == b@),
{
    if a.len() != b.len() {
        return false;
    }
    let mut i: usize = 0;
    while i < a.len()
        invariant
            a@.len() == b@.len(),
            i <= a@.len(),
            forall|k: int| 0 <= k < i ==> a@[k] == b@[k],
        decreases a@.len() - i,
    {
        if a[i] != b[i] {
            return false;
        }
        i = i + 1;
    }
    assert(a@ =~= b@);
    true
}

} // verus!
