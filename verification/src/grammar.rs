//! Context-free grammar: a recursive-descent parser over the tokens of the source code.
//!
//! Each rule has a spec function that says what pulling it from a token index gives
//! ([`Outcome`]), and an executable `try_pull` proved to give exactly that.
use crate::error::{spans, Article, ContextError, ErrorType, Expecting, TokenResult};
use crate::scanner::token::{
    punctuation_text, Keyword, Punctuation, Token, TokenType, TokenValue, ValueModel,
};
use crate::scanner::{lemma_lex_tiles, lex, result_is, tokenize};
use crate::scanner::Bracket;
use crate::text::{
    byte_offset, lemma_byte_offset_mono, lemma_char_index, lemma_utf8_len_subrange, utf8_len,
};
use core::ops::Range;
use vstd::prelude::*;

verus! {

/// A token the grammar reads: the token, its value and its byte range in the source code
#[derive(Debug)]
pub struct Lexeme<'a> {
    /// The token
    pub token: Token<'a>,
    /// Its value
    pub value: TokenValue<'a>,
    /// Its byte range in the source code
    pub range: Range<usize>,
}

/// Every lexeme's range spans its text in `source`
pub open spec fn lexemes_wf(source: &str, toks: Seq<Lexeme>) -> bool {
    forall|i: int| 0 <= i < toks.len() ==> spans(source, #[trigger] toks[i].range, toks[i].token.src@)
}

/// What pulling a rule from a token index gives
pub enum Outcome<'a, T> {
    /// The rule's value, and the index of the token after it
    Parsed(T, int),
    /// The error that stops the rule
    Failed(ContextError<'a>),
    /// No answer: the rule recurses forever (a left-recursive alternative) or is not written yet
    Stuck,
}

/// Whether an executable result is the outcome `o`
pub open spec fn pulled<'a, T>(r: Result<(T, usize), ContextError<'a>>, o: Outcome<'a, T>) -> bool {
    match o {
        Outcome::Parsed(x, j) => r == Ok::<(T, usize), ContextError<'a>>((x, j as usize)),
        Outcome::Failed(e) => r == Err::<(T, usize), ContextError<'a>>(e),
        Outcome::Stuck => false,
    }
}

/// Whether an outcome is an answer
pub open spec fn answers<'a, T>(o: Outcome<'a, T>) -> bool {
    !(o is Stuck)
}

/// Whether an outcome that parsed ends at a token index in `lo..=hi`
pub open spec fn ends_within<'a, T>(o: Outcome<'a, T>, lo: int, hi: int) -> bool {
    o matches Outcome::Parsed(_, j) ==> lo <= j <= hi
}

/// The rule's value mapped by `f`
pub open spec fn wrap<'a, T, U>(o: Outcome<'a, T>, f: spec_fn(T) -> U) -> Outcome<'a, U> {
    match o {
        Outcome::Parsed(x, j) => Outcome::Parsed(f(x), j),
        Outcome::Failed(e) => Outcome::Failed(e),
        Outcome::Stuck => Outcome::Stuck,
    }
}

/// The error for `exp` not being found at token index `i`: the token found there, or the end
/// of the source code
pub open spec fn expected_at<'a>(source: &'a str, toks: Seq<Lexeme<'a>>, i: int, exp: Expecting) -> ContextError<'a> {
    if 0 <= i < toks.len() {
        ContextError {
            source,
            range: toks[i].range,
            err: ErrorType::UnexpectedToken { expect: exp, actual: toks[i].token },
        }
    } else {
        ContextError {
            source,
            range: Range { start: utf8_len(source@) as usize, end: utf8_len(source@) as usize },
            err: ErrorType::MissingToken { expect: exp },
        }
    }
}

/// [`expected_at`]
fn error_at<'a>(source: &'a str, tokens: &'a [Lexeme<'a>], i: usize, exp: Expecting) -> (e:
    ContextError<'a>)
    requires
        lexemes_wf(source, tokens@),
    ensures
        e == expected_at(source, tokens@, i as int, exp),
{
    if i < tokens.len() {
        let l = &tokens[i];
        assert(spans(source, tokens@[i as int].range, tokens@[i as int].token.src@));
        ContextError::unexpected(l.token, source, Range { start: l.range.start, end: l.range.end }, exp)
    } else {
        ContextError::missing(source, exp)
    }
}

/// The token pattern of a terminal rule
#[derive(Debug, Clone, Copy, PartialEq, Eq)]
pub enum Terminal {
    /// A keyword
    Keyword(Keyword),
    /// A punctuation token
    Punctuation(Punctuation),
    /// A name ([`TokenValue::Direct`])
    Identifier,
}

/// A rule that matches a single token
pub trait MatchRule<'a>: Sized {
    /// What a matching token gives
    type Output;

    /// What `lexeme` gives, if it matches
    spec fn matched(&self, lexeme: Lexeme<'a>) -> Option<Self::Output>;

    /// Matches the token at index `start`: gives what it gives and the next index, or the index
    /// of the token that does not match ([`None`] at the end of the tokens)
    fn try_pull(self, tokens: &'a [Lexeme<'a>], start: usize) -> (r: Result<
        (Self::Output, usize),
        Option<usize>,
    >)
        requires
            start <= tokens@.len(),
        ensures
            start == tokens@.len() ==> r == Err::<(Self::Output, usize), Option<usize>>(None),
            start < tokens@.len() ==> match self.matched(tokens@[start as int]) {
                Some(x) => r == Ok::<(Self::Output, usize), Option<usize>>((x, (start + 1) as usize)),
                None => r == Err::<(Self::Output, usize), Option<usize>>(Some(start)),
            },
            r matches Ok((_, j)) ==> j == start + 1,
    ;
}

/// The text of `lexeme` if it matches `t`
pub open spec fn terminal_text<'a>(t: Terminal, lexeme: Lexeme<'a>) -> Option<&'a str> {
    match t {
        Terminal::Keyword(k) => if lexeme.value == TokenValue::Keyword(k) {
            Some(lexeme.token.src)
        } else {
            None
        },
        Terminal::Punctuation(p) => if lexeme.value == TokenValue::Punctuation(p) {
            Some(lexeme.token.src)
        } else {
            None
        },
        Terminal::Identifier => match lexeme.value {
            TokenValue::Direct(s) => Some(s),
            _ => None,
        },
    }
}

impl<'a> MatchRule<'a> for Terminal {
    type Output = &'a str;

    open spec fn matched(&self, lexeme: Lexeme<'a>) -> Option<&'a str> {
        terminal_text(*self, lexeme)
    }

    fn try_pull(self, tokens: &'a [Lexeme<'a>], start: usize) -> (r: Result<(&'a str, usize), Option<usize>>) {
        if start >= tokens.len() {
            return Err(None);
        }
        let l = &tokens[start];
        let found = match self {
            Terminal::Keyword(k) => match &l.value {
                TokenValue::Keyword(v) => if *v == k {
                    Some(l.token.src)
                } else {
                    None
                },
                _ => None,
            },
            Terminal::Punctuation(p) => match &l.value {
                TokenValue::Punctuation(v) => if *v == p {
                    Some(l.token.src)
                } else {
                    None
                },
                _ => None,
            },
            Terminal::Identifier => match &l.value {
                TokenValue::Direct(s) => Some(*s),
                _ => None,
            },
        };
        match found {
            Some(s) => Ok((s, start + 1)),
            None => Err(Some(start)),
        }
    }
}

/// The text of the token at `i` if it matches `t`
pub open spec fn text_at<'a>(toks: Seq<Lexeme<'a>>, i: int, t: Terminal) -> Option<&'a str> {
    if 0 <= i < toks.len() {
        terminal_text(t, toks[i])
    } else {
        None
    }
}

/// Pulling a terminal rule: its text, or the error for `exp` not being found
pub open spec fn terminal_outcome<'a>(
    source: &'a str,
    toks: Seq<Lexeme<'a>>,
    i: int,
    t: Terminal,
    exp: Expecting,
) -> Outcome<'a, &'a str> {
    match text_at(toks, i, t) {
        Some(s) => Outcome::Parsed(s, i + 1),
        None => Outcome::Failed(expected_at(source, toks, i, exp)),
    }
}

/// [`terminal_outcome`]
fn pull_terminal<'a>(
    source: &'a str,
    tokens: &'a [Lexeme<'a>],
    start: usize,
    t: Terminal,
    exp: Expecting,
) -> (r: Result<(&'a str, usize), ContextError<'a>>)
    requires
        lexemes_wf(source, tokens@),
        start <= tokens@.len(),
    ensures
        pulled(r, terminal_outcome(source, tokens@, start as int, t, exp)),
        r matches Ok((s, j)) ==> j == start + 1 && start < tokens@.len() && text_at(
            tokens@,
            start as int,
            t,
        ) == Some(s),
        r matches Err(e) ==> text_at(tokens@, start as int, t) is None && e == expected_at(
            source,
            tokens@,
            start as int,
            exp,
        ),
{
    match t.try_pull(tokens, start) {
        Ok((s, j)) => Ok((s, j)),
        Err(_) => Err(error_at(source, tokens, start, exp)),
    }
}

/// An expectation introduced with "a"
pub open spec fn a(expect: &'static str) -> Expecting {
    Expecting { expect, article: Article::A }
}

/// An expectation introduced with "an"
pub open spec fn an(expect: &'static str) -> Expecting {
    Expecting { expect, article: Article::An }
}

/// A rule of the grammar
pub trait Rule<'a>: Sized {
    /// What pulling this rule from token index `start` gives
    spec fn outcome(source: &'a str, toks: Seq<Lexeme<'a>>, start: int) -> Outcome<'a, Self>;

    /// Pulls this rule from token index `start`: its value and the index of the token after it,
    /// or the error that stops it
    fn try_pull(source: &'a str, tokens: &'a [Lexeme<'a>], start: usize) -> (r: Result<
        (Self, usize),
        ContextError<'a>,
    >)
        requires
            lexemes_wf(source, tokens@),
            start <= tokens@.len(),
            answers(Self::outcome(source, tokens@, start as int)),
        ensures
            pulled(r, Self::outcome(source, tokens@, start as int)),
    ;
}

/// `"let"`
#[derive(Debug, Clone, Copy, PartialEq, Eq, Hash, Default)]
pub struct LetKeyword<'a>(pub &'a str);

impl<'a> Rule<'a> for LetKeyword<'a> {
    open spec fn outcome(source: &'a str, toks: Seq<Lexeme<'a>>, start: int) -> Outcome<'a, Self> {
        match text_at(toks, start, Terminal::Keyword(Keyword::Let)) {
            Some(s) => Outcome::Parsed(LetKeyword(s), start + 1),
            None => Outcome::Failed(expected_at(source, toks, start, a("`let` keyword"))),
        }
    }

    fn try_pull(source: &'a str, tokens: &'a [Lexeme<'a>], start: usize) -> (r: Result<
        (Self, usize),
        ContextError<'a>,
    >) {
        match pull_terminal(source, tokens, start, Terminal::Keyword(Keyword::Let), Expecting::a("`let` keyword")) {
            Ok((s, j)) => Ok((LetKeyword(s), j)),
            Err(e) => Err(e),
        }
    }
}

/// `"="`
#[derive(Debug, Clone, Copy, PartialEq, Eq, Hash, Default)]
pub struct AssignOp<'a>(pub &'a str);

impl<'a> Rule<'a> for AssignOp<'a> {
    open spec fn outcome(source: &'a str, toks: Seq<Lexeme<'a>>, start: int) -> Outcome<'a, Self> {
        match text_at(toks, start, Terminal::Punctuation(Punctuation::Assign)) {
            Some(s) => Outcome::Parsed(AssignOp(s), start + 1),
            None => Outcome::Failed(expected_at(source, toks, start, an("`=` operator"))),
        }
    }

    fn try_pull(source: &'a str, tokens: &'a [Lexeme<'a>], start: usize) -> (r: Result<
        (Self, usize),
        ContextError<'a>,
    >) {
        match pull_terminal(source, tokens, start, Terminal::Punctuation(Punctuation::Assign), Expecting::an("`=` operator")) {
            Ok((s, j)) => Ok((AssignOp(s), j)),
            Err(e) => Err(e),
        }
    }
}

/// `";"`
#[derive(Debug, Clone, Copy, PartialEq, Eq, Hash, Default)]
pub struct SemiColon<'a>(pub &'a str);

impl<'a> Rule<'a> for SemiColon<'a> {
    open spec fn outcome(source: &'a str, toks: Seq<Lexeme<'a>>, start: int) -> Outcome<'a, Self> {
        match text_at(toks, start, Terminal::Punctuation(Punctuation::Semi)) {
            Some(s) => Outcome::Parsed(SemiColon(s), start + 1),
            None => Outcome::Failed(expected_at(source, toks, start, an("`;`"))),
        }
    }

    fn try_pull(source: &'a str, tokens: &'a [Lexeme<'a>], start: usize) -> (r: Result<
        (Self, usize),
        ContextError<'a>,
    >) {
        match pull_terminal(source, tokens, start, Terminal::Punctuation(Punctuation::Semi), Expecting::an("`;`")) {
            Ok((s, j)) => Ok((SemiColon(s), j)),
            Err(e) => Err(e),
        }
    }
}

/// `"("`
#[derive(Debug, Clone, Copy, PartialEq, Eq, Hash, Default)]
pub struct OpenParen<'a>(pub &'a str);

impl<'a> Rule<'a> for OpenParen<'a> {
    open spec fn outcome(source: &'a str, toks: Seq<Lexeme<'a>>, start: int) -> Outcome<'a, Self> {
        match text_at(toks, start, Terminal::Punctuation(Punctuation::LParen)) {
            Some(s) => Outcome::Parsed(OpenParen(s), start + 1),
            None => Outcome::Failed(expected_at(source, toks, start, an("open parenthesis `(`"))),
        }
    }

    fn try_pull(source: &'a str, tokens: &'a [Lexeme<'a>], start: usize) -> (r: Result<
        (Self, usize),
        ContextError<'a>,
    >) {
        match pull_terminal(source, tokens, start, Terminal::Punctuation(Punctuation::LParen), Expecting::an("open parenthesis `(`")) {
            Ok((s, j)) => Ok((OpenParen(s), j)),
            Err(e) => Err(e),
        }
    }
}

/// `")"`
#[derive(Debug, Clone, Copy, PartialEq, Eq, Hash, Default)]
pub struct CloseParen<'a>(pub &'a str);

impl<'a> Rule<'a> for CloseParen<'a> {
    open spec fn outcome(source: &'a str, toks: Seq<Lexeme<'a>>, start: int) -> Outcome<'a, Self> {
        match text_at(toks, start, Terminal::Punctuation(Punctuation::RParen)) {
            Some(s) => Outcome::Parsed(CloseParen(s), start + 1),
            None => Outcome::Failed(expected_at(source, toks, start, a("close parenthesis `)`"))),
        }
    }

    fn try_pull(source: &'a str, tokens: &'a [Lexeme<'a>], start: usize) -> (r: Result<
        (Self, usize),
        ContextError<'a>,
    >) {
        match pull_terminal(source, tokens, start, Terminal::Punctuation(Punctuation::RParen), Expecting::a("close parenthesis `)`")) {
            Ok((s, j)) => Ok((CloseParen(s), j)),
            Err(e) => Err(e),
        }
    }
}

/// `"["`
#[derive(Debug, Clone, Copy, PartialEq, Eq, Hash, Default)]
pub struct OpenBrack<'a>(pub &'a str);

impl<'a> Rule<'a> for OpenBrack<'a> {
    open spec fn outcome(source: &'a str, toks: Seq<Lexeme<'a>>, start: int) -> Outcome<'a, Self> {
        match text_at(toks, start, Terminal::Punctuation(Punctuation::LBrack)) {
            Some(s) => Outcome::Parsed(OpenBrack(s), start + 1),
            None => Outcome::Failed(expected_at(source, toks, start, an("open bracket `[`"))),
        }
    }

    fn try_pull(source: &'a str, tokens: &'a [Lexeme<'a>], start: usize) -> (r: Result<
        (Self, usize),
        ContextError<'a>,
    >) {
        match pull_terminal(source, tokens, start, Terminal::Punctuation(Punctuation::LBrack), Expecting::an("open bracket `[`")) {
            Ok((s, j)) => Ok((OpenBrack(s), j)),
            Err(e) => Err(e),
        }
    }
}

/// `"]"`
#[derive(Debug, Clone, Copy, PartialEq, Eq, Hash, Default)]
pub struct CloseBrack<'a>(pub &'a str);

impl<'a> Rule<'a> for CloseBrack<'a> {
    open spec fn outcome(source: &'a str, toks: Seq<Lexeme<'a>>, start: int) -> Outcome<'a, Self> {
        match text_at(toks, start, Terminal::Punctuation(Punctuation::RBrack)) {
            Some(s) => Outcome::Parsed(CloseBrack(s), start + 1),
            None => Outcome::Failed(expected_at(source, toks, start, a("close bracket `]`"))),
        }
    }

    fn try_pull(source: &'a str, tokens: &'a [Lexeme<'a>], start: usize) -> (r: Result<
        (Self, usize),
        ContextError<'a>,
    >) {
        match pull_terminal(source, tokens, start, Terminal::Punctuation(Punctuation::RBrack), Expecting::a("close bracket `]`")) {
            Ok((s, j)) => Ok((CloseBrack(s), j)),
            Err(e) => Err(e),
        }
    }
}

/// `"{"`
#[derive(Debug, Clone, Copy, PartialEq, Eq, Hash, Default)]
pub struct OpenBrace<'a>(pub &'a str);

impl<'a> Rule<'a> for OpenBrace<'a> {
    open spec fn outcome(source: &'a str, toks: Seq<Lexeme<'a>>, start: int) -> Outcome<'a, Self> {
        match text_at(toks, start, Terminal::Punctuation(Punctuation::LBrace)) {
            Some(s) => Outcome::Parsed(OpenBrace(s), start + 1),
            None => Outcome::Failed(expected_at(source, toks, start, an("open brace `{`"))),
        }
    }

    fn try_pull(source: &'a str, tokens: &'a [Lexeme<'a>], start: usize) -> (r: Result<
        (Self, usize),
        ContextError<'a>,
    >) {
        match pull_terminal(source, tokens, start, Terminal::Punctuation(Punctuation::LBrace), Expecting::an("open brace `{`")) {
            Ok((s, j)) => Ok((OpenBrace(s), j)),
            Err(e) => Err(e),
        }
    }
}

/// `"}"`
#[derive(Debug, Clone, Copy, PartialEq, Eq, Hash, Default)]
pub struct CloseBrace<'a>(pub &'a str);

impl<'a> Rule<'a> for CloseBrace<'a> {
    open spec fn outcome(source: &'a str, toks: Seq<Lexeme<'a>>, start: int) -> Outcome<'a, Self> {
        match text_at(toks, start, Terminal::Punctuation(Punctuation::RBrace)) {
            Some(s) => Outcome::Parsed(CloseBrace(s), start + 1),
            None => Outcome::Failed(expected_at(source, toks, start, a("close brace `}`"))),
        }
    }

    fn try_pull(source: &'a str, tokens: &'a [Lexeme<'a>], start: usize) -> (r: Result<
        (Self, usize),
        ContextError<'a>,
    >) {
        match pull_terminal(source, tokens, start, Terminal::Punctuation(Punctuation::RBrace), Expecting::a("close brace `}`")) {
            Ok((s, j)) => Ok((CloseBrace(s), j)),
            Err(e) => Err(e),
        }
    }
}

/// `"struct"`
#[derive(Debug, Clone, Copy, PartialEq, Eq, Hash, Default)]
pub struct StructKeyword<'a>(pub &'a str);

impl<'a> Rule<'a> for StructKeyword<'a> {
    open spec fn outcome(source: &'a str, toks: Seq<Lexeme<'a>>, start: int) -> Outcome<'a, Self> {
        match text_at(toks, start, Terminal::Keyword(Keyword::Struct)) {
            Some(s) => Outcome::Parsed(StructKeyword(s), start + 1),
            None => Outcome::Failed(expected_at(source, toks, start, a("`struct` keyword"))),
        }
    }

    fn try_pull(source: &'a str, tokens: &'a [Lexeme<'a>], start: usize) -> (r: Result<
        (Self, usize),
        ContextError<'a>,
    >) {
        match pull_terminal(source, tokens, start, Terminal::Keyword(Keyword::Struct), Expecting::a("`struct` keyword")) {
            Ok((s, j)) => Ok((StructKeyword(s), j)),
            Err(e) => Err(e),
        }
    }
}

/// `"union"`
#[derive(Debug, Clone, Copy, PartialEq, Eq, Hash, Default)]
pub struct UnionKeyword<'a>(pub &'a str);

impl<'a> Rule<'a> for UnionKeyword<'a> {
    open spec fn outcome(source: &'a str, toks: Seq<Lexeme<'a>>, start: int) -> Outcome<'a, Self> {
        match text_at(toks, start, Terminal::Keyword(Keyword::Union)) {
            Some(s) => Outcome::Parsed(UnionKeyword(s), start + 1),
            None => Outcome::Failed(expected_at(source, toks, start, a("`union` keyword"))),
        }
    }

    fn try_pull(source: &'a str, tokens: &'a [Lexeme<'a>], start: usize) -> (r: Result<
        (Self, usize),
        ContextError<'a>,
    >) {
        match pull_terminal(source, tokens, start, Terminal::Keyword(Keyword::Union), Expecting::a("`union` keyword")) {
            Ok((s, j)) => Ok((UnionKeyword(s), j)),
            Err(e) => Err(e),
        }
    }
}

/// `"enum"`
#[derive(Debug, Clone, Copy, PartialEq, Eq, Hash, Default)]
pub struct EnumKeyword<'a>(pub &'a str);

impl<'a> Rule<'a> for EnumKeyword<'a> {
    open spec fn outcome(source: &'a str, toks: Seq<Lexeme<'a>>, start: int) -> Outcome<'a, Self> {
        match text_at(toks, start, Terminal::Keyword(Keyword::Enum)) {
            Some(s) => Outcome::Parsed(EnumKeyword(s), start + 1),
            None => Outcome::Failed(expected_at(source, toks, start, an("`enum` keyword"))),
        }
    }

    fn try_pull(source: &'a str, tokens: &'a [Lexeme<'a>], start: usize) -> (r: Result<
        (Self, usize),
        ContextError<'a>,
    >) {
        match pull_terminal(source, tokens, start, Terminal::Keyword(Keyword::Enum), Expecting::an("`enum` keyword")) {
            Ok((s, j)) => Ok((EnumKeyword(s), j)),
            Err(e) => Err(e),
        }
    }
}

/// `"type"`
#[derive(Debug, Clone, Copy, PartialEq, Eq, Hash, Default)]
pub struct TypeKeyword<'a>(pub &'a str);

impl<'a> Rule<'a> for TypeKeyword<'a> {
    open spec fn outcome(source: &'a str, toks: Seq<Lexeme<'a>>, start: int) -> Outcome<'a, Self> {
        match text_at(toks, start, Terminal::Keyword(Keyword::Type)) {
            Some(s) => Outcome::Parsed(TypeKeyword(s), start + 1),
            None => Outcome::Failed(expected_at(source, toks, start, a("`type` keyword"))),
        }
    }

    fn try_pull(source: &'a str, tokens: &'a [Lexeme<'a>], start: usize) -> (r: Result<
        (Self, usize),
        ContextError<'a>,
    >) {
        match pull_terminal(source, tokens, start, Terminal::Keyword(Keyword::Type), Expecting::a("`type` keyword")) {
            Ok((s, j)) => Ok((TypeKeyword(s), j)),
            Err(e) => Err(e),
        }
    }
}

/// `"def"`
#[derive(Debug, Clone, Copy, PartialEq, Eq, Hash, Default)]
pub struct DefKeyword<'a>(pub &'a str);

impl<'a> Rule<'a> for DefKeyword<'a> {
    open spec fn outcome(source: &'a str, toks: Seq<Lexeme<'a>>, start: int) -> Outcome<'a, Self> {
        match text_at(toks, start, Terminal::Keyword(Keyword::Def)) {
            Some(s) => Outcome::Parsed(DefKeyword(s), start + 1),
            None => Outcome::Failed(expected_at(source, toks, start, a("`def` keyword"))),
        }
    }

    fn try_pull(source: &'a str, tokens: &'a [Lexeme<'a>], start: usize) -> (r: Result<
        (Self, usize),
        ContextError<'a>,
    >) {
        match pull_terminal(source, tokens, start, Terminal::Keyword(Keyword::Def), Expecting::a("`def` keyword")) {
            Ok((s, j)) => Ok((DefKeyword(s), j)),
            Err(e) => Err(e),
        }
    }
}

/// `","`
#[derive(Debug, Clone, Copy, PartialEq, Eq, Hash, Default)]
pub struct CommaPunc<'a>(pub &'a str);

impl<'a> Rule<'a> for CommaPunc<'a> {
    open spec fn outcome(source: &'a str, toks: Seq<Lexeme<'a>>, start: int) -> Outcome<'a, Self> {
        match text_at(toks, start, Terminal::Punctuation(Punctuation::Comma)) {
            Some(s) => Outcome::Parsed(CommaPunc(s), start + 1),
            None => Outcome::Failed(expected_at(source, toks, start, a("comma (`,`)"))),
        }
    }

    fn try_pull(source: &'a str, tokens: &'a [Lexeme<'a>], start: usize) -> (r: Result<
        (Self, usize),
        ContextError<'a>,
    >) {
        match pull_terminal(source, tokens, start, Terminal::Punctuation(Punctuation::Comma), Expecting::a("comma (`,`)")) {
            Ok((s, j)) => Ok((CommaPunc(s), j)),
            Err(e) => Err(e),
        }
    }
}

/// `"fn"`
#[derive(Debug, Clone, Copy, PartialEq, Eq, Hash, Default)]
pub struct FnKeyword<'a>(pub &'a str);

impl<'a> Rule<'a> for FnKeyword<'a> {
    open spec fn outcome(source: &'a str, toks: Seq<Lexeme<'a>>, start: int) -> Outcome<'a, Self> {
        match text_at(toks, start, Terminal::Keyword(Keyword::Fn)) {
            Some(s) => Outcome::Parsed(FnKeyword(s), start + 1),
            None => Outcome::Failed(expected_at(source, toks, start, a("`fn` keyword"))),
        }
    }

    fn try_pull(source: &'a str, tokens: &'a [Lexeme<'a>], start: usize) -> (r: Result<
        (Self, usize),
        ContextError<'a>,
    >) {
        match pull_terminal(source, tokens, start, Terminal::Keyword(Keyword::Fn), Expecting::a("`fn` keyword")) {
            Ok((s, j)) => Ok((FnKeyword(s), j)),
            Err(e) => Err(e),
        }
    }
}

/// A name
#[derive(Debug, Clone, Copy, PartialEq, Eq, Hash, Default)]
pub struct Ident<'a>(pub &'a str);

impl<'a> Rule<'a> for Ident<'a> {
    open spec fn outcome(source: &'a str, toks: Seq<Lexeme<'a>>, start: int) -> Outcome<'a, Self> {
        match text_at(toks, start, Terminal::Identifier) {
            Some(s) => Outcome::Parsed(Ident(s), start + 1),
            None => Outcome::Failed(expected_at(source, toks, start, an("identifier"))),
        }
    }

    fn try_pull(source: &'a str, tokens: &'a [Lexeme<'a>], start: usize) -> (r: Result<
        (Self, usize),
        ContextError<'a>,
    >) {
        match pull_terminal(source, tokens, start, Terminal::Identifier, Expecting::an("identifier")) {
            Ok((s, j)) => Ok((Ident(s), j)),
            Err(e) => Err(e),
        }
    }
}

/// `<binding> ::= <identifier>`
#[derive(Debug, Clone, Copy, PartialEq, Eq, Hash, Default)]
pub struct Binding<'a> {
    /// The name
    pub name: Ident<'a>,
}

/// `<let-statement> ::= "let" <binding> "=" <expression> ";"`
#[derive(Debug, PartialEq)]
pub struct LetStatement<'a> {
    /// `let`
    pub let_kw: LetKeyword<'a>,
    /// The name being bound
    pub binding: Binding<'a>,
    /// `=`
    pub assign_kw: AssignOp<'a>,
    /// The value
    pub expression: Expression<'a>,
    /// `;`
    pub semi: SemiColon<'a>,
}

/// `<parenthesized> ::= "(" INNER ")"`
#[derive(Debug, Clone, Copy, PartialEq, Eq, Hash, Default)]
pub struct Parenthesized<'a, T> {
    /// `(`
    pub open: OpenParen<'a>,
    /// What the parentheses hold
    pub inner: T,
    /// `)`
    pub close: CloseParen<'a>,
}

/// `<bracketed> ::= "[" INNER "]"`
#[derive(Debug, Clone, Copy, PartialEq, Eq, Hash, Default)]
pub struct Bracketed<'a, T> {
    /// `[`
    pub open: OpenBrack<'a>,
    /// What the brackets hold
    pub inner: T,
    /// `]`
    pub close: CloseBrack<'a>,
}

/// `<braced> ::= "{" INNER "}"`
#[derive(Debug, Clone, Copy, PartialEq, Eq, Hash, Default)]
pub struct Braced<'a, T> {
    /// `{`
    pub open: OpenBrace<'a>,
    /// What the braces hold
    pub inner: T,
    /// `}`
    pub close: CloseBrace<'a>,
}

/// A literal token: its text and its value
#[derive(Debug, PartialEq)]
pub struct Literal<'a> {
    /// The text and the value of the token
    pub token: (&'a str, &'a TokenValue<'a>),
}

/// The punctuation that is a binary operator
#[derive(Debug, Clone, Copy, PartialEq, Eq, Hash)]
pub enum BinaryOp {
    /// [`Punctuation::Neq`]
    Neq,
    /// [`Punctuation::Nand`]
    Nand,
    /// [`Punctuation::Nor`]
    Nor,
    /// [`Punctuation::Xnor`]
    Xnor,
    /// [`Punctuation::Exponent`]
    Exponent,
    /// [`Punctuation::Le`]
    Le,
    /// [`Punctuation::Shl`]
    Shl,
    /// [`Punctuation::Eq`]
    Eq,
    /// [`Punctuation::Ge`]
    Ge,
    /// [`Punctuation::Shr`]
    Shr,
    /// [`Punctuation::Remainder`]
    Remainder,
    /// [`Punctuation::And`]
    And,
    /// [`Punctuation::Mul`]
    Mul,
    /// [`Punctuation::Add`]
    Add,
    /// [`Punctuation::Sub`]
    Sub,
    /// [`Punctuation::Div`]
    Div,
    /// [`Punctuation::Lt`]
    Lt,
    /// [`Punctuation::Gt`]
    Gt,
    /// [`Punctuation::Xor`]
    Xor,
    /// [`Punctuation::Or`]
    Or,
}

/// The binary operator that punctuation `p` is, if any
pub open spec fn binary_op_of(p: Punctuation) -> Option<BinaryOp> {
    match p {
        Punctuation::Neq => Some(BinaryOp::Neq),
        Punctuation::Nand => Some(BinaryOp::Nand),
        Punctuation::Nor => Some(BinaryOp::Nor),
        Punctuation::Xnor => Some(BinaryOp::Xnor),
        Punctuation::Exponent => Some(BinaryOp::Exponent),
        Punctuation::Le => Some(BinaryOp::Le),
        Punctuation::Shl => Some(BinaryOp::Shl),
        Punctuation::Eq => Some(BinaryOp::Eq),
        Punctuation::Ge => Some(BinaryOp::Ge),
        Punctuation::Shr => Some(BinaryOp::Shr),
        Punctuation::Remainder => Some(BinaryOp::Remainder),
        Punctuation::And => Some(BinaryOp::And),
        Punctuation::Mul => Some(BinaryOp::Mul),
        Punctuation::Add => Some(BinaryOp::Add),
        Punctuation::Sub => Some(BinaryOp::Sub),
        Punctuation::Div => Some(BinaryOp::Div),
        Punctuation::Lt => Some(BinaryOp::Lt),
        Punctuation::Gt => Some(BinaryOp::Gt),
        Punctuation::Xor => Some(BinaryOp::Xor),
        Punctuation::Or => Some(BinaryOp::Or),
        _ => None,
    }
}

/// The punctuation a binary operator is spelled with
pub open spec fn binary_op_punctuation(op: BinaryOp) -> Punctuation {
    match op {
        BinaryOp::Neq => Punctuation::Neq,
        BinaryOp::Nand => Punctuation::Nand,
        BinaryOp::Nor => Punctuation::Nor,
        BinaryOp::Xnor => Punctuation::Xnor,
        BinaryOp::Exponent => Punctuation::Exponent,
        BinaryOp::Le => Punctuation::Le,
        BinaryOp::Shl => Punctuation::Shl,
        BinaryOp::Eq => Punctuation::Eq,
        BinaryOp::Ge => Punctuation::Ge,
        BinaryOp::Shr => Punctuation::Shr,
        BinaryOp::Remainder => Punctuation::Remainder,
        BinaryOp::And => Punctuation::And,
        BinaryOp::Mul => Punctuation::Mul,
        BinaryOp::Add => Punctuation::Add,
        BinaryOp::Sub => Punctuation::Sub,
        BinaryOp::Div => Punctuation::Div,
        BinaryOp::Lt => Punctuation::Lt,
        BinaryOp::Gt => Punctuation::Gt,
        BinaryOp::Xor => Punctuation::Xor,
        BinaryOp::Or => Punctuation::Or,
    }
}

/// How each binary operator is written
pub open spec fn binary_op_text(op: BinaryOp) -> Seq<char> {
    match op {
        BinaryOp::Neq => seq!['!', '='],
        BinaryOp::Nand => seq!['!', '&'],
        BinaryOp::Nor => seq!['!', '|'],
        BinaryOp::Xnor => seq!['!', '^'],
        BinaryOp::Exponent => seq!['*', '*'],
        BinaryOp::Le => seq!['<', '='],
        BinaryOp::Shl => seq!['<', '<'],
        BinaryOp::Eq => seq!['=', '='],
        BinaryOp::Ge => seq!['>', '='],
        BinaryOp::Shr => seq!['>', '>'],
        BinaryOp::Remainder => seq!['%'],
        BinaryOp::And => seq!['&'],
        BinaryOp::Mul => seq!['*'],
        BinaryOp::Add => seq!['+'],
        BinaryOp::Sub => seq!['-'],
        BinaryOp::Div => seq!['/'],
        BinaryOp::Lt => seq!['<'],
        BinaryOp::Gt => seq!['>'],
        BinaryOp::Xor => seq!['^'],
        BinaryOp::Or => seq!['|'],
    }
}

/// Reading punctuation as a binary operator keeps what is written: the operator read from `<`
/// is the one written `<` ([`BinaryOp::Lt`]), from `>` the one written `>`; and each operator
/// is written with the punctuation it is read from.
pub proof fn lemma_binary_op_spelling(p: Punctuation, op: BinaryOp)
    ensures
        binary_op_of(p) == Some(op) ==> binary_op_text(op) == punctuation_text(p),
        punctuation_text(binary_op_punctuation(op)) == binary_op_text(op),
        binary_op_of(binary_op_punctuation(op)) == Some(op),
{
}

impl BinaryOp {
    /// The binary operator that punctuation `p` is, if any
    pub fn try_from_punctuation(p: Punctuation) -> (r: Option<Self>)
        ensures
            r == binary_op_of(p),
    {
        match p {
            Punctuation::Neq => Some(BinaryOp::Neq),
            Punctuation::Nand => Some(BinaryOp::Nand),
            Punctuation::Nor => Some(BinaryOp::Nor),
            Punctuation::Xnor => Some(BinaryOp::Xnor),
            Punctuation::Exponent => Some(BinaryOp::Exponent),
            Punctuation::Le => Some(BinaryOp::Le),
            Punctuation::Shl => Some(BinaryOp::Shl),
            Punctuation::Eq => Some(BinaryOp::Eq),
            Punctuation::Ge => Some(BinaryOp::Ge),
            Punctuation::Shr => Some(BinaryOp::Shr),
            Punctuation::Remainder => Some(BinaryOp::Remainder),
            Punctuation::And => Some(BinaryOp::And),
            Punctuation::Mul => Some(BinaryOp::Mul),
            Punctuation::Add => Some(BinaryOp::Add),
            Punctuation::Sub => Some(BinaryOp::Sub),
            Punctuation::Div => Some(BinaryOp::Div),
            Punctuation::Lt => Some(BinaryOp::Lt),
            Punctuation::Gt => Some(BinaryOp::Gt),
            Punctuation::Xor => Some(BinaryOp::Xor),
            Punctuation::Or => Some(BinaryOp::Or),
            _ => None,
        }
    }

    /// The punctuation this operator is spelled with
    pub fn punctuation(self) -> (r: Punctuation)
        ensures
            r == binary_op_punctuation(self),
            binary_op_of(r) == Some(self),
    {
        match self {
            BinaryOp::Neq => Punctuation::Neq,
            BinaryOp::Nand => Punctuation::Nand,
            BinaryOp::Nor => Punctuation::Nor,
            BinaryOp::Xnor => Punctuation::Xnor,
            BinaryOp::Exponent => Punctuation::Exponent,
            BinaryOp::Le => Punctuation::Le,
            BinaryOp::Shl => Punctuation::Shl,
            BinaryOp::Eq => Punctuation::Eq,
            BinaryOp::Ge => Punctuation::Ge,
            BinaryOp::Shr => Punctuation::Shr,
            BinaryOp::Remainder => Punctuation::Remainder,
            BinaryOp::And => Punctuation::And,
            BinaryOp::Mul => Punctuation::Mul,
            BinaryOp::Add => Punctuation::Add,
            BinaryOp::Sub => Punctuation::Sub,
            BinaryOp::Div => Punctuation::Div,
            BinaryOp::Lt => Punctuation::Lt,
            BinaryOp::Gt => Punctuation::Gt,
            BinaryOp::Xor => Punctuation::Xor,
            BinaryOp::Or => Punctuation::Or,
        }
    }
}

/// `<binary-operation> ::= <expression> <binary-operator> <expression>`
#[derive(Debug, PartialEq)]
pub struct BinaryOperation<'a> {
    /// The left operand
    pub lhs: Box<Expression<'a>>,
    /// The operator, with its text
    pub op: (&'a str, BinaryOp),
    /// The right operand
    pub rhs: Box<Expression<'a>>,
}

/// ```text
/// <expression> ::= <literal>
///     | <group>
///     | <binary-operation>
/// ```
#[derive(Debug, PartialEq)]
pub enum Expression<'a> {
    /// A literal
    Literal(Literal<'a>),
    /// An expression in parentheses
    Group(Parenthesized<'a, Box<Expression<'a>>>),
    /// A binary operation
    BinOp(BinaryOperation<'a>),
}

/// The body of a struct definition; its rule is not written yet
#[derive(Debug, Clone, Copy, PartialEq, Eq, Hash, Default)]
pub struct StructBody {}

/// `<struct-def> ::= "struct" <identifier> "{" <struct-body> "}"`
#[derive(Debug, Clone, Copy, PartialEq, Eq, Hash, Default)]
pub struct StructDef<'a> {
    /// `struct`
    pub struct_kw: StructKeyword<'a>,
    /// The struct's name
    pub name: Ident<'a>,
    /// The fields
    pub body: Braced<'a, StructBody>,
}

/// `<union-def> ::= "union"`
#[derive(Debug, Clone, Copy, PartialEq, Eq, Hash, Default)]
pub struct UnionDef<'a> {
    /// `union`
    pub union_kw: UnionKeyword<'a>,
}

/// `<enum-def> ::= "enum"`
#[derive(Debug, Clone, Copy, PartialEq, Eq, Hash, Default)]
pub struct EnumDef<'a> {
    /// `enum`
    pub enum_kw: EnumKeyword<'a>,
}

/// `<type-def> ::= "type"`
#[derive(Debug, Clone, Copy, PartialEq, Eq, Hash, Default)]
pub struct TypeDef<'a> {
    /// `type`
    pub type_kw: TypeKeyword<'a>,
}

/// `<macro-def> ::= "def"`
#[derive(Debug, Clone, Copy, PartialEq, Eq, Hash, Default)]
pub struct MacroDef<'a> {
    /// `def`
    pub def_kw: DefKeyword<'a>,
}

/// `<param-list1> ::= "," | "," <param-list>`
#[derive(Debug, PartialEq, Eq, Hash, Default)]
pub struct ParamList1<'a> {
    /// `,`
    pub comma: CommaPunc<'a>,
    /// The parameters after the comma
    pub param: Option<Box<ParamList<'a>>>,
}

/// `<param-list> ::= <ident> | <ident> <param-list1>`
#[derive(Debug, PartialEq, Eq, Hash, Default)]
pub struct ParamList<'a> {
    /// The first parameter
    pub param: Ident<'a>,
    /// The parameters after it
    pub next: Option<ParamList1<'a>>,
}

/// `<fn-body> ::= <let-statement>`
#[derive(Debug, PartialEq)]
pub struct FnBody<'a> {
    /// The statement
    pub statement: LetStatement<'a>,
}

/// `<fn-def> ::= "fn" <ident> "(" <param-list>? ")" "{" <fn-body> "}"`
#[derive(Debug, PartialEq)]
pub struct FnDef<'a> {
    /// `fn`
    pub fn_kw: FnKeyword<'a>,
    /// The function's name
    pub name: Ident<'a>,
    /// The parameters
    pub params: Parenthesized<'a, Option<ParamList<'a>>>,
    /// The body
    pub body: Braced<'a, FnBody<'a>>,
}

/// An item: a definition
#[derive(Debug, PartialEq)]
pub enum Item<'a> {
    /// A struct definition
    StructDef(StructDef<'a>),
    /// A union definition
    UnionDef(UnionDef<'a>),
    /// An enum definition
    EnumDef(EnumDef<'a>),
    /// A type definition
    TypeDef(TypeDef<'a>),
    /// A macro definition
    MacroDef(MacroDef<'a>),
    /// A function definition
    FnDef(FnDef<'a>),
}

/// `<syntax> ::= <item> | <item> <syntax>`
#[derive(Debug, PartialEq)]
pub enum Syntax<'a> {
    /// The last item
    Item(Item<'a>),
    /// An item and the items after it
    Pair(Item<'a>, Box<Syntax<'a>>),
}

/// The kind of close bracket a token is, if it is one
pub open spec fn close_bracket_kind(t: Token) -> Option<Bracket> {
    if t.ty == TokenType::Punctuation && t.src@ == ")"@ {
        Some(Bracket::Paren)
    } else if t.ty == TokenType::Punctuation && t.src@ == "]"@ {
        Some(Bracket::Brack)
    } else if t.ty == TokenType::Punctuation && t.src@ == "}"@ {
        Some(Bracket::Brace)
    } else {
        None
    }
}

/// The error `e` for a missing close bracket, told as a bracket error: a missing token becomes
/// a missing close bracket, and an unexpected close bracket (of another kind) an incorrect one
pub open spec fn bracket_error<'a>(expect: (Bracket, Range<usize>), e: ContextError<'a>) -> ContextError<'a> {
    ContextError {
        source: e.source,
        range: e.range,
        err: match e.err {
            ErrorType::MissingToken { .. } => ErrorType::MissingCloseBracket { expect },
            ErrorType::UnexpectedToken { actual, .. } => match close_bracket_kind(actual) {
                Some(b) => ErrorType::IncorrectCloseBracket { expect, actual: b },
                None => e.err,
            },
            _ => e.err,
        },
    }
}

/// Whether tokens of type `ty` are literals
pub open spec fn is_literal_type(ty: TokenType) -> bool {
    ty is BoolLiteral || ty is NumberLiteral || ty is CharLiteral || ty is StringLiteral
}

/// Pulling [`Literal`]
pub open spec fn literal_outcome<'a>(source: &'a str, toks: Seq<Lexeme<'a>>, i: int) -> Outcome<'a, Literal<'a>> {
    if 0 <= i < toks.len() && is_literal_type(toks[i].token.ty) {
        Outcome::Parsed(Literal { token: (toks[i].token.src, &toks[i].value) }, i + 1)
    } else {
        Outcome::Failed(expected_at(source, toks, i, a("literal")))
    }
}

/// Pulling [`Expression`]: a group, else a literal. The third alternative, a binary operation,
/// starts by pulling an expression from this same token, so it never answers.
pub open spec fn expression_outcome<'a>(source: &'a str, toks: Seq<Lexeme<'a>>, i: int) -> Outcome<
    'a,
    Expression<'a>,
>
    decreases toks.len() - i, 1int,
{
    match group_outcome(source, toks, i) {
        Outcome::Parsed(g, j) => Outcome::Parsed(Expression::Group(g), j),
        Outcome::Stuck => Outcome::Stuck,
        Outcome::Failed(_) => match literal_outcome(source, toks, i) {
            Outcome::Parsed(l, j) => Outcome::Parsed(Expression::Literal(l), j),
            _ => Outcome::Stuck,
        },
    }
}

/// Pulling a parenthesized expression
pub open spec fn group_outcome<'a>(source: &'a str, toks: Seq<Lexeme<'a>>, i: int) -> Outcome<
    'a,
    Parenthesized<'a, Box<Expression<'a>>>,
>
    decreases toks.len() - i, 0int,
{
    match text_at(toks, i, Terminal::Punctuation(Punctuation::LParen)) {
        Some(open) => match expression_outcome(source, toks, i + 1) {
            Outcome::Parsed(inner, j) => match text_at(
                toks,
                j,
                Terminal::Punctuation(Punctuation::RParen),
            ) {
                Some(close) => Outcome::Parsed(
                    Parenthesized {
                        open: OpenParen(open),
                        inner: Box::new(inner),
                        close: CloseParen(close),
                    },
                    j + 1,
                ),
                None => Outcome::Failed(
                    bracket_error(
                        (Bracket::Paren, toks[i].range),
                        expected_at(source, toks, j, a("close parenthesis `)`")),
                    ),
                ),
            },
            Outcome::Failed(e) => Outcome::Failed(e),
            Outcome::Stuck => Outcome::Stuck,
        },
        None => Outcome::Failed(expected_at(source, toks, i, an("open parenthesis `(`"))),
    }
}

/// Pulling [`BinaryOperation`]
pub open spec fn binary_operation_outcome<'a>(source: &'a str, toks: Seq<Lexeme<'a>>, i: int) -> Outcome<
    'a,
    BinaryOperation<'a>,
> {
    match expression_outcome(source, toks, i) {
        Outcome::Parsed(lhs, j) => {
            let op = if 0 <= j < toks.len() {
                match toks[j].value {
                    TokenValue::Punctuation(p) => binary_op_of(p),
                    _ => None,
                }
            } else {
                None
            };
            match op {
                Some(op) => match expression_outcome(source, toks, j + 1) {
                    Outcome::Parsed(rhs, k) => Outcome::Parsed(
                        BinaryOperation {
                            lhs: Box::new(lhs),
                            op: (toks[j].token.src, op),
                            rhs: Box::new(rhs),
                        },
                        k,
                    ),
                    Outcome::Failed(e) => Outcome::Failed(e),
                    Outcome::Stuck => Outcome::Stuck,
                },
                None => Outcome::Failed(expected_at(source, toks, j, a("binary operator"))),
            }
        },
        Outcome::Failed(e) => Outcome::Failed(e),
        Outcome::Stuck => Outcome::Stuck,
    }
}

/// Pulling [`ParamList`]
pub open spec fn param_list_outcome<'a>(source: &'a str, toks: Seq<Lexeme<'a>>, i: int) -> Outcome<
    'a,
    ParamList<'a>,
>
    decreases toks.len() - i,
{
    match text_at(toks, i, Terminal::Identifier) {
        Some(name) => match param_list1_outcome(source, toks, i + 1) {
            Outcome::Parsed(x, j) => Outcome::Parsed(ParamList { param: Ident(name), next: Some(x) }, j),
            Outcome::Failed(_) => Outcome::Parsed(ParamList { param: Ident(name), next: None }, i + 1),
            Outcome::Stuck => Outcome::Stuck,
        },
        None => Outcome::Failed(expected_at(source, toks, i, an("identifier"))),
    }
}

/// Pulling [`ParamList1`]
pub open spec fn param_list1_outcome<'a>(source: &'a str, toks: Seq<Lexeme<'a>>, i: int) -> Outcome<
    'a,
    ParamList1<'a>,
>
    decreases toks.len() - i,
{
    match text_at(toks, i, Terminal::Punctuation(Punctuation::Comma)) {
        Some(comma) => match param_list_outcome(source, toks, i + 1) {
            Outcome::Parsed(x, j) => Outcome::Parsed(
                ParamList1 { comma: CommaPunc(comma), param: Some(Box::new(x)) },
                j,
            ),
            Outcome::Failed(_) => Outcome::Parsed(
                ParamList1 { comma: CommaPunc(comma), param: None },
                i + 1,
            ),
            Outcome::Stuck => Outcome::Stuck,
        },
        None => Outcome::Failed(expected_at(source, toks, i, a("comma (`,`)"))),
    }
}

/// A slice holds at most `usize::MAX` items.
proof fn lemma_len_bound<T>(s: &[T])
    ensures
        s@.len() <= usize::MAX,
{
    assert(s@.len() == s.len());
}

/// Each parsed expression or group spans at least one token, and ends within the tokens.
pub proof fn lemma_expression_progress<'a>(source: &'a str, toks: Seq<Lexeme<'a>>, i: int)
    ensures
        ends_within(expression_outcome(source, toks, i), i + 1, toks.len() as int),
        ends_within(group_outcome(source, toks, i), i + 1, toks.len() as int),
    decreases toks.len() - i,
{
    if 0 <= i < toks.len() {
        lemma_expression_progress(source, toks, i + 1);
    }
}

/// Each parsed parameter list spans at least one token, and ends within the tokens.
pub proof fn lemma_param_list_progress<'a>(source: &'a str, toks: Seq<Lexeme<'a>>, i: int)
    ensures
        ends_within(param_list_outcome(source, toks, i), i + 1, toks.len() as int),
        ends_within(param_list1_outcome(source, toks, i), i + 1, toks.len() as int),
    decreases toks.len() - i,
{
    if 0 <= i < toks.len() {
        lemma_param_list_progress(source, toks, i + 1);
    }
}

/// The kind of close bracket a token is, if it is one
fn close_bracket_kind_of(t: Token) -> (r: Option<Bracket>)
    ensures
        r == close_bracket_kind(t),
{
    proof {
        reveal_strlit(")");
        reveal_strlit("]");
        reveal_strlit("}");
    }
    assert(")"@ =~= seq![')']);
    assert("]"@ =~= seq![']']);
    assert("}"@ =~= seq!['}']);
    if t.ty == TokenType::Punctuation && t.src.unicode_len() == 1 {
        let c = t.src.get_char(0);
        assert(t.src@ =~= seq![c]);
        if c == ')' {
            Some(Bracket::Paren)
        } else if c == ']' {
            Some(Bracket::Brack)
        } else if c == '}' {
            Some(Bracket::Brace)
        } else {
            None
        }
    } else {
        None
    }
}

/// Tells the error `e` for a missing close bracket as a bracket error ([`bracket_error`]):
/// `expect` is the open bracket, with its byte range.
pub fn specify_bracket_err<'a>(expect: (Bracket, Range<usize>), e: ContextError<'a>) -> (r:
    ContextError<'a>)
    ensures
        r == bracket_error(expect, e),
{
    let ContextError { source, range, err } = e;
    let err = match err {
        ErrorType::MissingToken { .. } => ErrorType::MissingCloseBracket { expect },
        ErrorType::UnexpectedToken { expect: wanted, actual } => match close_bracket_kind_of(actual) {
            Some(b) => ErrorType::IncorrectCloseBracket { expect, actual: b },
            None => ErrorType::UnexpectedToken { expect: wanted, actual },
        },
        other => other,
    };
    ContextError { source, range, err }
}

/// The byte range of the token at `i`
fn range_at<'a>(tokens: &'a [Lexeme<'a>], i: usize) -> (r: Range<usize>)
    requires
        i < tokens@.len(),
    ensures
        r == tokens@[i as int].range,
{
    Range { start: tokens[i].range.start, end: tokens[i].range.end }
}

/// [`literal_outcome`]
fn pull_literal<'a>(source: &'a str, tokens: &'a [Lexeme<'a>], start: usize) -> (r: Result<
    (Literal<'a>, usize),
    ContextError<'a>,
>)
    requires
        lexemes_wf(source, tokens@),
        start <= tokens@.len(),
    ensures
        pulled(r, literal_outcome(source, tokens@, start as int)),
{
    if start < tokens.len() {
        let l = &tokens[start];
        match l.token.ty {
            TokenType::BoolLiteral | TokenType::NumberLiteral | TokenType::CharLiteral
            | TokenType::StringLiteral => {
                return Ok((Literal { token: (l.token.src, &l.value) }, start + 1));
            },
            _ => {},
        }
    }
    Err(error_at(source, tokens, start, Expecting::a("literal")))
}

/// [`expression_outcome`]
fn pull_expression<'a>(source: &'a str, tokens: &'a [Lexeme<'a>], start: usize) -> (r: Result<
    (Expression<'a>, usize),
    ContextError<'a>,
>)
    requires
        lexemes_wf(source, tokens@),
        start <= tokens@.len(),
        answers(expression_outcome(source, tokens@, start as int)),
    ensures
        pulled(r, expression_outcome(source, tokens@, start as int)),
    decreases tokens@.len() - start, 1int,
{
    proof {
        lemma_len_bound(tokens);
    }
    match pull_group(source, tokens, start) {
        Ok((g, j)) => Ok((Expression::Group(g), j)),
        Err(_) => match pull_literal(source, tokens, start) {
            Ok((l, j)) => Ok((Expression::Literal(l), j)),
            // the last alternative, a binary operation, would pull an expression from this same
            // token again: the contract leaves this case out
            Err(_) => Err(error_at(source, tokens, start, Expecting::an("expression"))),
        },
    }
}

/// [`group_outcome`]
fn pull_group<'a>(source: &'a str, tokens: &'a [Lexeme<'a>], start: usize) -> (r: Result<
    (Parenthesized<'a, Box<Expression<'a>>>, usize),
    ContextError<'a>,
>)
    requires
        lexemes_wf(source, tokens@),
        start <= tokens@.len(),
        answers(group_outcome(source, tokens@, start as int)),
    ensures
        pulled(r, group_outcome(source, tokens@, start as int)),
    decreases tokens@.len() - start, 0int,
{
    proof {
        lemma_len_bound(tokens);
    }
    let (open, i1) = match pull_terminal(
        source,
        tokens,
        start,
        Terminal::Punctuation(Punctuation::LParen),
        Expecting::an("open parenthesis `(`"),
    ) {
        Ok(x) => x,
        Err(e) => return Err(e),
    };
    proof {
        lemma_expression_progress(source, tokens@, i1 as int);
    }
    let (inner, j) = match pull_expression(source, tokens, i1) {
        Ok(x) => x,
        Err(e) => return Err(e),
    };
    let (close, k) = match pull_terminal(
        source,
        tokens,
        j,
        Terminal::Punctuation(Punctuation::RParen),
        Expecting::a("close parenthesis `)`"),
    ) {
        Ok(x) => x,
        Err(e) => return Err(specify_bracket_err((Bracket::Paren, range_at(tokens, start)), e)),
    };
    Ok((Parenthesized { open: OpenParen(open), inner: Box::new(inner), close: CloseParen(close) }, k))
}

/// [`param_list_outcome`]
fn pull_param_list<'a>(source: &'a str, tokens: &'a [Lexeme<'a>], start: usize) -> (r: Result<
    (ParamList<'a>, usize),
    ContextError<'a>,
>)
    requires
        lexemes_wf(source, tokens@),
        start <= tokens@.len(),
    ensures
        pulled(r, param_list_outcome(source, tokens@, start as int)),
    decreases tokens@.len() - start,
{
    proof {
        lemma_len_bound(tokens);
    }
    proof {
        lemma_param_list_progress(source, tokens@, start as int);
    }
    let (name, i1) = match pull_terminal(
        source,
        tokens,
        start,
        Terminal::Identifier,
        Expecting::an("identifier"),
    ) {
        Ok(x) => x,
        Err(e) => return Err(e),
    };
    let param = Ident(name);
    match pull_param_list1(source, tokens, i1) {
        Ok((x, j)) => Ok((ParamList { param, next: Some(x) }, j)),
        Err(_) => Ok((ParamList { param, next: None }, i1)),
    }
}

/// [`param_list1_outcome`]
fn pull_param_list1<'a>(source: &'a str, tokens: &'a [Lexeme<'a>], start: usize) -> (r: Result<
    (ParamList1<'a>, usize),
    ContextError<'a>,
>)
    requires
        lexemes_wf(source, tokens@),
        start <= tokens@.len(),
    ensures
        pulled(r, param_list1_outcome(source, tokens@, start as int)),
    decreases tokens@.len() - start,
{
    proof {
        lemma_len_bound(tokens);
    }
    let (comma, i1) = match pull_terminal(
        source,
        tokens,
        start,
        Terminal::Punctuation(Punctuation::Comma),
        Expecting::a("comma (`,`)"),
    ) {
        Ok(x) => x,
        Err(e) => return Err(e),
    };
    let comma = CommaPunc(comma);
    match pull_param_list(source, tokens, i1) {
        Ok((x, j)) => Ok((ParamList1 { comma, param: Some(Box::new(x)) }, j)),
        Err(_) => Ok((ParamList1 { comma, param: None }, i1)),
    }
}

/// Every parsed expression and parameter list spans at least one token and ends within the
/// tokens.
pub proof fn lemma_progress_all<'a>(source: &'a str, toks: Seq<Lexeme<'a>>)
    ensures
        forall|k: int| ends_within(#[trigger] expression_outcome(source, toks, k), k + 1, toks.len() as int),
        forall|k: int| ends_within(#[trigger] param_list_outcome(source, toks, k), k + 1, toks.len() as int),
{
    assert forall|k: int| ends_within(#[trigger] expression_outcome(source, toks, k), k + 1, toks.len() as int) by {
        lemma_expression_progress(source, toks, k);
    }
    assert forall|k: int| ends_within(#[trigger] param_list_outcome(source, toks, k), k + 1, toks.len() as int) by {
        lemma_param_list_progress(source, toks, k);
    }
}

/// Pulling [`LetStatement`]
pub open spec fn let_statement_outcome<'a>(source: &'a str, toks: Seq<Lexeme<'a>>, i: int) -> Outcome<
    'a,
    LetStatement<'a>,
> {
    match text_at(toks, i, Terminal::Keyword(Keyword::Let)) {
        None => Outcome::Failed(expected_at(source, toks, i, a("`let` keyword"))),
        Some(k) => match text_at(toks, i + 1, Terminal::Identifier) {
            None => Outcome::Failed(expected_at(source, toks, i + 1, an("identifier"))),
            Some(n) => match text_at(toks, i + 2, Terminal::Punctuation(Punctuation::Assign)) {
                None => Outcome::Failed(expected_at(source, toks, i + 2, an("`=` operator"))),
                Some(eq) => match expression_outcome(source, toks, i + 3) {
                    Outcome::Parsed(x, j) => match text_at(
                        toks,
                        j,
                        Terminal::Punctuation(Punctuation::Semi),
                    ) {
                        None => Outcome::Failed(expected_at(source, toks, j, an("`;`"))),
                        Some(semi) => Outcome::Parsed(
                            LetStatement {
                                let_kw: LetKeyword(k),
                                binding: Binding { name: Ident(n) },
                                assign_kw: AssignOp(eq),
                                expression: x,
                                semi: SemiColon(semi),
                            },
                            j + 1,
                        ),
                    },
                    Outcome::Failed(e) => Outcome::Failed(e),
                    Outcome::Stuck => Outcome::Stuck,
                },
            },
        },
    }
}

/// Pulling [`FnBody`]
pub open spec fn fn_body_outcome<'a>(source: &'a str, toks: Seq<Lexeme<'a>>, i: int) -> Outcome<'a, FnBody<'a>> {
    match let_statement_outcome(source, toks, i) {
        Outcome::Parsed(s, j) => Outcome::Parsed(FnBody { statement: s }, j),
        Outcome::Failed(e) => Outcome::Failed(e),
        Outcome::Stuck => Outcome::Stuck,
    }
}

/// Pulling a braced function body
pub open spec fn braced_fn_body_outcome<'a>(source: &'a str, toks: Seq<Lexeme<'a>>, i: int) -> Outcome<
    'a,
    Braced<'a, FnBody<'a>>,
> {
    match text_at(toks, i, Terminal::Punctuation(Punctuation::LBrace)) {
        None => Outcome::Failed(expected_at(source, toks, i, an("open brace `{`"))),
        Some(open) => match fn_body_outcome(source, toks, i + 1) {
            Outcome::Parsed(body, j) => match text_at(toks, j, Terminal::Punctuation(Punctuation::RBrace)) {
                Some(close) => Outcome::Parsed(
                    Braced { open: OpenBrace(open), inner: body, close: CloseBrace(close) },
                    j + 1,
                ),
                None => Outcome::Failed(
                    bracket_error(
                        (Bracket::Brace, toks[i].range),
                        expected_at(source, toks, j, a("close brace `}`")),
                    ),
                ),
            },
            Outcome::Failed(e) => Outcome::Failed(e),
            Outcome::Stuck => Outcome::Stuck,
        },
    }
}

/// Pulling a braced struct body: the body's rule is not written yet
pub open spec fn braced_struct_body_outcome<'a>(source: &'a str, toks: Seq<Lexeme<'a>>, i: int) -> Outcome<
    'a,
    Braced<'a, StructBody>,
> {
    match text_at(toks, i, Terminal::Punctuation(Punctuation::LBrace)) {
        None => Outcome::Failed(expected_at(source, toks, i, an("open brace `{`"))),
        Some(_) => Outcome::Stuck,
    }
}

/// Pulling a parenthesized (optional) parameter list
pub open spec fn params_outcome<'a>(source: &'a str, toks: Seq<Lexeme<'a>>, i: int) -> Outcome<
    'a,
    Parenthesized<'a, Option<ParamList<'a>>>,
> {
    match text_at(toks, i, Terminal::Punctuation(Punctuation::LParen)) {
        None => Outcome::Failed(expected_at(source, toks, i, an("open parenthesis `(`"))),
        Some(open) => {
            let (inner, j) = match param_list_outcome(source, toks, i + 1) {
                Outcome::Parsed(p, j) => (Some(p), j),
                _ => (None, i + 1),
            };
            match text_at(toks, j, Terminal::Punctuation(Punctuation::RParen)) {
                Some(close) => Outcome::Parsed(
                    Parenthesized { open: OpenParen(open), inner, close: CloseParen(close) },
                    j + 1,
                ),
                None => Outcome::Failed(
                    bracket_error(
                        (Bracket::Paren, toks[i].range),
                        expected_at(source, toks, j, a("close parenthesis `)`")),
                    ),
                ),
            }
        },
    }
}

/// Pulling a bracketed expression
pub open spec fn bracketed_outcome<'a>(source: &'a str, toks: Seq<Lexeme<'a>>, i: int) -> Outcome<
    'a,
    Bracketed<'a, Box<Expression<'a>>>,
> {
    match text_at(toks, i, Terminal::Punctuation(Punctuation::LBrack)) {
        None => Outcome::Failed(expected_at(source, toks, i, an("open bracket `[`"))),
        Some(open) => match expression_outcome(source, toks, i + 1) {
            Outcome::Parsed(inner, j) => match text_at(
                toks,
                j,
                Terminal::Punctuation(Punctuation::RBrack),
            ) {
                Some(close) => Outcome::Parsed(
                    Bracketed { open: OpenBrack(open), inner: Box::new(inner), close: CloseBrack(close) },
                    j + 1,
                ),
                None => Outcome::Failed(
                    bracket_error(
                        (Bracket::Brack, toks[i].range),
                        expected_at(source, toks, j, a("close bracket `]`")),
                    ),
                ),
            },
            Outcome::Failed(e) => Outcome::Failed(e),
            Outcome::Stuck => Outcome::Stuck,
        },
    }
}

/// Pulling [`FnDef`]
pub open spec fn fn_def_outcome<'a>(source: &'a str, toks: Seq<Lexeme<'a>>, i: int) -> Outcome<'a, FnDef<'a>> {
    match text_at(toks, i, Terminal::Keyword(Keyword::Fn)) {
        None => Outcome::Failed(expected_at(source, toks, i, a("`fn` keyword"))),
        Some(k) => match text_at(toks, i + 1, Terminal::Identifier) {
            None => Outcome::Failed(expected_at(source, toks, i + 1, an("identifier"))),
            Some(n) => match params_outcome(source, toks, i + 2) {
                Outcome::Parsed(params, j) => match braced_fn_body_outcome(source, toks, j) {
                    Outcome::Parsed(body, k2) => Outcome::Parsed(
                        FnDef { fn_kw: FnKeyword(k), name: Ident(n), params, body },
                        k2,
                    ),
                    Outcome::Failed(e) => Outcome::Failed(e),
                    Outcome::Stuck => Outcome::Stuck,
                },
                Outcome::Failed(e) => Outcome::Failed(e),
                Outcome::Stuck => Outcome::Stuck,
            },
        },
    }
}

/// Pulling [`StructDef`]
pub open spec fn struct_def_outcome<'a>(source: &'a str, toks: Seq<Lexeme<'a>>, i: int) -> Outcome<
    'a,
    StructDef<'a>,
> {
    match text_at(toks, i, Terminal::Keyword(Keyword::Struct)) {
        None => Outcome::Failed(expected_at(source, toks, i, a("`struct` keyword"))),
        Some(_) => match text_at(toks, i + 1, Terminal::Identifier) {
            None => Outcome::Failed(expected_at(source, toks, i + 1, an("identifier"))),
            Some(_) => match braced_struct_body_outcome(source, toks, i + 2) {
                Outcome::Failed(e) => Outcome::Failed(e),
                _ => Outcome::Stuck,
            },
        },
    }
}

/// Pulling a definition that is just its keyword, made into an item by `f`
pub open spec fn keyword_item_outcome<'a>(
    source: &'a str,
    toks: Seq<Lexeme<'a>>,
    i: int,
    k: Keyword,
    exp: Expecting,
    f: spec_fn(&'a str) -> Item<'a>,
) -> Outcome<'a, Item<'a>> {
    match text_at(toks, i, Terminal::Keyword(k)) {
        Some(s) => Outcome::Parsed(f(s), i + 1),
        None => Outcome::Failed(expected_at(source, toks, i, exp)),
    }
}

/// What an item is expected to start with
pub open spec fn item_expecting() -> Expecting {
    a("`struct`, `union`, `enum`, `type`, `def`, or `fn` keyword")
}

/// Pulling [`Item`]: the keyword at `i` tells which definition to pull
pub open spec fn item_outcome<'a>(source: &'a str, toks: Seq<Lexeme<'a>>, i: int) -> Outcome<'a, Item<'a>> {
    if 0 <= i < toks.len() {
        match toks[i].value {
            TokenValue::Keyword(Keyword::Struct) => match struct_def_outcome(source, toks, i) {
                Outcome::Parsed(d, j) => Outcome::Parsed(Item::StructDef(d), j),
                Outcome::Failed(e) => Outcome::Failed(e),
                Outcome::Stuck => Outcome::Stuck,
            },
            TokenValue::Keyword(Keyword::Union) => keyword_item_outcome(
                source,
                toks,
                i,
                Keyword::Union,
                a("`union` keyword"),
                |s: &'a str| Item::UnionDef(UnionDef { union_kw: UnionKeyword(s) }),
            ),
            TokenValue::Keyword(Keyword::Enum) => keyword_item_outcome(
                source,
                toks,
                i,
                Keyword::Enum,
                an("`enum` keyword"),
                |s: &'a str| Item::EnumDef(EnumDef { enum_kw: EnumKeyword(s) }),
            ),
            TokenValue::Keyword(Keyword::Type) => keyword_item_outcome(
                source,
                toks,
                i,
                Keyword::Type,
                a("`type` keyword"),
                |s: &'a str| Item::TypeDef(TypeDef { type_kw: TypeKeyword(s) }),
            ),
            TokenValue::Keyword(Keyword::Def) => keyword_item_outcome(
                source,
                toks,
                i,
                Keyword::Def,
                a("`def` keyword"),
                |s: &'a str| Item::MacroDef(MacroDef { def_kw: DefKeyword(s) }),
            ),
            TokenValue::Keyword(Keyword::Fn) => match fn_def_outcome(source, toks, i) {
                Outcome::Parsed(d, j) => Outcome::Parsed(Item::FnDef(d), j),
                Outcome::Failed(e) => Outcome::Failed(e),
                Outcome::Stuck => Outcome::Stuck,
            },
            _ => Outcome::Failed(expected_at(source, toks, i, item_expecting())),
        }
    } else {
        Outcome::Failed(expected_at(source, toks, toks.len() as int, item_expecting()))
    }
}

/// Each parsed item spans at least one token and ends within the tokens.
pub proof fn lemma_item_progress<'a>(source: &'a str, toks: Seq<Lexeme<'a>>, i: int)
    ensures
        ends_within(item_outcome(source, toks, i), i + 1, toks.len() as int),
{
    lemma_progress_all(source, toks);
}

/// Pulling [`Syntax`]: items until the tokens run out
pub open spec fn syntax_outcome<'a>(source: &'a str, toks: Seq<Lexeme<'a>>, i: int) -> Outcome<'a, Syntax<'a>>
    decreases toks.len() - i,
{
    match item_outcome(source, toks, i) {
        Outcome::Parsed(item, j) => if j == toks.len() {
            Outcome::Parsed(Syntax::Item(item), j)
        } else {
            proof {
                lemma_item_progress(source, toks, i);
            }
            match syntax_outcome(source, toks, j) {
                Outcome::Parsed(rest, k) => Outcome::Parsed(Syntax::Pair(item, Box::new(rest)), k),
                Outcome::Failed(e) => Outcome::Failed(e),
                Outcome::Stuck => Outcome::Stuck,
            }
        },
        Outcome::Failed(e) => Outcome::Failed(e),
        Outcome::Stuck => Outcome::Stuck,
    }
}

/// [`let_statement_outcome`]
fn pull_let_statement<'a>(source: &'a str, tokens: &'a [Lexeme<'a>], start: usize) -> (r: Result<
    (LetStatement<'a>, usize),
    ContextError<'a>,
>)
    requires
        lexemes_wf(source, tokens@),
        start <= tokens@.len(),
        answers(let_statement_outcome(source, tokens@, start as int)),
    ensures
        pulled(r, let_statement_outcome(source, tokens@, start as int)),
{
    proof {
        lemma_len_bound(tokens);
        lemma_progress_all(source, tokens@);
    }
    let (k, i1) = match pull_terminal(
        source,
        tokens,
        start,
        Terminal::Keyword(Keyword::Let),
        Expecting::a("`let` keyword"),
    ) {
        Ok(x) => x,
        Err(e) => return Err(e),
    };
    let (n, i2) = match pull_terminal(
        source,
        tokens,
        i1,
        Terminal::Identifier,
        Expecting::an("identifier"),
    ) {
        Ok(x) => x,
        Err(e) => return Err(e),
    };
    let (eq, i3) = match pull_terminal(
        source,
        tokens,
        i2,
        Terminal::Punctuation(Punctuation::Assign),
        Expecting::an("`=` operator"),
    ) {
        Ok(x) => x,
        Err(e) => return Err(e),
    };
    let (x, j) = match pull_expression(source, tokens, i3) {
        Ok(x) => x,
        Err(e) => return Err(e),
    };
    let (semi, k2) = match pull_terminal(
        source,
        tokens,
        j,
        Terminal::Punctuation(Punctuation::Semi),
        Expecting::an("`;`"),
    ) {
        Ok(x) => x,
        Err(e) => return Err(e),
    };
    Ok(
        (
            LetStatement {
                let_kw: LetKeyword(k),
                binding: Binding { name: Ident(n) },
                assign_kw: AssignOp(eq),
                expression: x,
                semi: SemiColon(semi),
            },
            k2,
        ),
    )
}

/// [`braced_fn_body_outcome`]
fn pull_braced_fn_body<'a>(source: &'a str, tokens: &'a [Lexeme<'a>], start: usize) -> (r: Result<
    (Braced<'a, FnBody<'a>>, usize),
    ContextError<'a>,
>)
    requires
        lexemes_wf(source, tokens@),
        start <= tokens@.len(),
        answers(braced_fn_body_outcome(source, tokens@, start as int)),
    ensures
        pulled(r, braced_fn_body_outcome(source, tokens@, start as int)),
{
    proof {
        lemma_len_bound(tokens);
        lemma_progress_all(source, tokens@);
    }
    let (open, i1) = match pull_terminal(
        source,
        tokens,
        start,
        Terminal::Punctuation(Punctuation::LBrace),
        Expecting::an("open brace `{`"),
    ) {
        Ok(x) => x,
        Err(e) => return Err(e),
    };
    let (statement, j) = match pull_let_statement(source, tokens, i1) {
        Ok(x) => x,
        Err(e) => return Err(e),
    };
    match pull_terminal(
        source,
        tokens,
        j,
        Terminal::Punctuation(Punctuation::RBrace),
        Expecting::a("close brace `}`"),
    ) {
        Ok((close, k)) => Ok(
            (
                Braced { open: OpenBrace(open), inner: FnBody { statement }, close: CloseBrace(close) },
                k,
            ),
        ),
        Err(e) => Err(specify_bracket_err((Bracket::Brace, range_at(tokens, start)), e)),
    }
}

/// [`params_outcome`]
fn pull_params<'a>(source: &'a str, tokens: &'a [Lexeme<'a>], start: usize) -> (r: Result<
    (Parenthesized<'a, Option<ParamList<'a>>>, usize),
    ContextError<'a>,
>)
    requires
        lexemes_wf(source, tokens@),
        start <= tokens@.len(),
    ensures
        pulled(r, params_outcome(source, tokens@, start as int)),
{
    proof {
        lemma_len_bound(tokens);
        lemma_progress_all(source, tokens@);
    }
    let (open, i1) = match pull_terminal(
        source,
        tokens,
        start,
        Terminal::Punctuation(Punctuation::LParen),
        Expecting::an("open parenthesis `(`"),
    ) {
        Ok(x) => x,
        Err(e) => return Err(e),
    };
    let (inner, j) = match pull_param_list(source, tokens, i1) {
        Ok((p, j)) => (Some(p), j),
        Err(_) => (None, i1),
    };
    match pull_terminal(
        source,
        tokens,
        j,
        Terminal::Punctuation(Punctuation::RParen),
        Expecting::a("close parenthesis `)`"),
    ) {
        Ok((close, k)) => Ok(
            (Parenthesized { open: OpenParen(open), inner, close: CloseParen(close) }, k),
        ),
        Err(e) => Err(specify_bracket_err((Bracket::Paren, range_at(tokens, start)), e)),
    }
}

/// [`bracketed_outcome`]
fn pull_bracketed<'a>(source: &'a str, tokens: &'a [Lexeme<'a>], start: usize) -> (r: Result<
    (Bracketed<'a, Box<Expression<'a>>>, usize),
    ContextError<'a>,
>)
    requires
        lexemes_wf(source, tokens@),
        start <= tokens@.len(),
        answers(bracketed_outcome(source, tokens@, start as int)),
    ensures
        pulled(r, bracketed_outcome(source, tokens@, start as int)),
{
    proof {
        lemma_len_bound(tokens);
        lemma_progress_all(source, tokens@);
    }
    let (open, i1) = match pull_terminal(
        source,
        tokens,
        start,
        Terminal::Punctuation(Punctuation::LBrack),
        Expecting::an("open bracket `[`"),
    ) {
        Ok(x) => x,
        Err(e) => return Err(e),
    };
    let (inner, j) = match pull_expression(source, tokens, i1) {
        Ok(x) => x,
        Err(e) => return Err(e),
    };
    match pull_terminal(
        source,
        tokens,
        j,
        Terminal::Punctuation(Punctuation::RBrack),
        Expecting::a("close bracket `]`"),
    ) {
        Ok((close, k)) => Ok(
            (
                Bracketed { open: OpenBrack(open), inner: Box::new(inner), close: CloseBrack(close) },
                k,
            ),
        ),
        Err(e) => Err(specify_bracket_err((Bracket::Brack, range_at(tokens, start)), e)),
    }
}

/// [`binary_operation_outcome`]
fn pull_binary_operation<'a>(source: &'a str, tokens: &'a [Lexeme<'a>], start: usize) -> (r: Result<
    (BinaryOperation<'a>, usize),
    ContextError<'a>,
>)
    requires
        lexemes_wf(source, tokens@),
        start <= tokens@.len(),
        answers(binary_operation_outcome(source, tokens@, start as int)),
    ensures
        pulled(r, binary_operation_outcome(source, tokens@, start as int)),
{
    proof {
        lemma_len_bound(tokens);
        lemma_progress_all(source, tokens@);
    }
    let (lhs, j) = match pull_expression(source, tokens, start) {
        Ok(x) => x,
        Err(e) => return Err(e),
    };
    let op = if j < tokens.len() {
        match &tokens[j].value {
            TokenValue::Punctuation(p) => BinaryOp::try_from_punctuation(*p),
            _ => None,
        }
    } else {
        None
    };
    match op {
        Some(op) => match pull_expression(source, tokens, j + 1) {
            Ok((rhs, k)) => Ok(
                (
                    BinaryOperation {
                        lhs: Box::new(lhs),
                        op: (tokens[j].token.src, op),
                        rhs: Box::new(rhs),
                    },
                    k,
                ),
            ),
            Err(e) => Err(e),
        },
        None => Err(error_at(source, tokens, j, Expecting::a("binary operator"))),
    }
}

/// [`fn_def_outcome`]
fn pull_fn_def<'a>(source: &'a str, tokens: &'a [Lexeme<'a>], start: usize) -> (r: Result<
    (FnDef<'a>, usize),
    ContextError<'a>,
>)
    requires
        lexemes_wf(source, tokens@),
        start <= tokens@.len(),
        answers(fn_def_outcome(source, tokens@, start as int)),
    ensures
        pulled(r, fn_def_outcome(source, tokens@, start as int)),
{
    proof {
        lemma_len_bound(tokens);
        lemma_progress_all(source, tokens@);
    }
    let (k, i1) = match pull_terminal(
        source,
        tokens,
        start,
        Terminal::Keyword(Keyword::Fn),
        Expecting::a("`fn` keyword"),
    ) {
        Ok(x) => x,
        Err(e) => return Err(e),
    };
    let (n, i2) = match pull_terminal(
        source,
        tokens,
        i1,
        Terminal::Identifier,
        Expecting::an("identifier"),
    ) {
        Ok(x) => x,
        Err(e) => return Err(e),
    };
    let (params, j) = match pull_params(source, tokens, i2) {
        Ok(x) => x,
        Err(e) => return Err(e),
    };
    proof {
        let o = params_outcome(source, tokens@, i2 as int);
        assert(ends_within(o, i2 + 1, tokens@.len() as int));
    }
    let (body, k2) = match pull_braced_fn_body(source, tokens, j) {
        Ok(x) => x,
        Err(e) => return Err(e),
    };
    Ok((FnDef { fn_kw: FnKeyword(k), name: Ident(n), params, body }, k2))
}

/// [`struct_def_outcome`]: only its errors, as the struct body has no rule yet
fn pull_struct_def<'a>(source: &'a str, tokens: &'a [Lexeme<'a>], start: usize) -> (r: Result<
    (StructDef<'a>, usize),
    ContextError<'a>,
>)
    requires
        lexemes_wf(source, tokens@),
        start <= tokens@.len(),
        answers(struct_def_outcome(source, tokens@, start as int)),
    ensures
        pulled(r, struct_def_outcome(source, tokens@, start as int)),
{
    proof {
        lemma_len_bound(tokens);
    }
    let (_, i1) = match pull_terminal(
        source,
        tokens,
        start,
        Terminal::Keyword(Keyword::Struct),
        Expecting::a("`struct` keyword"),
    ) {
        Ok(x) => x,
        Err(e) => return Err(e),
    };
    let (_, i2) = match pull_terminal(
        source,
        tokens,
        i1,
        Terminal::Identifier,
        Expecting::an("identifier"),
    ) {
        Ok(x) => x,
        Err(e) => return Err(e),
    };
    match pull_terminal(
        source,
        tokens,
        i2,
        Terminal::Punctuation(Punctuation::LBrace),
        Expecting::an("open brace `{`"),
    ) {
        Ok(_) => Err(error_at(source, tokens, i2, Expecting::an("open brace `{`"))),
        Err(e) => Err(e),
    }
}

/// [`item_outcome`]
fn pull_item<'a>(source: &'a str, tokens: &'a [Lexeme<'a>], start: usize) -> (r: Result<
    (Item<'a>, usize),
    ContextError<'a>,
>)
    requires
        lexemes_wf(source, tokens@),
        start <= tokens@.len(),
        answers(item_outcome(source, tokens@, start as int)),
    ensures
        pulled(r, item_outcome(source, tokens@, start as int)),
{
    proof {
        lemma_len_bound(tokens);
    }
    let n = tokens.len();
    if start < n {
        match &tokens[start].value {
            TokenValue::Keyword(Keyword::Struct) => match pull_struct_def(source, tokens, start) {
                Ok((d, j)) => Ok((Item::StructDef(d), j)),
                Err(e) => Err(e),
            },
            TokenValue::Keyword(Keyword::Union) => match pull_terminal(
                source,
                tokens,
                start,
                Terminal::Keyword(Keyword::Union),
                Expecting::a("`union` keyword"),
            ) {
                Ok((s, j)) => Ok((Item::UnionDef(UnionDef { union_kw: UnionKeyword(s) }), j)),
                Err(e) => Err(e),
            },
            TokenValue::Keyword(Keyword::Enum) => match pull_terminal(
                source,
                tokens,
                start,
                Terminal::Keyword(Keyword::Enum),
                Expecting::an("`enum` keyword"),
            ) {
                Ok((s, j)) => Ok((Item::EnumDef(EnumDef { enum_kw: EnumKeyword(s) }), j)),
                Err(e) => Err(e),
            },
            TokenValue::Keyword(Keyword::Type) => match pull_terminal(
                source,
                tokens,
                start,
                Terminal::Keyword(Keyword::Type),
                Expecting::a("`type` keyword"),
            ) {
                Ok((s, j)) => Ok((Item::TypeDef(TypeDef { type_kw: TypeKeyword(s) }), j)),
                Err(e) => Err(e),
            },
            TokenValue::Keyword(Keyword::Def) => match pull_terminal(
                source,
                tokens,
                start,
                Terminal::Keyword(Keyword::Def),
                Expecting::a("`def` keyword"),
            ) {
                Ok((s, j)) => Ok((Item::MacroDef(MacroDef { def_kw: DefKeyword(s) }), j)),
                Err(e) => Err(e),
            },
            TokenValue::Keyword(Keyword::Fn) => match pull_fn_def(source, tokens, start) {
                Ok((d, j)) => Ok((Item::FnDef(d), j)),
                Err(e) => Err(e),
            },
            _ => Err(
                error_at(
                    source,
                    tokens,
                    start,
                    Expecting::a("`struct`, `union`, `enum`, `type`, `def`, or `fn` keyword"),
                ),
            ),
        }
    } else {
        Err(
            error_at(
                source,
                tokens,
                n,
                Expecting::a("`struct`, `union`, `enum`, `type`, `def`, or `fn` keyword"),
            ),
        )
    }
}

/// [`syntax_outcome`]
fn pull_syntax<'a>(source: &'a str, tokens: &'a [Lexeme<'a>], start: usize) -> (r: Result<
    (Syntax<'a>, usize),
    ContextError<'a>,
>)
    requires
        lexemes_wf(source, tokens@),
        start <= tokens@.len(),
        answers(syntax_outcome(source, tokens@, start as int)),
    ensures
        pulled(r, syntax_outcome(source, tokens@, start as int)),
    decreases tokens@.len() - start,
{
    proof {
        lemma_len_bound(tokens);
        lemma_item_progress(source, tokens@, start as int);
    }
    let (item, j) = match pull_item(source, tokens, start) {
        Ok(x) => x,
        Err(e) => return Err(e),
    };
    if j == tokens.len() {
        Ok((Syntax::Item(item), j))
    } else {
        match pull_syntax(source, tokens, j) {
            Ok((rest, k)) => Ok((Syntax::Pair(item, Box::new(rest)), k)),
            Err(e) => Err(e),
        }
    }
}

/// Parses the tokens (with their byte ranges in `source`) as a whole program
pub fn grammarize<'a>(source: &'a str, tokens: &'a [Lexeme<'a>]) -> (r: Result<
    Syntax<'a>,
    ContextError<'a>,
>)
    requires
        lexemes_wf(source, tokens@),
        answers(syntax_outcome(source, tokens@, 0)),
    ensures
        match syntax_outcome(source, tokens@, 0) {
            Outcome::Parsed(s, _) => r == Ok::<Syntax<'a>, ContextError<'a>>(s),
            Outcome::Failed(e) => r == Err::<Syntax<'a>, ContextError<'a>>(e),
            Outcome::Stuck => false,
        },
{
    match pull_syntax(source, tokens, 0) {
        Ok((syntax, _)) => Ok(syntax),
        Err(e) => Err(e),
    }
}

impl<'a> Rule<'a> for Binding<'a> {
    open spec fn outcome(source: &'a str, toks: Seq<Lexeme<'a>>, start: int) -> Outcome<'a, Self> {
        match text_at(toks, start, Terminal::Identifier) {
            Some(n) => Outcome::Parsed(Binding { name: Ident(n) }, start + 1),
            None => Outcome::Failed(expected_at(source, toks, start, an("identifier"))),
        }
    }

    fn try_pull(source: &'a str, tokens: &'a [Lexeme<'a>], start: usize) -> (r: Result<
        (Self, usize),
        ContextError<'a>,
    >) {
        match pull_terminal(source, tokens, start, Terminal::Identifier, Expecting::an("identifier")) {
            Ok((n, j)) => Ok((Binding { name: Ident(n) }, j)),
            Err(e) => Err(e),
        }
    }
}

impl<'a> Rule<'a> for LetStatement<'a> {
    open spec fn outcome(source: &'a str, toks: Seq<Lexeme<'a>>, start: int) -> Outcome<'a, Self> {
        let_statement_outcome(source, toks, start)
    }

    fn try_pull(source: &'a str, tokens: &'a [Lexeme<'a>], start: usize) -> (r: Result<
        (Self, usize),
        ContextError<'a>,
    >) {
        pull_let_statement(source, tokens, start)
    }
}

impl<'a> Rule<'a> for FnBody<'a> {
    open spec fn outcome(source: &'a str, toks: Seq<Lexeme<'a>>, start: int) -> Outcome<'a, Self> {
        fn_body_outcome(source, toks, start)
    }

    fn try_pull(source: &'a str, tokens: &'a [Lexeme<'a>], start: usize) -> (r: Result<
        (Self, usize),
        ContextError<'a>,
    >) {
        match pull_let_statement(source, tokens, start) {
            Ok((statement, j)) => Ok((FnBody { statement }, j)),
            Err(e) => Err(e),
        }
    }
}

impl<'a> Rule<'a> for Braced<'a, FnBody<'a>> {
    open spec fn outcome(source: &'a str, toks: Seq<Lexeme<'a>>, start: int) -> Outcome<'a, Self> {
        braced_fn_body_outcome(source, toks, start)
    }

    fn try_pull(source: &'a str, tokens: &'a [Lexeme<'a>], start: usize) -> (r: Result<
        (Self, usize),
        ContextError<'a>,
    >) {
        pull_braced_fn_body(source, tokens, start)
    }
}

impl<'a> Rule<'a> for Parenthesized<'a, Box<Expression<'a>>> {
    open spec fn outcome(source: &'a str, toks: Seq<Lexeme<'a>>, start: int) -> Outcome<'a, Self> {
        group_outcome(source, toks, start)
    }

    fn try_pull(source: &'a str, tokens: &'a [Lexeme<'a>], start: usize) -> (r: Result<
        (Self, usize),
        ContextError<'a>,
    >) {
        pull_group(source, tokens, start)
    }
}

impl<'a> Rule<'a> for Parenthesized<'a, Option<ParamList<'a>>> {
    open spec fn outcome(source: &'a str, toks: Seq<Lexeme<'a>>, start: int) -> Outcome<'a, Self> {
        params_outcome(source, toks, start)
    }

    fn try_pull(source: &'a str, tokens: &'a [Lexeme<'a>], start: usize) -> (r: Result<
        (Self, usize),
        ContextError<'a>,
    >) {
        pull_params(source, tokens, start)
    }
}

impl<'a> Rule<'a> for Bracketed<'a, Box<Expression<'a>>> {
    open spec fn outcome(source: &'a str, toks: Seq<Lexeme<'a>>, start: int) -> Outcome<'a, Self> {
        bracketed_outcome(source, toks, start)
    }

    fn try_pull(source: &'a str, tokens: &'a [Lexeme<'a>], start: usize) -> (r: Result<
        (Self, usize),
        ContextError<'a>,
    >) {
        pull_bracketed(source, tokens, start)
    }
}

impl<'a> Rule<'a> for Literal<'a> {
    open spec fn outcome(source: &'a str, toks: Seq<Lexeme<'a>>, start: int) -> Outcome<'a, Self> {
        literal_outcome(source, toks, start)
    }

    fn try_pull(source: &'a str, tokens: &'a [Lexeme<'a>], start: usize) -> (r: Result<
        (Self, usize),
        ContextError<'a>,
    >) {
        pull_literal(source, tokens, start)
    }
}

impl<'a> Rule<'a> for Expression<'a> {
    open spec fn outcome(source: &'a str, toks: Seq<Lexeme<'a>>, start: int) -> Outcome<'a, Self> {
        expression_outcome(source, toks, start)
    }

    fn try_pull(source: &'a str, tokens: &'a [Lexeme<'a>], start: usize) -> (r: Result<
        (Self, usize),
        ContextError<'a>,
    >) {
        pull_expression(source, tokens, start)
    }
}

impl<'a> Rule<'a> for BinaryOperation<'a> {
    open spec fn outcome(source: &'a str, toks: Seq<Lexeme<'a>>, start: int) -> Outcome<'a, Self> {
        binary_operation_outcome(source, toks, start)
    }

    fn try_pull(source: &'a str, tokens: &'a [Lexeme<'a>], start: usize) -> (r: Result<
        (Self, usize),
        ContextError<'a>,
    >) {
        pull_binary_operation(source, tokens, start)
    }
}

impl<'a> Rule<'a> for ParamList<'a> {
    open spec fn outcome(source: &'a str, toks: Seq<Lexeme<'a>>, start: int) -> Outcome<'a, Self> {
        param_list_outcome(source, toks, start)
    }

    fn try_pull(source: &'a str, tokens: &'a [Lexeme<'a>], start: usize) -> (r: Result<
        (Self, usize),
        ContextError<'a>,
    >) {
        pull_param_list(source, tokens, start)
    }
}

impl<'a> Rule<'a> for ParamList1<'a> {
    open spec fn outcome(source: &'a str, toks: Seq<Lexeme<'a>>, start: int) -> Outcome<'a, Self> {
        param_list1_outcome(source, toks, start)
    }

    fn try_pull(source: &'a str, tokens: &'a [Lexeme<'a>], start: usize) -> (r: Result<
        (Self, usize),
        ContextError<'a>,
    >) {
        pull_param_list1(source, tokens, start)
    }
}

impl<'a> Rule<'a> for StructDef<'a> {
    open spec fn outcome(source: &'a str, toks: Seq<Lexeme<'a>>, start: int) -> Outcome<'a, Self> {
        struct_def_outcome(source, toks, start)
    }

    fn try_pull(source: &'a str, tokens: &'a [Lexeme<'a>], start: usize) -> (r: Result<
        (Self, usize),
        ContextError<'a>,
    >) {
        pull_struct_def(source, tokens, start)
    }
}

impl<'a> Rule<'a> for UnionDef<'a> {
    open spec fn outcome(source: &'a str, toks: Seq<Lexeme<'a>>, start: int) -> Outcome<'a, Self> {
        match text_at(toks, start, Terminal::Keyword(Keyword::Union)) {
            Some(s) => Outcome::Parsed(UnionDef { union_kw: UnionKeyword(s) }, start + 1),
            None => Outcome::Failed(expected_at(source, toks, start, a("`union` keyword"))),
        }
    }

    fn try_pull(source: &'a str, tokens: &'a [Lexeme<'a>], start: usize) -> (r: Result<
        (Self, usize),
        ContextError<'a>,
    >) {
        match pull_terminal(source, tokens, start, Terminal::Keyword(Keyword::Union), Expecting::a("`union` keyword")) {
            Ok((s, j)) => Ok((UnionDef { union_kw: UnionKeyword(s) }, j)),
            Err(e) => Err(e),
        }
    }
}

impl<'a> Rule<'a> for EnumDef<'a> {
    open spec fn outcome(source: &'a str, toks: Seq<Lexeme<'a>>, start: int) -> Outcome<'a, Self> {
        match text_at(toks, start, Terminal::Keyword(Keyword::Enum)) {
            Some(s) => Outcome::Parsed(EnumDef { enum_kw: EnumKeyword(s) }, start + 1),
            None => Outcome::Failed(expected_at(source, toks, start, an("`enum` keyword"))),
        }
    }

    fn try_pull(source: &'a str, tokens: &'a [Lexeme<'a>], start: usize) -> (r: Result<
        (Self, usize),
        ContextError<'a>,
    >) {
        match pull_terminal(source, tokens, start, Terminal::Keyword(Keyword::Enum), Expecting::an("`enum` keyword")) {
            Ok((s, j)) => Ok((EnumDef { enum_kw: EnumKeyword(s) }, j)),
            Err(e) => Err(e),
        }
    }
}

impl<'a> Rule<'a> for TypeDef<'a> {
    open spec fn outcome(source: &'a str, toks: Seq<Lexeme<'a>>, start: int) -> Outcome<'a, Self> {
        match text_at(toks, start, Terminal::Keyword(Keyword::Type)) {
            Some(s) => Outcome::Parsed(TypeDef { type_kw: TypeKeyword(s) }, start + 1),
            None => Outcome::Failed(expected_at(source, toks, start, a("`type` keyword"))),
        }
    }

    fn try_pull(source: &'a str, tokens: &'a [Lexeme<'a>], start: usize) -> (r: Result<
        (Self, usize),
        ContextError<'a>,
    >) {
        match pull_terminal(source, tokens, start, Terminal::Keyword(Keyword::Type), Expecting::a("`type` keyword")) {
            Ok((s, j)) => Ok((TypeDef { type_kw: TypeKeyword(s) }, j)),
            Err(e) => Err(e),
        }
    }
}

impl<'a> Rule<'a> for MacroDef<'a> {
    open spec fn outcome(source: &'a str, toks: Seq<Lexeme<'a>>, start: int) -> Outcome<'a, Self> {
        match text_at(toks, start, Terminal::Keyword(Keyword::Def)) {
            Some(s) => Outcome::Parsed(MacroDef { def_kw: DefKeyword(s) }, start + 1),
            None => Outcome::Failed(expected_at(source, toks, start, a("`def` keyword"))),
        }
    }

    fn try_pull(source: &'a str, tokens: &'a [Lexeme<'a>], start: usize) -> (r: Result<
        (Self, usize),
        ContextError<'a>,
    >) {
        match pull_terminal(source, tokens, start, Terminal::Keyword(Keyword::Def), Expecting::a("`def` keyword")) {
            Ok((s, j)) => Ok((MacroDef { def_kw: DefKeyword(s) }, j)),
            Err(e) => Err(e),
        }
    }
}

impl<'a> Rule<'a> for FnDef<'a> {
    open spec fn outcome(source: &'a str, toks: Seq<Lexeme<'a>>, start: int) -> Outcome<'a, Self> {
        fn_def_outcome(source, toks, start)
    }

    fn try_pull(source: &'a str, tokens: &'a [Lexeme<'a>], start: usize) -> (r: Result<
        (Self, usize),
        ContextError<'a>,
    >) {
        pull_fn_def(source, tokens, start)
    }
}

impl<'a> Rule<'a> for Item<'a> {
    open spec fn outcome(source: &'a str, toks: Seq<Lexeme<'a>>, start: int) -> Outcome<'a, Self> {
        item_outcome(source, toks, start)
    }

    fn try_pull(source: &'a str, tokens: &'a [Lexeme<'a>], start: usize) -> (r: Result<
        (Self, usize),
        ContextError<'a>,
    >) {
        pull_item(source, tokens, start)
    }
}

impl<'a> Rule<'a> for Syntax<'a> {
    open spec fn outcome(source: &'a str, toks: Seq<Lexeme<'a>>, start: int) -> Outcome<'a, Self> {
        syntax_outcome(source, toks, start)
    }

    fn try_pull(source: &'a str, tokens: &'a [Lexeme<'a>], start: usize) -> (r: Result<
        (Self, usize),
        ContextError<'a>,
    >) {
        pull_syntax(source, tokens, start)
    }
}

impl<'a, T: Rule<'a>> Rule<'a> for Box<T> {
    open spec fn outcome(source: &'a str, toks: Seq<Lexeme<'a>>, start: int) -> Outcome<'a, Self> {
        match T::outcome(source, toks, start) {
            Outcome::Parsed(x, j) => Outcome::Parsed(Box::new(x), j),
            Outcome::Failed(e) => Outcome::Failed(e),
            Outcome::Stuck => Outcome::Stuck,
        }
    }

    fn try_pull(source: &'a str, tokens: &'a [Lexeme<'a>], start: usize) -> (r: Result<
        (Self, usize),
        ContextError<'a>,
    >) {
        match T::try_pull(source, tokens, start) {
            Ok((x, j)) => Ok((Box::new(x), j)),
            Err(e) => Err(e),
        }
    }
}

/// An optional rule: its value if it parses, else nothing (and no token is used)
impl<'a, T: Rule<'a>> Rule<'a> for Option<T> {
    open spec fn outcome(source: &'a str, toks: Seq<Lexeme<'a>>, start: int) -> Outcome<'a, Self> {
        match T::outcome(source, toks, start) {
            Outcome::Parsed(x, j) => Outcome::Parsed(Some(x), j),
            Outcome::Failed(_) => Outcome::Parsed(None, start),
            Outcome::Stuck => Outcome::Stuck,
        }
    }

    fn try_pull(source: &'a str, tokens: &'a [Lexeme<'a>], start: usize) -> (r: Result<
        (Self, usize),
        ContextError<'a>,
    >) {
        match T::try_pull(source, tokens, start) {
            Ok((x, j)) => Ok((Some(x), j)),
            Err(_) => Ok((None, start)),
        }
    }
}

/// The tokens the grammar reads from scanning results, with their values: all but whitespace
/// and comments (valued [`TokenValue::Ignore`])
pub open spec fn significant<'a>(items: Seq<TokenResult<'a>>) -> Seq<(Token<'a>, ValueModel)>
    decreases items.len(),
{
    if items.len() == 0 {
        Seq::empty()
    } else {
        let rest = significant(items.drop_last());
        match items.last() {
            Ok((t, v)) => if v@ == ValueModel::Ignore {
                rest
            } else {
                rest.push((t, v@))
            },
            Err(_) => rest,
        }
    }
}

/// The first error among scanning results, if any
pub open spec fn first_error<'a>(items: Seq<TokenResult<'a>>) -> Option<ContextError<'a>>
    decreases items.len(),
{
    if items.len() == 0 {
        None
    } else {
        match first_error(items.drop_last()) {
            Some(e) => Some(e),
            None => match items.last() {
                Err(e) => Some(e),
                Ok(_) => None,
            },
        }
    }
}

/// The lexemes as tokens and values
pub open spec fn lexeme_view<'a>(v: Seq<Lexeme<'a>>) -> Seq<(Token<'a>, ValueModel)> {
    v.map_values(|l: Lexeme<'a>| (l.token, l.value@))
}

/// What the scanner makes of `source`, as the grammar reads it: the tokens other than
/// whitespace and comments, with their values and byte ranges; or the first scanning error.
#[verifier::spinoff_prover]
#[verifier::rlimit(80)]
pub fn lexemes<'a>(source: &'a str) -> (r: Result<Vec<Lexeme<'a>>, ContextError<'a>>)
    ensures
        exists|items: Seq<TokenResult<'a>>|
            #![trigger significant(items)]
            items.len() == lex(source@).len() && (forall|i: int|
                0 <= i < items.len() ==> result_is(
                    #[trigger] items[i],
                    lex(source@)[i].0,
                    source,
                    lex(source@)[i].1,
                    lex(source@)[i].2,
                )) && match first_error(items) {
                Some(e) => r == Err::<Vec<Lexeme<'a>>, ContextError<'a>>(e),
                None => r matches Ok(v) && lexemes_wf(source, v@) && lexeme_view(v@) == significant(
                    items,
                ),
            },
{
    let tokens = tokenize(source);
    let count = tokens.len();
    let ghost items = tokens@;
    let ghost s = source@;
    let ghost l = lex(s);
    let n = source.as_bytes().len();
    proof {
        lemma_lex_tiles(s);
    }
    let mut out: Vec<Lexeme<'a>> = Vec::new();
    let mut bytes: usize = 0;
    let mut idx: usize = 0;
    assert(items.take(0) =~= Seq::<TokenResult<'a>>::empty());
    assert(s.take(0) =~= Seq::<char>::empty());
    assert(vstd::utf8::encode_utf8(Seq::<char>::empty()) =~= Seq::<u8>::empty());
    for item in it: tokens.into_iter()
        invariant
            it.seq() == items,
            count == items.len(),
            idx == it.index(),
            idx <= items.len(),
            items.len() == l.len(),
            l == lex(s),
            s == source@,
            n == utf8_len(s),
            forall|i: int| 0 <= i < items.len() ==> result_is(#[trigger] items[i], l[i].0, source, l[i].1, l[i].2),
            forall|i: int| 0 <= i < l.len() ==> 0 <= #[trigger] l[i].1 < l[i].2 <= s.len(),
            forall|i: int| 0 <= i < l.len() - 1 ==> #[trigger] l[i].2 == l[i + 1].1,
            l.len() > 0 ==> l[0].1 == 0,
            bytes == byte_offset(s, if idx == 0 { 0 } else { l[idx - 1].2 }),
            first_error(items.take(idx as int)) is None,
            lexemes_wf(source, out@),
            lexeme_view(out@) == significant(items.take(idx as int)),
    {
        let ghost at = l[idx as int];
        assert(item == items[idx as int]);
        assert(items.take(idx + 1).drop_last() =~= items.take(idx as int));
        assert(items.take(idx + 1).last() == item);
        if idx > 0 {
            assert(l[idx - 1].2 == l[idx as int].1);
        }
        match item {
            Ok((token, value)) => {
                let w = token.src.as_bytes().len();
                proof {
                    lemma_utf8_len_subrange(s, at.1, at.2);
                    lemma_byte_offset_mono(s, at.2, s.len() as int);
                    assert(s.take(s.len() as int) =~= s);
                    lemma_char_index(s, at.1);
                    lemma_char_index(s, at.2);
                    lemma_byte_offset_mono(s, at.1, at.2);
                }
                let range = Range { start: bytes, end: bytes + w };
                assert(spans(source, range, token.src@));
                bytes = bytes + w;
                let ignore = match value {
                    TokenValue::Ignore => true,
                    _ => false,
                };
                if !ignore {
                    let ghost before = out@;
                    out.push(Lexeme { token, value, range });
                    assert(lexeme_view(out@) =~= lexeme_view(before).push((token, value@)));
                    assert(lexemes_wf(source, out@)) by {
                        assert forall|i: int| 0 <= i < out@.len() implies spans(
                            source,
                            #[trigger] out@[i].range,
                            out@[i].token.src@,
                        ) by {
                            if i < before.len() {
                                assert(out@[i] == before[i]);
                            }
                        }
                    }
                }
            },
            Err(e) => {
                assert(first_error(items.take(idx + 1)) == Some(e));
                proof {
                    lemma_first_error_prefix(items, idx + 1);
                    assert(significant(items) == significant(items));
                }
                return Err(e);
            },
        }
        idx = idx + 1;
    }
    assert(items.take(idx as int) =~= items);
    assert(significant(items) == significant(items));
    Ok(out)
}

/// The first error of a prefix that has one is the first error of the whole.
proof fn lemma_first_error_prefix<'a>(items: Seq<TokenResult<'a>>, k: int)
    requires
        0 <= k <= items.len(),
        first_error(items.take(k)) is Some,
    ensures
        first_error(items) == first_error(items.take(k)),
    decreases items.len() - k,
{
    if k < items.len() {
        assert(items.take(k + 1).drop_last() =~= items.take(k));
        lemma_first_error_prefix(items, k + 1);
    } else {
        assert(items.take(k) =~= items);
    }
}

} // verus!
