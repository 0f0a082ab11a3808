//! The tokens that the scanner produces and the values they stand for.
use crate::error::{ErrorModel, ErrorType, NumLitError};
use crate::numeral::{
    fold_digits, is_float_literal, is_float_text, parse_uint, parse_uint_spec, IntErrorKind,
};
use crate::text::{
    all_ascii, byte_offset, char_is_alphanumeric, digit_value, char_width, is_alphanumeric, len_utf8,
    lemma_byte_offset_mono, lemma_byte_offset_step, lemma_char_width_bounds, lemma_utf8_len_concat,
    lemma_utf8_len_single, lemma_utf8_len_sub, lemma_utf8_len_subrange, utf8_len, push_char, chars_of,
};
use core::ops::Range;
use std::borrow::Cow;
use vstd::prelude::*;

verus! {

broadcast use vstd::seq::group_seq_axioms;

/// The category of a [`Token`]
#[derive(Debug, Clone, Copy, PartialEq, Eq, Hash, Structural)]
pub enum TokenType {
    /// An entire chunk of whitespace, not just one character
    Whitespace,
    /// A line or block comment
    Comment,
    /// A number literal
    NumberLiteral,
    /// `true` or `false`
    BoolLiteral,
    /// A character literal
    CharLiteral,
    /// A string literal
    StringLiteral,
    /// A name
    Identifier,
    /// Identical to [`Self::Identifier`], but implies a function by context
    /// i.e. The next token is an open parentheses (`(`)
    Callable,
    /// A keyword
    Keyword,
    /// Identical to [`Self::Keyword`], but specific to [`KeywordType::Control`]
    /// (because they have a different highlight color)
    CtrlKeyword,
    /// A macro name (`\name`)
    Macro,
    /// A macro parameter name (`$name`)
    MacroParam,
    /// Punctuation
    Punctuation,
    /// A subset of [`Self::Punctuation`] with depth
    Bracket(usize),
}

/// The role of a [`Keyword`]
#[derive(Debug, Clone, Copy, PartialEq, Eq, Hash, Structural)]
pub enum KeywordType {
    /// Defines an item
    Definition,
    /// Introduces a value
    Value,
    /// Affects control flow
    Control,
}

/// A reserved word
#[derive(Debug, Clone, Copy, PartialEq, Eq, Hash, Structural)]
pub enum Keyword {
    /// `struct`
    Struct,
    /// `union`
    Union,
    /// `enum`
    Enum,
    /// `type`
    Type,
    /// `def`
    Def,
    /// `fn`
    Fn,
    /// `let`
    Let,
    /// `const`
    Const,
    /// `static`
    Static,
    /// `if`
    If,
    /// `else`
    Else,
    /// `for`
    For,
    /// `while`
    While,
    /// `with`
    With,
    /// `where`
    Where,
    /// `loop`
    Loop,
    /// `in`
    In,
    /// `has`
    Has,
    /// `match`
    Match,
    /// `do`
    Do,
    /// `break`
    Break,
    /// `skip`
    Skip,
    /// `ret`
    Ret,
    /// `yeild`
    Yeild,
}

/// The spelling of a keyword
pub open spec fn keyword_text(k: Keyword) -> Seq<char> {
    match k {
        Keyword::Struct => seq!['s', 't', 'r', 'u', 'c', 't'],
        Keyword::Union => seq!['u', 'n', 'i', 'o', 'n'],
        Keyword::Enum => seq!['e', 'n', 'u', 'm'],
        Keyword::Type => seq!['t', 'y', 'p', 'e'],
        Keyword::Def => seq!['d', 'e', 'f'],
        Keyword::Fn => seq!['f', 'n'],
        Keyword::Let => seq!['l', 'e', 't'],
        Keyword::Const => seq!['c', 'o', 'n', 's', 't'],
        Keyword::Static => seq!['s', 't', 'a', 't', 'i', 'c'],
        Keyword::If => seq!['i', 'f'],
        Keyword::Else => seq!['e', 'l', 's', 'e'],
        Keyword::For => seq!['f', 'o', 'r'],
        Keyword::While => seq!['w', 'h', 'i', 'l', 'e'],
        Keyword::With => seq!['w', 'i', 't', 'h'],
        Keyword::Where => seq!['w', 'h', 'e', 'r', 'e'],
        Keyword::Loop => seq!['l', 'o', 'o', 'p'],
        Keyword::In => seq!['i', 'n'],
        Keyword::Has => seq!['h', 'a', 's'],
        Keyword::Match => seq!['m', 'a', 't', 'c', 'h'],
        Keyword::Do => seq!['d', 'o'],
        Keyword::Break => seq!['b', 'r', 'e', 'a', 'k'],
        Keyword::Skip => seq!['s', 'k', 'i', 'p'],
        Keyword::Ret => seq!['r', 'e', 't'],
        Keyword::Yeild => seq!['y', 'e', 'i', 'l', 'd'],
    }
}

/// The keyword spelled by `s`, if any
pub open spec fn keyword_of(s: Seq<char>) -> Option<Keyword> {
    if s == keyword_text(Keyword::Struct) {
        Some(Keyword::Struct)
    } else if s == keyword_text(Keyword::Union) {
        Some(Keyword::Union)
    } else if s == keyword_text(Keyword::Enum) {
        Some(Keyword::Enum)
    } else if s == keyword_text(Keyword::Type) {
        Some(Keyword::Type)
    } else if s == keyword_text(Keyword::Def) {
        Some(Keyword::Def)
    } else if s == keyword_text(Keyword::Fn) {
        Some(Keyword::Fn)
    } else if s == keyword_text(Keyword::Let) {
        Some(Keyword::Let)
    } else if s == keyword_text(Keyword::Const) {
        Some(Keyword::Const)
    } else if s == keyword_text(Keyword::Static) {
        Some(Keyword::Static)
    } else if s == keyword_text(Keyword::If) {
        Some(Keyword::If)
    } else if s == keyword_text(Keyword::Else) {
        Some(Keyword::Else)
    } else if s == keyword_text(Keyword::For) {
        Some(Keyword::For)
    } else if s == keyword_text(Keyword::While) {
        Some(Keyword::While)
    } else if s == keyword_text(Keyword::With) {
        Some(Keyword::With)
    } else if s == keyword_text(Keyword::Where) {
        Some(Keyword::Where)
    } else if s == keyword_text(Keyword::Loop) {
        Some(Keyword::Loop)
    } else if s == keyword_text(Keyword::In) {
        Some(Keyword::In)
    } else if s == keyword_text(Keyword::Has) {
        Some(Keyword::Has)
    } else if s == keyword_text(Keyword::Match) {
        Some(Keyword::Match)
    } else if s == keyword_text(Keyword::Do) {
        Some(Keyword::Do)
    } else if s == keyword_text(Keyword::Break) {
        Some(Keyword::Break)
    } else if s == keyword_text(Keyword::Skip) {
        Some(Keyword::Skip)
    } else if s == keyword_text(Keyword::Ret) {
        Some(Keyword::Ret)
    } else if s == keyword_text(Keyword::Yeild) {
        Some(Keyword::Yeild)
    } else {
        None
    }
}

/// The role of each keyword
pub open spec fn keyword_type(k: Keyword) -> KeywordType {
    match k {
        Keyword::Struct | Keyword::Union | Keyword::Enum | Keyword::Type | Keyword::Def
        | Keyword::Fn => KeywordType::Definition,
        Keyword::Let | Keyword::Const | Keyword::Static => KeywordType::Value,
        Keyword::If | Keyword::Else | Keyword::For | Keyword::While | Keyword::With
        | Keyword::Where | Keyword::Loop | Keyword::In | Keyword::Has | Keyword::Match
        | Keyword::Do | Keyword::Break | Keyword::Skip | Keyword::Ret | Keyword::Yeild => {
            KeywordType::Control
        },
    }
}

/// Whether `s[start..end]` is `word`
pub fn text_is(s: &[char], start: usize, end: usize, word: &[char]) -> (r: bool)
    requires
        start <= end <= s@.len(),
    ensures
        r == (s@.subrange(start as int, end as int) == word@),
{
    if end - start != word.len() {
        return false;
    }
    let mut i: usize = 0;
    while i < word.len()
        invariant
            start <= end <= s@.len(),
            end - start == word@.len(),
            i <= word@.len(),
            forall|j: int| 0 <= j < i ==> s@[start + j] == word@[j],
        decreases word@.len() - i,
    {
        if s[start + i] != word[i] {
            assert(s@.subrange(start as int, end as int)[i as int] != word@[i as int]);
            return false;
        }
        i = i + 1;
    }
    assert(s@.subrange(start as int, end as int) =~= word@);
    true
}

impl Keyword {
    /// The role of this keyword
    pub fn kw_type(self) -> (t: KeywordType)
        ensures
            t == keyword_type(self),
    {
        match self {
            Self::Struct | Self::Union | Self::Enum | Self::Type => KeywordType::Definition,
            Self::Def | Self::Fn => KeywordType::Definition,
            Self::Let | Self::Const | Self::Static => KeywordType::Value,
            Self::If | Self::Else | Self::For | Self::While | Self::With | Self::Where | Self::Loop
            | Self::In | Self::Has | Self::Match | Self::Do | Self::Break | Self::Skip | Self::Ret
            | Self::Yeild => KeywordType::Control,
        }
    }

    /// The keyword spelled exactly by `s[start..end]`, if any
    pub fn try_from_chars(s: &[char], start: usize, end: usize) -> (r: Option<Self>)
        requires
            start <= end <= s@.len(),
        ensures
            r == keyword_of(s@.subrange(start as int, end as int)),
    {
        if text_is(s, start, end, &['s', 't', 'r', 'u', 'c', 't']) {
            Some(Self::Struct)
        } else if text_is(s, start, end, &['u', 'n', 'i', 'o', 'n']) {
            Some(Self::Union)
        } else if text_is(s, start, end, &['e', 'n', 'u', 'm']) {
            Some(Self::Enum)
        } else if text_is(s, start, end, &['t', 'y', 'p', 'e']) {
            Some(Self::Type)
        } else if text_is(s, start, end, &['d', 'e', 'f']) {
            Some(Self::Def)
        } else if text_is(s, start, end, &['f', 'n']) {
            Some(Self::Fn)
        } else if text_is(s, start, end, &['l', 'e', 't']) {
            Some(Self::Let)
        } else if text_is(s, start, end, &['c', 'o', 'n', 's', 't']) {
            Some(Self::Const)
        } else if text_is(s, start, end, &['s', 't', 'a', 't', 'i', 'c']) {
            Some(Self::Static)
        } else if text_is(s, start, end, &['i', 'f']) {
            Some(Self::If)
        } else if text_is(s, start, end, &['e', 'l', 's', 'e']) {
            Some(Self::Else)
        } else if text_is(s, start, end, &['f', 'o', 'r']) {
            Some(Self::For)
        } else if text_is(s, start, end, &['w', 'h', 'i', 'l', 'e']) {
            Some(Self::While)
        } else if text_is(s, start, end, &['w', 'i', 't', 'h']) {
            Some(Self::With)
        } else if text_is(s, start, end, &['w', 'h', 'e', 'r', 'e']) {
            Some(Self::Where)
        } else if text_is(s, start, end, &['l', 'o', 'o', 'p']) {
            Some(Self::Loop)
        } else if text_is(s, start, end, &['i', 'n']) {
            Some(Self::In)
        } else if text_is(s, start, end, &['h', 'a', 's']) {
            Some(Self::Has)
        } else if text_is(s, start, end, &['m', 'a', 't', 'c', 'h']) {
            Some(Self::Match)
        } else if text_is(s, start, end, &['d', 'o']) {
            Some(Self::Do)
        } else if text_is(s, start, end, &['b', 'r', 'e', 'a', 'k']) {
            Some(Self::Break)
        } else if text_is(s, start, end, &['s', 'k', 'i', 'p']) {
            Some(Self::Skip)
        } else if text_is(s, start, end, &['r', 'e', 't']) {
            Some(Self::Ret)
        } else if text_is(s, start, end, &['y', 'e', 'i', 'l', 'd']) {
            Some(Self::Yeild)
        } else {
            None
        }
    }
}

/// A punctuation token
#[derive(Debug, Clone, Copy, PartialEq, Eq, Hash, Structural)]
pub enum Punctuation {
    /// `**=`
    ExponentAssign,
    /// `<<=`
    ShlAssign,
    /// `>>=`
    ShrAssign,
    /// `!&=`
    NandAssign,
    /// `!|=`
    NorAssign,
    /// `!^=`
    XnorAssign,
    /// `!=`
    Neq,
    /// `!&`
    Nand,
    /// `!|`
    Nor,
    /// `!^`
    Xnor,
    /// `##`
    Concat,
    /// `%=`
    RemAssign,
    /// `&=`
    AndAssign,
    /// `*=`
    MulAssign,
    /// `**`
    Exponent,
    /// `+=`
    AddAssign,
    /// `-=`
    SubAssign,
    /// `->`
    Arrow,
    /// `/=`
    DivAssign,
    /// `::`
    PathSep,
    /// `<=`
    Le,
    /// `<<`
    Shl,
    /// `==`
    Eq,
    /// `=>`
    FatArrow,
    /// `>=`
    Ge,
    /// `>>`
    Shr,
    /// `^=`
    XorAssign,
    /// `|=`
    OrAssign,
    /// `!`
    Not,
    /// `#`
    MacroArgCount,
    /// `$`
    Ref,
    /// `%`
    Remainder,
    /// `&`
    And,
    /// `(`
    LParen,
    /// `)`
    RParen,
    /// `*`
    Mul,
    /// `+`
    Add,
    /// `,`
    Comma,
    /// `-`
    Sub,
    /// `.`
    Dot,
    /// `/`
    Div,
    /// `:`
    Colon,
    /// `;`
    Semi,
    /// `<`
    Lt,
    /// `=`
    Assign,
    /// `>`
    Gt,
    /// `?`
    QMark,
    /// `@`
    Reference,
    /// `[`
    LBrack,
    /// `\`
    MacroStart,
    /// `]`
    RBrack,
    /// `^`
    Xor,
    /// `{`
    LBrace,
    /// `|`
    Or,
    /// `}`
    RBrace,
}

/// The three-char punctuation spelled `a b c`
pub open spec fn punc3(a: char, b: char, c: char) -> Option<Punctuation> {
    match (a, b, c) {
        ('*', '*', '=') => Some(Punctuation::ExponentAssign),
        ('<', '<', '=') => Some(Punctuation::ShlAssign),
        ('>', '>', '=') => Some(Punctuation::ShrAssign),
        ('!', '&', '=') => Some(Punctuation::NandAssign),
        ('!', '|', '=') => Some(Punctuation::NorAssign),
        ('!', '^', '=') => Some(Punctuation::XnorAssign),
        _ => None,
    }
}

/// The two-char punctuation spelled `a b`
pub open spec fn punc2(a: char, b: char) -> Option<Punctuation> {
    match (a, b) {
        ('!', '=') => Some(Punctuation::Neq),
        ('!', '&') => Some(Punctuation::Nand),
        ('!', '|') => Some(Punctuation::Nor),
        ('!', '^') => Some(Punctuation::Xnor),
        ('#', '#') => Some(Punctuation::Concat),
        ('%', '=') => Some(Punctuation::RemAssign),
        ('&', '=') => Some(Punctuation::AndAssign),
        ('*', '=') => Some(Punctuation::MulAssign),
        ('*', '*') => Some(Punctuation::Exponent),
        ('+', '=') => Some(Punctuation::AddAssign),
        ('-', '=') => Some(Punctuation::SubAssign),
        ('-', '>') => Some(Punctuation::Arrow),
        ('/', '=') => Some(Punctuation::DivAssign),
        (':', ':') => Some(Punctuation::PathSep),
        ('<', '=') => Some(Punctuation::Le),
        ('<', '<') => Some(Punctuation::Shl),
        ('=', '=') => Some(Punctuation::Eq),
        ('=', '>') => Some(Punctuation::FatArrow),
        ('>', '=') => Some(Punctuation::Ge),
        ('>', '>') => Some(Punctuation::Shr),
        ('^', '=') => Some(Punctuation::XorAssign),
        ('|', '=') => Some(Punctuation::OrAssign),
        _ => None,
    }
}

/// The one-char punctuation spelled `a`
pub open spec fn punc1(a: char) -> Option<Punctuation> {
    match a {
        '!' => Some(Punctuation::Not),
        '#' => Some(Punctuation::MacroArgCount),
        '$' => Some(Punctuation::Ref),
        '%' => Some(Punctuation::Remainder),
        '&' => Some(Punctuation::And),
        '(' => Some(Punctuation::LParen),
        ')' => Some(Punctuation::RParen),
        '*' => Some(Punctuation::Mul),
        '+' => Some(Punctuation::Add),
        ',' => Some(Punctuation::Comma),
        '-' => Some(Punctuation::Sub),
        '.' => Some(Punctuation::Dot),
        '/' => Some(Punctuation::Div),
        ':' => Some(Punctuation::Colon),
        ';' => Some(Punctuation::Semi),
        '<' => Some(Punctuation::Lt),
        '=' => Some(Punctuation::Assign),
        '>' => Some(Punctuation::Gt),
        '?' => Some(Punctuation::QMark),
        '@' => Some(Punctuation::Reference),
        '[' => Some(Punctuation::LBrack),
        '\\' => Some(Punctuation::MacroStart),
        ']' => Some(Punctuation::RBrack),
        '^' => Some(Punctuation::Xor),
        '{' => Some(Punctuation::LBrace),
        '|' => Some(Punctuation::Or),
        '}' => Some(Punctuation::RBrace),
        _ => None,
    }
}

/// The longest punctuation that `s` starts with, with its length in chars
pub open spec fn punc_prefix(s: Seq<char>) -> Option<(Punctuation, nat)> {
    if s.len() >= 3 && punc3(s[0], s[1], s[2]) is Some {
        Some((punc3(s[0], s[1], s[2])->0, 3))
    } else if s.len() >= 2 && punc2(s[0], s[1]) is Some {
        Some((punc2(s[0], s[1])->0, 2))
    } else if s.len() >= 1 && punc1(s[0]) is Some {
        Some((punc1(s[0])->0, 1))
    } else {
        None
    }
}

/// How each punctuation is spelled
pub open spec fn punctuation_text(p: Punctuation) -> Seq<char> {
    match p {
        Punctuation::ExponentAssign => seq!['*', '*', '='],
        Punctuation::ShlAssign => seq!['<', '<', '='],
        Punctuation::ShrAssign => seq!['>', '>', '='],
        Punctuation::NandAssign => seq!['!', '&', '='],
        Punctuation::NorAssign => seq!['!', '|', '='],
        Punctuation::XnorAssign => seq!['!', '^', '='],
        Punctuation::Neq => seq!['!', '='],
        Punctuation::Nand => seq!['!', '&'],
        Punctuation::Nor => seq!['!', '|'],
        Punctuation::Xnor => seq!['!', '^'],
        Punctuation::Concat => seq!['#', '#'],
        Punctuation::RemAssign => seq!['%', '='],
        Punctuation::AndAssign => seq!['&', '='],
        Punctuation::MulAssign => seq!['*', '='],
        Punctuation::Exponent => seq!['*', '*'],
        Punctuation::AddAssign => seq!['+', '='],
        Punctuation::SubAssign => seq!['-', '='],
        Punctuation::Arrow => seq!['-', '>'],
        Punctuation::DivAssign => seq!['/', '='],
        Punctuation::PathSep => seq![':', ':'],
        Punctuation::Le => seq!['<', '='],
        Punctuation::Shl => seq!['<', '<'],
        Punctuation::Eq => seq!['=', '='],
        Punctuation::FatArrow => seq!['=', '>'],
        Punctuation::Ge => seq!['>', '='],
        Punctuation::Shr => seq!['>', '>'],
        Punctuation::XorAssign => seq!['^', '='],
        Punctuation::OrAssign => seq!['|', '='],
        Punctuation::Not => seq!['!'],
        Punctuation::MacroArgCount => seq!['#'],
        Punctuation::Ref => seq!['$'],
        Punctuation::Remainder => seq!['%'],
        Punctuation::And => seq!['&'],
        Punctuation::LParen => seq!['('],
        Punctuation::RParen => seq![')'],
        Punctuation::Mul => seq!['*'],
        Punctuation::Add => seq!['+'],
        Punctuation::Comma => seq![','],
        Punctuation::Sub => seq!['-'],
        Punctuation::Dot => seq!['.'],
        Punctuation::Div => seq!['/'],
        Punctuation::Colon => seq![':'],
        Punctuation::Semi => seq![';'],
        Punctuation::Lt => seq!['<'],
        Punctuation::Assign => seq!['='],
        Punctuation::Gt => seq!['>'],
        Punctuation::QMark => seq!['?'],
        Punctuation::Reference => seq!['@'],
        Punctuation::LBrack => seq!['['],
        Punctuation::MacroStart => seq!['\\'],
        Punctuation::RBrack => seq![']'],
        Punctuation::Xor => seq!['^'],
        Punctuation::LBrace => seq!['{'],
        Punctuation::Or => seq!['|'],
        Punctuation::RBrace => seq!['}'],
    }
}

/// The punctuation that a text starts with is spelled by the chars it spans: scanning `<=`
/// gives [`Punctuation::Le`], `>=` gives [`Punctuation::Ge`], and so on for each one.
pub proof fn lemma_punc_prefix_spelling(s: Seq<char>)
    ensures
        punc_prefix(s) matches Some((p, n)) ==> n == punctuation_text(p).len() && s.take(n as int)
            == punctuation_text(p),
{
    if s.len() >= 3 {
        assert(s.take(3) =~= seq![s[0], s[1], s[2]]);
    }
    if s.len() >= 2 {
        assert(s.take(2) =~= seq![s[0], s[1]]);
    }
    if s.len() >= 1 {
        assert(s.take(1) =~= seq![s[0]]);
    }
}

/// The punctuation that a text starts with is the longest one: no punctuation spelled by a
/// longer start of the text is passed over (`<<=` is read whole, not as `<<` then `=`).
pub proof fn lemma_punc_prefix_longest(s: Seq<char>, q: Punctuation)
    requires
        punctuation_text(q).len() <= s.len(),
        s.take(punctuation_text(q).len() as int) == punctuation_text(q),
    ensures
        punc_prefix(s) matches Some((p, n)) && punctuation_text(q).len() <= n,
{
    let t = punctuation_text(q);
    assert(t.len() >= 1);
    assert(s[0] == t[0]);
    if t.len() >= 2 {
        assert(s[1] == t[1]);
    }
    if t.len() >= 3 {
        assert(s[2] == t[2]);
    }
}

impl Punctuation {
    /// Matches the prefix of `s[start..end]` to a [`Punctuation`], trying the longest one
    /// possible; gives its length in chars too.
    pub fn from_prefix(s: &[char], start: usize, end: usize) -> (r: Option<(Self, usize)>)
        requires
            start <= end <= s@.len(),
        ensures
            match punc_prefix(s@.subrange(start as int, end as int)) {
                Some((p, n)) => r == Some((p, n as usize)),
                None => r is None,
            },
    {
        let ghost t = s@.subrange(start as int, end as int);
        let n = end - start;
        if n >= 3 {
            assert(t[0] == s@[start as int] && t[1] == s@[start + 1] && t[2] == s@[start + 2]);
            let p = match (s[start], s[start + 1], s[start + 2]) {
                ('*', '*', '=') => Some(Self::ExponentAssign),
                ('<', '<', '=') => Some(Self::ShlAssign),
                ('>', '>', '=') => Some(Self::ShrAssign),
                ('!', '&', '=') => Some(Self::NandAssign),
                ('!', '|', '=') => Some(Self::NorAssign),
                ('!', '^', '=') => Some(Self::XnorAssign),
                _ => None,
            };
            if let Some(p) = p {
                return Some((p, 3));
            }
        }
        if n >= 2 {
            assert(t[0] == s@[start as int] && t[1] == s@[start + 1]);
            let p = match (s[start], s[start + 1]) {
                ('!', '=') => Some(Self::Neq),
                ('!', '&') => Some(Self::Nand),
                ('!', '|') => Some(Self::Nor),
                ('!', '^') => Some(Self::Xnor),
                ('#', '#') => Some(Self::Concat),
                ('%', '=') => Some(Self::RemAssign),
                ('&', '=') => Some(Self::AndAssign),
                ('*', '=') => Some(Self::MulAssign),
                ('*', '*') => Some(Self::Exponent),
                ('+', '=') => Some(Self::AddAssign),
                ('-', '=') => Some(Self::SubAssign),
                ('-', '>') => Some(Self::Arrow),
                ('/', '=') => Some(Self::DivAssign),
                (':', ':') => Some(Self::PathSep),
                ('<', '=') => Some(Self::Le),
                ('<', '<') => Some(Self::Shl),
                ('=', '=') => Some(Self::Eq),
                ('=', '>') => Some(Self::FatArrow),
                ('>', '=') => Some(Self::Ge),
                ('>', '>') => Some(Self::Shr),
                ('^', '=') => Some(Self::XorAssign),
                ('|', '=') => Some(Self::OrAssign),
                _ => None,
            };
            if let Some(p) = p {
                return Some((p, 2));
            }
        }
        if n >= 1 {
            assert(t[0] == s@[start as int]);
            let p = match s[start] {
                '!' => Some(Self::Not),
                '#' => Some(Self::MacroArgCount),
                '$' => Some(Self::Ref),
                '%' => Some(Self::Remainder),
                '&' => Some(Self::And),
                '(' => Some(Self::LParen),
                ')' => Some(Self::RParen),
                '*' => Some(Self::Mul),
                '+' => Some(Self::Add),
                ',' => Some(Self::Comma),
                '-' => Some(Self::Sub),
                '.' => Some(Self::Dot),
                '/' => Some(Self::Div),
                ':' => Some(Self::Colon),
                ';' => Some(Self::Semi),
                '<' => Some(Self::Lt),
                '=' => Some(Self::Assign),
                '>' => Some(Self::Gt),
                '?' => Some(Self::QMark),
                '@' => Some(Self::Reference),
                '[' => Some(Self::LBrack),
                '\\' => Some(Self::MacroStart),
                ']' => Some(Self::RBrack),
                '^' => Some(Self::Xor),
                '{' => Some(Self::LBrace),
                '|' => Some(Self::Or),
                '}' => Some(Self::RBrace),
                _ => None,
            };
            if let Some(p) = p {
                return Some((p, 1));
            }
        }
        None
    }
}

/// The value of a character literal
#[derive(Debug, Clone, Copy, PartialEq, Eq, Hash, Default)]
pub struct CharLiteral {
    /// The character
    pub ch: char,
    /// Whether it was written as an escape sequence
    pub is_escaped: bool,
}

/// The value of a string literal
#[derive(Debug, PartialEq, Eq, Hash, Default)]
pub struct StringLiteral<'a> {
    /// The text content of the string literal; escape sequences converted and delimiters excluded.
    ///
    /// When no escape sequences were present, this is borrowed from the source and
    /// [`Self::escapes`] is empty.
    pub text: Cow<'a, str>,
    /// Byte ranges of the original lexeme (quote delimiters excluded) that are escape sequences
    pub escapes: Vec<Range<usize>>,
}

/// The byte ranges of a list of ranges, as pairs of integers
pub open spec fn range_pairs(v: Seq<Range<usize>>) -> Seq<(int, int)> {
    v.map_values(|r: Range<usize>| (r.start as int, r.end as int))
}

/// Copies a list of ranges.
pub fn copy_ranges(v: &Vec<Range<usize>>) -> (r: Vec<Range<usize>>)
    ensures
        r@ == v@,
{
    let mut r: Vec<Range<usize>> = Vec::new();
    let mut i: usize = 0;
    while i < v.len()
        invariant
            i <= v@.len(),
            r@ == v@.take(i as int),
        decreases v@.len() - i,
    {
        r.push(Range { start: v[i].start, end: v[i].end });
        i = i + 1;
        assert(r@ =~= v@.take(i as int));
    }
    assert(v@.take(i as int) =~= v@);
    r
}

impl<'a> Clone for StringLiteral<'a> {
    fn clone(&self) -> (r: Self)
        ensures
            r.text@ == self.text@,
            r.escapes@ == self.escapes@,
    {
        let text = match &self.text {
            Cow::Borrowed(s) => Cow::Borrowed(*s),
            Cow::Owned(s) => Cow::Owned(s.clone()),
        };
        StringLiteral { text, escapes: copy_ranges(&self.escapes) }
    }
}

impl<'a> StringLiteral<'a> {
    /// A literal whose text is `text` itself, with no escape sequences
    pub fn borrowed(text: &'a str) -> (r: Self)
        ensures
            r.text@ == text@,
            r.escapes@.len() == 0,
    {
        Self { text: Cow::Borrowed(text), escapes: Vec::new() }
    }
}

/// The value represented by a [`Token`]
#[derive(Debug, Clone, PartialEq, Eq, Hash, Default)]
pub enum TokenValue<'a> {
    /// Whitespace/comments
    #[default]
    Ignore,
    /// A non-negative integer literal
    UIntLiteral(usize),
    /// A negative integer literal
    SIntLiteral(isize),
    /// A float literal, kept as its text; the text follows the float literal syntax
    /// ([`is_float_text`]), so reading it as a float cannot fail.
    FltLiteral(&'a str),
    /// `true` or `false`
    BoolLiteral(bool),
    /// A character literal
    CharLiteral(CharLiteral),
    /// Value is the token source itself
    Direct(&'a str),
    /// A keyword
    Keyword(Keyword),
    /// Punctuation
    Punctuation(Punctuation),
    /// A bracket with its depth
    Bracket(usize),
    /// Escape sequences are converted (unless there are none)
    StringLiteral(StringLiteral<'a>),
}

/// The mathematical content of a [`TokenValue`]: text is taken by its chars.
pub enum ValueModel {
    Ignore,
    UIntLiteral(usize),
    SIntLiteral(isize),
    FltLiteral(Seq<char>),
    BoolLiteral(bool),
    CharLiteral(CharLiteral),
    Direct(Seq<char>),
    Keyword(Keyword),
    Punctuation(Punctuation),
    Bracket(usize),
    StringLiteral(Seq<char>, Seq<(int, int)>),
}

impl<'a> View for TokenValue<'a> {
    type V = ValueModel;

    open spec fn view(&self) -> ValueModel {
        match self {
            TokenValue::Ignore => ValueModel::Ignore,
            TokenValue::UIntLiteral(x) => ValueModel::UIntLiteral(*x),
            TokenValue::SIntLiteral(x) => ValueModel::SIntLiteral(*x),
            TokenValue::FltLiteral(s) => ValueModel::FltLiteral(s@),
            TokenValue::BoolLiteral(b) => ValueModel::BoolLiteral(*b),
            TokenValue::CharLiteral(c) => ValueModel::CharLiteral(*c),
            TokenValue::Direct(s) => ValueModel::Direct(s@),
            TokenValue::Keyword(k) => ValueModel::Keyword(*k),
            TokenValue::Punctuation(p) => ValueModel::Punctuation(*p),
            TokenValue::Bracket(d) => ValueModel::Bracket(*d),
            TokenValue::StringLiteral(l) => ValueModel::StringLiteral(
                l.text@,
                range_pairs(l.escapes@),
            ),
        }
    }
}

/// A lexeme of the source code with its category
#[derive(Debug, Clone, Copy, PartialEq, Eq, Hash)]
pub struct Token<'a> {
    /// The lexeme: a slice of the original source string.
    pub src: &'a str,
    /// Couldn't be named `type` because that's a keyword in Rust
    pub ty: TokenType,
}

/// Views of a value-or-error result
pub open spec fn value_result(r: Result<TokenValue, ErrorType>) -> Result<ValueModel, ErrorModel> {
    match r {
        Ok(v) => Ok(v@),
        Err(e) => Err(e@),
    }
}

/// An escape's outcome as an option
pub open spec fn escape_outcome(v: Result<char, ()>) -> Option<char> {
    match v {
        Ok(c) => Some(c),
        Err(_) => None,
    }
}

/// What the escape sequence at the start of `s` (which starts with `\`) stands for: the number
/// of bytes it spans and, when it is valid, the char it denotes.
pub open spec fn escape_spec(s: Seq<char>) -> (nat, Option<char>) {
    if s.len() < 2 {
        (1, None)
    } else {
        let c = s[1];
        if '0' <= c <= '9' {
            (2, Some((((c as u32) - ('0' as u32)) as u8) as char))
        } else if c == 'a' {
            (2, Some('\x07'))
        } else if c == 'b' {
            (2, Some('\x08'))
        } else if c == 'e' {
            (2, Some('\x1b'))
        } else if c == 'f' {
            (2, Some('\x0c'))
        } else if c == 'n' {
            (2, Some('\n'))
        } else if c == 'r' {
            (2, Some('\r'))
        } else if c == 't' {
            (2, Some('\t'))
        } else if c == 'v' {
            (2, Some('\x0b'))
        } else if c == 'x' || c == 'o' {
            let digits: int = if c == 'x' {
                2
            } else {
                3
            };
            let radix: nat = if c == 'x' {
                16
            } else {
                8
            };
            let len = 2 + digits;
            if len <= s.len() && all_ascii(s.subrange(2, len)) {
                match parse_uint_spec(s.subrange(2, len), radix, 255) {
                    Ok(v) => (len as nat, Some((v as u8) as char)),
                    Err(_) => (len as nat, None),
                }
            } else {
                (len as nat, None)
            }
        } else if !is_alphanumeric(c) {
            (1 + char_width(c), Some(c))
        } else {
            (1 + char_width(c), None)
        }
    }
}

/// The char each escape letter stands for: `\a` bell, `\b` backspace, `\e` escape, `\f` form
/// feed, `\n` line feed, `\r` carriage return, `\t` tab, `\v` vertical tab
pub open spec fn escape_letter(c: char) -> Option<char> {
    match c {
        'a' => Some('\x07'),
        'b' => Some('\x08'),
        'e' => Some('\x1b'),
        'f' => Some('\x0c'),
        'n' => Some('\n'),
        'r' => Some('\r'),
        't' => Some('\t'),
        'v' => Some('\x0b'),
        _ => None,
    }
}

/// What the escape sequences stand for: a letter escape its char from [`escape_letter`] (`\r`
/// a carriage return, `\n` a line feed, ...), a digit escape the char whose code is the digit,
/// `\x` with two hexadecimal digits the char whose code they spell, and any other char that is
/// not alphanumeric itself.
pub proof fn lemma_escape_meanings(e: Seq<char>)
    requires
        e.len() >= 2,
        e[0] == '\\',
    ensures
        escape_letter(e[1]) matches Some(c) ==> escape_spec(e) == (2nat, Some(c)),
        '0' <= e[1] <= '9' ==> (escape_spec(e).0 == 2 && escape_spec(e).1 is Some && escape_spec(e).1->0 as u32
            == e[1] as u32 - '0' as u32),
        e[1] == 'x' && e.len() >= 4 && digit_value(e[2], 16) is Some && digit_value(e[3], 16) is Some
            ==> (escape_spec(e).0 == 4 && escape_spec(e).1 is Some && escape_spec(e).1->0 as nat == digit_value(
            e[2],
            16,
        )->0 * 16 + digit_value(e[3], 16)->0),
        !('0' <= e[1] <= '9') && escape_letter(e[1]) is None && e[1] != 'x' && e[1] != 'o'
            && !is_alphanumeric(e[1]) ==> escape_spec(e) == (1 + char_width(e[1]), Some(e[1])),
{
    if e[1] == 'x' && e.len() >= 4 && digit_value(e[2], 16) is Some && digit_value(e[3], 16) is Some {
        let t = e.subrange(2, 4);
        assert(t[0] == e[2] && t[1] == e[3]);
        let a = t.drop_last();
        assert(a.drop_last() =~= Seq::<char>::empty());
        assert(a.last() == t[0]);
        assert(t.last() == t[1]);
        assert(fold_digits(a.drop_last(), 16, 255) == Ok::<nat, IntErrorKind>(0));
        let d0 = digit_value(e[2], 16)->0;
        let d1 = digit_value(e[3], 16)->0;
        assert(fold_digits(a, 16, 255) == Ok::<nat, IntErrorKind>(d0));
        assert(fold_digits(t, 16, 255) == Ok::<nat, IntErrorKind>(d0 * 16 + d1));
        assert(all_ascii(t));
        assert(parse_uint_spec(t, 16, 255) == Ok::<nat, IntErrorKind>(d0 * 16 + d1));
    }
}

/// The number of chars a valid escape sequence at the start of `s` spans
pub open spec fn escape_span(s: Seq<char>) -> nat {
    if s.len() < 2 {
        1
    } else if s[1] == 'x' {
        4
    } else if s[1] == 'o' {
        5
    } else {
        2
    }
}

/// The number of leading chars of `s` that fit within `n` bytes
pub open spec fn chars_within(s: Seq<char>, n: nat) -> nat
    decreases s.len(),
{
    if s.len() == 0 || char_width(s[0]) > n {
        0
    } else {
        1 + chars_within(s.drop_first(), (n - char_width(s[0])) as nat)
    }
}

/// No more chars fit than there are.
pub proof fn lemma_chars_within_bound(s: Seq<char>, n: nat)
    ensures
        chars_within(s, n) <= s.len(),
    decreases s.len(),
{
    if s.len() > 0 && char_width(s[0]) <= n {
        lemma_chars_within_bound(s.drop_first(), (n - char_width(s[0])) as nat);
    }
}

/// Counts the leading chars of `s[start..end]` that fit within `n` bytes.
fn count_chars_within(s: &[char], start: usize, end: usize, n: usize) -> (r: usize)
    requires
        start <= end <= s@.len(),
    ensures
        r == chars_within(s@.subrange(start as int, end as int), n as nat),
        r <= end - start,
{
    let mut i = start;
    let mut budget = n;
    let mut stop = false;
    while i < end && !stop
        invariant
            start <= i <= end <= s@.len(),
            chars_within(s@.subrange(start as int, end as int), n as nat) == (i - start) + (if stop {
                0
            } else {
                chars_within(s@.subrange(i as int, end as int), budget as nat)
            }),
        decreases end - i + (if stop { 0int } else { 1int }),
    {
        let w = len_utf8(s[i]);
        assert(s@.subrange(i as int, end as int)[0] == s@[i as int]);
        if w > budget {
            stop = true;
        } else {
            assert(s@.subrange(i as int, end as int).drop_first() =~= s@.subrange(
                i + 1,
                end as int,
            ));
            budget = budget - w;
            i = i + 1;
        }
    }
    proof {
        if !stop {
            assert(s@.subrange(i as int, end as int).len() == 0);
        }
        lemma_chars_within_bound(s@.subrange(start as int, end as int), n as nat);
    }
    i - start
}

/// Decodes the escape sequence at the start of `s[start..end]`; [`None`] if it does not start
/// with `\`. Gives the number of bytes the sequence spans and the char it denotes.
pub fn escape_char(s: &[char], start: usize, end: usize) -> (r: Option<(usize, Result<char, ()>)>)
    requires
        start <= end <= s@.len(),
    ensures
        r is Some <==> (start < end && s@[start as int] == '\\'),
        r matches Some((len, v)) ==> escape_spec(s@.subrange(start as int, end as int)) == (
            len as nat,
            escape_outcome(v),
        ),
{
    let ghost t = s@.subrange(start as int, end as int);
    if start == end || s[start] != '\\' {
        return None;
    }
    if end - start < 2 {
        return Some((1, Err(())));
    }
    let c = s[start + 1];
    assert(t[1] == c);
    if '0' <= c && c <= '9' {
        Some((2, Ok((((c as u32) - ('0' as u32)) as u8) as char)))
    } else if c == 'a' {
        Some((2, Ok('\x07')))
    } else if c == 'b' {
        Some((2, Ok('\x08')))
    } else if c == 'e' {
        Some((2, Ok('\x1b')))
    } else if c == 'f' {
        Some((2, Ok('\x0c')))
    } else if c == 'n' {
        Some((2, Ok('\n')))
    } else if c == 'r' {
        Some((2, Ok('\r')))
    } else if c == 't' {
        Some((2, Ok('\t')))
    } else if c == 'v' {
        Some((2, Ok('\x0b')))
    } else if c == 'x' || c == 'o' {
        let digits: usize = if c == 'x' {
            2
        } else {
            3
        };
        let radix: u32 = if c == 'x' {
            16
        } else {
            8
        };
        let len = 2 + digits;
        if end - start < len {
            return Some((len, Err(())));
        }
        let mut i = start + 2;
        while i < start + len
            invariant
                start + 2 <= i <= start + len <= end <= s@.len(),
                t == s@.subrange(start as int, end as int),
                start < end && s@[start as int] == '\\',
                t.len() >= 2 && t[1] == c,
                c == 'x' || c == 'o',
                len == (if c == 'x' {
                    4usize
                } else {
                    5usize
                }),
                forall|j: int| start + 2 <= j < i ==> (#[trigger] s@[j] as u32) < 0x80,
            decreases start + len - i,
        {
            if (s[i] as u32) >= 0x80 {
                assert(t.subrange(2, len as int)[i - start - 2] == s@[i as int]);
                return Some((len, Err(())));
            }
            i = i + 1;
        }
        assert(t.subrange(2, len as int) =~= s@.subrange(start + 2, start + len));
        match parse_uint(s, start + 2, start + len, radix, 255) {
            Ok(v) => Some((len, Ok((v as u8) as char))),
            Err(_) => Some((len, Err(()))),
        }
    } else if !char_is_alphanumeric(c) {
        Some((1 + len_utf8(c), Ok(c)))
    } else {
        Some((1 + len_utf8(c), Err(())))
    }
}

/// Whether `s` starts with `0x`
pub open spec fn has_hex_prefix(s: Seq<char>) -> bool {
    s.len() >= 2 && s[0] == '0' && s[1] == 'x'
}

/// The radix prefix of an integer numeral: its length in chars and the radix
pub open spec fn radix_prefix(s: Seq<char>) -> (int, nat) {
    if has_hex_prefix(s) {
        (2, 16)
    } else if s.len() >= 2 && s[0] == '0' && s[1] == 'o' {
        (2, 8)
    } else if s.len() >= 2 && s[0] == '0' && s[1] == 'b' {
        (2, 2)
    } else {
        (0, 10)
    }
}

/// Whether a number literal is read as a float: it holds a `.`, or it holds an `e`/`E` and
/// its digits (after an optional `-`) do not start with `0x`.
pub open spec fn is_float_numeral(s: Seq<char>) -> bool {
    let magnitude = if s.len() > 0 && s[0] == '-' {
        s.drop_first()
    } else {
        s
    };
    (!has_hex_prefix(magnitude) && (s.contains('e') || s.contains('E'))) || s.contains('.')
}

/// The value of a number literal spelled `s`
pub open spec fn number_value(s: Seq<char>) -> Result<ValueModel, ErrorModel> {
    if is_float_numeral(s) {
        if is_float_text(s) {
            Ok(ValueModel::FltLiteral(s))
        } else {
            Err(ErrorModel::InvalidNumLiteral(NumLitError::Flt))
        }
    } else {
        let negative = s.len() > 0 && s[0] == '-';
        let magnitude = if negative {
            s.drop_first()
        } else {
            s
        };
        let (skip, radix) = radix_prefix(magnitude);
        match parse_uint_spec(magnitude.skip(skip), radix, usize::MAX as nat) {
            Err(e) => Err(ErrorModel::InvalidNumLiteral(NumLitError::UInt(e))),
            Ok(v) => if !negative {
                Ok(ValueModel::UIntLiteral(v as usize))
            } else if v > isize::MAX {
                Err(ErrorModel::InvalidNumLiteral(NumLitError::SInt(IntErrorKind::PosOverflow)))
            } else {
                Ok(ValueModel::SIntLiteral((-v) as isize))
            },
        }
    }
}

/// A number literal holding a `.`, or an `e` or `E` with no `0x` after its sign, is read as a
/// float: it is the float literal itself when its text has the float syntax, an invalid float
/// otherwise (so `1E5` and `1e5` are floats). A literal holding none of `.`, `e`, `E` is never
/// read as a float.
pub proof fn lemma_float_numbers(s: Seq<char>)
    ensures
        ({
            let magnitude = if s.len() > 0 && s[0] == '-' {
                s.drop_first()
            } else {
                s
            };
            s.contains('.') || (!has_hex_prefix(magnitude) && (s.contains('e') || s.contains('E')))
        }) ==> number_value(s) == (if is_float_text(s) {
            Ok::<ValueModel, ErrorModel>(ValueModel::FltLiteral(s))
        } else {
            Err::<ValueModel, ErrorModel>(ErrorModel::InvalidNumLiteral(NumLitError::Flt))
        }),
        !(s.contains('.') || s.contains('e') || s.contains('E')) ==> !(number_value(s) matches Ok(
            ValueModel::FltLiteral(_),
        )) && number_value(s) != Err::<ValueModel, ErrorModel>(
            ErrorModel::InvalidNumLiteral(NumLitError::Flt),
        ),
{
}

/// Whether `s[start..end]` holds `c`
pub fn holds_char(s: &[char], start: usize, end: usize, c: char) -> (r: bool)
    requires
        start <= end <= s@.len(),
    ensures
        r == s@.subrange(start as int, end as int).contains(c),
{
    let ghost t = s@.subrange(start as int, end as int);
    let mut i = start;
    while i < end
        invariant
            start <= i <= end <= s@.len(),
            t == s@.subrange(start as int, end as int),
            forall|j: int| start <= j < i ==> s@[j] != c,
        decreases end - i,
    {
        if s[i] == c {
            assert(t[i - start] == c);
            return true;
        }
        i = i + 1;
    }
    assert forall|j: int| 0 <= j < t.len() implies t[j] != c by {
        assert(t[j] == s@[start + j]);
    }
    false
}

/// The value of the integer literal `s[start..end]`
fn integer_value<'a>(s: &[char], start: usize, end: usize) -> (r: Result<TokenValue<'a>, ErrorType<'a>>)
    requires
        start <= end <= s@.len(),
        !is_float_numeral(s@.subrange(start as int, end as int)),
    ensures
        value_result(r) == number_value(s@.subrange(start as int, end as int)),
{
    let ghost t = s@.subrange(start as int, end as int);
    let negative = start < end && s[start] == '-';
    let mag = if negative {
        start + 1
    } else {
        start
    };
    let ghost m = s@.subrange(mag as int, end as int);
    assert(negative ==> m =~= t.drop_first());
    assert(!negative ==> m =~= t);
    let (digits, radix): (usize, u32) = if end - mag >= 2 && s[mag] == '0' && s[mag + 1] == 'x' {
        (mag + 2, 16)
    } else if end - mag >= 2 && s[mag] == '0' && s[mag + 1] == 'o' {
        (mag + 2, 8)
    } else if end - mag >= 2 && s[mag] == '0' && s[mag + 1] == 'b' {
        (mag + 2, 2)
    } else {
        (mag, 10)
    };
    assert(m.skip(radix_prefix(m).0) =~= s@.subrange(digits as int, end as int));
    assert(radix_prefix(m).1 == radix as nat);
    match parse_uint(s, digits, end, radix, usize::MAX) {
        Err(e) => Err(ErrorType::InvalidNumLiteral(NumLitError::UInt(e))),
        Ok(v) => {
            if !negative {
                Ok(TokenValue::UIntLiteral(v))
            } else if v > isize::MAX as usize {
                Err(ErrorType::InvalidNumLiteral(NumLitError::SInt(IntErrorKind::PosOverflow)))
            } else {
                Ok(TokenValue::SIntLiteral(-(v as isize)))
            }
        },
    }
}

impl<'a> TokenValue<'a> {
    /// The value of the number literal `lexeme`, which is `s[start..end]`
    pub fn number_literal(s: &[char], start: usize, end: usize, lexeme: &'a str) -> (r: Result<
        Self,
        ErrorType<'a>,
    >)
        requires
            start <= end <= s@.len(),
            lexeme@ == s@.subrange(start as int, end as int),
        ensures
            value_result(r) == number_value(lexeme@),
    {
        let ghost t = s@.subrange(start as int, end as int);
        let k = if end - start >= 1 && s[start] == '-' {
            start + 1
        } else {
            start
        };
        assert(t.len() > 0 && t[0] == '-' ==> t.drop_first() =~= s@.subrange(k as int, end as int));
        assert(!(t.len() > 0 && t[0] == '-') ==> t =~= s@.subrange(k as int, end as int));
        let hex = end - k >= 2 && s[k] == '0' && s[k + 1] == 'x';
        let float = (!hex && (holds_char(s, start, end, 'e') || holds_char(s, start, end, 'E')))
            || holds_char(s, start, end, '.');
        if float {
            if is_float_literal(s, start, end) {
                Ok(TokenValue::FltLiteral(lexeme))
            } else {
                Err(ErrorType::InvalidNumLiteral(NumLitError::Flt))
            }
        } else {
            integer_value(s, start, end)
        }
    }
}

/// The number of bytes of `s[start..end]` in UTF-8
pub fn utf8_len_of(s: &[char], start: usize, end: usize) -> (n: usize)
    requires
        start <= end <= s@.len(),
        utf8_len(s@.subrange(start as int, end as int)) <= usize::MAX,
    ensures
        n == utf8_len(s@.subrange(start as int, end as int)),
{
    let ghost t = s@.subrange(start as int, end as int);
    let mut n: usize = 0;
    let mut i = start;
    while i < end
        invariant
            start <= i <= end <= s@.len(),
            t == s@.subrange(start as int, end as int),
            utf8_len(t) <= usize::MAX,
            n == byte_offset(t, i - start),
        decreases end - i,
    {
        proof {
            lemma_byte_offset_step(t, i - start);
            lemma_byte_offset_mono(t, i - start + 1, t.len() as int);
            assert(t.take(t.len() as int) =~= t);
        }
        n = n + len_utf8(s[i]);
        i = i + 1;
    }
    assert(t.take(t.len() as int) =~= t);
    n
}

/// Adds the byte widths of `s[k..k + span]` to `bytes`, the byte offset of `k` in `s[a..b]`.
fn skip_bytes(s: &[char], a: usize, b: usize, k: usize, span: usize, bytes: usize) -> (r: usize)
    requires
        a <= k,
        k + span <= b <= s@.len(),
        utf8_len(s@.subrange(a as int, b as int)) <= usize::MAX,
        bytes == byte_offset(s@.subrange(a as int, b as int), k - a),
    ensures
        r == byte_offset(s@.subrange(a as int, b as int), k - a + span),
{
    let ghost c = s@.subrange(a as int, b as int);
    let mut r = bytes;
    let mut j: usize = 0;
    while j < span
        invariant
            0 <= j <= span,
            a <= k,
            k + span <= b <= s@.len(),
            c == s@.subrange(a as int, b as int),
            utf8_len(c) <= usize::MAX,
            r == byte_offset(c, k - a + j),
        decreases span - j,
    {
        proof {
            let i = k - a + j;
            lemma_byte_offset_step(c, i);
            lemma_byte_offset_mono(c, i + 1, c.len() as int);
            assert(c.take(c.len() as int) =~= c);
            assert(c[i] == s@[k + j]);
        }
        r = r + len_utf8(s[k + j]);
        j = j + 1;
    }
    r
}

/// The value of a char literal spelled `lexeme` (delimiters included)
pub open spec fn char_value(lexeme: Seq<char>) -> Result<ValueModel, ErrorModel> {
    let inner = lexeme.subrange(1, lexeme.len() - 1);
    if inner.len() > 0 && inner[0] == '\\' {
        let (len, v) = escape_spec(inner);
        match v {
            None => Err(ErrorModel::InvalidEscape(inner)),
            Some(ch) => if len == utf8_len(inner) {
                Ok(ValueModel::CharLiteral(CharLiteral { ch, is_escaped: true }))
            } else {
                Err(ErrorModel::MultiCharLiteral)
            },
        }
    } else if inner.len() == 0 {
        Err(ErrorModel::EmptyCharLiteral)
    } else if inner.len() == 1 {
        Ok(ValueModel::CharLiteral(CharLiteral { ch: inner[0], is_escaped: false }))
    } else {
        Err(ErrorModel::MultiCharLiteral)
    }
}

/// Converts the escape sequences of `c` from char index `k` on: gives the converted text with
/// the byte ranges of the escape sequences, or the text of the first invalid escape sequence.
#[verifier::opaque]
pub open spec fn convert_escapes(c: Seq<char>, k: int) -> Result<(Seq<char>, Seq<(int, int)>), Seq<char>>
    decreases c.len() - k,
{
    if k < 0 || k >= c.len() {
        Ok((seq![], seq![]))
    } else if c[k] == '\\' {
        let e = c.skip(k);
        let (len, v) = escape_spec(e);
        match v {
            None => Err(e.take(chars_within(e, len) as int)),
            Some(ch) => match convert_escapes(c, k + escape_span(e)) {
                Err(p) => Err(p),
                Ok((t, r)) => Ok(
                    (
                        seq![ch] + t,
                        seq![(byte_offset(c, k) as int, (byte_offset(c, k) + len) as int)] + r,
                    ),
                ),
            },
        }
    } else {
        match convert_escapes(c, k + 1) {
            Err(p) => Err(p),
            Ok((t, r)) => Ok((seq![c[k]] + t, r)),
        }
    }
}

/// The value of a string literal spelled `lexeme` (delimiters included)
pub open spec fn string_value(lexeme: Seq<char>) -> Result<ValueModel, ErrorModel> {
    match convert_escapes(lexeme.subrange(1, lexeme.len() - 1), 0) {
        Ok((t, r)) => Ok(ValueModel::StringLiteral(t, r)),
        Err(p) => Err(ErrorModel::InvalidEscape(p)),
    }
}

/// Prepends converted text and ranges to a conversion result
pub open spec fn prepend_conversion(
    t: Seq<char>,
    r: Seq<(int, int)>,
    rest: Result<(Seq<char>, Seq<(int, int)>), Seq<char>>,
) -> Result<(Seq<char>, Seq<(int, int)>), Seq<char>> {
    match rest {
        Ok((t2, r2)) => Ok((t + t2, r + r2)),
        Err(p) => Err(p),
    }
}

/// Converting from a plain char keeps it.
proof fn lemma_convert_plain(c: Seq<char>, i: int)
    requires
        0 <= i < c.len(),
        c[i] != '\\',
    ensures
        convert_escapes(c, i) == prepend_conversion(seq![c[i]], seq![], convert_escapes(c, i + 1)),
{
    reveal(convert_escapes);
    if let Ok((t, r)) = convert_escapes(c, i + 1) {
        assert(Seq::<(int, int)>::empty() + r =~= r);
    }
}

/// Converting from a valid escape sequence gives its char and its byte range.
proof fn lemma_convert_escape(c: Seq<char>, i: int, len: nat, ch: char)
    requires
        0 <= i < c.len(),
        c[i] == '\\',
        escape_spec(c.skip(i)) == (len, Some(ch)),
    ensures
        convert_escapes(c, i) == prepend_conversion(
            seq![ch],
            seq![(byte_offset(c, i) as int, (byte_offset(c, i) + len) as int)],
            convert_escapes(c, i + escape_span(c.skip(i))),
        ),
{
    reveal(convert_escapes);
}

/// Converting from an invalid escape sequence gives the chars that its bytes cover.
proof fn lemma_convert_bad_escape(c: Seq<char>, i: int, len: nat)
    requires
        0 <= i < c.len(),
        c[i] == '\\',
        escape_spec(c.skip(i)) == (len, None::<char>),
    ensures
        convert_escapes(c, i) == Err::<(Seq<char>, Seq<(int, int)>), Seq<char>>(
            c.skip(i).take(chars_within(c.skip(i), len) as int),
        ),
{
    reveal(convert_escapes);
}

/// Converting past the end gives nothing.
proof fn lemma_convert_end(c: Seq<char>)
    ensures
        convert_escapes(c, c.len() as int) == Ok::<(Seq<char>, Seq<(int, int)>), Seq<char>>(
            (seq![], seq![]),
        ),
{
    reveal(convert_escapes);
}

/// Prepending twice is prepending the concatenation.
proof fn lemma_prepend_twice(
    t1: Seq<char>,
    r1: Seq<(int, int)>,
    t2: Seq<char>,
    r2: Seq<(int, int)>,
    x: Result<(Seq<char>, Seq<(int, int)>), Seq<char>>,
)
    ensures
        prepend_conversion(t1, r1, prepend_conversion(t2, r2, x)) == prepend_conversion(
            t1 + t2,
            r1 + r2,
            x,
        ),
{
    if let Ok((t, r)) = x {
        assert(t1 + (t2 + t) =~= (t1 + t2) + t);
        assert(r1 + (r2 + r) =~= (r1 + r2) + r);
    }
}

impl<'a> TokenValue<'a> {
    /// The value of the char literal `lexeme`, which is `s[start..end]` (delimiters included)
    pub fn char_literal(s: &[char], start: usize, end: usize, lexeme: &'a str) -> (r: Result<
        Self,
        ErrorType<'a>,
    >)
        requires
            start + 2 <= end <= s@.len(),
            lexeme@ == s@.subrange(start as int, end as int),
            utf8_len(lexeme@) <= usize::MAX,
        ensures
            value_result(r) == char_value(lexeme@),
    {
        let ghost inner = lexeme@.subrange(1, lexeme@.len() - 1);
        let a = start + 1;
        let b = end - 1;
        assert(s@.subrange(a as int, b as int) =~= inner);
        match escape_char(s, a, b) {
            Some((len, res)) => {
                let inner_str = lexeme.substring_char(1, b - start);
                match res {
                    Err(()) => Err(ErrorType::InvalidEscape(inner_str)),
                    Ok(ch) => {
                        proof {
                            lemma_utf8_len_sub(lexeme@, 1, lexeme@.len() - 1);
                        }
                        if len == utf8_len_of(s, a, b) {
                            Ok(TokenValue::CharLiteral(CharLiteral { ch, is_escaped: true }))
                        } else {
                            Err(ErrorType::MultiCharLiteral)
                        }
                    },
                }
            },
            None => {
                if a == b {
                    Err(ErrorType::EmptyCharLiteral)
                } else if b - a == 1 {
                    assert(inner[0] == s@[a as int]);
                    Ok(TokenValue::CharLiteral(CharLiteral { ch: s[a], is_escaped: false }))
                } else {
                    Err(ErrorType::MultiCharLiteral)
                }
            },
        }
    }

    /// The value of the string literal `lexeme`, which is `s[start..end]` (delimiters included)
    pub fn string_literal(s: &[char], start: usize, end: usize, lexeme: &'a str) -> (r: Result<
        Self,
        ErrorType<'a>,
    >)
        requires
            start + 2 <= end <= s@.len(),
            lexeme@ == s@.subrange(start as int, end as int),
            utf8_len(lexeme@) <= usize::MAX,
        ensures
            value_result(r) == string_value(lexeme@),
            r matches Ok(TokenValue::StringLiteral(l)) ==> (l.escapes@.len() == 0 <==> l.text matches Cow::Borrowed(_)),
    {
        let a = start + 1;
        let b = end - 1;
        let content = lexeme.substring_char(1, b - start);
        let ghost c = content@;
        assert(s@.subrange(a as int, b as int) =~= c);
        proof {
            lemma_utf8_len_sub(lexeme@, 1, lexeme@.len() - 1);
        }
        let mut text = String::new();
        let mut escapes: Vec<Range<usize>> = Vec::new();
        let mut k = a;
        let mut bytes: usize = 0;
        while k < b
            invariant
                start < a <= k <= b < end <= s@.len(),
                c == s@.subrange(a as int, b as int),
                content@ == c,
                c == lexeme@.subrange(1, lexeme@.len() - 1),
                utf8_len(c) <= usize::MAX,
                bytes == byte_offset(c, k - a),
                convert_escapes(c, 0) == prepend_conversion(
                    text@,
                    range_pairs(escapes@),
                    convert_escapes(c, k - a),
                ),
                escapes@.len() == 0 ==> text@ == c.take(k - a),
            decreases b - k,
        {
            let ghost i = k - a;
            assert(c[i] == s@[k as int]);
            proof {
                lemma_byte_offset_mono(c, i, c.len() as int);
                assert(c.take(c.len() as int) =~= c);
            }
            match escape_char(s, k, b) {
                None => {
                    let ghost old_t = text@;
                    push_char(&mut text, s[k]);
                    proof {
                        lemma_byte_offset_step(c, i);
                        lemma_byte_offset_mono(c, i + 1, c.len() as int);
                        assert(c.take(i + 1) =~= c.take(i).push(c[i]));
                        lemma_convert_plain(c, i);
                        lemma_prepend_twice(
                            old_t,
                            range_pairs(escapes@),
                            seq![c[i]],
                            seq![],
                            convert_escapes(c, i + 1),
                        );
                        assert(old_t + seq![c[i]] =~= text@);
                        assert(range_pairs(escapes@) + Seq::<(int, int)>::empty() =~= range_pairs(escapes@));
                    }
                    bytes = bytes + len_utf8(s[k]);
                    k = k + 1;
                },
                Some((len, res)) => {
                    let ghost e = c.skip(i);
                    assert(s@.subrange(k as int, b as int) =~= e);
                    match res {
                        Err(()) => {
                            let n = count_chars_within(s, k, b, len);
                            let bad = content.substring_char(k - a, k - a + n);
                            assert(bad@ =~= e.take(n as int));
                            proof {
                                lemma_convert_bad_escape(c, i, len as nat);
                            }
                            return Err(ErrorType::InvalidEscape(bad));
                        },
                        Ok(ch) => {
                            let span: usize = if b - k >= 2 && s[k + 1] == 'x' {
                                4
                            } else if b - k >= 2 && s[k + 1] == 'o' {
                                5
                            } else {
                                2
                            };
                            assert(span == escape_span(e));
                            proof {
                                lemma_escape_bytes(e);
                                lemma_utf8_len_subrange(c, i, i + span);
                                assert(c.subrange(i, i + span) =~= e.take(span as int));
                                lemma_byte_offset_mono(c, i + span, c.len() as int);
                                assert(c.take(c.len() as int) =~= c);
                            }
                            let ghost old_t = text@;
                            let ghost old_r = range_pairs(escapes@);
                            push_char(&mut text, ch);
                            escapes.push(Range { start: bytes, end: bytes + len });
                            bytes = skip_bytes(s, a, b, k, span, bytes);
                            proof {
                                let pair = (
                                    byte_offset(c, i) as int,
                                    (byte_offset(c, i) + len) as int,
                                );
                                assert(range_pairs(escapes@) =~= old_r + seq![pair]);
                                assert(old_t + seq![ch] =~= text@);
                                lemma_convert_escape(c, i, len as nat, ch);
                                lemma_prepend_twice(
                                    old_t,
                                    old_r,
                                    seq![ch],
                                    seq![pair],
                                    convert_escapes(c, i + span),
                                );
                            }
                            k = k + span;
                        },
                    }
                },
            }
        }
        proof {
            lemma_convert_end(c);
            assert(c.take(c.len() as int) =~= c);
            assert(text@ + Seq::<char>::empty() =~= text@);
            assert(range_pairs(escapes@) + Seq::<(int, int)>::empty() =~= range_pairs(escapes@));
        }
        if escapes.len() == 0 {
            Ok(TokenValue::StringLiteral(StringLiteral { text: Cow::Borrowed(content), escapes }))
        } else {
            Ok(TokenValue::StringLiteral(StringLiteral { text: Cow::Owned(text), escapes }))
        }
    }
}

/// The escape sequences of `c` from char index `k` on, in order: each valid one as its byte
/// range and the char it stands for, each invalid one as the chars its bytes cover. The walk
/// goes on after a valid sequence at its end, and after an invalid one at the char after its
/// `\`.
pub open spec fn escapes_from(c: Seq<char>, k: int) -> Seq<Result<((int, int), char), Seq<char>>>
    decreases c.len() - k,
{
    if k < 0 || k >= c.len() {
        Seq::empty()
    } else if c[k] == '\\' {
        let e = c.skip(k);
        let (len, v) = escape_spec(e);
        match v {
            None => seq![Err(e.take(chars_within(e, len) as int))] + escapes_from(c, k + 1),
            Some(ch) => seq![Ok(((byte_offset(c, k) as int, (byte_offset(c, k) + len) as int), ch))]
                + escapes_from(c, k + escape_span(e)),
        }
    } else {
        escapes_from(c, k + 1)
    }
}

/// An escape sequence as [`Escapes`] gives it, taken by its model
pub open spec fn escape_item_view(r: Result<(Range<usize>, char), ErrorType>) -> Result<
    ((int, int), char),
    Seq<char>,
> {
    match r {
        Ok((range, ch)) => Ok(((range.start as int, range.end as int), ch)),
        Err(ErrorType::InvalidEscape(p)) => Err(p@),
        Err(_) => Err(Seq::empty()),
    }
}

/// Walks the escape sequences of the content of a string literal (delimiters excluded)
pub struct Escapes<'a> {
    source: &'a str,
    chars: Vec<char>,
    pos: usize,
    bytes: usize,
}

impl<'a> Escapes<'a> {
    /// Its invariant: `chars` are those of the text, and `bytes` is the byte offset of the
    /// char index `pos` where the walk goes on
    pub closed spec fn wf(&self) -> bool {
        &&& self.chars@ == self.source@
        &&& self.pos <= self.chars@.len()
        &&& self.bytes == byte_offset(self.source@, self.pos as int)
        &&& utf8_len(self.source@) <= usize::MAX
    }

    /// The text being walked
    pub closed spec fn text(&self) -> &'a str {
        self.source
    }

    /// The escape sequences still to come
    pub closed spec fn remaining(&self) -> Seq<Result<((int, int), char), Seq<char>>> {
        escapes_from(self.source@, self.pos as int)
    }

    /// Starts a walk over the escape sequences of `source`
    pub fn new(source: &'a str) -> (r: Self)
        ensures
            r.wf(),
            r.text() == source,
            r.remaining() == escapes_from(source@, 0),
    {
        let chars = chars_of(source);
        let _ = source.as_bytes().len();
        Escapes { source, chars, pos: 0, bytes: 0 }
    }

    /// The next escape sequence: its byte range and the char it stands for, or, when it is
    /// invalid, [`ErrorType::InvalidEscape`] with its text; [`None`] when there are no more.
    #[verifier::spinoff_prover]
    #[verifier::rlimit(30)]
    pub fn next(&mut self) -> (r: Option<Result<(Range<usize>, char), ErrorType<'a>>>)
        requires
            old(self).wf(),
        ensures
            final(self).wf(),
            final(self).text() == old(self).text(),
            match r {
                None => old(self).remaining().len() == 0 && final(self).remaining().len() == 0,
                Some(x) => old(self).remaining().len() > 0 && escape_item_view(x)
                    == old(self).remaining()[0] && final(self).remaining()
                    == old(self).remaining().drop_first() && (x matches Err(e)
                    ==> e is InvalidEscape),
            },
    {
        let ghost c = self.source@;
        let n = self.chars.len();
        let mut k = self.pos;
        let mut bytes = self.bytes;
        proof {
            lemma_byte_offset_mono(c, 0, c.len() as int);
            assert(c.take(c.len() as int) =~= c);
        }
        while k < n && self.chars[k] != '\\'
            invariant
                n == c.len(),
                self.chars@ == c,
                self.source@ == c,
                self.pos <= k <= n,
                utf8_len(c) <= usize::MAX,
                bytes == byte_offset(c, k as int),
                escapes_from(c, self.pos as int) == escapes_from(c, k as int),
            decreases n - k,
        {
            proof {
                lemma_byte_offset_step(c, k as int);
                lemma_byte_offset_mono(c, k + 1, c.len() as int);
                assert(c.take(c.len() as int) =~= c);
            }
            bytes = bytes + len_utf8(self.chars[k]);
            k = k + 1;
        }
        if k == n {
            self.pos = n;
            self.bytes = bytes;
            return None;
        }
        let ghost e = c.skip(k as int);
        assert(self.chars@.subrange(k as int, n as int) =~= e);
        match escape_char(self.chars.as_slice(), k, n) {
            Some((len, Ok(ch))) => {
                proof {
                    lemma_escape_bytes(e);
                }
                let span: usize = if n - k >= 2 && self.chars[k + 1] == 'x' {
                    4
                } else if n - k >= 2 && self.chars[k + 1] == 'o' {
                    5
                } else {
                    2
                };
                assert(span == escape_span(e));
                proof {
                    lemma_utf8_len_subrange(c, k as int, k + span);
                    assert(c.subrange(k as int, k + span) =~= e.take(span as int));
                    lemma_byte_offset_mono(c, k + span, c.len() as int);
                    assert(c.subrange(0, n as int) =~= c);
                }
                let end = skip_bytes(self.chars.as_slice(), 0, n, k, span, bytes);
                assert(end == bytes + len);
                self.pos = k + span;
                self.bytes = end;
                Some(Ok((Range { start: bytes, end: bytes + len }, ch)))
            },
            Some((len, Err(()))) => {
                let m = count_chars_within(self.chars.as_slice(), k, n, len);
                let bad = self.source.substring_char(k, k + m);
                assert(bad@ =~= e.take(m as int));
                proof {
                    lemma_byte_offset_step(c, k as int);
                    lemma_byte_offset_mono(c, k + 1, c.len() as int);
                }
                self.pos = k + 1;
                self.bytes = bytes + len_utf8(self.chars[k]);
                Some(Err(ErrorType::InvalidEscape(bad)))
            },
            None => {
                self.pos = k;
                self.bytes = bytes;
                None
            },
        }
    }
}

/// A sequence of ASCII chars takes one byte per char.
pub proof fn lemma_ascii_utf8_len(s: Seq<char>)
    requires
        all_ascii(s),
    ensures
        utf8_len(s) == s.len(),
    decreases s.len(),
{
    if s.len() > 0 {
        assert(s =~= s.take(s.len() - 1) + seq![s.last()]);
        lemma_ascii_utf8_len(s.take(s.len() - 1));
        lemma_utf8_len_concat(s.take(s.len() - 1), seq![s.last()]);
        lemma_utf8_len_single(s.last());
        lemma_char_width_bounds(s.last());
    }
}

/// A valid escape sequence spans exactly as many bytes as its chars take.
pub proof fn lemma_escape_bytes(e: Seq<char>)
    requires
        e.len() > 0,
        e[0] == '\\',
        escape_spec(e).1 is Some,
    ensures
        escape_span(e) <= e.len(),
        utf8_len(e.take(escape_span(e) as int)) == escape_spec(e).0,
{
    lemma_char_width_bounds(e[0]);
    let c = e[1];
    lemma_char_width_bounds(c);
    if c == 'x' || c == 'o' {
        let n = escape_span(e) as int;
        assert(e.take(n) =~= e.take(2) + e.subrange(2, n));
        lemma_utf8_len_concat(e.take(2), e.subrange(2, n));
        lemma_ascii_utf8_len(e.subrange(2, n));
    }
    assert(e.take(2) =~= seq![e[0]] + seq![c]);
    lemma_utf8_len_concat(seq![e[0]], seq![c]);
    lemma_utf8_len_single(e[0]);
    lemma_utf8_len_single(c);
}

} // verus!
