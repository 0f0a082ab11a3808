//! Syntax categories used for highlighting, and the style table that colors them
use crate::error::{span_str, ContextError, TokenResult};
use crate::scanner::token::{Token, TokenType, TokenValue};
use crate::style::{Style, Styled};
use crate::text::{
    char_is_lowercase, char_is_uppercase, chars_of, is_lowercase, is_uppercase, span_text,
};
use vstd::prelude::*;

verus! {

/// Syntactic element category for highlighting
#[derive(Debug, Clone, Copy, PartialEq, Eq, Hash, Default, Structural)]
pub enum Syntax {
    /// Any element not described by other syntax categories
    #[default]
    Normal,
    /// Comments
    Comment,
    /// Any number literal
    NumberLiteral,
    /// A character literal (excluding escape sequences)
    CharLiteral,
    /// A string literal (excluding escape sequences)
    StringLiteral,
    /// The escape sequence of either a character or string literal
    EscapeSeq,
    /// A local variable, field, or function parameter
    Variable,
    /// A value that does not change at runtime
    Constant,
    /// A function, method, or variable being called
    Callable,
    /// A language keyword that defines items or variables
    Keyword,
    /// A language keyword that affects runtime state
    CtrlKeyword,
    /// The name of a macro
    MacroName,
    /// The name of a macro parameter
    MacroParam,
    /// A bracket with depth-based coloring (other punctuation handled with [`Self::Normal`])
    Bracket(usize),
    /// Syntax errors
    Invalid,
}

/// A style table for [`Syntax`] elements.
/// `T`: The type used for styling
#[derive(Debug, Clone, Copy, PartialEq, Eq, Hash, Default)]
pub struct SyntaxStyle<'a, T> {
    /// Style for [`Syntax::Normal`]
    pub normal: T,
    /// Style for [`Syntax::Comment`]
    pub comment: T,
    /// Style for [`Syntax::NumberLiteral`]
    pub number_literal: T,
    /// Style for [`Syntax::CharLiteral`]
    pub char_literal: T,
    /// Style for [`Syntax::StringLiteral`]
    pub string_literal: T,
    /// Style for interpolated string literals
    pub interp_str_literal: T,
    /// Style for [`Syntax::EscapeSeq`]
    pub escape_seq: T,
    /// Style for expressions interpolated into strings
    pub interp_expr: T,
    /// Style for [`Syntax::Variable`]
    pub variable: T,
    /// Style for [`Syntax::Constant`]
    pub constant: T,
    /// Style for [`Syntax::Callable`]
    pub callable: T,
    /// Style for [`Syntax::Keyword`]
    pub keyword: T,
    /// Style for [`Syntax::CtrlKeyword`]
    pub ctrl_keyword: T,
    /// Style for [`Syntax::MacroName`]
    pub macro_name: T,
    /// Style for [`Syntax::MacroParam`]
    pub macro_arg: T,
    /// Styles for [`Syntax::Bracket`], by depth (cycling)
    pub bracket: &'a [T],
    /// Style for [`Syntax::Invalid`]
    pub invalid: T,
}

impl<'a, T> SyntaxStyle<'a, T> {
    /// The style for `index`: brackets cycle through [`Self::bracket`] by depth
    pub open spec fn style_for(&self, index: Syntax) -> T {
        match index {
            Syntax::Normal => self.normal,
            Syntax::Comment => self.comment,
            Syntax::NumberLiteral => self.number_literal,
            Syntax::CharLiteral => self.char_literal,
            Syntax::StringLiteral => self.string_literal,
            Syntax::EscapeSeq => self.escape_seq,
            Syntax::Variable => self.variable,
            Syntax::Constant => self.constant,
            Syntax::Callable => self.callable,
            Syntax::Keyword => self.keyword,
            Syntax::CtrlKeyword => self.ctrl_keyword,
            Syntax::MacroName => self.macro_name,
            Syntax::MacroParam => self.macro_arg,
            Syntax::Bracket(depth) => self.bracket@[(depth as nat % self.bracket@.len()) as int],
            Syntax::Invalid => self.invalid,
        }
    }

    /// The style for `index`; a bracket's style is picked from [`Self::bracket`] by its depth,
    /// which must then be non-empty
    pub fn index(&self, index: Syntax) -> (r: &T)
        requires
            index is Bracket ==> self.bracket@.len() > 0,
        ensures
            *r == self.style_for(index),
    {
        match index {
            Syntax::Normal => &self.normal,
            Syntax::Comment => &self.comment,
            Syntax::NumberLiteral => &self.number_literal,
            Syntax::CharLiteral => &self.char_literal,
            Syntax::StringLiteral => &self.string_literal,
            Syntax::EscapeSeq => &self.escape_seq,
            Syntax::Variable => &self.variable,
            Syntax::Constant => &self.constant,
            Syntax::Callable => &self.callable,
            Syntax::Keyword => &self.keyword,
            Syntax::CtrlKeyword => &self.ctrl_keyword,
            Syntax::MacroName => &self.macro_name,
            Syntax::MacroParam => &self.macro_arg,
            Syntax::Bracket(depth) => &self.bracket[depth % self.bracket.len()],
            Syntax::Invalid => &self.invalid,
        }
    }
}

impl<'a> SyntaxStyle<'a, Style> {
    /// `what` in the style for `syntax`
    pub fn stylize<'b>(&self, syntax: Syntax, what: &'b str) -> (r: Styled<'b>)
        requires
            syntax is Bracket ==> self.bracket@.len() > 0,
        ensures
            r.style == self.style_for(syntax),
            r.inner == what,
    {
        Styled { style: *self.index(syntax), inner: what }
    }
}

/// Whether an identifier names a constant: constants are all-caps (some uppercase char, no
/// lowercase one)
pub open spec fn is_constant_name(s: Seq<char>) -> bool {
    &&& exists|i: int| 0 <= i < s.len() && is_uppercase(#[trigger] s[i])
    &&& !exists|i: int| 0 <= i < s.len() && is_lowercase(#[trigger] s[i])
}

/// The highlighting category of a token of type `ty` spelled `src`
pub open spec fn token_syntax(ty: TokenType, src: Seq<char>) -> Syntax {
    match ty {
        TokenType::Comment => Syntax::Comment,
        TokenType::NumberLiteral => Syntax::NumberLiteral,
        TokenType::BoolLiteral => Syntax::Keyword,
        TokenType::CharLiteral => Syntax::CharLiteral,
        TokenType::StringLiteral => Syntax::StringLiteral,
        TokenType::Identifier => if is_constant_name(src) {
            Syntax::Constant
        } else {
            Syntax::Variable
        },
        TokenType::Callable => Syntax::Callable,
        TokenType::Keyword => Syntax::Keyword,
        TokenType::CtrlKeyword => Syntax::CtrlKeyword,
        TokenType::Macro => Syntax::MacroName,
        TokenType::MacroParam => Syntax::MacroParam,
        TokenType::Bracket(depth) => Syntax::Bracket(depth),
        TokenType::Whitespace | TokenType::Punctuation => Syntax::Normal,
    }
}

/// Whether `s` is all-caps: it holds an uppercase char and no lowercase one
fn constant_name(s: &str) -> (r: bool)
    ensures
        r == is_constant_name(s@),
{
    let chars = chars_of(s);
    let mut any_upper = false;
    let mut any_lower = false;
    let mut i: usize = 0;
    while i < chars.len()
        invariant
            chars@ == s@,
            i <= chars@.len(),
            any_upper == exists|j: int| 0 <= j < i && is_uppercase(#[trigger] s@[j]),
            any_lower == exists|j: int| 0 <= j < i && is_lowercase(#[trigger] s@[j]),
        decreases chars@.len() - i,
    {
        if char_is_uppercase(chars[i]) {
            any_upper = true;
        }
        if char_is_lowercase(chars[i]) {
            any_lower = true;
        }
        i = i + 1;
    }
    any_upper && !any_lower
}

/// The highlighting category of a token
pub fn token_syntax_of(token: &Token) -> (r: Syntax)
    ensures
        r == token_syntax(token.ty, token.src@),
{
    match token.ty {
        TokenType::Comment => Syntax::Comment,
        TokenType::NumberLiteral => Syntax::NumberLiteral,
        TokenType::BoolLiteral => Syntax::Keyword,
        TokenType::CharLiteral => Syntax::CharLiteral,
        TokenType::StringLiteral => Syntax::StringLiteral,
        TokenType::Identifier => if constant_name(token.src) {
            Syntax::Constant
        } else {
            Syntax::Variable
        },
        TokenType::Callable => Syntax::Callable,
        TokenType::Keyword => Syntax::Keyword,
        TokenType::CtrlKeyword => Syntax::CtrlKeyword,
        TokenType::Macro => Syntax::MacroName,
        TokenType::MacroParam => Syntax::MacroParam,
        TokenType::Bracket(depth) => Syntax::Bracket(depth),
        TokenType::Whitespace | TokenType::Punctuation => Syntax::Normal,
    }
}

/// The text an error spans
pub open spec fn error_span(e: &ContextError) -> Option<Seq<char>> {
    span_text(e.source@, e.range.start as int, e.range.end as int)
}

/// Identifies the [`Syntax`] of a [`TokenResult`], with its text and value. All [`Err`]s are
/// [`Syntax::Invalid`], spanning the text of the error and valued [`TokenValue::Ignore`].
pub fn syntax_of<'a, 'b>(item: &'b TokenResult<'a>) -> (r: (&'a str, Syntax, &'b TokenValue<'a>))
    requires
        item matches Err(e) ==> error_span(&e) is Some,
    ensures
        match item {
            Ok((token, value)) => r.0 == token.src && r.1 == token_syntax(token.ty, token.src@)
                && r.2 == value,
            Err(e) => r.0@ == error_span(&e)->0 && r.1 == Syntax::Invalid && *r.2
                == TokenValue::Ignore,
        },
{
    match item {
        Ok((token, value)) => (token.src, token_syntax_of(token), value),
        Err(e) => match span_str(e.source, e.range.start, e.range.end) {
            Some(src) => (src, Syntax::Invalid, &TokenValue::Ignore),
            None => (e.source, Syntax::Invalid, &TokenValue::Ignore),
        },
    }
}


/// Each token type is highlighted in its own category, whatever its text: a comment as
/// [`Syntax::Comment`], a number literal as [`Syntax::NumberLiteral`], a char or string literal
/// as [`Syntax::CharLiteral`] or [`Syntax::StringLiteral`], a callable, keyword, control
/// keyword, macro name or macro parameter in the category of that name, a boolean literal as a
/// keyword, a bracket by its depth, whitespace and other punctuation as normal text; an
/// identifier is a constant when it is all-caps and a variable otherwise.
pub proof fn lemma_token_categories(s: Seq<char>, depth: usize)
    ensures
        token_syntax(TokenType::Comment, s) == Syntax::Comment,
        token_syntax(TokenType::NumberLiteral, s) == Syntax::NumberLiteral,
        token_syntax(TokenType::CharLiteral, s) == Syntax::CharLiteral,
        token_syntax(TokenType::StringLiteral, s) == Syntax::StringLiteral,
        token_syntax(TokenType::Callable, s) == Syntax::Callable,
        token_syntax(TokenType::Keyword, s) == Syntax::Keyword,
        token_syntax(TokenType::CtrlKeyword, s) == Syntax::CtrlKeyword,
        token_syntax(TokenType::Macro, s) == Syntax::MacroName,
        token_syntax(TokenType::MacroParam, s) == Syntax::MacroParam,
        token_syntax(TokenType::BoolLiteral, s) == Syntax::Keyword,
        token_syntax(TokenType::Bracket(depth), s) == Syntax::Bracket(depth),
        token_syntax(TokenType::Whitespace, s) == Syntax::Normal,
        token_syntax(TokenType::Punctuation, s) == Syntax::Normal,
        token_syntax(TokenType::Identifier, s) == (if is_constant_name(s) {
            Syntax::Constant
        } else {
            Syntax::Variable
        }),
{
}

} // verus!
