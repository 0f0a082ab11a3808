//! Errors regarding code validity
use crate::numeral::{decimal_text, push_decimal, IntErrorKind};
use crate::scanner::token::Token;
use crate::scanner::Bracket;
use crate::scanner::token::{TokenType, TokenValue};
use crate::text::{
    byte_offset, char_index, char_index_of, chars_of, is_boundary, lemma_byte_offset_mono,
    lemma_byte_offset_step, lemma_char_index_order, lemma_utf8_len_subrange, len_utf8, push_char,
    push_str, span_text, utf8_len,
};
use core::ops::Range;
use help::{article_text, help_text, push_article, push_help};
use vstd::prelude::*;

pub mod help;
pub mod render;

verus! {

/// The indefinite article that goes with an [`Expecting`] description
#[derive(Debug, Clone, Copy, PartialEq, Eq, Hash)]
pub enum Article {
    /// "a"
    A,
    /// "an"
    An,
}

/// A description of the token pattern that was expected
#[derive(Debug, Clone, Copy, PartialEq, Eq, Hash)]
pub struct Expecting {
    /// What was expected, such as "`let` keyword"
    pub expect: &'static str,
    /// Determines "a/an"; it cannot be derived from the spelling of [`Self::expect`].
    pub article: Article,
}

impl Expecting {
    /// An expectation introduced with "a"
    pub fn a(expect: &'static str) -> (r: Self)
        ensures
            r.expect == expect,
            r.article == Article::A,
    {
        Self { expect, article: Article::A }
    }

    /// An expectation introduced with "an"
    pub fn an(expect: &'static str) -> (r: Self)
        ensures
            r.expect == expect,
            r.article == Article::An,
    {
        Self { expect, article: Article::An }
    }
}

/// Invalid number literal
#[derive(Debug, Clone, Copy, PartialEq, Eq, Hash)]
pub enum NumLitError {
    /// Unsigned integer
    UInt(IntErrorKind),
    /// Signed integer
    SInt(IntErrorKind),
    /// Floating point: the text does not follow the float literal syntax
    Flt,
}

/// The kind of error describing a [`ContextError`]
#[derive(Debug, PartialEq, Eq)]
#[allow(inconsistent_fields)]
pub enum ErrorType<'a> {
    // lex
    /// Token type could not be identified from the initial character, and so is not a valid token
    UnknownToken,
    /// A block comment has no `*/` to end it
    EndlessBlockComment,
    /// A character literal that is just `''`
    EmptyCharLiteral,
    /// A character literal with multiple codepoints
    MultiCharLiteral,
    /// A character literal has no `'` to end it
    EndlessCharLiteral,
    /// A character literal has no `'` to end it, but contains a `\'`
    EscapedCharLiteralEnd,
    /// A string literal has no `"` to end it
    EndlessStringLiteral,
    /// A string or char literal has no closing delimiter to end it, but contains an escaped one
    EscapedStringLiteralEnd,
    /// A string/character literal contains an escape sequence (identified by a `\`) that does not exist
    InvalidEscape(&'a str),
    /// A number literal could not be evaluated as a number
    InvalidNumLiteral(NumLitError),
    // parse
    /// A closing bracket is of the wrong type for the open bracket at its depth
    IncorrectCloseBracket {
        /// The bracket type being expected based on the opening side, with the range of the opening side
        expect: (Bracket, Range<usize>),
        /// The bracket type that was found
        actual: Bracket,
    },
    /// A closing bracket was found with no open bracket
    ExcessCloseBracket {
        /// The bracket type that was found
        actual: Bracket,
    },
    /// An open bracket was found with no close bracket
    MissingCloseBracket {
        /// The bracket type being expected based on the opening side, with the range of the opening side
        expect: (Bracket, Range<usize>),
    },
    /// A token was expected, but instead found EOF
    MissingToken {
        /// The token pattern expected
        expect: Expecting,
    },
    /// A token was expected, but instead found `actual`
    UnexpectedToken {
        /// The token pattern expected
        expect: Expecting,
        /// The token found
        actual: Token<'a>,
    },
}

/// The mathematical content of an [`ErrorType`]: text payloads are taken by their chars.
#[allow(inconsistent_fields)]
pub enum ErrorModel {
    UnknownToken,
    EndlessBlockComment,
    EmptyCharLiteral,
    MultiCharLiteral,
    EndlessCharLiteral,
    EscapedCharLiteralEnd,
    EndlessStringLiteral,
    EscapedStringLiteralEnd,
    InvalidEscape(Seq<char>),
    InvalidNumLiteral(NumLitError),
    IncorrectCloseBracket { expect: (Bracket, Range<usize>), actual: Bracket },
    ExcessCloseBracket { actual: Bracket },
    MissingCloseBracket { expect: (Bracket, Range<usize>) },
    MissingToken { expect: Expecting },
    UnexpectedToken { expect: Expecting, actual: (Seq<char>, TokenType) },
}

impl<'a> Clone for ErrorType<'a> {
    fn clone(&self) -> (r: Self)
        ensures
            r@ == self@,
    {
        match self {
            ErrorType::UnknownToken => ErrorType::UnknownToken,
            ErrorType::EndlessBlockComment => ErrorType::EndlessBlockComment,
            ErrorType::EmptyCharLiteral => ErrorType::EmptyCharLiteral,
            ErrorType::MultiCharLiteral => ErrorType::MultiCharLiteral,
            ErrorType::EndlessCharLiteral => ErrorType::EndlessCharLiteral,
            ErrorType::EscapedCharLiteralEnd => ErrorType::EscapedCharLiteralEnd,
            ErrorType::EndlessStringLiteral => ErrorType::EndlessStringLiteral,
            ErrorType::EscapedStringLiteralEnd => ErrorType::EscapedStringLiteralEnd,
            ErrorType::InvalidEscape(s) => ErrorType::InvalidEscape(s),
            ErrorType::InvalidNumLiteral(e) => ErrorType::InvalidNumLiteral(*e),
            ErrorType::IncorrectCloseBracket { expect, actual } => ErrorType::IncorrectCloseBracket {
                expect: (expect.0, Range { start: expect.1.start, end: expect.1.end }),
                actual: *actual,
            },
            ErrorType::ExcessCloseBracket { actual } => ErrorType::ExcessCloseBracket {
                actual: *actual,
            },
            ErrorType::MissingCloseBracket { expect } => ErrorType::MissingCloseBracket {
                expect: (expect.0, Range { start: expect.1.start, end: expect.1.end }),
            },
            ErrorType::MissingToken { expect } => ErrorType::MissingToken { expect: *expect },
            ErrorType::UnexpectedToken { expect, actual } => ErrorType::UnexpectedToken {
                expect: *expect,
                actual: *actual,
            },
        }
    }
}

impl<'a> View for ErrorType<'a> {
    type V = ErrorModel;

    open spec fn view(&self) -> ErrorModel {
        match self {
            ErrorType::UnknownToken => ErrorModel::UnknownToken,
            ErrorType::EndlessBlockComment => ErrorModel::EndlessBlockComment,
            ErrorType::EmptyCharLiteral => ErrorModel::EmptyCharLiteral,
            ErrorType::MultiCharLiteral => ErrorModel::MultiCharLiteral,
            ErrorType::EndlessCharLiteral => ErrorModel::EndlessCharLiteral,
            ErrorType::EscapedCharLiteralEnd => ErrorModel::EscapedCharLiteralEnd,
            ErrorType::EndlessStringLiteral => ErrorModel::EndlessStringLiteral,
            ErrorType::EscapedStringLiteralEnd => ErrorModel::EscapedStringLiteralEnd,
            ErrorType::InvalidEscape(s) => ErrorModel::InvalidEscape(s@),
            ErrorType::InvalidNumLiteral(e) => ErrorModel::InvalidNumLiteral(*e),
            ErrorType::IncorrectCloseBracket { expect, actual } => ErrorModel::IncorrectCloseBracket {
                expect: *expect,
                actual: *actual,
            },
            ErrorType::ExcessCloseBracket { actual } => ErrorModel::ExcessCloseBracket {
                actual: *actual,
            },
            ErrorType::MissingCloseBracket { expect } => ErrorModel::MissingCloseBracket {
                expect: *expect,
            },
            ErrorType::MissingToken { expect } => ErrorModel::MissingToken { expect: *expect },
            ErrorType::UnexpectedToken { expect, actual } => ErrorModel::UnexpectedToken {
                expect: *expect,
                actual: (actual.src@, actual.ty),
            },
        }
    }
}

/// A code error with the range of the error in the source code
#[derive(Debug, PartialEq, Eq)]
pub struct ContextError<'a> {
    /// A string view of the FULL, ENTIRE source code
    pub source: &'a str,
    /// The byte range in [`Self::source`] of precisely where the error occurred
    pub range: Range<usize>,
    /// The exact error that was found
    pub err: ErrorType<'a>,
}

impl<'a> Clone for ContextError<'a> {
    fn clone(&self) -> (r: Self)
        ensures
            r.source == self.source,
            r.range == self.range,
            r.err@ == self.err@,
    {
        ContextError {
            source: self.source,
            range: Range { start: self.range.start, end: self.range.end },
            err: self.err.clone(),
        }
    }
}

/// A [`Token`] and its [`TokenValue`], or a [`ContextError`]
pub type TokenResult<'a> = Result<(Token<'a>, TokenValue<'a>), ContextError<'a>>;

impl Article {
    /// The word itself
    pub fn to_string(&self) -> (r: String)
        ensures
            r@ == article_text(*self),
    {
        let mut s = String::new();
        push_article(&mut s, *self);
        s
    }
}

/// What an [`IntErrorKind`] says when reading an unsigned integer fails
pub open spec fn int_error_text(k: IntErrorKind) -> Seq<char> {
    match k {
        IntErrorKind::Empty => "cannot parse integer from empty string"@,
        IntErrorKind::InvalidDigit => "invalid digit found in string"@,
        IntErrorKind::PosOverflow => "number too large to fit in target type"@,
        IntErrorKind::NegOverflow => "number too small to fit in target type"@,
    }
}

/// What a [`NumLitError`] says
pub open spec fn num_lit_error_text(e: NumLitError) -> Seq<char> {
    match e {
        NumLitError::UInt(k) => int_error_text(k),
        NumLitError::SInt(_) => "out of range integral type conversion attempted"@,
        NumLitError::Flt => "invalid float literal"@,
    }
}

impl NumLitError {
    /// The error message
    pub fn to_string(&self) -> (r: String)
        ensures
            r@ == num_lit_error_text(*self),
    {
        let mut s = String::new();
        push_num_lit_error(&mut s, *self);
        s
    }
}

/// Appends [`num_lit_error_text`] of `e`.
fn push_num_lit_error(s: &mut String, e: NumLitError)
    ensures
        final(s)@ == old(s)@ + num_lit_error_text(e),
{
    match e {
        NumLitError::UInt(IntErrorKind::Empty) => push_str(s, "cannot parse integer from empty string"),
        NumLitError::UInt(IntErrorKind::InvalidDigit) => push_str(s, "invalid digit found in string"),
        NumLitError::UInt(IntErrorKind::PosOverflow) => push_str(
            s,
            "number too large to fit in target type",
        ),
        NumLitError::UInt(IntErrorKind::NegOverflow) => push_str(
            s,
            "number too small to fit in target type",
        ),
        NumLitError::SInt(_) => push_str(s, "out of range integral type conversion attempted"),
        NumLitError::Flt => push_str(s, "invalid float literal"),
    }
}

/// How `str`'s `Debug` shows a string: quoted, with special chars escaped. Named for the
/// formatting that `{:?}` does.
pub uninterp spec fn debug_text(s: Seq<char>) -> Seq<char>;

/// Formats `s` with `{:?}` (`<str as Debug>::fmt`); claims only that the result is
/// [`debug_text`] of the chars of `s`.
#[verifier::external_body]
fn debug_str(s: &str) -> (r: String)
    ensures
        r@ == debug_text(s@),
{
    format!("{:?}", s)
}

/// What an error says
pub open spec fn error_text(e: ErrorModel) -> Seq<char> {
    match e {
        ErrorModel::UnknownToken => "unknown token"@,
        ErrorModel::EndlessBlockComment => "block comment opens (`/*`) but never closes (missing `*/`)"@,
        ErrorModel::EmptyCharLiteral => "empty character literal"@,
        ErrorModel::MultiCharLiteral => "character literal may only contain one codepoint"@,
        ErrorModel::EndlessCharLiteral | ErrorModel::EscapedCharLiteralEnd => "char literal opens (`'`) but never closes (missing unescaped `'`)"@,
        ErrorModel::EndlessStringLiteral | ErrorModel::EscapedStringLiteralEnd => "string literal opens (`\"`) but never closes (missing unescaped `\"`)"@,
        ErrorModel::InvalidEscape(s) => "unknown character escape: "@ + debug_text(s),
        ErrorModel::InvalidNumLiteral(e) => "invalid number literal: "@ + num_lit_error_text(e),
        ErrorModel::IncorrectCloseBracket { expect, actual } => "incorrect close bracket: expected `"@
            + seq![crate::scanner::close_char(expect.0)] + "`, found `"@ + seq![
            crate::scanner::close_char(actual),
        ] + "`"@,
        ErrorModel::ExcessCloseBracket { actual } => "too many close brackets: expected none, found `"@
            + seq![crate::scanner::close_char(actual)] + "`"@,
        ErrorModel::MissingCloseBracket { expect } => "missing close bracket: expected `"@ + seq![
            crate::scanner::close_char(expect.0),
        ] + "`, found none"@,
        ErrorModel::MissingToken { expect } => "missing "@ + article_text(expect.article) + " "@
            + expect.expect@,
        ErrorModel::UnexpectedToken { expect, actual } => "expected "@ + article_text(
            expect.article,
        ) + " "@ + expect.expect@ + ", found `"@ + actual.0 + "`"@,
    }
}

/// Appends a char.
fn push_one(s: &mut String, c: char)
    ensures
        final(s)@ == old(s)@ + seq![c],
{
    push_char(s, c);
    assert(old(s)@.push(c) =~= old(s)@ + seq![c]);
}

/// Appends [`error_text`] of `e`.
fn push_error_text(s: &mut String, e: &ErrorType)
    ensures
        final(s)@ == old(s)@ + error_text(e@),
{
    match e {
        ErrorType::UnknownToken => push_str(s, "unknown token"),
        ErrorType::EndlessBlockComment => push_str(
            s,
            "block comment opens (`/*`) but never closes (missing `*/`)",
        ),
        ErrorType::EmptyCharLiteral => push_str(s, "empty character literal"),
        ErrorType::MultiCharLiteral => push_str(s, "character literal may only contain one codepoint"),
        ErrorType::EndlessCharLiteral | ErrorType::EscapedCharLiteralEnd => push_str(
            s,
            "char literal opens (`'`) but never closes (missing unescaped `'`)",
        ),
        ErrorType::EndlessStringLiteral | ErrorType::EscapedStringLiteralEnd => push_str(
            s,
            "string literal opens (`\"`) but never closes (missing unescaped `\"`)",
        ),
        ErrorType::InvalidEscape(t) => {
            push_str(s, "unknown character escape: ");
            let d = debug_str(t);
            push_str(s, d.as_str());
        },
        ErrorType::InvalidNumLiteral(n) => {
            push_str(s, "invalid number literal: ");
            push_num_lit_error(s, *n);
        },
        ErrorType::IncorrectCloseBracket { expect, actual } => {
            push_str(s, "incorrect close bracket: expected `");
            push_one(s, expect.0.close());
            push_str(s, "`, found `");
            push_one(s, actual.close());
            push_str(s, "`");
        },
        ErrorType::ExcessCloseBracket { actual } => {
            push_str(s, "too many close brackets: expected none, found `");
            push_one(s, actual.close());
            push_str(s, "`");
        },
        ErrorType::MissingCloseBracket { expect } => {
            push_str(s, "missing close bracket: expected `");
            push_one(s, expect.0.close());
            push_str(s, "`, found none");
        },
        ErrorType::MissingToken { expect } => {
            push_str(s, "missing ");
            push_article(s, expect.article);
            push_str(s, " ");
            push_str(s, expect.expect);
        },
        ErrorType::UnexpectedToken { expect, actual } => {
            push_str(s, "expected ");
            push_article(s, expect.article);
            push_str(s, " ");
            push_str(s, expect.expect);
            push_str(s, ", found `");
            push_str(s, actual.src);
            push_str(s, "`");
        },
    }
}

impl<'a> ErrorType<'a> {
    /// The error message
    pub fn to_string(&self) -> (r: String)
        ensures
            r@ == error_text(self@),
    {
        let mut s = String::new();
        push_error_text(&mut s, self);
        s
    }
}

/// An error located by a byte range, not yet tied to the source code it was found in
#[derive(Debug, PartialEq, Eq)]
pub struct Error<'a> {
    /// The byte range of the error
    pub range: Range<usize>,
    /// The exact error that was found
    pub err: ErrorType<'a>,
}

impl<'a> Error<'a> {
    /// Ties the error to the source code it was found in
    pub fn add_context(self, source: &'a str) -> (r: ContextError<'a>)
        ensures
            r.source == source,
            r.range == self.range,
            r.err == self.err,
    {
        ContextError { source, range: self.range, err: self.err }
    }
}

/// The error spans `range` of `source`, and that span spells `text`
pub open spec fn spans(source: &str, range: Range<usize>, text: Seq<char>) -> bool {
    span_text(source@, range.start as int, range.end as int) == Some(text)
}

impl<'a> ContextError<'a> {
    /// `expected` was not found; `token`, which spans the bytes `range` of `source`, was found
    /// in its place.
    pub fn unexpected(token: Token<'a>, source: &'a str, range: Range<usize>, expected: Expecting) -> (r:
        ContextError<'a>)
        requires
            spans(source, range, token.src@),
        ensures
            r.source == source,
            r.range == range,
            r.err == (ErrorType::UnexpectedToken { expect: expected, actual: token }),
    {
        ContextError {
            source,
            range,
            err: ErrorType::UnexpectedToken { expect: expected, actual: token },
        }
    }

    /// `expected` was not found before the end of `source`.
    pub fn missing(source: &'a str, expected: Expecting) -> (r: ContextError<'a>)
        ensures
            r.source == source,
            r.range.start == utf8_len(source@),
            r.range.end == utf8_len(source@),
            r.err == (ErrorType::MissingToken { expect: expected }),
    {
        let n = source.as_bytes().len();
        ContextError {
            source,
            range: Range { start: n, end: n },
            err: ErrorType::MissingToken { expect: expected },
        }
    }

    /// `expected` was not found: [`Self::unexpected`] where a token (with its byte range) was
    /// found instead, [`Self::missing`] at the end of the source.
    pub fn missing_or_unexpected(
        token: Option<(Token<'a>, Range<usize>)>,
        source: &'a str,
        expected: Expecting,
    ) -> (r: ContextError<'a>)
        requires
            token matches Some((t, range)) ==> spans(source, range, t.src@),
        ensures
            r.source == source,
            match token {
                Some((t, range)) => r.range == range && r.err == (ErrorType::UnexpectedToken {
                    expect: expected,
                    actual: t,
                }),
                None => r.range.start == utf8_len(source@) && r.range.end == utf8_len(source@)
                    && r.err == (ErrorType::MissingToken { expect: expected }),
            },
    {
        match token {
            Some((t, range)) => Self::unexpected(t, source, range, expected),
            None => Self::missing(source, expected),
        }
    }

    /// Shows detailed line reference information
    pub fn render<'b>(&'b self) -> (r: RenderedContextError<'a, 'b>)
        ensures
            r.0 == self,
    {
        RenderedContextError(self)
    }

    /// Shows the error code (number)
    pub fn code<'b>(&'b self) -> (r: ContextErrorCode<'a, 'b>)
        ensures
            r.0 == self,
    {
        ContextErrorCode(self)
    }

    /// Shows tips for resolving the error
    pub fn help<'b>(&'b self) -> (r: ContextErrorHelp<'a, 'b>)
        ensures
            r.0 == self,
    {
        ContextErrorHelp(self)
    }
}

/// Errors found while scanning are in the `LEX` area; the others, found while parsing, in the
/// `GRA` area.
pub open spec fn is_lex_error(e: ErrorModel) -> bool {
    match e {
        ErrorModel::IncorrectCloseBracket { .. } | ErrorModel::ExcessCloseBracket { .. }
        | ErrorModel::MissingCloseBracket { .. } | ErrorModel::MissingToken { .. }
        | ErrorModel::UnexpectedToken { .. } => false,
        _ => true,
    }
}

/// The number of an error within its area
pub open spec fn error_number(e: ErrorModel) -> nat {
    match e {
        ErrorModel::UnknownToken => 0,
        ErrorModel::EndlessBlockComment => 1,
        ErrorModel::EmptyCharLiteral => 2,
        ErrorModel::MultiCharLiteral => 3,
        ErrorModel::EndlessCharLiteral => 4,
        ErrorModel::EscapedCharLiteralEnd => 5,
        ErrorModel::EndlessStringLiteral => 6,
        ErrorModel::EscapedStringLiteralEnd => 7,
        ErrorModel::InvalidEscape(_) => 8,
        ErrorModel::InvalidNumLiteral(_) => 9,
        ErrorModel::IncorrectCloseBracket { .. } => 10,
        ErrorModel::ExcessCloseBracket { .. } => 11,
        ErrorModel::MissingCloseBracket { .. } => 12,
        ErrorModel::MissingToken { .. } => 21,
        ErrorModel::UnexpectedToken { .. } => 22,
    }
}

/// `n < 1000` in three decimal digits, zero-padded
pub open spec fn three_digits(n: nat) -> Seq<char> {
    seq![
        crate::numeral::digit_char(n / 100),
        crate::numeral::digit_char(n / 10 % 10),
        crate::numeral::digit_char(n % 10),
    ]
}

/// The error code, such as `err[LEX003]`
pub open spec fn code_text(e: ErrorModel) -> Seq<char> {
    "err["@ + (if is_lex_error(e) {
        "LEX"@
    } else {
        "GRA"@
    }) + three_digits(error_number(e)) + "]"@
}

/// Shows the error code (number) of an error
pub struct ContextErrorCode<'a, 'b>(pub &'b ContextError<'a>);

impl<'a, 'b> ContextErrorCode<'a, 'b> {
    /// The error code, such as `err[LEX003]`
    pub fn to_string(&self) -> (r: String)
        ensures
            r@ == code_text(self.0.err@),
    {
        let e = &self.0.err;
        let n: u32 = match e {
            ErrorType::UnknownToken => 0,
            ErrorType::EndlessBlockComment => 1,
            ErrorType::EmptyCharLiteral => 2,
            ErrorType::MultiCharLiteral => 3,
            ErrorType::EndlessCharLiteral => 4,
            ErrorType::EscapedCharLiteralEnd => 5,
            ErrorType::EndlessStringLiteral => 6,
            ErrorType::EscapedStringLiteralEnd => 7,
            ErrorType::InvalidEscape(_) => 8,
            ErrorType::InvalidNumLiteral(_) => 9,
            ErrorType::IncorrectCloseBracket { .. } => 10,
            ErrorType::ExcessCloseBracket { .. } => 11,
            ErrorType::MissingCloseBracket { .. } => 12,
            ErrorType::MissingToken { .. } => 21,
            ErrorType::UnexpectedToken { .. } => 22,
        };
        let lex = match e {
            ErrorType::IncorrectCloseBracket { .. } | ErrorType::ExcessCloseBracket { .. }
            | ErrorType::MissingCloseBracket { .. } | ErrorType::MissingToken { .. }
            | ErrorType::UnexpectedToken { .. } => false,
            _ => true,
        };
        let mut s = String::new();
        push_str(&mut s, "err[");
        if lex {
            push_str(&mut s, "LEX");
        } else {
            push_str(&mut s, "GRA");
        }
        push_one(&mut s, ((n / 100) as u8 + 48u8) as char);
        push_one(&mut s, ((n / 10 % 10) as u8 + 48u8) as char);
        push_one(&mut s, ((n % 10) as u8 + 48u8) as char);
        push_str(&mut s, "]");
        s
    }
}

/// The tip for resolving error `e`; [`None`] where none can be made
pub open spec fn error_help(e: &ContextError) -> Option<Seq<char>> {
    match span_text(e.source@, e.range.start as int, e.range.end as int) {
        Some(src) => help_text(src, e.err@),
        None => None,
    }
}

/// The text of `source` between the byte offsets `start` and `end`
pub fn span_str<'s>(source: &'s str, start: usize, end: usize) -> (r: Option<&'s str>)
    ensures
        match span_text(source@, start as int, end as int) {
            Some(t) => r matches Some(x) && x@ == t,
            None => r is None,
        },
{
    let chars = chars_of(source);
    let _ = source.as_bytes().len();
    match (char_index_of(chars.as_slice(), start), char_index_of(chars.as_slice(), end)) {
        (Some(i), Some(j)) => {
            if start <= end {
                proof {
                    lemma_char_index_order(source@, start as int, end as int);
                }
                Some(source.substring_char(i, j))
            } else {
                None
            }
        },
        _ => None,
    }
}

/// Shows tips for resolving an error
pub struct ContextErrorHelp<'a, 'b>(pub &'b ContextError<'a>);

impl<'a, 'b> ContextErrorHelp<'a, 'b> {
    /// The tip for resolving the error
    pub fn to_string(&self) -> (r: String)
        requires
            error_help(self.0) is Some,
        ensures
            r@ == error_help(self.0)->0,
    {
        match self.try_to_string() {
            Some(s) => s,
            None => String::new(),
        }
    }

    /// The tip for resolving the error; [`None`] where no tip can be made of the text the
    /// error spans
    pub fn try_to_string(&self) -> (r: Option<String>)
        ensures
            match error_help(self.0) {
                Some(t) => r matches Some(s) && s@ == t,
                None => r is None,
            },
    {
        match span_str(self.0.source, self.0.range.start, self.0.range.end) {
            Some(src) => {
                let mut s = String::new();
                if push_help(&mut s, src, &self.0.err) {
                    assert(s@ =~= Seq::<char>::empty() + error_help(self.0)->0);
                    Some(s)
                } else {
                    None
                }
            },
            None => None,
        }
    }
}

/// Shows advanced error information with line references
pub struct RenderedContextError<'a, 'b>(pub &'b ContextError<'a>);

/// The line (row) and position (column) of a position in a string
#[derive(Debug, Clone, Copy, PartialEq, Eq, PartialOrd, Ord, Hash, Default)]
pub struct LineCol {
    /// The row
    ///
    /// 1-based index
    pub line: usize,
    /// The position within the row, in bytes
    ///
    /// 0-based index
    pub col: usize,
}

/// The number of `\n` in `s`
pub open spec fn count_newlines(s: Seq<char>) -> nat
    decreases s.len(),
{
    if s.len() == 0 {
        0
    } else {
        count_newlines(s.drop_last()) + if s.last() == '\n' {
            1nat
        } else {
            0nat
        }
    }
}

/// The char index where the last line of `s` starts: just after its last `\n`, or 0
pub open spec fn last_line_start(s: Seq<char>) -> int
    decreases s.len(),
{
    if s.len() == 0 {
        0
    } else if s.last() == '\n' {
        s.len() as int
    } else {
        last_line_start(s.drop_last())
    }
}

/// The line and column of the text `before` a position: the line counts the `\n` it holds
/// (from 1), the column is the byte length of its last line.
pub open spec fn line_col_of(before: Seq<char>) -> LineCol {
    LineCol {
        line: (count_newlines(before) + 1) as usize,
        col: utf8_len(before.skip(last_line_start(before))) as usize,
    }
}

/// The line and column of byte offset `position` within `s`, if it falls on a char boundary
pub open spec fn line_col_spec(s: Seq<char>, position: int) -> Option<LineCol> {
    if is_boundary(s, position) {
        Some(line_col_of(s.take(char_index(s, position))))
    } else {
        None
    }
}

/// A text holds no more `\n` than chars, and its last line starts within it.
pub proof fn lemma_line_facts(s: Seq<char>)
    ensures
        count_newlines(s) <= s.len(),
        0 <= last_line_start(s) <= s.len(),
    decreases s.len(),
{
    if s.len() > 0 {
        lemma_line_facts(s.drop_last());
    }
}

/// Between two prefixes of `s`, the longer holds as many `\n` or more; as many exactly when
/// its last line starts where that of the shorter does.
proof fn lemma_prefix_lines(s: Seq<char>, i: int, j: int)
    requires
        0 <= i <= j <= s.len(),
    ensures
        count_newlines(s.take(i)) <= count_newlines(s.take(j)),
        count_newlines(s.take(i)) == count_newlines(s.take(j)) ==> last_line_start(s.take(j))
            == last_line_start(s.take(i)),
    decreases j - i,
{
    if i < j {
        lemma_prefix_lines(s, i, j - 1);
        assert(s.take(j).drop_last() =~= s.take(j - 1));
        assert(s.take(j).last() == s[j - 1]);
    }
}

/// A later char boundary of `s` has a later or equal line and column: a greater line, or the
/// same line and a column no smaller.
pub proof fn lemma_line_col_order(s: Seq<char>, p: int, q: int)
    requires
        utf8_len(s) < usize::MAX,
        p <= q,
        line_col_spec(s, p) is Some,
        line_col_spec(s, q) is Some,
    ensures
        ({
            let a = line_col_spec(s, p)->0;
            let b = line_col_spec(s, q)->0;
            a.line < b.line || (a.line == b.line && a.col <= b.col)
        }),
{
    lemma_char_index_order(s, p, q);
    let i = char_index(s, p);
    let j = char_index(s, q);
    lemma_prefix_lines(s, i, j);
    lemma_line_facts(s.take(i));
    lemma_line_facts(s.take(j));
    lemma_byte_offset_mono(s, 0, s.len() as int);
    assert(s.take(s.len() as int) =~= s);
    let ci = count_newlines(s.take(i));
    let cj = count_newlines(s.take(j));
    assert(s.take(i).len() == i && s.take(j).len() == j);
    assert(ci + 1 <= usize::MAX && cj + 1 <= usize::MAX);
    if ci == cj {
        let l = last_line_start(s.take(i));
        assert(s.take(i).skip(l) =~= s.subrange(l, i));
        assert(s.take(j).skip(l) =~= s.subrange(l, j));
        lemma_utf8_len_subrange(s, l, i);
        lemma_utf8_len_subrange(s, l, j);
        lemma_byte_offset_mono(s, i, j);
        lemma_byte_offset_mono(s, j, s.len() as int);
        lemma_byte_offset_mono(s, l, i);
    }
}

impl LineCol {
    /// `line:col`
    pub fn to_string(&self) -> (r: String)
        ensures
            r@ == decimal_text(self.line as nat) + ":"@ + decimal_text(self.col as nat),
    {
        let mut s = String::new();
        push_decimal(&mut s, self.line);
        push_str(&mut s, ":");
        push_decimal(&mut s, self.col);
        s
    }
}

/// The line and column of `position` within `s`; [`None`] if `position` is past the end of `s`
/// or inside a char.
pub fn line_col(s: &str, position: usize) -> (r: Option<LineCol>)
    requires
        utf8_len(s@) < usize::MAX,
    ensures
        r == line_col_spec(s@, position as int),
{
    let chars = chars_of(s);
    let _ = s.as_bytes().len();
    match char_index_of(chars.as_slice(), position) {
        None => None,
        Some(idx) => {
            let mut i: usize = 0;
            let mut newlines: usize = 0;
            let mut start: usize = 0;
            let mut bytes: usize = 0;
            let mut start_bytes: usize = 0;
            while i < idx
                invariant
                    idx <= chars@.len(),
                    chars@ == s@,
                    utf8_len(s@) < usize::MAX,
                    i <= idx,
                    newlines == count_newlines(s@.take(i as int)),
                    start == last_line_start(s@.take(i as int)),
                    bytes == byte_offset(s@, i as int),
                    start_bytes == byte_offset(s@, start as int),
                    newlines <= i,
                    start <= i,
                decreases idx - i,
            {
                let ghost pre = s@.take(i as int);
                let ghost next = s@.take(i + 1);
                assert(next.drop_last() =~= pre);
                assert(next.last() == s@[i as int]);
                proof {
                    lemma_byte_offset_step(s@, i as int);
                    lemma_byte_offset_mono(s@, i + 1, s@.len() as int);
                    assert(s@.take(s@.len() as int) =~= s@);
                }
                bytes = bytes + len_utf8(chars[i]);
                if chars[i] == '\n' {
                    newlines = newlines + 1;
                    start = i + 1;
                    start_bytes = bytes;
                }
                i = i + 1;
            }
            proof {
                let before = s@.take(idx as int);
                lemma_utf8_len_subrange(s@, start as int, idx as int);
                assert(before.skip(start as int) =~= s@.subrange(start as int, idx as int));
                lemma_byte_offset_mono(s@, start as int, idx as int);
                lemma_byte_offset_mono(s@, 0, s@.len() as int);
                assert(s@.take(s@.len() as int) =~= s@);
            }
            Some(LineCol { line: newlines + 1, col: bytes - start_bytes })
        },
    }
}

/// The lines and columns of the ends of `range` within `s`
pub open spec fn line_col_range_spec(s: Seq<char>, range: Range<usize>) -> Option<Range<LineCol>> {
    match (line_col_spec(s, range.start as int), line_col_spec(s, range.end as int)) {
        (Some(a), Some(b)) => Some(Range { start: a, end: b }),
        _ => None,
    }
}

/// The lines and columns of the ends of `range` within `s`
pub fn line_col_range(s: &str, range: Range<usize>) -> (r: Option<Range<LineCol>>)
    requires
        utf8_len(s@) < usize::MAX,
    ensures
        r == line_col_range_spec(s@, range),
{
    match (line_col(s, range.start), line_col(s, range.end)) {
        (Some(a), Some(b)) => Some(Range { start: a, end: b }),
        _ => None,
    }
}

impl<'a> ContextError<'a> {
    /// The lines and columns where the error starts and ends
    pub fn position(&self) -> (r: Range<LineCol>)
        requires
            utf8_len(self.source@) < usize::MAX,
            line_col_range_spec(self.source@, self.range) is Some,
        ensures
            Some(r) == line_col_range_spec(self.source@, self.range),
    {
        match line_col_range(self.source, Range { start: self.range.start, end: self.range.end }) {
            Some(r) => r,
            None => Range { start: LineCol { line: 1, col: 0 }, end: LineCol { line: 1, col: 0 } },
        }
    }

    /// `at start-end: message`, with the ends as `line:col`
    pub fn to_string(&self) -> (r: String)
        requires
            utf8_len(self.source@) < usize::MAX,
            line_col_range_spec(self.source@, self.range) is Some,
        ensures
            ({
                let p = line_col_range_spec(self.source@, self.range)->0;
                r@ == "at "@ + decimal_text(p.start.line as nat) + ":"@ + decimal_text(
                    p.start.col as nat,
                ) + "-"@ + decimal_text(p.end.line as nat) + ":"@ + decimal_text(p.end.col as nat)
                    + ": "@ + error_text(self.err@)
            }),
    {
        let p = self.position();
        let mut s = String::new();
        push_str(&mut s, "at ");
        push_decimal(&mut s, p.start.line);
        push_str(&mut s, ":");
        push_decimal(&mut s, p.start.col);
        push_str(&mut s, "-");
        push_decimal(&mut s, p.end.line);
        push_str(&mut s, ":");
        push_decimal(&mut s, p.end.col);
        push_str(&mut s, ": ");
        push_error_text(&mut s, &self.err);
        s
    }
}

} // verus!
