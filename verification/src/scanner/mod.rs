//! The scanner that breaks source code into tokens (which are defined in the [`token`] module).
use crate::error::{ContextError, ErrorModel, ErrorType, TokenResult};
use crate::text::{
    lemma_utf8_len_sub, lemma_utf8_len_subrange, byte_offset, char_is_alphabetic, char_is_alphanumeric, char_is_numeric, char_is_whitespace,
    chars_of, is_alphabetic, is_alphanumeric, is_ascii_punctuation, is_numeric, is_whitespace,
    ascii_punctuation, len_utf8, lemma_byte_offset_mono, lemma_byte_offset_step, utf8_len,
};
use core::ops::Range;
use std::borrow::Cow;
use token::{
    holds_char, keyword_text, lemma_punc_prefix_spelling, punctuation_text, text_is, utf8_len_of, char_value, keyword_of, keyword_type, number_value, punc_prefix,
    string_value, value_result, Keyword, KeywordType, Punctuation, Token, TokenType, TokenValue,
    ValueModel,
};
use vstd::prelude::*;
use vstd::utf8::encode_utf8;

pub mod symbols;
pub mod token;

verus! {

/// A bracket character
#[derive(Debug, Clone, Copy, PartialEq, Eq, Hash, Structural)]
pub enum Bracket {
    /// `[`/`]`
    Brack,
    /// `(`/`)`
    Paren,
    /// `{`/`}`
    Brace,
}

/// The open partner of a bracket
pub open spec fn open_char(b: Bracket) -> char {
    match b {
        Bracket::Brack => '[',
        Bracket::Paren => '(',
        Bracket::Brace => '{',
    }
}

/// The close partner of a bracket
pub open spec fn close_char(b: Bracket) -> char {
    match b {
        Bracket::Brack => ']',
        Bracket::Paren => ')',
        Bracket::Brace => '}',
    }
}

impl Bracket {
    /// The open partner of the bracket
    pub fn open(self) -> (c: char)
        ensures
            c == open_char(self),
    {
        match self {
            Self::Brack => '[',
            Self::Paren => '(',
            Self::Brace => '{',
        }
    }

    /// The close partner of the bracket
    pub fn close(self) -> (c: char)
        ensures
            c == close_char(self),
    {
        match self {
            Self::Brack => ']',
            Self::Paren => ')',
            Self::Brace => '}',
        }
    }
}


/// What one step of the scanner produces
pub enum LexItem {
    /// A token of the given type, with the model of its value
    Token(TokenType, ValueModel),
    /// An error of the given kind
    Error(ErrorModel),
}

/// A char that may continue an identifier, macro name or macro parameter name
pub open spec fn is_ident_char(c: char) -> bool {
    is_alphanumeric(c) || c == '_' || c == '\''
}

/// The end of the run of whitespace starting at `i`
pub open spec fn whitespace_end(s: Seq<char>, i: int) -> int
    decreases s.len() - i,
{
    if i < 0 || i >= s.len() || !is_whitespace(s[i]) {
        i
    } else {
        whitespace_end(s, i + 1)
    }
}

/// The end of the run of identifier chars starting at `i`
pub open spec fn ident_end(s: Seq<char>, i: int) -> int
    decreases s.len() - i,
{
    if i < 0 || i >= s.len() || !is_ident_char(s[i]) {
        i
    } else {
        ident_end(s, i + 1)
    }
}

/// Index of the first `d` at or after `i` that is not escaped; `esc` tells whether `s[i]`
/// follows an unescaped `\`.
pub open spec fn find_unescaped(s: Seq<char>, i: int, d: char, esc: bool) -> Option<int>
    decreases s.len() - i,
{
    if i < 0 || i >= s.len() {
        None
    } else if !esc && s[i] == d {
        Some(i)
    } else {
        find_unescaped(s, i + 1, d, !esc && s[i] == '\\')
    }
}

/// The state carried while reading a number literal
pub struct NumState {
    /// No char has been read yet
    pub first: bool,
    /// No `.` has been read yet
    pub first_decimal: bool,
    /// No `-` has followed an `e` yet
    pub first_e_neg: bool,
    /// The previous char was `e`/`E`
    pub prev_e: bool,
    /// An `e`/`E` has been read
    pub following_e: bool,
}

/// The state before a number literal
pub open spec fn num_start_state() -> NumState {
    NumState {
        first: true,
        first_decimal: true,
        first_e_neg: true,
        prev_e: false,
        following_e: false,
    }
}

/// The end of the chars that may belong to a number literal starting at `i`: alphanumerics,
/// one `.` before any exponent, a leading `-`, and one `-` right after an `e`/`E`.
pub open spec fn number_end(s: Seq<char>, i: int, st: NumState) -> int
    decreases s.len() - i,
{
    if i < 0 || i >= s.len() {
        i
    } else {
        let ch = s[i];
        let (cont, first_decimal, first_e_neg) = if is_alphanumeric(ch) {
            (true, st.first_decimal, st.first_e_neg)
        } else if ch == '.' {
            (st.first_decimal && !st.following_e, false, st.first_e_neg)
        } else if ch == '-' {
            if st.first {
                (true, st.first_decimal, st.first_e_neg)
            } else if st.prev_e {
                (st.first_e_neg, st.first_decimal, false)
            } else {
                (false, st.first_decimal, st.first_e_neg)
            }
        } else {
            (false, st.first_decimal, st.first_e_neg)
        };
        if !cont {
            i
        } else {
            let prev_e = ch == 'e' || ch == 'E';
            number_end(
                s,
                i + 1,
                NumState {
                    first: false,
                    first_decimal,
                    first_e_neg,
                    prev_e,
                    following_e: st.following_e || prev_e,
                },
            )
        }
    }
}

/// `hi` moved left past any trailing `.` and `-`; a number literal starts with a numeric char
/// or `-` and a numeric char, so only chars after its first are trimmed.
pub open spec fn trim_number_end(s: Seq<char>, lo: int, hi: int) -> int
    decreases hi - lo,
{
    if hi > lo + 1 && (s[hi - 1] == '.' || s[hi - 1] == '-') {
        trim_number_end(s, lo, hi - 1)
    } else {
        hi
    }
}

/// Index of the first `\n` at or after `i`, or the length
pub open spec fn newline_from(s: Seq<char>, i: int) -> int
    decreases s.len() - i,
{
    if i < 0 || i >= s.len() || s[i] == '\n' {
        i
    } else {
        newline_from(s, i + 1)
    }
}

/// Where a line comment starting at `i` ends: at the first `\n` or `\r` from `i` on, or at the
/// end of `s` (a line comment is `//[^\n\r]*`)
pub open spec fn line_end(s: Seq<char>, i: int) -> int
    decreases s.len() - i,
{
    if i < 0 || i >= s.len() || s[i] == '\n' || s[i] == '\r' {
        i
    } else {
        line_end(s, i + 1)
    }
}

/// Index of the `/` that closes a block comment whose body starts at `i`; `/*` inside the body
/// opens a nested comment that its own `*/` closes.
pub open spec fn block_close(s: Seq<char>, i: int, prev: Option<char>, depth: nat) -> Option<int>
    decreases s.len() - i,
{
    if i < 0 || i >= s.len() {
        None
    } else {
        let ch = s[i];
        if prev == Some('*') && ch == '/' {
            if depth == 0 {
                Some(i)
            } else {
                block_close(s, i + 1, Some(ch), (depth - 1) as nat)
            }
        } else if prev == Some('/') && ch == '*' {
            block_close(s, i + 1, Some(ch), depth + 1)
        } else {
            block_close(s, i + 1, Some(ch), depth)
        }
    }
}

/// Whether a number literal starts at `pos`: a numeric char, or a `-` and a numeric char where
/// a negative number may stand.
pub open spec fn starts_number(s: Seq<char>, pos: int, can_be_negative: bool) -> bool {
    if s[pos] == '-' && can_be_negative {
        pos + 1 < s.len() && is_numeric(s[pos + 1])
    } else {
        is_numeric(s[pos])
    }
}

/// A literal token, or the error its value gives
pub open spec fn literal_item(ty: TokenType, v: Result<ValueModel, ErrorModel>) -> LexItem {
    match v {
        Ok(m) => LexItem::Token(ty, m),
        Err(e) => LexItem::Error(e),
    }
}

/// The word `true`
pub open spec fn true_text() -> Seq<char> {
    seq!['t', 'r', 'u', 'e']
}

/// The word `false`
pub open spec fn false_text() -> Seq<char> {
    seq!['f', 'a', 'l', 's', 'e']
}

/// The token for the word `s[pos..end]`
pub open spec fn word_item(s: Seq<char>, pos: int, end: int) -> LexItem {
    let w = s.subrange(pos, end);
    match keyword_of(w) {
        Some(k) => LexItem::Token(
            if keyword_type(k) == KeywordType::Control {
                TokenType::CtrlKeyword
            } else {
                TokenType::Keyword
            },
            ValueModel::Keyword(k),
        ),
        None => if w == true_text() {
            LexItem::Token(TokenType::BoolLiteral, ValueModel::BoolLiteral(true))
        } else if w == false_text() {
            LexItem::Token(TokenType::BoolLiteral, ValueModel::BoolLiteral(false))
        } else if end < s.len() && s[end] == '(' {
            LexItem::Token(TokenType::Callable, ValueModel::Direct(w))
        } else {
            LexItem::Token(TokenType::Identifier, ValueModel::Direct(w))
        },
    }
}

/// The item for a string or char literal opening with `d` at `pos`, and where it ends
pub open spec fn quoted_step(s: Seq<char>, pos: int, d: char) -> (LexItem, int) {
    match find_unescaped(s, pos + 1, d, false) {
        Some(close) => {
            let lexeme = s.subrange(pos, close + 1);
            if d == '"' {
                (literal_item(TokenType::StringLiteral, string_value(lexeme)), close + 1)
            } else {
                (literal_item(TokenType::CharLiteral, char_value(lexeme)), close + 1)
            }
        },
        None => (
            LexItem::Error(
                if s.subrange(pos + 1, s.len() as int).contains(d) {
                    ErrorModel::EscapedStringLiteralEnd
                } else if d == '\'' {
                    ErrorModel::EndlessCharLiteral
                } else {
                    ErrorModel::EndlessStringLiteral
                },
            ),
            s.len() as int,
        ),
    }
}

/// One step of the scanner on `s` at char index `pos`: the item found and where it ends.
/// The item spans `s[pos..end]`; an error item covers what could not be scanned.
pub open spec fn lex_step(s: Seq<char>, pos: int, can_be_negative: bool) -> (LexItem, int) {
    let c = s[pos];
    if is_whitespace(c) {
        (LexItem::Token(TokenType::Whitespace, ValueModel::Ignore), whitespace_end(s, pos))
    } else if c == '\\' || c == '$' {
        let end = ident_end(s, pos + 1);
        (
            LexItem::Token(
                if c == '\\' {
                    TokenType::Macro
                } else {
                    TokenType::MacroParam
                },
                ValueModel::Direct(s.subrange(pos, end)),
            ),
            end,
        )
    } else if c == '"' || c == '\'' {
        quoted_step(s, pos, c)
    } else if is_alphabetic(c) || c == '_' {
        let end = ident_end(s, pos);
        (word_item(s, pos, end), end)
    } else if starts_number(s, pos, can_be_negative) {
        let end = trim_number_end(s, pos, number_end(s, pos, num_start_state()));
        (literal_item(TokenType::NumberLiteral, number_value(s.subrange(pos, end))), end)
    } else if c == '/' && pos + 1 < s.len() && s[pos + 1] == '/' {
        (LexItem::Token(TokenType::Comment, ValueModel::Ignore), line_end(s, pos))
    } else if c == '/' && pos + 1 < s.len() && s[pos + 1] == '*' {
        match block_close(s, pos + 2, None, 0) {
            Some(i) => (LexItem::Token(TokenType::Comment, ValueModel::Ignore), i + 1),
            None => (LexItem::Error(ErrorModel::EndlessBlockComment), s.len() as int),
        }
    } else if is_ascii_punctuation(c) {
        match punc_prefix(s.skip(pos)) {
            Some((p, n)) => (
                LexItem::Token(TokenType::Punctuation, ValueModel::Punctuation(p)),
                pos + n,
            ),
            None => (LexItem::Error(ErrorModel::UnknownToken), pos + 1),
        }
    } else {
        (LexItem::Error(ErrorModel::UnknownToken), pos + 1)
    }
}

/// Whether a `-` may start a negative number after `item`: the last token that was neither
/// whitespace nor a comment is punctuation other than a close bracket (errors change nothing).
pub open spec fn next_can_be_negative(item: LexItem, can_be_negative: bool) -> bool {
    match item {
        LexItem::Token(TokenType::Whitespace, _) | LexItem::Token(TokenType::Comment, _)
        | LexItem::Error(_) => can_be_negative,
        LexItem::Token(_, ValueModel::Punctuation(p)) => !(p == Punctuation::RParen || p
            == Punctuation::RBrack || p == Punctuation::RBrace),
        LexItem::Token(_, _) => false,
    }
}


proof fn lemma_whitespace_end(s: Seq<char>, i: int)
    requires
        0 <= i <= s.len(),
    ensures
        i <= whitespace_end(s, i) <= s.len(),
        i < s.len() && is_whitespace(s[i]) ==> i < whitespace_end(s, i),
    decreases s.len() - i,
{
    if i < s.len() && is_whitespace(s[i]) {
        lemma_whitespace_end(s, i + 1);
    }
}

proof fn lemma_ident_end(s: Seq<char>, i: int)
    requires
        0 <= i <= s.len(),
    ensures
        i <= ident_end(s, i) <= s.len(),
        i < s.len() && is_ident_char(s[i]) ==> i < ident_end(s, i),
    decreases s.len() - i,
{
    if i < s.len() && is_ident_char(s[i]) {
        lemma_ident_end(s, i + 1);
    }
}

/// What [`find_unescaped`] finds is a `d` at or after where it starts.
pub proof fn lemma_find_unescaped(s: Seq<char>, i: int, d: char, esc: bool)
    requires
        0 <= i,
    ensures
        find_unescaped(s, i, d, esc) matches Some(k) ==> i <= k < s.len() && s[k] == d,
    decreases s.len() - i,
{
    if i < s.len() && !(!esc && s[i] == d) {
        lemma_find_unescaped(s, i + 1, d, !esc && s[i] == '\\');
    }
}

proof fn lemma_number_end(s: Seq<char>, i: int, st: NumState)
    requires
        0 <= i <= s.len(),
    ensures
        i <= number_end(s, i, st) <= s.len(),
        i < s.len() && (is_alphanumeric(s[i]) || (st.first && s[i] == '-')) ==> i < number_end(
            s,
            i,
            st,
        ),
    decreases s.len() - i,
{
    if i < s.len() {
        let ch = s[i];
        let prev_e = ch == 'e' || ch == 'E';
        lemma_number_end(
            s,
            i + 1,
            NumState {
                first: false,
                first_decimal: if !is_alphanumeric(ch) && ch == '.' {
                    false
                } else {
                    st.first_decimal
                },
                first_e_neg: if !is_alphanumeric(ch) && ch == '-' && !st.first && st.prev_e {
                    false
                } else {
                    st.first_e_neg
                },
                prev_e,
                following_e: st.following_e || prev_e,
            },
        );
    }
}

proof fn lemma_trim_number_end(s: Seq<char>, lo: int, hi: int)
    requires
        lo <= hi,
    ensures
        lo <= trim_number_end(s, lo, hi) <= hi,
        hi > lo ==> trim_number_end(s, lo, hi) > lo,
    decreases hi - lo,
{
    if hi > lo + 1 && (s[hi - 1] == '.' || s[hi - 1] == '-') {
        lemma_trim_number_end(s, lo, hi - 1);
    }
}

proof fn lemma_line_end(s: Seq<char>, i: int)
    requires
        0 <= i <= s.len(),
    ensures
        i <= line_end(s, i) <= s.len(),
    decreases s.len() - i,
{
    if i < s.len() && s[i] != '\n' && s[i] != '\r' {
        lemma_line_end(s, i + 1);
    }
}

proof fn lemma_block_close(s: Seq<char>, i: int, prev: Option<char>, depth: nat)
    requires
        0 <= i,
    ensures
        block_close(s, i, prev, depth) matches Some(k) ==> i <= k < s.len(),
    decreases s.len() - i,
{
    if i < s.len() {
        let ch = s[i];
        if prev == Some('*') && ch == '/' {
            if depth != 0 {
                lemma_block_close(s, i + 1, Some(ch), (depth - 1) as nat);
            }
        } else if prev == Some('/') && ch == '*' {
            lemma_block_close(s, i + 1, Some(ch), depth + 1);
        } else {
            lemma_block_close(s, i + 1, Some(ch), depth);
        }
    }
}

/// Each step of the scanner consumes at least one char and stays within the source.
pub proof fn lemma_lex_step_progress(s: Seq<char>, pos: int, can_be_negative: bool)
    requires
        0 <= pos < s.len(),
    ensures
        pos < lex_step(s, pos, can_be_negative).1 <= s.len(),
{
    let c = s[pos];
    lemma_whitespace_end(s, pos);
    lemma_ident_end(s, pos);
    lemma_ident_end(s, pos + 1);
    lemma_find_unescaped(s, pos + 1, c, false);
    lemma_number_end(s, pos, num_start_state());
    lemma_trim_number_end(s, pos, number_end(s, pos, num_start_state()));
    lemma_line_end(s, pos + 1);
    if c == '/' {
        assert(line_end(s, pos) == line_end(s, pos + 1));
    }
    lemma_block_close(s, pos + 2, None, 0);
    if is_ascii_punctuation(c) {
        let t = s.skip(pos);
        assert(t[0] == c);
        if t.len() >= 2 {
            assert(t[1] == s[pos + 1]);
        }
        if t.len() >= 3 {
            assert(t[2] == s[pos + 2]);
        }
    }
}


/// All the items the scanner produces from char index `pos` on, each with its char span
pub open spec fn lex_from(s: Seq<char>, pos: int, can_be_negative: bool) -> Seq<(LexItem, int, int)>
    decreases s.len() - pos,
{
    if pos < 0 || pos >= s.len() {
        seq![]
    } else {
        let (item, end) = lex_step(s, pos, can_be_negative);
        proof {
            lemma_lex_step_progress(s, pos, can_be_negative);
        }
        seq![(item, pos, end)] + lex_from(s, end, next_can_be_negative(item, can_be_negative))
    }
}

/// All the items the scanner produces from the source `s`, each with its char span
pub open spec fn lex(s: Seq<char>) -> Seq<(LexItem, int, int)> {
    lex_from(s, 0, true)
}

/// Whether `r` is the item `item` spanning chars `start..end` of `source`; a string literal's
/// text is borrowed from the source exactly when it has no escape sequences
pub open spec fn result_is(r: TokenResult, item: LexItem, source: &str, start: int, end: int) -> bool {
    match r {
        Ok((tok, val)) => {
            &&& item == LexItem::Token(tok.ty, val@)
            &&& tok.src@ == source@.subrange(start, end)
            &&& val matches TokenValue::StringLiteral(l) ==> (l.escapes@.len() == 0
                <==> l.text matches Cow::Borrowed(_))
        },
        Err(e) => {
            &&& item == LexItem::Error(e.err@)
            &&& e.source == source
            &&& e.range.start == byte_offset(source@, start)
            &&& e.range.end == byte_offset(source@, end)
        },
    }
}

fn scan_whitespace_end(s: &[char], pos: usize) -> (end: usize)
    requires
        pos <= s@.len(),
    ensures
        end == whitespace_end(s@, pos as int),
{
    let mut i = pos;
    while i < s.len() && char_is_whitespace(s[i])
        invariant
            pos <= i <= s@.len(),
            whitespace_end(s@, pos as int) == whitespace_end(s@, i as int),
        decreases s@.len() - i,
    {
        i = i + 1;
    }
    i
}

fn scan_ident_end(s: &[char], pos: usize) -> (end: usize)
    requires
        pos <= s@.len(),
    ensures
        end == ident_end(s@, pos as int),
{
    let mut i = pos;
    while i < s.len() && (char_is_alphanumeric(s[i]) || s[i] == '_' || s[i] == '\'')
        invariant
            pos <= i <= s@.len(),
            ident_end(s@, pos as int) == ident_end(s@, i as int),
        decreases s@.len() - i,
    {
        i = i + 1;
    }
    i
}

fn scan_unescaped(s: &[char], pos: usize, d: char) -> (r: Option<usize>)
    requires
        pos <= s@.len(),
    ensures
        match find_unescaped(s@, pos as int, d, false) {
            Some(k) => r == Some(k as usize),
            None => r is None,
        },
{
    let mut i = pos;
    let mut esc = false;
    while i < s.len()
        invariant
            pos <= i <= s@.len(),
            find_unescaped(s@, pos as int, d, false) == find_unescaped(s@, i as int, d, esc),
        decreases s@.len() - i,
    {
        if !esc && s[i] == d {
            return Some(i);
        }
        esc = !esc && s[i] == '\\';
        i = i + 1;
    }
    None
}

fn scan_number_end(s: &[char], pos: usize) -> (end: usize)
    requires
        pos <= s@.len(),
    ensures
        end == number_end(s@, pos as int, num_start_state()),
{
    let mut i = pos;
    let mut first = true;
    let mut first_decimal = true;
    let mut first_e_neg = true;
    let mut prev_e = false;
    let mut following_e = false;
    while i < s.len()
        invariant
            pos <= i <= s@.len(),
            number_end(s@, pos as int, num_start_state()) == number_end(
                s@,
                i as int,
                NumState { first, first_decimal, first_e_neg, prev_e, following_e },
            ),
        decreases s@.len() - i,
    {
        let ch = s[i];
        let cont = if char_is_alphanumeric(ch) {
            true
        } else if ch == '.' {
            let was_first = first_decimal;
            first_decimal = false;
            was_first && !following_e
        } else if ch == '-' {
            if first {
                true
            } else if prev_e {
                let was_first = first_e_neg;
                first_e_neg = false;
                was_first
            } else {
                false
            }
        } else {
            false
        };
        if !cont {
            return i;
        }
        prev_e = ch == 'e' || ch == 'E';
        following_e = following_e || prev_e;
        first = false;
        i = i + 1;
    }
    i
}

fn scan_trim_number_end(s: &[char], lo: usize, hi: usize) -> (end: usize)
    requires
        lo <= hi <= s@.len(),
    ensures
        end == trim_number_end(s@, lo as int, hi as int),
{
    let mut e = hi;
    while e - lo > 1 && (s[e - 1] == '.' || s[e - 1] == '-')
        invariant
            lo <= e <= hi <= s@.len(),
            trim_number_end(s@, lo as int, hi as int) == trim_number_end(s@, lo as int, e as int),
        decreases e,
    {
        e = e - 1;
    }
    e
}

fn scan_line_end(s: &[char], pos: usize) -> (end: usize)
    requires
        pos <= s@.len(),
    ensures
        end == line_end(s@, pos as int),
{
    let mut j = pos;
    while j < s.len() && s[j] != '\n' && s[j] != '\r'
        invariant
            pos <= j <= s@.len(),
            line_end(s@, pos as int) == line_end(s@, j as int),
        decreases s@.len() - j,
    {
        j = j + 1;
    }
    j
}

fn scan_block_close(s: &[char], pos: usize) -> (r: Option<usize>)
    requires
        pos <= s@.len(),
    ensures
        match block_close(s@, pos as int, None, 0) {
            Some(k) => r == Some(k as usize),
            None => r is None,
        },
{
    let mut i = pos;
    let mut prev: Option<char> = None;
    let mut depth: usize = 0;
    while i < s.len()
        invariant
            pos <= i <= s@.len(),
            depth <= i,
            block_close(s@, pos as int, None, 0) == block_close(s@, i as int, prev, depth as nat),
        decreases s@.len() - i,
    {
        let ch = s[i];
        if prev == Some('*') && ch == '/' {
            if depth == 0 {
                return Some(i);
            }
            depth = depth - 1;
        } else if prev == Some('/') && ch == '*' {
            depth = depth + 1;
        }
        prev = Some(ch);
        i = i + 1;
    }
    None
}

/// The byte offset of char index `end`, from that of `pos`
fn byte_offset_at(s: &[char], pos: usize, end: usize, byte_pos: usize) -> (b: usize)
    requires
        pos <= end <= s@.len(),
        byte_pos == byte_offset(s@, pos as int),
        utf8_len(s@) <= usize::MAX,
    ensures
        b == byte_offset(s@, end as int),
{
    proof {
        lemma_utf8_len_subrange(s@, pos as int, end as int);
        lemma_byte_offset_mono(s@, end as int, s@.len() as int);
        lemma_utf8_len_sub(s@, pos as int, end as int);
    }
    byte_pos + utf8_len_of(s, pos, end)
}

/// A token spanning `original[pos..end]` (in chars)
fn token_result<'a>(ty: TokenType, val: TokenValue<'a>, src: &'a str) -> (r: TokenResult<'a>)
    ensures
        r == Ok::<(Token<'a>, TokenValue<'a>), ContextError<'a>>((Token { src, ty }, val)),
{
    Ok((Token { src, ty }, val))
}

/// An error spanning the bytes `start..end` of `original`
fn error_result<'a>(original: &'a str, start: usize, end: usize, err: ErrorType<'a>) -> (r:
    TokenResult<'a>)
    ensures
        r matches Err(e) && e.source == original && e.range.start == start && e.range.end == end
            && e.err == err,
{
    Err(ContextError { source: original, range: Range { start, end }, err })
}

/// Scans the string or char literal that opens with `d` at `pos`.
fn scan_quoted<'a>(original: &'a str, s: &Vec<char>, pos: usize, byte_pos: usize, d: char) -> (r: (
    TokenResult<'a>,
    usize,
    usize,
))
    requires
        s@ == original@,
        pos < s@.len(),
        s@[pos as int] == d,
        d == '"' || d == '\'',
        byte_pos == byte_offset(s@, pos as int),
        utf8_len(s@) <= usize::MAX,
    ensures
        r.1 == quoted_step(s@, pos as int, d).1,
        r.2 == byte_offset(s@, r.1 as int),
        result_is(r.0, quoted_step(s@, pos as int, d).0, original, pos as int, r.1 as int),
{
    let sl = s.as_slice();
    let n = s.len();
    match scan_unescaped(sl, pos + 1, d) {
        Some(close) => {
            proof {
                lemma_find_unescaped(s@, pos + 1, d, false);
            }
            let end = close + 1;
            let lexeme = original.substring_char(pos, end);
            proof {
                lemma_utf8_len_sub(s@, pos as int, end as int);
            }
            let v = if d == '"' {
                TokenValue::string_literal(sl, pos, end, lexeme)
            } else {
                TokenValue::char_literal(sl, pos, end, lexeme)
            };
            let ty = if d == '"' {
                TokenType::StringLiteral
            } else {
                TokenType::CharLiteral
            };
            let b = byte_offset_at(sl, pos, end, byte_pos);
            match v {
                Ok(v) => (token_result(ty, v, lexeme), end, b),
                Err(e) => (error_result(original, byte_pos, b, e), end, b),
            }
        },
        None => {
            let err = if holds_char(sl, pos + 1, n, d) {
                ErrorType::EscapedStringLiteralEnd
            } else if d == '\'' {
                ErrorType::EndlessCharLiteral
            } else {
                ErrorType::EndlessStringLiteral
            };
            let b = byte_offset_at(sl, pos, n, byte_pos);
            (error_result(original, byte_pos, b, err), n, b)
        },
    }
}

/// Scans the word (identifier, keyword or bool literal) `s[pos..end]`.
fn scan_word<'a>(original: &'a str, s: &Vec<char>, pos: usize, end: usize) -> (r: TokenResult<'a>)
    requires
        s@ == original@,
        pos <= end <= s@.len(),
    ensures
        result_is(r, word_item(s@, pos as int, end as int), original, pos as int, end as int),
{
    let sl = s.as_slice();
    let src = original.substring_char(pos, end);
    match Keyword::try_from_chars(sl, pos, end) {
        Some(k) => {
            let ty = if k.kw_type() == KeywordType::Control {
                TokenType::CtrlKeyword
            } else {
                TokenType::Keyword
            };
            token_result(ty, TokenValue::Keyword(k), src)
        },
        None => {
            if text_is(sl, pos, end, &['t', 'r', 'u', 'e']) {
                token_result(TokenType::BoolLiteral, TokenValue::BoolLiteral(true), src)
            } else if text_is(sl, pos, end, &['f', 'a', 'l', 's', 'e']) {
                token_result(TokenType::BoolLiteral, TokenValue::BoolLiteral(false), src)
            } else if end < s.len() && s[end] == '(' {
                token_result(TokenType::Callable, TokenValue::Direct(src), src)
            } else {
                token_result(TokenType::Identifier, TokenValue::Direct(src), src)
            }
        },
    }
}

/// One step of the scanner at char index `pos` of `original`, whose chars are `s`: the result,
/// the char index where it ends, and the byte offset of that index.
fn scan_item<'a>(original: &'a str, s: &Vec<char>, pos: usize, byte_pos: usize, can_be_negative: bool) -> (r: (
    TokenResult<'a>,
    usize,
    usize,
))
    requires
        s@ == original@,
        pos < s@.len(),
        byte_pos == byte_offset(s@, pos as int),
        utf8_len(s@) <= usize::MAX,
    ensures
        r.1 == lex_step(s@, pos as int, can_be_negative).1,
        r.2 == byte_offset(s@, r.1 as int),
        result_is(r.0, lex_step(s@, pos as int, can_be_negative).0, original, pos as int, r.1 as int),
{
    proof {
        lemma_lex_step_progress(s@, pos as int, can_be_negative);
    }
    let sl = s.as_slice();
    let n = s.len();
    let c = s[pos];
    if char_is_whitespace(c) {
        let end = scan_whitespace_end(sl, pos);
        let src = original.substring_char(pos, end);
        (token_result(TokenType::Whitespace, TokenValue::Ignore, src), end, byte_offset_at(sl, pos, end, byte_pos))
    } else if c == '\\' || c == '$' {
        let end = scan_ident_end(sl, pos + 1);
        let src = original.substring_char(pos, end);
        let ty = if c == '\\' {
            TokenType::Macro
        } else {
            TokenType::MacroParam
        };
        (token_result(ty, TokenValue::Direct(src), src), end, byte_offset_at(sl, pos, end, byte_pos))
    } else if c == '"' || c == '\'' {
        scan_quoted(original, s, pos, byte_pos, c)
    } else if char_is_alphabetic(c) || c == '_' {
        let end = scan_ident_end(sl, pos);
        (scan_word(original, s, pos, end), end, byte_offset_at(sl, pos, end, byte_pos))
    } else if (c == '-' && can_be_negative && pos + 1 < n && char_is_numeric(s[pos + 1])) || (!(c
        == '-' && can_be_negative) && char_is_numeric(c)) {
        proof {
            lemma_number_end(s@, pos as int, num_start_state());
        }
        let end = scan_trim_number_end(sl, pos, scan_number_end(sl, pos));
        let src = original.substring_char(pos, end);
        let b = byte_offset_at(sl, pos, end, byte_pos);
        match TokenValue::number_literal(sl, pos, end, src) {
            Ok(v) => (token_result(TokenType::NumberLiteral, v, src), end, b),
            Err(e) => (error_result(original, byte_pos, b, e), end, b),
        }
    } else if c == '/' && pos + 1 < n && s[pos + 1] == '/' {
        let end = scan_line_end(sl, pos);
        let src = original.substring_char(pos, end);
        (token_result(TokenType::Comment, TokenValue::Ignore, src), end, byte_offset_at(sl, pos, end, byte_pos))
    } else if c == '/' && pos + 1 < n && s[pos + 1] == '*' {
        match scan_block_close(sl, pos + 2) {
            Some(i) => {
                let end = i + 1;
                let src = original.substring_char(pos, end);
                (token_result(TokenType::Comment, TokenValue::Ignore, src), end, byte_offset_at(sl, pos, end, byte_pos))
            },
            None => {
                let b = byte_offset_at(sl, pos, n, byte_pos);
                (error_result(original, byte_pos, b, ErrorType::EndlessBlockComment), n, b)
            },
        }
    } else if ascii_punctuation(c) {
        proof {
            assert(s@.skip(pos as int) =~= s@.subrange(pos as int, n as int));
        }
        match Punctuation::from_prefix(sl, pos, n) {
            Some((p, k)) => {
                let end = pos + k;
                let src = original.substring_char(pos, end);
                (token_result(TokenType::Punctuation, TokenValue::Punctuation(p), src), end, byte_offset_at(sl, pos, end, byte_pos))
            },
            None => {
                let b = byte_offset_at(sl, pos, pos + 1, byte_pos);
                (error_result(original, byte_pos, b, ErrorType::UnknownToken), pos + 1, b)
            },
        }
    } else {
        let b = byte_offset_at(sl, pos, pos + 1, byte_pos);
        (error_result(original, byte_pos, b, ErrorType::UnknownToken), pos + 1, b)
    }
}

/// A scanner that breaks source code into tokens, one at a time
pub struct Scanner<'a> {
    /// The whole source code; errors refer to it
    original: &'a str,
    /// The chars of the source code
    chars: Vec<char>,
    /// Char index where the next token starts
    pos: usize,
    /// Byte offset where the next token starts
    byte_pos: usize,
    /// The most recent non-whitespace, non-comment token was either the start of the source code
    /// or punctuation **and not** `)`, `]`, or `}`.
    can_be_negative: bool,
}

impl<'a> Scanner<'a> {
    /// The scanner's internal state is consistent
    pub closed spec fn wf(&self) -> bool {
        &&& self.chars@ == self.original@
        &&& self.pos <= self.chars@.len()
        &&& self.byte_pos == byte_offset(self.original@, self.pos as int)
        &&& utf8_len(self.original@) <= usize::MAX
    }

    /// The source code being scanned
    pub closed spec fn source(&self) -> &'a str {
        self.original
    }

    /// Char index where the next token starts
    pub closed spec fn position(&self) -> int {
        self.pos as int
    }

    /// Whether a `-` may start a negative number at [`Self::position`]
    pub closed spec fn negative_allowed(&self) -> bool {
        self.can_be_negative
    }

    /// The items the scanner has yet to produce, each with its char span
    pub open spec fn remaining(&self) -> Seq<(LexItem, int, int)> {
        lex_from(self.source()@, self.position(), self.negative_allowed())
    }

    /// Construct a new [`Scanner`] for `source`
    pub fn new(source: &'a str) -> (r: Self)
        ensures
            r.wf(),
            r.source() == source,
            r.position() == 0,
            r.negative_allowed(),
            r.remaining() == lex(source@),
    {
        let chars = chars_of(source);
        let n = source.as_bytes().len();
        proof {
            assert(source@.take(0) =~= Seq::<char>::empty());
            assert(encode_utf8(Seq::<char>::empty()) =~= Seq::<u8>::empty());
        }
        Scanner {
            original: source,
            chars,
            pos: 0,
            byte_pos: 0,
            // start off true because we are at the start of the source code
            can_be_negative: true,
        }
    }

    /// The next token, or error, of the source code; `None` once the source code is used up
    pub fn next(&mut self) -> (r: Option<TokenResult<'a>>)
        requires
            old(self).wf(),
        ensures
            final(self).wf(),
            final(self).source() == old(self).source(),
            old(self).remaining().len() == 0 ==> r is None && final(self).remaining() == old(
                self,
            ).remaining(),
            old(self).remaining().len() > 0 ==> (r matches Some(x) && result_is(
                x,
                old(self).remaining()[0].0,
                old(self).source(),
                old(self).remaining()[0].1,
                old(self).remaining()[0].2,
            ) && final(self).remaining() == old(self).remaining().drop_first()),
            (r is None) == (old(self).position() >= old(self).source()@.len()),
            r is Some ==> ({
                let (item, end) = lex_step(
                    old(self).source()@,
                    old(self).position(),
                    old(self).negative_allowed(),
                );
                &&& final(self).position() == end
                &&& final(self).negative_allowed() == next_can_be_negative(
                    item,
                    old(self).negative_allowed(),
                )
            }),
    {
        if self.pos >= self.chars.len() {
            return None;
        }
        let (res, end, b) = scan_item(
            self.original,
            &self.chars,
            self.pos,
            self.byte_pos,
            self.can_be_negative,
        );
        let ghost item = lex_step(self.chars@, self.pos as int, self.can_be_negative).0;
        // non-whitespace, non-comment token: punctuation except for close bracket
        let next_negative = match &res {
            Ok((token, value)) => match token.ty {
                TokenType::Whitespace | TokenType::Comment => self.can_be_negative,
                _ => match value {
                    TokenValue::Punctuation(p) => !(*p == Punctuation::RParen || *p
                        == Punctuation::RBrack || *p == Punctuation::RBrace),
                    _ => false,
                },
            },
            Err(_) => self.can_be_negative,
        };
        proof {
            lemma_lex_step_progress(self.chars@, self.pos as int, self.can_be_negative);
        }
        self.pos = end;
        self.byte_pos = b;
        self.can_be_negative = next_negative;
        Some(res)
    }
}

/// Breaks `source` into its tokens and errors, in order.
///
/// The spans of the items cover `source` from start to end without gap or overlap.
pub fn tokenize(source: &str) -> (r: Vec<TokenResult<'_>>)
    ensures
        r@.len() == lex(source@).len(),
        forall|i: int|
            0 <= i < r@.len() ==> result_is(
                #[trigger] r@[i],
                lex(source@)[i].0,
                source,
                lex(source@)[i].1,
                lex(source@)[i].2,
            ),
{
    let mut scanner = Scanner::new(source);
    let mut out: Vec<TokenResult<'_>> = Vec::new();
    let ghost all = lex(source@);
    loop
        invariant
            scanner.wf(),
            scanner.source() == source,
            out@.len() + scanner.remaining().len() == all.len(),
            scanner.remaining() == all.skip(out@.len() as int),
            forall|i: int|
                0 <= i < out@.len() ==> result_is(
                    #[trigger] out@[i],
                    all[i].0,
                    source,
                    all[i].1,
                    all[i].2,
                ),
        ensures
            out@.len() == all.len(),
            forall|i: int|
                0 <= i < out@.len() ==> result_is(
                    #[trigger] out@[i],
                    all[i].0,
                    source,
                    all[i].1,
                    all[i].2,
                ),
        decreases scanner.remaining().len(),
    {
        let ghost before = scanner.remaining();
        match scanner.next() {
            Some(x) => {
                proof {
                    assert(all[out@.len() as int] == before[0]);
                    assert(all.skip(out@.len() + 1int) =~= before.drop_first());
                }
                out.push(x);
            },
            None => {
                proof {
                    assert(all.skip(out@.len() as int).len() == 0);
                }
                break;
            },
        }
    }
    out
}

/// The items produced from char index `pos` on tile `s[pos..]`.
proof fn lemma_lex_from_tiles(s: Seq<char>, pos: int, can_be_negative: bool)
    requires
        0 <= pos <= s.len(),
    ensures
        ({
            let l = lex_from(s, pos, can_be_negative);
            &&& l.len() == 0 <==> pos == s.len()
            &&& l.len() > 0 ==> l[0].1 == pos && l.last().2 == s.len()
            &&& forall|i: int| 0 <= i < l.len() ==> pos <= #[trigger] l[i].1 < l[i].2 <= s.len()
            &&& forall|i: int| 0 <= i < l.len() - 1 ==> #[trigger] l[i].2 == l[i + 1].1
        }),
    decreases s.len() - pos,
{
    if pos < s.len() {
        let (item, end) = lex_step(s, pos, can_be_negative);
        lemma_lex_step_progress(s, pos, can_be_negative);
        let nc = next_can_be_negative(item, can_be_negative);
        lemma_lex_from_tiles(s, end, nc);
        let rest = lex_from(s, end, nc);
        let l = lex_from(s, pos, can_be_negative);
        assert(l == seq![(item, pos, end)] + rest);
        assert forall|i: int| 0 <= i < l.len() implies pos <= #[trigger] l[i].1 < l[i].2 <= s.len() by {
            if i > 0 {
                assert(l[i] == rest[i - 1]);
            }
        }
        assert forall|i: int| 0 <= i < l.len() - 1 implies #[trigger] l[i].2 == l[i + 1].1 by {
            assert(l[i + 1] == rest[i]);
            if i > 0 {
                assert(l[i] == rest[i - 1]);
            }
        }
        if rest.len() > 0 {
            assert(l.last() == rest.last());
        }
    }
}

/// The items the scanner produces tile the source code: the first starts at char 0, each one
/// ends where the next one starts, the last one ends at the end of the source, and none is empty.
/// So the lexemes and error spans, in order, make up the whole source code.
pub proof fn lemma_lex_tiles(s: Seq<char>)
    ensures
        lex(s).len() == 0 <==> s.len() == 0,
        lex(s).len() > 0 ==> lex(s)[0].1 == 0 && lex(s).last().2 == s.len(),
        forall|i: int| 0 <= i < lex(s).len() ==> 0 <= #[trigger] lex(s)[i].1 < lex(s)[i].2 <= s.len(),
        forall|i: int| 0 <= i < lex(s).len() - 1 ==> #[trigger] lex(s)[i].2 == lex(s)[i + 1].1,
{
    lemma_lex_from_tiles(s, 0, true);
}

/// Whether `item`, spanning chars `start..end` of `s`, is delimited as its value asks: a char
/// or string literal token has at least two chars, opens and closes with its delimiter, and a
/// string literal's value is that of its lexeme.
pub open spec fn delimited(s: Seq<char>, item: LexItem, start: int, end: int) -> bool {
    let lexeme = s.subrange(start, end);
    item matches LexItem::Token(_, vm) ==> {
        &&& vm is CharLiteral ==> lexeme.len() >= 2 && lexeme[0] == '\'' && lexeme.last() == '\''
        &&& vm is StringLiteral ==> lexeme.len() >= 2 && lexeme[0] == '"' && lexeme.last() == '"'
            && string_value(lexeme) == Ok::<ValueModel, ErrorModel>(vm)
    }
}

/// The items produced from char index `pos` on are all delimited.
proof fn lemma_lex_from_delimited(s: Seq<char>, pos: int, can_be_negative: bool)
    requires
        0 <= pos <= s.len(),
    ensures
        forall|i: int|
            0 <= i < lex_from(s, pos, can_be_negative).len() ==> delimited(
                s,
                (#[trigger] lex_from(s, pos, can_be_negative)[i]).0,
                lex_from(s, pos, can_be_negative)[i].1,
                lex_from(s, pos, can_be_negative)[i].2,
            ),
    decreases s.len() - pos,
{
    if pos < s.len() {
        let (item, end) = lex_step(s, pos, can_be_negative);
        lemma_lex_step_progress(s, pos, can_be_negative);
        lemma_literal_token(s, pos, can_be_negative);
        let nc = next_can_be_negative(item, can_be_negative);
        lemma_lex_from_delimited(s, end, nc);
        let rest = lex_from(s, end, nc);
        let l = lex_from(s, pos, can_be_negative);
        assert(l == seq![(item, pos, end)] + rest);
        assert forall|i: int| 0 <= i < l.len() implies delimited(s, (#[trigger] l[i]).0, l[i].1, l[i].2) by {
            if i > 0 {
                assert(l[i] == rest[i - 1]);
            }
        }
    }
}

/// Every item the scanner produces from `s` is delimited.
pub proof fn lemma_lex_delimited(s: Seq<char>)
    ensures
        forall|i: int|
            0 <= i < lex(s).len() ==> delimited(s, (#[trigger] lex(s)[i]).0, lex(s)[i].1, lex(s)[i].2),
{
    lemma_lex_from_delimited(s, 0, true);
}

/// A token whose value is a char or string literal is delimited.
pub proof fn lemma_literal_token(s: Seq<char>, pos: int, can_be_negative: bool)
    requires
        0 <= pos < s.len(),
    ensures
        delimited(
            s,
            lex_step(s, pos, can_be_negative).0,
            pos,
            lex_step(s, pos, can_be_negative).1,
        ),
{
    let c = s[pos];
    lemma_lex_step_progress(s, pos, can_be_negative);
    lemma_find_unescaped(s, pos + 1, c, false);
}

/// Every error the scanner produces from char index `pos` on is a lexing error.
proof fn lemma_lex_from_errors(s: Seq<char>, pos: int, can_be_negative: bool)
    requires
        0 <= pos <= s.len(),
    ensures
        forall|i: int|
            0 <= i < lex_from(s, pos, can_be_negative).len() ==> ((#[trigger] lex_from(
                s,
                pos,
                can_be_negative,
            )[i]).0 matches LexItem::Error(e) ==> crate::error::is_lex_error(e)),
    decreases s.len() - pos,
{
    if pos < s.len() {
        let (item, end) = lex_step(s, pos, can_be_negative);
        lemma_lex_step_progress(s, pos, can_be_negative);
        let nc = next_can_be_negative(item, can_be_negative);
        lemma_lex_from_errors(s, end, nc);
        let rest = lex_from(s, end, nc);
        let l = lex_from(s, pos, can_be_negative);
        assert(l == seq![(item, pos, end)] + rest);
        assert forall|i: int| 0 <= i < l.len() implies ((#[trigger] l[i]).0 matches LexItem::Error(
            e,
        ) ==> crate::error::is_lex_error(e)) by {
            if i > 0 {
                assert(l[i] == rest[i - 1]);
            }
        }
    }
}

/// Every error the scanner produces is a lexing error, so its code is in the `LEX` area.
pub proof fn lemma_scanner_errors_are_lex(s: Seq<char>)
    ensures
        forall|i: int|
            0 <= i < lex(s).len() ==> ((#[trigger] lex(s)[i]).0 matches LexItem::Error(e)
                ==> crate::error::is_lex_error(e)),
{
    lemma_lex_from_errors(s, 0, true);
}


/// Whether `item` is a token other than whitespace or a comment
pub open spec fn is_significant(item: LexItem) -> bool {
    item matches LexItem::Token(ty, _) && ty != TokenType::Whitespace && ty != TokenType::Comment
}

/// Whether `item` is punctuation other than a close bracket
pub open spec fn is_open_punctuation(item: LexItem) -> bool {
    item matches LexItem::Token(_, ValueModel::Punctuation(p)) && p != Punctuation::RParen && p
        != Punctuation::RBrack && p != Punctuation::RBrace
}

/// Where the `i`th of `items` starts, a `-` may begin a negative number: the most recent
/// token before it that is neither whitespace nor a comment is punctuation other than a close
/// bracket, or there is no such token
pub open spec fn minus_may_negate(items: Seq<(LexItem, int, int)>, i: int) -> bool {
    ||| forall|j: int| 0 <= j < i ==> !is_significant(#[trigger] items[j].0)
    ||| exists|j: int|
        #![trigger items[j]]
        0 <= j < i && is_significant(items[j].0) && is_open_punctuation(items[j].0) && forall|
            k: int,
        | j < k < i ==> !is_significant(#[trigger] items[k].0)
}

/// The scanner's state after the first `i` of `items`, starting from `c`
pub open spec fn negative_state(items: Seq<(LexItem, int, int)>, i: int, c: bool) -> bool
    decreases i,
{
    if i <= 0 {
        c
    } else {
        next_can_be_negative(items[i - 1].0, negative_state(items, i - 1, c))
    }
}

proof fn lemma_negative_state_shift(x: (LexItem, int, int), rest: Seq<(LexItem, int, int)>, i: int, c: bool)
    requires
        1 <= i <= rest.len() + 1,
    ensures
        negative_state(seq![x] + rest, i, c) == negative_state(rest, i - 1, next_can_be_negative(x.0, c)),
    decreases i,
{
    let l = seq![x] + rest;
    if i > 1 {
        lemma_negative_state_shift(x, rest, i - 1, c);
        assert(l[i - 1] == rest[i - 2]);
    } else {
        assert(l[0] == x);
        assert(negative_state(l, 0, c) == c);
        assert(negative_state(rest, 0, next_can_be_negative(x.0, c)) == next_can_be_negative(x.0, c));
    }
}

/// Each item produced from `pos` on is what one scanner step gives where it starts, in the
/// state the items before it leave.
pub proof fn lemma_lex_from_steps(s: Seq<char>, pos: int, c: bool, i: int)
    requires
        0 <= pos <= s.len(),
        0 <= i < lex_from(s, pos, c).len(),
    ensures
        ({
            let l = lex_from(s, pos, c);
            let st = lex_step(s, l[i].1, negative_state(l, i, c));
            l[i] == (st.0, l[i].1, st.1) && 0 <= l[i].1 < s.len()
        }),
    decreases s.len() - pos,
{
    let (item, end) = lex_step(s, pos, c);
    lemma_lex_step_progress(s, pos, c);
    let nc = next_can_be_negative(item, c);
    let rest = lex_from(s, end, nc);
    let l = lex_from(s, pos, c);
    assert(l == seq![(item, pos, end)] + rest);
    if i > 0 {
        lemma_lex_from_steps(s, end, nc, i - 1);
        assert(l[i] == rest[i - 1]);
        lemma_negative_state_shift((item, pos, end), rest, i, c);
    }
}

/// The state after the first `i` items, from the start of the source, is whether a `-` may
/// begin a negative number there.
proof fn lemma_negative_state_is_rule(items: Seq<(LexItem, int, int)>, i: int)
    requires
        0 <= i <= items.len(),
    ensures
        negative_state(items, i, true) == minus_may_negate(items, i),
    decreases i,
{
    if i > 0 {
        lemma_negative_state_is_rule(items, i - 1);
        let x = items[i - 1].0;
        if is_significant(x) {
            if is_open_punctuation(x) {
                assert(minus_may_negate(items, i)) by {
                    assert(forall|k: int| i - 1 < k < i ==> !is_significant(#[trigger] items[k].0));
                }
            } else {
                assert(!minus_may_negate(items, i)) by {
                    if forall|j: int| 0 <= j < i ==> !is_significant(#[trigger] items[j].0) {
                        assert(!is_significant(items[i - 1].0));
                    }
                    if exists|j: int|
                        #![trigger items[j]]
                        0 <= j < i && is_significant(items[j].0) && is_open_punctuation(items[j].0)
                            && forall|k: int| j < k < i ==> !is_significant(#[trigger] items[k].0) {
                        let j = choose|j: int|
                            #![trigger items[j]]
                            0 <= j < i && is_significant(items[j].0) && is_open_punctuation(
                                items[j].0,
                            ) && forall|k: int| j < k < i ==> !is_significant(#[trigger] items[k].0);
                        if j < i - 1 {
                            assert(!is_significant(items[i - 1].0));
                        }
                    }
                }
            }
        } else {
            assert(minus_may_negate(items, i) == minus_may_negate(items, i - 1)) by {
                if minus_may_negate(items, i - 1) {
                    if exists|j: int|
                        #![trigger items[j]]
                        0 <= j < i - 1 && is_significant(items[j].0) && is_open_punctuation(
                            items[j].0,
                        ) && forall|k: int| j < k < i - 1 ==> !is_significant(#[trigger] items[k].0) {
                        let j = choose|j: int|
                            #![trigger items[j]]
                            0 <= j < i - 1 && is_significant(items[j].0) && is_open_punctuation(
                                items[j].0,
                            ) && forall|k: int| j < k < i - 1 ==> !is_significant(#[trigger] items[k].0);
                        assert(forall|k: int| j < k < i ==> !is_significant(#[trigger] items[k].0));
                    }
                }
                if minus_may_negate(items, i) {
                    if exists|j: int|
                        #![trigger items[j]]
                        0 <= j < i && is_significant(items[j].0) && is_open_punctuation(items[j].0)
                            && forall|k: int| j < k < i ==> !is_significant(#[trigger] items[k].0) {
                        let j = choose|j: int|
                            #![trigger items[j]]
                            0 <= j < i && is_significant(items[j].0) && is_open_punctuation(
                                items[j].0,
                            ) && forall|k: int| j < k < i ==> !is_significant(#[trigger] items[k].0);
                        assert(j != i - 1);
                        assert(forall|k: int| j < k < i - 1 ==> !is_significant(#[trigger] items[k].0));
                    }
                }
            }
        }
    }
}

/// A `-` followed by a numeric char is a negative sign, starting a number literal, only where
/// the most recent token that is neither whitespace nor a comment is punctuation other than a
/// close bracket (`)`, `]`, `}`), or where there is no such token; elsewhere it is punctuation.
/// (`-` is neither whitespace, nor alphabetic, nor numeric.)
pub proof fn lemma_negative_number_rule(s: Seq<char>, i: int)
    requires
        !is_whitespace('-'),
        !is_alphabetic('-'),
        !is_numeric('-'),
        0 <= i < lex(s).len(),
        s[lex(s)[i].1] == '-',
        lex(s)[i].1 + 1 < s.len(),
        is_numeric(s[lex(s)[i].1 + 1]),
    ensures
        minus_may_negate(lex(s), i) ==> (lex(s)[i].0 matches LexItem::Token(
            TokenType::NumberLiteral,
            _,
        ) || lex(s)[i].0 matches LexItem::Error(ErrorModel::InvalidNumLiteral(_))),
        !minus_may_negate(lex(s), i) ==> lex(s)[i].0 matches LexItem::Token(
            TokenType::Punctuation,
            ValueModel::Punctuation(_),
        ),
{
    let l = lex(s);
    lemma_lex_from_steps(s, 0, true, i);
    lemma_negative_state_is_rule(l, i);
    let pos = l[i].1;
    let c = negative_state(l, i, true);
    lemma_lex_step_progress(s, pos, c);
    if c {
        assert(starts_number(s, pos, c));
    } else {
        assert(!starts_number(s, pos, c));
        assert(is_ascii_punctuation('-'));
        assert(punc_prefix(s.skip(pos)) is Some) by {
            assert(s.skip(pos)[0] == '-');
        }
    }
}


/// The negative-number rule at the `i`th item of the scan of `s`: where the item starts with a
/// `-` followed by a numeric char, it is a number literal (valid or not) if a `-` may negate
/// there ([`minus_may_negate`]), and punctuation otherwise.
pub open spec fn negative_number_rule_at(s: Seq<char>, i: int) -> bool {
    let l = lex(s);
    (s[l[i].1] == '-' && l[i].1 + 1 < s.len() && is_numeric(s[l[i].1 + 1])) ==> {
        &&& minus_may_negate(l, i) ==> (l[i].0 matches LexItem::Token(TokenType::NumberLiteral, _)
            || l[i].0 matches LexItem::Error(ErrorModel::InvalidNumLiteral(_)))
        &&& !minus_may_negate(l, i) ==> l[i].0 matches LexItem::Token(
            TokenType::Punctuation,
            ValueModel::Punctuation(_),
        )
    }
}

/// Asks the char classes of `-` (neither whitespace, nor alphabetic, nor numeric), and so
/// establishes [`lemma_negative_number_rule`] for every item of the scan of `source`.
pub fn confirm_negative_number_rule(source: &str)
    ensures
        forall|i: int|
            0 <= i < lex(source@).len() ==> #[trigger] negative_number_rule_at(source@, i),
{
    let _whitespace = char_is_whitespace('-');
    let _alphabetic = char_is_alphabetic('-');
    let _numeric = char_is_numeric('-');
    assert(('-' as u32) < 0x80);
    proof {
        assert forall|i: int| 0 <= i < lex(source@).len() implies #[trigger] negative_number_rule_at(
            source@,
            i,
        ) by {
            let s = source@;
            let l = lex(s);
            lemma_lex_tiles(s);
            if s[l[i].1] == '-' && l[i].1 + 1 < s.len() && is_numeric(s[l[i].1 + 1]) {
                lemma_negative_number_rule(s, i);
            }
        }
    }
}


/// Every punctuation token of a scan is spelled exactly by its lexeme: the value of a token
/// spanning `<=` is [`Punctuation::Le`], of one spanning `>=` is [`Punctuation::Ge`].
pub proof fn lemma_punctuation_tokens_spelled(s: Seq<char>, i: int)
    requires
        0 <= i < lex(s).len(),
    ensures
        lex(s)[i].0 matches LexItem::Token(_, ValueModel::Punctuation(p)) ==> s.subrange(
            lex(s)[i].1,
            lex(s)[i].2,
        ) == punctuation_text(p),
{
    let l = lex(s);
    lemma_lex_from_steps(s, 0, true, i);
    let pos = l[i].1;
    let c = negative_state(l, i, true);
    lemma_lex_step_progress(s, pos, c);
    lemma_punc_prefix_spelling(s.skip(pos));
    if let Some((p, n)) = punc_prefix(s.skip(pos)) {
        assert(s.skip(pos).take(n as int) =~= s.subrange(pos, pos + n));
    }
}


/// Every keyword token of a scan is spelled exactly by its lexeme, and is a control keyword
/// token exactly when the keyword controls flow; no identifier or callable token is spelled
/// like a keyword.
pub proof fn lemma_keyword_tokens_spelled(s: Seq<char>, i: int)
    requires
        0 <= i < lex(s).len(),
    ensures
        lex(s)[i].0 matches LexItem::Token(ty, ValueModel::Keyword(k)) ==> s.subrange(
            lex(s)[i].1,
            lex(s)[i].2,
        ) == keyword_text(k) && (ty == TokenType::CtrlKeyword) == (keyword_type(k)
            == KeywordType::Control),
        lex(s)[i].0 matches LexItem::Token(TokenType::Identifier, _) ==> keyword_of(
            s.subrange(lex(s)[i].1, lex(s)[i].2),
        ) is None,
        lex(s)[i].0 matches LexItem::Token(TokenType::Callable, _) ==> keyword_of(
            s.subrange(lex(s)[i].1, lex(s)[i].2),
        ) is None,
{
    let l = lex(s);
    lemma_lex_from_steps(s, 0, true, i);
    let pos = l[i].1;
    let c = negative_state(l, i, true);
    lemma_lex_step_progress(s, pos, c);
    let w = s.subrange(pos, ident_end(s, pos));
    if let Some(k) = keyword_of(w) {
        lemma_keyword_of_spelled(w);
    }
}

/// The keyword a text is read as is spelled by that text.
pub proof fn lemma_keyword_of_spelled(w: Seq<char>)
    ensures
        keyword_of(w) matches Some(k) ==> w == keyword_text(k),
{
}

} // verus!
