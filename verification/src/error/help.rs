//! Tips for resolving an error: what [`super::ContextErrorHelp`] shows.
use super::{Article, ErrorModel, ErrorType, Expecting, NumLitError};
use crate::numeral::{decimal_text, fold_digits, parse_uint_spec, push_decimal, IntErrorKind};
use crate::scanner::token::{
    chars_within, convert_escapes, escape_char, escape_spec, escape_span, is_float_numeral,
    lemma_chars_within_bound, lemma_escape_bytes, number_value, radix_prefix, ValueModel,
};
use crate::scanner::{
    find_unescaped, lemma_find_unescaped, lemma_lex_from_steps, lex, lex_step, negative_state,
    num_start_state, number_end, quoted_step, starts_number, trim_number_end, LexItem,
};
use crate::scanner::{close_char, open_char};
use crate::text::{
    all_ascii, byte_offset, char_index, char_index_of, char_is_alphabetic, char_is_numeric,
    char_width, chars_of, digit_value, is_alphabetic, is_boundary, is_numeric, is_whitespace,
    lemma_char_width_bounds, lemma_utf8_len_single, len_utf8, lemma_utf8_len_sub, push_char,
    push_str, to_digit, utf8_len,
};
use vstd::prelude::*;

verus! {

broadcast use vstd::seq::group_seq_axioms;

/// The word "a" or "an"
pub open spec fn article_text(a: Article) -> Seq<char> {
    match a {
        Article::A => "a"@,
        Article::An => "an"@,
    }
}

/// Appends the text of an article.
pub fn push_article(s: &mut String, a: Article)
    ensures
        final(s)@ == old(s)@ + article_text(a),
{
    match a {
        Article::A => push_str(s, "a"),
        Article::An => push_str(s, "an"),
    }
}

/// Index of the first `a` directly followed by `b` in `s`, at or after `i`
pub open spec fn first_pair(s: Seq<char>, a: char, b: char, i: int) -> Option<int>
    decreases s.len() - i,
{
    if i < 0 || i + 1 >= s.len() {
        None
    } else if s[i] == a && s[i + 1] == b {
        Some(i)
    } else {
        first_pair(s, a, b, i + 1)
    }
}

/// Index of the first char of `s` at or after `i` that is not a digit of `radix`
pub open spec fn first_non_digit(s: Seq<char>, radix: nat, i: int) -> Option<int>
    decreases s.len() - i,
{
    if i < 0 || i >= s.len() {
        None
    } else if digit_value(s[i], radix) is None {
        Some(i)
    } else {
        first_non_digit(s, radix, i + 1)
    }
}

/// The number of chars of `s` that are digits of `radix`
pub open spec fn count_digits(s: Seq<char>, radix: nat) -> nat
    decreases s.len(),
{
    if s.len() == 0 {
        0
    } else {
        count_digits(s.drop_last(), radix) + if digit_value(s.last(), radix) is Some {
            1nat
        } else {
            0nat
        }
    }
}

/// The name of a radix in messages
pub open spec fn radix_name(radix: nat) -> Seq<char> {
    if radix == 16 {
        "hexadecimal"@
    } else if radix == 8 {
        "octal"@
    } else if radix == 2 {
        "binary"@
    } else {
        "decimal"@
    }
}

/// Help for a char literal `src` with more than one char: the cut after its first char (or
/// escape sequence) must fall on a char boundary of its content.
pub open spec fn multi_char_help(src: Seq<char>) -> Option<Seq<char>> {
    if src.len() >= 2 && src[0] == '\'' && src.last() == '\'' {
        let inner = src.subrange(1, src.len() - 1);
        if inner.len() == 0 {
            None
        } else {
            let cut: int = if inner[0] == '\\' {
                escape_spec(inner).0 as int
            } else {
                char_width(inner[0]) as int
            };
            if is_boundary(inner, cut) {
                let k = char_index(inner, cut);
                Some(
                    "try removing the character(s) after `"@ + inner.take(k)
                        + "` (remove trailing `"@ + inner.skip(k)
                        + "`) or change this to a string (\""@ + inner + "\")"@,
                )
            } else {
                None
            }
        }
    } else {
        None
    }
}

/// Help for a char literal `src` whose only closing candidate is escaped
pub open spec fn escaped_char_end_help(src: Seq<char>) -> Option<Seq<char>> {
    if src.len() >= 1 && src[0] == '\'' {
        match first_pair(src.skip(1), '\\', '\'', 0) {
            Some(k) => Some(
                "there is a closing single-quote candidate, but it is escaped (`\\'`). \nchar literals cannot end with an unescaped backslash (`\\`), it is indistinguishable from an escaped single-quote (`\\'`). \ntry adding a `'` to the end of the char or remove the `\\` from `\\'` to make the char `'"@
                    + src.skip(1).take(k) + "'`"@,
            ),
            None => None,
        }
    } else {
        None
    }
}

/// Help for a string literal `src` whose only closing candidate is escaped
pub open spec fn escaped_string_end_help(src: Seq<char>) -> Option<Seq<char>> {
    if src.len() >= 1 && src[0] == '"' {
        match first_pair(src.skip(1), '\\', '"', 0) {
            Some(k) => Some(
                "there is a closing double-quote candidate, but it is escaped (`\\\"`).\nstring literals cannot end with an unescaped backslash (`\\`), it is indistinguishable from an escaped double-quote (`\\\"`).\ntry adding a `\"` to the end of the string or remove the `\\` from `\\\"` to make the string `\""@
                    + src.skip(1).take(k) + "\"`"@,
            ),
            None => None,
        }
    } else {
        None
    }
}

/// The chars of `s` from `start` up to (not including) `end`, cut to fit
pub open spec fn window(s: Seq<char>, start: int, end: int) -> Seq<char> {
    if s.len() <= start {
        Seq::empty()
    } else if s.len() < end {
        s.skip(start)
    } else {
        s.subrange(start, end)
    }
}

/// Help for the invalid escape sequence `esc`
pub open spec fn invalid_escape_help(esc: Seq<char>) -> Option<Seq<char>> {
    if esc.len() < 2 || esc[0] != '\\' {
        None
    } else {
        let ch = esc[1];
        if ch == 'x' {
            let n = count_digits(window(esc, 2, 4), 16);
            if n < 2 {
                Some(
                    "`\\x` should be followed by 2 hexadecimal digits ([0-9a-fA-F]), this escape sequence has "@
                        + decimal_text(n),
                )
            } else {
                None
            }
        } else if ch == 'o' {
            let n = count_digits(window(esc, 2, 5), 8);
            if n < 3 {
                Some(
                    "`\\o` should be followed by 3 octal digits ([0-7]), this escape sequence has "@
                        + decimal_text(n),
                )
            } else {
                None
            }
        } else if is_alphabetic(ch) {
            Some(
                "`\\a`, `\\b`, `\\e`, `\\f`, `\\n`, `\\r`, `\\t`, and `\\v` are the only supported ASCII letters that can be escape sequences"@,
            )
        } else if is_numeric(ch) {
            Some(
                "only ascii digits (0-9) are supported for decimal (base-10) numeric escape sequences"@,
            )
        } else {
            Some(
                "supported escape sequences: `\\a`, `\\b`, `\\e`, `\\f`, `\\n`, `\\r`, `\\t`, `\\v`, `\\0`-`\\9`,\n\\\n                        `\\x##` (where # is a hexadecimal digit), `\\o###` (where # is an octal digit)"@,
            )
        }
    }
}

/// Help for an integer numeral `src` holding a char that is not a digit of its radix
pub open spec fn invalid_digit_help(src: Seq<char>) -> Option<Seq<char>> {
    let (skip, radix) = radix_prefix(src);
    let digits = src.skip(skip);
    match first_non_digit(digits, radix, 0) {
        Some(k) => Some(
            "the suffix `"@ + digits.skip(k + 1) + "` is not valid for "@ + radix_name(radix)
                + " integer literals"@,
        ),
        None => None,
    }
}

/// `s` without a leading `-`
pub open spec fn strip_minus(s: Seq<char>) -> Seq<char> {
    if s.len() > 0 && s[0] == '-' {
        s.drop_first()
    } else {
        s
    }
}

/// Help for an invalid number literal `src`
pub open spec fn num_help(src: Seq<char>, e: NumLitError) -> Option<Seq<char>> {
    match e {
        NumLitError::UInt(IntErrorKind::InvalidDigit) => invalid_digit_help(src),
        NumLitError::UInt(IntErrorKind::PosOverflow) => Some(
            "the largest supported unsigned integer value is "@ + decimal_text(usize::MAX as nat),
        ),
        NumLitError::SInt(IntErrorKind::InvalidDigit) => invalid_digit_help(strip_minus(src)),
        NumLitError::SInt(IntErrorKind::PosOverflow) => Some(
            "the largest supported signed integer value is "@ + decimal_text(isize::MAX as nat),
        ),
        NumLitError::SInt(IntErrorKind::NegOverflow) => Some(
            "the smallest supported signed integer value is -"@ + decimal_text(
                (isize::MAX + 1) as nat,
            ),
        ),
        NumLitError::Flt => Some("I'm not sure how to help with this yet"@),
        _ => None,
    }
}

/// The tip for resolving error `err`, whose span in the source code is `src`; [`None`] where no
/// tip can be made of `src`.
pub open spec fn help_text(src: Seq<char>, err: ErrorModel) -> Option<Seq<char>> {
    match err {
        ErrorModel::UnknownToken => Some("try removing the character"@),
        ErrorModel::EndlessBlockComment => Some("try adding `*/`"@),
        ErrorModel::EmptyCharLiteral => Some(
            "chars can't be empty, try replacing `''` with `\"\"` or insert a character"@,
        ),
        ErrorModel::MultiCharLiteral => multi_char_help(src),
        ErrorModel::EndlessCharLiteral => Some("try adding a `'` to the end of the char"@),
        ErrorModel::EscapedCharLiteralEnd => escaped_char_end_help(src),
        ErrorModel::EndlessStringLiteral => Some("try adding a `\"` to the end of the string"@),
        ErrorModel::EscapedStringLiteralEnd => escaped_string_end_help(src),
        ErrorModel::InvalidEscape(esc) => invalid_escape_help(esc),
        ErrorModel::InvalidNumLiteral(e) => num_help(src, e),
        ErrorModel::IncorrectCloseBracket { expect, actual } => Some(
            "try inserting a `"@ + seq![close_char(expect.0)] + "` before the `"@ + seq![
                close_char(actual),
            ] + "`, add a `"@ + seq![open_char(actual)] + "` before it and after the `"@ + seq![
                open_char(expect.0),
            ] + "`, or remove either the `"@ + seq![open_char(expect.0)] + "` or `"@ + seq![
                close_char(actual),
            ] + "`"@,
        ),
        ErrorModel::ExcessCloseBracket { actual } => Some(
            "try removing the `"@ + seq![close_char(actual)] + "` or add a `"@ + seq![
                open_char(actual),
            ] + "` before it"@,
        ),
        ErrorModel::MissingCloseBracket { expect } => Some(
            "try inserting a `"@ + seq![close_char(expect.0)] + "` or remove the `"@ + seq![
                open_char(expect.0),
            ] + "`"@,
        ),
        ErrorModel::MissingToken { expect } => Some(
            "try inserting "@ + article_text(expect.article) + " "@ + expect.expect@,
        ),
        ErrorModel::UnexpectedToken { expect, actual } => Some(
            "try inserting "@ + article_text(expect.article) + " "@ + expect.expect@ + " before `"@
                + actual.0 + "` or remove `"@ + actual.0 + "`"@,
        ),
    }
}

proof fn lemma_first_pair(s: Seq<char>, a: char, b: char, i: int)
    requires
        0 <= i,
    ensures
        first_pair(s, a, b, i) matches Some(k) ==> i <= k && k + 1 < s.len(),
    decreases s.len() - i,
{
    if i + 1 < s.len() && !(s[i] == a && s[i + 1] == b) {
        lemma_first_pair(s, a, b, i + 1);
    }
}

proof fn lemma_first_non_digit(s: Seq<char>, radix: nat, i: int)
    requires
        0 <= i,
    ensures
        first_non_digit(s, radix, i) matches Some(k) ==> i <= k < s.len(),
    decreases s.len() - i,
{
    if i < s.len() && digit_value(s[i], radix) is Some {
        lemma_first_non_digit(s, radix, i + 1);
    }
}

/// The number of bytes of `s`, which fits in `usize`
fn utf8_len_bound(s: &str) -> (n: usize)
    ensures
        n == utf8_len(s@),
{
    s.as_bytes().len()
}

/// Index of the first `a` directly followed by `b` in `s`
fn find_pair(s: &[char], a: char, b: char) -> (r: Option<usize>)
    ensures
        match first_pair(s@, a, b, 0) {
            Some(k) => r == Some(k as usize),
            None => r is None,
        },
{
    let mut i: usize = 0;
    while s.len() - i > 1
        invariant
            i <= s@.len(),
            first_pair(s@, a, b, 0) == first_pair(s@, a, b, i as int),
        decreases s@.len() - i,
    {
        if s[i] == a && s[i + 1] == b {
            return Some(i);
        }
        i = i + 1;
    }
    None
}

/// Index of the first char of `s` that is not a digit of `radix`
fn find_non_digit(s: &[char], radix: u32) -> (r: Option<usize>)
    requires
        2 <= radix <= 36,
    ensures
        match first_non_digit(s@, radix as nat, 0) {
            Some(k) => r == Some(k as usize),
            None => r is None,
        },
{
    let mut i: usize = 0;
    while i < s.len()
        invariant
            i <= s@.len(),
            2 <= radix <= 36,
            first_non_digit(s@, radix as nat, 0) == first_non_digit(s@, radix as nat, i as int),
        decreases s@.len() - i,
    {
        if to_digit(s[i], radix).is_none() {
            return Some(i);
        }
        i = i + 1;
    }
    None
}

/// The number of chars of `s[start..end]` that are digits of `radix`
fn count_digits_in(s: &[char], start: usize, end: usize, radix: u32) -> (n: usize)
    requires
        start <= end <= s@.len(),
        2 <= radix <= 36,
    ensures
        n == count_digits(s@.subrange(start as int, end as int), radix as nat),
        n <= end - start,
{
    let mut n: usize = 0;
    let mut i = start;
    while i < end
        invariant
            start <= i <= end <= s@.len(),
            2 <= radix <= 36,
            n == count_digits(s@.subrange(start as int, i as int), radix as nat),
            n <= i - start,
        decreases end - i,
    {
        let ghost next = s@.subrange(start as int, i + 1);
        assert(next.drop_last() =~= s@.subrange(start as int, i as int));
        assert(next.last() == s@[i as int]);
        if to_digit(s[i], radix).is_some() {
            n = n + 1;
        }
        i = i + 1;
    }
    n
}

/// Appends [`multi_char_help`] of `src`, where there is one; tells whether there is.
fn push_multi_char_help(out: &mut String, src: &str) -> (ok: bool)
    ensures
        ok == multi_char_help(src@) is Some,
        ok ==> final(out)@ == old(out)@ + multi_char_help(src@)->0,
        !ok ==> final(out)@ == old(out)@,
{
    let n = src.unicode_len();
    if n < 2 || src.get_char(0) != '\'' || src.get_char(n - 1) != '\'' {
        return false;
    }
    let inner = src.substring_char(1, n - 1);
    let ichars = chars_of(inner);
    let _ = utf8_len_bound(inner);
    let il = ichars.len();
    if il == 0 {
        return false;
    }
    assert(ichars@.subrange(0, il as int) =~= ichars@);
    let cut = match escape_char(ichars.as_slice(), 0, il) {
        Some((len, _)) => len,
        None => len_utf8(ichars[0]),
    };
    match char_index_of(ichars.as_slice(), cut) {
        Some(k) => {
            push_str(out, "try removing the character(s) after `");
            push_str(out, inner.substring_char(0, k));
            push_str(out, "` (remove trailing `");
            push_str(out, inner.substring_char(k, il));
            push_str(out, "`) or change this to a string (\"");
            push_str(out, inner);
            push_str(out, "\")");
            assert(inner@.subrange(k as int, il as int) =~= inner@.skip(k as int));
            true
        },
        None => false,
    }
}

/// Appends [`escaped_char_end_help`] of `src`.
fn push_escaped_char_end_help(out: &mut String, src: &str) -> (ok: bool)
    ensures
        ok == escaped_char_end_help(src@) is Some,
        ok ==> final(out)@ == old(out)@ + escaped_char_end_help(src@)->0,
        !ok ==> final(out)@ == old(out)@,
{
    let n = src.unicode_len();
    if n < 1 || src.get_char(0) != '\'' {
        return false;
    }
    let rest = src.substring_char(1, n);
    assert(rest@ =~= src@.skip(1));
    let rchars = chars_of(rest);
    proof {
        lemma_first_pair(rchars@, '\\', '\'', 0);
    }
    match find_pair(rchars.as_slice(), '\\', '\'') {
        Some(k) => {
            push_str(
                out,
                "there is a closing single-quote candidate, but it is escaped (`\\'`). \nchar literals cannot end with an unescaped backslash (`\\`), it is indistinguishable from an escaped single-quote (`\\'`). \ntry adding a `'` to the end of the char or remove the `\\` from `\\'` to make the char `'",
            );
            push_str(out, rest.substring_char(0, k));
            push_str(out, "'`");
            true
        },
        None => false,
    }
}

/// Appends [`escaped_string_end_help`] of `src`.
fn push_escaped_string_end_help(out: &mut String, src: &str) -> (ok: bool)
    ensures
        ok == escaped_string_end_help(src@) is Some,
        ok ==> final(out)@ == old(out)@ + escaped_string_end_help(src@)->0,
        !ok ==> final(out)@ == old(out)@,
{
    let n = src.unicode_len();
    if n < 1 || src.get_char(0) != '"' {
        return false;
    }
    let rest = src.substring_char(1, n);
    assert(rest@ =~= src@.skip(1));
    let rchars = chars_of(rest);
    proof {
        lemma_first_pair(rchars@, '\\', '"', 0);
    }
    match find_pair(rchars.as_slice(), '\\', '"') {
        Some(k) => {
            push_str(
                out,
                "there is a closing double-quote candidate, but it is escaped (`\\\"`).\nstring literals cannot end with an unescaped backslash (`\\`), it is indistinguishable from an escaped double-quote (`\\\"`).\ntry adding a `\"` to the end of the string or remove the `\\` from `\\\"` to make the string `\"",
            );
            push_str(out, rest.substring_char(0, k));
            push_str(out, "\"`");
            true
        },
        None => false,
    }
}

/// Appends [`invalid_escape_help`] of `esc`.
fn push_invalid_escape_help(out: &mut String, esc: &str) -> (ok: bool)
    ensures
        ok == invalid_escape_help(esc@) is Some,
        ok ==> final(out)@ == old(out)@ + invalid_escape_help(esc@)->0,
        !ok ==> final(out)@ == old(out)@,
{
    let chars = chars_of(esc);
    let n = chars.len();
    if n < 2 || chars[0] != '\\' {
        return false;
    }
    let ch = chars[1];
    if ch == 'x' {
        let e = if n < 4 {
            n
        } else {
            4
        };
        assert(window(esc@, 2, 4) =~= esc@.subrange(2, e as int));
        let k = count_digits_in(chars.as_slice(), 2, e, 16);
        if k >= 2 {
            return false;
        }
        push_str(
            out,
            "`\\x` should be followed by 2 hexadecimal digits ([0-9a-fA-F]), this escape sequence has ",
        );
        push_decimal(out, k);
    } else if ch == 'o' {
        let e = if n < 5 {
            n
        } else {
            5
        };
        assert(window(esc@, 2, 5) =~= esc@.subrange(2, e as int));
        let k = count_digits_in(chars.as_slice(), 2, e, 8);
        if k >= 3 {
            return false;
        }
        push_str(
            out,
            "`\\o` should be followed by 3 octal digits ([0-7]), this escape sequence has ",
        );
        push_decimal(out, k);
    } else if char_is_alphabetic(ch) {
        push_str(
            out,
            "`\\a`, `\\b`, `\\e`, `\\f`, `\\n`, `\\r`, `\\t`, and `\\v` are the only supported ASCII letters that can be escape sequences",
        );
    } else if char_is_numeric(ch) {
        push_str(
            out,
            "only ascii digits (0-9) are supported for decimal (base-10) numeric escape sequences",
        );
    } else {
        push_str(
            out,
            "supported escape sequences: `\\a`, `\\b`, `\\e`, `\\f`, `\\n`, `\\r`, `\\t`, `\\v`, `\\0`-`\\9`,\n\\\n                        `\\x##` (where # is a hexadecimal digit), `\\o###` (where # is an octal digit)",
        );
    }
    true
}

/// Appends [`invalid_digit_help`] of `src`.
fn push_invalid_digit_help(out: &mut String, src: &str) -> (ok: bool)
    ensures
        ok == invalid_digit_help(src@) is Some,
        ok ==> final(out)@ == old(out)@ + invalid_digit_help(src@)->0,
        !ok ==> final(out)@ == old(out)@,
{
    let chars = chars_of(src);
    let n = chars.len();
    let (skip, radix): (usize, u32) = if n >= 2 && chars[0] == '0' && chars[1] == 'x' {
        (2, 16)
    } else if n >= 2 && chars[0] == '0' && chars[1] == 'o' {
        (2, 8)
    } else if n >= 2 && chars[0] == '0' && chars[1] == 'b' {
        (2, 2)
    } else {
        (0, 10)
    };
    assert(radix_prefix(src@) == (skip as int, radix as nat));
    let digits = src.substring_char(skip, n);
    assert(digits@ =~= src@.skip(skip as int));
    let dchars = chars_of(digits);
    proof {
        lemma_first_non_digit(dchars@, radix as nat, 0);
    }
    match find_non_digit(dchars.as_slice(), radix) {
        Some(k) => {
            push_str(out, "the suffix `");
            push_str(out, digits.substring_char(k + 1, dchars.len()));
            assert(digits@.subrange(k + 1, dchars@.len() as int) =~= digits@.skip(k + 1));
            push_str(out, "` is not valid for ");
            if radix == 16 {
                push_str(out, "hexadecimal");
            } else if radix == 8 {
                push_str(out, "octal");
            } else if radix == 2 {
                push_str(out, "binary");
            } else {
                push_str(out, "decimal");
            }
            push_str(out, " integer literals");
            true
        },
        None => false,
    }
}

/// Appends [`num_help`] of `src` and `e`.
fn push_num_help(out: &mut String, src: &str, e: NumLitError) -> (ok: bool)
    ensures
        ok == num_help(src@, e) is Some,
        ok ==> final(out)@ == old(out)@ + num_help(src@, e)->0,
        !ok ==> final(out)@ == old(out)@,
{
    match e {
        NumLitError::UInt(IntErrorKind::InvalidDigit) => push_invalid_digit_help(out, src),
        NumLitError::UInt(IntErrorKind::PosOverflow) => {
            push_str(out, "the largest supported unsigned integer value is ");
            push_decimal(out, usize::MAX);
            true
        },
        NumLitError::SInt(IntErrorKind::InvalidDigit) => {
            let n = src.unicode_len();
            if n > 0 && src.get_char(0) == '-' {
                let digits = src.substring_char(1, n);
                assert(digits@ =~= strip_minus(src@));
                push_invalid_digit_help(out, digits)
            } else {
                push_invalid_digit_help(out, src)
            }
        },
        NumLitError::SInt(IntErrorKind::PosOverflow) => {
            push_str(out, "the largest supported signed integer value is ");
            push_decimal(out, isize::MAX as usize);
            true
        },
        NumLitError::SInt(IntErrorKind::NegOverflow) => {
            push_str(out, "the smallest supported signed integer value is -");
            push_decimal(out, (isize::MAX as usize) + 1);
            true
        },
        NumLitError::Flt => {
            push_str(out, "I'm not sure how to help with this yet");
            true
        },
        _ => false,
    }
}

/// Appends a bracket char.
fn push_bracket(out: &mut String, c: char)
    ensures
        final(out)@ == old(out)@ + seq![c],
{
    push_char(out, c);
    assert(old(out)@.push(c) =~= old(out)@ + seq![c]);
}

/// Appends [`help_text`] of `src` and `err`, where there is one; tells whether there is.
pub fn push_help(out: &mut String, src: &str, err: &ErrorType) -> (ok: bool)
    ensures
        ok == help_text(src@, err@) is Some,
        ok ==> final(out)@ == old(out)@ + help_text(src@, err@)->0,
        !ok ==> final(out)@ == old(out)@,
{
    match err {
        ErrorType::UnknownToken => {
            push_str(out, "try removing the character");
            true
        },
        ErrorType::EndlessBlockComment => {
            push_str(out, "try adding `*/`");
            true
        },
        ErrorType::EmptyCharLiteral => {
            push_str(
                out,
                "chars can't be empty, try replacing `''` with `\"\"` or insert a character",
            );
            true
        },
        ErrorType::MultiCharLiteral => push_multi_char_help(out, src),
        ErrorType::EndlessCharLiteral => {
            push_str(out, "try adding a `'` to the end of the char");
            true
        },
        ErrorType::EscapedCharLiteralEnd => push_escaped_char_end_help(out, src),
        ErrorType::EndlessStringLiteral => {
            push_str(out, "try adding a `\"` to the end of the string");
            true
        },
        ErrorType::EscapedStringLiteralEnd => push_escaped_string_end_help(out, src),
        ErrorType::InvalidEscape(esc) => push_invalid_escape_help(out, esc),
        ErrorType::InvalidNumLiteral(e) => push_num_help(out, src, *e),
        ErrorType::IncorrectCloseBracket { expect, actual } => {
            push_str(out, "try inserting a `");
            push_bracket(out, expect.0.close());
            push_str(out, "` before the `");
            push_bracket(out, actual.close());
            push_str(out, "`, add a `");
            push_bracket(out, actual.open());
            push_str(out, "` before it and after the `");
            push_bracket(out, expect.0.open());
            push_str(out, "`, or remove either the `");
            push_bracket(out, expect.0.open());
            push_str(out, "` or `");
            push_bracket(out, actual.close());
            push_str(out, "`");
            true
        },
        ErrorType::ExcessCloseBracket { actual } => {
            push_str(out, "try removing the `");
            push_bracket(out, actual.close());
            push_str(out, "` or add a `");
            push_bracket(out, actual.open());
            push_str(out, "` before it");
            true
        },
        ErrorType::MissingCloseBracket { expect } => {
            push_str(out, "try inserting a `");
            push_bracket(out, expect.0.close());
            push_str(out, "` or remove the `");
            push_bracket(out, expect.0.open());
            push_str(out, "`");
            true
        },
        ErrorType::MissingToken { expect } => {
            push_str(out, "try inserting ");
            push_article(out, expect.article);
            push_str(out, " ");
            push_str(out, expect.expect);
            true
        },
        ErrorType::UnexpectedToken { expect, actual } => {
            push_str(out, "try inserting ");
            push_article(out, expect.article);
            push_str(out, " ");
            push_str(out, expect.expect);
            push_str(out, " before `");
            push_str(out, actual.src);
            push_str(out, "` or remove `");
            push_str(out, actual.src);
            push_str(out, "`");
            true
        },
    }
}

/// An `\o` escape sequence whose three digits are all octal: it is invalid only because the
/// value they spell is over 255.
pub open spec fn is_octal_overflow(p: Seq<char>) -> bool {
    &&& p.len() >= 5
    &&& p[0] == '\\'
    &&& p[1] == 'o'
    &&& forall|k: int| 2 <= k < 5 ==> digit_value(#[trigger] p[k], 8) is Some
}

/// The errors that the scanner can report and that no tip is made for, with the text they
/// span: an integer literal with no digit after its radix prefix, a char literal whose only
/// closing candidate is escaped, and an octal escape sequence whose value is over 255.
pub open spec fn has_no_tip(e: ErrorModel, src: Seq<char>) -> bool {
    ||| e == ErrorModel::InvalidNumLiteral(NumLitError::UInt(IntErrorKind::Empty))
    ||| (e == ErrorModel::EscapedStringLiteralEnd && src.len() > 0 && src[0] == '\'')
    ||| (e matches ErrorModel::InvalidEscape(p) && is_octal_overflow(p))
}

proof fn lemma_count_digits(w: Seq<char>, radix: nat)
    ensures
        count_digits(w, radix) <= w.len(),
        count_digits(w, radix) == w.len() ==> forall|j: int|
            0 <= j < w.len() ==> digit_value(#[trigger] w[j], radix) is Some,
    decreases w.len(),
{
    if w.len() > 0 {
        lemma_count_digits(w.drop_last(), radix);
        if count_digits(w, radix) == w.len() {
            assert forall|j: int| 0 <= j < w.len() implies digit_value(#[trigger] w[j], radix) is Some by {
                if j < w.len() - 1 {
                    assert(w[j] == w.drop_last()[j]);
                }
            }
        }
    }
}

proof fn lemma_fold_digits(s: Seq<char>, radix: nat, max: nat)
    ensures
        fold_digits(s, radix, max) is Ok ==> forall|j: int|
            0 <= j < s.len() ==> digit_value(#[trigger] s[j], radix) is Some,
        fold_digits(s, radix, max) matches Err(e) ==> e == IntErrorKind::InvalidDigit || e
            == IntErrorKind::PosOverflow,
        fold_digits(s, radix, max) == Err::<nat, IntErrorKind>(IntErrorKind::InvalidDigit)
            ==> exists|j: int| 0 <= j < s.len() && digit_value(#[trigger] s[j], radix) is None,
    decreases s.len(),
{
    if s.len() > 0 {
        lemma_fold_digits(s.drop_last(), radix, max);
        let f = fold_digits(s.drop_last(), radix, max);
        if fold_digits(s, radix, max) is Ok {
            assert forall|j: int| 0 <= j < s.len() implies digit_value(#[trigger] s[j], radix) is Some by {
                if j < s.len() - 1 {
                    assert(s[j] == s.drop_last()[j]);
                }
            }
        }
        if fold_digits(s, radix, max) == Err::<nat, IntErrorKind>(IntErrorKind::InvalidDigit) {
            if f is Ok {
                assert(digit_value(s[s.len() - 1], radix) is None);
            } else {
                let j = choose|j: int| 0 <= j < s.len() - 1 && digit_value(#[trigger] s.drop_last()[j], radix) is None;
                assert(s[j] == s.drop_last()[j]);
            }
        }
    }
}

/// `\` and `+` are no digit in any radix up to 36.
proof fn lemma_no_digit(radix: nat)
    requires
        radix <= 36,
    ensures
        digit_value('\\', radix) is None,
        digit_value('+', radix) is None,
        digit_value('-', radix) is None,
{
}

/// What `from_str_radix` reads has no `\`; when it fails, it fails for want of digits, for a
/// char that is not a digit, or for a value too large.
proof fn lemma_parse_uint(s: Seq<char>, radix: nat, max: nat)
    requires
        2 <= radix <= 36,
    ensures
        parse_uint_spec(s, radix, max) is Ok ==> forall|j: int| 0 <= j < s.len() ==> #[trigger] s[j] != '\\',
        parse_uint_spec(s, radix, max) matches Err(e) ==> e == IntErrorKind::Empty || e
            == IntErrorKind::InvalidDigit || e == IntErrorKind::PosOverflow,
        parse_uint_spec(s, radix, max) == Err::<nat, IntErrorKind>(IntErrorKind::InvalidDigit)
            ==> exists|j: int| 0 <= j < s.len() && digit_value(#[trigger] s[j], radix) is None,
{
    lemma_no_digit(radix);
    if s.len() > 0 && s[0] == '+' && !(s.len() == 1) {
        let t = s.drop_first();
        lemma_fold_digits(t, radix, max);
        if parse_uint_spec(s, radix, max) is Ok {
            assert forall|j: int| 0 <= j < s.len() implies #[trigger] s[j] != '\\' by {
                if j > 0 {
                    assert(s[j] == t[j - 1]);
                    assert(digit_value(t[j - 1], radix) is Some);
                }
            }
        }
        if parse_uint_spec(s, radix, max) == Err::<nat, IntErrorKind>(IntErrorKind::InvalidDigit) {
            assert(digit_value(s[0], radix) is None);
        }
    } else if s.len() > 0 && !(s.len() == 1 && (s[0] == '+' || s[0] == '-')) {
        lemma_fold_digits(s, radix, max);
        if parse_uint_spec(s, radix, max) is Ok {
            assert forall|j: int| 0 <= j < s.len() implies #[trigger] s[j] != '\\' by {
                assert(digit_value(s[j], radix) is Some);
            }
        }
    } else if s.len() == 1 {
        assert(digit_value(s[0], radix) is None);
    }
}

/// Two hexadecimal digits always spell a value of at most 255.
proof fn lemma_two_hex_digits(t: Seq<char>)
    requires
        t.len() == 2,
        digit_value(t[0], 16) is Some,
        digit_value(t[1], 16) is Some,
    ensures
        all_ascii(t),
        parse_uint_spec(t, 16, 255) is Ok,
{
    let a = t.drop_last();
    assert(a.drop_last() =~= Seq::<char>::empty());
    assert(a.last() == t[0]);
    assert(fold_digits(a.drop_last(), 16, 255) == Ok::<nat, IntErrorKind>(0));
    assert(fold_digits(a, 16, 255) is Ok);
    assert(fold_digits(t, 16, 255) is Ok);
}

/// The text of an invalid escape sequence at the start of `e`, cut after `m` chars, gets a
/// tip unless it is an octal escape whose value is over 255.
proof fn lemma_bad_escape_tip(e: Seq<char>, m: int)
    requires
        2 <= m <= e.len(),
        e[0] == '\\',
        escape_spec(e).1 is None,
        !is_octal_overflow(e.take(m)),
    ensures
        invalid_escape_help(e.take(m)) is Some,
{
    let p = e.take(m);
    if e[1] == 'x' {
        let w = window(p, 2, 4);
        lemma_count_digits(w, 16);
        if count_digits(w, 16) >= 2 {
            assert(m >= 4);
            let t = e.subrange(2, 4);
            assert(w =~= t);
            assert(digit_value(w[0], 16) is Some);
            assert(digit_value(w[1], 16) is Some);
            lemma_two_hex_digits(t);
        }
    } else if e[1] == 'o' {
        let w = window(p, 2, 5);
        lemma_count_digits(w, 8);
        if count_digits(w, 8) >= 3 {
            assert(m >= 5);
            assert(w =~= p.subrange(2, 5));
            assert forall|k: int| 2 <= k < 5 implies digit_value(#[trigger] p[k], 8) is Some by {
                assert(p[k] == w[k - 2]);
            }
        }
    }
}

/// An integer or float literal that is not valid gets a tip, unless it has no digit after its
/// radix prefix.
proof fn lemma_number_tip(src: Seq<char>, e: NumLitError)
    requires
        number_value(src) == Err::<ValueModel, ErrorModel>(ErrorModel::InvalidNumLiteral(e)),
        e != NumLitError::UInt(IntErrorKind::Empty),
    ensures
        num_help(src, e) is Some,
{
    if !is_float_numeral(src) {
        let negative = src.len() > 0 && src[0] == '-';
        let magnitude = if negative {
            src.drop_first()
        } else {
            src
        };
        let (skip, radix) = radix_prefix(magnitude);
        let digits = magnitude.skip(skip);
        lemma_parse_uint(digits, radix, usize::MAX as nat);
        lemma_no_digit(10);
        if e == NumLitError::UInt(IntErrorKind::InvalidDigit) {
            if negative {
                assert(radix_prefix(src) == (0int, 10nat));
                assert(src.skip(0) =~= src);
                assert(first_non_digit(src, 10, 0) == Some(0int));
            } else {
                let j = choose|j: int| 0 <= j < digits.len() && digit_value(#[trigger] digits[j], radix) is None;
                lemma_first_non_digit_found(digits, radix, 0, j);
            }
        }
    }
}

/// A char that is not a digit at or after `i` is found.
proof fn lemma_first_non_digit_found(s: Seq<char>, radix: nat, i: int, j: int)
    requires
        0 <= i <= j < s.len(),
        digit_value(s[j], radix) is None,
    ensures
        first_non_digit(s, radix, i) is Some,
    decreases j - i,
{
    if i < j && digit_value(s[i], radix) is Some {
        lemma_first_non_digit_found(s, radix, i + 1, j);
    }
}

/// A pair `a b` at or after `i` is found.
proof fn lemma_first_pair_found(s: Seq<char>, a: char, b: char, i: int, j: int)
    requires
        0 <= i <= j,
        j + 1 < s.len(),
        s[j] == a,
        s[j + 1] == b,
    ensures
        first_pair(s, a, b, i) is Some,
    decreases j - i,
{
    if i < j && !(s[i] == a && s[i + 1] == b) {
        lemma_first_pair_found(s, a, b, i + 1, j);
    }
}

/// Whether the char at `i` follows an unescaped `\`, reading `s` from `i0` (where nothing is
/// escaped) as [`find_unescaped`] does
pub open spec fn escaped_at(s: Seq<char>, i0: int, i: int) -> bool
    decreases i - i0,
{
    if i <= i0 {
        false
    } else {
        !escaped_at(s, i0, i - 1) && s[i - 1] == '\\'
    }
}

/// On the way to the `d` it finds, [`find_unescaped`] is in the escape state [`escaped_at`].
proof fn lemma_find_state(s: Seq<char>, i0: int, d: char, t: int, i: int)
    requires
        0 <= i0 <= i <= t,
        find_unescaped(s, i0, d, false) == Some(t),
    ensures
        find_unescaped(s, i, d, escaped_at(s, i0, i)) == Some(t),
    decreases i - i0,
{
    if i > i0 {
        lemma_find_state(s, i0, d, t, i - 1);
        let esc = escaped_at(s, i0, i - 1);
        lemma_find_unescaped(s, i0, d, false);
        if !esc && s[i - 1] == d {
            assert(find_unescaped(s, i - 1, d, esc) == Some(i - 1));
        }
    }
}

/// The `d` that [`find_unescaped`] finds is not escaped.
proof fn lemma_close_unescaped(s: Seq<char>, i0: int, d: char, t: int)
    requires
        0 <= i0,
        find_unescaped(s, i0, d, false) == Some(t),
    ensures
        i0 <= t < s.len(),
        s[t] == d,
        !escaped_at(s, i0, t),
{
    lemma_find_unescaped(s, i0, d, false);
    lemma_find_state(s, i0, d, t, t);
    if escaped_at(s, i0, t) {
        lemma_find_unescaped(s, t + 1, d, !escaped_at(s, i0, t) && s[t] == '\\');
    }
}

/// The escape states of a part of `s` read from its start are those of `s` read from where
/// the part starts.
proof fn lemma_escaped_at_shift(s: Seq<char>, i0: int, t: int, k: int)
    requires
        0 <= i0 <= t <= s.len(),
        0 <= k <= t - i0,
    ensures
        escaped_at(s.subrange(i0, t), 0, k) == escaped_at(s, i0, i0 + k),
    decreases k,
{
    if k > 0 {
        lemma_escaped_at_shift(s, i0, t, k - 1);
        assert(s.subrange(i0, t)[k - 1] == s[i0 + k - 1]);
    }
}

/// Where no unescaped `d` is found but a `d` follows, that `d` or an earlier one is escaped
/// by the `\` just before it.
proof fn lemma_escaped_closer(s: Seq<char>, i0: int, d: char, i: int, t: int)
    requires
        0 <= i0 <= i <= t < s.len(),
        s[t] == d,
        find_unescaped(s, i, d, escaped_at(s, i0, i)) is None,
    ensures
        exists|j: int| i0 <= j && j + 1 <= t && #[trigger] s[j] == '\\' && s[j + 1] == d,
    decreases t - i,
{
    let esc = escaped_at(s, i0, i);
    if i == t {
        assert(esc);
        assert(s[t - 1] == '\\');
    } else {
        lemma_escaped_closer(s, i0, d, i + 1, t);
    }
}

/// Converting the escape sequences of `c` from a char `k` the walk reaches stops, when it
/// fails, at an invalid escape sequence that has a char after its `\`, unless `c` ends on an
/// unescaped `\`.
proof fn lemma_convert_failure(c: Seq<char>, k: int, p: Seq<char>)
    requires
        0 <= k <= c.len(),
        convert_escapes(c, k) == Err::<(Seq<char>, Seq<(int, int)>), Seq<char>>(p),
        !escaped_at(c, 0, k),
        !escaped_at(c, 0, c.len() as int),
    ensures
        exists|j: int|
            #![trigger c.skip(j)]
            k <= j && j + 2 <= c.len() && c[j] == '\\' && escape_spec(c.skip(j)).1 is None && p
                == c.skip(j).take(chars_within(c.skip(j), escape_spec(c.skip(j)).0) as int),
    decreases c.len() - k,
{
    reveal(convert_escapes);
    if k < c.len() {
        if c[k] == '\\' {
            if k + 1 == c.len() {
                assert(escaped_at(c, 0, k + 1));
            }
            let e = c.skip(k);
            let (len, v) = escape_spec(e);
            if let Some(ch) = v {
                lemma_escape_bytes(e);
                let span = escape_span(e) as int;
                assert(escaped_at(c, 0, k + 1));
                assert(!escaped_at(c, 0, k + 2));
                if e[1] == 'x' || e[1] == 'o' {
                    let radix: nat = if e[1] == 'x' {
                        16
                    } else {
                        8
                    };
                    lemma_parse_uint(e.subrange(2, span), radix, 255);
                    assert(e.subrange(2, span)[0] == c[k + 2]);
                    assert(!escaped_at(c, 0, k + 3));
                    assert(e.subrange(2, span)[1] == c[k + 3]);
                    assert(!escaped_at(c, 0, k + 4));
                    if e[1] == 'o' {
                        assert(e.subrange(2, span)[2] == c[k + 4]);
                        assert(!escaped_at(c, 0, k + 5));
                    }
                }
                lemma_convert_failure(c, k + span, p);
            }
        } else {
            lemma_convert_failure(c, k + 1, p);
        }
    }
}

/// A char or string literal opened by `d` at `pos` and closed at `close` whose value is not
/// valid gets a tip, unless the reason is an octal escape sequence whose value is over 255.
proof fn lemma_quoted_tip(s: Seq<char>, pos: int, d: char, close: int)
    requires
        0 <= pos < s.len(),
        s[pos] == d,
        d == '"' || d == '\'',
        find_unescaped(s, pos + 1, d, false) == Some(close),
        quoted_step(s, pos, d).0 matches LexItem::Error(e) && !has_no_tip(
            e,
            s.subrange(pos, close + 1),
        ),
    ensures
        quoted_step(s, pos, d).0 matches LexItem::Error(e) && help_text(
            s.subrange(pos, close + 1),
            e,
        ) is Some,
{
    lemma_close_unescaped(s, pos + 1, d, close);
    let lexeme = s.subrange(pos, close + 1);
    let c = s.subrange(pos + 1, close);
    assert(lexeme.subrange(1, lexeme.len() - 1) =~= c);
    lemma_escaped_at_shift(s, pos + 1, close, close - pos - 1);
    assert(!escaped_at(c, 0, c.len() as int));
    lemma_char_width_bounds('\\');
    if d == '"' {
        if let Err(p) = convert_escapes(c, 0) {
            lemma_convert_failure(c, 0, p);
            let j = choose|j: int|
                #![trigger c.skip(j)]
                0 <= j && j + 2 <= c.len() && c[j] == '\\' && escape_spec(c.skip(j)).1 is None && p
                    == c.skip(j).take(chars_within(c.skip(j), escape_spec(c.skip(j)).0) as int);
            let e = c.skip(j);
            let len = escape_spec(e).0;
            lemma_chars_within_bound(e, len);
            assert(e[0] == c[j]);
            lemma_char_width_bounds(e[1]);
            let e1 = e.drop_first();
            assert(e1[0] == e[1]);
            assert(char_width(e[1]) <= len - 1);
            assert(chars_within(e1, (len - 1) as nat) >= 1);
            assert(chars_within(e, len) == 1 + chars_within(e1, (len - 1) as nat));
            let m = chars_within(e, len) as int;
            lemma_bad_escape_tip(e, m);
        }
    } else {
        let inner = c;
        if inner.len() > 0 && inner[0] == '\\' {
            if inner.len() == 1 {
                assert(!escaped_at(c, 0, 0));
                assert(escaped_at(c, 0, 1));
            }
            let (len, v) = escape_spec(inner);
            match v {
                None => {
                    assert(inner.take(inner.len() as int) =~= inner);
                    lemma_bad_escape_tip(inner, inner.len() as int);
                },
                Some(ch) => {
                    lemma_escape_bytes(inner);
                    let span = escape_span(inner) as int;
                    assert(byte_offset(inner, span) == len);
                },
            }
        } else if inner.len() >= 2 {
            assert(inner.take(1) =~= seq![inner[0]]);
            lemma_utf8_len_single(inner[0]);
            assert(byte_offset(inner, 1) == char_width(inner[0]));
        }
    }
}

/// An error that one step of the scanner reports gets a tip, unless it is one of those that
/// [`has_no_tip`] lists.
proof fn lemma_step_tip(s: Seq<char>, pos: int, can_be_negative: bool)
    requires
        0 <= pos < s.len(),
        lex_step(s, pos, can_be_negative).0 matches LexItem::Error(e) && !has_no_tip(
            e,
            s.subrange(pos, lex_step(s, pos, can_be_negative).1),
        ),
    ensures
        lex_step(s, pos, can_be_negative).0 matches LexItem::Error(e) && help_text(
            s.subrange(pos, lex_step(s, pos, can_be_negative).1),
            e,
        ) is Some,
{
    let ch = s[pos];
    if !is_whitespace(ch) && !(ch == '\\' || ch == '$') {
        if ch == '"' || ch == '\'' {
            match find_unescaped(s, pos + 1, ch, false) {
                Some(close) => lemma_quoted_tip(s, pos, ch, close),
                None => {
                    let rest = s.subrange(pos + 1, s.len() as int);
                    if rest.contains(ch) && ch == '"' {
                        let t = choose|t: int| 0 <= t < rest.len() && rest[t] == ch;
                        assert(rest[t] == s[pos + 1 + t]);
                        lemma_escaped_closer(s, pos + 1, ch, pos + 1, pos + 1 + t);
                        let j = choose|j: int|
                            pos + 1 <= j && j + 1 <= pos + 1 + t && #[trigger] s[j] == '\\' && s[j
                                + 1] == ch;
                        let src = s.subrange(pos, s.len() as int);
                        let q = src.skip(1);
                        assert(q =~= rest);
                        assert(q[j - pos - 1] == s[j]);
                        assert(q[j - pos] == s[j + 1]);
                        lemma_first_pair_found(q, '\\', '"', 0, j - pos - 1);
                    }
                },
            }
        } else if !(is_alphabetic(ch) || ch == '_') && starts_number(s, pos, can_be_negative) {
            let end = trim_number_end(s, pos, number_end(s, pos, num_start_state()));
            let lexeme = s.subrange(pos, end);
            if let Err(ErrorModel::InvalidNumLiteral(e)) = number_value(lexeme) {
                if e != NumLitError::UInt(IntErrorKind::Empty) {
                    lemma_number_tip(lexeme, e);
                }
            }
        }
    }
}

/// Every error the scanner reports has a tip for resolving it, except those that
/// [`has_no_tip`] lists: an integer literal with no digit after its radix prefix (`0x`), a
/// char literal whose only closing candidate is escaped (`'\'`), and an octal escape sequence
/// whose value is over 255 (`\o777`).
pub proof fn lemma_scanner_errors_have_tips(s: Seq<char>, i: int)
    requires
        0 <= i < lex(s).len(),
        lex(s)[i].0 matches LexItem::Error(e) && !has_no_tip(
            e,
            s.subrange(lex(s)[i].1, lex(s)[i].2),
        ),
    ensures
        lex(s)[i].0 matches LexItem::Error(e) && help_text(s.subrange(lex(s)[i].1, lex(s)[i].2), e)
            is Some,
{
    let l = lex(s);
    lemma_lex_from_steps(s, 0, true, i);
    lemma_step_tip(s, l[i].1, negative_state(l, i, true));
}

} // verus!
