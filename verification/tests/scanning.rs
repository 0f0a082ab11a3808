//! More scanner tests: every token category, the errors, and how the tokens cover the source.

use batscript::error::{ContextError, ErrorType, NumLitError, TokenResult};
use batscript::numeral::IntErrorKind;
use batscript::scanner::token::{
    Escapes, Keyword, Punctuation, StringLiteral, Token, TokenType, TokenValue,
};
use batscript::scanner::{confirm_negative_number_rule, tokenize, Scanner};
use std::borrow::Cow;

fn token<'a>(src: &'a str, ty: TokenType, val: TokenValue<'a>) -> TokenResult<'a> {
    Ok((Token { src, ty }, val))
}

fn error<'a>(source: &'a str, start: usize, end: usize, err: ErrorType<'a>) -> TokenResult<'a> {
    Err(ContextError {
        source,
        range: start..end,
        err,
    })
}

/// The text each result stands for: a token's lexeme, or what an error spans
fn text_of<'a>(item: &TokenResult<'a>) -> &'a str {
    match item {
        Ok((t, _)) => t.src,
        Err(e) => &e.source[e.range.clone()],
    }
}

#[test]
fn scan_keywords() {
    assert_eq!(
        tokenize("if struct"),
        vec![
            token("if", TokenType::CtrlKeyword, TokenValue::Keyword(Keyword::If)),
            token(" ", TokenType::Whitespace, TokenValue::Ignore),
            token("struct", TokenType::Keyword, TokenValue::Keyword(Keyword::Struct)),
        ]
    );
}

#[test]
fn scan_callable_and_bool() {
    assert_eq!(
        tokenize("f(true)"),
        vec![
            token("f", TokenType::Callable, TokenValue::Direct("f")),
            token("(", TokenType::Punctuation, TokenValue::Punctuation(Punctuation::LParen)),
            token("true", TokenType::BoolLiteral, TokenValue::BoolLiteral(true)),
            token(")", TokenType::Punctuation, TokenValue::Punctuation(Punctuation::RParen)),
        ]
    );
}

#[test]
fn scan_macro_and_param() {
    assert_eq!(
        tokenize("\\name $arg"),
        vec![
            token("\\name", TokenType::Macro, TokenValue::Direct("\\name")),
            token(" ", TokenType::Whitespace, TokenValue::Ignore),
            token("$arg", TokenType::MacroParam, TokenValue::Direct("$arg")),
        ]
    );
}

#[test]
fn scan_string_without_escapes_borrows() {
    let items = tokenize("\"hi\"");
    assert_eq!(
        items,
        vec![token(
            "\"hi\"",
            TokenType::StringLiteral,
            TokenValue::StringLiteral(StringLiteral::borrowed("hi"))
        )]
    );
}

#[test]
fn scan_string_with_escape() {
    let items = tokenize("\"a\\nb\"");
    assert_eq!(items.len(), 1);
    match &items[0] {
        Ok((t, TokenValue::StringLiteral(lit))) => {
            assert_eq!(t.src, "\"a\\nb\"");
            assert_eq!(lit.text.as_ref(), "a\nb");
            assert_eq!(lit.escapes, vec![1..3]);
        }
        other => panic!("expected a string literal, found {other:?}"),
    }
}

#[test]
fn scan_string_invalid_escape() {
    const SOURCE: &str = "\"\\q\"";
    assert_eq!(
        tokenize(SOURCE),
        vec![error(SOURCE, 0, 4, ErrorType::InvalidEscape("\\q"))]
    );
}

#[test]
fn scan_endless_literals_and_comment() {
    assert_eq!(
        tokenize("\"abc"),
        vec![error("\"abc", 0, 4, ErrorType::EndlessStringLiteral)]
    );
    assert_eq!(
        tokenize("'a"),
        vec![error("'a", 0, 2, ErrorType::EndlessCharLiteral)]
    );
    assert_eq!(
        tokenize("/* x"),
        vec![error("/* x", 0, 4, ErrorType::EndlessBlockComment)]
    );
}

#[test]
fn scan_nested_block_comment() {
    const SOURCE: &str = "/* a /* b */ c */x";
    assert_eq!(
        tokenize(SOURCE),
        vec![
            token("/* a /* b */ c */", TokenType::Comment, TokenValue::Ignore),
            token("x", TokenType::Identifier, TokenValue::Direct("x")),
        ]
    );
}

#[test]
fn scan_unknown_tokens() {
    assert_eq!(tokenize("~"), vec![error("~", 0, 1, ErrorType::UnknownToken)]);
    assert_eq!(
        tokenize("\u{a7}"),
        vec![error("\u{a7}", 0, 2, ErrorType::UnknownToken)]
    );
}

#[test]
fn scan_minus_after_value_is_subtraction() {
    assert_eq!(
        tokenize("5 -3"),
        vec![
            token("5", TokenType::NumberLiteral, TokenValue::UIntLiteral(5)),
            token(" ", TokenType::Whitespace, TokenValue::Ignore),
            token("-", TokenType::Punctuation, TokenValue::Punctuation(Punctuation::Sub)),
            token("3", TokenType::NumberLiteral, TokenValue::UIntLiteral(3)),
        ]
    );
}

#[test]
fn scan_minus_after_open_paren_is_negative() {
    assert_eq!(
        tokenize("(-3)"),
        vec![
            token("(", TokenType::Punctuation, TokenValue::Punctuation(Punctuation::LParen)),
            token("-3", TokenType::NumberLiteral, TokenValue::SIntLiteral(-3)),
            token(")", TokenType::Punctuation, TokenValue::Punctuation(Punctuation::RParen)),
        ]
    );
}

#[test]
fn scan_longest_punctuation() {
    assert_eq!(
        tokenize("<<="),
        vec![token(
            "<<=",
            TokenType::Punctuation,
            TokenValue::Punctuation(Punctuation::ShlAssign)
        )]
    );
}

#[test]
fn scan_number_errors() {
    const OVERFLOW: &str = "0x1FFFFFFFFFFFFFFFFFFFF";
    assert_eq!(
        tokenize(OVERFLOW),
        vec![error(
            OVERFLOW,
            0,
            OVERFLOW.len(),
            ErrorType::InvalidNumLiteral(NumLitError::UInt(IntErrorKind::PosOverflow))
        )]
    );
    assert_eq!(
        tokenize("12ab"),
        vec![error(
            "12ab",
            0,
            4,
            ErrorType::InvalidNumLiteral(NumLitError::UInt(IntErrorKind::InvalidDigit))
        )]
    );
    assert_eq!(
        tokenize("0x"),
        vec![error(
            "0x",
            0,
            2,
            ErrorType::InvalidNumLiteral(NumLitError::UInt(IntErrorKind::Empty))
        )]
    );
    assert_eq!(
        tokenize("1e"),
        vec![error("1e", 0, 2, ErrorType::InvalidNumLiteral(NumLitError::Flt))]
    );
    assert_eq!(
        tokenize("1.2.3"),
        vec![
            token("1.2", TokenType::NumberLiteral, TokenValue::FltLiteral("1.2")),
            token(".", TokenType::Punctuation, TokenValue::Punctuation(Punctuation::Dot)),
            token("3", TokenType::NumberLiteral, TokenValue::UIntLiteral(3)),
        ]
    );
}

#[test]
fn scan_line_comment_before_crlf() {
    assert_eq!(
        tokenize("// a\r\nx"),
        vec![
            token("// a", TokenType::Comment, TokenValue::Ignore),
            token("\r\n", TokenType::Whitespace, TokenValue::Ignore),
            token("x", TokenType::Identifier, TokenValue::Direct("x")),
        ]
    );
}

#[test]
fn scan_results_cover_the_source() {
    const SOURCE: &str = "fn f(x) { let y = 'ab' + \"q\\tz\" @ 0x1F; } /* end";
    let items = tokenize(SOURCE);
    let text: String = items.iter().map(text_of).collect();
    assert_eq!(text, SOURCE);
    assert!(items.iter().all(|item| !text_of(item).is_empty()));
}

#[test]
fn scan_scanner_one_at_a_time() {
    let mut scanner = Scanner::new("a b");
    assert_eq!(
        scanner.next(),
        Some(token("a", TokenType::Identifier, TokenValue::Direct("a")))
    );
    assert_eq!(
        scanner.next(),
        Some(token(" ", TokenType::Whitespace, TokenValue::Ignore))
    );
    assert_eq!(
        scanner.next(),
        Some(token("b", TokenType::Identifier, TokenValue::Direct("b")))
    );
    assert_eq!(scanner.next(), None);
    assert_eq!(scanner.next(), None);
}

#[test]
fn escapes_in_order() {
    let mut walk = Escapes::new("a\\nb\\q\\\\");
    assert_eq!(walk.next(), Some(Ok((1..3, '\n'))));
    assert_eq!(walk.next(), Some(Err(ErrorType::InvalidEscape("\\q"))));
    assert_eq!(walk.next(), Some(Ok((6..8, '\\'))));
    assert_eq!(walk.next(), None);
    assert_eq!(walk.next(), None);
}

#[test]
fn escapes_with_wide_chars() {
    let mut walk = Escapes::new("\\x41\\\u{e9}\\o101");
    assert_eq!(walk.next(), Some(Ok((0..4, 'A'))));
    assert_eq!(walk.next(), Some(Err(ErrorType::InvalidEscape("\\\u{e9}"))));
    assert_eq!(walk.next(), Some(Ok((7..12, 'A'))));
    assert_eq!(walk.next(), None);
}

#[test]
fn scan_logic_and_macro_punctuation() {
    assert_eq!(
        tokenize("a!&=b!|c!^d##@**="),
        vec![
            token("a", TokenType::Identifier, TokenValue::Direct("a")),
            token("!&=", TokenType::Punctuation, TokenValue::Punctuation(Punctuation::NandAssign)),
            token("b", TokenType::Identifier, TokenValue::Direct("b")),
            token("!|", TokenType::Punctuation, TokenValue::Punctuation(Punctuation::Nor)),
            token("c", TokenType::Identifier, TokenValue::Direct("c")),
            token("!^", TokenType::Punctuation, TokenValue::Punctuation(Punctuation::Xnor)),
            token("d", TokenType::Identifier, TokenValue::Direct("d")),
            token("##", TokenType::Punctuation, TokenValue::Punctuation(Punctuation::Concat)),
            token("@", TokenType::Punctuation, TokenValue::Punctuation(Punctuation::Reference)),
            token(
                "**=",
                TokenType::Punctuation,
                TokenValue::Punctuation(Punctuation::ExponentAssign)
            ),
        ]
    );
    assert_eq!(
        tokenize("!&"),
        vec![token("!&", TokenType::Punctuation, TokenValue::Punctuation(Punctuation::Nand))]
    );
}

#[test]
fn scan_flow_keywords() {
    let items = tokenize("match do break skip ret yeild has");
    let keywords: Vec<(TokenType, Keyword)> = items
        .iter()
        .filter_map(|item| match item {
            Ok((t, TokenValue::Keyword(k))) => Some((t.ty, *k)),
            _ => None,
        })
        .collect();
    assert_eq!(
        keywords,
        vec![
            (TokenType::CtrlKeyword, Keyword::Match),
            (TokenType::CtrlKeyword, Keyword::Do),
            (TokenType::CtrlKeyword, Keyword::Break),
            (TokenType::CtrlKeyword, Keyword::Skip),
            (TokenType::CtrlKeyword, Keyword::Ret),
            (TokenType::CtrlKeyword, Keyword::Yeild),
            (TokenType::CtrlKeyword, Keyword::Has),
        ]
    );
}

#[test]
fn scan_block_comment_slash_star_slash_nests() {
    assert_eq!(
        tokenize("/* /*/ */x"),
        vec![
            token("/* /*/ */", TokenType::Comment, TokenValue::Ignore),
            token("x", TokenType::Identifier, TokenValue::Direct("x")),
        ]
    );
}

#[test]
fn scan_line_comment_stops_at_carriage_return() {
    assert_eq!(
        tokenize("// a\rb"),
        vec![
            token("// a", TokenType::Comment, TokenValue::Ignore),
            token("\r", TokenType::Whitespace, TokenValue::Ignore),
            token("b", TokenType::Identifier, TokenValue::Direct("b")),
        ]
    );
}

#[test]
fn scan_negative_hex_with_e_digit() {
    assert_eq!(
        tokenize("-0x1E"),
        vec![token("-0x1E", TokenType::NumberLiteral, TokenValue::SIntLiteral(-30))]
    );
    assert_eq!(
        tokenize("0x1E"),
        vec![token("0x1E", TokenType::NumberLiteral, TokenValue::UIntLiteral(30))]
    );
}

#[test]
fn scan_negative_number_rule_holds() {
    confirm_negative_number_rule("a-1; (-2) x = -3");
    let items = tokenize("(-2)-3");
    assert_eq!(
        items,
        vec![
            token("(", TokenType::Punctuation, TokenValue::Punctuation(Punctuation::LParen)),
            token("-2", TokenType::NumberLiteral, TokenValue::SIntLiteral(-2)),
            token(")", TokenType::Punctuation, TokenValue::Punctuation(Punctuation::RParen)),
            token("-", TokenType::Punctuation, TokenValue::Punctuation(Punctuation::Sub)),
            token("3", TokenType::NumberLiteral, TokenValue::UIntLiteral(3)),
        ]
    );
}

#[test]
fn scan_string_text_borrowed_without_escapes() {
    match &tokenize("\"ab\"")[0] {
        Ok((_, TokenValue::StringLiteral(l))) => {
            assert!(matches!(l.text, Cow::Borrowed("ab")));
            assert!(l.escapes.is_empty());
        }
        other => panic!("expected a string literal, found {other:?}"),
    }
    match &tokenize("\"a\\tb\"")[0] {
        Ok((_, TokenValue::StringLiteral(l))) => {
            assert!(matches!(l.text, Cow::Owned(_)));
            assert_eq!(l.text, "a\tb");
        }
        other => panic!("expected a string literal, found {other:?}"),
    }
}
