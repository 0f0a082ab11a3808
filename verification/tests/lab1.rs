//! Scanner tests: each source code gives exactly the tokens or errors listed.

use batscript::error::{ContextError, ErrorType};
use batscript::scanner::token::{CharLiteral, Token, TokenType, TokenValue};
use batscript::scanner::tokenize;

/// Checks that `source` scans to a single float literal token whose value is `expected`.
fn assert_single_float(source: &str, expected: f64) {
    let items = tokenize(source);
    assert_eq!(items.len(), 1);
    match &items[0] {
        Ok((token, TokenValue::FltLiteral(text))) => {
            assert_eq!(
                *token,
                Token {
                    src: source,
                    ty: TokenType::NumberLiteral,
                }
            );
            assert_eq!(text.parse::<f64>().expect("float literal text"), expected);
        }
        other => panic!("expected a float literal, found {other:?}"),
    }
}

#[test]
fn test_scan_whitespace_single() {
    const SOURCE: &str = " ";
    assert_eq!(
        tokenize(SOURCE).as_slice(),
        &[Ok((
            Token {
                src: SOURCE,
                ty: TokenType::Whitespace,
            },
            TokenValue::Ignore
        ))]
    );
}

#[test]
fn test_scan_whitespace_multi() {
    const SOURCE: &str = " \n\r\t ";
    assert_eq!(
        tokenize(SOURCE).as_slice(),
        &[Ok((
            Token {
                src: SOURCE,
                ty: TokenType::Whitespace,
            },
            TokenValue::Ignore
        ))]
    );
}

#[test]
fn test_scan_line_comment_no_newline() {
    const SOURCE: &str = "// apple";
    assert_eq!(
        tokenize(SOURCE).as_slice(),
        &[Ok((
            Token {
                src: SOURCE,
                ty: TokenType::Comment,
            },
            TokenValue::Ignore
        ))]
    );
}

#[test]
fn test_scan_line_comment_typical() {
    assert_eq!(
        tokenize("// apple\n").as_slice(),
        &[
            Ok((
                Token {
                    src: "// apple",
                    ty: TokenType::Comment,
                },
                TokenValue::Ignore
            )),
            Ok((
                Token {
                    src: "\n",
                    ty: TokenType::Whitespace,
                },
                TokenValue::Ignore
            ))
        ]
    );
}

#[test]
fn test_scan_ident_simple() {
    const SOURCE: &str = "foo";
    assert_eq!(
        tokenize(SOURCE).as_slice(),
        &[Ok((
            Token {
                src: SOURCE,
                ty: TokenType::Identifier,
            },
            TokenValue::Direct(SOURCE)
        ))]
    );
}

#[test]
fn test_scan_ident_prime() {
    const SOURCE: &str = "x'";
    assert_eq!(
        tokenize(SOURCE).as_slice(),
        &[Ok((
            Token {
                src: SOURCE,
                ty: TokenType::Identifier,
            },
            TokenValue::Direct(SOURCE)
        ))]
    );
}

#[test]
fn test_scan_ident_apostrophe() {
    const SOURCE: &str = "can't";
    assert_eq!(
        tokenize(SOURCE).as_slice(),
        &[Ok((
            Token {
                src: SOURCE,
                ty: TokenType::Identifier,
            },
            TokenValue::Direct(SOURCE)
        ))]
    );
}

#[test]
fn test_scan_number_simple() {
    const SOURCE: &str = "5";
    assert_eq!(
        tokenize(SOURCE).as_slice(),
        &[Ok((
            Token {
                src: SOURCE,
                ty: TokenType::NumberLiteral,
            },
            TokenValue::UIntLiteral(5)
        ))]
    );
}

#[test]
fn test_scan_number_multidigit() {
    const SOURCE: &str = "35";
    assert_eq!(
        tokenize(SOURCE).as_slice(),
        &[Ok((
            Token {
                src: SOURCE,
                ty: TokenType::NumberLiteral,
            },
            TokenValue::UIntLiteral(35)
        ))]
    );
}

#[test]
fn test_scan_number_negative() {
    const SOURCE: &str = "-5";
    assert_eq!(
        tokenize(SOURCE).as_slice(),
        &[Ok((
            Token {
                src: SOURCE,
                ty: TokenType::NumberLiteral,
            },
            TokenValue::SIntLiteral(-5)
        ))]
    );
}

#[test]
fn test_scan_number_decimal() {
    const SOURCE: &str = "2.5";
    assert_single_float(SOURCE, 2.5);
}

#[test]
fn test_scan_number_multidigit_decimal() {
    const SOURCE: &str = "25.25";
    assert_single_float(SOURCE, 25.25);
}

#[test]
fn test_scan_number_multidigit_decimal_negative() {
    const SOURCE: &str = "-25.25";
    assert_single_float(SOURCE, -25.25);
}

#[test]
fn test_scan_number_sci_notation() {
    const SOURCE: &str = "5e0";
    assert_single_float(SOURCE, 5e0);
}

#[test]
fn test_scan_number_neg_sci_notation() {
    const SOURCE: &str = "5e-5";
    assert_single_float(SOURCE, 5e-5);
}

#[test]
fn test_scan_number_neg_sci_notation_multidigit_exp() {
    const SOURCE: &str = "5e-50";
    assert_single_float(SOURCE, 5e-50);
}

#[test]
fn test_scan_number_neg_sci_notation_multidigit_exp_negative() {
    const SOURCE: &str = "-5e-50";
    assert_single_float(SOURCE, -5e-50);
}

#[test]
fn test_scan_number_oct() {
    const SOURCE: &str = "0x9F";
    assert_eq!(
        tokenize(SOURCE).as_slice(),
        &[Ok((
            Token {
                src: SOURCE,
                ty: TokenType::NumberLiteral,
            },
            TokenValue::UIntLiteral(0x9F)
        ))]
    );
}

#[test]
fn lab1_test_scan_number_oct() {
    const SOURCE: &str = "0o253";
    assert_eq!(
        tokenize(SOURCE).as_slice(),
        &[Ok((
            Token {
                src: SOURCE,
                ty: TokenType::NumberLiteral,
            },
            TokenValue::UIntLiteral(0o253)
        ))]
    );
}

#[test]
fn test_scan_number_bin() {
    const SOURCE: &str = "0b11011011";
    assert_eq!(
        tokenize(SOURCE).as_slice(),
        &[Ok((
            Token {
                src: SOURCE,
                ty: TokenType::NumberLiteral,
            },
            TokenValue::UIntLiteral(0b1101_1011)
        ))]
    );
}

#[test]
fn test_scan_char_simple() {
    const SOURCE: &str = "'a'";
    assert_eq!(
        tokenize(SOURCE).as_slice(),
        &[Ok((
            Token {
                src: SOURCE,
                ty: TokenType::CharLiteral,
            },
            TokenValue::CharLiteral(CharLiteral {
                ch: 'a',
                is_escaped: false
            })
        ))]
    );
}

#[test]
fn test_scan_char_multi() {
    const SOURCE: &str = "'aa'";
    assert_eq!(
        tokenize(SOURCE).as_slice(),
        &[Err(ContextError {
            source: SOURCE,
            range: (0..SOURCE.len()).into(),
            err: ErrorType::MultiCharLiteral,
        })]
    );
}

#[test]
fn test_scan_char_empty() {
    const SOURCE: &str = "''";
    assert_eq!(
        tokenize(SOURCE).as_slice(),
        &[Err(ContextError {
            source: SOURCE,
            range: (0..SOURCE.len()).into(),
            err: ErrorType::EmptyCharLiteral,
        })]
    );
}

#[test]
fn test_scan_char_escaped() {
    const SOURCE: &str = "'\\0'";
    assert_eq!(
        tokenize(SOURCE).as_slice(),
        &[Ok((
            Token {
                src: SOURCE,
                ty: TokenType::CharLiteral,
            },
            TokenValue::CharLiteral(CharLiteral {
                ch: '\0',
                is_escaped: true
            })
        ))]
    );
}

#[test]
fn test_scan_char_escaped_hex() {
    const SOURCE: &str = "'\\x1b'";
    assert_eq!(
        tokenize(SOURCE).as_slice(),
        &[Ok((
            Token {
                src: SOURCE,
                ty: TokenType::CharLiteral,
            },
            TokenValue::CharLiteral(CharLiteral {
                ch: '\x1b',
                is_escaped: true
            })
        ))]
    );
}

#[test]
fn test_scan_char_escaped_multi() {
    const SOURCE: &str = "'\\1b'";
    assert_eq!(
        tokenize(SOURCE).as_slice(),
        &[Err(ContextError {
            source: SOURCE,
            range: (0..SOURCE.len()).into(),
            err: ErrorType::MultiCharLiteral,
        })]
    );
}

#[test]
fn test_scan_char_escaped_invalid() {
    const SOURCE: &str = "'\\'";
    assert_eq!(
        tokenize(SOURCE).as_slice(),
        &[Err(ContextError {
            source: SOURCE,
            range: (0..SOURCE.len()).into(),
            err: ErrorType::EscapedStringLiteralEnd,
        })]
    );
}
