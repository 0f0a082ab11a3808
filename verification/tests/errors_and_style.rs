//! Error messages, codes, help, line references, ANSI styles and highlighting.

use batscript::error::help::push_help;
use batscript::error::render::line_containing;
use batscript::error::{
    line_col, line_col_range, span_str, Article, ContextError, Error, ErrorType, Expecting,
    LineCol, NumLitError,
};
use batscript::highlight::{highlight, highlight_source};
use batscript::numeral::IntErrorKind;
use batscript::scanner::token::{Token, TokenType, TokenValue};
use batscript::scanner::{tokenize, Bracket};
use batscript::style::{BeginStyle, Color, EndStyle, Style};
use batscript::syntax::{syntax_of, token_syntax_of, Syntax, SyntaxStyle};

fn context<'a>(source: &'a str, start: usize, end: usize, err: ErrorType<'a>) -> ContextError<'a> {
    ContextError {
        source,
        range: start..end,
        err,
    }
}

fn help_of(e: &ContextError) -> String {
    e.help().to_string()
}

#[test]
fn article_words() {
    assert_eq!(Article::A.to_string(), "a");
    assert_eq!(Article::An.to_string(), "an");
    let e = Expecting::an("identifier");
    assert_eq!(e.article, Article::An);
    assert_eq!(e.expect, "identifier");
}

#[test]
fn error_codes() {
    let empty = context("''", 0, 2, ErrorType::EmptyCharLiteral);
    assert_eq!(empty.code().to_string(), "err[LEX002]");
    let num = context("1x", 0, 2, ErrorType::InvalidNumLiteral(NumLitError::Flt));
    assert_eq!(num.code().to_string(), "err[LEX009]");
    let missing = ContextError::missing("let", Expecting::a("`;`"));
    assert_eq!(missing.code().to_string(), "err[GRA021]");
    let excess = context(")", 0, 1, ErrorType::ExcessCloseBracket { actual: Bracket::Paren });
    assert_eq!(excess.code().to_string(), "err[GRA011]");
}

#[test]
fn error_messages() {
    assert_eq!(ErrorType::UnknownToken.to_string(), "unknown token");
    assert_eq!(
        ErrorType::EscapedStringLiteralEnd.to_string(),
        "string literal opens (`\"`) but never closes (missing unescaped `\"`)"
    );
    assert_eq!(
        ErrorType::InvalidEscape("\\q").to_string(),
        "unknown character escape: \"\\\\q\""
    );
    assert_eq!(
        ErrorType::IncorrectCloseBracket {
            expect: (Bracket::Paren, 0..1),
            actual: Bracket::Brack
        }
        .to_string(),
        "incorrect close bracket: expected `)`, found `]`"
    );
    let found = Token {
        src: "x",
        ty: TokenType::Identifier,
    };
    assert_eq!(
        ErrorType::UnexpectedToken {
            expect: Expecting::a("`;`"),
            actual: found
        }
        .to_string(),
        "expected a `;`, found `x`"
    );
}

#[test]
fn context_error_position_and_message() {
    let e = context("''", 0, 2, ErrorType::EmptyCharLiteral);
    assert_eq!(e.position(), LineCol { line: 1, col: 0 }..LineCol { line: 1, col: 2 });
    assert_eq!(e.to_string(), "at 1:0-1:2: empty character literal");
    let lifted = Error {
        range: 0..2,
        err: ErrorType::EmptyCharLiteral,
    }
    .add_context("''");
    assert_eq!(lifted, e);
}

#[test]
fn unexpected_and_missing_tokens() {
    let source = "let x";
    let token = Token {
        src: &source[4..5],
        ty: TokenType::Identifier,
    };
    let e = ContextError::missing_or_unexpected(Some((token, 4..5)), source, Expecting::a("`=`"));
    assert_eq!(e.range, 4..5);
    assert_eq!(help_of(&e), "try inserting a `=` before `x` or remove `x`");
    let m = ContextError::missing_or_unexpected(None, source, Expecting::an("identifier"));
    assert_eq!(m.range, 5..5);
    assert_eq!(m.err.to_string(), "missing an identifier");
    assert_eq!(help_of(&m), "try inserting an identifier");
}

#[test]
fn line_and_column() {
    assert_eq!(line_col("ab\ncd", 4), Some(LineCol { line: 2, col: 1 }));
    assert_eq!(line_col("ab\ncd", 0), Some(LineCol { line: 1, col: 0 }));
    assert_eq!(line_col("ab", 3), None);
    // inside a two-byte char
    assert_eq!(line_col("\u{e9}", 1), None);
    assert_eq!(LineCol { line: 3, col: 7 }.to_string(), "3:7");
    assert_eq!(
        line_col_range("a\nb", 0..3),
        Some(LineCol { line: 1, col: 0 }..LineCol { line: 2, col: 1 })
    );
    assert_eq!(line_col_range("a", 0..2), None);
}

#[test]
fn lines_containing_a_range() {
    assert_eq!(line_containing("ab\ncd\nef", 4..4), Some(3..5));
    assert_eq!(line_containing("abc", 1..2), Some(0..3));
    assert_eq!(line_containing("a\r\nb", 3..4), Some(3..4));
    assert_eq!(line_containing("abc", 2..9), None);
}

#[test]
fn spans_of_source() {
    assert_eq!(span_str("hello", 1, 3), Some("el"));
    assert_eq!(span_str("hello", 3, 1), None);
    assert_eq!(span_str("\u{e9}", 0, 1), None);
}

#[test]
fn help_for_lex_errors() {
    let e = context("''", 0, 2, ErrorType::EmptyCharLiteral);
    assert_eq!(
        help_of(&e),
        "chars can't be empty, try replacing `''` with `\"\"` or insert a character"
    );
    let e = context("'ab'", 0, 4, ErrorType::MultiCharLiteral);
    assert_eq!(
        help_of(&e),
        "try removing the character(s) after `a` (remove trailing `b`) or change this to a string (\"ab\")"
    );
    let e = context("'\\nb'", 0, 5, ErrorType::MultiCharLiteral);
    assert_eq!(
        help_of(&e),
        "try removing the character(s) after `\\n` (remove trailing `b`) or change this to a string (\"\\nb\")"
    );
    let e = context("\"ab\\\"", 0, 5, ErrorType::EscapedStringLiteralEnd);
    assert_eq!(
        help_of(&e),
        "there is a closing double-quote candidate, but it is escaped (`\\\"`).\n\
         string literals cannot end with an unescaped backslash (`\\`), \
         it is indistinguishable from an escaped double-quote (`\\\"`).\n\
         try adding a `\"` to the end of the string or remove the `\\` from `\\\"` \
         to make the string `\"ab\"`"
    );
    let e = context("\"\\q\"", 1, 3, ErrorType::InvalidEscape("\\q"));
    assert_eq!(
        help_of(&e),
        "`\\a`, `\\b`, `\\e`, `\\f`, `\\n`, `\\r`, `\\t`, and `\\v` are the only supported \
         ASCII letters that can be escape sequences"
    );
    let e = context("\"\\x4\"", 1, 4, ErrorType::InvalidEscape("\\x4"));
    assert_eq!(
        help_of(&e),
        "`\\x` should be followed by 2 hexadecimal digits ([0-9a-fA-F]), this escape sequence has 1"
    );
    let e = context("@", 0, 1, ErrorType::UnknownToken);
    assert_eq!(help_of(&e), "try removing the character");
}

#[test]
fn help_for_number_errors() {
    let e = context(
        "12ab",
        0,
        4,
        ErrorType::InvalidNumLiteral(NumLitError::UInt(IntErrorKind::InvalidDigit)),
    );
    assert_eq!(help_of(&e), "the suffix `b` is not valid for decimal integer literals");
    let e = context(
        "0xfg",
        0,
        4,
        ErrorType::InvalidNumLiteral(NumLitError::UInt(IntErrorKind::InvalidDigit)),
    );
    assert_eq!(help_of(&e), "the suffix `` is not valid for hexadecimal integer literals");
    let big = "99999999999999999999999";
    let e = context(
        big,
        0,
        big.len(),
        ErrorType::InvalidNumLiteral(NumLitError::UInt(IntErrorKind::PosOverflow)),
    );
    assert_eq!(
        help_of(&e),
        format!("the largest supported unsigned integer value is {}", usize::MAX)
    );
    let e = context("1.2.3", 0, 4, ErrorType::InvalidNumLiteral(NumLitError::Flt));
    assert_eq!(help_of(&e), "I'm not sure how to help with this yet");
}

#[test]
fn help_for_grammar_errors() {
    let e = context(
        "(]",
        1,
        2,
        ErrorType::IncorrectCloseBracket {
            expect: (Bracket::Paren, 0..1),
            actual: Bracket::Brack,
        },
    );
    assert_eq!(
        help_of(&e),
        "try inserting a `)` before the `]`, add a `[` before it and after the `(`, or remove either the `(` or `]`"
    );
    let e = context("}", 0, 1, ErrorType::ExcessCloseBracket { actual: Bracket::Brace });
    assert_eq!(help_of(&e), "try removing the `}` or add a `{` before it");
    let mut out = String::from("help: ");
    push_help(
        &mut out,
        "(",
        &ErrorType::MissingCloseBracket {
            expect: (Bracket::Paren, 0..1),
        },
    );
    assert_eq!(out, "help: try inserting a `)` or remove the `(`");
}

#[test]
fn render_empty_char() {
    let e = context("''", 0, 2, ErrorType::EmptyCharLiteral);
    assert_eq!(
        e.render().to_string(),
        "   \x1b[94m  |\x1b[0m  \n   \x1b[94m1 |\x1b[0m  ''\n   \x1b[94m  |\x1b[0m  \x1b[91m^^ empty\x1b[0m\n"
    );
}

#[test]
fn render_missing_close_bracket() {
    let e = context(
        "(a",
        2,
        2,
        ErrorType::MissingCloseBracket {
            expect: (Bracket::Paren, 0..1),
        },
    );
    assert_eq!(
        e.render().to_string(),
        "   \x1b[94m  |\x1b[0m  \n   \x1b[94m1 |\x1b[0m  (a\n   \x1b[94m  |\x1b[0m  \x1b[96m- missing a partner\x1b[0m\n"
    );
}

#[test]
fn render_second_line() {
    let e = context("x\n@", 2, 3, ErrorType::UnknownToken);
    assert_eq!(
        e.render().to_string(),
        "   \x1b[94m  |\x1b[0m  \n   \x1b[94m2 |\x1b[0m  @\n   \x1b[94m  |\x1b[0m  \x1b[91m^ what is this?\x1b[0m\n"
    );
}

#[test]
fn style_sequences() {
    let s = Style::new().bold().underline().foreground(Color::Red);
    assert_eq!(BeginStyle(s).to_string(), "\x1b[1;4;31m");
    assert_eq!(EndStyle(s).to_string(), "\x1b[22;24;39m");
    let s = Style::new()
        .foreground(Color::Rgb(1, 2, 3))
        .background(Color::Id(200));
    assert_eq!(s.begin().to_string(), "\x1b[38;2;1;2;3;48;5;200m");
    assert_eq!(s.end().to_string(), "\x1b[39;49m");
    let s = Style::new().background(Color::BrightWhite);
    assert_eq!(s.begin().to_string(), "\x1b[107m");
    assert_eq!(s.end().to_string(), "\x1b[49m");
    let s = Style::new().strikethrough().foreground(Color::Default);
    assert_eq!(s.begin().to_string(), "\x1b[9;39m");
    assert_eq!(s.end().to_string(), "\x1b[29;39m");
}

#[test]
fn plain_style_writes_nothing() {
    let s = Style::new();
    assert_eq!(s, Style::default());
    assert_eq!(s.begin().to_string(), "");
    assert_eq!(s.end().to_string(), "");
    assert_eq!(s.style("x").to_string(), "x");
}

#[test]
fn styled_text() {
    assert_eq!(
        Style::new().italic().style("x").to_string(),
        "\x1b[3mx\x1b[23m"
    );
}

#[test]
fn end_matches_begin_on_examples() {
    for s in [
        Style::new().bold(),
        Style::new().italic().background(Color::Blue),
        Style::new().strikethrough().foreground(Color::Green),
    ] {
        let begin = s.begin().to_string();
        let end = s.end().to_string();
        assert_eq!(begin.split(';').count(), end.split(';').count());
        assert!(!begin.is_empty() && !end.is_empty());
    }
}

#[test]
fn syntax_of_tokens() {
    let constant = Token {
        src: "FOO_1",
        ty: TokenType::Identifier,
    };
    assert_eq!(token_syntax_of(&constant), Syntax::Constant);
    let variable = Token {
        src: "Foo",
        ty: TokenType::Identifier,
    };
    assert_eq!(token_syntax_of(&variable), Syntax::Variable);
    let digits = Token {
        src: "_1",
        ty: TokenType::Identifier,
    };
    assert_eq!(token_syntax_of(&digits), Syntax::Variable);
    let boolean = Token {
        src: "true",
        ty: TokenType::BoolLiteral,
    };
    assert_eq!(token_syntax_of(&boolean), Syntax::Keyword);
    let bracket = Token {
        src: "(",
        ty: TokenType::Bracket(2),
    };
    assert_eq!(token_syntax_of(&bracket), Syntax::Bracket(2));
}

#[test]
fn syntax_of_results() {
    let ok = Ok((
        Token {
            src: "x",
            ty: TokenType::Identifier,
        },
        TokenValue::Direct("x"),
    ));
    assert_eq!(syntax_of(&ok), ("x", Syntax::Variable, &TokenValue::Direct("x")));
    let err = Err(context("a@b", 1, 2, ErrorType::UnknownToken));
    assert_eq!(syntax_of(&err), ("@", Syntax::Invalid, &TokenValue::Ignore));
}

#[test]
fn syntax_style_table() {
    let brackets = [10u32, 11, 12];
    let table = SyntaxStyle {
        normal: 0u32,
        comment: 1,
        number_literal: 2,
        char_literal: 3,
        string_literal: 4,
        interp_str_literal: 5,
        escape_seq: 6,
        interp_expr: 7,
        variable: 8,
        constant: 9,
        callable: 13,
        keyword: 14,
        ctrl_keyword: 15,
        macro_name: 16,
        macro_arg: 17,
        bracket: &brackets,
        invalid: 18,
    };
    assert_eq!(*table.index(Syntax::Bracket(4)), 11);
    assert_eq!(*table.index(Syntax::Bracket(0)), 10);
    assert_eq!(*table.index(Syntax::MacroParam), 17);
    assert_eq!(*table.index(Syntax::EscapeSeq), 6);
    assert_eq!(*table.index(Syntax::Invalid), 18);
}

#[test]
fn stylize_with_table() {
    let brackets = [Style::new().foreground(Color::Yellow)];
    let plain = Style::new();
    let table = SyntaxStyle {
        normal: plain,
        comment: plain,
        number_literal: plain,
        char_literal: plain,
        string_literal: plain,
        interp_str_literal: plain,
        escape_seq: plain,
        interp_expr: plain,
        variable: plain,
        constant: plain,
        callable: plain,
        keyword: Style::new().bold(),
        ctrl_keyword: plain,
        macro_name: plain,
        macro_arg: plain,
        bracket: &brackets,
        invalid: plain,
    };
    assert_eq!(
        table.stylize(Syntax::Keyword, "let").to_string(),
        "\x1b[1mlet\x1b[22m"
    );
    assert_eq!(
        table.stylize(Syntax::Bracket(5), "(").to_string(),
        "\x1b[33m(\x1b[39m"
    );
}

#[test]
fn highlight_string_escapes() {
    assert_eq!(
        highlight_source("\"a\\nb\" x"),
        vec![
            ("\"a", Syntax::StringLiteral),
            ("\\n", Syntax::EscapeSeq),
            ("b\"", Syntax::StringLiteral),
            (" ", Syntax::Normal),
            ("x", Syntax::Variable),
        ]
    );
}

#[test]
fn highlight_char_escape() {
    assert_eq!(
        highlight_source("'\\n'"),
        vec![
            ("'", Syntax::CharLiteral),
            ("\\n", Syntax::EscapeSeq),
            ("'", Syntax::CharLiteral),
        ]
    );
}

#[test]
fn highlight_errors_are_invalid() {
    assert_eq!(
        highlight_source("a ~"),
        vec![
            ("a", Syntax::Variable),
            (" ", Syntax::Normal),
            ("~", Syntax::Invalid),
        ]
    );
}

#[test]
fn highlight_pieces_rebuild_the_source() {
    for source in ["let x = (1 + 2);", "\"a\\tb\\\\\" // c\n'z'", "fn f() { g!() }", "''"] {
        let joined: String = highlight_source(source).iter().map(|(s, _)| *s).collect();
        assert_eq!(joined, source);
    }
}

#[test]
fn highlight_of_scanned_tokens() {
    let source = "if true";
    let tokens = tokenize(source);
    assert_eq!(
        highlight(&tokens),
        vec![
            ("if", Syntax::CtrlKeyword),
            (" ", Syntax::Normal),
            ("true", Syntax::Keyword),
        ]
    );
}

#[test]
fn help_when_none_can_be_made() {
    let e = context(
        "0x",
        0,
        2,
        ErrorType::InvalidNumLiteral(NumLitError::UInt(IntErrorKind::Empty)),
    );
    assert_eq!(e.help().try_to_string(), None);
    let e = context("'\\o777'", 1, 6, ErrorType::InvalidEscape("\\o777"));
    assert_eq!(e.help().try_to_string(), None);
    let e = context("''", 0, 2, ErrorType::EmptyCharLiteral);
    assert_eq!(
        e.help().try_to_string().as_deref(),
        Some("chars can't be empty, try replacing `''` with `\"\"` or insert a character")
    );
    let mut out = String::from("x");
    assert!(!push_help(
        &mut out,
        "0x",
        &ErrorType::InvalidNumLiteral(NumLitError::UInt(IntErrorKind::Empty))
    ));
    assert_eq!(out, "x");
}

#[test]
fn render_when_ranges_do_not_fit() {
    let e = context("ab", 1, 5, ErrorType::UnknownToken);
    assert_eq!(e.render().try_to_string(), None);
    let e = context(
        "(",
        1,
        1,
        ErrorType::MissingCloseBracket {
            expect: (Bracket::Paren, 3..4),
        },
    );
    assert_eq!(e.render().try_to_string(), None);
    let e = context("''", 0, 2, ErrorType::EmptyCharLiteral);
    assert_eq!(e.render().try_to_string(), Some(e.render().to_string()));
}

#[test]
fn scanner_errors_have_tips_and_line_references() {
    let with_tip = [
        "~",
        "/* x",
        "''",
        "'ab'",
        "'a",
        "\"abc",
        "\"ab\\\"",
        "\"\\q\"",
        "'\\q'",
        "12ab",
        "99999999999999999999999",
        "1e",
        "'\\x4'",
        "-0x1g",
        "x = \"\\x\\\\\"",
    ];
    for source in with_tip {
        let items = tokenize(source);
        let errors: Vec<&ContextError> = items.iter().filter_map(|r| r.as_ref().err()).collect();
        assert!(!errors.is_empty(), "{source}");
        for e in errors {
            assert!(e.help().try_to_string().is_some(), "{source}");
            assert!(e.render().try_to_string().is_some(), "{source}");
        }
    }
}

#[test]
fn scanner_errors_without_tips() {
    for source in ["0x", "'\\'", "\"\\o777\"", "'\\o400'"] {
        let items = tokenize(source);
        let e = items
            .iter()
            .find_map(|r| r.as_ref().err())
            .expect("an error");
        assert_eq!(e.help().try_to_string(), None, "{source}");
        assert!(e.render().try_to_string().is_some(), "{source}");
    }
}

#[test]
fn line_and_column_grow_with_the_position() {
    let source = "ab\nc\u{e9}d\n";
    let positions: Vec<LineCol> = (0..=source.len())
        .filter(|p| source.is_char_boundary(*p))
        .map(|p| line_col(source, p).expect("a boundary"))
        .collect();
    for pair in positions.windows(2) {
        assert!(pair[0] <= pair[1]);
    }
    assert_eq!(line_col(source, source.len()), Some(LineCol { line: 3, col: 0 }));
}
