//! The text a run shows: styled pieces, numbered listings and error reports.

use batscript::error::{ContextError, ErrorType};
use batscript::listing::{error_report, numbered_listing, styled_text};
use batscript::style::{Color, Style};
use batscript::syntax::{Syntax, SyntaxStyle};

fn table<'a>(brackets: &'a [Style]) -> SyntaxStyle<'a, Style> {
    let plain = Style::new();
    SyntaxStyle {
        normal: plain,
        comment: plain,
        number_literal: plain,
        char_literal: plain,
        string_literal: plain,
        interp_str_literal: plain,
        escape_seq: plain,
        interp_expr: plain,
        variable: Style::new().underline(),
        constant: plain,
        callable: plain,
        keyword: Style::new().bold(),
        ctrl_keyword: plain,
        macro_name: plain,
        macro_arg: plain,
        bracket: brackets,
        invalid: Style::new().foreground(Color::Red),
    }
}

#[test]
fn styled_pieces_end_with_reset() {
    let brackets = [Style::new().foreground(Color::Yellow)];
    let t = table(&brackets);
    assert_eq!(
        styled_text(&t, &[("let", Syntax::Keyword), (" ", Syntax::Normal), ("x", Syntax::Variable)]),
        "\x1b[1mlet\x1b[22m \x1b[4mx\x1b[24m\x1b[0m"
    );
    assert_eq!(
        styled_text(&t, &[("(", Syntax::Bracket(3))]),
        "\x1b[33m(\x1b[39m\x1b[0m"
    );
    assert_eq!(styled_text(&t, &[]), "\x1b[0m");
}

#[test]
fn listing_numbers_lines() {
    assert_eq!(
        numbered_listing("a\nb"),
        " \x1b[90m1\x1b[0m   a\n \x1b[90m2\x1b[0m   b\n"
    );
    assert_eq!(numbered_listing(""), "");
    assert_eq!(numbered_listing("a\n"), " \x1b[90m1\x1b[0m   a\n");
    assert_eq!(
        numbered_listing("a\r\n\nb"),
        " \x1b[90m1\x1b[0m   a\n \x1b[90m2\x1b[0m   \n \x1b[90m3\x1b[0m   b\n"
    );
}

#[test]
fn listing_carries_styles_across_lines() {
    assert_eq!(
        numbered_listing("\x1b[1ma\nb\x1b[22m"),
        " \x1b[90m1\x1b[0m   \x1b[1ma\n \x1b[90m2\x1b[1m   b\x1b[22m\n"
    );
}

#[test]
fn listing_pads_line_numbers() {
    let text = "1\n2\n3\n4\n5\n6\n7\n8\n9";
    let listing = numbered_listing(text);
    let lines: Vec<&str> = listing.lines().collect();
    assert_eq!(lines.len(), 9);
    assert_eq!(lines[0], " \x1b[90m 1\x1b[0m   1");
    assert_eq!(lines[8], " \x1b[90m 9\x1b[0m   9");
}

#[test]
fn report_of_an_error() {
    let e = ContextError {
        source: "''",
        range: 0..2,
        err: ErrorType::EmptyCharLiteral,
    };
    let expected = format!(
        "  \x1b[91merr[LEX002]:\x1b[0m empty character literal\n{}    \x1b[92mhelp:\x1b[0m {}\n\n",
        e.render().to_string(),
        e.help().to_string()
    );
    assert_eq!(error_report(&e), Some(expected));
}

#[test]
fn report_indents_help_lines() {
    let e = ContextError {
        source: "\"a\\\"",
        range: 0..4,
        err: ErrorType::EscapedStringLiteralEnd,
    };
    let report = error_report(&e).expect("report");
    let help = e.help().to_string();
    let indented: Vec<String> = help
        .lines()
        .enumerate()
        .map(|(i, l)| if i == 0 { l.to_string() } else { format!("          {l}") })
        .collect();
    assert!(report.ends_with(&format!("{}\n\n", indented.join("\n"))));
    assert_eq!(help.lines().count(), 3);
}

#[test]
fn no_report_without_help() {
    let e = ContextError {
        source: "'\\o777'",
        range: 0..7,
        err: ErrorType::InvalidEscape("\\o777"),
    };
    assert_eq!(error_report(&e), None);
}
