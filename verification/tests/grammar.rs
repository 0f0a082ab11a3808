//! Grammar tests: programs that parse, and the errors of those that do not.

use batscript::error::{Article, ContextError, ErrorType, Expecting};
use batscript::grammar::{
    grammarize, lexemes, BinaryOp, BinaryOperation, Expression, Item, Rule, Syntax,
};
use batscript::scanner::token::{Token, TokenType};
use batscript::scanner::Bracket;

#[test]
fn test() {
    const SOURCE: &str = "fn main() { let x = 5; }";
    let tokens = lexemes(SOURCE).expect("lex error(s)");

    match grammarize(SOURCE, &tokens) {
        Ok(value) => println!("{value:#?}"),
        Err(e) => panic!("{}", e.to_string()),
    }
}

#[test]
fn grammar_fn_def_parts() {
    const SOURCE: &str = "fn main(a, b) { let x = (5); }";
    let tokens = lexemes(SOURCE).expect("no lex errors");
    let syntax = grammarize(SOURCE, &tokens).expect("parses");
    match syntax {
        Syntax::Item(Item::FnDef(def)) => {
            assert_eq!(def.fn_kw.0, "fn");
            assert_eq!(def.name.0, "main");
            let params = def.params.inner.expect("two parameters");
            assert_eq!(params.param.0, "a");
            let next = params.next.expect("a second parameter");
            assert_eq!(next.comma.0, ",");
            assert_eq!(next.param.expect("b").param.0, "b");
            let statement = def.body.inner.statement;
            assert_eq!(statement.binding.name.0, "x");
            match statement.expression {
                Expression::Group(group) => match *group.inner {
                    Expression::Literal(lit) => assert_eq!(lit.token.0, "5"),
                    other => panic!("expected a literal, found {other:?}"),
                },
                other => panic!("expected a group, found {other:?}"),
            }
        }
        other => panic!("expected one function, found {other:?}"),
    }
}

#[test]
fn grammar_several_items() {
    const SOURCE: &str = "union enum type def";
    let tokens = lexemes(SOURCE).expect("no lex errors");
    match grammarize(SOURCE, &tokens).expect("parses") {
        Syntax::Pair(Item::UnionDef(u), rest) => {
            assert_eq!(u.union_kw.0, "union");
            match *rest {
                Syntax::Pair(Item::EnumDef(_), rest) => match *rest {
                    Syntax::Pair(Item::TypeDef(_), rest) => {
                        assert!(matches!(*rest, Syntax::Item(Item::MacroDef(_))))
                    }
                    other => panic!("expected a type definition, found {other:?}"),
                },
                other => panic!("expected an enum definition, found {other:?}"),
            }
        }
        other => panic!("expected a union definition first, found {other:?}"),
    }
}

#[test]
fn grammar_missing_close_brace() {
    const SOURCE: &str = "fn main() { let x = 5;";
    let tokens = lexemes(SOURCE).expect("no lex errors");
    let err = grammarize(SOURCE, &tokens).expect_err("the brace is never closed");
    assert_eq!(
        err,
        ContextError {
            source: SOURCE,
            range: SOURCE.len()..SOURCE.len(),
            err: ErrorType::MissingCloseBracket {
                expect: (Bracket::Brace, 10..11),
            },
        }
    );
    assert_eq!(err.code().to_string(), "err[GRA012]");
}

#[test]
fn grammar_incorrect_close_bracket() {
    const SOURCE: &str = "fn main(] { let x = 5; }";
    let tokens = lexemes(SOURCE).expect("no lex errors");
    let err = grammarize(SOURCE, &tokens).expect_err("`]` does not close `(`");
    assert_eq!(
        err,
        ContextError {
            source: SOURCE,
            range: 8..9,
            err: ErrorType::IncorrectCloseBracket {
                expect: (Bracket::Paren, 7..8),
                actual: Bracket::Brack,
            },
        }
    );
    assert_eq!(
        err.help().to_string(),
        "try inserting a `)` before the `]`, add a `[` before it and after the `(`, or remove either the `(` or `]`"
    );
}

#[test]
fn grammar_item_keyword_expected() {
    const SOURCE: &str = "let x = 5;";
    let tokens = lexemes(SOURCE).expect("no lex errors");
    let err = grammarize(SOURCE, &tokens).expect_err("a statement is not an item");
    assert_eq!(
        err,
        ContextError {
            source: SOURCE,
            range: 0..3,
            err: ErrorType::UnexpectedToken {
                expect: Expecting {
                    expect: "`struct`, `union`, `enum`, `type`, `def`, or `fn` keyword",
                    article: Article::A,
                },
                actual: Token {
                    src: "let",
                    ty: TokenType::Keyword,
                },
            },
        }
    );
}

#[test]
fn grammar_non_keyword_start_is_unexpected() {
    const SOURCE: &str = "x";
    let tokens = lexemes(SOURCE).expect("no lex errors");
    let err = grammarize(SOURCE, &tokens).expect_err("a name is not an item");
    assert_eq!(err.range, 0..1);
    match err.err {
        ErrorType::UnexpectedToken { expect, actual } => {
            assert_eq!(
                expect.expect,
                "`struct`, `union`, `enum`, `type`, `def`, or `fn` keyword"
            );
            assert_eq!(actual, tokens[0].token);
        }
        other => panic!("expected an unexpected token, found {other:?}"),
    }
    assert_eq!(
        err.help().to_string(),
        "try inserting a `struct`, `union`, `enum`, `type`, `def`, or `fn` keyword before `x` or remove `x`"
    );
}

#[test]
fn grammar_struct_needs_a_name() {
    const SOURCE: &str = "struct {";
    let tokens = lexemes(SOURCE).expect("no lex errors");
    let err = grammarize(SOURCE, &tokens).expect_err("no name");
    assert_eq!(err.range, 7..8);
    assert_eq!(err.err.to_string(), "expected an identifier, found `{`");
}

#[test]
fn grammar_binary_operation() {
    const SOURCE: &str = "5 + (3)";
    let tokens = lexemes(SOURCE).expect("no lex errors");
    let (op, next) =
        <BinaryOperation as Rule>::try_pull(SOURCE, &tokens, 0).expect("a binary operation");
    assert_eq!(next, tokens.len());
    assert_eq!(op.op, ("+", BinaryOp::Add));
    assert!(matches!(*op.lhs, Expression::Literal(_)));
    assert!(matches!(*op.rhs, Expression::Group(_)));
}

#[test]
fn grammar_nand_operation() {
    const SOURCE: &str = "1 !& 0";
    let tokens = lexemes(SOURCE).expect("no lex errors");
    let (op, next) =
        <BinaryOperation as Rule>::try_pull(SOURCE, &tokens, 0).expect("a binary operation");
    assert_eq!(next, tokens.len());
    assert_eq!(op.op, ("!&", BinaryOp::Nand));
}

#[test]
fn grammar_lexemes_skip_whitespace_and_comments() {
    const SOURCE: &str = "fn /* c */ f";
    let tokens = lexemes(SOURCE).expect("no lex errors");
    assert_eq!(tokens.len(), 2);
    assert_eq!(tokens[0].range, 0..2);
    assert_eq!(tokens[1].token.src, "f");
    assert_eq!(tokens[1].range, 11..12);
}

#[test]
fn grammar_lexemes_first_error() {
    const SOURCE: &str = "fn '' ''";
    let err = lexemes(SOURCE).expect_err("empty char literals");
    assert_eq!(err.range, 3..5);
    assert_eq!(err.err, ErrorType::EmptyCharLiteral);
}
