# Batscript

A scanner, error reporter, syntax highlighter and grammar for the Batscript language, written in
Verus: every function of the library carries a contract, and Verus proves that the code meets it.

## Layout

- `src/text.rs`: the UTF-8 model of text (byte offsets, char boundaries) and char classes.
- `src/numeral.rs`: reading unsigned integers in a radix, the float literal syntax, decimal text.
- `src/scanner/`: the token types and values (`token.rs`) and the scanner (`mod.rs`), specified
  by `lex`, the list of items a source code scans to, with the laws that the items tile the
  source and that a `-` starts a negative number only after punctuation other than a close
  bracket. That last law takes as premises that `-` is neither whitespace, alphabetic nor
  numeric; `confirm_negative_number_rule` establishes them by asking the char classes, and
  then gives the law for every item of a scan.
- `src/error.rs`, `src/error/help.rs`, `src/error/render.rs`: error messages, codes, tips and
  line references, with the laws that every scanner error can be shown with its line
  references and, but for three named cases, has a tip.
- `src/style.rs`, `src/syntax.rs`, `src/highlight.rs`: ANSI styles, highlighting categories and
  the highlighter, whose pieces make up the source code again.
- `src/listing.rs`: the highlighted source with numbered lines, and the report of an error.
- `src/grammar.rs`: the recursive-descent grammar over the scanned tokens.
- `tests/`: scenarios on concrete source code.
- `app/main.rs`: the command-line program that reads source code and prints what the library
  computes.
