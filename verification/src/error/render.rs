//! Line references: the source lines an error spans, with the span underlined.
use super::{
    count_newlines, last_line_start, line_col, line_col_range, line_col_range_spec, line_col_spec,
    lemma_line_facts, line_col_of, ContextError, ErrorModel, ErrorType, LineCol,
    RenderedContextError,
};
use crate::numeral::{decimal_text, push_decimal};
use crate::text::{
    byte_offset, char_index, char_index_of, chars_of, is_boundary, lemma_byte_offset_mono,
    lemma_char_index, lemma_utf8_len_sub, lemma_utf8_len_subrange, push_char, push_str, utf8_len,
};
use crate::error::TokenResult;
use crate::scanner::{lemma_lex_tiles, lemma_scanner_errors_are_lex, lex, newline_from, result_is, LexItem};
use core::ops::Range;
use vstd::prelude::*;

verus! {

broadcast use vstd::seq::group_seq_axioms;

/// `\n` and `\r` end a line
pub open spec fn is_line_break(c: char) -> bool {
    c == '\n' || c == '\r'
}

/// The char index where the line holding char index `i` starts: just after the last line break
/// before `i`, or 0
pub open spec fn line_start_at(s: Seq<char>, i: int) -> int
    decreases i,
{
    if i <= 0 {
        0
    } else if is_line_break(s[i - 1]) {
        i
    } else {
        line_start_at(s, i - 1)
    }
}

/// The char index where the line holding char index `j` ends: at the first line break from `j`
/// on, or the end of `s`
pub open spec fn line_end_at(s: Seq<char>, j: int) -> int
    decreases s.len() - j,
{
    if j >= s.len() {
        s.len() as int
    } else if is_line_break(s[j]) {
        j
    } else {
        line_end_at(s, j + 1)
    }
}

/// The byte range of the lines holding the byte range `start..end` of `s`; [`None`] if an end
/// of the range is out of bounds or inside a char
pub open spec fn line_containing_spec(s: Seq<char>, start: int, end: int) -> Option<(int, int)> {
    if is_boundary(s, start) && is_boundary(s, end) {
        Some(
            (
                byte_offset(s, line_start_at(s, char_index(s, start))) as int,
                byte_offset(s, line_end_at(s, char_index(s, end))) as int,
            ),
        )
    } else {
        None
    }
}

proof fn lemma_line_start_at(s: Seq<char>, i: int)
    requires
        0 <= i <= s.len(),
    ensures
        0 <= line_start_at(s, i) <= i,
    decreases i,
{
    if i > 0 && !is_line_break(s[i - 1]) {
        lemma_line_start_at(s, i - 1);
    }
}

proof fn lemma_line_end_at(s: Seq<char>, j: int)
    requires
        0 <= j <= s.len(),
    ensures
        j <= line_end_at(s, j) <= s.len(),
    decreases s.len() - j,
{
    if j < s.len() && !is_line_break(s[j]) {
        lemma_line_end_at(s, j + 1);
    }
}

/// The byte range of the lines holding `range` in `src`: from the start of the line where the
/// range starts to the end (before its line break) of the line where it ends. [`None`] if
/// `range` is out of bounds for `src`.
pub fn line_containing(src: &str, range: Range<usize>) -> (r: Option<Range<usize>>)
    ensures
        match line_containing_spec(src@, range.start as int, range.end as int) {
            Some((a, b)) => r matches Some(x) && x.start == a && x.end == b,
            None => r is None,
        },
{
    let chars = chars_of(src);
    let n = chars.len();
    let _ = src.as_bytes().len();
    match (char_index_of(chars.as_slice(), range.start), char_index_of(chars.as_slice(), range.end)) {
        (Some(i), Some(j)) => {
            let mut a = i;
            while a > 0 && !(chars[a - 1] == '\n' || chars[a - 1] == '\r')
                invariant
                    a <= i <= n,
                    n == chars@.len(),
                    line_start_at(chars@, i as int) == line_start_at(chars@, a as int),
                decreases a,
            {
                a = a - 1;
            }
            let mut b = j;
            while b < n && !(chars[b] == '\n' || chars[b] == '\r')
                invariant
                    j <= b <= n,
                    n == chars@.len(),
                    line_end_at(chars@, j as int) == line_end_at(chars@, b as int),
                decreases n - b,
            {
                b = b + 1;
            }
            let ghost s = chars@;
            proof {
                lemma_utf8_len_sub(s, 0, a as int);
                lemma_utf8_len_sub(s, 0, b as int);
                assert(s.subrange(0, a as int) =~= s.take(a as int));
                assert(s.subrange(0, b as int) =~= s.take(b as int));
            }
            let sa = utf8_prefix_len(chars.as_slice(), a);
            let sb = utf8_prefix_len(chars.as_slice(), b);
            Some(Range { start: sa, end: sb })
        },
        _ => None,
    }
}

/// The byte offset of char index `k` of `s`
fn utf8_prefix_len(s: &[char], k: usize) -> (r: usize)
    requires
        k <= s@.len(),
        byte_offset(s@, k as int) <= usize::MAX,
    ensures
        r == byte_offset(s@, k as int),
{
    let mut i: usize = 0;
    let mut acc: usize = 0;
    while i < k
        invariant
            i <= k <= s@.len(),
            acc == byte_offset(s@, i as int),
            byte_offset(s@, k as int) <= usize::MAX,
        decreases k - i,
    {
        proof {
            crate::text::lemma_byte_offset_step(s@, i as int);
            lemma_byte_offset_mono(s@, i + 1, k as int);
        }
        acc = acc + crate::text::len_utf8(s[i]);
        i = i + 1;
    }
    acc
}

/// `n` copies of `c`
pub open spec fn repeat(c: char, n: int) -> Seq<char> {
    Seq::new(if n > 0 {
        n as nat
    } else {
        0
    }, |_i: int| c)
}

/// The decimal text of `n`, right-aligned in a field `w` chars wide
pub open spec fn padded(n: nat, w: nat) -> Seq<char> {
    repeat(' ', w - decimal_text(n).len()) + decimal_text(n)
}

/// What comes before the line number of a line reference
pub open spec fn pre_num() -> Seq<char> {
    "   \x1b[94m"@
}

/// What comes after the line number of a line reference
pub open spec fn post_num() -> Seq<char> {
    " |\x1b[0m  "@
}

/// The parameters of a line reference
pub struct LineRefStyle {
    /// Where the referenced range starts and ends
    pub start: LineCol,
    /// Where the referenced range ends
    pub end: LineCol,
    /// Width of the line number column
    pub width: nat,
    /// Style of the underline
    pub style: Seq<char>,
    /// Char of the underline
    pub mark: char,
    /// Message after the underline
    pub msg: Seq<char>,
}

/// Whether the `idx`th line of a line reference is its last
pub open spec fn is_last_line(p: LineRefStyle, idx: int) -> bool {
    idx == p.end.line - p.start.line
}

/// The first output line for line `line` (the `idx`th one) of a line reference: the line with its
/// number
pub open spec fn number_line(p: LineRefStyle, idx: int, line: Seq<char>) -> Seq<char> {
    pre_num() + padded((p.start.line + idx) as nat, p.width) + post_num() + line + "\n"@
}

/// The underline of the referenced part of line `line`, the `idx`th one, of a line reference;
/// the message follows it on the last line.
pub open spec fn underline(p: LineRefStyle, idx: int, line: Seq<char>) -> Seq<char> {
    let start_col: int = if idx == 0 {
        p.start.col as int
    } else {
        0
    };
    let end_col: int = if is_last_line(p, idx) {
        p.end.col as int
    } else {
        utf8_len(line) as int
    };
    repeat(' ', start_col) + p.style + repeat(p.mark, end_col - start_col) + (if is_last_line(
        p,
        idx,
    ) {
        " "@ + p.msg
    } else {
        Seq::empty()
    })
}

/// The two output lines for line `line` (the `idx`th one) of a line reference: the line with its
/// number, then the underline of the referenced part of it (with the message on the last line).
pub open spec fn line_block(p: LineRefStyle, idx: int, line: Seq<char>) -> Seq<char> {
    number_line(p, idx, line) + pre_num() + repeat(' ', p.width as int) + post_num() + underline(
        p,
        idx,
        line,
    ) + "\x1b[0m\n"@
}

/// The output for the lines of `t` (split at `\n`) from char index `k` on, where the line
/// starting at `k` is the `idx`th one
pub open spec fn lines_from(p: LineRefStyle, t: Seq<char>, k: int, idx: int) -> Seq<char>
    decreases t.len() - k,
{
    if k < 0 || k > t.len() {
        Seq::empty()
    } else {
        let e = newline_from(t, k);
        if e < t.len() && e >= k {
            line_block(p, idx, t.subrange(k, e)) + lines_from(p, t, e + 1, idx + 1)
        } else {
            line_block(p, idx, t.subrange(k, t.len() as int))
        }
    }
}

/// Whether [`line_ref`] can show `range` of `source`: both ends fall on char boundaries, the end
/// is on a line no earlier than the start, and the lines the range spans are in order
pub open spec fn line_ref_defined(source: Seq<char>, range: Range<usize>) -> bool {
    &&& line_col_range_spec(source, range) matches Some(lc)
    &&& lc.start.line <= lc.end.line
    &&& line_containing_spec(source, range.start as int, range.end as int) matches Some((a, b))
    &&& a <= b
}

/// The line reference of `range` in `source`, underlined with `mark` in `style` and ending with
/// `msg`
pub open spec fn line_ref_text(
    source: Seq<char>,
    range: Range<usize>,
    style: Seq<char>,
    mark: char,
    msg: Seq<char>,
) -> Seq<char> {
    let lc = line_col_range_spec(source, range)->0;
    let (a, b) = line_containing_spec(source, range.start as int, range.end as int)->0;
    let p = LineRefStyle {
        start: lc.start,
        end: lc.end,
        width: decimal_text(lc.end.line as nat).len(),
        style,
        mark,
        msg,
    };
    pre_num() + repeat(' ', p.width as int) + post_num() + "\n"@ + lines_from(
        p,
        source.subrange(char_index(source, a), char_index(source, b)),
        0,
        0,
    )
}

/// Appends `n` copies of `c`.
fn push_repeat(out: &mut String, c: char, n: usize)
    ensures
        final(out)@ == old(out)@ + repeat(c, n as int),
{
    let mut i: usize = 0;
    while i < n
        invariant
            i <= n,
            out@ == old(out)@ + repeat(c, i as int),
        decreases n - i,
    {
        push_char(out, c);
        assert(repeat(c, i + 1) =~= repeat(c, i as int).push(c));
        i = i + 1;
    }
}

/// The number of decimal digits of `n`
fn decimal_len(n: usize) -> (r: usize)
    ensures
        r == decimal_text(n as nat).len(),
        r <= n + 1,
    decreases n,
{
    if n < 10 {
        1
    } else {
        decimal_len(n / 10) + 1
    }
}

/// Appends [`padded`] of `n` and `w`.
fn push_padded(out: &mut String, n: usize, w: usize)
    ensures
        final(out)@ == old(out)@ + padded(n as nat, w as nat),
{
    let d = decimal_len(n);
    if w > d {
        push_repeat(out, ' ', w - d);
    } else {
        assert(repeat(' ', w - d) =~= Seq::<char>::empty());
        assert(old(out)@ + repeat(' ', w - d) =~= old(out)@);
    }
    push_decimal(out, n);
    assert(old(out)@ + padded(n as nat, w as nat) =~= old(out)@ + repeat(' ', w - d) + decimal_text(
        n as nat,
    ));
}

/// Appends [`underline`] of the line reference style `p` for line `line`, the `idx`th one.
fn push_underline(
    out: &mut String,
    start: LineCol,
    end: LineCol,
    width: usize,
    style: &str,
    mark: char,
    msg: &str,
    idx: usize,
    line: &str,
)
    ensures
        final(out)@ == old(out)@ + underline(
            LineRefStyle { start, end, width: width as nat, style: style@, mark, msg: msg@ },
            idx as int,
            line@,
        ),
{
    let ghost p = LineRefStyle { start, end, width: width as nat, style: style@, mark, msg: msg@ };
    let last = start.line <= end.line && idx == end.line - start.line;
    assert(last == is_last_line(p, idx as int));
    let start_col = if idx == 0 {
        start.col
    } else {
        0
    };
    let end_col = if last {
        end.col
    } else {
        line.as_bytes().len()
    };
    push_repeat(out, ' ', start_col);
    push_str(out, style);
    let ghost a = out@;
    if end_col > start_col {
        push_repeat(out, mark, end_col - start_col);
    } else {
        assert(repeat(mark, end_col - start_col) =~= Seq::<char>::empty());
        assert(out@ + repeat(mark, end_col - start_col) =~= out@);
    }
    let ghost b = out@;
    if last {
        push_str(out, " ");
        push_str(out, msg);
        assert(out@ =~= b + (" "@ + msg@));
    } else {
        assert(out@ + Seq::<char>::empty() =~= out@);
    }
    assert(final(out)@ =~= old(out)@ + underline(p, idx as int, line@));
}

/// Appends [`line_block`] of the line reference style `start`, `end`, `width`, `style`, `mark`,
/// `msg`, for line `line`, the `idx`th one.
fn push_line_block(
    out: &mut String,
    start: LineCol,
    end: LineCol,
    width: usize,
    style: &str,
    mark: char,
    msg: &str,
    idx: usize,
    line: &str,
)
    requires
        start.line + idx <= usize::MAX,
    ensures
        final(out)@ == old(out)@ + line_block(
            LineRefStyle { start, end, width: width as nat, style: style@, mark, msg: msg@ },
            idx as int,
            line@,
        ),
{
    let ghost p = LineRefStyle { start, end, width: width as nat, style: style@, mark, msg: msg@ };
    push_str(out, "   \x1b[94m");
    push_padded(out, start.line + idx, width);
    push_str(out, " |\x1b[0m  ");
    push_str(out, line);
    push_str(out, "\n");
    let ghost a = out@;
    assert(a =~= old(out)@ + number_line(p, idx as int, line@));
    push_str(out, "   \x1b[94m");
    push_repeat(out, ' ', width);
    push_str(out, " |\x1b[0m  ");
    let ghost b = out@;
    push_underline(out, start, end, width, style, mark, msg, idx, line);
    push_str(out, "\x1b[0m\n");
    assert(final(out)@ =~= a + pre_num() + repeat(' ', width as int) + post_num() + underline(
        p,
        idx as int,
        line@,
    ) + "\x1b[0m\n"@);
}

/// Appends [`lines_from`] for all the lines of `text`, the lines a line reference spans.
fn push_lines(
    out: &mut String,
    text: &str,
    start: LineCol,
    end: LineCol,
    width: usize,
    style: &str,
    mark: char,
    msg: &str,
)
    requires
        start.line + text@.len() <= usize::MAX,
    ensures
        final(out)@ == old(out)@ + lines_from(
            LineRefStyle { start, end, width: width as nat, style: style@, mark, msg: msg@ },
            text@,
            0,
            0,
        ),
{
    let ghost p = LineRefStyle { start, end, width: width as nat, style: style@, mark, msg: msg@ };
    let t = chars_of(text);
    let tn = t.len();
    let ghost goal = out@ + lines_from(p, t@, 0, 0);
    let mut k: usize = 0;
    let mut idx: usize = 0;
    loop
        invariant_except_break
            out@ + lines_from(p, t@, k as int, idx as int) == goal,
        invariant
            p == (LineRefStyle { start, end, width: width as nat, style: style@, mark, msg: msg@ }),
            k <= tn,
            idx <= k,
            tn == t@.len(),
            t@ == text@,
            start.line + tn <= usize::MAX,
        ensures
            out@ == goal,
        decreases tn - k,
    {
        let mut e = k;
        while e < tn && t[e] != '\n'
            invariant
                k <= e <= tn,
                tn == t@.len(),
                newline_from(t@, k as int) == newline_from(t@, e as int),
            decreases tn - e,
        {
            e = e + 1;
        }
        let line = text.substring_char(k, e);
        assert(line@ == t@.subrange(k as int, e as int));
        let ghost before = out@;
        let ghost block = line_block(p, idx as int, t@.subrange(k as int, e as int));
        assert(newline_from(t@, e as int) == e);
        assert(newline_from(t@, k as int) == e);
        push_line_block(out, start, end, width, style, mark, msg, idx, line);
        assert(out@ == before + block);
        if e < tn {
            assert(lines_from(p, t@, k as int, idx as int) == block + lines_from(
                p,
                t@,
                e + 1,
                idx + 1,
            ));
            assert(out@ + lines_from(p, t@, e + 1, idx + 1) =~= before + lines_from(
                p,
                t@,
                k as int,
                idx as int,
            ));
            k = e + 1;
            idx = idx + 1;
        } else {
            assert(lines_from(p, t@, k as int, idx as int) == block);
            break;
        }
    }
}

/// Appends the line reference of `range` in `source`: each line the range spans, with its
/// number, and under it the spanned part marked with `mark` in `style`; `msg` ends the last one.
///
/// Example (`\x1b[..m` sequences left out):
/// ```text
///    |
///  1 |  let foo = 5;
///    |      ~~~ message
/// ```
pub fn line_ref(out: &mut String, source: &str, range: Range<usize>, style: &str, mark: char, msg: &str)
    requires
        line_ref_defined(source@, range),
        utf8_len(source@) <= isize::MAX,
    ensures
        final(out)@ == old(out)@ + line_ref_text(source@, range, style@, mark, msg@),
{
    let ghost s = source@;
    let nbytes = source.as_bytes().len();
    let lcr = line_col_range(source, Range { start: range.start, end: range.end });
    let lines = line_containing(source, Range { start: range.start, end: range.end });
    proof {
        let i = char_index(s, range.start as int);
        let j = char_index(s, range.end as int);
        assert(0 <= i <= s.len() && byte_offset(s, i) == range.start);
        assert(0 <= j <= s.len() && byte_offset(s, j) == range.end);
        lemma_line_start_at(s, i);
        lemma_line_end_at(s, j);
        lemma_char_index(s, line_start_at(s, i));
        lemma_char_index(s, line_end_at(s, j));
    }
    assert(lcr is Some);
    assert(lines is Some);
    match (lcr, lines) {
        (Some(lc), Some(lr)) => {
            let width = decimal_len(lc.end.line);
            push_str(out, "   \x1b[94m");
            push_repeat(out, ' ', width);
            push_str(out, " |\x1b[0m  ");
            push_str(out, "\n");
            let chars = chars_of(source);
            proof {
                lemma_byte_offset_mono(s, 0, s.len() as int);
                assert(s.take(s.len() as int) =~= s);
                let ci = char_index(s, range.start as int);
                lemma_line_facts(s.take(ci));
            }
            let ghost (a, b) = line_containing_spec(s, range.start as int, range.end as int)->0;
            let ia = char_index_of(chars.as_slice(), lr.start);
            let ib = char_index_of(chars.as_slice(), lr.end);
            match (ia, ib) {
                (Some(ia), Some(ib)) => {
                    proof {
                        let i = char_index(s, range.start as int);
                        let j = char_index(s, range.end as int);
                        lemma_line_start_at(s, i);
                        lemma_line_end_at(s, j);
                        lemma_char_index(s, line_start_at(s, i));
                        lemma_char_index(s, line_end_at(s, j));
                        if line_end_at(s, j) < line_start_at(s, i) {
                            lemma_byte_offset_mono(s, line_end_at(s, j), line_start_at(s, i));
                        }
                    }
                    let text = source.substring_char(ia, ib);
                    let ghost head = out@;
                    push_lines(out, text, lc.start, lc.end, width, style, mark, msg);
                    proof {
                        let p = LineRefStyle {
                            start: lc.start,
                            end: lc.end,
                            width: width as nat,
                            style: style@,
                            mark,
                            msg: msg@,
                        };
                        assert(text@ == s.subrange(char_index(s, a), char_index(s, b)));
                        assert(out@ =~= old(out)@ + (pre_num() + repeat(' ', p.width as int)
                            + post_num() + "\n"@ + lines_from(p, text@, 0, 0)));
                    }
                },
                _ => {},
            }
        },
        _ => {},
    }
}

/// What the underline of an error's own span says
pub open spec fn underline_message(e: ErrorModel) -> Seq<char> {
    match e {
        ErrorModel::UnknownToken => "what is this?"@,
        ErrorModel::EndlessBlockComment | ErrorModel::EndlessCharLiteral
        | ErrorModel::EndlessStringLiteral => "never ends"@,
        ErrorModel::EmptyCharLiteral => "empty"@,
        ErrorModel::MultiCharLiteral => "a char should be 1 char"@,
        ErrorModel::EscapedCharLiteralEnd | ErrorModel::EscapedStringLiteralEnd => "never ends, unless you remove the `\\`"@,
        ErrorModel::InvalidEscape(_) => "has an invalid escape sequence"@,
        ErrorModel::InvalidNumLiteral(_) => "not a valid number"@,
        ErrorModel::IncorrectCloseBracket { .. } => "incorrect partner"@,
        ErrorModel::ExcessCloseBracket { .. } => "missing a partner"@,
        ErrorModel::MissingCloseBracket { .. } => "missing close bracket"@,
        ErrorModel::MissingToken { .. } => "missing token"@,
        ErrorModel::UnexpectedToken { .. } => "wrong token"@,
    }
}

/// The other span an error refers to, if any, with what to say about it
pub open spec fn info_item(e: ErrorModel) -> Option<(Range<usize>, Seq<char>)> {
    match e {
        ErrorModel::IncorrectCloseBracket { expect, .. } => Some(
            (expect.1, "bracket type introduced here"@),
        ),
        ErrorModel::MissingCloseBracket { expect } => Some((expect.1, "missing a partner"@)),
        _ => None,
    }
}

/// Whether the line references of error `e` can be shown
pub open spec fn render_defined(e: &ContextError) -> bool {
    &&& utf8_len(e.source@) <= isize::MAX
    &&& e.range.start < e.range.end ==> line_ref_defined(e.source@, e.range)
    &&& info_item(e.err@) matches Some((r, _)) ==> line_ref_defined(e.source@, r)
}

/// The line references of error `e`: its own span (if it is not empty) underlined with `^`, then
/// the other span it refers to underlined with `-`, a blank line between them
pub open spec fn render_text(e: &ContextError) -> Seq<char> {
    let has_own = e.range.start < e.range.end;
    let own = if has_own {
        line_ref_text(e.source@, e.range, "\x1b[91m"@, '^', underline_message(e.err@))
    } else {
        Seq::empty()
    };
    match info_item(e.err@) {
        Some((r, m)) => own + (if has_own {
            "\n"@
        } else {
            Seq::empty()
        }) + line_ref_text(e.source@, r, "\x1b[96m"@, '-', m),
        None => own,
    }
}

/// The message under the error's own underline
fn underline_message_str(e: &ErrorType) -> (r: &'static str)
    ensures
        r@ == underline_message(e@),
{
    match e {
        ErrorType::UnknownToken => "what is this?",
        ErrorType::EndlessBlockComment | ErrorType::EndlessCharLiteral
        | ErrorType::EndlessStringLiteral => "never ends",
        ErrorType::EmptyCharLiteral => "empty",
        ErrorType::MultiCharLiteral => "a char should be 1 char",
        ErrorType::EscapedCharLiteralEnd | ErrorType::EscapedStringLiteralEnd => "never ends, unless you remove the `\\`",
        ErrorType::InvalidEscape(_) => "has an invalid escape sequence",
        ErrorType::InvalidNumLiteral(_) => "not a valid number",
        ErrorType::IncorrectCloseBracket { .. } => "incorrect partner",
        ErrorType::ExcessCloseBracket { .. } => "missing a partner",
        ErrorType::MissingCloseBracket { .. } => "missing close bracket",
        ErrorType::MissingToken { .. } => "missing token",
        ErrorType::UnexpectedToken { .. } => "wrong token",
    }
}

/// Whether the line reference of `range` in `source` can be shown
fn line_ref_ok(source: &str, range: &Range<usize>) -> (r: bool)
    requires
        utf8_len(source@) <= isize::MAX,
    ensures
        r == line_ref_defined(source@, *range),
{
    let lcr = line_col_range(source, Range { start: range.start, end: range.end });
    let lines = line_containing(source, Range { start: range.start, end: range.end });
    match (lcr, lines) {
        (Some(lc), Some(l)) => lc.start.line <= lc.end.line && l.start <= l.end,
        _ => false,
    }
}

/// Counting the `\n` of a longer prefix counts no fewer.
proof fn lemma_count_newlines_mono(s: Seq<char>, i: int, j: int)
    requires
        0 <= i <= j <= s.len(),
    ensures
        count_newlines(s.take(i)) <= count_newlines(s.take(j)),
    decreases j - i,
{
    if i < j {
        lemma_count_newlines_mono(s, i, j - 1);
        assert(s.take(j).drop_last() =~= s.take(j - 1));
    }
}

/// A span of `s` from char `i` to char `j` has a line reference: its lines and columns are
/// defined and in order, and so are the ends of the lines that hold it.
pub proof fn lemma_line_ref_defined(s: Seq<char>, i: int, j: int)
    requires
        0 <= i <= j <= s.len(),
        utf8_len(s) <= isize::MAX,
    ensures
        line_ref_defined(
            s,
            Range { start: byte_offset(s, i) as usize, end: byte_offset(s, j) as usize },
        ),
{
    lemma_byte_offset_mono(s, 0, s.len() as int);
    lemma_byte_offset_mono(s, i, j);
    lemma_byte_offset_mono(s, j, s.len() as int);
    assert(s.take(s.len() as int) =~= s);
    let range = Range { start: byte_offset(s, i) as usize, end: byte_offset(s, j) as usize };
    assert(range.start == byte_offset(s, i) && range.end == byte_offset(s, j));
    lemma_char_index(s, i);
    lemma_char_index(s, j);
    lemma_count_newlines_mono(s, i, j);
    lemma_line_facts(s.take(j));
    assert(s.take(j).len() == j);
    assert(line_col_spec(s, range.start as int) == Some(line_col_of(s.take(i))));
    assert(line_col_spec(s, range.end as int) == Some(line_col_of(s.take(j))));
    assert(line_col_of(s.take(i)).line <= line_col_of(s.take(j)).line);
    lemma_line_start_at(s, i);
    lemma_line_end_at(s, j);
    lemma_byte_offset_mono(s, line_start_at(s, i), i);
    lemma_byte_offset_mono(s, j, line_end_at(s, j));
    assert(line_containing_spec(s, range.start as int, range.end as int) == Some(
        (
            byte_offset(s, line_start_at(s, i)) as int,
            byte_offset(s, line_end_at(s, j)) as int,
        ),
    ));
}

/// Every error the scanner reports for `source` (whose results are `items`) can be shown with
/// its line references.
pub proof fn lemma_scanner_errors_render<'a>(source: &'a str, items: Seq<TokenResult<'a>>)
    requires
        utf8_len(source@) <= isize::MAX,
        items.len() == lex(source@).len(),
        forall|i: int|
            0 <= i < items.len() ==> result_is(
                #[trigger] items[i],
                lex(source@)[i].0,
                source,
                lex(source@)[i].1,
                lex(source@)[i].2,
            ),
    ensures
        forall|i: int| 0 <= i < items.len() ==> (#[trigger] items[i] matches Err(e) ==> render_defined(&e)),
{
    let s = source@;
    let l = lex(s);
    lemma_lex_tiles(s);
    lemma_scanner_errors_are_lex(s);
    assert forall|i: int| 0 <= i < items.len() implies (#[trigger] items[i] matches Err(e) ==> render_defined(
        &e,
    )) by {
        if let Err(e) = items[i] {
            assert(result_is(items[i], l[i].0, source, l[i].1, l[i].2));
            assert(0 <= l[i].1 < l[i].2 <= s.len());
            lemma_line_ref_defined(s, l[i].1, l[i].2);
            assert(l[i].0 matches LexItem::Error(_));
        }
    }
}

impl<'a, 'b> RenderedContextError<'a, 'b> {
    /// The line references of the error; [`None`] where a range it refers to does not fit in
    /// its source
    pub fn try_to_string(&self) -> (r: Option<String>)
        ensures
            match r {
                Some(s) => render_defined(self.0) && s@ == render_text(self.0),
                None => !render_defined(self.0),
            },
    {
        let e = self.0;
        let n = e.source.as_bytes().len();
        if n > isize::MAX as usize {
            return None;
        }
        if e.range.start < e.range.end && !line_ref_ok(e.source, &e.range) {
            return None;
        }
        let info_ok = match &e.err {
            ErrorType::IncorrectCloseBracket { expect, .. } => line_ref_ok(e.source, &expect.1),
            ErrorType::MissingCloseBracket { expect } => line_ref_ok(e.source, &expect.1),
            _ => true,
        };
        if info_ok {
            Some(self.to_string())
        } else {
            None
        }
    }

    /// The line references of the error
    pub fn to_string(&self) -> (r: String)
        requires
            render_defined(self.0),
        ensures
            r@ == render_text(self.0),
    {
        let e = self.0;
        let mut out = String::new();
        let has_own = e.range.start < e.range.end;
        if has_own {
            line_ref(
                &mut out,
                e.source,
                Range { start: e.range.start, end: e.range.end },
                "\x1b[91m",
                '^',
                underline_message_str(&e.err),
            );
        }
        let ghost own = out@;
        let info: Option<(Range<usize>, &str)> = match &e.err {
            ErrorType::IncorrectCloseBracket { expect, .. } => Some(
                (Range { start: expect.1.start, end: expect.1.end }, "bracket type introduced here"),
            ),
            ErrorType::MissingCloseBracket { expect } => Some(
                (Range { start: expect.1.start, end: expect.1.end }, "missing a partner"),
            ),
            _ => None,
        };
        match info {
            Some((r, m)) => {
                if has_own {
                    push_str(&mut out, "\n");
                }
                line_ref(&mut out, e.source, r, "\x1b[96m", '-', m);
                assert(out@ =~= own + (if has_own {
                    "\n"@
                } else {
                    Seq::<char>::empty()
                }) + line_ref_text(e.source@, r, "\x1b[96m"@, '-', m@));
            },
            None => {},
        }
        out
    }
}

} // verus!
