//! What a run of the highlighter shows: the source in its highlighting styles with numbered
//! lines, and a report for each error.
use crate::error::render::{render_defined, render_text};
use crate::error::{code_text, error_help, error_text, ContextError};
use crate::highlight::pieces_view;
use crate::numeral::{decimal_text, push_decimal};
use crate::style::{begin_text, end_text, Style};
use crate::syntax::{Syntax, SyntaxStyle};
use crate::text::{chars_of, push_char, push_str};
use vstd::prelude::*;

verus! {

broadcast use vstd::seq::group_seq_axioms;

/// The pieces, each opened and closed with its style in `table`
pub open spec fn styled_pieces(table: SyntaxStyle<Style>, p: Seq<(Seq<char>, Syntax)>) -> Seq<
    char,
>
    decreases p.len(),
{
    if p.len() == 0 {
        Seq::empty()
    } else {
        let (text, syntax) = p.last();
        styled_pieces(table, p.drop_last()) + begin_text(table.style_for(syntax)) + text + end_text(
            table.style_for(syntax),
        )
    }
}

/// The pieces in their styles from `table`, then the sequence that resets all styling
pub fn styled_text(table: &SyntaxStyle<Style>, pieces: &[(&str, Syntax)]) -> (r: String)
    requires
        forall|i: int|
            0 <= i < pieces@.len() && (#[trigger] pieces@[i]).1 is Bracket ==> table.bracket@.len()
                > 0,
    ensures
        r@ == styled_pieces(*table, pieces_view(pieces@)) + "\x1b[0m"@,
{
    let mut out = String::new();
    let mut i: usize = 0;
    while i < pieces.len()
        invariant
            i <= pieces@.len(),
            forall|k: int|
                0 <= k < pieces@.len() && (#[trigger] pieces@[k]).1 is Bracket
                    ==> table.bracket@.len() > 0,
            out@ == styled_pieces(*table, pieces_view(pieces@.take(i as int))),
        decreases pieces@.len() - i,
    {
        let (what, syntax) = pieces[i];
        let styled = table.stylize(syntax, what).to_string();
        proof {
            let v = pieces_view(pieces@.take(i + 1));
            assert(v.drop_last() =~= pieces_view(pieces@.take(i as int)));
            assert(v.last() == (what@, syntax));
        }
        push_str(&mut out, styled.as_str());
        i = i + 1;
    }
    assert(pieces@.take(i as int) =~= pieces@);
    push_str(&mut out, "\x1b[0m");
    out
}

/// The char index of the first `\n` of `s` at or after `i`, or the length of `s`
pub open spec fn next_newline(s: Seq<char>, i: int) -> int
    decreases s.len() - i,
{
    if i < 0 || i >= s.len() {
        s.len() as int
    } else if s[i] == '\n' {
        i
    } else {
        next_newline(s, i + 1)
    }
}

/// The first `\n` at or after `i` is not before `i`, and not past the end.
pub proof fn lemma_next_newline(s: Seq<char>, i: int)
    requires
        0 <= i <= s.len(),
    ensures
        i <= next_newline(s, i) <= s.len(),
    decreases s.len() - i,
{
    if i < s.len() && s[i] != '\n' {
        lemma_next_newline(s, i + 1);
    }
}

/// Where the line that starts at `i` and is broken by the `\n` at `j` (or by the end of `s`)
/// ends: a `\r` just before that `\n` is not part of it
pub open spec fn line_end(s: Seq<char>, i: int, j: int) -> int {
    if i < j < s.len() && s[j - 1] == '\r' {
        j - 1
    } else {
        j
    }
}

/// The lines of `s` from char index `i` on, as char ranges, cut as `str::lines` cuts them: at
/// each `\n`, without a `\r` just before it; a final `\n` ends the last line and starts none.
pub open spec fn lines_from(s: Seq<char>, i: int) -> Seq<(int, int)>
    decreases s.len() + 1 - i,
{
    if i < 0 || i >= s.len() {
        Seq::empty()
    } else {
        let j = next_newline(s, i);
        proof {
            lemma_next_newline(s, i);
        }
        seq![(i, line_end(s, i, j))] + lines_from(s, j + 1)
    }
}

/// `t` right-aligned in `w` columns
pub open spec fn pad_left(t: Seq<char>, w: nat) -> Seq<char> {
    if t.len() < w {
        Seq::new((w - t.len()) as nat, |_k: int| ' ') + t
    } else {
        t
    }
}

/// The index of the last `\x1b[` of `s` that ends at or before char index `p`
pub open spec fn last_csi(s: Seq<char>, p: int) -> Option<int>
    decreases p,
{
    if p < 2 || p > s.len() {
        None
    } else if s[p - 2] == '\x1b' && s[p - 1] == '[' {
        Some(p - 2)
    } else {
        last_csi(s, p - 1)
    }
}

/// The index of the first `m` of `s` at or after `k`
pub open spec fn next_m(s: Seq<char>, k: int) -> Option<int>
    decreases s.len() - k,
{
    if k < 0 || k >= s.len() {
        None
    } else if s[k] == 'm' {
        Some(k)
    } else {
        next_m(s, k + 1)
    }
}

/// The ANSI sequence in force at char index `p` of `s`: from the last `\x1b[` before `p`
/// through the next `m`; the resetting sequence where there is none
pub open spec fn style_at(s: Seq<char>, p: int) -> Seq<char> {
    match last_csi(s, p) {
        Some(k) => match next_m(s, k) {
            Some(m) => s.subrange(k, m + 1),
            None => "\x1b[0m"@,
        },
        None => "\x1b[0m"@,
    }
}

/// One numbered line of a listing of `s`: the number `n` right-aligned in `w` columns, the
/// style in force where the line starts, and the line
pub open spec fn numbered_line(s: Seq<char>, line: (int, int), n: nat, w: nat) -> Seq<char> {
    " \x1b[90m"@ + pad_left(decimal_text(n), w) + style_at(s, line.0) + "   "@ + s.subrange(
        line.0,
        line.1,
    ) + "\n"@
}

/// The numbered lines `lines` of `s`, numbered from `first`
pub open spec fn listing_lines(s: Seq<char>, lines: Seq<(int, int)>, first: nat, w: nat) -> Seq<
    char,
>
    decreases lines.len(),
{
    if lines.len() == 0 {
        Seq::empty()
    } else {
        numbered_line(s, lines[0], first, w) + listing_lines(s, lines.drop_first(), first + 1, w)
    }
}

/// `s` with its lines numbered from 1, the numbers as wide as the number after the last line
pub open spec fn numbered_text(s: Seq<char>) -> Seq<char> {
    let lines = lines_from(s, 0);
    listing_lines(s, lines, 1, decimal_text(lines.len() + 1).len())
}

/// [`next_newline`] of `s` and `i`
fn find_newline(s: &[char], i: usize) -> (j: usize)
    requires
        i <= s@.len(),
    ensures
        j == next_newline(s@, i as int),
        i <= j <= s@.len(),
{
    let mut j = i;
    while j < s.len() && s[j] != '\n'
        invariant
            i <= j <= s@.len(),
            next_newline(s@, i as int) == next_newline(s@, j as int),
        decreases s@.len() - j,
    {
        j = j + 1;
    }
    j
}

/// [`last_csi`] of `s` and `p`
fn find_last_csi(s: &[char], p: usize) -> (r: Option<usize>)
    requires
        p <= s@.len(),
    ensures
        match r {
            Some(k) => last_csi(s@, p as int) == Some(k as int) && k + 2 <= p,
            None => last_csi(s@, p as int) is None,
        },
{
    let mut q = p;
    while q >= 2
        invariant
            q <= p <= s@.len(),
            last_csi(s@, p as int) == last_csi(s@, q as int),
        decreases q,
    {
        if s[q - 2] == '\x1b' && s[q - 1] == '[' {
            return Some(q - 2);
        }
        q = q - 1;
    }
    None
}

/// [`next_m`] of `s` and `k`
fn find_m(s: &[char], k: usize) -> (r: Option<usize>)
    ensures
        match r {
            Some(m) => next_m(s@, k as int) == Some(m as int) && k <= m < s@.len(),
            None => next_m(s@, k as int) is None,
        },
{
    let mut m = k;
    while m < s.len() && s[m] != 'm'
        invariant
            k <= m,
            next_m(s@, k as int) == next_m(s@, m as int),
        decreases s@.len() - m,
    {
        m = m + 1;
    }
    if m < s.len() {
        Some(m)
    } else {
        None
    }
}

/// The number of chars in the decimal text of `n`
fn decimal_len(n: usize) -> (r: usize)
    ensures
        r == decimal_text(n as nat).len(),
{
    let mut t = String::new();
    push_decimal(&mut t, n);
    t.as_str().unicode_len()
}

/// Appends `n` right-aligned in `w` columns.
fn push_padded(out: &mut String, n: usize, w: usize)
    ensures
        final(out)@ == old(out)@ + pad_left(decimal_text(n as nat), w as nat),
{
    let mut t = String::new();
    push_decimal(&mut t, n);
    let len = t.as_str().unicode_len();
    let ghost start = out@;
    if len < w {
        let mut k: usize = 0;
        while k < w - len
            invariant
                len < w,
                k <= w - len,
                out@ == start + Seq::new(k as nat, |_i: int| ' '),
            decreases w - len - k,
        {
            push_char(out, ' ');
            k = k + 1;
            assert(out@ =~= start + Seq::new(k as nat, |_i: int| ' '));
        }
    }
    push_str(out, t.as_str());
}

/// Appends [`style_at`] of `text` and `p`; `s` holds the chars of `text`.
fn push_style_at(out: &mut String, text: &str, s: &[char], p: usize)
    requires
        s@ == text@,
        p <= s@.len(),
    ensures
        final(out)@ == old(out)@ + style_at(s@, p as int),
{
    let _ = s.len();
    match find_last_csi(s, p) {
        Some(k) => match find_m(s, k) {
            Some(m) => push_str(out, text.substring_char(k, m + 1)),
            None => push_str(out, "\x1b[0m"),
        },
        None => push_str(out, "\x1b[0m"),
    }
}

/// The number of lines of `s` ([`lines_from`] of `s` and 0)
fn count_lines(s: &[char]) -> (r: usize)
    requires
        s@.len() < usize::MAX,
    ensures
        r == lines_from(s@, 0).len(),
        r <= s@.len(),
{
    let n = s.len();
    let mut count: usize = 0;
    let mut i: usize = 0;
    while i < n
        invariant
            n == s@.len(),
            n < usize::MAX,
            count <= i,
            count <= n,
            i <= n + 1,
            count + lines_from(s@, i as int).len() == lines_from(s@, 0).len(),
        decreases n + 1 - i,
    {
        let j = find_newline(s, i);
        assert(lines_from(s@, i as int).len() == 1 + lines_from(s@, j + 1).len());
        count = count + 1;
        i = j + 1;
    }
    count
}

/// `text` with its lines numbered from 1: each line starts with its number, right-aligned as
/// wide as the number after the last line, then the ANSI style in force where the line starts
pub fn numbered_listing(text: &str) -> (r: String)
    requires
        text@.len() < usize::MAX,
    ensures
        r@ == numbered_text(text@),
{
    let chars = chars_of(text);
    let s = chars.as_slice();
    let n = s.len();
    let total = count_lines(s);
    let width = decimal_len(total + 1);
    let ghost w = width as nat;
    let mut out = String::new();
    let mut i: usize = 0;
    let mut line: usize = 1;
    while i < n
        invariant
            n == s@.len(),
            s@ == text@,
            n < usize::MAX,
            i <= n + 1,
            total == lines_from(s@, 0).len(),
            total <= n,
            width == decimal_text(total as nat + 1).len(),
            w == width as nat,
            line + lines_from(s@, i as int).len() == total + 1,
            numbered_text(s@) == out@ + listing_lines(s@, lines_from(s@, i as int), line as nat, w),
        decreases n + 1 - i,
    {
        let j = find_newline(s, i);
        let e = if i < j && j < n && s[j - 1] == '\r' {
            j - 1
        } else {
            j
        };
        let ghost rest = lines_from(s@, j + 1);
        let ghost here = lines_from(s@, i as int);
        assert(here == seq![(i as int, e as int)] + rest);
        assert(here[0] == (i as int, e as int));
        assert(here.drop_first() =~= rest);
        let ghost before = out@;
        push_str(&mut out, " \x1b[90m");
        let ghost o1 = out@;
        push_padded(&mut out, line, width);
        let ghost o2 = out@;
        push_style_at(&mut out, text, s, i);
        let ghost o3 = out@;
        push_str(&mut out, "   ");
        let ghost o4 = out@;
        push_str(&mut out, text.substring_char(i, e));
        let ghost o5 = out@;
        push_str(&mut out, "\n");
        proof {
            let piece = numbered_line(s@, here[0], line as nat, w);
            assert(o1 == before + " \x1b[90m"@);
            assert(o2 == o1 + pad_left(decimal_text(line as nat), w));
            assert(o3 == o2 + style_at(s@, i as int));
            assert(o5 == o4 + s@.subrange(i as int, e as int));
            assert(out@ =~= before + piece);
        }
        line = line + 1;
        i = j + 1;
    }
    assert(out@ + Seq::<char>::empty() =~= out@);
    out
}

/// The lines of `s` (the ranges `lines`), each followed by `\n`, those after the first led by
/// `indent`
pub open spec fn indented_lines(s: Seq<char>, lines: Seq<(int, int)>, indent: Seq<char>, first: bool) -> Seq<char>
    decreases lines.len(),
{
    if lines.len() == 0 {
        Seq::empty()
    } else {
        (if first {
            Seq::empty()
        } else {
            indent
        }) + s.subrange(lines[0].0, lines[0].1) + "\n"@ + indented_lines(
            s,
            lines.drop_first(),
            indent,
            false,
        )
    }
}

/// What a run shows of error `e` whose tip is `help`: its code and message, its line
/// references, then the tip, one line under the other
pub open spec fn report_text(e: &ContextError, help: Seq<char>) -> Seq<char> {
    "  \x1b[91m"@ + code_text(e.err@) + ":\x1b[0m "@ + error_text(e.err@) + "\n"@ + render_text(e)
        + "    \x1b[92mhelp:\x1b[0m "@ + indented_lines(help, lines_from(help, 0), "          "@, true)
        + "\n"@
}

/// The report of error `e`; [`None`] where its line references cannot be shown or no tip
/// can be made for it
pub fn error_report(e: &ContextError) -> (r: Option<String>)
    ensures
        match r {
            Some(t) => render_defined(e) && error_help(e) is Some && t@ == report_text(
                e,
                error_help(e)->0,
            ),
            None => !render_defined(e) || error_help(e) is None,
        },
{
    let rendered = match e.render().try_to_string() {
        Some(x) => x,
        None => return None,
    };
    let help = match e.help().try_to_string() {
        Some(x) => x,
        None => return None,
    };
    let hchars = chars_of(help.as_str());
    let h = hchars.as_slice();
    let n = h.len();
    let mut out = String::new();
    push_str(&mut out, "  \x1b[91m");
    push_str(&mut out, e.code().to_string().as_str());
    push_str(&mut out, ":\x1b[0m ");
    push_str(&mut out, e.err.to_string().as_str());
    push_str(&mut out, "\n");
    push_str(&mut out, rendered.as_str());
    push_str(&mut out, "    \x1b[92mhelp:\x1b[0m ");
    let ghost head = out@;
    let ghost indent = "          "@;
    let mut i: usize = 0;
    let mut first = true;
    while i < n
        invariant
            n == h@.len(),
            h@ == help@,
            indent == "          "@,
            i <= n,
            head + indented_lines(h@, lines_from(h@, 0), indent, true) == out@
                + indented_lines(h@, lines_from(h@, i as int), indent, first),
            first ==> i == 0,
        decreases n + 1 - i,
    {
        let j = find_newline(h, i);
        let end = if i < j && j < n && h[j - 1] == '\r' {
            j - 1
        } else {
            j
        };
        let ghost rest = lines_from(h@, j + 1);
        let ghost here = lines_from(h@, i as int);
        assert(here == seq![(i as int, end as int)] + rest);
        assert(here[0] == (i as int, end as int));
        assert(here.drop_first() =~= rest);
        let ghost before = out@;
        if !first {
            push_str(&mut out, "          ");
        }
        let ghost o1 = out@;
        push_str(&mut out, help.as_str().substring_char(i, end));
        let ghost o2 = out@;
        push_str(&mut out, "\n");
        proof {
            let lead = if first {
                Seq::<char>::empty()
            } else {
                indent
            };
            assert(o1 =~= before + lead);
            assert(o2 == o1 + h@.subrange(i as int, end as int));
            let piece = lead + h@.subrange(i as int, end as int) + "\n"@;
            assert(out@ =~= before + piece);
            let tail = indented_lines(h@, rest, indent, false);
            assert(indented_lines(h@, here, indent, first) == piece + tail);
            assert(before + (piece + tail) =~= out@ + tail);
        }
        first = false;
        i = if j < n {
            j + 1
        } else {
            n
        };
    }
    assert(out@ + Seq::<char>::empty() =~= out@);
    push_str(&mut out, "\n");
    Some(out)
}

} // verus!
