//! Syntax (not semantic) highlighting: the pieces of the source code, each with its category
use crate::error::{span_str, TokenResult};
use crate::scanner::token::{range_pairs, Token, TokenType, TokenValue, ValueModel};
use crate::scanner::{lemma_lex_tiles, lex, result_is, LexItem};
use crate::syntax::{error_span, syntax_of, token_syntax, Syntax};
use crate::scanner::token::{convert_escapes, escape_span, escape_spec, lemma_escape_bytes};
use crate::text::{
    byte_offset, lemma_char_width_bounds, lemma_utf8_len_concat, lemma_utf8_len_single,
    lemma_utf8_len_subrange, span_text, utf8_len,
};
use vstd::prelude::*;

verus! {

broadcast use vstd::seq::group_seq_axioms;

/// The byte ranges of a lexeme that are highlighted as escape sequences, if the token is
/// highlighted in pieces: the content of an escaped char literal, or the escape sequences of a
/// string literal that has any (shifted past the opening `"`)
pub open spec fn escape_ranges(lex: Seq<char>, val: ValueModel) -> Option<Seq<(int, int)>> {
    match val {
        ValueModel::CharLiteral(c) => if c.is_escaped {
            Some(seq![(1int, utf8_len(lex) - 1)])
        } else {
            None
        },
        ValueModel::StringLiteral(_, r) => if r.len() > 0 {
            Some(r.map_values(|p: (int, int)| (p.0 + 1, p.1 + 1)))
        } else {
            None
        },
        _ => None,
    }
}

/// The pieces of `lex` from byte offset `prev_end` on: each range of `ranges` is a piece
/// highlighted as an escape sequence, and the text between them (and after the last one) are
/// pieces highlighted as `syn`
pub open spec fn nested_pieces(lex: Seq<char>, syn: Syntax, ranges: Seq<(int, int)>, prev_end: int) -> Seq<
    (Seq<char>, Syntax),
>
    decreases ranges.len(), (if ranges.len() > 0 && ranges[0].0 == prev_end {
        0int
    } else {
        1int
    }),
{
    if ranges.len() == 0 {
        if prev_end < utf8_len(lex) {
            seq![(span_text(lex, prev_end, utf8_len(lex) as int)->0, syn)]
        } else {
            Seq::empty()
        }
    } else if ranges[0].0 == prev_end {
        seq![(span_text(lex, ranges[0].0, ranges[0].1)->0, Syntax::EscapeSeq)] + nested_pieces(
            lex,
            syn,
            ranges.drop_first(),
            ranges[0].1,
        )
    } else {
        seq![(span_text(lex, prev_end, ranges[0].0)->0, syn)] + nested_pieces(
            lex,
            syn,
            ranges,
            ranges[0].0,
        )
    }
}

/// Whether every piece that [`nested_pieces`] cuts is a valid span of `lex`
pub open spec fn nested_ok(lex: Seq<char>, ranges: Seq<(int, int)>, prev_end: int) -> bool
    decreases ranges.len(), (if ranges.len() > 0 && ranges[0].0 == prev_end {
        0int
    } else {
        1int
    }),
{
    if ranges.len() == 0 {
        prev_end < utf8_len(lex) ==> span_text(lex, prev_end, utf8_len(lex) as int) is Some
    } else if ranges[0].0 == prev_end {
        span_text(lex, ranges[0].0, ranges[0].1) is Some && nested_ok(
            lex,
            ranges.drop_first(),
            ranges[0].1,
        )
    } else {
        span_text(lex, prev_end, ranges[0].0) is Some && nested_ok(lex, ranges, ranges[0].0)
    }
}

/// The highlighted pieces of a token spelled `lex`, of category `syn`, valued `val`
pub open spec fn token_pieces(lex: Seq<char>, syn: Syntax, val: ValueModel) -> Seq<(Seq<char>, Syntax)> {
    match escape_ranges(lex, val) {
        Some(r) => nested_pieces(lex, syn, r, 0),
        None => seq![(lex, syn)],
    }
}

/// The highlighted pieces of a scanning result: an error is one [`Syntax::Invalid`] piece
pub open spec fn item_pieces(item: TokenResult) -> Seq<(Seq<char>, Syntax)> {
    match item {
        Ok((t, v)) => token_pieces(t.src@, token_syntax(t.ty, t.src@), v@),
        Err(e) => seq![(error_span(&e)->0, Syntax::Invalid)],
    }
}

/// Whether a scanning result can be highlighted: an error spans a valid range of its source,
/// and the pieces of a token are valid spans of its lexeme
pub open spec fn item_ok(item: TokenResult) -> bool {
    match item {
        Ok((t, v)) => match escape_ranges(t.src@, v@) {
            Some(r) => nested_ok(t.src@, r, 0),
            None => true,
        },
        Err(e) => error_span(&e) is Some,
    }
}

/// The highlighted pieces of a list of scanning results, in order
pub open spec fn highlight_spec(items: Seq<TokenResult>) -> Seq<(Seq<char>, Syntax)>
    decreases items.len(),
{
    if items.len() == 0 {
        Seq::empty()
    } else {
        highlight_spec(items.drop_last()) + item_pieces(items.last())
    }
}

/// The pieces as text and category
pub open spec fn pieces_view(v: Seq<(&str, Syntax)>) -> Seq<(Seq<char>, Syntax)> {
    v.map_values(|p: (&str, Syntax)| (p.0@, p.1))
}

/// Appends the pieces of `lex` cut by `ranges` (from index `i` on), from byte offset
/// `prev_end` on.
fn push_nested<'a>(
    out: &mut Vec<(&'a str, Syntax)>,
    lex: &'a str,
    syn: Syntax,
    ranges: &Vec<(usize, usize)>,
)
    requires
        nested_ok(lex@, ranges@.map_values(|p: (usize, usize)| (p.0 as int, p.1 as int)), 0),
    ensures
        pieces_view(final(out)@) == pieces_view(old(out)@) + nested_pieces(
            lex@,
            syn,
            ranges@.map_values(|p: (usize, usize)| (p.0 as int, p.1 as int)),
            0,
        ),
{
    let ghost all = ranges@.map_values(|p: (usize, usize)| (p.0 as int, p.1 as int));
    let ghost goal = pieces_view(out@) + nested_pieces(lex@, syn, all, 0);
    let len = lex.as_bytes().len();
    let mut i: usize = 0;
    let mut prev_end: usize = 0;
    assert(all.skip(0) =~= all);
    loop
        invariant_except_break
            i <= ranges@.len(),
            all == ranges@.map_values(|p: (usize, usize)| (p.0 as int, p.1 as int)),
            len == utf8_len(lex@),
            nested_ok(lex@, all.skip(i as int), prev_end as int),
            pieces_view(out@) + nested_pieces(lex@, syn, all.skip(i as int), prev_end as int)
                == goal,
        ensures
            pieces_view(out@) == goal,
        decreases ranges@.len() - i, (if i < ranges@.len() && ranges@[i as int].0 == prev_end {
            0int
        } else {
            1int
        }),
    {
        let ghost rest = all.skip(i as int);
        let ghost before = out@;
        if i == ranges.len() {
            assert(rest.len() == 0);
            if prev_end < len {
                match span_str(lex, prev_end, len) {
                    Some(piece) => out.push((piece, syn)),
                    None => {},
                }
                assert(pieces_view(out@) =~= pieces_view(before) + seq![
                    (span_text(lex@, prev_end as int, len as int)->0, syn),
                ]);
            } else {
                assert(pieces_view(out@) =~= pieces_view(before) + Seq::<(Seq<char>, Syntax)>::empty());
            }
            break;
        }
        let (a, b) = ranges[i];
        assert(rest[0] == (a as int, b as int));
        if a == prev_end {
            match span_str(lex, a, b) {
                Some(piece) => out.push((piece, Syntax::EscapeSeq)),
                None => {},
            }
            assert(rest.drop_first() =~= all.skip(i + 1));
            assert(pieces_view(out@) =~= pieces_view(before) + seq![
                (span_text(lex@, a as int, b as int)->0, Syntax::EscapeSeq),
            ]);
            prev_end = b;
            i = i + 1;
        } else {
            match span_str(lex, prev_end, a) {
                Some(piece) => out.push((piece, syn)),
                None => {},
            }
            assert(pieces_view(out@) =~= pieces_view(before) + seq![
                (span_text(lex@, prev_end as int, a as int)->0, syn),
            ]);
            prev_end = a;
        }
    }
}

/// The escape ranges of a string literal, shifted past the opening `"`
fn shifted_ranges(escapes: &Vec<core::ops::Range<usize>>, lex: &str) -> (r: Vec<(usize, usize)>)
    requires
        escapes@.len() > 0,
        nested_ok(
            lex@,
            range_pairs(escapes@).map_values(|p: (int, int)| (p.0 + 1, p.1 + 1)),
            0,
        ),
    ensures
        r@.map_values(|p: (usize, usize)| (p.0 as int, p.1 as int)) == range_pairs(
            escapes@,
        ).map_values(|p: (int, int)| (p.0 + 1, p.1 + 1)),
{
    let ghost want = range_pairs(escapes@).map_values(|p: (int, int)| (p.0 + 1, p.1 + 1));
    let n = lex.as_bytes().len();
    proof {
        lemma_nested_ok_bounds(lex@, want, 0);
    }
    let mut r: Vec<(usize, usize)> = Vec::new();
    let mut i: usize = 0;
    while i < escapes.len()
        invariant
            i <= escapes@.len(),
            n == utf8_len(lex@),
            want == range_pairs(escapes@).map_values(|p: (int, int)| (p.0 + 1, p.1 + 1)),
            forall|k: int| 0 <= k < want.len() ==> #[trigger] want[k].0 <= n && want[k].1 <= n,
            r@.len() == i,
            r@.map_values(|p: (usize, usize)| (p.0 as int, p.1 as int)) == want.take(i as int),
        decreases escapes@.len() - i,
    {
        assert(want[i as int] == (escapes@[i as int].start + 1, escapes@[i as int].end + 1));
        assert(want[i as int].0 <= n && want[i as int].1 <= n);
        let e = &escapes[i];
        let ghost old_r = r@;
        let ghost old_view = r@.map_values(|p: (usize, usize)| (p.0 as int, p.1 as int));
        r.push((e.start + 1, e.end + 1));
        let ghost new_view = r@.map_values(|p: (usize, usize)| (p.0 as int, p.1 as int));
        assert forall|k: int| 0 <= k < i implies new_view[k] == old_view[k] by {
            assert(r@[k] == old_r[k]);
        }
        i = i + 1;
        assert(new_view =~= want.take(i as int));
    }
    assert(want.take(i as int) =~= want);
    r
}

/// Every range [`nested_ok`] accepts lies within the lexeme.
proof fn lemma_nested_ok_bounds(lex: Seq<char>, ranges: Seq<(int, int)>, prev_end: int)
    requires
        nested_ok(lex, ranges, prev_end),
    ensures
        forall|k: int| 0 <= k < ranges.len() ==> #[trigger] ranges[k].0 <= utf8_len(lex)
            && ranges[k].1 <= utf8_len(lex),
    decreases ranges.len(), (if ranges.len() > 0 && ranges[0].0 == prev_end {
        0int
    } else {
        1int
    }),
{
    if ranges.len() > 0 {
        if ranges[0].0 == prev_end {
            lemma_span_bounds(lex, ranges[0].0, ranges[0].1);
            lemma_nested_ok_bounds(lex, ranges.drop_first(), ranges[0].1);
            assert forall|k: int| 0 <= k < ranges.len() implies #[trigger] ranges[k].0 <= utf8_len(
                lex,
            ) && ranges[k].1 <= utf8_len(lex) by {
                if k > 0 {
                    assert(ranges[k] == ranges.drop_first()[k - 1]);
                }
            }
        } else {
            lemma_nested_ok_bounds(lex, ranges, ranges[0].0);
        }
    }
}

/// A valid span lies within the text.
proof fn lemma_span_bounds(s: Seq<char>, a: int, b: int)
    requires
        span_text(s, a, b) is Some,
    ensures
        0 <= a <= b <= utf8_len(s),
{
    let i = crate::text::char_index(s, a);
    let j = crate::text::char_index(s, b);
    crate::text::lemma_byte_offset_mono(s, i, s.len() as int);
    crate::text::lemma_byte_offset_mono(s, j, s.len() as int);
    crate::text::lemma_byte_offset_mono(s, 0, i);
    assert(s.take(s.len() as int) =~= s);
}

/// Appends the highlighted pieces of one scanning result.
fn push_item_pieces<'a>(out: &mut Vec<(&'a str, Syntax)>, item: &TokenResult<'a>)
    requires
        item_ok(*item),
    ensures
        pieces_view(final(out)@) == pieces_view(old(out)@) + item_pieces(*item),
{
    let (lex, syn, val) = syntax_of(item);
    let ghost before = out@;
    let ghost vm = val@;
    match val {
        TokenValue::CharLiteral(c) => {
            if c.is_escaped {
                let n = lex.as_bytes().len();
                let ghost r = seq![(1int, utf8_len(lex@) - 1)];
                assert(escape_ranges(lex@, vm) == Some(r));
                proof {
                    lemma_nested_ok_bounds(lex@, r, 0);
                    assert(r[0].0 != 0);
                    assert(nested_ok(lex@, r, 1));
                    assert(span_text(lex@, 1, r[0].1) is Some);
                    lemma_span_bounds(lex@, 1, r[0].1);
                }
                let mut ranges: Vec<(usize, usize)> = Vec::new();
                ranges.push((1, n - 1));
                assert(ranges@.map_values(|p: (usize, usize)| (p.0 as int, p.1 as int)) =~= r);
                push_nested(out, lex, syn, &ranges);
            } else {
                out.push((lex, syn));
                assert(pieces_view(out@) =~= pieces_view(before) + seq![(lex@, syn)]);
            }
        },
        TokenValue::StringLiteral(l) => {
            if l.escapes.len() > 0 {
                let ranges = shifted_ranges(&l.escapes, lex);
                push_nested(out, lex, syn, &ranges);
            } else {
                out.push((lex, syn));
                assert(pieces_view(out@) =~= pieces_view(before) + seq![(lex@, syn)]);
            }
        },
        _ => {
            out.push((lex, syn));
            assert(pieces_view(out@) =~= pieces_view(before) + seq![(lex@, syn)]);
        },
    }
}

/// Cuts the scanning results into highlighted pieces, in order: each token is one piece of its
/// category, except that an escaped char literal and a string literal with escape sequences are
/// cut into their escape sequences ([`Syntax::EscapeSeq`]) and the text around them; each error
/// is one [`Syntax::Invalid`] piece.
pub fn highlight<'a>(tokens: &[TokenResult<'a>]) -> (r: Vec<(&'a str, Syntax)>)
    requires
        forall|i: int| 0 <= i < tokens@.len() ==> item_ok(#[trigger] tokens@[i]),
    ensures
        pieces_view(r@) == highlight_spec(tokens@),
{
    let mut out: Vec<(&'a str, Syntax)> = Vec::new();
    let mut i: usize = 0;
    while i < tokens.len()
        invariant
            i <= tokens@.len(),
            forall|k: int| 0 <= k < tokens@.len() ==> item_ok(#[trigger] tokens@[k]),
            pieces_view(out@) == highlight_spec(tokens@.take(i as int)),
        decreases tokens@.len() - i,
    {
        push_item_pieces(&mut out, &tokens[i]);
        assert(tokens@.take(i + 1).drop_last() =~= tokens@.take(i as int));
        i = i + 1;
    }
    assert(tokens@.take(i as int) =~= tokens@);
    out
}

/// The text of highlighted pieces, in order
pub open spec fn pieces_text(p: Seq<(Seq<char>, Syntax)>) -> Seq<char>
    decreases p.len(),
{
    if p.len() == 0 {
        Seq::empty()
    } else {
        p[0].0 + pieces_text(p.drop_first())
    }
}

/// The text of two lists of pieces is the text of the first, then of the second.
pub proof fn lemma_pieces_text_concat(a: Seq<(Seq<char>, Syntax)>, b: Seq<(Seq<char>, Syntax)>)
    ensures
        pieces_text(a + b) == pieces_text(a) + pieces_text(b),
    decreases a.len(),
{
    if a.len() == 0 {
        assert(a + b =~= b);
        assert(pieces_text(a) + pieces_text(b) =~= pieces_text(b));
    } else {
        assert((a + b).drop_first() =~= a.drop_first() + b);
        lemma_pieces_text_concat(a.drop_first(), b);
        assert(pieces_text(a + b) =~= pieces_text(a) + pieces_text(b));
    }
}

/// Two adjacent spans make up the span from the start of the first to the end of the second.
pub proof fn lemma_span_concat(s: Seq<char>, a: int, b: int, c: int)
    requires
        span_text(s, a, b) is Some,
        span_text(s, b, c) is Some,
    ensures
        span_text(s, a, c) == Some(span_text(s, a, b)->0 + span_text(s, b, c)->0),
{
    crate::text::lemma_char_index_order(s, a, b);
    crate::text::lemma_char_index_order(s, b, c);
    let i = crate::text::char_index(s, a);
    let j = crate::text::char_index(s, b);
    let k = crate::text::char_index(s, c);
    assert(s.subrange(i, j) + s.subrange(j, k) =~= s.subrange(i, k));
}

/// A span ending at the end of `s` is the rest of `s` from its start.
proof fn lemma_span_to_end(s: Seq<char>, p: int)
    requires
        crate::text::is_boundary(s, p),
    ensures
        p <= utf8_len(s) ==> span_text(s, p, utf8_len(s) as int) == Some(
            s.skip(crate::text::char_index(s, p)),
        ),
        p <= utf8_len(s),
{
    let i = crate::text::char_index(s, p);
    crate::text::lemma_byte_offset_mono(s, i, s.len() as int);
    assert(s.take(s.len() as int) =~= s);
    crate::text::lemma_char_index(s, s.len() as int);
    assert(s.subrange(i, s.len() as int) =~= s.skip(i));
}

/// The pieces cut from `lex` from byte offset `p` on make up the rest of `lex` from `p`.
pub proof fn lemma_nested_text(lex: Seq<char>, syn: Syntax, ranges: Seq<(int, int)>, p: int)
    requires
        nested_ok(lex, ranges, p),
        crate::text::is_boundary(lex, p),
    ensures
        pieces_text(nested_pieces(lex, syn, ranges, p)) == lex.skip(crate::text::char_index(lex, p)),
    decreases ranges.len(), (if ranges.len() > 0 && ranges[0].0 == p {
        0int
    } else {
        1int
    }),
{
    lemma_span_to_end(lex, p);
    let n = utf8_len(lex) as int;
    if ranges.len() == 0 {
        if p < n {
            let pieces = nested_pieces(lex, syn, ranges, p);
            assert(pieces_text(pieces.drop_first()) == Seq::<char>::empty());
            assert(pieces_text(pieces) =~= span_text(lex, p, n)->0);
        } else {
            crate::text::lemma_char_index(lex, lex.len() as int);
            crate::text::lemma_byte_offset_mono(lex, crate::text::char_index(lex, p), lex.len() as int);
            assert(lex.take(lex.len() as int) =~= lex);
            crate::text::lemma_byte_offset_injective(lex, crate::text::char_index(lex, p), lex.len() as int);
            assert(lex.skip(crate::text::char_index(lex, p)) =~= Seq::<char>::empty());
        }
    } else {
        let (a, b) = ranges[0];
        if a == p {
            lemma_span_bounds(lex, a, b);
            assert(crate::text::is_boundary(lex, b));
            lemma_nested_text(lex, syn, ranges.drop_first(), b);
            lemma_span_to_end(lex, b);
            lemma_span_concat(lex, p, b, n);
            let pieces = nested_pieces(lex, syn, ranges, p);
            assert(pieces.drop_first() == nested_pieces(lex, syn, ranges.drop_first(), b));
        } else {
            lemma_span_bounds(lex, p, a);
            assert(crate::text::is_boundary(lex, a));
            lemma_nested_text(lex, syn, ranges, a);
            lemma_span_to_end(lex, a);
            lemma_span_concat(lex, p, a, n);
            let pieces = nested_pieces(lex, syn, ranges, p);
            assert(pieces.drop_first() == nested_pieces(lex, syn, ranges, a));
        }
    }
}

/// The text a scanning result stands for: a token's lexeme, or the text an error spans
pub open spec fn item_text(item: TokenResult) -> Seq<char> {
    match item {
        Ok((t, _)) => t.src@,
        Err(e) => error_span(&e)->0,
    }
}

/// The texts of scanning results, in order
pub open spec fn items_text(items: Seq<TokenResult>) -> Seq<char>
    decreases items.len(),
{
    if items.len() == 0 {
        Seq::empty()
    } else {
        items_text(items.drop_last()) + item_text(items.last())
    }
}

/// The first byte offset of any text is a char boundary, at char 0.
proof fn lemma_start_boundary(s: Seq<char>)
    ensures
        byte_offset(s, 0) == 0,
        crate::text::is_boundary(s, 0),
        crate::text::char_index(s, 0) == 0,
{
    assert(s.take(0) =~= Seq::<char>::empty());
    assert(vstd::utf8::encode_utf8(Seq::<char>::empty()) =~= Seq::<u8>::empty());
    crate::text::lemma_char_index(s, 0);
}

/// The highlighted pieces of a scanning result make up its text.
pub proof fn lemma_item_pieces_text(item: TokenResult)
    requires
        item_ok(item),
    ensures
        pieces_text(item_pieces(item)) == item_text(item),
{
    match item {
        Ok((t, v)) => {
            let lex = t.src@;
            let syn = token_syntax(t.ty, lex);
            match escape_ranges(lex, v@) {
                Some(r) => {
                    lemma_start_boundary(lex);
                    lemma_nested_text(lex, syn, r, 0);
                    assert(lex.skip(0) =~= lex);
                },
                None => {
                    let pieces = item_pieces(item);
                    assert(pieces_text(pieces.drop_first()) == Seq::<char>::empty());
                    assert(pieces_text(pieces) =~= lex);
                },
            }
        },
        Err(e) => {
            let pieces = item_pieces(item);
            assert(pieces_text(pieces.drop_first()) == Seq::<char>::empty());
            assert(pieces_text(pieces) =~= error_span(&e)->0);
        },
    }
}

/// The pieces [`highlight`] cuts make up the texts of the scanning results, in order.
pub proof fn lemma_highlight_text(items: Seq<TokenResult>)
    requires
        forall|i: int| 0 <= i < items.len() ==> item_ok(#[trigger] items[i]),
    ensures
        pieces_text(highlight_spec(items)) == items_text(items),
    decreases items.len(),
{
    if items.len() > 0 {
        let init = items.drop_last();
        assert forall|i: int| 0 <= i < init.len() implies item_ok(#[trigger] init[i]) by {
            assert(init[i] == items[i]);
        }
        lemma_highlight_text(init);
        lemma_item_pieces_text(items.last());
        lemma_pieces_text_concat(highlight_spec(init), item_pieces(items.last()));
    }
}

/// Each scanning result of `source` stands for the text of its span.
proof fn lemma_result_text(source: &str, item: TokenResult, it: LexItem, start: int, end: int)
    requires
        result_is(item, it, source, start, end),
        0 <= start <= end <= source@.len(),
    ensures
        item_text(item) == source@.subrange(start, end),
        item matches Err(e) ==> error_span(&e) is Some,
{
    if let Err(e) = item {
        let s = source@;
        crate::text::lemma_char_index(s, start);
        crate::text::lemma_char_index(s, end);
        crate::text::lemma_byte_offset_mono(s, start, end);
    }
}

/// The texts of the first `k` scanning results of `source` make up `source` up to the end of
/// the `k`th one.
#[verifier::spinoff_prover]
#[verifier::rlimit(40)]
proof fn lemma_prefix_text(s: Seq<char>, items: Seq<TokenResult>, k: int)
    requires
        items.len() == lex(s).len(),
        forall|i: int|
            0 <= i < items.len() ==> item_text(#[trigger] items[i]) == s.subrange(
                lex(s)[i].1,
                lex(s)[i].2,
            ),
        0 <= k <= items.len(),
    ensures
        items_text(items.take(k)) == s.take(if k == 0 {
            0
        } else {
            lex(s)[k - 1].2
        }),
    decreases k,
{
    let l = lex(s);
    lemma_lex_tiles(s);
    if k == 0 {
        assert(items.take(0) =~= Seq::<TokenResult>::empty());
        assert(s.take(0) =~= Seq::<char>::empty());
    } else {
        lemma_prefix_text(s, items, k - 1);
        assert(items.take(k).drop_last() =~= items.take(k - 1));
        assert(items.take(k).last() == items[k - 1]);
        let it = l[k - 1];
        assert(0 <= it.1 < it.2 <= s.len());
        assert(item_text(items[k - 1]) == s.subrange(it.1, it.2));
        if k > 1 {
            assert(l[k - 2].2 == l[k - 1].1);
        }
        assert(s.take(it.1) + s.subrange(it.1, it.2) =~= s.take(it.2));
    }
}

/// The texts of the scanning results of `source`, as [`crate::scanner::tokenize`] gives them,
/// make up the whole source code, and each error spans a valid range of it.
pub proof fn lemma_scanned_text(source: &str, items: Seq<TokenResult>)
    requires
        items.len() == lex(source@).len(),
        forall|i: int|
            0 <= i < items.len() ==> result_is(
                #[trigger] items[i],
                lex(source@)[i].0,
                source,
                lex(source@)[i].1,
                lex(source@)[i].2,
            ),
    ensures
        items_text(items) == source@,
        forall|i: int| 0 <= i < items.len() ==> (#[trigger] items[i] matches Err(e) ==> error_span(&e) is Some),
{
    let s = source@;
    let l = lex(s);
    lemma_lex_tiles(s);
    assert forall|i: int| 0 <= i < items.len() implies item_text(#[trigger] items[i]) == s.subrange(
        l[i].1,
        l[i].2,
    ) && (items[i] matches Err(e) ==> error_span(&e) is Some) by {
        lemma_result_text(source, items[i], l[i].0, l[i].1, l[i].2);
    }
    lemma_prefix_text(s, items, items.len() as int);
    assert(items.take(items.len() as int) =~= items);
    assert(s.take(s.len() as int) =~= s);
    if items.len() == 0 {
        assert(s.take(0) =~= s);
    }
}

/// `r` lists byte ranges of `c` at char boundaries, in order, from char index `k` on: each
/// starts no earlier than the end of the one before it and is not empty.
pub open spec fn ranges_from(c: Seq<char>, r: Seq<(int, int)>, k: int) -> bool
    decreases r.len(),
{
    r.len() == 0 || exists|a: int, b: int|
        #![trigger byte_offset(c, a), byte_offset(c, b)]
        k <= a < b <= c.len() && r[0] == (byte_offset(c, a) as int, byte_offset(c, b) as int)
            && ranges_from(c, r.drop_first(), b)
}

/// The escape sequences that converting `c` from char index `k` finds are byte ranges of `c`,
/// in order, from `k` on.
pub proof fn lemma_convert_ranges(c: Seq<char>, k: int)
    requires
        0 <= k,
    ensures
        convert_escapes(c, k) matches Ok((_, r)) ==> ranges_from(c, r, k),
    decreases c.len() - k,
{
    reveal(convert_escapes);
    if k < c.len() {
        if c[k] == '\\' {
            let e = c.skip(k);
            let (len, v) = escape_spec(e);
            if v is Some {
                let span = escape_span(e);
                lemma_escape_bytes(e);
                lemma_convert_ranges(c, k + span);
                if let Ok((t, r2)) = convert_escapes(c, k + span) {
                    let r = seq![(byte_offset(c, k) as int, (byte_offset(c, k) + len) as int)] + r2;
                    assert(e.take(span as int) =~= c.subrange(k, k + span));
                    lemma_utf8_len_subrange(c, k, k + span);
                    assert(r[0] == (byte_offset(c, k) as int, byte_offset(c, k + span) as int));
                    assert(r.drop_first() =~= r2);
                    assert(ranges_from(c, r, k));
                }
            }
        } else {
            lemma_convert_ranges(c, k + 1);
            if let Ok((t, r)) = convert_escapes(c, k + 1) {
                if r.len() > 0 {
                    let (a, b) = choose|a: int, b: int|
                        #![trigger byte_offset(c, a), byte_offset(c, b)]
                        k + 1 <= a < b <= c.len() && r[0] == (
                            byte_offset(c, a) as int,
                            byte_offset(c, b) as int,
                        ) && ranges_from(c, r.drop_first(), b);
                    assert(k <= a < b <= c.len());
                }
            }
        }
    }
}

/// Byte offsets in `"` + `c` + `"` are one past those in `c`.
proof fn lemma_quoted_offset(c: Seq<char>, m: int)
    requires
        0 <= m <= c.len(),
    ensures
        byte_offset(seq!['"'] + c + seq!['"'], m + 1) == byte_offset(c, m) + 1,
{
    let lex = seq!['"'] + c + seq!['"'];
    assert(lex.take(m + 1) =~= seq!['"'] + c.take(m));
    lemma_utf8_len_concat(seq!['"'], c.take(m));
    lemma_utf8_len_single('"');
    lemma_char_width_bounds('"');
}

/// The escape ranges of a string literal's content, shifted past the opening `"`, cut the
/// lexeme validly from any char index `q` up to their start.
proof fn lemma_shift_ok(c: Seq<char>, r: Seq<(int, int)>, k: int, q: int)
    requires
        ranges_from(c, r, k),
        0 <= k,
        0 <= q <= k + 1,
        q <= c.len() + 2,
    ensures
        nested_ok(
            seq!['"'] + c + seq!['"'],
            r.map_values(|p: (int, int)| (p.0 + 1, p.1 + 1)),
            byte_offset(seq!['"'] + c + seq!['"'], q) as int,
        ),
    decreases r.len(), (if r.len() > 0 && r[0].0 + 1 == byte_offset(seq!['"'] + c + seq!['"'], q) {
        0int
    } else {
        1int
    }),
{
    let lex = seq!['"'] + c + seq!['"'];
    let shifted = r.map_values(|p: (int, int)| (p.0 + 1, p.1 + 1));
    let p = byte_offset(lex, q) as int;
    crate::text::lemma_char_index(lex, q);
    crate::text::lemma_char_index(lex, lex.len() as int);
    crate::text::lemma_byte_offset_mono(lex, q, lex.len() as int);
    assert(lex.take(lex.len() as int) =~= lex);
    if r.len() > 0 {
        let (a, b) = choose|a: int, b: int|
            #![trigger byte_offset(c, a), byte_offset(c, b)]
            k <= a < b <= c.len() && r[0] == (byte_offset(c, a) as int, byte_offset(c, b) as int)
                && ranges_from(c, r.drop_first(), b);
        lemma_quoted_offset(c, a);
        lemma_quoted_offset(c, b);
        assert(shifted[0] == (byte_offset(lex, a + 1) as int, byte_offset(lex, b + 1) as int));
        crate::text::lemma_char_index(lex, a + 1);
        crate::text::lemma_char_index(lex, b + 1);
        crate::text::lemma_byte_offset_mono(lex, a + 1, b + 1);
        crate::text::lemma_byte_offset_mono(lex, q, a + 1);
        if byte_offset(lex, a + 1) == p {
            crate::text::lemma_byte_offset_injective(lex, a + 1, q);
            lemma_shift_ok(c, r.drop_first(), b, b + 1);
            assert(shifted.drop_first() =~= r.drop_first().map_values(
                |p: (int, int)| (p.0 + 1, p.1 + 1),
            ));
        } else {
            assert(ranges_from(c, r, a));
            lemma_shift_ok(c, r, a, a + 1);
        }
    }
}

/// An escaped char literal `'...'` is cut validly into its delimiters and its content.
proof fn lemma_char_ok(lex: Seq<char>)
    requires
        lex.len() >= 2,
        lex[0] == '\'',
        lex.last() == '\'',
    ensures
        nested_ok(lex, seq![(1int, utf8_len(lex) - 1)], 0),
{
    let n = lex.len() as int;
    lemma_start_boundary(lex);
    crate::text::lemma_byte_offset_step(lex, 0);
    crate::text::lemma_byte_offset_step(lex, n - 1);
    lemma_char_width_bounds('\'');
    crate::text::lemma_char_index(lex, 1);
    crate::text::lemma_char_index(lex, n - 1);
    crate::text::lemma_char_index(lex, n);
    crate::text::lemma_byte_offset_mono(lex, 1, n - 1);
    assert(lex.take(n) =~= lex);
    let r = seq![(1int, utf8_len(lex) - 1)];
    assert(r.drop_first() =~= Seq::<(int, int)>::empty());
    assert(nested_ok(lex, r.drop_first(), utf8_len(lex) - 1));
    assert(nested_ok(lex, r, 1));
}

/// A scanned token can be highlighted.
proof fn lemma_token_ok(s: Seq<char>, item: TokenResult, it: LexItem, start: int, end: int)
    requires
        item is Ok,
        crate::scanner::delimited(s, it, start, end),
        match item {
            Ok((tok, val)) => it == LexItem::Token(tok.ty, val@) && tok.src@ == s.subrange(start, end),
            Err(_) => true,
        },
    ensures
        item_ok(item),
{
    if let Ok((tok, val)) = item {
        let lex = tok.src@;
        match val@ {
            ValueModel::CharLiteral(c) => {
                lemma_char_ok(lex);
            },
            ValueModel::StringLiteral(t, r) => {
                if r.len() > 0 {
                    let inner = lex.subrange(1, lex.len() - 1);
                    assert(lex =~= seq!['"'] + inner + seq!['"']);
                    lemma_convert_ranges(inner, 0);
                    lemma_shift_ok(inner, r, 0, 0);
                    lemma_start_boundary(lex);
                    assert(escape_ranges(lex, val@)->0 =~= r.map_values(
                        |p: (int, int)| (p.0 + 1, p.1 + 1),
                    ));
                }
            },
            _ => {},
        }
    }
}

/// Highlighting what the scanner makes of `source` (as [`crate::scanner::tokenize`] gives it)
/// can be done, and gives back the whole source code: the texts of the pieces, in order, make
/// up `source`.
pub proof fn lemma_highlight_scanned(source: &str, items: Seq<TokenResult>)
    requires
        items.len() == lex(source@).len(),
        forall|i: int|
            0 <= i < items.len() ==> result_is(
                #[trigger] items[i],
                lex(source@)[i].0,
                source,
                lex(source@)[i].1,
                lex(source@)[i].2,
            ),
    ensures
        forall|i: int| 0 <= i < items.len() ==> item_ok(#[trigger] items[i]),
        pieces_text(highlight_spec(items)) == source@,
{
    let s = source@;
    let l = lex(s);
    lemma_scanned_text(source, items);
    crate::scanner::lemma_lex_delimited(s);
    assert forall|i: int| 0 <= i < items.len() implies item_ok(#[trigger] items[i]) by {
        if items[i] is Ok {
            assert(crate::scanner::delimited(s, l[i].0, l[i].1, l[i].2));
            lemma_token_ok(s, items[i], l[i].0, l[i].1, l[i].2);
        }
    }
    lemma_highlight_text(items);
}

/// Scans `source` and cuts it into highlighted pieces ([`highlight`] of
/// [`crate::scanner::tokenize`]); the pieces, in order, make up `source`.
pub fn highlight_source<'a>(source: &'a str) -> (r: Vec<(&'a str, Syntax)>)
    ensures
        pieces_text(pieces_view(r@)) == source@,
        exists|items: Seq<TokenResult<'a>>|
            #![trigger highlight_spec(items)]
            items.len() == lex(source@).len() && (forall|i: int|
                0 <= i < items.len() ==> result_is(
                    #[trigger] items[i],
                    lex(source@)[i].0,
                    source,
                    lex(source@)[i].1,
                    lex(source@)[i].2,
                )) && pieces_view(r@) == highlight_spec(items),
{
    let tokens = crate::scanner::tokenize(source);
    proof {
        lemma_highlight_scanned(source, tokens@);
    }
    let r = highlight(tokens.as_slice());
    assert(pieces_view(r@) == highlight_spec(tokens@));
    r
}


/// A token that is not an escaped char literal and holds no escaped string is highlighted as a
/// single piece, its lexeme in the category of its type: a comment `// note` is the one piece
/// (`// note`, [`Syntax::Comment`]).
pub proof fn lemma_plain_token_piece<'a>(t: Token<'a>, v: TokenValue<'a>)
    requires
        !(v@ matches ValueModel::CharLiteral(c) && c.is_escaped),
        !(v@ matches ValueModel::StringLiteral(_, r) && r.len() > 0),
    ensures
        item_pieces(Ok((t, v))) == seq![(t.src@, token_syntax(t.ty, t.src@))],
        t.ty == TokenType::Comment ==> item_pieces(Ok((t, v))) == seq![(t.src@, Syntax::Comment)],
{
    crate::syntax::lemma_token_categories(t.src@, 0);
}

} // verus!
