//! Character classes and UTF-8 byte arithmetic shared by the scanner and the error renderer.
//!
//! Source code is modelled as its sequence of `char`s; byte offsets (the unit of every
//! range this crate reports) are the lengths of the UTF-8 encodings of char prefixes.
use vstd::prelude::*;
use vstd::utf8::*;

verus! {

broadcast use vstd::seq::group_seq_axioms;

/// Number of bytes in the UTF-8 encoding of `c`.
pub open spec fn char_width(c: char) -> nat {
    encode_scalar(c as u32).len()
}

/// Number of bytes in the UTF-8 encoding of `s`.
pub open spec fn utf8_len(s: Seq<char>) -> nat {
    encode_utf8(s).len()
}

/// Byte offset of the char at index `i` of `s`.
pub open spec fn byte_offset(s: Seq<char>, i: int) -> nat {
    utf8_len(s.take(i))
}

/// Every char takes between one and four bytes.
pub proof fn lemma_char_width_bounds(c: char)
    ensures
        1 <= char_width(c) <= 4,
        (c as u32) < 0x80 <==> char_width(c) == 1,
{
    char_is_scalar(c);
}

/// Encoding distributes over concatenation.
pub proof fn lemma_encode_concat(a: Seq<char>, b: Seq<char>)
    ensures
        encode_utf8(a + b) == encode_utf8(a) + encode_utf8(b),
    decreases a.len(),
{
    if a.len() == 0 {
        assert(a + b =~= b);
        assert(encode_utf8(a) =~= Seq::<u8>::empty());
        assert(encode_utf8(a) + encode_utf8(b) =~= encode_utf8(b));
    } else {
        assert((a + b).drop_first() =~= a.drop_first() + b);
        assert((a + b)[0] == a[0]);
        lemma_encode_concat(a.drop_first(), b);
        assert(encode_utf8(a + b) =~= encode_scalar(a[0] as u32) + encode_utf8(a.drop_first() + b));
        assert(encode_utf8(a) =~= encode_scalar(a[0] as u32) + encode_utf8(a.drop_first()));
        assert(encode_utf8(a + b) =~= encode_utf8(a) + encode_utf8(b));
    }
}

/// Byte length of a concatenation.
pub proof fn lemma_utf8_len_concat(a: Seq<char>, b: Seq<char>)
    ensures
        utf8_len(a + b) == utf8_len(a) + utf8_len(b),
{
    lemma_encode_concat(a, b);
}

/// Byte length of a single char.
pub proof fn lemma_utf8_len_single(c: char)
    ensures
        utf8_len(seq![c]) == char_width(c),
{
    assert(seq![c].drop_first() =~= Seq::<char>::empty());
    assert(encode_utf8(seq![c]) =~= encode_scalar(c as u32) + encode_utf8(Seq::<char>::empty()));
}

/// The byte offset grows by the width of each char passed.
pub proof fn lemma_byte_offset_step(s: Seq<char>, i: int)
    requires
        0 <= i < s.len(),
    ensures
        byte_offset(s, i + 1) == byte_offset(s, i) + char_width(s[i]),
{
    assert(s.take(i + 1) =~= s.take(i) + seq![s[i]]);
    lemma_utf8_len_concat(s.take(i), seq![s[i]]);
    lemma_utf8_len_single(s[i]);
}

/// Byte offsets are strictly increasing in the char index.
pub proof fn lemma_byte_offset_mono(s: Seq<char>, i: int, j: int)
    requires
        0 <= i <= j <= s.len(),
    ensures
        byte_offset(s, i) + (j - i) <= byte_offset(s, j),
        byte_offset(s, j) <= byte_offset(s, i) + 4 * (j - i),
        byte_offset(s, j) <= utf8_len(s),
    decreases j - i,
{
    if i < j {
        lemma_byte_offset_mono(s, i, j - 1);
        lemma_byte_offset_step(s, j - 1);
        lemma_char_width_bounds(s[j - 1]);
    }
    if j == s.len() {
        assert(s.take(j) =~= s);
    } else {
        assert(s =~= s.take(j) + s.skip(j));
        lemma_utf8_len_concat(s.take(j), s.skip(j));
    }
}

/// The byte length of a subrange is the difference of the offsets of its ends.
pub proof fn lemma_utf8_len_subrange(s: Seq<char>, i: int, j: int)
    requires
        0 <= i <= j <= s.len(),
    ensures
        utf8_len(s.subrange(i, j)) == byte_offset(s, j) - byte_offset(s, i),
{
    assert(s.take(j) =~= s.take(i) + s.subrange(i, j));
    lemma_utf8_len_concat(s.take(i), s.subrange(i, j));
}

/// Distinct char indices have distinct byte offsets.
pub proof fn lemma_byte_offset_injective(s: Seq<char>, i: int, j: int)
    requires
        0 <= i <= s.len(),
        0 <= j <= s.len(),
        byte_offset(s, i) == byte_offset(s, j),
    ensures
        i == j,
{
    if i < j {
        lemma_byte_offset_mono(s, i, j);
    } else if j < i {
        lemma_byte_offset_mono(s, j, i);
    }
}

/// The number of bytes `c` takes in UTF-8 (`char::len_utf8`).
pub fn len_utf8(c: char) -> (n: usize)
    ensures
        n == char_width(c),
        1 <= n <= 4,
{
    proof {
        char_is_scalar(c);
    }
    let v = c as u32;
    if v <= 0x7F {
        1
    } else if v <= 0x7FF {
        2
    } else if v <= 0xFFFF {
        3
    } else {
        4
    }
}

/// Whether `c` is ASCII punctuation (`char::is_ascii_punctuation`): the four ranges
/// `!`..=`/`, `:`..=`@`, `[`..=`` ` `` and `{`..=`~`.
pub open spec fn is_ascii_punctuation(c: char) -> bool {
    ||| '!' <= c <= '/'
    ||| ':' <= c <= '@'
    ||| '[' <= c <= '`'
    ||| '{' <= c <= '~'
}

/// Executable [`is_ascii_punctuation`].
pub fn ascii_punctuation(c: char) -> (r: bool)
    ensures
        r == is_ascii_punctuation(c),
{
    ('!' <= c && c <= '/') || (':' <= c && c <= '@') || ('[' <= c && c <= '`') || ('{' <= c
        && c <= '~')
}

/// Whether `c` is an ASCII decimal digit.
pub open spec fn is_ascii_digit(c: char) -> bool {
    '0' <= c <= '9'
}

/// Whether every char of `s` is ASCII.
pub open spec fn all_ascii(s: Seq<char>) -> bool {
    forall|i: int| 0 <= i < s.len() ==> (#[trigger] s[i] as u32) < 0x80
}

/// The value of `c` as a digit in `radix` (`char::to_digit`), for `radix <= 36`.
pub open spec fn digit_value(c: char, radix: nat) -> Option<nat> {
    let d: int = if '0' <= c <= '9' {
        c as int - '0' as int
    } else if 'a' <= c <= 'z' {
        c as int - 'a' as int + 10
    } else if 'A' <= c <= 'Z' {
        c as int - 'A' as int + 10
    } else {
        36
    };
    if d < radix {
        Some(d as nat)
    } else {
        None
    }
}

/// Executable [`digit_value`].
pub fn to_digit(c: char, radix: u32) -> (r: Option<u32>)
    requires
        2 <= radix <= 36,
    ensures
        r matches Some(d) ==> digit_value(c, radix as nat) == Some(d as nat),
        r is None ==> digit_value(c, radix as nat) is None,
{
    let d: u32 = if '0' <= c && c <= '9' {
        (c as u32) - ('0' as u32)
    } else if 'a' <= c && c <= 'z' {
        (c as u32) - ('a' as u32) + 10
    } else if 'A' <= c && c <= 'Z' {
        (c as u32) - ('A' as u32) + 10
    } else {
        36
    };
    if d < radix {
        Some(d)
    } else {
        None
    }
}

/// Whether `c` has the Unicode `White_Space` property. Named for `char::is_whitespace`.
pub uninterp spec fn is_whitespace(c: char) -> bool;

/// Whether `c` has the Unicode `Alphabetic` property. Named for `char::is_alphabetic`.
pub uninterp spec fn is_alphabetic(c: char) -> bool;

/// Whether `c` is in one of the Unicode number categories `Nd`, `Nl` or `No`. Named for
/// `char::is_numeric`.
pub uninterp spec fn is_numeric(c: char) -> bool;

/// Whether `c` has the Unicode `Uppercase` property. Named for `char::is_uppercase`.
pub uninterp spec fn is_uppercase(c: char) -> bool;

/// Whether `c` has the Unicode `Lowercase` property. Named for `char::is_lowercase`.
pub uninterp spec fn is_lowercase(c: char) -> bool;

/// Whether `c` is alphanumeric; `char::is_alphanumeric` is documented as
/// `is_alphabetic() || is_numeric()`.
pub open spec fn is_alphanumeric(c: char) -> bool {
    is_alphabetic(c) || is_numeric(c)
}

/// Calls `char::is_whitespace`; claims that the answer is [`is_whitespace`] of `c`, and, for
/// an ASCII char, that it is whitespace exactly when it is `' '` or one of `'\t'` to `'\r'` (the
/// ASCII chars with the `White_Space` property).
#[verifier::external_body]
pub(crate) fn char_is_whitespace(c: char) -> (r: bool)
    ensures
        r == is_whitespace(c),
        (c as u32) < 0x80 ==> (r <==> (c == ' ' || ('\t' <= c <= '\r'))),
{
    c.is_whitespace()
}

/// Calls `char::is_alphabetic`; claims that the answer is [`is_alphabetic`] of `c`, and, for an
/// ASCII char, that it is alphabetic exactly when it is a letter.
#[verifier::external_body]
pub(crate) fn char_is_alphabetic(c: char) -> (r: bool)
    ensures
        r == is_alphabetic(c),
        (c as u32) < 0x80 ==> (r <==> (('a' <= c <= 'z') || ('A' <= c <= 'Z'))),
{
    c.is_alphabetic()
}

/// Calls `char::is_numeric`; claims that the answer is [`is_numeric`] of `c`, and, for an ASCII
/// char, that it is numeric exactly when it is a digit `'0'` to `'9'`.
#[verifier::external_body]
pub(crate) fn char_is_numeric(c: char) -> (r: bool)
    ensures
        r == is_numeric(c),
        (c as u32) < 0x80 ==> (r <==> ('0' <= c <= '9')),
{
    c.is_numeric()
}

/// Calls `char::is_alphanumeric`; claims what its documentation says: it is
/// `is_alphabetic() || is_numeric()`, so for an ASCII char a letter or a digit.
#[verifier::external_body]
pub(crate) fn char_is_alphanumeric(c: char) -> (r: bool)
    ensures
        r == is_alphanumeric(c),
        (c as u32) < 0x80 ==> (r <==> (('a' <= c <= 'z') || ('A' <= c <= 'Z') || ('0' <= c <= '9'))),
{
    c.is_alphanumeric()
}

/// Calls `char::is_uppercase`; claims that the answer is [`is_uppercase`] of `c`, and, for an
/// ASCII char, that it is uppercase exactly when it is `'A'` to `'Z'`.
#[verifier::external_body]
pub(crate) fn char_is_uppercase(c: char) -> (r: bool)
    ensures
        r == is_uppercase(c),
        (c as u32) < 0x80 ==> (r <==> ('A' <= c <= 'Z')),
{
    c.is_uppercase()
}

/// Calls `char::is_lowercase`; claims that the answer is [`is_lowercase`] of `c`, and, for an
/// ASCII char, that it is lowercase exactly when it is `'a'` to `'z'`.
#[verifier::external_body]
pub(crate) fn char_is_lowercase(c: char) -> (r: bool)
    ensures
        r == is_lowercase(c),
        (c as u32) < 0x80 ==> (r <==> ('a' <= c <= 'z')),
{
    c.is_lowercase()
}

/// Calls `String::push`; claims that `c` is appended to the chars of `s`.
#[verifier::external_body]
pub(crate) fn push_char(s: &mut String, c: char)
    ensures
        final(s)@ == old(s)@.push(c),
{
    s.push(c)
}

/// Copies the chars of `s` into a vector.
pub fn chars_of(s: &str) -> (v: Vec<char>)
    ensures
        v@ == s@,
{
    let n = s.unicode_len();
    let mut v: Vec<char> = Vec::new();
    let mut i: usize = 0;
    while i < n
        invariant
            n == s@.len(),
            i <= n,
            v@ == s@.take(i as int),
        decreases n - i,
    {
        v.push(s.get_char(i));
        i = i + 1;
        assert(v@ =~= s@.take(i as int));
    }
    assert(s@.take(n as int) =~= s@);
    v
}

/// Calls `String::push_str`; claims that the chars of `t` are appended to those of `s`.
#[verifier::external_body]
pub(crate) fn push_str(s: &mut String, t: &str)
    ensures
        final(s)@ == old(s)@ + t@,
{
    s.push_str(t)
}

/// Whether byte offset `b` falls on a char boundary of `s` (its end included)
pub open spec fn is_boundary(s: Seq<char>, b: int) -> bool {
    exists|i: int| 0 <= i <= s.len() && byte_offset(s, i) == b
}

/// The char index whose byte offset in `s` is `b` (meaningful where [`is_boundary`] holds)
pub open spec fn char_index(s: Seq<char>, b: int) -> int {
    choose|i: int| 0 <= i <= s.len() && byte_offset(s, i) == b
}

/// The text of `s` between the byte offsets `start` and `end` (`str::get`), if both fall on char
/// boundaries and are in order
pub open spec fn span_text(s: Seq<char>, start: int, end: int) -> Option<Seq<char>> {
    if is_boundary(s, start) && is_boundary(s, end) && start <= end {
        Some(s.subrange(char_index(s, start), char_index(s, end)))
    } else {
        None
    }
}

/// The char index at byte offset `b` is the one that [`char_index`] names.
pub proof fn lemma_char_index(s: Seq<char>, i: int)
    requires
        0 <= i <= s.len(),
    ensures
        is_boundary(s, byte_offset(s, i) as int),
        char_index(s, byte_offset(s, i) as int) == i,
{
    let b = byte_offset(s, i) as int;
    assert(0 <= i <= s.len() && byte_offset(s, i) == b);
    let j = char_index(s, b);
    lemma_byte_offset_injective(s, i, j);
}

/// Span text is ordered by char index as it is by byte offset.
pub proof fn lemma_char_index_order(s: Seq<char>, a: int, b: int)
    requires
        is_boundary(s, a),
        is_boundary(s, b),
        a <= b,
    ensures
        0 <= char_index(s, a) <= char_index(s, b) <= s.len(),
{
    let i = char_index(s, a);
    let j = char_index(s, b);
    if j < i {
        lemma_byte_offset_mono(s, j, i);
    }
}

/// The char index at byte offset `b` of `s`, if `b` falls on a char boundary
pub fn char_index_of(s: &[char], b: usize) -> (r: Option<usize>)
    requires
        utf8_len(s@) <= usize::MAX,
    ensures
        match r {
            Some(i) => is_boundary(s@, b as int) && i == char_index(s@, b as int) && i <= s@.len(),
            None => !is_boundary(s@, b as int),
        },
{
    let mut i: usize = 0;
    let mut acc: usize = 0;
    while i < s.len() && acc < b
        invariant
            i <= s@.len(),
            acc == byte_offset(s@, i as int),
            utf8_len(s@) <= usize::MAX,
            forall|j: int| 0 <= j < i ==> byte_offset(s@, j) < b,
        decreases s@.len() - i,
    {
        proof {
            lemma_byte_offset_step(s@, i as int);
            lemma_byte_offset_mono(s@, i + 1, s@.len() as int);
            assert(s@.take(s@.len() as int) =~= s@);
        }
        acc = acc + len_utf8(s[i]);
        i = i + 1;
    }
    if acc == b {
        proof {
            lemma_char_index(s@, i as int);
        }
        Some(i)
    } else {
        proof {
            assert forall|j: int| 0 <= j <= s@.len() implies byte_offset(s@, j) != b by {
                if j >= i {
                    lemma_byte_offset_mono(s@, i as int, j);
                }
            }
        }
        None
    }
}

/// The byte length of a subrange is at most that of the whole.
pub proof fn lemma_utf8_len_sub(s: Seq<char>, i: int, j: int)
    requires
        0 <= i <= j <= s.len(),
    ensures
        utf8_len(s.subrange(i, j)) <= utf8_len(s),
{
    lemma_utf8_len_subrange(s, i, j);
    lemma_byte_offset_mono(s, j, s.len() as int);
    lemma_byte_offset_mono(s, i, j);
    assert(s.take(s.len() as int) =~= s);
}

} // verus!
