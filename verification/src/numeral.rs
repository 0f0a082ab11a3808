//! Reading and writing numerals: unsigned integers in a radix, the float literal syntax, and
//! decimal text for numbers shown in messages.
use crate::text::{ascii_punctuation, digit_value, is_ascii_digit, push_char, to_digit};
use vstd::prelude::*;

verus! {

broadcast use vstd::seq::group_seq_axioms;

/// Why an integer numeral could not be read (the kinds of `std::num::IntErrorKind` that
/// reading an unsigned integer can give).
#[derive(Debug, Clone, Copy, PartialEq, Eq, Hash)]
pub enum IntErrorKind {
    /// The text is empty
    Empty,
    /// The text holds a char that is not a digit of the radix
    InvalidDigit,
    /// The value is too large for the target type
    PosOverflow,
    /// The value is too small for the target type
    NegOverflow,
}

/// Reads the digits of `s` in `radix` from the left; the first problem found wins.
pub open spec fn fold_digits(s: Seq<char>, radix: nat, max: nat) -> Result<nat, IntErrorKind>
    decreases s.len(),
{
    if s.len() == 0 {
        Ok(0)
    } else {
        match fold_digits(s.drop_last(), radix, max) {
            Err(e) => Err(e),
            Ok(acc) => match digit_value(s.last(), radix) {
                None => Err(IntErrorKind::InvalidDigit),
                Some(d) => if acc * radix + d > max {
                    Err(IntErrorKind::PosOverflow)
                } else {
                    Ok(acc * radix + d)
                },
            },
        }
    }
}

/// The value of `s` read as an unsigned integer in `radix` no larger than `max`, with the
/// rules of `from_str_radix` for unsigned types: an optional leading `+`, then digits only.
pub open spec fn parse_uint_spec(s: Seq<char>, radix: nat, max: nat) -> Result<nat, IntErrorKind> {
    if s.len() == 0 {
        Err(IntErrorKind::Empty)
    } else if s.len() == 1 && (s[0] == '+' || s[0] == '-') {
        Err(IntErrorKind::InvalidDigit)
    } else if s[0] == '+' {
        fold_digits(s.drop_first(), radix, max)
    } else {
        fold_digits(s, radix, max)
    }
}

proof fn lemma_fold_digits_bound(s: Seq<char>, radix: nat, max: nat)
    ensures
        fold_digits(s, radix, max) matches Ok(v) ==> v <= max,
    decreases s.len(),
{
    if s.len() > 0 {
        lemma_fold_digits_bound(s.drop_last(), radix, max);
    }
}

/// Reads `s[start..end]` as an unsigned integer in `radix` that is at most `max`.
pub fn parse_uint(s: &[char], start: usize, end: usize, radix: u32, max: usize) -> (r: Result<
    usize,
    IntErrorKind,
>)
    requires
        start <= end <= s@.len(),
        2 <= radix <= 36,
    ensures
        match parse_uint_spec(s@.subrange(start as int, end as int), radix as nat, max as nat) {
            Ok(v) => r == Ok::<usize, IntErrorKind>(v as usize),
            Err(e) => r == Err::<usize, IntErrorKind>(e),
        },
{
    let ghost t = s@.subrange(start as int, end as int);
    if start == end {
        return Err(IntErrorKind::Empty);
    }
    if end - start == 1 && (s[start] == '+' || s[start] == '-') {
        return Err(IntErrorKind::InvalidDigit);
    }
    let first = if s[start] == '+' {
        start + 1
    } else {
        start
    };
    let ghost digits = s@.subrange(first as int, end as int);
    assert(s[start as int] == '+' ==> digits =~= t.drop_first());
    assert(s[start as int] != '+' ==> digits =~= t);
    assert(parse_uint_spec(t, radix as nat, max as nat) == fold_digits(
        digits,
        radix as nat,
        max as nat,
    ));
    let mut acc: usize = 0;
    let mut i = first;
    while i < end
        invariant
            start <= first <= i <= end <= s@.len(),
            digits == s@.subrange(first as int, end as int),
            parse_uint_spec(s@.subrange(start as int, end as int), radix as nat, max as nat)
                == fold_digits(digits, radix as nat, max as nat),
            fold_digits(s@.subrange(first as int, i as int), radix as nat, max as nat) == Ok::<
                nat,
                IntErrorKind,
            >(acc as nat),
            2 <= radix <= 36,
        decreases end - i,
    {
        let ghost pre = s@.subrange(first as int, i as int);
        let ghost next = s@.subrange(first as int, i + 1);
        assert(next.drop_last() =~= pre);
        assert(next.last() == s@[i as int]);
        match to_digit(s[i], radix) {
            None => {
                proof {
                    assert(digits.take((i + 1 - first) as int) =~= next);
                    lemma_fold_prefix_err(digits, (i + 1 - first) as int, radix as nat, max as nat);
                }
                return Err(IntErrorKind::InvalidDigit);
            },
            Some(d) => {
                assert((acc as u128) * (radix as u128) <= 0xffff_ffff_ffff_ffffu128 * 36) by (nonlinear_arith)
                    requires
                        acc <= 0xffff_ffff_ffff_ffffu128,
                        radix <= 36,
                ;
                let wide: u128 = (acc as u128) * (radix as u128) + (d as u128);
                if wide > max as u128 {
                    proof {
                        assert(digits.take((i + 1 - first) as int) =~= next);
                        lemma_fold_prefix_err(
                            digits,
                            (i + 1 - first) as int,
                            radix as nat,
                            max as nat,
                        );
                    }
                    return Err(IntErrorKind::PosOverflow);
                }
                acc = wide as usize;
            },
        }
        i = i + 1;
    }
    assert(s@.subrange(first as int, end as int) =~= digits);
    Ok(acc)
}

/// An error in a prefix is the error of the whole text.
proof fn lemma_fold_prefix_err(s: Seq<char>, k: int, radix: nat, max: nat)
    requires
        0 <= k <= s.len(),
        fold_digits(s.take(k), radix, max) is Err,
    ensures
        fold_digits(s, radix, max) == fold_digits(s.take(k), radix, max),
    decreases s.len(),
{
    if k == s.len() {
        assert(s.take(k) =~= s);
    } else {
        assert(s.drop_last().take(k) =~= s.take(k));
        lemma_fold_prefix_err(s.drop_last(), k, radix, max);
    }
}

/// Whether `c` is `+` or `-`.
pub open spec fn is_sign(c: char) -> bool {
    c == '+' || c == '-'
}

/// `s` without one leading sign.
pub open spec fn strip_sign(s: Seq<char>) -> Seq<char> {
    if s.len() > 0 && is_sign(s[0]) {
        s.drop_first()
    } else {
        s
    }
}

/// ASCII lowercase of `c`.
pub open spec fn ascii_lower(c: char) -> char {
    if 'A' <= c <= 'Z' {
        ((c as u32) + 32) as char
    } else {
        c
    }
}

/// Whether `s` spells `word` (given in lowercase) ignoring ASCII case.
pub open spec fn spells(s: Seq<char>, word: Seq<char>) -> bool {
    s.len() == word.len() && forall|i: int| 0 <= i < s.len() ==> ascii_lower(#[trigger] s[i]) == word[i]
}

/// Index of the first `e`/`E` in `s`, or its length.
pub open spec fn exponent_mark(s: Seq<char>) -> nat
    decreases s.len(),
{
    if s.len() == 0 {
        0
    } else if s[0] == 'e' || s[0] == 'E' {
        0
    } else {
        1 + exponent_mark(s.drop_first())
    }
}

/// Digits with at most one `.` and at least one digit.
pub open spec fn is_mantissa(m: Seq<char>) -> bool {
    &&& forall|i: int| 0 <= i < m.len() ==> is_ascii_digit(#[trigger] m[i]) || m[i] == '.'
    &&& forall|i: int, j: int| 0 <= i < m.len() && 0 <= j < m.len() && m[i] == '.' && m[j] == '.' ==> i == j
    &&& exists|i: int| 0 <= i < m.len() && is_ascii_digit(#[trigger] m[i])
}

/// An optional sign, then one or more digits.
pub open spec fn is_exponent(x: Seq<char>) -> bool {
    let y = strip_sign(x);
    y.len() > 0 && forall|i: int| 0 <= i < y.len() ==> is_ascii_digit(#[trigger] y[i])
}

/// The float literal syntax (the grammar that `f64`'s `FromStr` documents):
/// `Sign? ('inf' | 'infinity' | 'nan' | Number)`, where
/// `Number ::= (Digit+ | Digit+ '.' Digit* | Digit* '.' Digit+) ('e' Sign? Digit+)?`,
/// letters in any ASCII case.
pub open spec fn is_float_text(s: Seq<char>) -> bool {
    let t = strip_sign(s);
    let k = exponent_mark(t);
    ||| spells(t, seq!['i', 'n', 'f'])
    ||| spells(t, seq!['i', 'n', 'f', 'i', 'n', 'i', 't', 'y'])
    ||| spells(t, seq!['n', 'a', 'n'])
    ||| is_mantissa(t.take(k as int)) && (k == t.len() || is_exponent(t.skip(k + 1 as int)))
}

proof fn lemma_exponent_mark(s: Seq<char>)
    ensures
        exponent_mark(s) <= s.len(),
        forall|i: int| 0 <= i < exponent_mark(s) ==> s[i] != 'e' && s[i] != 'E',
        exponent_mark(s) < s.len() ==> s[exponent_mark(s) as int] == 'e' || s[exponent_mark(
            s,
        ) as int] == 'E',
    decreases s.len(),
{
    if s.len() > 0 && !(s[0] == 'e' || s[0] == 'E') {
        lemma_exponent_mark(s.drop_first());
        assert forall|i: int| 0 <= i < exponent_mark(s) implies s[i] != 'e' && s[i] != 'E' by {
            if i > 0 {
                assert(s[i] == s.drop_first()[i - 1]);
            }
        }
    }
}

fn spells_exec(s: &[char], start: usize, end: usize, word: &[char]) -> (r: bool)
    requires
        start <= end <= s@.len(),
    ensures
        r == spells(s@.subrange(start as int, end as int), word@),
{
    let ghost t = s@.subrange(start as int, end as int);
    if end - start != word.len() {
        return false;
    }
    let mut i: usize = 0;
    while i < word.len()
        invariant
            start <= end <= s@.len(),
            end - start == word@.len(),
            t == s@.subrange(start as int, end as int),
            i <= word@.len(),
            forall|j: int| 0 <= j < i ==> ascii_lower(#[trigger] t[j]) == word@[j],
        decreases word@.len() - i,
    {
        let c = s[start + i];
        let lower = if 'A' <= c && c <= 'Z' {
            ((c as u8) + 32) as char
        } else {
            c
        };
        assert(t[i as int] == c);
        if lower != word[i] {
            return false;
        }
        i = i + 1;
    }
    true
}

/// Executable [`is_float_text`] of `s[start..end]`.
pub fn is_float_literal(s: &[char], start: usize, end: usize) -> (r: bool)
    requires
        start <= end <= s@.len(),
    ensures
        r == is_float_text(s@.subrange(start as int, end as int)),
{
    let ghost whole = s@.subrange(start as int, end as int);
    let first = if start < end && (s[start] == '+' || s[start] == '-') {
        start + 1
    } else {
        start
    };
    let ghost t = s@.subrange(first as int, end as int);
    assert(t =~= strip_sign(whole));
    if spells_exec(s, first, end, &['i', 'n', 'f']) || spells_exec(
        s,
        first,
        end,
        &['i', 'n', 'f', 'i', 'n', 'i', 't', 'y'],
    ) || spells_exec(s, first, end, &['n', 'a', 'n']) {
        return true;
    }
    // the mantissa runs up to the first exponent mark
    let mut k = first;
    while k < end && s[k] != 'e' && s[k] != 'E'
        invariant
            first <= k <= end <= s@.len(),
            forall|i: int| first <= i < k ==> s@[i] != 'e' && s@[i] != 'E',
        decreases end - k,
    {
        k = k + 1;
    }
    proof {
        lemma_exponent_mark(t);
        let km = exponent_mark(t) as int;
        if km < k - first {
            assert(t[km] == s@[first + km]);
        }
        if k < end && km > k - first {
            assert(t[k - first] == s@[k as int]);
        }
        assert(km == k - first);
        assert(t.take(km) =~= s@.subrange(first as int, k as int));
        if k < end {
            assert(t.skip(km + 1) =~= s@.subrange(k + 1, end as int));
        }
    }
    if !is_mantissa_exec(s, first, k) {
        return false;
    }
    if k == end {
        return true;
    }
    is_exponent_exec(s, k + 1, end)
}

fn is_mantissa_exec(s: &[char], start: usize, end: usize) -> (r: bool)
    requires
        start <= end <= s@.len(),
    ensures
        r == is_mantissa(s@.subrange(start as int, end as int)),
{
    let ghost m = s@.subrange(start as int, end as int);
    let mut i = start;
    let mut dot: Option<usize> = None;
    let mut has_digit = false;
    while i < end
        invariant
            start <= i <= end <= s@.len(),
            m == s@.subrange(start as int, end as int),
            forall|j: int| start <= j < i ==> is_ascii_digit(#[trigger] s@[j]) || s@[j] == '.',
            match dot {
                None => forall|j: int| start <= j < i ==> s@[j] != '.',
                Some(p) => start <= p < i && s@[p as int] == '.' && forall|j: int|
                    start <= j < i && s@[j] == '.' ==> j == p,
            },
            has_digit <==> exists|j: int| start <= j < i && is_ascii_digit(#[trigger] s@[j]),
        decreases end - i,
    {
        let c = s[i];
        if '0' <= c && c <= '9' {
            has_digit = true;
        } else if c == '.' {
            if let Some(p) = dot {
                assert(m[p - start] == '.' && m[i - start] == '.');
                return false;
            }
            dot = Some(i);
        } else {
            assert(m[i - start] == c);
            return false;
        }
        i = i + 1;
    }
    proof {
        assert forall|a: int| 0 <= a < m.len() implies is_ascii_digit(#[trigger] m[a]) || m[a] == '.' by {
            assert(m[a] == s@[start + a]);
        }
        assert forall|a: int, b: int| 0 <= a < m.len() && 0 <= b < m.len() && m[a] == '.' && m[b] == '.' implies a == b by {
            assert(m[a] == s@[start + a]);
            assert(m[b] == s@[start + b]);
        }
        if has_digit {
            let j = choose|j: int| start <= j < i && is_ascii_digit(#[trigger] s@[j]);
            assert(m[j - start] == s@[j]);
        } else {
            assert forall|a: int| 0 <= a < m.len() implies !is_ascii_digit(#[trigger] m[a]) by {
                assert(m[a] == s@[start + a]);
            }
        }
    }
    has_digit
}

fn is_exponent_exec(s: &[char], start: usize, end: usize) -> (r: bool)
    requires
        start <= end <= s@.len(),
    ensures
        r == is_exponent(s@.subrange(start as int, end as int)),
{
    let ghost x = s@.subrange(start as int, end as int);
    let first = if start < end && (s[start] == '+' || s[start] == '-') {
        start + 1
    } else {
        start
    };
    let ghost y = s@.subrange(first as int, end as int);
    assert(y =~= strip_sign(x));
    if first == end {
        return false;
    }
    let mut i = first;
    while i < end
        invariant
            first <= i <= end <= s@.len(),
            y == s@.subrange(first as int, end as int),
            y == strip_sign(s@.subrange(start as int, end as int)),
            forall|j: int| first <= j < i ==> is_ascii_digit(#[trigger] s@[j]),
        decreases end - i,
    {
        if !('0' <= s[i] && s[i] <= '9') {
            assert(y[i - first] == s@[i as int]);
            return false;
        }
        i = i + 1;
    }
    assert forall|a: int| 0 <= a < y.len() implies is_ascii_digit(#[trigger] y[a]) by {
        assert(y[a] == s@[first + a]);
    }
    true
}

/// The decimal digit char for `d < 10`.
pub open spec fn digit_char(d: nat) -> char {
    (d + '0' as nat) as char
}

/// The decimal text of `n`.
pub open spec fn decimal_text(n: nat) -> Seq<char>
    decreases n,
{
    if n < 10 {
        seq![digit_char(n)]
    } else {
        decimal_text(n / 10).push(digit_char(n % 10))
    }
}

/// Appends the decimal text of `n` to `s`.
pub fn push_decimal(s: &mut String, n: usize)
    ensures
        final(s)@ == old(s)@ + decimal_text(n as nat),
    decreases n,
{
    if n < 10 {
        push_char(s, ((n as u8) + 48u8) as char);
        assert(seq![digit_char(n as nat)] =~= Seq::<char>::empty().push(digit_char(n as nat)));
    } else {
        push_decimal(s, n / 10);
        push_char(s, (((n % 10) as u8) + 48u8) as char);
    }
}

} // verus!
