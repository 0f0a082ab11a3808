//! ANSI text styling
use crate::numeral::{decimal_text, push_decimal};
use crate::text::push_str;
use vstd::prelude::*;

verus! {

/// An ANSI color
#[derive(Debug, Clone, Copy, PartialEq, Eq, Hash, Default)]
pub enum Color {
    /// 3-bit black
    Black,
    /// 3-bit red
    Red,
    /// 3-bit green
    Green,
    /// 3-bit yellow
    Yellow,
    /// 3-bit blue
    Blue,
    /// 3-bit magenta
    Magenta,
    /// 3-bit cyan
    Cyan,
    /// 3-bit white
    White,
    /// Reset the color
    #[default]
    Default,
    /// 3-bit black - bright
    BrightBlack,
    /// 3-bit red - bright
    BrightRed,
    /// 3-bit green - bright
    BrightGreen,
    /// 3-bit yellow - bright
    BrightYellow,
    /// 3-bit blue - bright
    BrightBlue,
    /// 3-bit magenta - bright
    BrightMagenta,
    /// 3-bit cyan - bright
    BrightCyan,
    /// 3-bit white - bright
    BrightWhite,
    /// 8-bit color
    Id(u8),
    /// 24-bit truecolor
    Rgb(u8, u8, u8),
}

/// The number of a named color in the ANSI color codes: 0-7 for the 3-bit colors, 9 to reset,
/// 60-67 for the bright ones (added to 30 for the foreground, to 40 for the background)
pub open spec fn color_number(c: Color) -> nat {
    match c {
        Color::Black => 0,
        Color::Red => 1,
        Color::Green => 2,
        Color::Yellow => 3,
        Color::Blue => 4,
        Color::Magenta => 5,
        Color::Cyan => 6,
        Color::White => 7,
        Color::Default => 9,
        Color::BrightBlack => 60,
        Color::BrightRed => 61,
        Color::BrightGreen => 62,
        Color::BrightYellow => 63,
        Color::BrightBlue => 64,
        Color::BrightMagenta => 65,
        Color::BrightCyan => 66,
        Color::BrightWhite => 67,
        _ => 0,
    }
}

impl Color {
    /// [`color_number`] of a named color
    fn number(self) -> (n: u8)
        ensures
            n == color_number(self),
            n <= 67,
    {
        match self {
            Color::Black => 0,
            Color::Red => 1,
            Color::Green => 2,
            Color::Yellow => 3,
            Color::Blue => 4,
            Color::Magenta => 5,
            Color::Cyan => 6,
            Color::White => 7,
            Color::Default => 9,
            Color::BrightBlack => 60,
            Color::BrightRed => 61,
            Color::BrightGreen => 62,
            Color::BrightYellow => 63,
            Color::BrightBlue => 64,
            Color::BrightMagenta => 65,
            Color::BrightCyan => 66,
            Color::BrightWhite => 67,
            _ => 0,
        }
    }
}

/// An ANSI style
#[derive(Debug, Clone, Copy, PartialEq, Eq, Hash, Default)]
pub struct Style {
    /// Bitflags defining bold, italic, underline, and strikethrough
    pub flags: u8,
    /// The foreground color
    pub color: Option<Color>,
    /// The background color
    pub background: Option<Color>,
}

/// Bitflag for [`Style::flags`] representing the bold style
pub const BOLD_FLAG: u8 = 1;
/// Bitflag for [`Style::flags`] representing the italic style
pub const ITALIC_FLAG: u8 = 2;
/// Bitflag for [`Style::flags`] representing the underline style
pub const UNDERLINE_FLAG: u8 = 4;
/// Bitflag for [`Style::flags`] representing the strikethrough style
pub const STRIKETHROUGH_FLAG: u8 = 8;

impl Style {
    /// Construct a new, default [`Style`]
    pub fn new() -> (r: Self)
        ensures
            r.flags == 0,
            r.color is None,
            r.background is None,
    {
        Self { flags: 0, color: None, background: None }
    }

    /// Make this style bold
    pub fn bold(self) -> (r: Self)
        ensures
            r == (Style { flags: self.flags | BOLD_FLAG, ..self }),
    {
        Self { flags: self.flags | BOLD_FLAG, ..self }
    }

    /// Make this style italic
    pub fn italic(self) -> (r: Self)
        ensures
            r == (Style { flags: self.flags | ITALIC_FLAG, ..self }),
    {
        Self { flags: self.flags | ITALIC_FLAG, ..self }
    }

    /// Make this style underline
    pub fn underline(self) -> (r: Self)
        ensures
            r == (Style { flags: self.flags | UNDERLINE_FLAG, ..self }),
    {
        Self { flags: self.flags | UNDERLINE_FLAG, ..self }
    }

    /// Make this style strikethrough
    pub fn strikethrough(self) -> (r: Self)
        ensures
            r == (Style { flags: self.flags | STRIKETHROUGH_FLAG, ..self }),
    {
        Self { flags: self.flags | STRIKETHROUGH_FLAG, ..self }
    }

    /// Set the foreground color for this style
    pub fn foreground(self, value: Color) -> (r: Self)
        ensures
            r == (Style { color: Some(value), ..self }),
    {
        Self { color: Some(value), ..self }
    }

    /// Set the background color for this style
    pub fn background(self, value: Color) -> (r: Self)
        ensures
            r == (Style { background: Some(value), ..self }),
    {
        Self { background: Some(value), ..self }
    }

    /// The opener of this style
    pub fn begin(self) -> (r: BeginStyle)
        ensures
            r.0 == self,
    {
        BeginStyle(self)
    }

    /// The closer of this style
    pub fn end(self) -> (r: EndStyle)
        ensures
            r.0 == self,
    {
        EndStyle(self)
    }

    /// `what` in this style
    pub fn style<'a>(self, what: &'a str) -> (r: Styled<'a>)
        ensures
            r.style == self,
            r.inner == what,
    {
        Styled { style: self, inner: what }
    }
}

/// `[code]` if `present`, else nothing
pub open spec fn part_if(present: bool, code: Seq<char>) -> Seq<Seq<char>> {
    if present {
        seq![code]
    } else {
        Seq::empty()
    }
}

/// `parts` separated by `;`
pub open spec fn joined(parts: Seq<Seq<char>>) -> Seq<char>
    decreases parts.len(),
{
    if parts.len() == 0 {
        Seq::empty()
    } else if parts.len() == 1 {
        parts[0]
    } else {
        joined(parts.drop_last()) + ";"@ + parts.last()
    }
}

/// The ANSI parameter that sets color `c`: the 8-bit and 24-bit forms after `base` + 8, the
/// named ones as `base` plus their number
pub open spec fn color_code(c: Color, base: nat) -> Seq<char> {
    match c {
        Color::Id(code) => decimal_text(base + 8) + ";5;"@ + decimal_text(code as nat),
        Color::Rgb(r, g, b) => decimal_text(base + 8) + ";2;"@ + decimal_text(r as nat) + ";"@
            + decimal_text(g as nat) + ";"@ + decimal_text(b as nat),
        _ => decimal_text(color_number(c) + base),
    }
}

/// Whether the style changes anything at all
pub open spec fn styles_anything(s: Style) -> bool {
    s.flags != 0 || s.color is Some || s.background is Some
}

/// The ANSI parameters that start style `s`: bold `1`, italic `3`, underline `4`, strikethrough
/// `9`, then the foreground and background colors
pub open spec fn begin_parts(s: Style) -> Seq<Seq<char>> {
    part_if(s.flags & BOLD_FLAG != 0, "1"@) + part_if(s.flags & ITALIC_FLAG != 0, "3"@) + part_if(
        s.flags & UNDERLINE_FLAG != 0,
        "4"@,
    ) + part_if(s.flags & STRIKETHROUGH_FLAG != 0, "9"@) + part_if(
        s.color is Some,
        color_code(s.color->0, 30),
    ) + part_if(s.background is Some, color_code(s.background->0, 40))
}

/// The ANSI parameters that end style `s`: each undoes what [`begin_parts`] set
pub open spec fn end_parts(s: Style) -> Seq<Seq<char>> {
    part_if(s.flags & BOLD_FLAG != 0, "22"@) + part_if(s.flags & ITALIC_FLAG != 0, "23"@) + part_if(
        s.flags & UNDERLINE_FLAG != 0,
        "24"@,
    ) + part_if(s.flags & STRIKETHROUGH_FLAG != 0, "29"@) + part_if(s.color is Some, "39"@)
        + part_if(s.background is Some, "49"@)
}

/// The escape sequence with the parameters `parts`, or nothing if the style changes nothing
pub open spec fn sequence_text(s: Style, parts: Seq<Seq<char>>) -> Seq<char> {
    if styles_anything(s) {
        "\x1b["@ + joined(parts) + "m"@
    } else {
        Seq::empty()
    }
}

/// The text that starts style `s`
pub open spec fn begin_text(s: Style) -> Seq<char> {
    sequence_text(s, begin_parts(s))
}

/// The text that ends style `s`
pub open spec fn end_text(s: Style) -> Seq<char> {
    sequence_text(s, end_parts(s))
}

proof fn lemma_joined_push(parts: Seq<Seq<char>>, code: Seq<char>)
    ensures
        joined(parts.push(code)) == if parts.len() == 0 {
            code
        } else {
            joined(parts) + ";"@ + code
        },
{
    assert(parts.push(code).drop_last() =~= parts);
}

/// Appends `code` as the next parameter after `parts`, which `out` ends with.
fn push_part(out: &mut String, has_prev: bool, code: &str, Ghost(prefix): Ghost<Seq<char>>, Ghost(
    parts,
): Ghost<Seq<Seq<char>>>)
    requires
        old(out)@ == prefix + joined(parts),
        has_prev == (parts.len() > 0),
    ensures
        final(out)@ == prefix + joined(parts.push(code@)),
{
    proof {
        lemma_joined_push(parts, code@);
    }
    if has_prev {
        push_str(out, ";");
    }
    push_str(out, code);
    assert(final(out)@ =~= prefix + joined(parts.push(code@)));
}

/// Appends the parameter that sets color `c` after `base`.
#[verifier::spinoff_prover]
fn push_color_code(out: &mut String, c: Color, base: u8)
    requires
        base == 30 || base == 40,
    ensures
        final(out)@ == old(out)@ + color_code(c, base as nat),
{
    let ghost mid = out@;
    match c {
        Color::Id(code) => {
            push_decimal(out, (base + 8) as usize);
            push_str(out, ";5;");
            push_decimal(out, code as usize);
        },
        Color::Rgb(r, g, b) => {
            push_decimal(out, (base + 8) as usize);
            push_str(out, ";2;");
            push_decimal(out, r as usize);
            push_str(out, ";");
            push_decimal(out, g as usize);
            push_str(out, ";");
            push_decimal(out, b as usize);
        },
        _ => {
            push_decimal(out, (c.number() + base) as usize);
        },
    }
    assert(out@ =~= mid + color_code(c, base as nat));
}

/// Appends the parameter that sets color `c` after `base`, as the next one after `parts`.
fn push_color_part(
    out: &mut String,
    has_prev: bool,
    c: Color,
    base: u8,
    Ghost(prefix): Ghost<Seq<char>>,
    Ghost(parts): Ghost<Seq<Seq<char>>>,
)
    requires
        old(out)@ == prefix + joined(parts),
        has_prev == (parts.len() > 0),
        base == 30 || base == 40,
    ensures
        final(out)@ == prefix + joined(parts.push(color_code(c, base as nat))),
{
    proof {
        lemma_joined_push(parts, color_code(c, base as nat));
    }
    if has_prev {
        push_str(out, ";");
    }
    push_color_code(out, c, base);
    assert(final(out)@ =~= prefix + joined(parts.push(color_code(c, base as nat))));
}

/// Creates the ANSI sequence for starting a styled segment
#[derive(Debug, Clone, Copy, PartialEq, Eq, Hash, Default)]
pub struct BeginStyle(pub Style);

impl BeginStyle {
    /// The escape sequence that starts the style; nothing if the style changes nothing
    pub fn to_string(&self) -> (r: String)
        ensures
            r@ == begin_text(self.0),
    {
        let s = self.0;
        let mut out = String::new();
        if s.flags != 0 || s.color.is_some() || s.background.is_some() {
            push_str(&mut out, "\x1b[");
            let ghost prefix = out@;
            let ghost mut parts: Seq<Seq<char>> = Seq::empty();
            assert(out@ =~= prefix + joined(parts));
            let mut has_prev = false;
            if s.flags & BOLD_FLAG != 0 {
                push_part(&mut out, has_prev, "1", Ghost(prefix), Ghost(parts));
                proof {
                    parts = parts.push("1"@);
                }
                has_prev = true;
            }
            if s.flags & ITALIC_FLAG != 0 {
                push_part(&mut out, has_prev, "3", Ghost(prefix), Ghost(parts));
                proof {
                    parts = parts.push("3"@);
                }
                has_prev = true;
            }
            if s.flags & UNDERLINE_FLAG != 0 {
                push_part(&mut out, has_prev, "4", Ghost(prefix), Ghost(parts));
                proof {
                    parts = parts.push("4"@);
                }
                has_prev = true;
            }
            if s.flags & STRIKETHROUGH_FLAG != 0 {
                push_part(&mut out, has_prev, "9", Ghost(prefix), Ghost(parts));
                proof {
                    parts = parts.push("9"@);
                }
                has_prev = true;
            }
            if let Some(color) = s.color {
                push_color_part(&mut out, has_prev, color, 30, Ghost(prefix), Ghost(parts));
                proof {
                    parts = parts.push(color_code(color, 30));
                }
                has_prev = true;
            }
            if let Some(background) = s.background {
                push_color_part(&mut out, has_prev, background, 40, Ghost(prefix), Ghost(parts));
                proof {
                    parts = parts.push(color_code(background, 40));
                }
            }
            assert(parts =~= begin_parts(s));
            push_str(&mut out, "m");
        }
        out
    }
}

/// Creates the ANSI sequence for ending a styled segment
#[derive(Debug, Clone, Copy, PartialEq, Eq, Hash, Default)]
pub struct EndStyle(pub Style);

impl EndStyle {
    /// The escape sequence that ends the style; nothing if the style changes nothing
    pub fn to_string(&self) -> (r: String)
        ensures
            r@ == end_text(self.0),
    {
        let s = self.0;
        let mut out = String::new();
        if s.flags != 0 || s.color.is_some() || s.background.is_some() {
            push_str(&mut out, "\x1b[");
            let ghost prefix = out@;
            let ghost mut parts: Seq<Seq<char>> = Seq::empty();
            assert(out@ =~= prefix + joined(parts));
            let mut has_prev = false;
            if s.flags & BOLD_FLAG != 0 {
                push_part(&mut out, has_prev, "22", Ghost(prefix), Ghost(parts));
                proof {
                    parts = parts.push("22"@);
                }
                has_prev = true;
            }
            if s.flags & ITALIC_FLAG != 0 {
                push_part(&mut out, has_prev, "23", Ghost(prefix), Ghost(parts));
                proof {
                    parts = parts.push("23"@);
                }
                has_prev = true;
            }
            if s.flags & UNDERLINE_FLAG != 0 {
                push_part(&mut out, has_prev, "24", Ghost(prefix), Ghost(parts));
                proof {
                    parts = parts.push("24"@);
                }
                has_prev = true;
            }
            if s.flags & STRIKETHROUGH_FLAG != 0 {
                push_part(&mut out, has_prev, "29", Ghost(prefix), Ghost(parts));
                proof {
                    parts = parts.push("29"@);
                }
                has_prev = true;
            }
            if s.color.is_some() {
                push_part(&mut out, has_prev, "39", Ghost(prefix), Ghost(parts));
                proof {
                    parts = parts.push("39"@);
                }
                has_prev = true;
            }
            if s.background.is_some() {
                push_part(&mut out, has_prev, "49", Ghost(prefix), Ghost(parts));
                proof {
                    parts = parts.push("49"@);
                }
            }
            assert(parts =~= end_parts(s));
            push_str(&mut out, "m");
        }
        out
    }
}

/// A type that can wrap text in a style
pub trait StyleWrapper {
    /// The text that opens the style
    spec fn opener(&self) -> Seq<char>;

    /// The text that closes the style
    spec fn closer(&self) -> Seq<char>;

    /// Gives the style opener
    fn begin_text(&self) -> (r: String)
        ensures
            r@ == self.opener(),
    ;

    /// Gives the style closer
    fn end_text(&self) -> (r: String)
        ensures
            r@ == self.closer(),
    ;
}

impl StyleWrapper for Style {
    open spec fn opener(&self) -> Seq<char> {
        begin_text(*self)
    }

    open spec fn closer(&self) -> Seq<char> {
        end_text(*self)
    }

    fn begin_text(&self) -> (r: String) {
        BeginStyle(*self).to_string()
    }

    fn end_text(&self) -> (r: String) {
        EndStyle(*self).to_string()
    }
}

/// Encloses text with the styling of a [`Style`]
#[derive(Debug, Clone, Copy, PartialEq, Eq, Hash)]
pub struct Styled<'a> {
    /// The style to wrap [`Self::inner`] with
    pub style: Style,
    /// The content being styled
    pub inner: &'a str,
}

impl<'a> Styled<'a> {
    /// The text between the opener and the closer of the style
    pub fn to_string(&self) -> (r: String)
        ensures
            r@ == begin_text(self.style) + self.inner@ + end_text(self.style),
    {
        let mut out = BeginStyle(self.style).to_string();
        push_str(&mut out, self.inner);
        let end = EndStyle(self.style).to_string();
        push_str(&mut out, end.as_str());
        out
    }
}

/// The sequence that ends a style undoes exactly what the sequence that starts it sets: it has
/// one parameter for each of the opener's, and one of them is empty exactly when the other is.
pub proof fn lemma_end_matches_begin(s: Style)
    ensures
        end_parts(s).len() == begin_parts(s).len(),
        (begin_text(s).len() == 0) == (end_text(s).len() == 0),
        (begin_text(s).len() == 0) == !styles_anything(s),
{
    reveal_strlit("\x1b[");
}

} // verus!
