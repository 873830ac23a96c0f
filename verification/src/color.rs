//! Web colors: `#RRGGBB` and a few named colors.
use vstd::prelude::*;
use crate::text::{push_char, push_str};

verus! {

/// The upper-case hexadecimal digit of `n` (`n < 16`).
pub open spec fn hex_digit(n: u8) -> char {
    if n < 10 {
        (48 + n) as char
    } else {
        (55 + n) as char
    }
}

/// The two upper-case hexadecimal digits of a byte.
pub open spec fn hex_byte(b: u8) -> Seq<char> {
    seq![hex_digit(b / 16), hex_digit(b % 16)]
}

/// The value of an upper-case hexadecimal digit.
pub open spec fn hex_value(c: char) -> int {
    if (c as int) < 58 {
        c as int - 48
    } else {
        c as int - 55
    }
}

#[derive(Debug, Clone, Copy, PartialEq, Eq, Structural)]
pub enum WebColor {
    RGB(RGBColor),
    Named(NamedColor),
}

#[derive(Debug, Clone, Copy, PartialEq, Eq, Structural)]
pub struct RGBColor {
    pub red: u8,
    pub green: u8,
    pub blue: u8,
}

#[derive(Debug, Clone, Copy, PartialEq, Eq, Structural)]
pub enum NamedColor {
    White,
    Black,
}

impl RGBColor {
    /// The text `#RRGGBB` of a color, each channel as two upper-case hex digits.
    pub open spec fn spec_text(self) -> Seq<char> {
        seq!['#'] + hex_byte(self.red) + hex_byte(self.green) + hex_byte(self.blue)
    }

    pub fn new(red: u8, green: u8, blue: u8) -> (r: Self)
        ensures
            r.red == red,
            r.green == green,
            r.blue == blue,
    {
        Self { red, green, blue }
    }

    /// Formats the color as `#RRGGBB` with upper-case hexadecimal digits.
    pub fn to_string(&self) -> (r: String)
        ensures
            r@ == self.spec_text(),
    {
        let mut s = String::new();
        push_char(&mut s, '#');
        push_hex_byte(&mut s, self.red);
        push_hex_byte(&mut s, self.green);
        push_hex_byte(&mut s, self.blue);
        assert(s@ =~= self.spec_text());
        s
    }
}

impl Default for RGBColor {
    fn default() -> (r: Self)
        ensures
            r.red == 0 && r.green == 0 && r.blue == 0,
    {
        Self { red: 0, green: 0, blue: 0 }
    }
}

fn hex_digit_char(n: u8) -> (c: char)
    requires
        n < 16,
    ensures
        c == hex_digit(n),
{
    if n < 10 {
        (48 + n) as char
    } else {
        (55 + n) as char
    }
}

fn push_hex_byte(s: &mut String, b: u8)
    ensures
        final(s)@ == old(s)@ + hex_byte(b),
{
    push_char(s, hex_digit_char(b / 16));
    push_char(s, hex_digit_char(b % 16));
    assert(final(s)@ =~= old(s)@ + hex_byte(b));
}

impl NamedColor {
    /// The CSS name of the color.
    pub open spec fn spec_text(self) -> Seq<char> {
        match self {
            NamedColor::White => seq!['w', 'h', 'i', 't', 'e'],
            NamedColor::Black => seq!['b', 'l', 'a', 'c', 'k'],
        }
    }

    /// Formats the color as its CSS name (`white` or `black`).
    pub fn to_string(&self) -> (r: String)
        ensures
            r@ == self.spec_text(),
    {
        let mut s = String::new();
        match self {
            NamedColor::White => {
                push_char(&mut s, 'w');
                push_char(&mut s, 'h');
                push_char(&mut s, 'i');
                push_char(&mut s, 't');
                push_char(&mut s, 'e');
            },
            NamedColor::Black => {
                push_char(&mut s, 'b');
                push_char(&mut s, 'l');
                push_char(&mut s, 'a');
                push_char(&mut s, 'c');
                push_char(&mut s, 'k');
            },
        }
        assert(s@ =~= self.spec_text());
        s
    }
}

impl WebColor {
    /// The text of a color as it is written in SVG attributes.
    pub open spec fn spec_text(self) -> Seq<char> {
        match self {
            WebColor::RGB(c) => c.spec_text(),
            WebColor::Named(c) => c.spec_text(),
        }
    }

    /// Formats the color: `#RRGGBB` or its CSS name.
    pub fn to_string(&self) -> (r: String)
        ensures
            r@ == self.spec_text(),
    {
        match self {
            WebColor::RGB(c) => c.to_string(),
            WebColor::Named(c) => c.to_string(),
        }
    }
}

impl Default for WebColor {
    fn default() -> (r: Self)
        ensures
            r == WebColor::Named(NamedColor::Black),
    {
        WebColor::Named(NamedColor::Black)
    }
}

/// Each hex digit reads back as the value it was written from.
pub proof fn lemma_hex_digit_value(n: u8)
    requires
        0 <= n < 16,
    ensures
        hex_value(hex_digit(n)) == n,
        hex_digit(n) != '#',
{
}

/// Two colors with the same `#RRGGBB` text are the same color: the text
/// determines every channel.
pub proof fn lemma_rgb_text_injective(a: RGBColor, b: RGBColor)
    requires
        a.spec_text() == b.spec_text(),
    ensures
        a == b,
{
    let ta = a.spec_text();
    let tb = b.spec_text();
    assert forall|i: int| 1 <= i < 7 implies hex_value(ta[i]) == hex_value(tb[i]) by {
        assert(ta[i] == tb[i]);
    }
    lemma_hex_digit_value(a.red / 16);
    lemma_hex_digit_value(a.red % 16);
    lemma_hex_digit_value(b.red / 16);
    lemma_hex_digit_value(b.red % 16);
    lemma_hex_digit_value(a.green / 16);
    lemma_hex_digit_value(a.green % 16);
    lemma_hex_digit_value(b.green / 16);
    lemma_hex_digit_value(b.green % 16);
    lemma_hex_digit_value(a.blue / 16);
    lemma_hex_digit_value(a.blue % 16);
    lemma_hex_digit_value(b.blue / 16);
    lemma_hex_digit_value(b.blue % 16);
    assert(ta[1] == hex_digit(a.red / 16));
    assert(ta[2] == hex_digit(a.red % 16));
    assert(ta[3] == hex_digit(a.green / 16));
    assert(ta[4] == hex_digit(a.green % 16));
    assert(ta[5] == hex_digit(a.blue / 16));
    assert(ta[6] == hex_digit(a.blue % 16));
    assert(tb[1] == hex_digit(b.red / 16));
    assert(tb[2] == hex_digit(b.red % 16));
    assert(tb[3] == hex_digit(b.green / 16));
    assert(tb[4] == hex_digit(b.green % 16));
    assert(tb[5] == hex_digit(b.blue / 16));
    assert(tb[6] == hex_digit(b.blue % 16));
}

} // verus!
