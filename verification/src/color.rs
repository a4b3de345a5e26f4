//! Colors for 3MF base materials.

use vstd::prelude::*;
use vstd::string::*;

use crate::decimal::{hex_byte, hex_char, push_hex_byte};

verus! {

/// An sRGB color with an optional alpha channel.
///
/// `displaycolor` formats the value for 3MF `basematerials`.
#[derive(Debug, Clone, Copy, PartialEq, Eq, Structural, Hash)]
pub struct Color {
    pub r: u8,
    pub g: u8,
    pub b: u8,
    pub a: u8,
}

/// The 3MF `displaycolor` text of `c`: `#RRGGBB` when it is opaque,
/// `#RRGGBBAA` otherwise, with upper-case hexadecimal digits.
pub open spec fn display_color(c: Color) -> Seq<char> {
    if c.a == 255 {
        seq!['#'] + hex_byte(c.r) + hex_byte(c.g) + hex_byte(c.b)
    } else {
        seq!['#'] + hex_byte(c.r) + hex_byte(c.g) + hex_byte(c.b) + hex_byte(c.a)
    }
}

impl Color {
    /// An opaque color.
    pub fn rgb(r: u8, g: u8, b: u8) -> (c: Color)
        ensures
            c == (Color { r, g, b, a: 255 }),
    {
        Color { r, g, b, a: 255 }
    }

    /// A color with an explicit alpha channel.
    pub fn rgba(r: u8, g: u8, b: u8, a: u8) -> (c: Color)
        ensures
            c == (Color { r, g, b, a }),
    {
        Color { r, g, b, a }
    }

    /// 3MF `displaycolor`: `#RRGGBB` when opaque, `#RRGGBBAA` otherwise.
    pub fn displaycolor(self) -> (s: String)
        ensures
            s@ == display_color(self),
    {
        let mut s = String::from_str("#");
        proof {
            reveal_strlit("#");
        }
        push_hex_byte(&mut s, self.r);
        push_hex_byte(&mut s, self.g);
        push_hex_byte(&mut s, self.b);
        if self.a != 255 {
            push_hex_byte(&mut s, self.a);
        }
        s
    }
}

/// Two colors have the same `displaycolor` text exactly when they are equal.
pub proof fn lemma_display_color_injective(c: Color, d: Color)
    ensures
        (display_color(c) == display_color(d)) == (c == d),
{
    if display_color(c) == display_color(d) {
        let s = display_color(c);
        let t = display_color(d);
        assert(s[1] == hex_char(c.r as int / 16) && t[1] == hex_char(d.r as int / 16));
        assert(s[2] == hex_char(c.r as int % 16) && t[2] == hex_char(d.r as int % 16));
        assert(s[3] == hex_char(c.g as int / 16) && t[3] == hex_char(d.g as int / 16));
        assert(s[4] == hex_char(c.g as int % 16) && t[4] == hex_char(d.g as int % 16));
        assert(s[5] == hex_char(c.b as int / 16) && t[5] == hex_char(d.b as int / 16));
        assert(s[6] == hex_char(c.b as int % 16) && t[6] == hex_char(d.b as int % 16));
        lemma_hex_byte_injective(c.r, d.r);
        lemma_hex_byte_injective(c.g, d.g);
        lemma_hex_byte_injective(c.b, d.b);
        if c.a != 255 || d.a != 255 {
            assert(s.len() == 9 && t.len() == 9);
            assert(s[7] == hex_char(c.a as int / 16) && t[7] == hex_char(d.a as int / 16));
            assert(s[8] == hex_char(c.a as int % 16) && t[8] == hex_char(d.a as int % 16));
            lemma_hex_byte_injective(c.a, d.a);
        }
    }
}

proof fn lemma_hex_byte_injective(x: u8, y: u8)
    requires
        hex_char(x as int / 16) == hex_char(y as int / 16),
        hex_char(x as int % 16) == hex_char(y as int % 16),
    ensures
        x == y,
{
    assert(x == 16 * (x as int / 16) + x as int % 16);
    assert(y == 16 * (y as int / 16) + y as int % 16);
}

} // verus!
