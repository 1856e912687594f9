//! Colours as the 32-bit words of a linear framebuffer.
use vstd::prelude::*;

verus! {

/// Which byte of a pixel word carries which colour.
#[derive(Clone, Copy, Debug, PartialEq, Eq, Structural)]
pub struct PixelFormat {
    /// Whether blue is the lowest byte of the word; otherwise red is.
    pub blue_lowest: bool,
}

impl PixelFormat {
    /// Words of the form `0x00RRGGBB`.
    #[must_use]
    pub fn xrgb8888() -> (format: PixelFormat)
        ensures
            format == (PixelFormat { blue_lowest: true }),
    {
        PixelFormat { blue_lowest: true }
    }

    /// Words of the form `0x00BBGGRR`.
    #[must_use]
    pub fn xbgr8888() -> (format: PixelFormat)
        ensures
            format == (PixelFormat { blue_lowest: false }),
    {
        PixelFormat { blue_lowest: false }
    }

    /// The word that shows a colour.
    #[must_use]
    pub fn encode(&self, r: u8, g: u8, b: u8) -> (word: u32)
        ensures
            word == self.word(r, g, b),
    {
        if self.blue_lowest {
            0x1_0000 * (r as u32) + 0x100 * (g as u32) + b as u32
        } else {
            0x1_0000 * (b as u32) + 0x100 * (g as u32) + r as u32
        }
    }

    /// The word that shows a colour: three bytes, of which only the order depends
    /// on the format.
    pub open spec fn word(&self, r: u8, g: u8, b: u8) -> int {
        if self.blue_lowest {
            0x1_0000 * r + 0x100 * g + b
        } else {
            0x1_0000 * b + 0x100 * g + r
        }
    }
}

/// Exchanging red and blue is the same as exchanging the two formats.
pub proof fn law_the_formats_swap_red_and_blue(r: u8, g: u8, b: u8)
    ensures
        (PixelFormat { blue_lowest: true }).word(r, g, b) == (PixelFormat {
            blue_lowest: false,
        }).word(b, g, r),
{
}

/// Different colours are different words, whichever format is in use.
pub proof fn law_colours_are_kept_apart(
    format: PixelFormat,
    r: u8,
    g: u8,
    b: u8,
    r2: u8,
    g2: u8,
    b2: u8,
)
    requires
        format.word(r, g, b) == format.word(r2, g2, b2),
    ensures
        r == r2 && g == g2 && b == b2,
{
}

/// Each colour of a pixel word is one of its three low bytes, and the byte above
/// them is clear.
pub proof fn law_each_colour_is_a_byte_of_the_word(r: u8, g: u8, b: u8)
    ensures
        ({
            let word = (PixelFormat { blue_lowest: true }).word(r, g, b);
            word % 0x100 == b && (word / 0x100) % 0x100 == g && word / 0x1_0000 == r
        }),
        ({
            let word = (PixelFormat { blue_lowest: false }).word(r, g, b);
            word % 0x100 == r && (word / 0x100) % 0x100 == g && word / 0x1_0000 == b
        }),
{
}

} // verus!
