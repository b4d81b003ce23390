//! RGBA pixels and the colour code of the classification.

use vstd::prelude::*;

verus! {

/// An RGBA pixel with 8-bit channels.
#[derive(Clone, Copy, Debug, PartialEq, Eq, Structural)]
pub struct Rgba {
    pub r: u8,
    pub g: u8,
    pub b: u8,
    pub a: u8,
}

/// Margin that reaches the outer edge of the texture.
pub open spec fn violet() -> Rgba {
    Rgba { r: 128, g: 0, b: 128, a: 255 }
}

/// Margins of two islands overlap here.
pub open spec fn red() -> Rgba {
    Rgba { r: 255, g: 0, b: 0, a: 255 }
}

/// Inside the margin of exactly one island.
pub open spec fn cyan() -> Rgba {
    Rgba { r: 0, g: 255, b: 255, a: 255 }
}

/// Island pixel outside every margin.
pub open spec fn green() -> Rgba {
    Rgba { r: 0, g: 255, b: 0, a: 255 }
}

/// Background outside every margin.
pub open spec fn transparent() -> Rgba {
    Rgba { r: 0, g: 0, b: 0, a: 0 }
}

/// The colour of one output pixel. The rules are tried in order and the
/// first that applies decides.
pub open spec fn pixel_colour(on_border: bool, island: bool, margin: bool, conflict: bool) -> Rgba {
    if on_border && margin {
        violet()
    } else if !island && conflict {
        red()
    } else if !island && margin {
        cyan()
    } else if !island {
        transparent()
    } else if conflict {
        red()
    } else if margin {
        cyan()
    } else {
        green()
    }
}

/// Classifies one pixel from its four observations.
pub fn classify_pixel(on_border: bool, island: bool, margin: bool, conflict: bool) -> (c: Rgba)
    ensures
        c == pixel_colour(on_border, island, margin, conflict),
{
    if on_border && margin {
        Rgba { r: 128, g: 0, b: 128, a: 255 }
    } else if !island {
        if conflict {
            Rgba { r: 255, g: 0, b: 0, a: 255 }
        } else if margin {
            Rgba { r: 0, g: 255, b: 255, a: 255 }
        } else {
            Rgba { r: 0, g: 0, b: 0, a: 0 }
        }
    } else {
        if conflict {
            Rgba { r: 255, g: 0, b: 0, a: 255 }
        } else if margin {
            Rgba { r: 0, g: 255, b: 255, a: 255 }
        } else {
            Rgba { r: 0, g: 255, b: 0, a: 255 }
        }
    }
}

} // verus!
