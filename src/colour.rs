//! Colours as plain red, green and blue components.
use vstd::prelude::*;

verus! {

/// A colour as its three 8-bit components.
#[derive(Debug, Clone, Copy, PartialEq, Eq, Structural)]
pub struct SerializableColour {
    pub r: u8,
    pub g: u8,
    pub b: u8,
}

pub fn black() -> (c: SerializableColour)
    ensures
        c == (SerializableColour { r: 0, g: 0, b: 0 }),
{
    SerializableColour { r: 0, g: 0, b: 0 }
}

pub fn light_grey() -> (c: SerializableColour)
    ensures
        c == (SerializableColour { r: 159, g: 159, b: 159 }),
{
    SerializableColour { r: 159, g: 159, b: 159 }
}

pub fn white() -> (c: SerializableColour)
    ensures
        c == (SerializableColour { r: 255, g: 255, b: 255 }),
{
    SerializableColour { r: 255, g: 255, b: 255 }
}

pub fn desaturated_green() -> (c: SerializableColour)
    ensures
        c == (SerializableColour { r: 63, g: 127, b: 63 }),
{
    SerializableColour { r: 63, g: 127, b: 63 }
}

pub fn lighter_lime() -> (c: SerializableColour)
    ensures
        c == (SerializableColour { r: 223, g: 255, b: 127 }),
{
    SerializableColour { r: 223, g: 255, b: 127 }
}

pub fn light_red() -> (c: SerializableColour)
    ensures
        c == (SerializableColour { r: 255, g: 63, b: 63 }),
{
    SerializableColour { r: 255, g: 63, b: 63 }
}

pub fn light_yellow() -> (c: SerializableColour)
    ensures
        c == (SerializableColour { r: 255, g: 255, b: 63 }),
{
    SerializableColour { r: 255, g: 255, b: 63 }
}

pub fn light_green() -> (c: SerializableColour)
    ensures
        c == (SerializableColour { r: 63, g: 255, b: 63 }),
{
    SerializableColour { r: 63, g: 255, b: 63 }
}

pub fn light_cyan() -> (c: SerializableColour)
    ensures
        c == (SerializableColour { r: 63, g: 255, b: 255 }),
{
    SerializableColour { r: 63, g: 255, b: 255 }
}

pub fn light_blue() -> (c: SerializableColour)
    ensures
        c == (SerializableColour { r: 63, g: 63, b: 255 }),
{
    SerializableColour { r: 63, g: 63, b: 255 }
}

pub fn light_violet() -> (c: SerializableColour)
    ensures
        c == (SerializableColour { r: 159, g: 63, b: 255 }),
{
    SerializableColour { r: 159, g: 63, b: 255 }
}

pub fn red() -> (c: SerializableColour)
    ensures
        c == (SerializableColour { r: 255, g: 0, b: 0 }),
{
    SerializableColour { r: 255, g: 0, b: 0 }
}

pub fn orange() -> (c: SerializableColour)
    ensures
        c == (SerializableColour { r: 255, g: 127, b: 0 }),
{
    SerializableColour { r: 255, g: 127, b: 0 }
}

pub fn yellow() -> (c: SerializableColour)
    ensures
        c == (SerializableColour { r: 255, g: 255, b: 0 }),
{
    SerializableColour { r: 255, g: 255, b: 0 }
}

pub fn green() -> (c: SerializableColour)
    ensures
        c == (SerializableColour { r: 0, g: 255, b: 0 }),
{
    SerializableColour { r: 0, g: 255, b: 0 }
}

pub fn sky() -> (c: SerializableColour)
    ensures
        c == (SerializableColour { r: 0, g: 191, b: 255 }),
{
    SerializableColour { r: 0, g: 191, b: 255 }
}

pub fn violet() -> (c: SerializableColour)
    ensures
        c == (SerializableColour { r: 127, g: 0, b: 255 }),
{
    SerializableColour { r: 127, g: 0, b: 255 }
}

pub fn purple() -> (c: SerializableColour)
    ensures
        c == (SerializableColour { r: 191, g: 0, b: 255 }),
{
    SerializableColour { r: 191, g: 0, b: 255 }
}

pub fn dark_red() -> (c: SerializableColour)
    ensures
        c == (SerializableColour { r: 191, g: 0, b: 0 }),
{
    SerializableColour { r: 191, g: 0, b: 0 }
}

pub fn darker_red() -> (c: SerializableColour)
    ensures
        c == (SerializableColour { r: 127, g: 0, b: 0 }),
{
    SerializableColour { r: 127, g: 0, b: 0 }
}

pub fn darker_orange() -> (c: SerializableColour)
    ensures
        c == (SerializableColour { r: 127, g: 63, b: 0 }),
{
    SerializableColour { r: 127, g: 63, b: 0 }
}

pub fn darker_green() -> (c: SerializableColour)
    ensures
        c == (SerializableColour { r: 0, g: 127, b: 0 }),
{
    SerializableColour { r: 0, g: 127, b: 0 }
}


/// Unexplored wall outside the field of view.
pub fn colour_dark_wall() -> (c: SerializableColour)
    ensures
        c == (SerializableColour { r: 0, g: 0, b: 100 }),
{
    SerializableColour { r: 0, g: 0, b: 100 }
}

/// Wall inside the field of view.
pub fn colour_light_wall() -> (c: SerializableColour)
    ensures
        c == (SerializableColour { r: 130, g: 110, b: 50 }),
{
    SerializableColour { r: 130, g: 110, b: 50 }
}

/// Floor outside the field of view.
pub fn colour_dark_ground() -> (c: SerializableColour)
    ensures
        c == (SerializableColour { r: 50, g: 50, b: 150 }),
{
    SerializableColour { r: 50, g: 50, b: 150 }
}

/// Floor inside the field of view.
pub fn colour_light_ground() -> (c: SerializableColour)
    ensures
        c == (SerializableColour { r: 200, g: 180, b: 50 }),
{
    SerializableColour { r: 200, g: 180, b: 50 }
}


} // verus!
