//! Visual properties of entities: colour, line type and line weight.

use vstd::prelude::*;

verus! {

/// An RGBA colour.  The two alpha values 0 and 1 are reserved sentinels:
/// fully transparent black (`a == 0`) means "colour of the layer" and
/// almost-transparent black (`a == 1`, `r == g == b == 0`) means "colour of
/// the block".
#[derive(Debug, Clone, Copy, PartialEq, Eq, Structural)]
pub struct Color {
    pub r: u8,
    pub g: u8,
    pub b: u8,
    pub a: u8,
}

impl Color {
    /// An opaque colour from its red, green and blue components.
    pub fn new(r: u8, g: u8, b: u8) -> (c: Self)
        ensures
            c == (Color { r, g, b, a: 255 }),
    {
        Color { r, g, b, a: 255 }
    }

    /// A colour with an explicit alpha component.
    pub fn with_alpha(r: u8, g: u8, b: u8, a: u8) -> (c: Self)
        ensures
            c == (Color { r, g, b, a }),
    {
        Color { r, g, b, a }
    }

    /// An opaque colour from a packed `0xRRGGBB` value (for example
    /// `0xFF0000` is red).
    pub fn from_hex(hex: u32) -> (c: Self)
        ensures
            c.r == (hex / 0x10000) % 0x100,
            c.g == (hex / 0x100) % 0x100,
            c.b == hex % 0x100,
            c.a == 255,
    {
        let r = ((hex >> 16) & 0xFF) as u8;
        let g = ((hex >> 8) & 0xFF) as u8;
        let b = (hex & 0xFF) as u8;
        proof {
            assert((hex >> 16) & 0xFF == (hex / 0x10000) % 0x100) by (bit_vector);
            assert((hex >> 8) & 0xFF == (hex / 0x100) % 0x100) by (bit_vector);
            assert(hex & 0xFF == hex % 0x100) by (bit_vector);
        }
        Color { r, g, b, a: 255 }
    }

    /// Whether this colour is the "colour of the layer" sentinel.
    pub fn is_by_layer(&self) -> (r: bool)
        ensures
            r == (self.a == 0),
    {
        self.a == 0
    }

    /// Whether this colour is the "colour of the block" sentinel.
    pub fn is_by_block(&self) -> (r: bool)
        ensures
            r == (self.a == 1 && self.r == 0 && self.g == 0 && self.b == 0),
    {
        self.a == 1 && self.r == 0 && self.g == 0 && self.b == 0
    }
}

impl Default for Color {
    /// The default colour follows the layer.
    fn default() -> (c: Self)
        ensures
            c == (Color { r: 0, g: 0, b: 0, a: 0 }),
    {
        Color { r: 0, g: 0, b: 0, a: 0 }
    }
}

/// Dash pattern of a line.  A custom pattern is a list of segment lengths in
/// integer document units: positive values draw, negative values skip.
#[derive(Debug, Clone, PartialEq, Eq)]
pub enum LineType {
    Continuous,
    Dashed,
    Dotted,
    DashDot,
    DashDotDot,
    Center,
    Hidden,
    Custom { name: String, pattern: Vec<i64> },
    ByLayer,
    ByBlock,
}

impl Default for LineType {
    /// The default line type follows the layer.
    fn default() -> (r: Self)
        ensures
            r == LineType::ByLayer,
    {
        LineType::ByLayer
    }
}

/// Line weight, in thousandths of a millimetre where explicit.
#[derive(Debug, Clone, Copy, PartialEq, Eq, Structural)]
pub enum LineWeight {
    Default,
    ByLayer,
    ByBlock,
    Width(i64),
}

impl Default for LineWeight {
    /// The default line weight follows the layer.
    fn default() -> (r: Self)
        ensures
            r == LineWeight::ByLayer,
    {
        LineWeight::ByLayer
    }
}

/// The visual properties of an entity.
/// Transparency runs from 0 (opaque) to 100.
#[derive(Debug, Clone, PartialEq, Eq)]
pub struct Properties {
    pub color: Color,
    pub line_type: LineType,
    pub line_weight: LineWeight,
    pub transparency: u8,
}

impl Default for Properties {
    /// Everything follows the layer; fully opaque.
    fn default() -> (r: Self)
        ensures
            r == (Properties {
                color: Color { r: 0, g: 0, b: 0, a: 0 },
                line_type: LineType::ByLayer,
                line_weight: LineWeight::ByLayer,
                transparency: 0,
            }),
    {
        Properties {
            color: Color { r: 0, g: 0, b: 0, a: 0 },
            line_type: LineType::ByLayer,
            line_weight: LineWeight::ByLayer,
            transparency: 0,
        }
    }
}

impl Properties {
    /// Properties that differ from the default only in their colour.
    pub fn with_color(color: Color) -> (r: Self)
        ensures
            r.color == color,
            r.line_type == LineType::ByLayer,
            r.line_weight == LineWeight::ByLayer,
            r.transparency == 0,
    {
        Properties {
            color,
            line_type: LineType::ByLayer,
            line_weight: LineWeight::ByLayer,
            transparency: 0,
        }
    }

    /// Replace the colour.
    pub fn set_color(self, color: Color) -> (r: Self)
        ensures
            r == (Properties { color, ..self }),
    {
        Properties { color, ..self }
    }

    /// Replace the line type.
    pub fn set_line_type(self, line_type: LineType) -> (r: Self)
        ensures
            r == (Properties { line_type, ..self }),
    {
        Properties { line_type, ..self }
    }

    /// Replace the line weight.
    pub fn set_line_weight(self, line_weight: LineWeight) -> (r: Self)
        ensures
            r == (Properties { line_weight, ..self }),
    {
        Properties { line_weight, ..self }
    }
}

} // verus!
