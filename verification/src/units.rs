//! The unit system: drawing units, their names and symbols, and the display
//! formats for lengths and angles.  Values are stored in millimetres
//! internally; conversion factors and numeric formatting live with the
//! display layer.

use vstd::prelude::*;

verus! {

/// A drawing unit.
#[derive(Debug, Clone, Copy, PartialEq, Eq, Structural, Hash, Default)]
pub enum Unit {
    /// No unit of its own; the parent's unit applies.
    Unitless,
    Inch,
    Foot,
    Mile,
    #[default]
    Millimeter,
    Centimeter,
    Meter,
    Kilometer,
    Microinch,
    Mil,
    Yard,
    Angstrom,
    Nanometer,
    Micron,
    Decimeter,
    Decameter,
    Hectometer,
}

/// Whether the unit belongs to the metric system.
pub open spec fn spec_is_metric(u: Unit) -> bool {
    ||| u is Millimeter
    ||| u is Centimeter
    ||| u is Meter
    ||| u is Kilometer
    ||| u is Angstrom
    ||| u is Nanometer
    ||| u is Micron
    ||| u is Decimeter
    ||| u is Decameter
    ||| u is Hectometer
}

/// The unit's symbol.
pub open spec fn spec_symbol(u: Unit) -> Seq<char> {
    match u {
        Unit::Unitless => ""@,
        Unit::Inch => "\""@,
        Unit::Foot => "'"@,
        Unit::Mile => "mi"@,
        Unit::Millimeter => "mm"@,
        Unit::Centimeter => "cm"@,
        Unit::Meter => "m"@,
        Unit::Kilometer => "km"@,
        Unit::Microinch => "µin"@,
        Unit::Mil => "mil"@,
        Unit::Yard => "yd"@,
        Unit::Angstrom => "Å"@,
        Unit::Nanometer => "nm"@,
        Unit::Micron => "µm"@,
        Unit::Decimeter => "dm"@,
        Unit::Decameter => "dam"@,
        Unit::Hectometer => "hm"@,
    }
}

/// The unit's English name.
pub open spec fn spec_unit_name(u: Unit) -> Seq<char> {
    match u {
        Unit::Unitless => "None"@,
        Unit::Inch => "Inch"@,
        Unit::Foot => "Foot"@,
        Unit::Mile => "Mile"@,
        Unit::Millimeter => "Millimeter"@,
        Unit::Centimeter => "Centimeter"@,
        Unit::Meter => "Meter"@,
        Unit::Kilometer => "Kilometer"@,
        Unit::Microinch => "Microinch"@,
        Unit::Mil => "Mil"@,
        Unit::Yard => "Yard"@,
        Unit::Angstrom => "Angstrom"@,
        Unit::Nanometer => "Nanometer"@,
        Unit::Micron => "Micron"@,
        Unit::Decimeter => "Decimeter"@,
        Unit::Decameter => "Decameter"@,
        Unit::Hectometer => "Hectometer"@,
    }
}

/// Whether `c` reads as `d` once ASCII upper case is folded away: an ASCII
/// capital matches its small form, anything else matches itself.
pub open spec fn lower_eq(c: char, d: char) -> bool {
    if 65 <= c as int <= 90 {
        c as int + 32 == d as int
    } else {
        c as int == d as int
    }
}

/// Whether `s` reads as the keyword `t` up to ASCII case.
pub open spec fn lower_matches(s: Seq<char>, t: Seq<char>) -> bool {
    s.len() == t.len() && forall|i: int| 0 <= i < s.len() ==> lower_eq(#[trigger] s[i], t[i])
}

/// The unit a text names, compared without regard to ASCII case.
pub open spec fn spec_unit_from(s: Seq<char>) -> Option<Unit> {
    if lower_matches(s, "mm"@) || lower_matches(s, "millimeter"@) || lower_matches(
        s,
        "millimeters"@,
    ) {
        Some(Unit::Millimeter)
    } else if lower_matches(s, "cm"@) || lower_matches(s, "centimeter"@) || lower_matches(
        s,
        "centimeters"@,
    ) {
        Some(Unit::Centimeter)
    } else if lower_matches(s, "m"@) || lower_matches(s, "meter"@) || lower_matches(s, "meters"@) {
        Some(Unit::Meter)
    } else if lower_matches(s, "km"@) || lower_matches(s, "kilometer"@) || lower_matches(
        s,
        "kilometers"@,
    ) {
        Some(Unit::Kilometer)
    } else if lower_matches(s, "in"@) || lower_matches(s, "inch"@) || lower_matches(s, "inches"@)
        || lower_matches(s, "\""@) {
        Some(Unit::Inch)
    } else if lower_matches(s, "ft"@) || lower_matches(s, "foot"@) || lower_matches(s, "feet"@)
        || lower_matches(s, "'"@) {
        Some(Unit::Foot)
    } else if lower_matches(s, "mi"@) || lower_matches(s, "mile"@) || lower_matches(s, "miles"@) {
        Some(Unit::Mile)
    } else if lower_matches(s, "yd"@) || lower_matches(s, "yard"@) || lower_matches(s, "yards"@) {
        Some(Unit::Yard)
    } else if lower_matches(s, "mil"@) {
        Some(Unit::Mil)
    } else if lower_matches(s, "µm"@) || lower_matches(s, "um"@) || lower_matches(s, "micron"@) {
        Some(Unit::Micron)
    } else if lower_matches(s, "nm"@) || lower_matches(s, "nanometer"@) {
        Some(Unit::Nanometer)
    } else {
        None
    }
}

/// Whether `s` reads as the keyword `t` up to ASCII case.
fn eq_lower(s: &str, t: &str) -> (r: bool)
    ensures
        r == lower_matches(s@, t@),
{
    let n = s.unicode_len();
    if n != t.unicode_len() {
        return false;
    }
    let mut i: usize = 0;
    while i < n
        invariant
            i <= n,
            n == s@.len(),
            n == t@.len(),
            forall|k: int| 0 <= k < i ==> lower_eq(#[trigger] s@[k], t@[k]),
        decreases n - i,
    {
        let cu = s.get_char(i) as u32;
        let du = t.get_char(i) as u32;
        let same = if 65 <= cu && cu <= 90 {
            cu + 32 == du
        } else {
            cu == du
        };
        if !same {
            proof {
                assert(!lower_eq(s@[i as int], t@[i as int]));
            }
            return false;
        }
        i = i + 1;
    }
    true
}

impl Unit {
    /// Whether the unit belongs to the metric system.
    pub fn is_metric(&self) -> (r: bool)
        ensures
            r == spec_is_metric(*self),
    {
        match self {
            Unit::Millimeter => true,
            Unit::Centimeter => true,
            Unit::Meter => true,
            Unit::Kilometer => true,
            Unit::Angstrom => true,
            Unit::Nanometer => true,
            Unit::Micron => true,
            Unit::Decimeter => true,
            Unit::Decameter => true,
            Unit::Hectometer => true,
            _ => false,
        }
    }

    /// The unit's symbol.
    pub fn symbol(&self) -> (r: &'static str)
        ensures
            r@ == spec_symbol(*self),
    {
        match self {
            Unit::Unitless => "",
            Unit::Inch => "\"",
            Unit::Foot => "'",
            Unit::Mile => "mi",
            Unit::Millimeter => "mm",
            Unit::Centimeter => "cm",
            Unit::Meter => "m",
            Unit::Kilometer => "km",
            Unit::Microinch => "µin",
            Unit::Mil => "mil",
            Unit::Yard => "yd",
            Unit::Angstrom => "Å",
            Unit::Nanometer => "nm",
            Unit::Micron => "µm",
            Unit::Decimeter => "dm",
            Unit::Decameter => "dam",
            Unit::Hectometer => "hm",
        }
    }

    /// The unit's English name.
    pub fn name(&self) -> (r: &'static str)
        ensures
            r@ == spec_unit_name(*self),
    {
        match self {
            Unit::Unitless => "None",
            Unit::Inch => "Inch",
            Unit::Foot => "Foot",
            Unit::Mile => "Mile",
            Unit::Millimeter => "Millimeter",
            Unit::Centimeter => "Centimeter",
            Unit::Meter => "Meter",
            Unit::Kilometer => "Kilometer",
            Unit::Microinch => "Microinch",
            Unit::Mil => "Mil",
            Unit::Yard => "Yard",
            Unit::Angstrom => "Angstrom",
            Unit::Nanometer => "Nanometer",
            Unit::Micron => "Micron",
            Unit::Decimeter => "Decimeter",
            Unit::Decameter => "Decameter",
            Unit::Hectometer => "Hectometer",
        }
    }

    /// The unit a text names, compared without regard to ASCII case; `None`
    /// for anything unrecognised.
    pub fn from_str(s: &str) -> (r: Option<Unit>)
        ensures
            r == spec_unit_from(s@),
    {
        if eq_lower(s, "mm") || eq_lower(s, "millimeter") || eq_lower(s, "millimeters") {
            Some(Unit::Millimeter)
        } else if eq_lower(s, "cm") || eq_lower(s, "centimeter") || eq_lower(s, "centimeters") {
            Some(Unit::Centimeter)
        } else if eq_lower(s, "m") || eq_lower(s, "meter") || eq_lower(s, "meters") {
            Some(Unit::Meter)
        } else if eq_lower(s, "km") || eq_lower(s, "kilometer") || eq_lower(s, "kilometers") {
            Some(Unit::Kilometer)
        } else if eq_lower(s, "in") || eq_lower(s, "inch") || eq_lower(s, "inches") || eq_lower(
            s,
            "\"",
        ) {
            Some(Unit::Inch)
        } else if eq_lower(s, "ft") || eq_lower(s, "foot") || eq_lower(s, "feet") || eq_lower(
            s,
            "'",
        ) {
            Some(Unit::Foot)
        } else if eq_lower(s, "mi") || eq_lower(s, "mile") || eq_lower(s, "miles") {
            Some(Unit::Mile)
        } else if eq_lower(s, "yd") || eq_lower(s, "yard") || eq_lower(s, "yards") {
            Some(Unit::Yard)
        } else if eq_lower(s, "mil") {
            Some(Unit::Mil)
        } else if eq_lower(s, "µm") || eq_lower(s, "um") || eq_lower(s, "micron") {
            Some(Unit::Micron)
        } else if eq_lower(s, "nm") || eq_lower(s, "nanometer") {
            Some(Unit::Nanometer)
        } else {
            None
        }
    }
}

/// How lengths are written out.
#[derive(Debug, Clone, Copy, PartialEq, Eq, Structural, Default)]
pub enum LinearFormat {
    /// Scientific notation, such as 2.5E+05.
    Scientific,
    /// Plain decimal, such as 9.5.
    #[default]
    Decimal,
    /// Feet and decimal inches, such as 7'-11.5".
    Engineering,
    /// Feet and fractional inches, such as 7'-9 1/8".
    Architectural,
    /// Whole units and fractions, such as 7 9/16.
    Fractional,
    /// Metres and centimetres with superscript millimetres (DIN 406).
    ArchitecturalMetric,
}

/// The unit angles are measured in.
#[derive(Debug, Clone, Copy, PartialEq, Eq, Structural, Default)]
pub enum AngleUnit {
    #[default]
    Degrees,
    Radians,
    Gradians,
}

/// The angle unit's symbol.
pub open spec fn spec_angle_symbol(u: AngleUnit) -> Seq<char> {
    match u {
        AngleUnit::Degrees => "°"@,
        AngleUnit::Radians => "rad"@,
        AngleUnit::Gradians => "gon"@,
    }
}

impl AngleUnit {
    /// The angle unit's symbol.
    pub fn symbol(&self) -> (r: &'static str)
        ensures
            r@ == spec_angle_symbol(*self),
    {
        match self {
            AngleUnit::Degrees => "°",
            AngleUnit::Radians => "rad",
            AngleUnit::Gradians => "gon",
        }
    }
}

/// How angles are written out.
#[derive(Debug, Clone, Copy, PartialEq, Eq, Structural, Default)]
pub enum AngleFormat {
    /// Decimal degrees, such as 24.5°.
    #[default]
    DegreesDecimal,
    /// Degrees, minutes and seconds, such as 24°30'5".
    DegreesMinutesSeconds,
    /// Gradians, such as 390.5 gon.
    Gradians,
    /// Radians, such as 1.57 rad.
    Radians,
    /// Surveyor's bearings, such as N 45° E.
    Surveyors,
}

} // verus!
