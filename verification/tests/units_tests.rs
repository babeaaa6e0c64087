use zcad_core::units::AngleUnit;
use zcad_core::units::Unit;

#[test]
fn unit_parsing_ignores_ascii_case() {
    assert_eq!(Unit::from_str("mm"), Some(Unit::Millimeter));
    assert_eq!(Unit::from_str("MM"), Some(Unit::Millimeter));
    assert_eq!(Unit::from_str("Millimeters"), Some(Unit::Millimeter));
    assert_eq!(Unit::from_str("Inches"), Some(Unit::Inch));
    assert_eq!(Unit::from_str("\""), Some(Unit::Inch));
    assert_eq!(Unit::from_str("'"), Some(Unit::Foot));
    assert_eq!(Unit::from_str("um"), Some(Unit::Micron));
    assert_eq!(Unit::from_str("µm"), Some(Unit::Micron));
    assert_eq!(Unit::from_str("furlong"), None);
    assert_eq!(Unit::from_str(""), None);
}

#[test]
fn units_know_their_symbols_and_names() {
    assert_eq!(Unit::Millimeter.symbol(), "mm");
    assert_eq!(Unit::Inch.symbol(), "\"");
    assert_eq!(Unit::Unitless.symbol(), "");
    assert_eq!(Unit::Angstrom.symbol(), "Å");
    assert_eq!(Unit::Kilometer.name(), "Kilometer");
    assert_eq!(Unit::Unitless.name(), "None");
    assert_eq!(AngleUnit::Degrees.symbol(), "°");
    assert_eq!(AngleUnit::Gradians.symbol(), "gon");
}

#[test]
fn metric_units_are_recognised() {
    assert!(Unit::Millimeter.is_metric());
    assert!(Unit::Hectometer.is_metric());
    assert!(!Unit::Inch.is_metric());
    assert!(!Unit::Mil.is_metric());
    assert_eq!(Unit::default(), Unit::Millimeter);
}
