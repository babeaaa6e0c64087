use zcad_core::block::BlockId;
use zcad_core::entity::Entity;
use zcad_core::entity::EntityId;
use zcad_core::geometry::Circle;
use zcad_core::geometry::Geometry;
use zcad_core::geometry::Point;
use zcad_core::idgen::IdGenerator;
use zcad_core::layer::LayerError;
use zcad_core::layout::LayoutId;
use zcad_core::layout::ViewportId;
use zcad_core::math::Point2;
use zcad_core::math::Vector2;
use zcad_core::properties::Color;
use zcad_core::properties::LineType;
use zcad_core::properties::LineWeight;
use zcad_core::properties::Properties;
use zcad_core::text::push_decimal;
use zcad_core::text::str_eq;

#[test]
fn colors_pack_and_classify() {
    let c = Color::from_hex(0xFF8040);
    assert_eq!(c.r, 255);
    assert_eq!(c.g, 128);
    assert_eq!(c.b, 64);
    assert_eq!(c.a, 255);
    assert!(Color::with_alpha(0, 0, 0, 0).is_by_layer());
    assert!(Color::with_alpha(0, 0, 0, 1).is_by_block());
    assert!(!Color::new(10, 20, 30).is_by_layer());
    assert_eq!(Color::default(), Color::with_alpha(0, 0, 0, 0));
}

#[test]
fn properties_builders_replace_one_field() {
    let p = Properties::with_color(Color::new(1, 2, 3))
        .set_line_type(LineType::Dashed)
        .set_line_weight(LineWeight::Width(250));
    assert_eq!(p.color, Color::new(1, 2, 3));
    assert_eq!(p.line_type, LineType::Dashed);
    assert_eq!(p.line_weight, LineWeight::Width(250));
    assert_eq!(p.transparency, 0);
    assert_eq!(Properties::default().line_type, LineType::ByLayer);
}

#[test]
fn entity_ids_are_fresh_and_nonnull() {
    let mut ids = IdGenerator::new();
    let a = EntityId::new(&mut ids);
    let b = EntityId::new(&mut ids);
    assert_ne!(a, b);
    assert!(!a.is_null());
    assert!(EntityId::null().is_null());
    let raw = EntityId::from_raw(17, 3);
    assert_eq!(raw.id, 17);
    assert_eq!(raw.generation, 3);
}

#[test]
fn entities_start_visible_on_the_null_layer() {
    let mut ids = IdGenerator::new();
    let e = Entity::new(&mut ids, Geometry::Circle(Circle::new(Point2::new(0, 0), 5)));
    assert!(e.visible);
    assert!(!e.locked);
    assert!(e.layer_id.is_null());
    let layer = EntityId::from_raw(2, 0);
    let moved = e.with_layer(layer);
    assert_eq!(moved.layer_id, layer);
}

#[test]
fn geometry_kinds_have_names() {
    assert_eq!(Geometry::Point(Point::new(0, 0)).kind_name(), "Point");
    let v = Vector2::new(2, 3);
    assert_eq!(v.checked_add(Vector2::new(5, 7)), Some(Vector2::new(7, 10)));
    assert_eq!(Vector2::new(i64::MAX, 0).checked_add(Vector2::new(1, 0)), None);
}

#[test]
fn simple_ids_wrap_their_value() {
    assert_eq!(BlockId::new(4), BlockId(4));
    assert_eq!(LayoutId::new(5), LayoutId(5));
    assert_eq!(ViewportId::new(6), ViewportId(6));
}

#[test]
fn layer_errors_describe_themselves() {
    assert_eq!(LayerError::CannotDeleteLayerZero.message(), "Cannot delete layer 0");
    assert_eq!(LayerError::LayerNotFound("walls".to_string()).message(), "Layer not found");
}

#[test]
fn text_helpers_compare_and_render() {
    assert!(str_eq("abc", "abc"));
    assert!(!str_eq("abc", "abd"));
    assert!(!str_eq("abc", "ab"));
    let mut out = String::new();
    push_decimal(&mut out, 0);
    push_decimal(&mut out, 907);
    assert_eq!(out, "0907");
}
