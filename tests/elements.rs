use excalidocker::config::{default_config, resolve_color};
use excalidocker::elements::{arrow_bounded_element, binding, roundness, AppState, Element, ExcalidrawFile};
use excalidocker::text::decimal;

#[test]
fn monospaced_text_is_sized_from_its_text() {
    match Element::draw_small_monospaced_text("8080".to_string(), 5, 6, vec![], 16, 1) {
        Element::Text { x, y, width, height, text, font_size, font_family, baseline, .. } => {
            assert_eq!((x, y, width, height), (5, 6, 76, 19));
            assert_eq!(text, "8080");
            assert_eq!((font_size, font_family, baseline), (16, 1, 15));
        }
        _ => panic!("expected a text"),
    }
    match Element::draw_small_monospaced_text("a\nb".to_string(), 0, 0, vec![], 16, 1) {
        Element::Text { width, height, .. } => assert_eq!((width, height), (58, 38)),
        _ => panic!("expected a text"),
    }
    match Element::draw_small_monospaced_text(String::new(), 0, 0, vec![], 16, 1) {
        Element::Text { width, height, .. } => assert_eq!((width, height), (4, 0)),
        _ => panic!("expected a text"),
    }
}

#[test]
fn edges_and_references() {
    assert_eq!(roundness("round".to_string()).map(|r| r.roundness_type), Some(3));
    assert!(roundness("sharp".to_string()).is_none());
    let b = arrow_bounded_element("port_arrow_x".to_string());
    assert_eq!((b.id.as_str(), b.element_type.as_str()), ("port_arrow_x", "arrow"));
    let bd = binding("container_1".to_string());
    assert_eq!((bd.element_id.as_str(), bd.focus_percent, bd.gap), ("container_1", 5, 1));
}

#[test]
fn document_defaults() {
    let state = AppState::default();
    assert_eq!((state.grid_size, state.view_background_color.as_str()), (20, "#ffffff"));
    let file = ExcalidrawFile::default();
    assert_eq!((file.file_type.as_str(), file.version), ("excalidraw", 2));
    assert!(file.source.is_none());
    assert!(file.elements.is_empty());
}

#[test]
fn simple_shapes_follow_the_edge_style() {
    match Element::simple_rectangle(
        "container_1".to_string(),
        1,
        2,
        140,
        60,
        vec![],
        vec![],
        "#b2f2bb".to_string(),
        "hachure".to_string(),
        "solid".to_string(),
        "round".to_string(),
    ) {
        Element::Rectangle { id, roundness, roughness, stroke_color, .. } => {
            assert_eq!(id, "container_1");
            assert_eq!(roundness.map(|r| r.roundness_type), Some(3));
            assert_eq!(roughness, 2);
            assert_eq!(stroke_color, "#000000");
        }
        _ => panic!("expected a rectangle"),
    }
    match Element::simple_arrow(
        "a".to_string(),
        0,
        0,
        0,
        60,
        "dashed".to_string(),
        "sharp".to_string(),
        vec![[0, 0], [1, 1]],
        binding("s".to_string()),
        binding("e".to_string()),
    ) {
        Element::Arrow { roundness, start_binding, end_binding, stroke_style, .. } => {
            assert!(roundness.is_none());
            assert_eq!(start_binding.element_id, "s");
            assert_eq!(end_binding.element_id, "e");
            assert_eq!(stroke_style, "dashed");
        }
        _ => panic!("expected an arrow"),
    }
}

#[test]
fn colors_resolve_to_hex() {
    assert_eq!(resolve_color("#123456"), "#123456");
    assert_eq!(resolve_color("red"), "#ff0000");
    assert_eq!(resolve_color("navy"), "#000080");
    assert_eq!(resolve_color("not-a-color"), "#000000");
    assert_eq!(resolve_color(""), "#000000");
}

#[test]
fn default_configuration_values() {
    let c = default_config();
    assert_eq!((c.font.size, c.font.family), (16, 1));
    assert_eq!(c.services.edge, "round");
    assert_eq!(c.alignment.mode, "stepped");
    assert!(c.connections.visible);
}

#[test]
fn decimal_notation() {
    assert_eq!(decimal(0), "0");
    assert_eq!(decimal(7), "7");
    assert_eq!(decimal(1234), "1234");
}
