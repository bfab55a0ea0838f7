use excalidocker::config::{default_config, ExcalidrawConfig};
use excalidocker::diagram::{count_ids, dependency_components, render_diagram};
use excalidocker::elements::Element;
use excalidocker::error::LayoutError;
use excalidocker::layout::{layout_diagram, ServiceNode};
use excalidocker::order::dependency_order;

fn node(id: &str, name: &str, ports: &[&str], deps: &[&str]) -> ServiceNode {
    ServiceNode {
        id: id.to_string(),
        name: name.to_string(),
        ports: ports.iter().map(|p| p.to_string()).collect(),
        depends_on: deps.iter().map(|d| d.to_string()).collect(),
    }
}

fn sample() -> Vec<ServiceNode> {
    vec![
        node("container_1", "a", &["8080:80", "9000"], &[]),
        node("container_2", "b", &[], &["a"]),
        node("container_3", "c", &["5432:5432"], &["a", "b"]),
    ]
}

fn id_of(e: &Element) -> Option<&str> {
    match e {
        Element::Text { .. } => None,
        Element::Arrow { id, .. } | Element::Rectangle { id, .. } | Element::Ellipse { id, .. } => Some(id),
    }
}

fn bound_of(e: &Element) -> Vec<String> {
    match e {
        Element::Rectangle { bound_elements, .. } | Element::Ellipse { bound_elements, .. } => {
            bound_elements.iter().map(|b| b.id.clone()).collect()
        }
        _ => vec![],
    }
}

fn listed(elements: &[Element], target: &str, arrow: &str) -> bool {
    elements.iter().any(|e| id_of(e) == Some(target) && !matches!(e, Element::Arrow { .. }) && bound_of(e).iter().any(|b| b == arrow))
}

fn check_bindings(elements: &[Element]) {
    for e in elements {
        if let Element::Arrow { id, start_binding, end_binding, .. } = e {
            assert!(listed(elements, &start_binding.element_id, id), "start of {} not listed", id);
            assert!(listed(elements, &end_binding.element_id, id), "end of {} not listed", id);
        }
        for b in bound_of(e) {
            assert!(elements.iter().any(|a| matches!(a, Element::Arrow { .. }) && id_of(a) == Some(b.as_str())));
        }
    }
}

fn connectors(elements: &[Element]) -> Vec<(String, String, String)> {
    elements
        .iter()
        .filter_map(|e| match e {
            Element::Arrow { id, stroke_style, start_binding, end_binding, .. } if stroke_style == "dashed" => {
                Some((id.clone(), start_binding.element_id.clone(), end_binding.element_id.clone()))
            }
            _ => None,
        })
        .collect()
}

fn config_with(mode: &str, visible: bool) -> ExcalidrawConfig {
    let mut c = default_config();
    c.alignment.mode = mode.to_string();
    c.connections.visible = visible;
    c
}

#[test]
fn element_count_matches_model() {
    let s = sample();
    // 2 per service, 4 per port less one per port with equal labels, one connector per dependency
    let shown = render_diagram(&s, &config_with("stepped", true), false).ok().unwrap();
    assert_eq!(shown.elements.len(), 2 * 3 + (4 * 3 - 2) + 3);
    let hidden = render_diagram(&s, &config_with("stepped", true), true).ok().unwrap();
    assert_eq!(hidden.elements.len(), 2 * 3 + (4 * 3 - 2));
}

#[test]
fn every_binding_is_mirrored() {
    let s = sample();
    for mode in ["stepped", "horizontal", "vertical"] {
        let file = render_diagram(&s, &config_with(mode, true), false).ok().unwrap();
        check_bindings(&file.elements);
        let c = connectors(&file.elements);
        assert_eq!(c.len(), 3);
        let pairs: Vec<(String, String)> = c.iter().map(|(_, s, e)| (s.clone(), e.clone())).collect();
        assert!(pairs.contains(&("container_2".to_string(), "container_1".to_string())));
        assert!(pairs.contains(&("container_3".to_string(), "container_1".to_string())));
        assert!(pairs.contains(&("container_3".to_string(), "container_2".to_string())));
        for (id, child, parent) in &c {
            assert!(listed(&file.elements, child, id));
            assert!(listed(&file.elements, parent, id));
        }
    }
}

#[test]
fn hidden_connections_leave_only_port_arrows() {
    let s = sample();
    for (config, skip) in [(config_with("stepped", false), false), (config_with("stepped", true), true)] {
        let file = render_diagram(&s, &config, skip).ok().unwrap();
        assert!(connectors(&file.elements).is_empty());
        check_bindings(&file.elements);
        for e in &file.elements {
            if let Element::Rectangle { id, bound_elements, .. } = e {
                let expected = match id.as_str() {
                    "container_1" => 2,
                    "container_3" => 1,
                    _ => 0,
                };
                assert_eq!(bound_elements.len(), expected);
            }
        }
    }
    let shown = render_diagram(&s, &config_with("stepped", true), false).ok().unwrap();
    let hidden = render_diagram(&s, &config_with("stepped", false), false).ok().unwrap();
    let rects = |f: &excalidocker::elements::ExcalidrawFile| -> Vec<(String, i32, i32, i32)> {
        f.elements
            .iter()
            .filter_map(|e| match e {
                Element::Rectangle { id, x, y, width, .. } => Some((id.clone(), *x, *y, *width)),
                _ => None,
            })
            .collect()
    };
    assert_eq!(rects(&shown), rects(&hidden));
}

#[test]
fn stepped_layout_positions_and_identifiers() {
    let s = sample();
    let order = dependency_order(&dependency_components(&s)).ok().unwrap();
    assert_eq!(order, vec![0, 1, 2]);
    let config = config_with("stepped", true);
    let n = count_ids(&s, &order, true);
    assert_eq!(n, 5 + 1 + 3 + 3);
    let ids: Vec<String> = (0..n).map(|i| format!("k{}", i)).collect();
    let file = layout_diagram(&s, &order, &config, false, &ids);
    let rects: Vec<(String, i32, i32, i32, i32)> = file
        .elements
        .iter()
        .filter_map(|e| match e {
            Element::Rectangle { id, x, y, width, height, .. } => Some((id.clone(), *x, *y, *width, *height)),
            _ => None,
        })
        .collect();
    assert_eq!(
        rects,
        vec![
            ("container_1".to_string(), 0, 0, 140, 60),
            ("container_2".to_string(), 200, 60, 140, 60),
            ("container_3".to_string(), 400, 120, 140, 60),
        ]
    );
    // the first port of `a`: container-side label, indicator, host label, arrow
    match &file.elements[0] {
        Element::Text { text, x, y, .. } => assert_eq!((text.as_str(), *x, *y), ("80", 20, 80)),
        _ => panic!("expected the container-side label"),
    }
    match &file.elements[1] {
        Element::Ellipse { id, x, y, group_ids, .. } => {
            assert_eq!(id, "ellipse_k1");
            assert_eq!((*x, *y), (0, 160));
            assert_eq!(group_ids, &vec!["group_a_hostport_0_text".to_string()]);
        }
        _ => panic!("expected the port indicator"),
    }
    match &file.elements[3] {
        Element::Arrow { id, x, y, points, start_binding, end_binding, .. } => {
            assert_eq!(id, "port_arrow_k2");
            assert_eq!((*x, *y), (70, 60));
            assert_eq!(points, &vec![[0, 0], [-35, 100]]);
            assert_eq!(start_binding.element_id, "container_1");
            assert_eq!(end_binding.element_id, "ellipse_k1");
        }
        _ => panic!("expected the port arrow"),
    }
    let c = connectors(&file.elements);
    assert_eq!(c[0].0, "connecting_arrow_k9");
    match file.elements.last() {
        Some(Element::Text { text, x, y, .. }) => assert_eq!((text.as_str(), *x, *y), ("c", 420, 140)),
        _ => panic!("expected the last name label"),
    }
}

#[test]
fn vertical_layout_advances_down() {
    let s = sample();
    let file = render_diagram(&s, &config_with("vertical", true), false).ok().unwrap();
    let ys: Vec<(i32, i32)> = file
        .elements
        .iter()
        .filter_map(|e| match e {
            Element::Rectangle { x, y, .. } => Some((*x, *y)),
            _ => None,
        })
        .collect();
    assert_eq!(ys, vec![(0, 0), (0, 100), (0, 200)]);
}

#[test]
fn model_errors() {
    let dup = vec![node("container_1", "a", &[], &[]), node("container_2", "a", &[], &[])];
    match render_diagram(&dup, &default_config(), false) {
        Err(LayoutError::DuplicateService { name }) => assert_eq!(name, "a"),
        _ => panic!("expected a duplicate"),
    }
    let unknown = vec![node("container_1", "a", &[], &["nope"])];
    match render_diagram(&unknown, &default_config(), false) {
        Err(LayoutError::UnknownDependency { service, dependency }) => {
            assert_eq!((service.as_str(), dependency.as_str()), ("a", "nope"))
        }
        _ => panic!("expected an unknown dependency"),
    }
    let cycle = vec![node("container_1", "a", &[], &["b"]), node("container_2", "b", &[], &["a"])];
    match render_diagram(&cycle, &default_config(), false) {
        Err(LayoutError::DependencyCycle { service }) => assert!(service == "a" || service == "b"),
        _ => panic!("expected a cycle"),
    }
    let long_name = "x".repeat(1001);
    let big = vec![node("container_1", &long_name, &[], &[])];
    assert!(matches!(render_diagram(&big, &default_config(), false), Err(LayoutError::TooLarge { .. })));
    let many: Vec<ServiceNode> = (0..1001).map(|i| node(&format!("container_{}", i), &format!("s{}", i), &[], &[])).collect();
    assert!(matches!(render_diagram(&many, &default_config(), false), Err(LayoutError::TooManyServices)));
}

#[test]
fn empty_model_gives_empty_diagram() {
    let file = render_diagram(&Vec::new(), &default_config(), false).ok().unwrap();
    assert!(file.elements.is_empty());
    assert_eq!(file.file_type, "excalidraw");
}

#[test]
fn random_identifiers_are_alphanumeric() {
    let id = excalidocker::ids::generate_id();
    assert_eq!(id.chars().count(), 7);
    assert!(id.chars().all(|c| c.is_ascii_alphanumeric()));
    let file = render_diagram(&sample(), &default_config(), false).ok().unwrap();
    for e in &file.elements {
        if let Element::Ellipse { id, .. } = e {
            assert!(id.starts_with("ellipse_"));
            assert_eq!(id.len(), "ellipse_".len() + 7);
        }
    }
}

#[test]
fn connectors_fan_out_by_descending_parent_position() {
    let s = sample();
    let order = dependency_order(&dependency_components(&s)).ok().unwrap();
    let ids: Vec<String> = (0..count_ids(&s, &order, true)).map(|i| format!("k{}", i)).collect();
    let file = layout_diagram(&s, &order, &config_with("stepped", true), false, &ids);
    let arrows: Vec<(String, i32, i32, Vec<[i32; 2]>, String)> = file
        .elements
        .iter()
        .filter_map(|e| match e {
            Element::Arrow { id, x, y, points, end_binding, stroke_style, .. } if stroke_style == "dashed" => {
                Some((id.clone(), *x, *y, points.clone(), end_binding.element_id.clone()))
            }
            _ => None,
        })
        .collect();
    assert_eq!(arrows.len(), 3);
    // `b` (at 200, 60) depends on `a` (at 0, 0)
    assert_eq!(arrows[0], ("connecting_arrow_k9".to_string(), 220, 60, vec![[0, 0], [0, -120], [-100, -120], [-100, -60]], "container_1".to_string()));
    // `c` (at 400, 120): its rightmost parent `b` takes the first lane, `a` the second
    assert_eq!(arrows[1], ("connecting_arrow_k10".to_string(), 420, 120, vec![[0, 0], [0, -120], [-100, -120], [-100, -60]], "container_2".to_string()));
    assert_eq!(arrows[2], ("connecting_arrow_k11".to_string(), 440, 120, vec![[0, 0], [0, -180], [-340, -180], [-340, -120]], "container_1".to_string()));
}
