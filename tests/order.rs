use excalidocker::order::{dependency_order, find_containers_traversal_order, DependencyComponent};

fn component(name: &str, parents: &[&str]) -> DependencyComponent {
    let mut c = DependencyComponent::new(format!("id_{}", name), name.to_string());
    for p in parents {
        c.parent.push(DependencyComponent::new(String::new(), p.to_string()));
    }
    c
}

fn position(order: &[String], name: &str) -> usize {
    let found: Vec<usize> = order.iter().enumerate().filter(|(_, n)| n.as_str() == name).map(|(i, _)| i).collect();
    assert_eq!(found.len(), 1, "{} must appear exactly once", name);
    found[0]
}

#[test]
fn diamond_dependency_places_shared_parent_once_and_first() {
    let comps = vec![
        component("d", &["b", "c"]),
        component("b", &["a"]),
        component("c", &["a"]),
        component("a", &[]),
    ];
    let order = match find_containers_traversal_order(&comps) {
        Ok(order) => order,
        Err(_) => panic!("a diamond has no cycle"),
    };
    assert_eq!(order.len(), 4);
    let (a, b, c, d) = (position(&order, "a"), position(&order, "b"), position(&order, "c"), position(&order, "d"));
    assert!(a < b && a < c);
    assert!(b < d && c < d);
}

#[test]
fn chain_is_ordered_after_transitive_dependencies() {
    let comps = vec![component("web", &["api"]), component("api", &["db"]), component("db", &[]), component("cache", &[])];
    let order = find_containers_traversal_order(&comps).ok().unwrap();
    assert_eq!(order.len(), 4);
    assert!(position(&order, "db") < position(&order, "api"));
    assert!(position(&order, "api") < position(&order, "web"));
    assert!(position(&order, "db") < position(&order, "web"));
    position(&order, "cache");
}

#[test]
fn unknown_dependency_is_skipped() {
    let comps = vec![component("web", &["ghost"]), component("db", &[])];
    let order = find_containers_traversal_order(&comps).ok().unwrap();
    assert_eq!(order.len(), 2);
    position(&order, "web");
    position(&order, "db");
}

#[test]
fn cycle_is_reported() {
    let comps = vec![component("a", &["b"]), component("b", &["c"]), component("c", &["a"]), component("d", &[])];
    match find_containers_traversal_order(&comps) {
        Err(name) => assert!(["a", "b", "c"].contains(&name.as_str())),
        Ok(_) => panic!("expected a cycle"),
    }
    assert!(dependency_order(&vec![component("self", &["self"])]).is_err());
}

#[test]
fn empty_graph_has_empty_order() {
    let order = find_containers_traversal_order(&Vec::new()).ok().unwrap();
    assert!(order.is_empty());
}
