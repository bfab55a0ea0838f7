use excalidocker::compose::{parse_depends_on, parse_networks, services_from_compose, DockerContainer, YamlNode};
use excalidocker::error::ExcalidockerError;

fn s(v: &str) -> YamlNode {
    YamlNode::Str(v.to_string())
}

fn seq(items: &[&str]) -> YamlNode {
    YamlNode::Sequence(items.iter().map(|i| s(i)).collect())
}

fn map(entries: Vec<(&str, YamlNode)>) -> YamlNode {
    YamlNode::Mapping(entries.into_iter().map(|(k, v)| (s(k), v)).collect())
}

#[test]
fn container_fields_are_read_by_key() {
    let value = map(vec![
        ("image", s("postgres:15")),
        ("command", s("run")),
        ("environment", map(vec![("USER", s("me")), ("PORT", YamlNode::Scalar)])),
        ("ports", YamlNode::Sequence(vec![s("5432:5432"), YamlNode::Scalar])),
        ("volumes", seq(&["data:/var/lib"])),
        ("depends_on", map(vec![("cache", YamlNode::Scalar)])),
        ("networks", seq(&["back"])),
        ("restart", s("always")),
    ]);
    let c = DockerContainer::convert_to_container("container_1".to_string(), &value);
    assert_eq!(c.id, "container_1");
    assert_eq!(c.image, "postgres:15");
    assert_eq!(c.command.as_deref(), Some("run"));
    assert_eq!(c.environment, Some(vec![("USER".to_string(), "me".to_string())]));
    assert_eq!(c.ports, Some(vec!["5432:5432".to_string()]));
    assert_eq!(c.volumes, Some(vec!["data:/var/lib".to_string()]));
    assert_eq!(c.depends_on, Some(vec!["cache".to_string()]));
    assert_eq!(c.networks, Some(vec!["back".to_string()]));
}

#[test]
fn container_with_no_settings() {
    let c = DockerContainer::convert_to_container("container_9".to_string(), &map(vec![("image", YamlNode::Scalar)]));
    assert_eq!(c.image, "");
    assert!(c.command.is_none() && c.ports.is_none() && c.depends_on.is_none() && c.environment.is_none());
    let n = DockerContainer::new("x".to_string());
    assert_eq!(n.id, "x");
    assert!(n.networks.is_none() && n.volumes.is_none());
}

#[test]
fn dependency_lists_and_mappings() {
    assert_eq!(parse_depends_on(&seq(&["a", "b"])), Some(vec!["a".to_string(), "b".to_string()]));
    assert_eq!(
        parse_depends_on(&map(vec![("a", YamlNode::Scalar), ("b", YamlNode::Scalar)])),
        Some(vec!["a".to_string(), "b".to_string()])
    );
    assert_eq!(parse_depends_on(&s("a")), None);
    assert_eq!(parse_networks(&seq(&["front"])), Some(vec!["front".to_string()]));
    assert_eq!(parse_networks(&YamlNode::Scalar), None);
}

#[test]
fn services_in_document_order() {
    let root = map(vec![
        ("version", s("3")),
        (
            "services",
            map(vec![
                ("web", map(vec![("ports", seq(&["80:8080"])), ("depends_on", seq(&["db"]))])),
                ("db", map(vec![("image", s("postgres"))])),
            ]),
        ),
    ]);
    let nodes = match services_from_compose(&root, "compose.yaml") {
        Ok(nodes) => nodes,
        Err(_) => panic!("the manifest is well formed"),
    };
    assert_eq!(nodes.len(), 2);
    assert_eq!((nodes[0].id.as_str(), nodes[0].name.as_str()), ("container_1", "web"));
    assert_eq!(nodes[0].ports, vec!["80:8080".to_string()]);
    assert_eq!(nodes[0].depends_on, vec!["db".to_string()]);
    assert_eq!((nodes[1].id.as_str(), nodes[1].name.as_str()), ("container_2", "db"));
    assert!(nodes[1].ports.is_empty() && nodes[1].depends_on.is_empty());
}

#[test]
fn manifest_without_services_is_invalid() {
    let root = map(vec![("version", s("3"))]);
    match services_from_compose(&root, "compose.yaml") {
        Err(ExcalidockerError::InvalidDockerCompose { path, msg }) => {
            assert_eq!(path, "compose.yaml");
            assert_eq!(msg, "Failed to get 'services' attribute");
        }
        _ => panic!("expected an invalid manifest"),
    }
    let bad = map(vec![("services", map(vec![("web", s("nginx"))]))]);
    assert!(matches!(services_from_compose(&bad, "c.yml"), Err(ExcalidockerError::InvalidDockerCompose { .. })));
    assert!(services_from_compose(&YamlNode::Scalar, "c.yml").is_err());
}
