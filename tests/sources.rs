use excalidocker::error::ExcalidockerError;
use excalidocker::sources::{check_yaml_extension, has_yaml_extension, manifest_source, rewrite_github_url, ManifestSource};

#[test]
fn test_rewrite_github_url() {
    let input1 = "https://github.com/etolbakov/excalidocker-rs/blob/main/data/compose/docker-compose-very-large.yaml";
    assert_eq!(
        "https://raw.githubusercontent.com/etolbakov/excalidocker-rs/main/data/compose/docker-compose-very-large.yaml",
        rewrite_github_url(input1)
    );
    let input2 =
        "https://github.com/treeverse/lakeFS/blob/master/deployments/compose/docker-compose.yml";
    assert_eq!(
        "https://raw.githubusercontent.com/treeverse/lakeFS/master/deployments/compose/docker-compose.yml",
        rewrite_github_url(input2)
    );
    let input3 = "https://github.com/etolbakov/excalidocker-rs/blob/feat/edge-type-support/data/compose/docker-compose-very-large.yaml";
    assert_eq!(
        "https://raw.githubusercontent.com/etolbakov/excalidocker-rs/feat/edge-type-support/data/compose/docker-compose-very-large.yaml",
        rewrite_github_url(input3)
    );
    let input4 = "https://raw.githubusercontent.com/etolbakov/excalidocker-rs/blob/edge-type-support/data/compose/docker-compose-very-large.yaml";
    assert_eq!(
        "https://raw.githubusercontent.com/etolbakov/excalidocker-rs/blob/edge-type-support/data/compose/docker-compose-very-large.yaml",
        rewrite_github_url(input4)
    );
}

#[test]
fn non_github_url_is_unchanged() {
    assert_eq!(rewrite_github_url("https://example.com/blob/x.yml"), "https://example.com/blob/x.yml");
}

#[test]
fn yaml_extensions_are_recognised() {
    assert!(has_yaml_extension("docker-compose.yaml"));
    assert!(has_yaml_extension("a.yml"));
    assert!(!has_yaml_extension("compose.json"));
    assert!(!has_yaml_extension("yml"));
    assert!(check_yaml_extension("x.yaml").is_ok());
}

#[test]
fn wrong_extension_is_an_error() {
    match check_yaml_extension("compose.txt") {
        Err(ExcalidockerError::FileIncorrectExtension { path }) => assert_eq!(path, "compose.txt"),
        _ => panic!("expected an extension error"),
    }
    match manifest_source("compose.txt") {
        Err(ExcalidockerError::FileIncorrectExtension { path }) => assert_eq!(path, "compose.txt"),
        _ => panic!("expected an extension error"),
    }
}

#[test]
fn remote_and_local_sources() {
    match manifest_source("https://github.com/a/b/blob/main/c.yaml") {
        Ok(ManifestSource::Remote { url }) => assert_eq!(url, "https://raw.githubusercontent.com/a/b/main/c.yaml"),
        _ => panic!("expected a remote source"),
    }
    match manifest_source("data/compose.yml") {
        Ok(ManifestSource::Local { path }) => assert_eq!(path, "data/compose.yml"),
        _ => panic!("expected a local source"),
    }
}
