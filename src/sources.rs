//! Where a manifest comes from: a remote address (a GitHub page is turned
//! into the address of its raw file) or a local YAML file.
use vstd::prelude::*;
use crate::error::ExcalidockerError;
use crate::text::{contains, ends_with, occurs_at, occurs_in, replace, replace_all, starts_with};

verus! {

/// The address of a manifest after rewriting: a GitHub page address becomes
/// the address of the raw file it shows.
pub open spec fn github_rewrite(input: Seq<char>) -> Seq<char> {
    if occurs_in(input, "github.com"@) {
        replace_all(
            replace_all(input, "https://github.com/"@, "https://raw.githubusercontent.com/"@),
            "/blob/"@,
            "/"@,
        )
    } else {
        input
    }
}

/// Rewrites a GitHub page address into the address of the raw file it shows;
/// any other address is returned as it is.
pub fn rewrite_github_url(input: &str) -> (r: String)
    ensures
        r@ == github_rewrite(input@),
{
    proof {
        reveal_strlit("https://github.com/");
        reveal_strlit("/blob/");
    }
    if contains(input, "github.com") {
        let raw = replace(input, "https://github.com/", "https://raw.githubusercontent.com/");
        replace(raw.as_str(), "/blob/", "/")
    } else {
        input.to_owned()
    }
}

/// The path names a YAML file.
pub open spec fn is_yaml_path(path: Seq<char>) -> bool {
    (".yaml"@.len() <= path.len() && occurs_at(path, ".yaml"@, path.len() - ".yaml"@.len())) || (".yml"@.len()
        <= path.len() && occurs_at(path, ".yml"@, path.len() - ".yml"@.len()))
}

/// The path is a remote address.
pub open spec fn is_remote_path(path: Seq<char>) -> bool {
    occurs_at(path, "http"@, 0)
}

/// Whether `path` ends in `.yaml` or `.yml`.
pub fn has_yaml_extension(path: &str) -> (r: bool)
    ensures
        r == is_yaml_path(path@),
{
    ends_with(path, ".yaml") || ends_with(path, ".yml")
}

/// A place to read a manifest from.
pub enum ManifestSource {
    Remote { url: String },
    Local { path: String },
}

/// Where to read the manifest named by `path`: an address starting with
/// `http` is fetched (after rewriting a GitHub page address), anything else
/// is a local file, which must have a YAML extension.
pub fn manifest_source(path: &str) -> (r: Result<ManifestSource, ExcalidockerError>)
    ensures
        is_remote_path(path@) ==> (r matches Ok(ManifestSource::Remote { url }) && url@ == github_rewrite(path@)),
        !is_remote_path(path@) && is_yaml_path(path@) ==> (r matches Ok(ManifestSource::Local { path: p }) && p@
            == path@),
        !is_remote_path(path@) && !is_yaml_path(path@) ==> (r matches Err(
            ExcalidockerError::FileIncorrectExtension { path: p },
        ) && p@ == path@),
{
    if starts_with(path, "http") {
        Ok(ManifestSource::Remote { url: rewrite_github_url(path) })
    } else if has_yaml_extension(path) {
        Ok(ManifestSource::Local { path: path.to_owned() })
    } else {
        Err(ExcalidockerError::FileIncorrectExtension { path: path.to_owned() })
    }
}

/// Checks that a configuration or manifest file has a YAML extension.
pub fn check_yaml_extension(path: &str) -> (r: Result<(), ExcalidockerError>)
    ensures
        r is Ok <==> is_yaml_path(path@),
        r matches Err(ExcalidockerError::FileIncorrectExtension { path: p }) ==> p@ == path@,
        r matches Err(e) ==> e is FileIncorrectExtension,
{
    if has_yaml_extension(path) {
        Ok(())
    } else {
        Err(ExcalidockerError::FileIncorrectExtension { path: path.to_owned() })
    }
}

} // verus!
