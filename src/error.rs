//! Errors of reading a manifest and of laying it out.
use vstd::prelude::*;

verus! {

/// A manifest that could not be read or parsed.
pub enum ExcalidockerError {
    FileIncorrectExtension { path: String },
    FileNotFound { path: String, msg: String },
    FileFailedRead { path: String, msg: String },
    RemoteFileFailedRead { path: String, msg: String },
    InvalidDockerCompose { path: String, msg: String },
}

/// A service model that cannot be drawn.
pub enum LayoutError {
    /// More services than a layout can place.
    TooManyServices,
    /// A service whose name, ports or dependencies exceed what a layout can place.
    TooLarge { service: String },
    /// Two services with the same name.
    DuplicateService { name: String },
    /// A dependency on a name that no service has.
    UnknownDependency { service: String, dependency: String },
    /// A service that depends on itself through its dependencies.
    DependencyCycle { service: String },
}

} // verus!
