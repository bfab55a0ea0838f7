//! Turns a compose manifest's services into a whiteboard diagram.
//!
//! - `order`: services ordered after everything they depend on, with cycles reported.
//! - `geometry`: the alignment modes' margins, offsets and arrow polylines, and
//!   the container width policy.
//! - `ports`: splitting a port mapping into host-side and container-side labels.
//! - `elements`: the diagram's shapes, their bindings and back-references.
//! - `layout`: the element graph builder, whose arrows and anchors refer to
//!   each other consistently.
//! - `diagram`: checking a service model and drawing it.
//! - `compose`: reading the services out of a manifest's YAML tree.
//! - `sources`: where a manifest is read from.
//! - `config`, `ids`, `error`, `text`: style options, random identifiers,
//!   errors, and string helpers.
pub mod text;
pub mod geometry;
pub mod ports;
pub mod order;
pub mod elements;
pub mod config;
pub mod layout;
pub mod ids;
pub mod error;
pub mod diagram;
pub mod sources;
pub mod compose;
