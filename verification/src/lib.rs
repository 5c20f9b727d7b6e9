//! Core of a package manager's dependency resolution and build-graph layer.
//!
//! The crate models a fully resolved dependency graph ([`resolve::Resolve`]):
//! packages, the dependency edges between them, replacements, per-package
//! feature activations, integrity checksums, and the lockfile dialect the
//! graph will serialize as.  On top of the graph it provides the two
//! algorithms that downstream build steps rely on:
//!
//! * reconciliation of a freshly computed graph against a previously
//!   persisted one ([`resolve::Resolve::merge_from`]), and
//! * the artifact-dependency environment projection
//!   ([`artifact::set_env`]), which computes the environment variables a
//!   consuming build step receives for every pre-built artifact output.
//!
//! Constraint solving, manifest parsing, networking and process spawning are
//! external collaborators: they hand this crate plain values and take plain
//! values back.

pub mod alist;
pub mod artifact;
pub mod graph;
pub mod metadata;
pub mod names;
pub mod order;
pub mod resolve;
pub mod types;
