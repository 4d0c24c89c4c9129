//! The contents of a package's `manifest.toml`.
use vstd::prelude::*;

verus! {

/// A package manifest: the package and the scripts it declares.
#[derive(Debug, Clone)]
pub struct Manifest {
    pub package: PackageMeta,
    pub scripts: Vec<ScriptEntry>,
}

/// The `[package]` table of a manifest.
#[derive(Debug, Clone)]
pub struct PackageMeta {
    pub name: String,
}

/// One `[[script]]` entry: a script id and the path of its source, relative
/// to the package's directory in the manifest and resolved against it once
/// the package is found.
#[derive(Debug, Clone)]
pub struct ScriptEntry {
    pub id: String,
    pub path: String,
}

} // verus!
