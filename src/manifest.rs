//! The project manifest: project settings and declared dependencies.
use vstd::prelude::*;

verus! {

/// The `[project]` table.
#[derive(Debug)]
pub struct ProjectConfig {
    pub name: String,
    pub version: String,
    pub main_class: Option<String>,
    pub java_version: Option<String>,
}

/// A declared dependency: a bare version, or a version with details.
#[derive(Debug)]
pub enum DepSpec {
    Simple(String),
    Detailed { version: String, scope: Option<String>, optional: bool },
}

pub open spec fn dep_version(d: DepSpec) -> Seq<char> {
    match d {
        DepSpec::Simple(v) => v@,
        DepSpec::Detailed { version, .. } => version@,
    }
}

impl DepSpec {
    /// The version the dependency asks for.
    pub fn version(&self) -> (r: &String)
        ensures
            r@ == dep_version(*self),
    {
        match self {
            DepSpec::Simple(v) => v,
            DepSpec::Detailed { version, .. } => version,
        }
    }
}

/// A whole manifest; `deps` maps a coordinate `namespace:name` to its spec.
#[derive(Debug)]
pub struct Manifest {
    pub project: ProjectConfig,
    pub deps: Vec<(String, DepSpec)>,
}

} // verus!
