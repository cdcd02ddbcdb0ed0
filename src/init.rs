//! What a new project consists of: its package directory, main class and manifest.
use vstd::prelude::*;
use crate::manifest::{Manifest, ProjectConfig};
use crate::text::{replace_char, replace_char_text};
use crate::version::opt_text;

verus! {

/// The settings of a project to create.
#[derive(Debug)]
pub struct ProjectInitializer {
    group_id: String,
    artifact_id: String,
    version: String,
    java_version: Option<String>,
}

impl ProjectInitializer {
    pub closed spec fn group(&self) -> Seq<char> {
        self.group_id@
    }

    pub closed spec fn artifact(&self) -> Seq<char> {
        self.artifact_id@
    }

    pub closed spec fn java(&self) -> Option<Seq<char>> {
        opt_text(self.java_version)
    }

    pub fn new(
        group_id: String,
        artifact_id: String,
        version: String,
        java_version: Option<String>,
    ) -> (r: ProjectInitializer)
        ensures
            r.group() == group_id@,
            r.artifact() == artifact_id@,
            r.java() == opt_text(java_version),
    {
        ProjectInitializer { group_id, artifact_id, version, java_version }
    }

    /// The artifact id, which names the project directory.
    pub fn artifact_id(&self) -> (r: &str)
        ensures
            r@ == self.artifact(),
    {
        self.artifact_id.as_str()
    }

    /// The group id.
    pub fn group_id(&self) -> (r: &str)
        ensures
            r@ == self.group(),
    {
        self.group_id.as_str()
    }

    /// The source directory of the main package: the group's dots as
    /// slashes, then the artifact.
    pub fn package_path(&self) -> (r: String)
        ensures
            r@ == replace_char(self.group(), '.', "/"@) + "/"@ + self.artifact(),
    {
        let mut out = replace_char_text(self.group_id.as_str(), '.', "/");
        out.append("/");
        out.append(self.artifact_id.as_str());
        out
    }

    /// `<group>.<artifact>.App`.
    pub fn main_class(&self) -> (r: String)
        ensures
            r@ == self.group() + "."@ + self.artifact() + ".App"@,
    {
        let mut out = self.group_id.clone();
        out.append(".");
        out.append(self.artifact_id.as_str());
        out.append(".App");
        out
    }

    /// The manifest of the new project: version `0.1.0`, the main class
    /// above, no dependencies.
    pub fn manifest(&self) -> (r: Manifest)
        ensures
            r.project.name@ == self.artifact(),
            r.project.version@ == "0.1.0"@,
            r.project.main_class matches Some(m) && m@ == self.group() + "."@ + self.artifact()
                + ".App"@,
            opt_text(r.project.java_version) == self.java(),
            r.deps@.len() == 0,
    {
        let java_version = match &self.java_version {
            Some(j) => Some(j.clone()),
            None => None,
        };
        Manifest {
            project: ProjectConfig {
                name: self.artifact_id.clone(),
                version: String::from_str("0.1.0"),
                main_class: Some(self.main_class()),
                java_version,
            },
            deps: Vec::new(),
        }
    }
}

} // verus!
