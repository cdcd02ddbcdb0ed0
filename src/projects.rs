//! Project layout: build systems, the project root and its directories.
use vstd::prelude::*;
use crate::lockfile::texts;
use crate::manifest::{Manifest, dep_version};

verus! {

/// The build systems a project directory can use.
#[derive(Debug, Clone, Copy, PartialEq, Eq, Structural)]
pub enum BuildSystemType {
    Maven,
    Gradle,
    Gallade,
}

pub open spec fn build_file_of(t: BuildSystemType) -> Seq<char> {
    match t {
        BuildSystemType::Maven => "pom.xml"@,
        BuildSystemType::Gradle => "build.gradle"@,
        BuildSystemType::Gallade => "gallade.toml"@,
    }
}

/// The file whose presence marks a project of type `t`.
pub fn build_file_name(t: BuildSystemType) -> (r: &'static str)
    ensures
        r@ == build_file_of(t),
{
    match t {
        BuildSystemType::Maven => "pom.xml",
        BuildSystemType::Gradle => "build.gradle",
        BuildSystemType::Gallade => "gallade.toml",
    }
}

/// `name:version` for each declared dependency, in declaration order.
pub open spec fn declared_coordinates(deps: Seq<(String, crate::manifest::DepSpec)>) -> Seq<Seq<char>> {
    deps.map_values(|d: (String, crate::manifest::DepSpec)| d.0@ + seq![':'] + dep_version(d.1))
}

/// The dependencies a manifest declares, as `name:version` coordinates.
pub fn dependency_coordinates(manifest: &Manifest) -> (r: Vec<String>)
    ensures
        texts(r@) == declared_coordinates(manifest.deps@),
{
    proof {
        reveal_strlit(":");
    }
    let mut out: Vec<String> = Vec::new();
    let mut i: usize = 0;
    while i < manifest.deps.len()
        invariant
            i <= manifest.deps@.len(),
            texts(out@) == declared_coordinates(manifest.deps@.take(i as int)),
        decreases manifest.deps@.len() - i,
    {
        proof {
            reveal_strlit(":");
        }
        let (name, spec) = (&manifest.deps[i].0, &manifest.deps[i].1);
        let mut s = name.clone();
        s.append(":");
        s.append(spec.version().as_str());
        assert(":"@ =~= seq![':']);
        assert(s@ =~= manifest.deps@[i as int].0@ + seq![':'] + dep_version(manifest.deps@[i as int].1));
        assert(manifest.deps@.take(i + 1) =~= manifest.deps@.take(i as int).push(manifest.deps@[i as int]));
        let ghost prev = out@;
        let ghost sv = s@;
        out.push(s);
        assert(texts(out@) =~= texts(prev).push(sv));
        assert(declared_coordinates(manifest.deps@.take(i + 1)) =~= declared_coordinates(
            manifest.deps@.take(i as int),
        ).push(sv));
        i = i + 1;
    }
    assert(manifest.deps@.take(manifest.deps@.len() as int) =~= manifest.deps@);
    out
}

/// A project: its root directory and the build system found there.
#[derive(Debug)]
pub struct Project {
    root: String,
    build_system: BuildSystemType,
}

impl Project {
    pub closed spec fn root_text(&self) -> Seq<char> {
        self.root@
    }

    pub closed spec fn kind(&self) -> BuildSystemType {
        self.build_system
    }

    pub fn new(root: String, build_system: BuildSystemType) -> (r: Project)
        ensures
            r.root_text() == root@,
            r.kind() == build_system,
    {
        Project { root, build_system }
    }

    pub fn root(&self) -> (r: &str)
        ensures
            r@ == self.root_text(),
    {
        self.root.as_str()
    }

    pub fn build_system(&self) -> (r: BuildSystemType)
        ensures
            r == self.kind(),
    {
        self.build_system
    }

    /// `<root>/.gallade`.
    pub fn gallade_dir(&self) -> (r: String)
        ensures
            r@ == self.root_text() + "/.gallade"@,
    {
        let mut out = self.root.clone();
        out.append("/.gallade");
        out
    }

    /// `<root>/.gallade/repository`, the local store.
    pub fn repository_dir(&self) -> (r: String)
        ensures
            r@ == self.root_text() + "/.gallade"@ + "/repository"@,
    {
        let mut out = self.gallade_dir();
        out.append("/repository");
        out
    }

    /// `<root>/.gallade/gallade.lock`.
    pub fn lockfile_path(&self) -> (r: String)
        ensures
            r@ == self.root_text() + "/.gallade"@ + "/gallade.lock"@,
    {
        let mut out = self.gallade_dir();
        out.append("/gallade.lock");
        out
    }

    /// The build file of this project's build system.
    pub fn build_file(&self) -> (r: String)
        ensures
            r@ == self.root_text() + "/"@ + build_file_of(self.kind()),
    {
        let mut out = self.root.clone();
        out.append("/");
        out.append(build_file_name(self.build_system));
        out
    }
}

} // verus!
