//! Building a Java class path from the local store, and locating the main class.
use vstd::prelude::*;
use crate::coordinates::Coordinate;
use crate::lockfile::texts;
use crate::repository::{ArtifactKind, Repository, artifact_path_of};
use crate::text::{replace_char, replace_char_text};

verus! {

/// Why no main class could be determined.
#[derive(Debug, Clone, Copy, PartialEq, Eq, Structural)]
pub enum ClasspathError {
    /// The manifest names no main class.
    NoMainClass,
}

/// `<target>/<main class with dots as slashes>.class`.
pub open spec fn class_file_of(target_dir: Seq<char>, main_class: Seq<char>) -> Seq<char> {
    target_dir + seq!['/'] + replace_char(main_class, '.', seq!['/']) + ".class"@
}

/// The main class named by the manifest, with the class file that must
/// exist under `target_dir` for it to run.
pub fn resolve_main_class(target_dir: &str, manifest_main_class: Option<String>) -> (r: Result<
    (String, String),
    ClasspathError,
>)
    ensures
        match manifest_main_class {
            None => r == Err::<(String, String), ClasspathError>(ClasspathError::NoMainClass),
            Some(m) => r matches Ok(p) && p.0@ == m@ && p.1@ == class_file_of(target_dir@, m@),
        },
{
    proof {
        reveal_strlit("/");
    }
    match manifest_main_class {
        None => Err(ClasspathError::NoMainClass),
        Some(m) => {
            assert("/"@ =~= seq!['/']);
            let mut file = String::from_str(target_dir);
            file.append("/");
            file.append(replace_char_text(m.as_str(), '.', "/").as_str());
            file.append(".class");
            assert(file@ =~= class_file_of(target_dir@, m@));
            Ok((m, file))
        },
    }
}

/// `parts` joined with `sep`.
pub open spec fn join_with(parts: Seq<Seq<char>>, sep: Seq<char>) -> Seq<char>
    decreases parts.len(),
{
    if parts.len() == 0 {
        Seq::<char>::empty()
    } else if parts.len() == 1 {
        parts[0]
    } else {
        join_with(parts.drop_last(), sep) + sep + parts.last()
    }
}

/// Class path entries gathered one by one.
#[derive(Debug)]
pub struct ClasspathBuilder {
    repository: Repository,
    paths: Vec<String>,
}

impl ClasspathBuilder {
    /// The entries so far, in order.
    pub closed spec fn entries(&self) -> Seq<Seq<char>> {
        texts(self.paths@)
    }

    pub closed spec fn store_root(&self) -> Seq<char> {
        self.repository.root_text()
    }

    pub fn new(repository: Repository) -> (r: ClasspathBuilder)
        ensures
            r.entries() == Seq::<Seq<char>>::empty(),
            r.store_root() == repository.root_text(),
    {
        let r = ClasspathBuilder { repository, paths: Vec::new() };
        assert(r.entries() =~= Seq::<Seq<char>>::empty());
        r
    }

    /// Adds the stored archive of `coord` at `version`.
    pub fn with_dep(&mut self, coord: &Coordinate, version: &str)
        ensures
            final(self).entries() == old(self).entries().push(
                artifact_path_of(old(self).store_root(), coord@, version@, ArtifactKind::Binary),
            ),
            final(self).store_root() == old(self).store_root(),
    {
        let p = self.repository.get_artifact_path(coord, version, ArtifactKind::Binary);
        self.paths.push(p);
        assert(self.entries() =~= old(self).entries().push(
            artifact_path_of(old(self).store_root(), coord@, version@, ArtifactKind::Binary),
        ));
    }

    /// Adds a directory of classes.
    pub fn with_dir(&mut self, dir: String)
        ensures
            final(self).entries() == old(self).entries().push(dir@),
            final(self).store_root() == old(self).store_root(),
    {
        self.paths.push(dir);
        assert(self.entries() =~= old(self).entries().push(dir@));
    }

    /// Takes later archives from `repo`.
    pub fn with_repo(&mut self, repo: Repository)
        ensures
            final(self).entries() == old(self).entries(),
            final(self).store_root() == repo.root_text(),
    {
        self.repository = repo;
    }

    /// The class path: the entries joined with `:`.
    pub fn build(&self) -> (r: String)
        ensures
            r@ == join_with(self.entries(), ":"@),
    {
        self.build_with(":")
    }

    /// The class path: the entries joined with `sep` (`;` on Windows).
    pub fn build_with(&self, sep: &str) -> (r: String)
        ensures
            r@ == join_with(self.entries(), sep@),
    {
        let mut out = String::new();
        let mut i: usize = 0;
        while i < self.paths.len()
            invariant
                i <= self.paths@.len(),
                out@ == join_with(self.entries().take(i as int), sep@),
            decreases self.paths@.len() - i,
        {
            assert(self.entries().take(i + 1).drop_last() =~= self.entries().take(i as int));
            if i > 0 {
                out.append(sep);
            }
            out.append(self.paths[i].as_str());
            assert(out@ =~= join_with(self.entries().take(i + 1), sep@)) by {
                if i == 0 {
                    assert(self.entries().take(1) =~= seq![self.paths@[0]@]);
                }
            }
            i = i + 1;
        }
        assert(self.entries().take(self.paths@.len() as int) =~= self.entries());
        out
    }
}

} // verus!
