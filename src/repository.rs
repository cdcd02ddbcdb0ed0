//! Layout of the local artifact store: where each artifact of a coordinate
//! and version lives, and which directories a removal may leave empty.
use vstd::prelude::*;
use crate::coordinates::{Coordinate, coord_path};
use crate::text::{split_char, split_on};

verus! {

/// The two artifacts stored per version.
#[derive(Debug, Clone, Copy, PartialEq, Eq, Structural)]
pub enum ArtifactKind {
    /// The primary archive (`.jar`).
    Binary,
    /// The metadata document (`.pom`).
    Metadata,
}

pub open spec fn extension_of(kind: ArtifactKind) -> Seq<char> {
    match kind {
        ArtifactKind::Binary => seq!['j', 'a', 'r'],
        ArtifactKind::Metadata => seq!['p', 'o', 'm'],
    }
}

/// `<root>/<namespace-as-path>/<name>/<version>`.
pub open spec fn version_dir_of(root: Seq<char>, c: crate::coordinates::CoordModel, version: Seq<char>) -> Seq<char> {
    root + seq!['/'] + coord_path(c) + seq!['/'] + version
}

/// `<version dir>/<name>-<version>.<ext>`.
pub open spec fn artifact_path_of(
    root: Seq<char>,
    c: crate::coordinates::CoordModel,
    version: Seq<char>,
    kind: ArtifactKind,
) -> Seq<char> {
    version_dir_of(root, c, version) + seq!['/'] + c.name + seq!['-'] + version + seq!['.']
        + extension_of(kind)
}

/// `segs` joined with `/`.
pub open spec fn join_path(segs: Seq<Seq<char>>) -> Seq<char>
    decreases segs.len(),
{
    if segs.len() <= 1 {
        if segs.len() == 1 {
            segs[0]
        } else {
            Seq::<char>::empty()
        }
    } else {
        join_path(segs.drop_last()) + seq!['/'] + segs.last()
    }
}

/// The directories between a coordinate's versions and the store root,
/// deepest first: `<root>/a/b/c`, `<root>/a/b`, `<root>/a`.
pub open spec fn cleanup_dirs_of(root: Seq<char>, c: crate::coordinates::CoordModel) -> Seq<Seq<char>> {
    let segs = split_on(coord_path(c), '/');
    Seq::new(segs.len(), |i: int| root + seq!['/'] + join_path(segs.take(segs.len() - i)))
}

/// A content-addressed store of artifacts under a root directory.
#[derive(Debug)]
pub struct Repository {
    root: String,
}

impl Repository {
    pub closed spec fn root_text(&self) -> Seq<char> {
        self.root@
    }

    pub fn new(root: String) -> (r: Repository)
        ensures
            r.root_text() == root@,
    {
        Repository { root }
    }

    /// The store root.
    pub fn root(&self) -> (r: &str)
        ensures
            r@ == self.root_text(),
    {
        self.root.as_str()
    }

    /// The directory that holds both artifacts of one version.
    pub fn version_dir(&self, coord: &Coordinate, version: &str) -> (r: String)
        ensures
            r@ == version_dir_of(self.root_text(), coord@, version@),
    {
        proof {
            reveal_strlit("/");
        }
        let mut out = self.root.clone();
        out.append("/");
        out.append(coord.to_path().as_str());
        out.append("/");
        out.append(version);
        assert(out@ =~= version_dir_of(self.root_text(), coord@, version@));
        out
    }

    /// Where the artifact of `kind` for `coord` at `version` is stored.
    pub fn get_artifact_path(&self, coord: &Coordinate, version: &str, kind: ArtifactKind) -> (r:
        String)
        ensures
            r@ == artifact_path_of(self.root_text(), coord@, version@, kind),
    {
        proof {
            reveal_strlit("/");
            reveal_strlit("-");
            reveal_strlit(".");
            reveal_strlit("jar");
            reveal_strlit("pom");
        }
        let mut out = self.version_dir(coord, version);
        out.append("/");
        out.append(coord.name.as_str());
        out.append("-");
        out.append(version);
        out.append(".");
        match kind {
            ArtifactKind::Binary => out.append("jar"),
            ArtifactKind::Metadata => out.append("pom"),
        }
        assert(out@ =~= artifact_path_of(self.root_text(), coord@, version@, kind));
        out
    }

    /// The directories that removing a version of `coord` may leave empty,
    /// deepest first, ending just below the root; a removal deletes them in
    /// this order while they are empty and stops at the first that is not.
    pub fn cleanup_dirs(&self, coord: &Coordinate) -> (r: Vec<String>)
        ensures
            r@.len() == cleanup_dirs_of(self.root_text(), coord@).len(),
            forall|i: int| 0 <= i < r@.len() ==> #[trigger] r@[i]@ == cleanup_dirs_of(
                self.root_text(),
                coord@,
            )[i],
    {
        proof {
            reveal_strlit("/");
        }
        assert("/"@ =~= seq!['/']);
        let path = coord.to_path();
        let segs = split_char(path.as_str(), '/');
        let ghost ss = split_on(coord_path(coord@), '/');
        let mut prefixes: Vec<String> = Vec::new();
        let mut joined = String::new();
        let mut k: usize = 0;
        while k < segs.len()
            invariant
                ss == split_on(coord_path(coord@), '/'),
                segs@.len() == ss.len(),
                forall|j: int| 0 <= j < segs@.len() ==> #[trigger] segs@[j]@ == ss[j],
                k <= segs@.len(),
                prefixes@.len() == k,
                joined@ == join_path(ss.take(k as int)),
                forall|j: int| 0 <= j < k ==> #[trigger] prefixes@[j]@ == self.root_text() + seq!['/']
                    + join_path(ss.take(j + 1)),
            decreases segs@.len() - k,
        {
            proof {
                reveal_strlit("/");
            }
            assert("/"@ =~= seq!['/']);
            assert(ss.take(k + 1).drop_last() =~= ss.take(k as int));
            assert(ss.take(k + 1).last() == ss[k as int]);
            assert(segs@[k as int]@ == ss[k as int]);
            if k > 0 {
                joined.append("/");
            }
            joined.append(segs[k]);
            assert(joined@ =~= join_path(ss.take(k + 1))) by {
                if k == 0 {
                    assert(ss.take(1) =~= seq![ss[0]]);
                    assert(ss.take(0) =~= Seq::<Seq<char>>::empty());
                }
            }
            let mut full = self.root.clone();
            full.append("/");
            full.append(joined.as_str());
            assert(full@ =~= self.root_text() + seq!['/'] + join_path(ss.take(k + 1)));
            prefixes.push(full);
            k = k + 1;
        }
        let mut r: Vec<String> = Vec::new();
        let mut i: usize = prefixes.len();
        while i > 0
            invariant
                ss == split_on(coord_path(coord@), '/'),
                prefixes@.len() == ss.len(),
                forall|j: int| 0 <= j < prefixes@.len() ==> #[trigger] prefixes@[j]@ == self.root_text()
                    + seq!['/'] + join_path(ss.take(j + 1)),
                i <= prefixes@.len(),
                r@.len() == prefixes@.len() - i,
                forall|j: int| 0 <= j < r@.len() ==> #[trigger] r@[j]@ == cleanup_dirs_of(
                    self.root_text(),
                    coord@,
                )[j],
            decreases i,
        {
            i = i - 1;
            let d = prefixes[i].clone();
            r.push(d);
        }
        r
    }
}

} // verus!
