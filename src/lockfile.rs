//! The lockfile: the resolved graph with integrity hashes, keyed by
//! `namespace:name`.
use vstd::prelude::*;
use crate::coordinates::{Coordinate, CoordModel, coord_key};
use crate::digest::{integrity_of, integrity_text};
use crate::resolver::{DependencyGraph, edges_of};
use crate::text::{
    compare_text, contains_char, split_on, lemma_split_concat, lemma_split_without_sep, lemma_text_cmp_flip,
    same_text, text_cmp,
};
use crate::version::{MavenVersion, VersionModel, display_version};

verus! {

/// The mathematical value of a [`PackageInfo`].
pub struct PackageModel {
    pub version: Seq<char>,
    pub repository: Seq<char>,
    pub integrity: Seq<char>,
    pub deps: Seq<Seq<char>>,
}

/// What the lockfile records of one coordinate.
#[derive(Debug)]
pub struct PackageInfo {
    pub version: String,
    pub repository: String,
    pub integrity: String,
    /// Keys of the direct dependencies.
    pub deps: Vec<String>,
}

pub open spec fn texts(v: Seq<String>) -> Seq<Seq<char>> {
    v.map_values(|s: String| s@)
}

impl View for PackageInfo {
    type V = PackageModel;

    open spec fn view(&self) -> PackageModel {
        PackageModel {
            version: self.version@,
            repository: self.repository@,
            integrity: self.integrity@,
            deps: texts(self.deps@),
        }
    }
}

/// Copies a list of strings.
pub fn copy_texts(v: &Vec<String>) -> (r: Vec<String>)
    ensures
        texts(r@) == texts(v@),
{
    let mut r: Vec<String> = Vec::new();
    let mut i: usize = 0;
    while i < v.len()
        invariant
            i <= v@.len(),
            texts(r@) == texts(v@.take(i as int)),
        decreases v@.len() - i,
    {
        r.push(v[i].clone());
        assert(texts(v@.take(i + 1)) =~= texts(v@.take(i as int)).push(v@[i as int]@));
        assert(texts(r@) =~= texts(v@.take(i as int)).push(v@[i as int]@));
        i = i + 1;
    }
    assert(v@.take(v@.len() as int) =~= v@);
    r
}

impl PackageInfo {
    pub fn new(version: String, repository: String, integrity: String, deps: Vec<String>) -> (r:
        PackageInfo)
        ensures
            r@ == (PackageModel {
                version: version@,
                repository: repository@,
                integrity: integrity@,
                deps: texts(deps@),
            }),
    {
        PackageInfo { version, repository, integrity, deps }
    }
}

impl Clone for PackageInfo {
    fn clone(&self) -> (r: Self)
        ensures
            r@ == self@,
    {
        PackageInfo {
            version: self.version.clone(),
            repository: self.repository.clone(),
            integrity: self.integrity.clone(),
            deps: copy_texts(&self.deps),
        }
    }
}

/// The format version that this library writes.
pub const LOCKFILE_FORMAT: u32 = 1;

/// The persistent record of resolved packages, one entry per key.
#[derive(Debug)]
pub struct Lockfile {
    format_version: u32,
    entries: Vec<(String, PackageInfo)>,
}

impl View for Lockfile {
    type V = Map<Seq<char>, PackageModel>;

    /// The recorded packages by key.
    closed spec fn view(&self) -> Map<Seq<char>, PackageModel> {
        Map::new(|k: Seq<char>| self.has_key(k), |k: Seq<char>| self.entries@[self.index_of(k)].1@)
    }
}

impl Lockfile {
    /// Keys are pairwise distinct.
    pub closed spec fn wf(&self) -> bool {
        forall|i: int, j: int|
            0 <= i < self.entries@.len() && 0 <= j < self.entries@.len() && i != j
                ==> #[trigger] self.entries@[i].0@ != #[trigger] self.entries@[j].0@
    }

    closed spec fn has_key(&self, k: Seq<char>) -> bool {
        exists|i: int| 0 <= i < self.entries@.len() && #[trigger] self.entries@[i].0@ == k
    }

    closed spec fn index_of(&self, k: Seq<char>) -> int {
        choose|i: int| 0 <= i < self.entries@.len() && #[trigger] self.entries@[i].0@ == k
    }

    pub closed spec fn format(&self) -> u32 {
        self.format_version
    }

    proof fn lemma_entry(&self, i: int)
        requires
            self.wf(),
            0 <= i < self.entries@.len(),
        ensures
            self@.contains_key(self.entries@[i].0@),
            self@[self.entries@[i].0@] == self.entries@[i].1@,
            self.index_of(self.entries@[i].0@) == i,
    {
        let k = self.entries@[i].0@;
        assert(self.has_key(k));
        let j = self.index_of(k);
        assert(self.entries@[j].0@ == k);
    }

    /// An empty lockfile of the current format.
    pub fn new() -> (r: Lockfile)
        ensures
            r.wf(),
            r@ == Map::<Seq<char>, PackageModel>::empty(),
            r.format() == LOCKFILE_FORMAT,
    {
        let r = Lockfile { format_version: LOCKFILE_FORMAT, entries: Vec::new() };
        assert(r@ =~= Map::<Seq<char>, PackageModel>::empty());
        r
    }

    /// A lockfile of the given format holding no packages.
    pub fn with_format(format_version: u32) -> (r: Lockfile)
        ensures
            r.wf(),
            r@ == Map::<Seq<char>, PackageModel>::empty(),
            r.format() == format_version,
    {
        let r = Lockfile { format_version, entries: Vec::new() };
        assert(r@ =~= Map::<Seq<char>, PackageModel>::empty());
        r
    }

    /// The format version.
    pub fn format_version(&self) -> (r: u32)
        ensures
            r == self.format(),
    {
        self.format_version
    }

    /// Number of recorded packages.
    pub fn len(&self) -> (r: usize)
        requires
            self.wf(),
        ensures
            r == self@.dom().len(),
    {
        proof {
            self.lemma_keys_finite();
        }
        self.entries.len()
    }

    proof fn lemma_keys_finite(&self)
        requires
            self.wf(),
        ensures
            self@.dom() == self.entries@.map_values(|e: (String, PackageInfo)| e.0@).to_set(),
            self@.dom().finite(),
            self@.dom().len() == self.entries@.len(),
    {
        let ks = self.entries@.map_values(|e: (String, PackageInfo)| e.0@);
        assert forall|k: Seq<char>| self@.dom().contains(k) <==> ks.to_set().contains(k) by {
            if self.has_key(k) {
                let i = self.index_of(k);
                assert(ks[i] == k);
            }
            if ks.to_set().contains(k) {
                let i = choose|i: int| 0 <= i < ks.len() && ks[i] == k;
                assert(self.entries@[i].0@ == k);
            }
        }
        assert(self@.dom() =~= ks.to_set());
        assert forall|i: int, j: int| 0 <= i < ks.len() && 0 <= j < ks.len() && i != j implies ks[i]
            != ks[j] by {
            assert(self.entries@[i].0@ != self.entries@[j].0@);
        }
        assert(ks.no_duplicates());
        ks.unique_seq_to_set();
    }

    /// A well-formed lockfile records finitely many keys.
    pub proof fn lemma_dom_finite(&self)
        requires
            self.wf(),
        ensures
            self@.dom().finite(),
    {
        self.lemma_keys_finite();
    }

    fn find(&self, key: &str) -> (r: Option<usize>)
        requires
            self.wf(),
        ensures
            r matches Some(i) ==> i < self.entries@.len() && self.entries@[i as int].0@ == key@,
            r is None ==> !self@.contains_key(key@),
    {
        let mut i: usize = 0;
        while i < self.entries.len()
            invariant
                i <= self.entries@.len(),
                forall|j: int| 0 <= j < i ==> #[trigger] self.entries@[j].0@ != key@,
            decreases self.entries@.len() - i,
        {
            if same_text(self.entries[i].0.as_str(), key) {
                return Some(i);
            }
            i = i + 1;
        }
        None
    }

    /// The package recorded under `key`.
    pub fn get(&self, key: &str) -> (r: Option<&PackageInfo>)
        requires
            self.wf(),
        ensures
            r is Some <==> self@.contains_key(key@),
            r matches Some(p) ==> p@ == self@[key@],
    {
        match self.find(key) {
            Some(i) => {
                proof {
                    self.lemma_entry(i as int);
                }
                Some(&self.entries[i].1)
            },
            None => None,
        }
    }

    /// Records `info` under `key`, replacing what was there.
    pub fn insert(&mut self, key: String, info: PackageInfo)
        requires
            old(self).wf(),
        ensures
            final(self).wf(),
            final(self)@ == old(self)@.insert(key@, info@),
            final(self).format() == old(self).format(),
    {
        let ghost before = *self;
        let ghost k = key@;
        let ghost v = info@;
        match self.find(key.as_str()) {
            Some(i) => {
                self.entries.set(i, (key, info));
                proof {
                    assert forall|a: int, b: int|
                        0 <= a < self.entries@.len() && 0 <= b < self.entries@.len() && a != b
                            implies #[trigger] self.entries@[a].0@ != #[trigger] self.entries@[b].0@ by {
                        assert(before.entries@[a].0@ != before.entries@[b].0@);
                    }
                    assert forall|q: Seq<char>| #[trigger] self@.contains_key(q)
                        == before@.insert(k, v).contains_key(q) by {
                        if self.has_key(q) {
                            let j = self.index_of(q);
                            if j != i {
                                assert(before.entries@[j].0@ == q);
                            }
                        }
                        if before.has_key(q) {
                            let j = before.index_of(q);
                            assert(self.entries@[j].0@ == q);
                        }
                        if q == k {
                            assert(self.entries@[i as int].0@ == q);
                        }
                    }
                    assert forall|q: Seq<char>| #[trigger] self@.contains_key(q) implies self@[q]
                        == before@.insert(k, v)[q] by {
                        let j = self.index_of(q);
                        self.lemma_entry(j);
                        if j != i {
                            before.lemma_entry(j);
                        }
                    }
                    assert(self@ =~= before@.insert(k, v));
                }
            },
            None => {
                self.entries.push((key, info));
                proof {
                    let n = before.entries@.len() as int;
                    assert forall|a: int, b: int|
                        0 <= a < self.entries@.len() && 0 <= b < self.entries@.len() && a != b
                            implies #[trigger] self.entries@[a].0@ != #[trigger] self.entries@[b].0@ by {
                        if a < n && b < n {
                            assert(before.entries@[a].0@ != before.entries@[b].0@);
                        } else if a < n {
                            assert(before.has_key(before.entries@[a].0@));
                        } else {
                            assert(before.has_key(before.entries@[b].0@));
                        }
                    }
                    assert forall|q: Seq<char>| #[trigger] self@.contains_key(q)
                        == before@.insert(k, v).contains_key(q) by {
                        if self.has_key(q) {
                            let j = self.index_of(q);
                            if j < n {
                                assert(before.entries@[j].0@ == q);
                            }
                        }
                        if before.has_key(q) {
                            let j = before.index_of(q);
                            assert(self.entries@[j].0@ == q);
                        }
                        if q == k {
                            assert(self.entries@[n].0@ == q);
                        }
                    }
                    assert forall|q: Seq<char>| #[trigger] self@.contains_key(q) implies self@[q]
                        == before@.insert(k, v)[q] by {
                        let j = self.index_of(q);
                        self.lemma_entry(j);
                        if j < n {
                            before.lemma_entry(j);
                        }
                    }
                    assert(self@ =~= before@.insert(k, v));
                }
            },
        }
    }

    /// Drops the entry under `key`, if any.
    pub fn remove(&mut self, key: &str)
        requires
            old(self).wf(),
        ensures
            final(self).wf(),
            final(self)@ == old(self)@.remove(key@),
            final(self).format() == old(self).format(),
    {
        let ghost before = *self;
        match self.find(key) {
            Some(i) => {
                self.entries.remove(i);
                proof {
                    let n = before.entries@.len() as int;
                    assert forall|j: int| 0 <= j < self.entries@.len() implies #[trigger] self.entries@[j]
                        == before.entries@[if j < i {
                        j
                    } else {
                        j + 1
                    }] by {}
                    assert forall|a: int, b: int|
                        0 <= a < self.entries@.len() && 0 <= b < self.entries@.len() && a != b
                            implies #[trigger] self.entries@[a].0@ != #[trigger] self.entries@[b].0@ by {
                        let a0 = if a < i {
                            a
                        } else {
                            a + 1
                        };
                        let b0 = if b < i {
                            b
                        } else {
                            b + 1
                        };
                        assert(self.entries@[a] == before.entries@[a0]);
                        assert(self.entries@[b] == before.entries@[b0]);
                        assert(before.entries@[a0].0@ != before.entries@[b0].0@);
                    }
                    assert forall|q: Seq<char>| #[trigger] self@.contains_key(q)
                        == before@.remove(key@).contains_key(q) by {
                        if self.has_key(q) {
                            let j = self.index_of(q);
                            let j0 = if j < i {
                                j
                            } else {
                                j + 1
                            };
                            assert(self.entries@[j] == before.entries@[j0]);
                            assert(before.entries@[j0].0@ == q);
                            assert(before.entries@[i as int].0@ != before.entries@[j0].0@);
                        }
                        if before.has_key(q) && q != key@ {
                            let j = before.index_of(q);
                            assert(j != i);
                            let j1 = if j < i {
                                j
                            } else {
                                j - 1
                            };
                            assert(self.entries@[j1] == before.entries@[j]);
                            assert(self.entries@[j1].0@ == q);
                        }
                    }
                    assert forall|q: Seq<char>| #[trigger] self@.contains_key(q) implies self@[q]
                        == before@.remove(key@)[q] by {
                        let j = self.index_of(q);
                        self.lemma_entry(j);
                        let j0 = if j < i {
                            j
                        } else {
                            j + 1
                        };
                        assert(self.entries@[j] == before.entries@[j0]);
                        before.lemma_entry(j0);
                    }
                    assert(self@ =~= before@.remove(key@));
                }
            },
            None => {
                assert(self@ =~= before@.remove(key@));
            },
        }
    }

    /// The keys, each once.
    pub fn keys(&self) -> (r: Vec<String>)
        requires
            self.wf(),
        ensures
            r@.len() == self@.dom().len(),
            forall|k: Seq<char>| self@.contains_key(k) <==> exists|i: int|
                0 <= i < r@.len() && #[trigger] r@[i]@ == k,
            forall|i: int, j: int| 0 <= i < r@.len() && 0 <= j < r@.len() && i != j ==> #[trigger] r@[i]@ != #[trigger] r@[j]@,
    {
        proof {
            self.lemma_keys_finite();
        }
        let mut r: Vec<String> = Vec::new();
        let mut i: usize = 0;
        while i < self.entries.len()
            invariant
                self.wf(),
                i <= self.entries@.len(),
                r@.len() == i,
                forall|j: int| 0 <= j < i ==> #[trigger] r@[j]@ == self.entries@[j].0@,
            decreases self.entries@.len() - i,
        {
            r.push(self.entries[i].0.clone());
            i = i + 1;
        }
        proof {
            assert forall|k: Seq<char>| self@.contains_key(k) <==> exists|i: int|
                0 <= i < r@.len() && #[trigger] r@[i]@ == k by {
                if self.has_key(k) {
                    let j = self.index_of(k);
                    assert(r@[j]@ == k);
                }
            }
            assert forall|a: int, b: int| 0 <= a < r@.len() && 0 <= b < r@.len() && a != b implies #[trigger] r@[a]@
                != #[trigger] r@[b]@ by {
                assert(self.entries@[a].0@ != self.entries@[b].0@);
            }
        }
        r
    }
}

/// Each text is ordered at or before the next.
pub open spec fn sorted_texts(s: Seq<Seq<char>>) -> bool {
    forall|i: int| 0 <= i < s.len() - 1 ==> #[trigger] text_cmp(s[i], s[i + 1]) != core::cmp::Ordering::Greater
}

/// Inserts `x` into the sorted list `v`, after every text not above it.
fn insert_sorted(v: &mut Vec<String>, x: String)
    requires
        sorted_texts(texts(old(v)@)),
    ensures
        sorted_texts(texts(final(v)@)),
        texts(final(v)@).to_set() == texts(old(v)@).to_set().insert(x@),
{
    let ghost xs = x@;
    let mut p: usize = 0;
    let mut found = false;
    while p < v.len() && !found
        invariant
            xs == x@,
            v@ == old(v)@,
            p <= v@.len(),
            found ==> p < v@.len() && text_cmp(xs, v@[p as int]@) == core::cmp::Ordering::Less,
            forall|j: int| 0 <= j < p ==> text_cmp(xs, (#[trigger] v@[j])@) != core::cmp::Ordering::Less,
        decreases v@.len() - p + (if found { 0int } else { 1int }),
    {
        if matches!(compare_text(x.as_str(), v[p].as_str()), core::cmp::Ordering::Less) {
            found = true;
        } else {
            p = p + 1;
        }
    }
    let ghost before = texts(v@);
    v.insert(p, x);
    proof {
        let after = texts(v@);
        assert(after =~= before.insert(p as int, xs));
        assert forall|i: int| 0 <= i < after.len() - 1 implies #[trigger] text_cmp(after[i], after[i + 1])
            != core::cmp::Ordering::Greater by {
            if i + 1 < p {
                assert(after[i] == before[i] && after[i + 1] == before[i + 1]);
                assert(text_cmp(before[i], before[i + 1]) != core::cmp::Ordering::Greater);
            } else if i + 1 == p {
                lemma_text_cmp_flip(xs, before[i]);
            } else if i == p {
                if p < before.len() {
                    assert(text_cmp(xs, before[p as int]) == core::cmp::Ordering::Less);
                }
            } else {
                assert(after[i] == before[i - 1] && after[i + 1] == before[i]);
                assert(text_cmp(before[i - 1], before[(i - 1) + 1]) != core::cmp::Ordering::Greater);
            }
        }
        assert forall|t: Seq<char>| after.to_set().contains(t) == before.to_set().insert(xs).contains(t) by {
            if after.contains(t) {
                let k = choose|k: int| 0 <= k < after.len() && after[k] == t;
                if k < p {
                    assert(before[k] == t);
                } else if k > p {
                    assert(before[k - 1] == t);
                }
            }
            if before.contains(t) {
                let k = choose|k: int| 0 <= k < before.len() && before[k] == t;
                if k < p {
                    assert(after[k] == t);
                } else {
                    assert(after[k + 1] == t);
                }
            }
            if t == xs {
                assert(after[p as int] == t);
            }
        }
        assert(after.to_set() =~= before.to_set().insert(xs));
    }
}

/// The keys of the recorded dependencies of `c` in `g`.
pub open spec fn edge_keys(g: DependencyGraph, c: CoordModel) -> Set<Seq<char>> {
    edges_of(g.edges_map(), c).map(|d: CoordModel| coord_key(d))
}

/// The lockfile lacks `c`, or records it at another version than `v`.
pub open spec fn needs_entry_spec(lf: Map<Seq<char>, PackageModel>, c: CoordModel, v: VersionModel) -> bool {
    !(lf.contains_key(coord_key(c)) && lf[coord_key(c)].version == display_version(v))
}

impl Lockfile {
    /// The keys of the direct dependencies of `coord` in `graph`, sorted.
    pub fn get_stringified_edges(graph: &DependencyGraph, coord: &Coordinate) -> (r: Vec<String>)
        requires
            graph.wf(),
        ensures
            sorted_texts(texts(r@)),
            texts(r@).to_set() == edge_keys(*graph, coord@),
    {
        let deps = graph.dependencies_of(coord);
        let ghost dv = deps@.map_values(|c: Coordinate| c@);
        let mut out: Vec<String> = Vec::new();
        let mut i: usize = 0;
        assert(texts(out@).to_set() =~= dv.take(0).to_set().map(|d: CoordModel| coord_key(d)));
        while i < deps.len()
            invariant
                i <= deps@.len(),
                dv == deps@.map_values(|c: Coordinate| c@),
                sorted_texts(texts(out@)),
                texts(out@).to_set() == dv.take(i as int).to_set().map(|d: CoordModel| coord_key(d)),
            decreases deps@.len() - i,
        {
            let k = deps[i].key();
            let ghost prev = texts(out@).to_set();
            insert_sorted(&mut out, k);
            proof {
                let a = dv.take(i as int);
                let c = dv[i as int];
                assert(dv.take(i + 1) =~= a.push(c));
                assert(a.push(c).to_set() =~= a.to_set().insert(c)) by {
                    assert forall|x: CoordModel| a.push(c).to_set().contains(x) implies a.to_set().insert(c).contains(x) by {
                        let q = choose|q: int| 0 <= q < a.push(c).len() && a.push(c)[q] == x;
                        if q < a.len() {
                            assert(a[q] == x);
                        }
                    }
                    assert forall|x: CoordModel| a.to_set().insert(c).contains(x) implies a.push(c).to_set().contains(x) by {
                        if x == c {
                            assert(a.push(c)[a.len() as int] == x);
                        } else {
                            let q = choose|q: int| 0 <= q < a.len() && a[q] == x;
                            assert(a.push(c)[q] == x);
                        }
                    }
                }
                let f = |d: CoordModel| coord_key(d);
                assert forall|y: Seq<char>| a.to_set().insert(c).map(f).contains(y) == a.to_set().map(f).insert(
                    coord_key(c),
                ).contains(y) by {
                    if a.to_set().insert(c).map(f).contains(y) {
                        let z = choose|z: CoordModel| a.to_set().insert(c).contains(z) && f(z) == y;
                        if z != c {
                            assert(a.to_set().contains(z));
                        }
                    }
                    if a.to_set().map(f).contains(y) {
                        let z = choose|z: CoordModel| a.to_set().contains(z) && f(z) == y;
                        assert(a.to_set().insert(c).contains(z));
                    }
                    if y == coord_key(c) {
                        assert(a.to_set().insert(c).contains(c));
                    }
                }
                assert(a.to_set().insert(c).map(f) =~= a.to_set().map(f).insert(coord_key(c)));
            }
            i = i + 1;
        }
        assert(dv.take(deps@.len() as int) =~= dv);
        out
    }

    /// Whether `coord` at `version` is missing from the lockfile.
    pub fn needs_entry(&self, coord: &Coordinate, version: &MavenVersion) -> (r: bool)
        requires
            self.wf(),
        ensures
            r == needs_entry_spec(self@, coord@, version@),
    {
        let key = coord.key();
        match self.get(key.as_str()) {
            Some(p) => !same_text(p.version.as_str(), version.to_string().as_str()),
            None => true,
        }
    }

    /// Records `coord` at `version` from the registry named `origin`, with
    /// the integrity of `jar` and the sorted keys of its dependencies in
    /// `graph`.
    pub fn merge_package(
        &mut self,
        graph: &DependencyGraph,
        coord: &Coordinate,
        version: &MavenVersion,
        jar: &[u8],
        origin: String,
    )
        requires
            old(self).wf(),
            graph.wf(),
        ensures
            final(self).wf(),
            final(self).format() == old(self).format(),
            final(self)@.contains_key(coord_key(coord@)),
            final(self)@.remove(coord_key(coord@)) == old(self)@.remove(coord_key(coord@)),
            final(self)@[coord_key(coord@)].version == display_version(version@),
            final(self)@[coord_key(coord@)].repository == origin@,
            final(self)@[coord_key(coord@)].integrity == integrity_text(jar@),
            sorted_texts(final(self)@[coord_key(coord@)].deps),
            final(self)@[coord_key(coord@)].deps.to_set() == edge_keys(*graph, coord@),
            !needs_entry_spec(final(self)@, coord@, version@),
    {
        let deps = Lockfile::get_stringified_edges(graph, coord);
        let info = PackageInfo::new(version.to_string(), origin, integrity_of(jar), deps);
        let ghost before = self@;
        self.insert(coord.key(), info);
        assert(self@.remove(coord_key(coord@)) =~= before.remove(coord_key(coord@)));
    }
}


/// An artifact fetched for a lockfile entry, with the registry it came from.
#[derive(Debug)]
pub struct FetchedPackage {
    pub jar: Vec<u8>,
    pub origin: String,
}

/// The coordinate at position `i` of the graph's resolved order.
pub open spec fn resolved_coord(g: DependencyGraph, i: int) -> CoordModel {
    g.resolved_order()[i]
}

/// Whether the lockfile lacks the package at position `i` of the graph.
pub open spec fn needs_at(lf: Map<Seq<char>, PackageModel>, g: DependencyGraph, i: int) -> bool {
    needs_entry_spec(lf, resolved_coord(g, i), g.resolved_map()[resolved_coord(g, i)])
}

/// `plan` lists, in increasing order, exactly the positions of the graph
/// whose package the lockfile lacks.
pub open spec fn is_plan(lf: Map<Seq<char>, PackageModel>, g: DependencyGraph, plan: Seq<usize>) -> bool {
    &&& forall|t: int| 0 <= t < plan.len() ==> (#[trigger] plan[t]) < g.resolved_order().len()
    &&& forall|t: int| 0 <= t < plan.len() ==> needs_at(lf, g, #[trigger] plan[t] as int)
    &&& forall|t: int, u: int| 0 <= t < u < plan.len() ==> #[trigger] plan[t] < #[trigger] plan[u]
    &&& forall|i: int| 0 <= i < g.resolved_order().len() && needs_at(lf, g, i) ==> exists|t: int|
        0 <= t < plan.len() && #[trigger] plan[t] == i
}

/// Nothing in the graph is missing from the lockfile.
pub open spec fn settled(lf: Map<Seq<char>, PackageModel>, g: DependencyGraph) -> bool {
    forall|i: int| 0 <= i < g.resolved_order().len() ==> !#[trigger] needs_at(lf, g, i)
}

/// The entry recorded for coordinate `c` at version `v` from `f`.
pub open spec fn entry_matches(p: PackageModel, g: DependencyGraph, c: CoordModel, v: VersionModel, f: FetchedPackage) -> bool {
    &&& p.version == display_version(v)
    &&& p.repository == f.origin@
    &&& p.integrity == integrity_text(f.jar@)
    &&& sorted_texts(p.deps)
    &&& p.deps.to_set() == edge_keys(g, c)
}

/// The key of the `t`-th planned position.
pub open spec fn plan_key(g: DependencyGraph, plan: Seq<usize>, t: int) -> Seq<char> {
    coord_key(resolved_coord(g, plan[t] as int))
}

/// `after` is `before` with an entry recorded for each planned position,
/// a later position winning over an earlier one with the same key.
pub open spec fn merge_result(
    before: Map<Seq<char>, PackageModel>,
    after: Map<Seq<char>, PackageModel>,
    g: DependencyGraph,
    plan: Seq<usize>,
    fetched: Seq<FetchedPackage>,
) -> bool {
    &&& forall|k: Seq<char>|
        (forall|t: int| 0 <= t < plan.len() ==> #[trigger] plan_key(g, plan, t) != k) ==> (
        #[trigger] after.contains_key(k) == before.contains_key(k) && (before.contains_key(k)
            ==> after[k] == before[k]))
    &&& forall|t: int|
        0 <= t < plan.len() && (forall|u: int| t < u < plan.len() ==> #[trigger] plan_key(g, plan, u) != plan_key(g, plan, t))
            ==> after.contains_key(#[trigger] plan_key(g, plan, t)) && entry_matches(
            after[plan_key(g, plan, t)],
            g,
            resolved_coord(g, plan[t] as int),
            g.resolved_map()[resolved_coord(g, plan[t] as int)],
            fetched[t],
        )
}

/// The resolved coordinates have pairwise distinct keys.
pub open spec fn distinct_keys(g: DependencyGraph) -> bool {
    forall|i: int, j: int|
        0 <= i < g.resolved_order().len() && 0 <= j < g.resolved_order().len() && i != j
            ==> coord_key(#[trigger] resolved_coord(g, i)) != coord_key(#[trigger] resolved_coord(g, j))
}

impl Lockfile {
    /// The positions of `graph`'s resolved packages that this lockfile lacks
    /// at their versions, in order; they are what a merge must fetch.
    pub fn pending_merges(&self, graph: &DependencyGraph) -> (r: Vec<usize>)
        requires
            self.wf(),
            graph.wf(),
        ensures
            is_plan(self@, *graph, r@),
    {
        let n = graph.resolved_len();
        let mut out: Vec<usize> = Vec::new();
        let mut i: usize = 0;
        while i < n
            invariant
                self.wf(),
                graph.wf(),
                n == graph.resolved_order().len(),
                i <= n,
                forall|t: int| 0 <= t < out@.len() ==> (#[trigger] out@[t]) < i,
                forall|t: int| 0 <= t < out@.len() ==> needs_at(self@, *graph, #[trigger] out@[t] as int),
                forall|t: int, u: int| 0 <= t < u < out@.len() ==> #[trigger] out@[t] < #[trigger] out@[u],
                forall|j: int| 0 <= j < i && needs_at(self@, *graph, j) ==> exists|t: int|
                    0 <= t < out@.len() && #[trigger] out@[t] == j,
            decreases n - i,
        {
            let (c, v) = graph.resolved_at(i);
            let ghost old_out = out@;
            if self.needs_entry(c, v) {
                out.push(i);
                assert(out@[out@.len() - 1] == i);
            }
            proof {
                assert forall|j: int| 0 <= j < i + 1 && needs_at(self@, *graph, j) implies exists|t: int|
                    0 <= t < out@.len() && #[trigger] out@[t] == j by {
                    if j < i {
                        let t = choose|t: int| 0 <= t < old_out.len() && #[trigger] old_out[t] == j;
                        assert(out@[t] == j);
                    } else {
                        assert(out@[out@.len() - 1] == j);
                    }
                }
            }
            i = i + 1;
        }
        out
    }

    /// Records the packages at the planned positions of `graph`, the `t`-th
    /// with the artifact fetched as `fetched[t]`.
    pub fn merge_graph(&mut self, graph: &DependencyGraph, plan: &Vec<usize>, fetched: &Vec<FetchedPackage>)
        requires
            old(self).wf(),
            graph.wf(),
            plan@.len() == fetched@.len(),
            forall|t: int| 0 <= t < plan@.len() ==> (#[trigger] plan@[t]) < graph.resolved_order().len(),
        ensures
            final(self).wf(),
            final(self).format() == old(self).format(),
            merge_result(old(self)@, final(self)@, *graph, plan@, fetched@),
    {
        let ghost before = self@;
        let mut t: usize = 0;
        while t < plan.len()
            invariant
                self.wf(),
                graph.wf(),
                self.format() == old(self).format(),
                before == old(self)@,
                plan@.len() == fetched@.len(),
                forall|q: int| 0 <= q < plan@.len() ==> (#[trigger] plan@[q]) < graph.resolved_order().len(),
                t <= plan@.len(),
                merge_result(before, self@, *graph, plan@.take(t as int), fetched@.take(t as int)),
            decreases plan@.len() - t,
        {
            let ghost prev = self@;
            let (c, v) = graph.resolved_at(plan[t]);
            self.merge_package(graph, c, v, fetched[t].jar.as_slice(), fetched[t].origin.clone());
            proof {
                let p0 = plan@.take(t as int);
                let f0 = fetched@.take(t as int);
                let p1 = plan@.take(t + 1);
                let f1 = fetched@.take(t + 1);
                let kt = plan_key(*graph, p1, t as int);
                assert(kt == coord_key(c@));
                assert forall|q: int| 0 <= q < t implies plan_key(*graph, p1, q) == plan_key(*graph, p0, q) && f1[q] == f0[q] by {}
                assert forall|k: Seq<char>|
                    (forall|q: int| 0 <= q < p1.len() ==> #[trigger] plan_key(*graph, p1, q) != k) implies (
                    #[trigger] self@.contains_key(k) == before.contains_key(k) && (before.contains_key(k)
                        ==> self@[k] == before[k])) by {
                    assert(k != kt);
                    assert(self@.remove(kt).contains_key(k) == prev.remove(kt).contains_key(k));
                    assert forall|q: int| 0 <= q < p0.len() implies #[trigger] plan_key(*graph, p0, q) != k by {
                        assert(plan_key(*graph, p1, q) != k);
                    }
                    if prev.contains_key(k) {
                        assert(self@.remove(kt)[k] == prev.remove(kt)[k]);
                    }
                }
                assert forall|q: int|
                    0 <= q < p1.len() && (forall|u: int| q < u < p1.len() ==> #[trigger] plan_key(*graph, p1, u) != plan_key(*graph, p1, q))
                        implies self@.contains_key(#[trigger] plan_key(*graph, p1, q)) && entry_matches(
                        self@[plan_key(*graph, p1, q)],
                        *graph,
                        resolved_coord(*graph, p1[q] as int),
                        graph.resolved_map()[resolved_coord(*graph, p1[q] as int)],
                        f1[q],
                    ) by {
                    if q < t {
                        let kq = plan_key(*graph, p1, q);
                        assert(plan_key(*graph, p1, t as int) != kq);
                        assert(kq == plan_key(*graph, p0, q));
                        assert forall|u: int| q < u < p0.len() implies #[trigger] plan_key(*graph, p0, u) != plan_key(*graph, p0, q) by {
                            assert(plan_key(*graph, p1, u) != plan_key(*graph, p1, q));
                        }
                        assert(self@.remove(kt).contains_key(kq) == prev.remove(kt).contains_key(kq));
                        assert(self@.remove(kt)[kq] == prev.remove(kt)[kq]);
                    }
                }
                assert(merge_result(before, self@, *graph, p1, f1));
            }
            t = t + 1;
        }
        assert(plan@.take(plan@.len() as int) =~= plan@);
        assert(fetched@.take(fetched@.len() as int) =~= fetched@);
    }
}

/// Unversioned coordinates whose namespaces hold no `:` have distinct keys:
/// the graph that a resolution finishes with satisfies `distinct_keys` as
/// soon as no resolved namespace holds a `:`.
pub proof fn lemma_unversioned_keys_distinct(g: DependencyGraph)
    requires
        g.wf(),
        forall|i: int| 0 <= i < g.resolved_order().len() ==> (#[trigger] g.resolved_order()[i]).version is None,
        forall|i: int| 0 <= i < g.resolved_order().len() ==> !contains_char((#[trigger] g.resolved_order()[i]).namespace, ':'),
    ensures
        distinct_keys(g),
{
    g.lemma_resolved_distinct();
    assert forall|i: int, j: int|
        0 <= i < g.resolved_order().len() && 0 <= j < g.resolved_order().len() && i != j
            implies coord_key(#[trigger] resolved_coord(g, i)) != coord_key(#[trigger] resolved_coord(g, j)) by {
        let a = g.resolved_order()[i];
        let b = g.resolved_order()[j];
        if coord_key(a) == coord_key(b) {
            lemma_split_without_sep(a.namespace, ':');
            lemma_split_without_sep(b.namespace, ':');
            lemma_split_concat(a.namespace, ':', a.name);
            lemma_split_concat(b.namespace, ':', b.name);
            assert(coord_key(a) =~= a.namespace.push(':') + a.name);
            assert(coord_key(b) =~= b.namespace.push(':') + b.name);
            assert(split_on(coord_key(a), ':')[0] == a.namespace);
            assert(split_on(coord_key(b), ':')[0] == b.namespace);
            assert(a.namespace == b.namespace);
            assert(a.name =~= coord_key(a).skip(a.namespace.len() as int + 1));
            assert(b.name =~= coord_key(b).skip(b.namespace.len() as int + 1));
            assert(a == b);
        }
    }
}

/// Merging the planned packages of a graph whose resolved coordinates have
/// distinct keys leaves nothing to fetch: a second merge plans no download
/// and leaves the lockfile as it is.
pub proof fn lemma_merge_idempotent(
    lf0: Map<Seq<char>, PackageModel>,
    lf1: Map<Seq<char>, PackageModel>,
    g: DependencyGraph,
    plan: Seq<usize>,
    fetched: Seq<FetchedPackage>,
)
    requires
        distinct_keys(g),
        is_plan(lf0, g, plan),
        merge_result(lf0, lf1, g, plan, fetched),
    ensures
        settled(lf1, g),
        is_plan(lf1, g, Seq::<usize>::empty()),
        forall|lf2: Map<Seq<char>, PackageModel>|
            merge_result(lf1, lf2, g, Seq::<usize>::empty(), Seq::<FetchedPackage>::empty()) ==> lf2
                == lf1,
{
    assert forall|i: int| 0 <= i < g.resolved_order().len() implies !#[trigger] needs_at(lf1, g, i) by {
        let k = coord_key(resolved_coord(g, i));
        if needs_at(lf0, g, i) {
            let t = choose|t: int| 0 <= t < plan.len() && #[trigger] plan[t] == i;
            assert forall|u: int| t < u < plan.len() implies #[trigger] plan_key(g, plan, u) != plan_key(g, plan, t) by {
                assert(plan[t] < plan[u]);
                assert(coord_key(resolved_coord(g, plan[u] as int)) != coord_key(resolved_coord(g, plan[t] as int)));
            }
            assert(lf1.contains_key(plan_key(g, plan, t)));
        } else {
            assert forall|t: int| 0 <= t < plan.len() implies #[trigger] plan_key(g, plan, t) != k by {
                if plan[t] as int == i {
                    assert(needs_at(lf0, g, plan[t] as int));
                }
                assert(coord_key(resolved_coord(g, plan[t] as int)) != coord_key(resolved_coord(g, i)));
            }
            assert(lf1.contains_key(k) == lf0.contains_key(k));
        }
    }
    assert forall|lf2: Map<Seq<char>, PackageModel>|
        merge_result(lf1, lf2, g, Seq::<usize>::empty(), Seq::<FetchedPackage>::empty()) implies lf2
            == lf1 by {
        assert forall|k: Seq<char>| #[trigger] lf2.contains_key(k) == lf1.contains_key(k) && (lf1.contains_key(k) ==> lf2[k] == lf1[k]) by {
            assert(forall|t: int| 0 <= t < 0 ==> #[trigger] plan_key(g, Seq::<usize>::empty(), t) != k);
        }
        assert(lf2 =~= lf1);
    }
}

} // verus!
