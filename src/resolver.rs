//! Breadth-first dependency resolution with nearest-wins version choice, the
//! resolved dependency graph, its reverse view, and removal from a lockfile.
use vstd::prelude::*;
use crate::coordinates::{Coordinate, CoordModel, coord_key, unversioned};
use crate::lockfile::Lockfile;
use crate::prune::{
    DependencyPruner, after_removal, is_walk, lemma_reaches_trans, reach_set, reaches,
    removable_after, retained_by_others, text_set,
};
use crate::repository::Repository;
use crate::table::CoordTable;
use crate::text::same_text;
use crate::version::{
    MavenVersion, ReqModel, VersionModel, VersionParseError, VersionReq, VersionReqError,
    opt_text, parse_req, parse_version, req_matches,
};

verus! {

/// One dependency that a metadata document asks for.
#[derive(Debug)]
pub struct DependencyRequest {
    pub coordinate: Coordinate,
    pub version_req: VersionReq,
    pub scope: Option<String>,
    /// Hops from the root of the resolution.
    pub depth: usize,
}

impl Clone for DependencyRequest {
    fn clone(&self) -> (r: Self)
        ensures
            r.coordinate@ == self.coordinate@,
            r.version_req@ == self.version_req@,
            r.depth == self.depth,
    {
        let scope = match &self.scope {
            Some(s) => Some(s.clone()),
            None => None,
        };
        DependencyRequest {
            coordinate: self.coordinate.clone(),
            version_req: self.version_req.clone(),
            scope,
            depth: self.depth,
        }
    }
}

/// A `<dependency>` element of a metadata document, as read.
#[derive(Debug)]
pub struct PomDependency {
    pub group_id: String,
    pub artifact_id: String,
    pub version: Option<String>,
    pub scope: Option<String>,
}

pub open spec fn is_test_scope(scope: Option<String>) -> bool {
    scope matches Some(s) && s@ == seq!['t', 'e', 's', 't']
}

/// The requirement of one element: its version text parsed, or `LATEST`
/// when it names none.
pub open spec fn pom_req(d: PomDependency) -> Result<ReqModel, VersionReqError> {
    match d.version {
        Some(v) => parse_req(v@),
        None => Ok(ReqModel::Latest),
    }
}

/// The requests that a list of elements yields, in order, with their
/// scopes, test-scoped ones left out; the first requirement that does not parse fails the whole list.
pub open spec fn pom_requests(ds: Seq<PomDependency>) -> Result<Seq<(CoordModel, ReqModel, Option<Seq<char>>)>, VersionReqError>
    decreases ds.len(),
{
    if ds.len() == 0 {
        Ok(Seq::<(CoordModel, ReqModel, Option<Seq<char>>)>::empty())
    } else {
        match pom_requests(ds.drop_last()) {
            Err(e) => Err(e),
            Ok(prev) => {
                let d = ds.last();
                if is_test_scope(d.scope) {
                    Ok(prev)
                } else {
                    match pom_req(d) {
                        Err(e) => Err(e),
                        Ok(r) => Ok(
                            prev.push(
                                (
                                    CoordModel {
                                        namespace: d.group_id@,
                                        name: d.artifact_id@,
                                        version: None,
                                    },
                                    r,
                                    opt_text(d.scope),
                                ),
                            ),
                        ),
                    }
                }
            },
        }
    }
}

impl DependencyRequest {
    /// The requests of a metadata document's elements, each at `depth`.
    pub fn from_pom(deps: &Vec<PomDependency>, depth: usize) -> (r: Result<
        Vec<DependencyRequest>,
        VersionReqError,
    >)
        ensures
            match r {
                Ok(rs) => pom_requests(deps@) matches Ok(want) && rs@.len() == want.len() && (forall|
                    i: int,
                | 0 <= i < rs@.len() ==> (#[trigger] rs@[i]).coordinate@ == want[i].0
                    && rs@[i].version_req@ == want[i].1 && opt_text(rs@[i].scope) == want[i].2
                    && rs@[i].depth == depth),
                Err(e) => pom_requests(deps@) == Err::<
                    Seq<(CoordModel, ReqModel, Option<Seq<char>>)>,
                    VersionReqError,
                >(e),
            },
    {
        let mut out: Vec<DependencyRequest> = Vec::new();
        let mut i: usize = 0;
        while i < deps.len()
            invariant
                i <= deps@.len(),
                pom_requests(deps@.take(i as int)) matches Ok(want) && out@.len() == want.len() && (
                forall|k: int|
                    0 <= k < out@.len() ==> (#[trigger] out@[k]).coordinate@ == want[k].0
                        && out@[k].version_req@ == want[k].1 && opt_text(out@[k].scope) == want[k].2
                        && out@[k].depth == depth),
            decreases deps@.len() - i,
        {
            proof {
                reveal_strlit("test");
            }
            let d = &deps[i];
            assert(deps@.take(i + 1).drop_last() =~= deps@.take(i as int));
            assert(deps@.take(i + 1).last() == *d);
            let is_test = match &d.scope {
                Some(s) => same_text(s.as_str(), "test"),
                None => false,
            };
            assert("test"@ =~= seq!['t', 'e', 's', 't']);
            if !is_test {
                let req = match &d.version {
                    Some(v) => VersionReq::parse(v.as_str()),
                    None => Ok(VersionReq::Latest),
                };
                match req {
                    Ok(req) => {
                        let scope = match &d.scope {
                            Some(s) => Some(s.clone()),
                            None => None,
                        };
                        out.push(
                            DependencyRequest {
                                coordinate: Coordinate {
                                    namespace: d.group_id.clone(),
                                    name: d.artifact_id.clone(),
                                    version: None,
                                },
                                version_req: req,
                                scope,
                                depth,
                            },
                        );
                    },
                    Err(e) => {
                        proof {
                            assert(deps@.take(deps@.len() as int) =~= deps@);
                            lemma_pom_error_sticks(deps@, i as int + 1);
                        }
                        return Err(e);
                    },
                }
            }
            i = i + 1;
        }
        assert(deps@.take(deps@.len() as int) =~= deps@);
        Ok(out)
    }
}

proof fn lemma_pom_error_sticks(ds: Seq<PomDependency>, k: int)
    requires
        0 <= k <= ds.len(),
        pom_requests(ds.take(k)) is Err,
    ensures
        pom_requests(ds) == pom_requests(ds.take(k)),
    decreases ds.len() - k,
{
    if k < ds.len() {
        assert(ds.take(k + 1).drop_last() =~= ds.take(k));
        lemma_pom_error_sticks(ds, k + 1);
    } else {
        assert(ds.take(k) =~= ds);
    }
}

/// The requirements observed for one coordinate, with their depths, in
/// the order they were observed.
#[derive(Debug)]
pub struct Requirements {
    items: Vec<(VersionReq, usize)>,
}

impl View for Requirements {
    type V = Seq<(ReqModel, usize)>;

    closed spec fn view(&self) -> Seq<(ReqModel, usize)> {
        self.items@.map_values(|e: (VersionReq, usize)| (e.0@, e.1))
    }
}

/// The direct dependencies of one coordinate.
#[derive(Debug)]
pub struct EdgeList {
    items: Vec<Coordinate>,
}

impl View for EdgeList {
    type V = Seq<CoordModel>;

    /// The dependencies in the order they were added.
    closed spec fn view(&self) -> Seq<CoordModel> {
        self.items@.map_values(|c: Coordinate| c@)
    }
}

impl EdgeList {
    pub fn len(&self) -> (r: usize)
        ensures
            r == self@.len(),
    {
        self.items.len()
    }

    pub fn at(&self, i: usize) -> (r: &Coordinate)
        requires
            i < self@.len(),
        ensures
            r@ == self@[i as int],
    {
        &self.items[i]
    }
}

/// Among `reqs`, `i` is the first at the smallest depth.
pub open spec fn is_nearest(reqs: Seq<(ReqModel, usize)>, i: int) -> bool {
    &&& 0 <= i < reqs.len()
    &&& forall|j: int| 0 <= j < reqs.len() ==> reqs[i].1 <= (#[trigger] reqs[j]).1
    &&& forall|j: int| 0 <= j < i ==> (#[trigger] reqs[j]).1 > reqs[i].1
}

/// `v` satisfies the nearest of `reqs`; anything satisfies no requirement.
pub open spec fn compatible(reqs: Seq<(ReqModel, usize)>, v: VersionModel) -> bool {
    forall|i: int| #[trigger] is_nearest(reqs, i) ==> req_matches(reqs[i].0, v)
}

proof fn lemma_nearest_unique(reqs: Seq<(ReqModel, usize)>, i: int, j: int)
    requires
        is_nearest(reqs, i),
        is_nearest(reqs, j),
    ensures
        i == j,
{
    assert(reqs[i].1 <= reqs[j].1);
    assert(reqs[j].1 <= reqs[i].1);
}

/// When one requirement is strictly nearer than all others, a compatible
/// version satisfies it, whatever the requirements further away ask.
pub proof fn lemma_nearest_wins(reqs: Seq<(ReqModel, usize)>, i: int, v: VersionModel)
    requires
        0 <= i < reqs.len(),
        forall|j: int| 0 <= j < reqs.len() && j != i ==> reqs[i].1 < (#[trigger] reqs[j]).1,
        compatible(reqs, v),
    ensures
        req_matches(reqs[i].0, v),
{
    assert forall|j: int| 0 <= j < reqs.len() implies reqs[i].1 <= (#[trigger] reqs[j]).1 by {
        if j != i {
            assert(reqs[i].1 < reqs[j].1);
        }
    }
    assert(is_nearest(reqs, i));
}

/// The requirements recorded for `c`, empty when there are none.
pub open spec fn reqs_of(m: Map<CoordModel, Seq<(ReqModel, usize)>>, c: CoordModel) -> Seq<(ReqModel, usize)> {
    if m.contains_key(c) {
        m[c]
    } else {
        Seq::<(ReqModel, usize)>::empty()
    }
}

/// The recorded dependencies of `c`, empty when there are none.
pub open spec fn edges_of(m: Map<CoordModel, Set<CoordModel>>, c: CoordModel) -> Set<CoordModel> {
    if m.contains_key(c) {
        m[c]
    } else {
        Set::<CoordModel>::empty()
    }
}

/// The outcome of a resolution: one version per coordinate, every observed
/// requirement, and the direct dependency edges.
#[derive(Debug)]
pub struct DependencyGraph {
    resolved: CoordTable<MavenVersion>,
    requirements: CoordTable<Requirements>,
    edges: CoordTable<EdgeList>,
}

impl DependencyGraph {
    pub closed spec fn wf(&self) -> bool {
        &&& self.resolved.wf()
        &&& self.requirements.wf()
        &&& self.edges.wf()
        &&& forall|k: CoordModel| #[trigger] self.edges@.contains_key(k) ==> self.edges@[k].no_duplicates()
    }

    /// The chosen version of each coordinate.
    pub closed spec fn resolved_map(&self) -> Map<CoordModel, VersionModel> {
        self.resolved@
    }

    /// The resolved coordinates in the order they were first chosen.
    pub closed spec fn resolved_order(&self) -> Seq<CoordModel> {
        self.resolved.key_order()
    }

    pub closed spec fn requirements_map(&self) -> Map<CoordModel, Seq<(ReqModel, usize)>> {
        self.requirements@
    }

    pub closed spec fn edges_map(&self) -> Map<CoordModel, Set<CoordModel>> {
        self.edges@.map_values(|s: Seq<CoordModel>| s.to_set())
    }

    /// An empty graph.
    pub fn new() -> (r: DependencyGraph)
        ensures
            r.wf(),
            r.resolved_map() == Map::<CoordModel, VersionModel>::empty(),
            r.resolved_order() == Seq::<CoordModel>::empty(),
            r.requirements_map() == Map::<CoordModel, Seq<(ReqModel, usize)>>::empty(),
            r.edges_map() == Map::<CoordModel, Set<CoordModel>>::empty(),
    {
        DependencyGraph {
            resolved: CoordTable::new(),
            requirements: CoordTable::new(),
            edges: CoordTable::new(),
        }
    }

    /// Records that `coord` was required as `req` at `depth`.
    pub fn add_requirement(&mut self, coord: &Coordinate, req: VersionReq, depth: usize)
        requires
            old(self).wf(),
        ensures
            final(self).wf(),
            final(self).requirements_map() == old(self).requirements_map().insert(
                coord@,
                reqs_of(old(self).requirements_map(), coord@).push((req@, depth)),
            ),
            final(self).resolved_map() == old(self).resolved_map(),
            final(self).resolved_order() == old(self).resolved_order(),
            final(self).edges_map() == old(self).edges_map(),
    {
        let mut items: Vec<(VersionReq, usize)> = Vec::new();
        match self.requirements.get(coord) {
            Some(existing) => {
                let mut i: usize = 0;
                while i < existing.items.len()
                    invariant
                        i <= existing.items@.len(),
                        items@.len() == i,
                        forall|k: int| 0 <= k < i ==> (#[trigger] items@[k]).0@ == existing.items@[k].0@
                            && items@[k].1 == existing.items@[k].1,
                    decreases existing.items@.len() - i,
                {
                    let e = &existing.items[i];
                    items.push((e.0.clone(), e.1));
                    i = i + 1;
                }
                assert(items@.map_values(|e: (VersionReq, usize)| (e.0@, e.1)) =~= existing@);
            },
            None => {},
        }
        let ghost prior = items@.map_values(|e: (VersionReq, usize)| (e.0@, e.1));
        assert(prior =~= reqs_of(self.requirements_map(), coord@));
        let ghost req_view = req@;
        items.push((req, depth));
        let list = Requirements { items };
        assert(list@ =~= prior.push((req_view, depth)));
        self.requirements.insert(coord.clone(), list);
    }

    /// Records the edge `from -> to`.
    pub fn add_edge(&mut self, from: &Coordinate, to: &Coordinate)
        requires
            old(self).wf(),
        ensures
            final(self).wf(),
            final(self).edges_map() == old(self).edges_map().insert(
                from@,
                edges_of(old(self).edges_map(), from@).insert(to@),
            ),
            final(self).resolved_map() == old(self).resolved_map(),
            final(self).resolved_order() == old(self).resolved_order(),
            final(self).requirements_map() == old(self).requirements_map(),
    {
        let ghost before = *self;
        let mut items: Vec<Coordinate> = Vec::new();
        let mut present = false;
        let ghost mut prior = Seq::<CoordModel>::empty();
        match self.edges.get(from) {
            Some(existing) => {
                let mut i: usize = 0;
                while i < existing.items.len()
                    invariant
                        i <= existing.items@.len(),
                        items@.map_values(|c: Coordinate| c@) =~= existing@.take(i as int),
                        present == existing@.take(i as int).contains(to@),
                    decreases existing.items@.len() - i,
                {
                    let c = &existing.items[i];
                    let ghost was = existing@.take(i as int);
                    assert(existing@.take(i + 1) =~= was.push(c@));
                    assert(was.push(c@).contains(to@) == (was.contains(to@) || c@ == to@)) by {
                        if was.push(c@).contains(to@) {
                            let k = choose|k: int| 0 <= k < was.push(c@).len() && was.push(c@)[k] == to@;
                            if k < was.len() {
                                assert(was[k] == to@);
                            }
                        }
                        if was.contains(to@) {
                            let k = choose|k: int| 0 <= k < was.len() && was[k] == to@;
                            assert(was.push(c@)[k] == to@);
                        }
                        if c@ == to@ {
                            assert(was.push(c@)[was.len() as int] == to@);
                        }
                    }
                    if c.same_as(to) {
                        present = true;
                    }
                    items.push(c.clone());
                    i = i + 1;
                }
                assert(existing@.take(existing@.len() as int) =~= existing@);
                proof {
                    prior = existing@;
                }
            },
            None => {},
        }
        assert(prior.no_duplicates());
        assert(items@.map_values(|c: Coordinate| c@) =~= prior);
        assert(prior.to_set() == edges_of(before.edges_map(), from@));
        if !present {
            items.push(to.clone());
        }
        let list = EdgeList { items };
        proof {
            if !present {
                assert(list@ =~= prior.push(to@));
                assert(prior.push(to@).to_set() =~= prior.to_set().insert(to@)) by {
                    assert forall|x: CoordModel| prior.push(to@).to_set().contains(x) implies prior.to_set().insert(to@).contains(x) by {
                        let k = choose|k: int| 0 <= k < prior.push(to@).len() && prior.push(to@)[k] == x;
                        if k < prior.len() {
                            assert(prior[k] == x);
                        }
                    }
                    assert forall|x: CoordModel| prior.to_set().insert(to@).contains(x) implies prior.push(to@).to_set().contains(x) by {
                        if x == to@ {
                            assert(prior.push(to@)[prior.len() as int] == x);
                        } else {
                            let k = choose|k: int| 0 <= k < prior.len() && prior[k] == x;
                            assert(prior.push(to@)[k] == x);
                        }
                    }
                }
                assert(list@.no_duplicates());
            } else {
                assert(list@ =~= prior);
                assert(prior.to_set().insert(to@) =~= prior.to_set());
            }
        }
        self.edges.insert(from.clone(), list);
        proof {
            assert(self.edges_map() =~= before.edges_map().insert(
                from@,
                edges_of(before.edges_map(), from@).insert(to@),
            ));
        }
    }

    /// Whether `version` satisfies the nearest requirement recorded for `coord`.
    pub fn check_version_compatibility(&self, coord: &Coordinate, version: &MavenVersion) -> (r:
        bool)
        requires
            self.wf(),
        ensures
            r == compatible(reqs_of(self.requirements_map(), coord@), version@),
    {
        match self.requirements.get(coord) {
            None => true,
            Some(list) => {
                let ghost reqs = list@;
                let n = list.items.len();
                if n == 0 {
                    return true;
                }
                let mut best: usize = 0;
                let mut i: usize = 1;
                while i < n
                    invariant
                        n == list.items@.len(),
                        reqs == list@,
                        1 <= i <= n,
                        best < i,
                        forall|j: int| 0 <= j < i ==> reqs[best as int].1 <= (#[trigger] reqs[j]).1,
                        forall|j: int| 0 <= j < best ==> (#[trigger] reqs[j]).1 > reqs[best as int].1,
                    decreases n - i,
                {
                    if list.items[i].1 < list.items[best].1 {
                        best = i;
                    }
                    i = i + 1;
                }
                let r = list.items[best].0.matches(version);
                proof {
                    assert(reqs[best as int].0 == list.items@[best as int].0@);
                    assert(is_nearest(reqs, best as int));
                    if r {
                        assert forall|k: int| #[trigger] is_nearest(reqs, k) implies req_matches(
                            reqs[k].0,
                            version@,
                        ) by {
                            lemma_nearest_unique(reqs, k, best as int);
                        }
                    }
                }
                r
            },
        }
    }

    /// Chooses `version` for `coord`.
    pub fn add_resolution(&mut self, coord: &Coordinate, version: MavenVersion)
        requires
            old(self).wf(),
        ensures
            final(self).wf(),
            final(self).resolved_map() == old(self).resolved_map().insert(coord@, version@),
            old(self).resolved_map().contains_key(coord@) ==> final(self).resolved_order() == old(
                self,
            ).resolved_order(),
            !old(self).resolved_map().contains_key(coord@) ==> final(self).resolved_order() == old(
                self,
            ).resolved_order().push(coord@),
            final(self).requirements_map() == old(self).requirements_map(),
            final(self).edges_map() == old(self).edges_map(),
    {
        self.resolved.insert(coord.clone(), version);
    }

    /// Each resolved coordinate appears once in the resolved order.
    pub proof fn lemma_resolved_distinct(&self)
        requires
            self.wf(),
        ensures
            self.resolved_order().no_duplicates(),
    {
        self.resolved.lemma_key_order();
    }

    /// Number of resolved coordinates.
    pub fn resolved_len(&self) -> (r: usize)
        requires
            self.wf(),
        ensures
            r == self.resolved_order().len(),
    {
        self.resolved.len()
    }

    /// The `i`-th resolved coordinate and its version.
    pub fn resolved_at(&self, i: usize) -> (r: (&Coordinate, &MavenVersion))
        requires
            self.wf(),
            i < self.resolved_order().len(),
        ensures
            r.0@ == self.resolved_order()[i as int],
            r.1@ == self.resolved_map()[r.0@],
    {
        (self.resolved.key_at(i), self.resolved.value_at(i))
    }

    /// The version chosen for `coord`.
    pub fn resolved_version(&self, coord: &Coordinate) -> (r: Option<&MavenVersion>)
        requires
            self.wf(),
        ensures
            r is Some <==> self.resolved_map().contains_key(coord@),
            r matches Some(v) ==> v@ == self.resolved_map()[coord@],
    {
        self.resolved.get(coord)
    }

    /// The direct dependencies recorded for `coord`, each once.
    pub fn dependencies_of(&self, coord: &Coordinate) -> (r: Vec<Coordinate>)
        requires
            self.wf(),
        ensures
            r@.map_values(|c: Coordinate| c@).to_set() == edges_of(self.edges_map(), coord@),
            r@.map_values(|c: Coordinate| c@).no_duplicates(),
    {
        let mut out: Vec<Coordinate> = Vec::new();
        match self.edges.get(coord) {
            None => {
                assert(out@.map_values(|c: Coordinate| c@).to_set() =~= Set::<CoordModel>::empty());
                assert(out@.map_values(|c: Coordinate| c@) =~= Seq::<CoordModel>::empty());
            },
            Some(list) => {
                let mut i: usize = 0;
                while i < list.len()
                    invariant
                        i <= list@.len(),
                        out@.map_values(|c: Coordinate| c@) =~= list@.take(i as int),
                    decreases list@.len() - i,
                {
                    let c = list.at(i);
                    out.push(c.clone());
                    assert(list@.take(i + 1) =~= list@.take(i as int).push(c@));
                    i = i + 1;
                }
                assert(list@.take(list@.len() as int) =~= list@);
            },
        }
        out
    }
}


/// Which artifacts of a node must be downloaded before its metadata is read.
#[derive(Debug, Clone, Copy, PartialEq, Eq, Structural)]
pub struct FetchPlan {
    pub download_jar: bool,
    pub download_metadata: bool,
}

impl FetchPlan {
    /// Reuses what the local store already holds and downloads the rest;
    /// a node whose archive and metadata are both stored needs no download.
    pub fn for_node(has_jar: bool, has_metadata: bool) -> (r: FetchPlan)
        ensures
            r.download_jar == !has_jar,
            r.download_metadata == !has_metadata,
    {
        FetchPlan { download_jar: !has_jar, download_metadata: !has_metadata }
    }
}

/// Why a resolution step failed.
#[derive(Debug)]
pub enum ResolveError {
    /// No candidate satisfies the nearest requirement of the coordinate.
    NoCompatibleVersion { coordinate: Coordinate, requirement: VersionReq },
    /// A registry offered a version string that does not parse.
    InvalidCandidate(VersionParseError),
}

pub open spec fn queue_view(q: Seq<(Coordinate, MavenVersion, usize)>) -> Seq<(CoordModel, VersionModel, usize)> {
    q.map_values(|e: (Coordinate, MavenVersion, usize)| (e.0@, e.1@, e.2))
}

pub open spec fn pair_set(s: Seq<(Coordinate, MavenVersion)>) -> Set<(CoordModel, VersionModel)> {
    s.map_values(|e: (Coordinate, MavenVersion)| (e.0@, e.1@)).to_set()
}

/// The candidates before `k` all parse and none is compatible with `reqs`.
pub open spec fn passed_over(reqs: Seq<(ReqModel, usize)>, cands: Seq<String>, k: int) -> bool {
    forall|j: int|
        0 <= j < k ==> (parse_version((#[trigger] cands[j])@) is Ok && !compatible(
            reqs,
            parse_version(cands[j]@)->Ok_0,
        ))
}

/// The choice among candidates depends on the requirements and the
/// candidates alone: two positions that each hold the first compatible
/// candidate are the same, so a rerun against the same registry answers
/// chooses the same versions.
pub proof fn lemma_selection_deterministic(
    reqs: Seq<(ReqModel, usize)>,
    cands: Seq<String>,
    k1: int,
    k2: int,
)
    requires
        0 <= k1 < cands.len(),
        0 <= k2 < cands.len(),
        passed_over(reqs, cands, k1),
        passed_over(reqs, cands, k2),
        parse_version(cands[k1]@) is Ok,
        parse_version(cands[k2]@) is Ok,
        compatible(reqs, parse_version(cands[k1]@)->Ok_0),
        compatible(reqs, parse_version(cands[k2]@)->Ok_0),
    ensures
        k1 == k2,
{
    if k1 < k2 {
        assert(!compatible(reqs, parse_version(cands[k1]@)->Ok_0));
    } else if k2 < k1 {
        assert(!compatible(reqs, parse_version(cands[k2]@)->Ok_0));
    }
}

/// The node that [`Resolution::next_node`] hands out is determined by the
/// queue and the set of nodes already handed out: it is the first queued
/// entry not handed out before.
pub proof fn lemma_next_node_deterministic(
    pending: Seq<(CoordModel, VersionModel, usize)>,
    seen: Set<(CoordModel, VersionModel)>,
    k1: int,
    k2: int,
)
    requires
        0 <= k1 < pending.len(),
        0 <= k2 < pending.len(),
        !seen.contains((pending[k1].0, pending[k1].1)),
        !seen.contains((pending[k2].0, pending[k2].1)),
        forall|j: int| 0 <= j < k1 ==> seen.contains(((#[trigger] pending[j]).0, pending[j].1)),
        forall|j: int| 0 <= j < k2 ==> seen.contains(((#[trigger] pending[j]).0, pending[j].1)),
    ensures
        k1 == k2,
{
    if k1 < k2 {
        assert(seen.contains((pending[k1].0, pending[k1].1)));
    } else if k2 < k1 {
        assert(seen.contains((pending[k2].0, pending[k2].1)));
    }
}

/// A resolution under way: the breadth-first work queue of
/// `(coordinate, version, depth)`, the entries already processed, and the
/// graph built so far. The caller fetches artifacts and metadata for each
/// node that [`Resolution::next_node`] hands out and reports back.
#[derive(Debug)]
pub struct Resolution {
    root: Coordinate,
    root_version: MavenVersion,
    graph: DependencyGraph,
    queue: Vec<(Coordinate, MavenVersion, usize)>,
    head: usize,
    seen: Vec<(Coordinate, MavenVersion)>,
}

impl Resolution {
    pub closed spec fn wf(&self) -> bool {
        &&& self.head <= self.queue@.len()
        &&& self.graph.wf()
        &&& forall|i: int| 0 <= i < self.graph.resolved_order().len() ==> (#[trigger] self.graph.resolved_order()[i]).version is None
        &&& self.root@.version is None
    }

    /// Queue entries not yet handed out, front first.
    pub closed spec fn pending(&self) -> Seq<(CoordModel, VersionModel, usize)> {
        queue_view(self.queue@.skip(self.head as int))
    }

    /// The `(coordinate, version)` pairs already handed out.
    pub closed spec fn seen_pairs(&self) -> Set<(CoordModel, VersionModel)> {
        pair_set(self.seen@)
    }

    pub closed spec fn graph(&self) -> DependencyGraph {
        self.graph
    }

    pub closed spec fn root(&self) -> CoordModel {
        self.root@
    }

    pub closed spec fn root_version(&self) -> VersionModel {
        self.root_version@
    }

    /// Starts resolving `root` at the version written `version`.
    pub fn start(root: &Coordinate, version: &str) -> (r: Result<Resolution, VersionParseError>)
        ensures
            match r {
                Ok(s) => {
                    &&& s.wf()
                    &&& parse_version(version@) == Ok::<VersionModel, VersionParseError>(s.root_version())
                    &&& s.root() == unversioned(root@)
                    &&& s.pending() == seq![(unversioned(root@), s.root_version(), 0usize)]
                    &&& s.seen_pairs() == Set::<(CoordModel, VersionModel)>::empty()
                    &&& s.graph().resolved_map() == Map::<CoordModel, VersionModel>::empty()
                    &&& s.graph().requirements_map() == Map::<CoordModel, Seq<(ReqModel, usize)>>::empty()
                    &&& s.graph().edges_map() == Map::<CoordModel, Set<CoordModel>>::empty()
                },
                Err(e) => parse_version(version@) == Err::<VersionModel, VersionParseError>(e),
            },
    {
        let v = match MavenVersion::parse(version) {
            Ok(v) => v,
            Err(e) => {
                return Err(e);
            },
        };
        let root = root.unversioned();
        let mut queue: Vec<(Coordinate, MavenVersion, usize)> = Vec::new();
        queue.push((root.clone(), v.clone(), 0));
        let s = Resolution {
            root,
            root_version: v,
            graph: DependencyGraph::new(),
            queue,
            head: 0,
            seen: Vec::new(),
        };
        assert(s.pending() =~= seq![(unversioned(root@), s.root_version(), 0usize)]);
        assert(s.seen_pairs() =~= Set::<(CoordModel, VersionModel)>::empty());
        Ok(s)
    }

    fn was_seen(&self, coord: &Coordinate, version: &MavenVersion) -> (r: bool)
        ensures
            r == self.seen_pairs().contains((coord@, version@)),
    {
        let mut i: usize = 0;
        while i < self.seen.len()
            invariant
                i <= self.seen@.len(),
                forall|j: int| 0 <= j < i ==> (#[trigger] self.seen@[j]).0@ != coord@ || self.seen@[j].1@ != version@,
            decreases self.seen@.len() - i,
        {
            if self.seen[i].0.same_as(coord) && self.seen[i].1.same_as(version) {
                assert(self.seen@.map_values(|e: (Coordinate, MavenVersion)| (e.0@, e.1@))[i as int]
                    == (coord@, version@));
                return true;
            }
            i = i + 1;
        }
        proof {
            let m = self.seen@.map_values(|e: (Coordinate, MavenVersion)| (e.0@, e.1@));
            if m.to_set().contains((coord@, version@)) {
                let j = choose|j: int| 0 <= j < m.len() && m[j] == (coord@, version@);
                assert(self.seen@[j].0@ == coord@);
            }
        }
        false
    }

    /// Hands out the next queue entry whose `(coordinate, version)` was not
    /// handed out before, skipping those that were; `None` once the queue
    /// is drained.
    pub fn next_node(&mut self) -> (r: Option<(Coordinate, MavenVersion, usize)>)
        requires
            old(self).wf(),
        ensures
            final(self).wf(),
            final(self).graph() == old(self).graph(),
            final(self).root() == old(self).root(),
            final(self).root_version() == old(self).root_version(),
            r is None ==> {
                &&& final(self).pending().len() == 0
                &&& final(self).seen_pairs() == old(self).seen_pairs()
                &&& forall|j: int| 0 <= j < old(self).pending().len() ==> old(self).seen_pairs().contains(
                    ((#[trigger] old(self).pending()[j]).0, old(self).pending()[j].1),
                )
            },
            r matches Some(n) ==> exists|k: int| {
                &&& 0 <= k < old(self).pending().len()
                &&& old(self).pending()[k] == (n.0@, n.1@, n.2)
                &&& final(self).pending() == old(self).pending().skip(k + 1)
                &&& !old(self).seen_pairs().contains((n.0@, n.1@))
                &&& forall|j: int| 0 <= j < k ==> old(self).seen_pairs().contains(
                    ((#[trigger] old(self).pending()[j]).0, old(self).pending()[j].1),
                )
                &&& final(self).seen_pairs() == old(self).seen_pairs().insert((n.0@, n.1@))
            },
    {
        let ghost start = self.head as int;
        let ghost p0 = self.pending();
        while self.head < self.queue.len()
            invariant
                start <= self.head <= self.queue@.len(),
                self.graph.wf(),
                forall|i: int| 0 <= i < self.graph.resolved_order().len() ==> (#[trigger] self.graph.resolved_order()[i]).version is None,
                self.root@.version is None,
                self.graph == old(self).graph,
                self.queue == old(self).queue,
                self.seen == old(self).seen,
                self.root == old(self).root,
                self.root_version == old(self).root_version,
                start == old(self).head,
                p0 == old(self).pending(),
                forall|j: int| 0 <= j < self.head - start ==> old(self).seen_pairs().contains(
                    ((#[trigger] p0[j]).0, p0[j].1),
                ),
            decreases self.queue@.len() - self.head,
        {
            let i = self.head;
            self.head = self.head + 1;
            assert(p0[i - start] == (self.queue@[i as int].0@, self.queue@[i as int].1@, self.queue@[i as int].2));
            if !self.was_seen(&self.queue[i].0, &self.queue[i].1) {
                let c = self.queue[i].0.clone();
                let v = self.queue[i].1.clone();
                let d = self.queue[i].2;
                let ghost before_seen = self.seen@;
                self.seen.push((c.clone(), v.clone()));
                proof {
                    let m0 = before_seen.map_values(|e: (Coordinate, MavenVersion)| (e.0@, e.1@));
                    let m1 = self.seen@.map_values(|e: (Coordinate, MavenVersion)| (e.0@, e.1@));
                    assert(m1 =~= m0.push((c@, v@)));
                    assert(m1.to_set() =~= m0.to_set().insert((c@, v@))) by {
                        assert forall|x| m1.to_set().contains(x) implies m0.to_set().insert((c@, v@)).contains(x) by {
                            let k = choose|k: int| 0 <= k < m1.len() && m1[k] == x;
                            if k < m0.len() {
                                assert(m0[k] == x);
                            }
                        }
                        assert forall|x| m0.to_set().insert((c@, v@)).contains(x) implies m1.to_set().contains(x) by {
                            if x == (c@, v@) {
                                assert(m1[m0.len() as int] == x);
                            } else {
                                let k = choose|k: int| 0 <= k < m0.len() && m0[k] == x;
                                assert(m1[k] == x);
                            }
                        }
                    }
                    assert(self.pending() =~= p0.skip(i - start + 1));
                }
                return Some((c, v, d));
            }
        }
        assert(self.pending() =~= Seq::<(CoordModel, VersionModel, usize)>::empty());
        None
    }

    /// Records what a node's metadata asked for: the requirement of `child`
    /// at its depth, and the edge `parent -> child`.
    pub fn record_child(&mut self, parent: &Coordinate, child: &DependencyRequest)
        requires
            old(self).wf(),
        ensures
            final(self).wf(),
            final(self).graph().requirements_map() == old(self).graph().requirements_map().insert(
                unversioned(child.coordinate@),
                reqs_of(old(self).graph().requirements_map(), unversioned(child.coordinate@)).push(
                    (child.version_req@, child.depth),
                ),
            ),
            final(self).graph().edges_map() == old(self).graph().edges_map().insert(
                parent@,
                edges_of(old(self).graph().edges_map(), parent@).insert(unversioned(child.coordinate@)),
            ),
            final(self).graph().resolved_map() == old(self).graph().resolved_map(),
            final(self).graph().resolved_order() == old(self).graph().resolved_order(),
            final(self).pending() == old(self).pending(),
            final(self).seen_pairs() == old(self).seen_pairs(),
            final(self).root() == old(self).root(),
            final(self).root_version() == old(self).root_version(),
    {
        let target = child.coordinate.unversioned();
        self.graph.add_requirement(&target, child.version_req.clone(), child.depth);
        self.graph.add_edge(parent, &target);
    }

    /// Chooses a version for `child` among `candidates` (newest first): the
    /// first that satisfies the nearest requirement recorded for it. The
    /// choice is recorded and queued at the child's depth.
    pub fn select_version(&mut self, child: &DependencyRequest, candidates: &Vec<String>) -> (r:
        Result<MavenVersion, ResolveError>)
        requires
            old(self).wf(),
        ensures
            final(self).wf(),
            final(self).graph().requirements_map() == old(self).graph().requirements_map(),
            final(self).graph().edges_map() == old(self).graph().edges_map(),
            final(self).seen_pairs() == old(self).seen_pairs(),
            final(self).root() == old(self).root(),
            final(self).root_version() == old(self).root_version(),
            r matches Ok(v) ==> {
                &&& exists|k: int|
                    0 <= k < candidates@.len() && passed_over(
                        reqs_of(old(self).graph().requirements_map(), unversioned(child.coordinate@)),
                        candidates@,
                        k,
                    ) && parse_version(candidates@[k]@) == Ok::<VersionModel, VersionParseError>(v@)
                &&& compatible(reqs_of(old(self).graph().requirements_map(), unversioned(child.coordinate@)), v@)
                &&& final(self).graph().resolved_map() == old(self).graph().resolved_map().insert(
                    unversioned(child.coordinate@),
                    v@,
                )
                &&& old(self).graph().resolved_map().contains_key(unversioned(child.coordinate@))
                    ==> final(self).graph().resolved_order() == old(self).graph().resolved_order()
                &&& !old(self).graph().resolved_map().contains_key(unversioned(child.coordinate@))
                    ==> final(self).graph().resolved_order() == old(self).graph().resolved_order().push(unversioned(child.coordinate@))
                &&& final(self).pending() == old(self).pending().push(
                    (unversioned(child.coordinate@), v@, child.depth),
                )
            },
            r matches Err(ResolveError::NoCompatibleVersion { coordinate, requirement }) ==> {
                &&& passed_over(
                    reqs_of(old(self).graph().requirements_map(), unversioned(child.coordinate@)),
                    candidates@,
                    candidates@.len() as int,
                )
                &&& coordinate@ == child.coordinate@
                &&& requirement@ == child.version_req@
                &&& *final(self) == *old(self)
            },
            r matches Err(ResolveError::InvalidCandidate(e)) ==> {
                &&& exists|k: int|
                    0 <= k < candidates@.len() && passed_over(
                        reqs_of(old(self).graph().requirements_map(), unversioned(child.coordinate@)),
                        candidates@,
                        k,
                    ) && parse_version(candidates@[k]@) == Err::<VersionModel, VersionParseError>(e)
                &&& *final(self) == *old(self)
            },
    {
        let ghost reqs = reqs_of(self.graph.requirements_map(), unversioned(child.coordinate@));
        let target = child.coordinate.unversioned();
        let mut i: usize = 0;
        while i < candidates.len()
            invariant
                self.wf(),
                *self == *old(self),
                target@ == unversioned(child.coordinate@),
                reqs == reqs_of(self.graph.requirements_map(), unversioned(child.coordinate@)),
                i <= candidates@.len(),
                passed_over(reqs, candidates@, i as int),
            decreases candidates@.len() - i,
        {
            let v = match MavenVersion::parse(candidates[i].as_str()) {
                Ok(v) => v,
                Err(e) => {
                    assert(parse_version(candidates@[i as int]@) == Err::<VersionModel, VersionParseError>(e));
                    assert(passed_over(reqs, candidates@, i as int));
                    assert(reqs == reqs_of(old(self).graph().requirements_map(), unversioned(child.coordinate@)));
                    assert(exists|k: int|
                        0 <= k < candidates@.len() && passed_over(
                            reqs_of(old(self).graph().requirements_map(), unversioned(child.coordinate@)),
                            candidates@,
                            k,
                        ) && parse_version(candidates@[k]@) == Err::<VersionModel, VersionParseError>(e));
                    return Err(ResolveError::InvalidCandidate(e));
                },
            };
            if self.graph.check_version_compatibility(&target, &v) {
                let chosen = v.clone();
                self.graph.add_resolution(&target, v.clone());
                let ghost before = self.queue@;
                self.queue.push((target, v, child.depth));
                assert(queue_view(self.queue@.skip(self.head as int)) =~= queue_view(
                    before.skip(self.head as int),
                ).push((unversioned(child.coordinate@), chosen@, child.depth)));
                return Ok(chosen);
            }
            i = i + 1;
        }
        Err(
            ResolveError::NoCompatibleVersion {
                coordinate: child.coordinate.clone(),
                requirement: child.version_req.clone(),
            },
        )
    }

    /// Ends the resolution: the root is recorded at its requested version.
    pub fn finish(self) -> (r: DependencyGraph)
        requires
            self.wf(),
        ensures
            r.wf(),
            r.resolved_map() == self.graph().resolved_map().insert(self.root(), self.root_version()),
            r.requirements_map() == self.graph().requirements_map(),
            r.edges_map() == self.graph().edges_map(),
            forall|i: int| 0 <= i < r.resolved_order().len() ==> (#[trigger] r.resolved_order()[i]).version is None,
    {
        let mut g = self.graph;
        g.add_resolution(&self.root, self.root_version);
        g
    }
}

/// Resolves dependencies into a local store and removes them from a lockfile.
#[derive(Debug)]
pub struct DependencyResolver {
    repo: Repository,
}

impl DependencyResolver {
    pub closed spec fn store_root(&self) -> Seq<char> {
        self.repo.root_text()
    }

    pub fn new(repo: Repository) -> (r: DependencyResolver)
        ensures
            r.store_root() == repo.root_text(),
    {
        DependencyResolver { repo }
    }

    /// The local store that resolved artifacts go to.
    pub fn repository(&self) -> (r: &Repository)
        ensures
            r.root_text() == self.store_root(),
    {
        &self.repo
    }

    /// Starts resolving `root` at the version written `version`.
    pub fn start(&self, root: &Coordinate, version: &str) -> (r: Result<Resolution, VersionParseError>)
        ensures
            match r {
                Ok(s) => {
                    &&& s.wf()
                    &&& parse_version(version@) == Ok::<VersionModel, VersionParseError>(s.root_version())
                    &&& s.root() == unversioned(root@)
                    &&& s.pending() == seq![(unversioned(root@), s.root_version(), 0usize)]
                    &&& s.seen_pairs() == Set::<(CoordModel, VersionModel)>::empty()
                    &&& s.graph().resolved_map() == Map::<CoordModel, VersionModel>::empty()
                    &&& s.graph().requirements_map() == Map::<CoordModel, Seq<(ReqModel, usize)>>::empty()
                    &&& s.graph().edges_map() == Map::<CoordModel, Set<CoordModel>>::empty()
                },
                Err(e) => parse_version(version@) == Err::<VersionModel, VersionParseError>(e),
            },
    {
        Resolution::start(root, version)
    }

    /// Removes `coord` from `lockfile` together with every package reachable
    /// only through it: a package stays when a recorded package that `coord`
    /// does not reach depends on it, directly or transitively.
    ///
    /// The lockfile does not record which packages were added on their own,
    /// so a package that `coord` reaches goes with it even when it was added
    /// by itself too: after adding A (which depends on B) and then B, the
    /// lockfile `{A: [B], B: []}` loses both when A is removed, just as an
    /// exclusive subtree must. What a package still present reaches stays
    /// (see `lemma_remove_keeps_shared`).
    pub fn remove(&self, coord: Coordinate, lockfile: &mut Lockfile)
        requires
            old(lockfile).wf(),
        ensures
            final(lockfile).wf(),
            final(lockfile)@ == after_removal(old(lockfile)@, coord_key(coord@)),
            final(lockfile).format() == old(lockfile).format(),
    {
        let key = coord.key();
        let ghost lf0 = lockfile@;
        let mut pruner = DependencyPruner::new();
        pruner.mark_tree_key(key.as_str(), lockfile, true);
        let keys = lockfile.keys();
        let mut i: usize = 0;
        while i < keys.len()
            invariant
                lockfile.wf(),
                lockfile@ == lf0,
                i <= keys@.len(),
                forall|k: Seq<char>| lf0.contains_key(k) <==> exists|j: int|
                    0 <= j < keys@.len() && #[trigger] keys@[j]@ == k,
                pruner.removed_marks() == reach_set(lf0, key@),
                pruner.retained_marks() == Set::new(|v: Seq<char>| exists|j: int|
                    0 <= j < i && !reaches(lf0, key@, (#[trigger] keys@[j])@) && reaches(lf0, keys@[j]@, v)),
            decreases keys@.len() - i,
        {
            let ghost before = pruner.retained_marks();
            if !pruner.is_marked_removed(keys[i].as_str()) {
                pruner.mark_tree_key(keys[i].as_str(), lockfile, false);
            }
            assert(pruner.retained_marks() =~= Set::new(|v: Seq<char>| exists|j: int|
                0 <= j < i + 1 && !reaches(lf0, key@, (#[trigger] keys@[j])@) && reaches(lf0, keys@[j]@, v))) by {
                assert forall|v: Seq<char>| pruner.retained_marks().contains(v) implies exists|j: int|
                    0 <= j < i + 1 && !reaches(lf0, key@, (#[trigger] keys@[j])@) && reaches(lf0, keys@[j]@, v) by {
                    if !before.contains(v) {
                        assert(!reaches(lf0, key@, keys@[i as int]@) && reaches(lf0, keys@[i as int]@, v));
                    }
                }
            }
            i = i + 1;
        }
        let removable = pruner.get_removable();
        proof {
            assert(text_set(removable@) =~= removable_after(lf0, key@)) by {
                assert forall|v: Seq<char>| text_set(removable@).contains(v) == removable_after(lf0, key@).contains(v) by {
                    if retained_by_others(lf0, key@, v) {
                        let c = choose|c: Seq<char>| lf0.contains_key(c) && !reaches(lf0, key@, c) && #[trigger] reaches(lf0, c, v);
                        let j = choose|j: int| 0 <= j < keys@.len() && #[trigger] keys@[j]@ == c;
                        assert(pruner.retained_marks().contains(v));
                    }
                    if pruner.retained_marks().contains(v) {
                        let j = choose|j: int| 0 <= j < keys@.len() && !reaches(lf0, key@, (#[trigger] keys@[j])@) && reaches(lf0, keys@[j]@, v);
                        assert(lf0.contains_key(keys@[j]@));
                        assert(retained_by_others(lf0, key@, v));
                    }
                }
            }
        }
        lockfile.remove(key.as_str());
        let mut r: usize = 0;
        while r < removable.len()
            invariant
                lockfile.wf(),
                lockfile.format() == old(lockfile).format(),
                lf0 == old(lockfile)@,
                text_set(removable@) == removable_after(lf0, key@),
                r <= removable@.len(),
                lockfile@ == lf0.remove_keys(text_set(removable@.take(r as int)).insert(key@)),
            decreases removable@.len() - r,
        {
            let ghost prev = text_set(removable@.take(r as int));
            lockfile.remove(removable[r].as_str());
            proof {
                assert(removable@.take(r + 1) =~= removable@.take(r as int).push(removable@[r as int]));
                assert(text_set(removable@.take(r + 1)) =~= prev.insert(removable@[r as int]@)) by {
                    let a = removable@.take(r as int);
                    let x = removable@[r as int];
                    assert(crate::lockfile::texts(a.push(x)) =~= crate::lockfile::texts(a).push(x@));
                    assert forall|k: Seq<char>| text_set(a.push(x)).contains(k) == prev.insert(x@).contains(k) by {
                        let ta = crate::lockfile::texts(a);
                        let tb = crate::lockfile::texts(a.push(x));
                        if tb.contains(k) {
                            let q = choose|q: int| 0 <= q < tb.len() && tb[q] == k;
                            if q < ta.len() {
                                assert(ta[q] == k);
                            }
                        }
                        if ta.contains(k) {
                            let q = choose|q: int| 0 <= q < ta.len() && ta[q] == k;
                            assert(tb[q] == k);
                        }
                        if k == x@ {
                            assert(tb[ta.len() as int] == k);
                        }
                    }
                }
                assert(lockfile@ =~= lf0.remove_keys(text_set(removable@.take(r + 1)).insert(key@)));
            }
            r = r + 1;
        }
        assert(removable@.take(removable@.len() as int) =~= removable@);
        assert(lockfile@ =~= after_removal(lf0, key@));
    }
}

/// After removing `a`, every recorded package reachable from a package that
/// is still recorded is itself still recorded, unless it is `a`.
pub proof fn lemma_remove_keeps_shared(
    lf: Map<Seq<char>, crate::lockfile::PackageModel>,
    a: Seq<char>,
    b: Seq<char>,
    v: Seq<char>,
)
    requires
        after_removal(lf, a).contains_key(b),
        reaches(after_removal(lf, a), b, v),
        lf.contains_key(v),
        v != a,
    ensures
        after_removal(lf, a).contains_key(v),
{
    let rest = after_removal(lf, a);
    let p = choose|p: Seq<Seq<char>>| #[trigger] is_walk(rest, p) && p[0] == b && p.last() == v;
    assert forall|i: int| 0 <= i < p.len() - 1 implies lf.contains_key(#[trigger] p[i]) && lf[p[i]].deps.contains(
        p[i + 1],
    ) by {
        assert(rest.contains_key(p[i]));
    }
    assert(is_walk(lf, p));
    assert(reaches(lf, b, v));
    assert(lf.contains_key(b) && b != a);
    if reaches(lf, a, b) {
        assert(!removable_after(lf, a).contains(b));
        let c = choose|c: Seq<char>| lf.contains_key(c) && !reaches(lf, a, c) && #[trigger] reaches(lf, c, b);
        lemma_reaches_trans(lf, c, b, v);
    }
    assert(retained_by_others(lf, a, v));
}


/// The recorded keys that list `t` among their dependencies.
pub open spec fn dependents_of(lf: Map<Seq<char>, crate::lockfile::PackageModel>, t: Seq<char>) -> Set<Seq<char>> {
    Set::new(|k: Seq<char>| lf.contains_key(k) && lf[k].deps.contains(t))
}

pub open spec fn link_set(v: Seq<(String, String)>) -> Set<(Seq<char>, Seq<char>)> {
    v.map_values(|e: (String, String)| (e.0@, e.1@)).to_set()
}

/// Which recorded packages depend directly on each key.
#[derive(Debug)]
pub struct ReverseDependencyGraph {
    /// `(dependency, dependent)` pairs.
    links: Vec<(String, String)>,
}

impl ReverseDependencyGraph {
    /// The keys that depend directly on `t`.
    pub closed spec fn dependents(&self, t: Seq<char>) -> Set<Seq<char>> {
        Set::new(|k: Seq<char>| link_set(self.links@).contains((t, k)))
    }

    proof fn lemma_push_link(v: Seq<(String, String)>, e: (String, String))
        ensures
            link_set(v.push(e)) == link_set(v).insert((e.0@, e.1@)),
    {
        let a = v.map_values(|e: (String, String)| (e.0@, e.1@));
        let fe = (e.0@, e.1@);
        let b = a.push(fe);
        assert(v.push(e).map_values(|e: (String, String)| (e.0@, e.1@)) =~= b);
        assert forall|x| b.to_set().contains(x) == a.to_set().insert(fe).contains(x) by {
            if b.contains(x) {
                let q = choose|q: int| 0 <= q < b.len() && #[trigger] b[q] == x;
                if q < a.len() {
                    assert(a[q] == x);
                }
            }
            if a.contains(x) {
                let q = choose|q: int| 0 <= q < a.len() && #[trigger] a[q] == x;
                assert(b[q] == x);
            }
            if x == fe {
                assert(b[a.len() as int] == x);
            }
        }
        assert(b.to_set() =~= a.to_set().insert(fe));
    }

    /// The reverse of the dependency lists recorded in `lockfile`.
    pub fn from_lockfile(lockfile: &Lockfile) -> (r: ReverseDependencyGraph)
        requires
            lockfile.wf(),
        ensures
            forall|t: Seq<char>| #[trigger] r.dependents(t) == dependents_of(lockfile@, t),
    {
        let keys = lockfile.keys();
        let ghost lf = lockfile@;
        let mut links: Vec<(String, String)> = Vec::new();
        let mut i: usize = 0;
        while i < keys.len()
            invariant
                lockfile.wf(),
                lf == lockfile@,
                i <= keys@.len(),
                forall|k: Seq<char>| lf.contains_key(k) <==> exists|j: int|
                    0 <= j < keys@.len() && #[trigger] keys@[j]@ == k,
                forall|d: Seq<char>, k: Seq<char>| #[trigger] link_set(links@).contains((d, k)) <==> (
                    exists|j: int| 0 <= j < i && #[trigger] keys@[j]@ == k) && lf.contains_key(k)
                    && lf[k].deps.contains(d),
            decreases keys@.len() - i,
        {
            let k = &keys[i];
            match lockfile.get(k.as_str()) {
                Some(info) => {
                    let mut j: usize = 0;
                    while j < info.deps.len()
                        invariant
                            lf.contains_key(k@),
                            crate::lockfile::texts(info.deps@) == lf[k@].deps,
                            j <= info.deps@.len(),
                            i < keys@.len(),
                            k == keys@[i as int],
                            forall|d: Seq<char>, q: Seq<char>| #[trigger] link_set(links@).contains((d, q)) <==> ((
                                exists|jj: int| 0 <= jj < i && #[trigger] keys@[jj]@ == q) && lf.contains_key(q)
                                && lf[q].deps.contains(d)) || (q == k@ && crate::lockfile::texts(info.deps@).take(j as int).contains(d)),
                        decreases info.deps@.len() - j,
                    {
                        let e = (info.deps[j].clone(), k.clone());
                        proof {
                            Self::lemma_push_link(links@, e);
                            let ds = crate::lockfile::texts(info.deps@);
                            assert(ds.take(j + 1) =~= ds.take(j as int).push(ds[j as int]));
                            assert forall|d: Seq<char>| ds.take(j + 1).contains(d) == (ds.take(j as int).contains(d) || d == ds[j as int]) by {
                                if ds.take(j + 1).contains(d) {
                                    let q = choose|q: int| 0 <= q < j + 1 && #[trigger] ds.take(j + 1)[q] == d;
                                    if q < j {
                                        assert(ds.take(j as int)[q] == d);
                                    }
                                }
                                if ds.take(j as int).contains(d) {
                                    let q = choose|q: int| 0 <= q < j && #[trigger] ds.take(j as int)[q] == d;
                                    assert(ds.take(j + 1)[q] == d);
                                }
                                if d == ds[j as int] {
                                    assert(ds.take(j + 1)[j as int] == d);
                                }
                            }
                        }
                        links.push(e);
                        j = j + 1;
                    }
                    proof {
                        let ds = crate::lockfile::texts(info.deps@);
                        assert(ds.take(ds.len() as int) =~= ds);
                        assert forall|d: Seq<char>, q: Seq<char>| #[trigger] link_set(links@).contains((d, q)) <==> (
                            exists|jj: int| 0 <= jj < i + 1 && #[trigger] keys@[jj]@ == q) && lf.contains_key(q)
                            && lf[q].deps.contains(d) by {
                            if q == k@ {
                                assert(keys@[i as int]@ == q);
                            }
                            if exists|jj: int| 0 <= jj < i + 1 && #[trigger] keys@[jj]@ == q {
                                let jj = choose|jj: int| 0 <= jj < i + 1 && #[trigger] keys@[jj]@ == q;
                                if jj == i {
                                    assert(q == k@);
                                }
                            }
                        }
                    }
                },
                None => {
                    proof {
                        assert(keys@[i as int]@ == k@);
                        assert(lf.contains_key(k@));
                    }
                },
            }
            i = i + 1;
        }
        let r = ReverseDependencyGraph { links };
        proof {
            assert forall|t: Seq<char>| #[trigger] r.dependents(t) == dependents_of(lf, t) by {
                assert forall|k: Seq<char>| r.dependents(t).contains(k) == dependents_of(lf, t).contains(k) by {
                    if lf.contains_key(k) {
                        let jj = choose|jj: int| 0 <= jj < keys@.len() && #[trigger] keys@[jj]@ == k;
                        assert(link_set(links@).contains((t, k)) == lf[k].deps.contains(t));
                    }
                }
                assert(r.dependents(t) =~= dependents_of(lf, t));
            }
        }
        r
    }

    /// Whether any recorded package depends directly on `coord`.
    pub fn has_dependents(&self, coord: &Coordinate) -> (r: bool)
        ensures
            r == (self.dependents(coord_key(coord@)) != Set::<Seq<char>>::empty()),
    {
        let key = coord.key();
        let mut i: usize = 0;
        while i < self.links.len()
            invariant
                i <= self.links@.len(),
                key@ == coord_key(coord@),
                forall|j: int| 0 <= j < i ==> (#[trigger] self.links@[j]).0@ != key@,
            decreases self.links@.len() - i,
        {
            if same_text(self.links[i].0.as_str(), key.as_str()) {
                proof {
                    let m = self.links@.map_values(|e: (String, String)| (e.0@, e.1@));
                    assert(m[i as int] == (key@, self.links@[i as int].1@));
                    assert(self.dependents(key@).contains(self.links@[i as int].1@));
                }
                return true;
            }
            i = i + 1;
        }
        proof {
            let m = self.links@.map_values(|e: (String, String)| (e.0@, e.1@));
            assert forall|k: Seq<char>| !self.dependents(key@).contains(k) by {
                if link_set(self.links@).contains((key@, k)) {
                    let j = choose|j: int| 0 <= j < m.len() && #[trigger] m[j] == (key@, k);
                    assert(self.links@[j].0@ == key@);
                }
            }
            assert(self.dependents(key@) =~= Set::<Seq<char>>::empty());
        }
        false
    }

    /// The keys of the packages that depend directly on `coord`, each once.
    pub fn get_dependents(&self, coord: &Coordinate) -> (r: Vec<String>)
        ensures
            text_set(r@) == self.dependents(coord_key(coord@)),
    {
        let key = coord.key();
        let mut out: Vec<String> = Vec::new();
        let mut i: usize = 0;
        while i < self.links.len()
            invariant
                i <= self.links@.len(),
                key@ == coord_key(coord@),
                text_set(out@) == Set::new(|k: Seq<char>| exists|j: int| 0 <= j < i && (#[trigger] self.links@[j]).0@ == key@ && self.links@[j].1@ == k),
            decreases self.links@.len() - i,
        {
            let ghost prev = text_set(out@);
            if same_text(self.links[i].0.as_str(), key.as_str()) {
                let k = self.links[i].1.clone();
                proof {
                    let v = out@;
                    assert(crate::lockfile::texts(v.push(k)) =~= crate::lockfile::texts(v).push(k@));
                    assert forall|t: Seq<char>| text_set(v.push(k)).contains(t) == prev.insert(k@).contains(t) by {
                        let a = crate::lockfile::texts(v);
                        let b = crate::lockfile::texts(v.push(k));
                        if b.contains(t) {
                            let q = choose|q: int| 0 <= q < b.len() && #[trigger] b[q] == t;
                            if q < a.len() {
                                assert(a[q] == t);
                            }
                        }
                        if a.contains(t) {
                            let q = choose|q: int| 0 <= q < a.len() && #[trigger] a[q] == t;
                            assert(b[q] == t);
                        }
                        if t == k@ {
                            assert(b[a.len() as int] == t);
                        }
                    }
                }
                out.push(k);
            }
            assert(text_set(out@) =~= Set::new(|k: Seq<char>| exists|j: int| 0 <= j < i + 1 && (#[trigger] self.links@[j]).0@ == key@ && self.links@[j].1@ == k)) by {
                assert forall|t: Seq<char>| text_set(out@).contains(t) implies exists|j: int| 0 <= j < i + 1 && (#[trigger] self.links@[j]).0@ == key@ && self.links@[j].1@ == t by {
                    if !prev.contains(t) {
                        assert(self.links@[i as int].0@ == key@ && self.links@[i as int].1@ == t);
                    }
                }
            }
            i = i + 1;
        }
        proof {
            let m = self.links@.map_values(|e: (String, String)| (e.0@, e.1@));
            assert forall|t: Seq<char>| text_set(out@).contains(t) == self.dependents(key@).contains(t) by {
                if self.dependents(key@).contains(t) {
                    let j = choose|j: int| 0 <= j < m.len() && #[trigger] m[j] == (key@, t);
                    assert(self.links@[j].0@ == key@ && self.links@[j].1@ == t);
                }
                if text_set(out@).contains(t) {
                    let j = choose|j: int| 0 <= j < self.links@.len() && (#[trigger] self.links@[j]).0@ == key@ && self.links@[j].1@ == t;
                    assert(m[j] == (key@, t));
                }
            }
            assert(text_set(out@) =~= self.dependents(key@));
        }
        out
    }
}

} // verus!
