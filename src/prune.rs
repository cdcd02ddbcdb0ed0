//! Marking what a removal frees: everything reachable from the removed
//! root that no other recorded package reaches.
use vstd::prelude::*;
use crate::coordinates::{Coordinate, coord_key};
use crate::lockfile::{Lockfile, PackageModel, texts};
use crate::text::same_text;

verus! {

/// `p` is a walk along recorded dependencies: each element but the last is
/// a recorded key that lists the next one among its dependencies.
pub open spec fn is_walk(lf: Map<Seq<char>, PackageModel>, p: Seq<Seq<char>>) -> bool {
    &&& p.len() >= 1
    &&& forall|i: int|
        0 <= i < p.len() - 1 ==> lf.contains_key(#[trigger] p[i]) && lf[p[i]].deps.contains(
            p[i + 1],
        )
}

/// `b` is `a` or a transitive dependency of `a`.
pub open spec fn reaches(lf: Map<Seq<char>, PackageModel>, a: Seq<char>, b: Seq<char>) -> bool {
    exists|p: Seq<Seq<char>>| #[trigger] is_walk(lf, p) && p[0] == a && p.last() == b
}

/// Every recorded key in `s` has all its dependencies in `s`.
pub open spec fn closed_under_deps(lf: Map<Seq<char>, PackageModel>, s: Set<Seq<char>>) -> bool {
    forall|v: Seq<char>, i: int|
        s.contains(v) && lf.contains_key(v) && 0 <= i < lf[v].deps.len() ==> s.contains(
            #[trigger] lf[v].deps[i],
        )
}

/// Everything reachable from `a`.
pub open spec fn reach_set(lf: Map<Seq<char>, PackageModel>, a: Seq<char>) -> Set<Seq<char>> {
    Set::new(|v: Seq<char>| reaches(lf, a, v))
}

/// `v` is reachable from a recorded key that `k` does not reach.
pub open spec fn retained_by_others(
    lf: Map<Seq<char>, PackageModel>,
    k: Seq<char>,
    v: Seq<char>,
) -> bool {
    exists|c: Seq<char>| lf.contains_key(c) && !reaches(lf, k, c) && #[trigger] reaches(lf, c, v)
}

/// What removing `k` frees besides `k` itself.
pub open spec fn removable_after(lf: Map<Seq<char>, PackageModel>, k: Seq<char>) -> Set<
    Seq<char>,
> {
    Set::new(|v: Seq<char>| reaches(lf, k, v) && !retained_by_others(lf, k, v))
}

/// The lockfile contents after removing `k`.
pub open spec fn after_removal(lf: Map<Seq<char>, PackageModel>, k: Seq<char>) -> Map<
    Seq<char>,
    PackageModel,
> {
    lf.remove_keys(removable_after(lf, k).insert(k))
}

pub open spec fn text_set(v: Seq<String>) -> Set<Seq<char>> {
    texts(v).to_set()
}

proof fn lemma_closed_contains_walk(
    lf: Map<Seq<char>, PackageModel>,
    s: Set<Seq<char>>,
    p: Seq<Seq<char>>,
    k: int,
)
    requires
        is_walk(lf, p),
        s.contains(p[0]),
        closed_under_deps(lf, s),
        0 <= k < p.len(),
    ensures
        s.contains(p[k]),
    decreases k,
{
    if k > 0 {
        lemma_closed_contains_walk(lf, s, p, k - 1);
        assert(lf.contains_key(p[k - 1]) && lf[p[k - 1]].deps.contains(p[k]));
        let j = choose|j: int| 0 <= j < lf[p[k - 1]].deps.len() && #[trigger] lf[p[k - 1]].deps[j] == p[k];
        assert(s.contains(lf[p[k - 1]].deps[j]));
    }
}

proof fn lemma_step(lf: Map<Seq<char>, PackageModel>, a: Seq<char>, i: int, b: Seq<char>)
    requires
        lf.contains_key(a),
        0 <= i < lf[a].deps.len(),
        reaches(lf, lf[a].deps[i], b),
    ensures
        reaches(lf, a, b),
{
    let p = choose|p: Seq<Seq<char>>| #[trigger] is_walk(lf, p) && p[0] == lf[a].deps[i] && p.last() == b;
    let q = seq![a] + p;
    assert forall|k: int| 0 <= k < q.len() - 1 implies lf.contains_key(#[trigger] q[k]) && lf[q[k]].deps.contains(
        q[k + 1],
    ) by {
        if k == 0 {
            assert(q[1] == p[0]);
            assert(lf[a].deps[i] == p[0]);
        } else {
            assert(q[k] == p[k - 1]);
            assert(q[k + 1] == p[k]);
        }
    }
    assert(is_walk(lf, q));
    assert(q.last() == p.last());
}

/// Reachability is transitive.
pub proof fn lemma_reaches_trans(
    lf: Map<Seq<char>, PackageModel>,
    a: Seq<char>,
    b: Seq<char>,
    c: Seq<char>,
)
    requires
        reaches(lf, a, b),
        reaches(lf, b, c),
    ensures
        reaches(lf, a, c),
{
    let p = choose|p: Seq<Seq<char>>| #[trigger] is_walk(lf, p) && p[0] == a && p.last() == b;
    let q = choose|q: Seq<Seq<char>>| #[trigger] is_walk(lf, q) && q[0] == b && q.last() == c;
    let w = p + q.drop_first();
    assert forall|i: int| 0 <= i < w.len() - 1 implies lf.contains_key(#[trigger] w[i]) && lf[w[i]].deps.contains(
        w[i + 1],
    ) by {
        if i < p.len() - 1 {
            assert(w[i] == p[i] && w[i + 1] == p[i + 1]);
        } else if i == p.len() - 1 {
            assert(w[i] == q[0]);
            assert(w[i + 1] == q[1]);
        } else {
            let k = i - p.len() + 1;
            assert(w[i] == q[k] && w[i + 1] == q[k + 1]);
        }
    }
    assert(is_walk(lf, w));
    if q.len() == 1 {
        assert(w =~= p);
    } else {
        assert(w.last() == q.last());
    }
}

pub proof fn lemma_reaches_self(lf: Map<Seq<char>, PackageModel>, a: Seq<char>)
    ensures
        reaches(lf, a, a),
{
    assert(is_walk(lf, seq![a]));
}

proof fn lemma_texts_push(v: Seq<String>, x: String)
    ensures
        text_set(v.push(x)) == text_set(v).insert(x@),
{
    assert(texts(v.push(x)) =~= texts(v).push(x@));
    assert(text_set(v.push(x)) =~= text_set(v).insert(x@)) by {
        assert forall|k: Seq<char>| text_set(v.push(x)).contains(k) implies text_set(v).insert(
            x@,
        ).contains(k) by {
            let i = choose|i: int| 0 <= i < texts(v.push(x)).len() && texts(v.push(x))[i] == k;
            if i < v.len() {
                assert(texts(v)[i] == k);
            }
        }
        assert forall|k: Seq<char>| text_set(v).insert(x@).contains(k) implies text_set(
            v.push(x),
        ).contains(k) by {
            if k == x@ {
                assert(texts(v.push(x))[v.len() as int] == k);
            } else {
                let i = choose|i: int| 0 <= i < texts(v).len() && texts(v)[i] == k;
                assert(texts(v.push(x))[i] == k);
            }
        }
    }
}

/// Whether `k` is among the strings of `v`.
fn holds_text(v: &Vec<String>, k: &str) -> (r: bool)
    ensures
        r == text_set(v@).contains(k@),
{
    let mut i: usize = 0;
    while i < v.len()
        invariant
            i <= v@.len(),
            forall|j: int| 0 <= j < i ==> v@[j]@ != k@,
        decreases v@.len() - i,
    {
        if same_text(v[i].as_str(), k) {
            assert(texts(v@)[i as int] == k@);
            return true;
        }
        i = i + 1;
    }
    proof {
        if text_set(v@).contains(k@) {
            let j = choose|j: int| 0 <= j < texts(v@).len() && texts(v@)[j] == k@;
            assert(v@[j]@ == k@);
        }
    }
    false
}

/// Two marked sets, one from the removed root and one from every other
/// recorded package, with the visited set of the traversal under way.
#[derive(Debug)]
pub struct DependencyPruner {
    marked_from_removed: Vec<String>,
    marked_from_remaining: Vec<String>,
    visited: Vec<String>,
}

impl DependencyPruner {
    pub closed spec fn removed_marks(&self) -> Set<Seq<char>> {
        text_set(self.marked_from_removed@)
    }

    pub closed spec fn retained_marks(&self) -> Set<Seq<char>> {
        text_set(self.marked_from_remaining@)
    }

    closed spec fn visited_set(&self) -> Set<Seq<char>> {
        text_set(self.visited@)
    }

    /// A pruner with nothing marked.
    pub fn new() -> (r: DependencyPruner)
        ensures
            r.removed_marks() == Set::<Seq<char>>::empty(),
            r.retained_marks() == Set::<Seq<char>>::empty(),
    {
        let r = DependencyPruner {
            marked_from_removed: Vec::new(),
            marked_from_remaining: Vec::new(),
            visited: Vec::new(),
        };
        assert(r.removed_marks() =~= Set::<Seq<char>>::empty());
        assert(r.retained_marks() =~= Set::<Seq<char>>::empty());
        r
    }

    fn mark_key(&mut self, key: &str, lockfile: &Lockfile, for_removed: bool)
        requires
            lockfile.wf(),
            lockfile@.dom().finite(),
        ensures
            old(self).visited_set().subset_of(final(self).visited_set()),
            final(self).visited_set().contains(key@),
            forall|v: Seq<char>|
                #[trigger] final(self).visited_set().contains(v) && !old(self).visited_set().contains(v)
                    ==> reaches(lockfile@, key@, v),
            forall|v: Seq<char>, i: int|
                final(self).visited_set().contains(v) && !old(self).visited_set().contains(v)
                    && lockfile@.contains_key(v) && 0 <= i < lockfile@[v].deps.len()
                    ==> final(self).visited_set().contains(#[trigger] lockfile@[v].deps[i]),
            for_removed ==> final(self).removed_marks() == old(self).removed_marks().union(
                final(self).visited_set().difference(old(self).visited_set()),
            ),
            for_removed ==> final(self).retained_marks() == old(self).retained_marks(),
            !for_removed ==> final(self).retained_marks() == old(self).retained_marks().union(
                final(self).visited_set().difference(old(self).visited_set()),
            ),
            !for_removed ==> final(self).removed_marks() == old(self).removed_marks(),
        decreases lockfile@.dom().difference(old(self).visited_set()).len(),
    {
        if holds_text(&self.visited, key) {
            assert(self.visited_set().difference(self.visited_set()) =~= Set::<Seq<char>>::empty());
            assert(self.removed_marks().union(Set::<Seq<char>>::empty()) =~= self.removed_marks());
            assert(self.retained_marks().union(Set::<Seq<char>>::empty()) =~= self.retained_marks());
            return;
        }
        let ghost entry = *self;
        let ghost measure = lockfile@.dom().difference(entry.visited_set()).len();
        let seen = String::from_str(key);
        proof {
            lemma_texts_push(self.visited@, seen);
        }
        self.visited.push(seen);
        let mark = String::from_str(key);
        if for_removed {
            proof {
                lemma_texts_push(self.marked_from_removed@, mark);
            }
            self.marked_from_removed.push(mark);
        } else {
            proof {
                lemma_texts_push(self.marked_from_remaining@, mark);
            }
            self.marked_from_remaining.push(mark);
        }
        proof {
            lemma_reaches_self(lockfile@, key@);
            assert(self.visited_set().difference(entry.visited_set()) =~= set![key@]);
            assert(entry.removed_marks().union(set![key@]) =~= entry.removed_marks().insert(key@));
            assert(entry.retained_marks().union(set![key@]) =~= entry.retained_marks().insert(key@));
        }
        match lockfile.get(key) {
            Some(info) => {
                let ghost deps = lockfile@[key@].deps;
                let mut j: usize = 0;
                while j < info.deps.len()
                    invariant
                        lockfile.wf(),
                        lockfile@.dom().finite(),
                        lockfile@.contains_key(key@),
                        !entry.visited_set().contains(key@),
                        measure == lockfile@.dom().difference(entry.visited_set()).len(),
                        measure == lockfile@.dom().difference(old(self).visited_set()).len(),
                        deps == lockfile@[key@].deps,
                        texts(info.deps@) == deps,
                        j <= info.deps@.len(),
                        entry.visited_set().insert(key@).subset_of(self.visited_set()),
                        forall|v: Seq<char>|
                            #[trigger] self.visited_set().contains(v) && !entry.visited_set().contains(v)
                                ==> reaches(lockfile@, key@, v),
                        forall|v: Seq<char>, i: int|
                            self.visited_set().contains(v) && !entry.visited_set().contains(v)
                                && v != key@ && lockfile@.contains_key(v) && 0 <= i
                                < lockfile@[v].deps.len() ==> self.visited_set().contains(
                                #[trigger] lockfile@[v].deps[i],
                            ),
                        forall|i: int| 0 <= i < j ==> self.visited_set().contains(#[trigger] deps[i]),
                        for_removed ==> self.removed_marks() == entry.removed_marks().union(
                            self.visited_set().difference(entry.visited_set()),
                        ),
                        for_removed ==> self.retained_marks() == entry.retained_marks(),
                        !for_removed ==> self.retained_marks() == entry.retained_marks().union(
                            self.visited_set().difference(entry.visited_set()),
                        ),
                        !for_removed ==> self.removed_marks() == entry.removed_marks(),
                    decreases info.deps@.len() - j,
                {
                    let ghost before = *self;
                    proof {
                        let d = lockfile@.dom();
                        assert(d.difference(self.visited_set()).subset_of(
                            d.difference(entry.visited_set()).remove(key@),
                        ));
                        vstd::set_lib::lemma_len_subset(
                            d.difference(self.visited_set()),
                            d.difference(entry.visited_set()).remove(key@),
                        );
                        assert(d.difference(entry.visited_set()).contains(key@));
                        assert(d.difference(entry.visited_set()).remove(key@).len() == measure - 1);
                    }
                    let dep = &info.deps[j];
                    assert(dep@ == deps[j as int]);
                    self.mark_key(dep.as_str(), lockfile, for_removed);
                    proof {
                        assert forall|v: Seq<char>|
                            #[trigger] self.visited_set().contains(v) && !entry.visited_set().contains(
                                v,
                            ) implies reaches(lockfile@, key@, v) by {
                            if !before.visited_set().contains(v) {
                                lemma_step(lockfile@, key@, j as int, v);
                            }
                        }
                        assert forall|i: int| 0 <= i < j + 1 implies self.visited_set().contains(
                            #[trigger] deps[i],
                        ) by {
                            if i < j {
                                assert(before.visited_set().contains(deps[i]));
                            }
                        }
                        if for_removed {
                            assert(self.removed_marks() =~= entry.removed_marks().union(
                                self.visited_set().difference(entry.visited_set()),
                            ));
                        } else {
                            assert(self.retained_marks() =~= entry.retained_marks().union(
                                self.visited_set().difference(entry.visited_set()),
                            ));
                        }
                    }
                    j = j + 1;
                }
            },
            None => {},
        }
    }

    /// Marks everything reachable from `coord` in `lockfile`, into the
    /// removed set or the retained set, in a traversal of its own.
    pub fn mark_tree(&mut self, coord: &Coordinate, lockfile: &Lockfile, for_removed: bool)
        requires
            lockfile.wf(),
        ensures
            for_removed ==> final(self).removed_marks() == old(self).removed_marks().union(
                reach_set(lockfile@, coord_key(coord@)),
            ),
            for_removed ==> final(self).retained_marks() == old(self).retained_marks(),
            !for_removed ==> final(self).retained_marks() == old(self).retained_marks().union(
                reach_set(lockfile@, coord_key(coord@)),
            ),
            !for_removed ==> final(self).removed_marks() == old(self).removed_marks(),
    {
        let key = coord.key();
        self.mark_tree_key(key.as_str(), lockfile, for_removed);
    }

    /// Marks everything reachable from the key `key`, as [`Self::mark_tree`] does.
    pub fn mark_tree_key(&mut self, key: &str, lockfile: &Lockfile, for_removed: bool)
        requires
            lockfile.wf(),
        ensures
            for_removed ==> final(self).removed_marks() == old(self).removed_marks().union(
                reach_set(lockfile@, key@),
            ),
            for_removed ==> final(self).retained_marks() == old(self).retained_marks(),
            !for_removed ==> final(self).retained_marks() == old(self).retained_marks().union(
                reach_set(lockfile@, key@),
            ),
            !for_removed ==> final(self).removed_marks() == old(self).removed_marks(),
    {
        proof {
            lockfile.lemma_dom_finite();
        }
        self.visited = Vec::new();
        assert(self.visited_set() =~= Set::<Seq<char>>::empty());
        let ghost start = *self;
        self.mark_key(key, lockfile, for_removed);
        proof {
            let s = self.visited_set();
            assert(closed_under_deps(lockfile@, s));
            assert forall|v: Seq<char>| s.contains(v) <==> reach_set(lockfile@, key@).contains(v) by {
                if reach_set(lockfile@, key@).contains(v) {
                    let p = choose|p: Seq<Seq<char>>|
                        #[trigger] is_walk(lockfile@, p) && p[0] == key@ && p.last() == v;
                    lemma_closed_contains_walk(lockfile@, s, p, p.len() - 1);
                }
            }
            assert(s.difference(start.visited_set()) =~= reach_set(lockfile@, key@));
        }
    }

    /// Whether `key` was marked from the removed root.
    pub fn is_marked_removed(&self, key: &str) -> (r: bool)
        ensures
            r == self.removed_marks().contains(key@),
    {
        holds_text(&self.marked_from_removed, key)
    }

    /// What was marked from the removed root and from nothing else.
    pub fn get_removable(&self) -> (r: Vec<String>)
        ensures
            text_set(r@) == self.removed_marks().difference(self.retained_marks()),
    {
        let mut r: Vec<String> = Vec::new();
        let mut i: usize = 0;
        while i < self.marked_from_removed.len()
            invariant
                i <= self.marked_from_removed@.len(),
                text_set(r@) == text_set(self.marked_from_removed@.take(i as int)).difference(
                    self.retained_marks(),
                ),
            decreases self.marked_from_removed@.len() - i,
        {
            let k = &self.marked_from_removed[i];
            proof {
                assert(self.marked_from_removed@.take(i + 1) =~= self.marked_from_removed@.take(
                    i as int,
                ).push(*k));
                lemma_texts_push(self.marked_from_removed@.take(i as int), *k);
            }
            if !holds_text(&self.marked_from_remaining, k.as_str()) {
                let c = k.clone();
                proof {
                    lemma_texts_push(r@, c);
                }
                r.push(c);
                assert(text_set(r@) =~= text_set(self.marked_from_removed@.take(i + 1)).difference(
                    self.retained_marks(),
                ));
            } else {
                assert(text_set(r@) =~= text_set(self.marked_from_removed@.take(i + 1)).difference(
                    self.retained_marks(),
                ));
            }
            i = i + 1;
        }
        assert(self.marked_from_removed@.take(i as int) =~= self.marked_from_removed@);
        r
    }
}

} // verus!
