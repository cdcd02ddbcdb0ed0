//! Running a project: when its classes are stale, and what a run needs.
use vstd::prelude::*;
use crate::manifest::Manifest;
use crate::repository::Repository;

verus! {

/// How to run the program.
#[derive(Debug)]
pub struct RunOptions {
    pub debug: bool,
    pub args: Vec<String>,
}

/// The newest of `ts`, or `floor` when it is newer or `ts` is empty.
pub open spec fn newest(ts: Seq<u64>, floor: u64) -> u64
    decreases ts.len(),
{
    if ts.len() == 0 {
        floor
    } else {
        let m = newest(ts.drop_last(), floor);
        if ts.last() > m {
            ts.last()
        } else {
            m
        }
    }
}

/// The oldest of `ts`, or `ceiling` when it is older or `ts` is empty.
pub open spec fn oldest(ts: Seq<u64>, ceiling: u64) -> u64
    decreases ts.len(),
{
    if ts.len() == 0 {
        ceiling
    } else {
        let m = oldest(ts.drop_last(), ceiling);
        if ts.last() < m {
            ts.last()
        } else {
            m
        }
    }
}

/// Whether the classes must be compiled again: there are none yet, or some
/// source file (times in `source_times`) is newer than the oldest class
/// file (times in `class_times`); `now` bounds the class times from above.
pub fn needs_compilation(
    target_exists: bool,
    source_times: &Vec<u64>,
    class_times: &Vec<u64>,
    now: u64,
) -> (r: bool)
    ensures
        r == (!target_exists || newest(source_times@, 0) > oldest(class_times@, now)),
{
    if !target_exists {
        return true;
    }
    let mut latest: u64 = 0;
    let mut i: usize = 0;
    while i < source_times.len()
        invariant
            i <= source_times@.len(),
            latest == newest(source_times@.take(i as int), 0),
        decreases source_times@.len() - i,
    {
        assert(source_times@.take(i + 1).drop_last() =~= source_times@.take(i as int));
        if source_times[i] > latest {
            latest = source_times[i];
        }
        i = i + 1;
    }
    assert(source_times@.take(source_times@.len() as int) =~= source_times@);
    let mut earliest: u64 = now;
    let mut j: usize = 0;
    while j < class_times.len()
        invariant
            j <= class_times@.len(),
            earliest == oldest(class_times@.take(j as int), now),
        decreases class_times@.len() - j,
    {
        assert(class_times@.take(j + 1).drop_last() =~= class_times@.take(j as int));
        if class_times[j] < earliest {
            earliest = class_times[j];
        }
        j = j + 1;
    }
    assert(class_times@.take(class_times@.len() as int) =~= class_times@);
    latest > earliest
}

/// Runs a project's main class with its dependencies from the local store.
#[derive(Debug)]
pub struct Runner {
    manifest: Manifest,
    repository: Repository,
}

impl Runner {
    pub fn new(manifest: Manifest, repository: Repository) -> (r: Runner)
        ensures
            r.store_root() == repository.root_text(),
            r.manifest_value() == manifest,
    {
        Runner { manifest, repository }
    }

    pub closed spec fn store_root(&self) -> Seq<char> {
        self.repository.root_text()
    }

    pub closed spec fn manifest_value(&self) -> Manifest {
        self.manifest
    }

    pub fn manifest(&self) -> (r: &Manifest)
        ensures
            *r == self.manifest_value(),
    {
        &self.manifest
    }

    pub fn repository(&self) -> (r: &Repository)
        ensures
            r.root_text() == self.store_root(),
    {
        &self.repository
    }
}

} // verus!
