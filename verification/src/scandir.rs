//! Tree traversal: repeated single-directory scans across a subtree,
//! sequentially depth-first or through a bounded worker pool, folding each
//! directory's overview into one running result.
//!
//! The traversal walks a filesystem snapshot given as a value, so the whole
//! walk is deterministic and verified; reading the live filesystem into
//! probes is its caller's part.
use vstd::prelude::*;
use crate::kvstore::{Db, tview, kv_lookup};
use crate::db::{db_ready, table_dir_stat_name};
use crate::dirstat::{DirStatV, dirstat_lookup};
use crate::scan::{DirScanOverview, DirScanResult, DirProbe, DirProbeV, DirEntryInfo, DirEntryV,
    entries_view, scan_decision, scan_one_dir, combine, covers};
use crate::cmd::ProgressStatus;

verus! {

// ---------------------------------------------------------------------------
// The filesystem snapshot
// ---------------------------------------------------------------------------
/// One directory of a filesystem snapshot.
#[derive(Debug)]
pub struct FsDir {
    pub path: String,
    pub mtime: i64,
    pub entries: Vec<DirEntryInfo>,
}

pub ghost struct FsDirV {
    pub path: Seq<char>,
    pub mtime: i64,
    pub entries: Seq<DirEntryV>,
}

impl View for FsDir {
    type V = FsDirV;

    open spec fn view(&self) -> FsDirV {
        FsDirV { path: self.path@, mtime: self.mtime, entries: entries_view(self.entries@) }
    }
}

/// A filesystem subtree, as a value: the readable directories with their
/// modification times and listings.  A path that is absent counts as
/// unreadable, exactly like a permission error on the live filesystem.
#[derive(Debug)]
pub struct FsModel {
    pub dirs: Vec<FsDir>,
}

pub open spec fn fs_view(fs: FsModel) -> Seq<FsDirV> {
    fs.dirs@.map_values(|d: FsDir| d@)
}

/// The first snapshot entry for `p`, if any.
pub open spec fn fs_lookup(fsv: Seq<FsDirV>, p: Seq<char>) -> Option<FsDirV>
    decreases fsv.len(),
{
    if fsv.len() == 0 {
        None
    } else if fsv[0].path == p {
        Some(fsv[0])
    } else {
        fs_lookup(fsv.drop_first(), p)
    }
}

/// What probing `p` against the snapshot reports.
pub open spec fn probe_spec(fsv: Seq<FsDirV>, p: Seq<char>) -> DirProbeV {
    match fs_lookup(fsv, p) {
        Some(d) => DirProbeV { mtime: Some(d.mtime), entries: Some(d.entries) },
        None => DirProbeV { mtime: None, entries: None },
    }
}

/// Probe one path of the snapshot.
pub fn probe_of(fs: &FsModel, path: &str) -> (r: DirProbe)
    ensures
        r@ == probe_spec(fs_view(*fs), path@),
{
    let ghost fsv = fs_view(*fs);
    let mut i: usize = 0;
    proof {
        assert(fsv.skip(0) =~= fsv);
    }
    while i < fs.dirs.len()
        invariant
            i <= fs.dirs@.len(),
            fsv == fs_view(*fs),
            fsv.len() == fs.dirs@.len(),
            fs_lookup(fsv, path@) == fs_lookup(fsv.skip(i as int), path@),
        decreases fs.dirs@.len() - i,
    {
        proof {
            assert(fsv.skip(i as int)[0] == fsv[i as int]);
            assert(fsv.skip(i as int).drop_first() =~= fsv.skip(i + 1));
            assert(fsv[i as int] == fs.dirs@[i as int]@);
        }
        if matches!(
            crate::order::str_cmp(fs.dirs[i].path.as_str(), path),
            crate::order::KeyOrder::Equal,
        ) {
            let d = &fs.dirs[i];
            let mut es: Vec<DirEntryInfo> = Vec::new();
            let mut k: usize = 0;
            while k < d.entries.len()
                invariant
                    k <= d.entries@.len(),
                    es@.len() == k,
                    forall|m: int| 0 <= m < k ==> #[trigger] es@[m]@ == d.entries@[m]@,
                decreases d.entries@.len() - k,
            {
                es.push(
                    DirEntryInfo { name: d.entries[k].name.clone(), kind: d.entries[k].kind },
                );
                k = k + 1;
            }
            proof {
                assert(entries_view(es@) =~= entries_view(d.entries@));
            }
            return DirProbe { mtime: Some(d.mtime), entries: Some(es) };
        }
        i = i + 1;
    }
    proof {
        assert(fsv.skip(fs.dirs@.len() as int).len() == 0);
    }
    DirProbe { mtime: None, entries: None }
}

// ---------------------------------------------------------------------------
// The bounded worker pool
// ---------------------------------------------------------------------------
/// A general bounded-worker dispatcher for any kind of work item: a queue of
/// pending items and a count of items handed out and not yet completed,
/// capped at a fixed concurrency limit.  Its invariant is the bounded-
/// concurrency guarantee: the active count never exceeds the cap.
#[derive(Debug)]
pub struct WorkPool<T> {
    pub pendings: Vec<T>,
    pub active: u64,
    pub cap: u64,
}

impl<T> WorkPool<T> {
    /// Never more in flight than the cap allows.
    pub open spec fn wf(self) -> bool {
        self.active <= self.cap && self.cap >= 1
    }

    pub fn new(cap: u64) -> (r: WorkPool<T>)
        requires
            cap >= 1,
        ensures
            r.wf(),
            r.pendings@.len() == 0,
            r.active == 0,
            r.cap == cap,
    {
        WorkPool { pendings: Vec::new(), active: 0, cap }
    }

    pub fn pending_count(&self) -> (r: usize)
        ensures
            r == self.pendings@.len(),
    {
        self.pendings.len()
    }

    pub fn add_task(&mut self, t: T)
        ensures
            final(self).pendings@ == old(self).pendings@.push(t),
            final(self).active == old(self).active,
            final(self).cap == old(self).cap,
            old(self).wf() ==> final(self).wf(),
    {
        self.pendings.push(t);
    }

    /// The scheduling policy of the traversal loop: wait for a completion
    /// when the pool is saturated or nothing is pending.
    pub fn must_wait(&self) -> (r: bool)
        ensures
            r == (self.active >= self.cap || self.pendings@.len() == 0),
    {
        self.active >= self.cap || self.pendings.len() == 0
    }

    /// Hand out the next pending item; only possible below the cap, which is
    /// what keeps concurrency bounded.  The front of the queue gives
    /// breadth-first dispatch, the back depth-first.
    pub fn dispatch(&mut self, from_back: bool) -> (t: T)
        requires
            old(self).wf(),
            old(self).active < old(self).cap,
            old(self).pendings@.len() > 0,
        ensures
            final(self).wf(),
            final(self).active == old(self).active + 1,
            final(self).cap == old(self).cap,
            from_back ==> t == old(self).pendings@.last() && final(self).pendings@ == old(
                self,
            ).pendings@.drop_last(),
            !from_back ==> t == old(self).pendings@[0] && final(self).pendings@ == old(
                self,
            ).pendings@.drop_first(),
    {
        self.active = self.active + 1;
        if from_back {
            let t = self.pendings.pop().unwrap();
            t
        } else {
            let t = self.pendings.remove(0);
            proof {
                assert(final(self).pendings@ =~= old(self).pendings@.drop_first());
            }
            t
        }
    }

    /// One handed-out item finished.
    pub fn complete_one(&mut self)
        requires
            old(self).active >= 1,
        ensures
            final(self).active == old(self).active - 1,
            final(self).cap == old(self).cap,
            final(self).pendings@ == old(self).pendings@,
            old(self).wf() ==> final(self).wf(),
    {
        self.active = self.active - 1;
    }

    /// Nothing pending and nothing in flight.
    pub fn is_done(&self) -> (r: bool)
        ensures
            r == (self.pendings@.len() == 0 && self.active == 0),
    {
        self.pendings.len() == 0 && self.active == 0
    }
}

// ---------------------------------------------------------------------------
// Traversal
// ---------------------------------------------------------------------------
/// One directory's visit during a traversal.
pub ghost struct VisitV {
    pub path: Seq<char>,
    pub stat: DirStatV,
    pub hit: bool,
}

/// What visiting `p` yields, as a function of the stat cache at the start of
/// the traversal and the snapshot: no other visit can interfere, because a
/// visit writes only its own key and no path is visited twice.
pub open spec fn visit_spec(
    t0: Seq<(Seq<char>, Seq<char>)>,
    fsv: Seq<FsDirV>,
    p: Seq<char>,
    now: u64,
) -> (DirStatV, bool) {
    scan_decision(dirstat_lookup(t0, p), p, probe_spec(fsv, p), now)
}

/// The overview one visit contributes.
pub open spec fn overview_of(stat: DirStatV, hit: bool) -> DirScanOverview {
    DirScanOverview {
        dirs: stat.subdir_num,
        files: stat.file_num,
        blocks: stat.blocks,
        is_cached: hit,
    }
}

pub open spec fn child_path(p: Seq<char>, name: Seq<char>) -> Seq<char> {
    p + seq!['/'] + name
}

/// The paths a visit discovers for further traversal.
pub open spec fn children_of(stat: DirStatV, p: Seq<char>) -> Seq<Seq<char>> {
    stat.sub_dirs.map_values(|n: Seq<char>| child_path(p, n))
}

pub open spec fn log_paths(log: Seq<VisitV>) -> Seq<Seq<char>> {
    log.map_values(|v: VisitV| v.path)
}

/// A fresh session value.
pub open spec fn new_result_spec() -> DirScanResult {
    DirScanResult {
        cached: DirScanOverview { dirs: 0, files: 0, blocks: 0, is_cached: true },
        scanned: DirScanOverview { dirs: 0, files: 0, blocks: 0, is_cached: false },
        spent: 0,
        ongoing: true,
        status: ProgressStatus::STARTED,
    }
}

/// Folding one overview into a session, as `DirScanResult::absorb` does.
pub open spec fn absorb_spec(r: DirScanResult, o: DirScanOverview) -> DirScanResult {
    DirScanResult {
        scanned: combine(r.scanned, o),
        cached: if o.is_cached {
            combine(r.cached, o)
        } else {
            r.cached
        },
        ..r
    }
}

/// The session a sequence of visits folds to.
pub open spec fn fold_visits(log: Seq<VisitV>) -> DirScanResult
    decreases log.len(),
{
    if log.len() == 0 {
        new_result_spec()
    } else {
        absorb_spec(
            fold_visits(log.drop_last()),
            overview_of(log.last().stat, log.last().hit),
        )
    }
}

/// Everything a traversal promises.
///
/// The log lists the visits: the root first, no path visited twice, every
/// later visit a child discovered by an earlier one, every discovered
/// subdirectory visited too, and each visit's outcome a pure function of the
/// initial cache and the snapshot.  The result is exactly the fold of the
/// logged overviews.  Keys never visited keep their cached snapshot, and no
/// other table changes.  Together these clauses make the log exactly the
/// subtree reachable from the root, so the totals are pinned.
/// A valid visit log of a traversal of `root`: the root first, no path
/// visited twice, every later visit a child discovered by an earlier one,
/// every discovered subdirectory visited too, and each visit's outcome a
/// pure function of the initial cache and the snapshot.  These clauses make
/// the log exactly the subtree reachable from the root, in some order.
pub open spec fn log_wf(
    t0: Seq<(Seq<char>, Seq<char>)>,
    fsv: Seq<FsDirV>,
    root: Seq<char>,
    now: u64,
    log: Seq<VisitV>,
) -> bool {
    &&& forall|a: int, b: int|
        0 <= a < b < log.len() ==> (#[trigger] log[a]).path != (#[trigger] log[b]).path
    &&& forall|k: int|
        0 <= k < log.len() ==> ((#[trigger] log[k]).stat, log[k].hit) == visit_spec(
            t0,
            fsv,
            log[k].path,
            now,
        )
    &&& log.len() >= 1 && log[0].path == root
    &&& forall|k: int|
        0 < k < log.len() ==> queued_from(log.subrange(0, k), (#[trigger] log[k]).path)
    &&& forall|k: int, c: Seq<char>|
        0 <= k < log.len() && #[trigger] children_of(log[k].stat, log[k].path).contains(c)
            ==> log_paths(log).contains(c)
}

pub open spec fn traversal_post(
    t0: Seq<(Seq<char>, Seq<char>)>,
    db_new: Db,
    tables_old: Seq<crate::kvstore::Table>,
    fsv: Seq<FsDirV>,
    root: Seq<char>,
    now: u64,
    res: DirScanResult,
    log: Seq<VisitV>,
) -> bool {
    &&& db_ready(db_new)
    &&& forall|n: Seq<char>|
        n != table_dir_stat_name() ==> #[trigger] tview(db_new.tables@, n) == tview(tables_old, n)
    &&& forall|k: Seq<char>|
        !log_paths(log).contains(k) ==> #[trigger] dirstat_lookup(
            db_new.table_view(table_dir_stat_name()),
            k,
        ) == dirstat_lookup(t0, k)
    &&& log_wf(t0, fsv, root, now, log)
    &&& res == fold_visits(log)
    &&& res.status == ProgressStatus::STARTED
    &&& res.spent == 0 && res.ongoing == true
    &&& covers(res)
}

/// `p` followed by a separator and `name`.
fn path_join(p: &str, name: &str) -> (r: String)
    ensures
        r@ == child_path(p@, name@),
{
    let mut out = p.to_owned();
    crate::json::push_char(&mut out, '/');
    out.append(name);
    proof {
        assert(out@ =~= child_path(p@, name@));
    }
    out
}

/// Queue every discovered subdirectory of `path`.
fn enqueue_children(pool: &mut WorkPool<String>, path: &str, names: &Vec<String>)
    ensures
        final(pool).active == old(pool).active,
        final(pool).cap == old(pool).cap,
        old(pool).wf() ==> final(pool).wf(),
        final(pool).pendings@.len() == old(pool).pendings@.len() + names@.len(),
        forall|i: int|
            0 <= i < old(pool).pendings@.len() ==> #[trigger] final(pool).pendings@[i] == old(
                pool,
            ).pendings@[i],
        forall|m: int|
            0 <= m < names@.len() ==> (#[trigger] final(pool).pendings@[old(
                pool,
            ).pendings@.len() + m])@ == child_path(path@, names@[m]@),
{
    let mut k: usize = 0;
    let ghost pend0 = pool.pendings@;
    while k < names.len()
        invariant
            k <= names@.len(),
            pool.active == old(pool).active,
            pool.cap == old(pool).cap,
            pool.pendings@.len() == pend0.len() + k,
            pend0 == old(pool).pendings@,
            forall|i: int| 0 <= i < pend0.len() ==> #[trigger] pool.pendings@[i] == pend0[i],
            forall|m: int|
                0 <= m < k ==> (#[trigger] pool.pendings@[pend0.len() + m])@ == child_path(
                    path@,
                    names@[m]@,
                ),
        decreases names@.len() - k,
    {
        let child = path_join(path, names[k].as_str());
        pool.add_task(child);
        k = k + 1;
    }
}

/// Does the list hold this string?
fn contains_string(v: &Vec<String>, s: &str) -> (r: bool)
    ensures
        r == exists|i: int| 0 <= i < v@.len() && (#[trigger] v@[i])@ == s@,
{
    let mut i: usize = 0;
    while i < v.len()
        invariant
            i <= v@.len(),
            forall|k: int| 0 <= k < i ==> (#[trigger] v@[k])@ != s@,
        decreases v@.len() - i,
    {
        if matches!(crate::order::str_cmp(v[i].as_str(), s), crate::order::KeyOrder::Equal) {
            return true;
        }
        i = i + 1;
    }
    false
}

/// Visit one freshly dispatched path: probe it, scan it, queue its children
/// and report its overview as one more in-flight contribution.
#[verifier::rlimit(100)]
#[verifier::spinoff_prover]
fn visit_one(
    db: &mut Db,
    fs: &FsModel,
    pool: &mut WorkPool<String>,
    inflight: &mut Vec<DirScanOverview>,
    visited: &mut Vec<String>,
    path: String,
    now: u64,
    Ghost(t0): Ghost<Seq<(Seq<char>, Seq<char>)>>,
    Ghost(tables0): Ghost<Seq<crate::kvstore::Table>>,
    Ghost(log0): Ghost<Seq<VisitV>>,
) -> (gl: Ghost<Seq<VisitV>>)
    requires
        db_ready(*old(db)),
        old(pool).wf(),
        old(visited)@.len() == log0.len(),
        forall|k: int| 0 <= k < log0.len() ==> (#[trigger] old(visited)@[k])@ == log0[k].path,
        forall|a: int, b: int|
            0 <= a < b < log0.len() ==> (#[trigger] log0[a]).path != (#[trigger] log0[b]).path,
        forall|k: int|
            0 <= k < log0.len() ==> ((#[trigger] log0[k]).stat, log0[k].hit) == visit_spec(
                t0,
                fs_view(*fs),
                log0[k].path,
                now,
            ),
        forall|k: int| 0 <= k < log0.len() ==> (#[trigger] old(visited)@[k])@ != path@,
        forall|k: Seq<char>|
            !log_paths(log0).contains(k) ==> #[trigger] dirstat_lookup(
                old(db).table_view(table_dir_stat_name()),
                k,
            ) == dirstat_lookup(t0, k),
        forall|n: Seq<char>|
            n != table_dir_stat_name() ==> #[trigger] tview(old(db).tables@, n) == tview(
                tables0,
                n,
            ),
    ensures
        db_ready(*final(db)),
        final(pool).wf(),
        final(pool).active == old(pool).active,
        final(pool).cap == old(pool).cap,
        final(pool).pendings@.len() == old(pool).pendings@.len() + children_of(
            gl@[log0.len() as int].stat,
            path@,
        ).len(),
        forall|i: int|
            0 <= i < old(pool).pendings@.len() ==> #[trigger] final(pool).pendings@[i] == old(
                pool,
            ).pendings@[i],
        forall|m: int|
            0 <= m < children_of(gl@[log0.len() as int].stat, path@).len() ==> (
            #[trigger] final(pool).pendings@[old(pool).pendings@.len() + m])@ == children_of(
                gl@[log0.len() as int].stat,
                path@,
            )[m],
        final(inflight)@.len() == old(inflight)@.len() + 1,
        forall|m: int|
            0 <= m < old(inflight)@.len() ==> #[trigger] final(inflight)@[m] == old(inflight)@[m],
        gl@.len() == log0.len() + 1,
        forall|k: int| 0 <= k < log0.len() ==> #[trigger] gl@[k] == log0[k],
        gl@[log0.len() as int].path == path@,
        final(inflight)@.last() == overview_of(
            gl@[log0.len() as int].stat,
            gl@[log0.len() as int].hit,
        ),
        final(visited)@.len() == gl@.len(),
        forall|k: int| 0 <= k < gl@.len() ==> (#[trigger] final(visited)@[k])@ == gl@[k].path,
        forall|a: int, b: int|
            0 <= a < b < gl@.len() ==> (#[trigger] gl@[a]).path != (#[trigger] gl@[b]).path,
        forall|k: int|
            0 <= k < gl@.len() ==> ((#[trigger] gl@[k]).stat, gl@[k].hit) == visit_spec(
                t0,
                fs_view(*fs),
                gl@[k].path,
                now,
            ),
        forall|k: Seq<char>|
            !log_paths(gl@).contains(k) ==> #[trigger] dirstat_lookup(
                final(db).table_view(table_dir_stat_name()),
                k,
            ) == dirstat_lookup(t0, k),
        forall|n: Seq<char>|
            n != table_dir_stat_name() ==> #[trigger] tview(final(db).tables@, n) == tview(
                tables0,
                n,
            ),
{
    let ghost fsv = fs_view(*fs);
    let probe = probe_of(fs, path.as_str());
    let (stat, hit) = scan_one_dir(db, path.as_str(), &probe, now);
    enqueue_children(pool, path.as_str(), &stat.sub_dirs);
    let ov = DirScanOverview {
        dirs: stat.subdir_num,
        files: stat.file_num,
        blocks: stat.blocks,
        is_cached: hit,
    };
    inflight.push(ov);
    let ghost log = log0.push(VisitV { path: path@, stat: stat@, hit });
    visited.push(path);
    proof {
        assert(!log_paths(log0).contains(path@)) by {
            if log_paths(log0).contains(path@) {
                let k = choose|k: int|
                    0 <= k < log_paths(log0).len() && log_paths(log0)[k] == path@;
                assert(old(visited)@[k]@ == log0[k].path);
            }
        }
        assert((stat@, hit) == visit_spec(t0, fsv, path@, now));
        assert(forall|m: int|
            0 <= m < stat@.sub_dirs.len() ==> #[trigger] children_of(stat@, path@)[m]
                == child_path(path@, stat@.sub_dirs[m]));
        assert forall|a: int| 0 <= a < log0.len() implies (#[trigger] log0[a]).path != path@ by {
            assert(log_paths(log0)[a] == log0[a].path);
        }
        assert forall|kk: Seq<char>| !log_paths(log).contains(kk) implies #[trigger]
        dirstat_lookup(db.table_view(table_dir_stat_name()), kk) == dirstat_lookup(t0, kk) by {
            assert(kk != path@) by {
                assert(log_paths(log)[log0.len() as int] == path@);
            }
            assert(!log_paths(log0).contains(kk)) by {
                if log_paths(log0).contains(kk) {
                    let m = choose|m: int|
                        0 <= m < log_paths(log0).len() && log_paths(log0)[m] == kk;
                    assert(log_paths(log)[m] == kk);
                }
            }
        }
    }
    Ghost(log)
}


/// Every discovered child was visited already or still waits in the queue.
pub open spec fn children_tracked(log: Seq<VisitV>, pend: Seq<String>) -> bool {
    forall|k: int, c: Seq<char>|
        0 <= k < log.len() && #[trigger] children_of(log[k].stat, log[k].path).contains(c)
            ==> log_paths(log).contains(c) || exists|i: int|
            0 <= i < pend.len() && (#[trigger] pend[i])@ == c
}

/// What dispatching one queued path leaves behind.
pub open spec fn dispatched(
    pend_entry: Seq<String>,
    pend1: Seq<String>,
    path: String,
    depth_first: bool,
) -> bool {
    if depth_first {
        pend_entry.len() > 0 && path == pend_entry.last() && pend1 == pend_entry.drop_last()
    } else {
        pend_entry.len() > 0 && path == pend_entry[0] && pend1 == pend_entry.drop_first()
    }
}

/// Dispatching a path that was already visited keeps the children tracked.
proof fn lemma_tracked_after_dup(
    log: Seq<VisitV>,
    pend_entry: Seq<String>,
    pend1: Seq<String>,
    path: String,
    depth_first: bool,
)
    requires
        children_tracked(log, pend_entry),
        dispatched(pend_entry, pend1, path, depth_first),
        log_paths(log).contains(path@),
    ensures
        children_tracked(log, pend1),
{
    assert forall|k: int, c: Seq<char>|
        0 <= k < log.len() && #[trigger] children_of(log[k].stat, log[k].path).contains(c)
        implies log_paths(log).contains(c) || exists|i: int|
        0 <= i < pend1.len() && (#[trigger] pend1[i])@ == c by {
        if !log_paths(log).contains(c) {
            let i0 = choose|i: int| 0 <= i < pend_entry.len() && (#[trigger] pend_entry[i])@ == c;
            if depth_first {
                if i0 < pend_entry.len() - 1 {
                    assert(pend1[i0]@ == c);
                } else {
                    assert(c == path@);
                }
            } else {
                if i0 == 0 {
                    assert(c == path@);
                } else {
                    assert(pend1[i0 - 1]@ == c);
                }
            }
        }
    }
}

/// Dispatching a fresh path and queueing its children keeps the children
/// tracked.
proof fn lemma_tracked_after_visit(
    log0: Seq<VisitV>,
    log: Seq<VisitV>,
    pend_entry: Seq<String>,
    pend2: Seq<String>,
    pendnew: Seq<String>,
    path: String,
    v: VisitV,
    depth_first: bool,
)
    requires
        children_tracked(log0, pend_entry),
        dispatched(pend_entry, pend2, path, depth_first),
        log == log0.push(v),
        v.path == path@,
        pendnew.len() == pend2.len() + children_of(v.stat, v.path).len(),
        forall|i: int| 0 <= i < pend2.len() ==> #[trigger] pendnew[i] == pend2[i],
        forall|m: int|
            0 <= m < children_of(v.stat, v.path).len() ==> (#[trigger] pendnew[pend2.len() + m])@
                == children_of(v.stat, v.path)[m],
    ensures
        children_tracked(log, pendnew),
{
    assert forall|k: int, c: Seq<char>|
        0 <= k < log.len() && #[trigger] children_of(log[k].stat, log[k].path).contains(c)
        implies log_paths(log).contains(c) || exists|i: int|
        0 <= i < pendnew.len() && (#[trigger] pendnew[i])@ == c by {
        if k < log0.len() {
            assert(log[k] == log0[k]);
            if log_paths(log0).contains(c) {
                let m = choose|m: int| 0 <= m < log_paths(log0).len() && log_paths(log0)[m] == c;
                assert(log_paths(log)[m] == c);
            } else if c == path@ {
                assert(log_paths(log)[log0.len() as int] == path@);
            } else {
                let i0 = choose|i: int|
                    0 <= i < pend_entry.len() && (#[trigger] pend_entry[i])@ == c;
                if depth_first {
                    if i0 < pend_entry.len() - 1 {
                        assert(pendnew[i0]@ == c);
                    } else {
                        assert(c == path@);
                    }
                } else {
                    if i0 == 0 {
                        assert(c == path@);
                    } else {
                        assert(pendnew[i0 - 1]@ == c);
                    }
                }
            }
        } else {
            assert(log[k] == v);
            let m = choose|m: int|
                0 <= m < children_of(v.stat, v.path).len() && children_of(v.stat, v.path)[m] == c;
            assert(pendnew[pend2.len() + m]@ == c);
        }
    }
}


/// `c` was discovered as some logged visit's child.
pub open spec fn queued_from(log: Seq<VisitV>, c: Seq<char>) -> bool {
    exists|j: int|
        0 <= j < log.len() && children_of(#[trigger] log[j].stat, log[j].path).contains(c)
}

/// Every queued path was discovered as some logged visit's child.
pub open spec fn queue_sound(log: Seq<VisitV>, pend: Seq<String>) -> bool {
    forall|i: int| 0 <= i < pend.len() ==> queued_from(log, (#[trigger] pend[i])@)
}

/// Dispatching keeps the remaining queue sound.
proof fn lemma_sound_after_dispatch(
    log: Seq<VisitV>,
    pend_entry: Seq<String>,
    pend1: Seq<String>,
    path: String,
    depth_first: bool,
)
    requires
        queue_sound(log, pend_entry),
        dispatched(pend_entry, pend1, path, depth_first),
    ensures
        queue_sound(log, pend1),
        queued_from(log, path@),
{
    assert forall|i: int| 0 <= i < pend1.len() implies queued_from(
        log,
        (#[trigger] pend1[i])@,
    ) by {
        if depth_first {
            assert(pend1[i] == pend_entry[i]);
            assert(queued_from(log, (pend_entry[i])@));
        } else {
            assert(pend1[i] == pend_entry[i + 1]);
            assert(queued_from(log, (pend_entry[i + 1])@));
        }
    }
    if depth_first {
        assert(queued_from(log, (pend_entry[pend_entry.len() - 1])@));
    } else {
        assert(queued_from(log, (pend_entry[0])@));
    }
}

/// A visit's enqueued children keep the queue sound for the extended log.
proof fn lemma_sound_after_visit(
    log0: Seq<VisitV>,
    log: Seq<VisitV>,
    pend2: Seq<String>,
    pendnew: Seq<String>,
    v: VisitV,
)
    requires
        queue_sound(log0, pend2),
        log == log0.push(v),
        pendnew.len() == pend2.len() + children_of(v.stat, v.path).len(),
        forall|i: int| 0 <= i < pend2.len() ==> #[trigger] pendnew[i] == pend2[i],
        forall|m: int|
            0 <= m < children_of(v.stat, v.path).len() ==> (#[trigger] pendnew[pend2.len() + m])@
                == children_of(v.stat, v.path)[m],
    ensures
        queue_sound(log, pendnew),
{
    assert forall|i: int| 0 <= i < pendnew.len() implies queued_from(
        log,
        (#[trigger] pendnew[i])@,
    ) by {
        if i < pend2.len() {
            assert(pendnew[i] == pend2[i]);
            assert(queued_from(log0, (pend2[i])@));
            let j = choose|j: int|
                0 <= j < log0.len() && children_of(#[trigger] log0[j].stat, log0[j].path).contains(
                    (pend2[i])@,
                );
            assert(log[j] == log0[j]);
            assert(children_of(log[j].stat, log[j].path).contains((pendnew[i])@));
        } else {
            let m = i - pend2.len();
            assert((pendnew[pend2.len() + m])@ == children_of(v.stat, v.path)[m]);
            assert(log[log0.len() as int] == v);
            assert(children_of(log[log0.len() as int].stat, log[log0.len() as int].path).contains(
                (pendnew[i])@,
            ));
        }
    }
}

// ---------------------------------------------------------------------------
// Termination of the walk
// ---------------------------------------------------------------------------
/// The stored keys: the only paths whose cached snapshot can list children.
pub open spec fn table_keys(t0: Seq<(Seq<char>, Seq<char>)>) -> Seq<Seq<char>> {
    t0.map_values(|e: (Seq<char>, Seq<char>)| e.0)
}

/// The snapshot's paths: the only paths whose listing can name children.
pub open spec fn fs_paths(fsv: Seq<FsDirV>) -> Seq<Seq<char>> {
    fsv.map_values(|d: FsDirV| d.path)
}

/// The measure one unvisited chargeable path carries: enough to pay for its
/// own visit and for queueing each of its children.
pub open spec fn charge(
    t0: Seq<(Seq<char>, Seq<char>)>,
    fsv: Seq<FsDirV>,
    p: Seq<char>,
    now: u64,
) -> nat {
    2 * children_of(visit_spec(t0, fsv, p, now).0, p).len() + 1
}

/// Total charge of the listed keys not yet visited.
pub open spec fn pot_over(
    keys: Seq<Seq<char>>,
    visited: Seq<Seq<char>>,
    t0: Seq<(Seq<char>, Seq<char>)>,
    fsv: Seq<FsDirV>,
    now: u64,
) -> nat
    decreases keys.len(),
{
    if keys.len() == 0 {
        0
    } else {
        (if visited.contains(keys[0]) {
            0
        } else {
            charge(t0, fsv, keys[0], now)
        }) + pot_over(keys.drop_first(), visited, t0, fsv, now)
    }
}

/// The whole walk's measure: twice the queue, the in-flight count, and the
/// remaining charge of every path that could still produce children.
pub open spec fn trav_measure(
    t0: Seq<(Seq<char>, Seq<char>)>,
    fsv: Seq<FsDirV>,
    pend_len: nat,
    infl_len: nat,
    visited: Seq<Seq<char>>,
    now: u64,
) -> nat {
    2 * pend_len + infl_len + pot_over(table_keys(t0), visited, t0, fsv, now) + pot_over(
        fs_paths(fsv),
        visited,
        t0,
        fsv,
        now,
    )
}

/// Marking one more path visited never raises a charge total, and removes at
/// least the path's own charge when the path is among the keys.
proof fn lemma_pot_push(
    keys: Seq<Seq<char>>,
    visited: Seq<Seq<char>>,
    p: Seq<char>,
    t0: Seq<(Seq<char>, Seq<char>)>,
    fsv: Seq<FsDirV>,
    now: u64,
)
    requires
        !visited.contains(p),
    ensures
        pot_over(keys, visited.push(p), t0, fsv, now) <= pot_over(keys, visited, t0, fsv, now),
        keys.contains(p) ==> pot_over(keys, visited.push(p), t0, fsv, now) + charge(t0, fsv, p, now)
            <= pot_over(keys, visited, t0, fsv, now),
    decreases keys.len(),
{
    if keys.len() > 0 {
        lemma_pot_push(keys.drop_first(), visited, p, t0, fsv, now);
        if keys[0] == p {
            assert(visited.push(p).contains(keys[0])) by {
                assert(visited.push(p)[visited.len() as int] == p);
            }
        } else {
            assert(visited.push(p).contains(keys[0]) == visited.contains(keys[0])) by {
                if visited.push(p).contains(keys[0]) {
                    let i = choose|i: int|
                        0 <= i < visited.push(p).len() && visited.push(p)[i] == keys[0];
                    if i < visited.len() {
                        assert(visited[i] == keys[0]);
                    }
                }
                if visited.contains(keys[0]) {
                    let i = choose|i: int| 0 <= i < visited.len() && visited[i] == keys[0];
                    assert(visited.push(p)[i] == keys[0]);
                }
            }
        }
        if keys.contains(p) && keys[0] != p {
            let i = choose|i: int| 0 <= i < keys.len() && keys[i] == p;
            assert(keys.drop_first()[i - 1] == p);
            assert(keys.drop_first().contains(p));
        }
    }
}

/// A key with a stored row appears among the table's keys.
proof fn lemma_lookup_in_keys(t0: Seq<(Seq<char>, Seq<char>)>, p: Seq<char>)
    ensures
        kv_lookup(t0, p) is Some ==> table_keys(t0).contains(p),
    decreases t0.len(),
{
    if t0.len() > 0 {
        if t0[0].0 == p {
            assert(table_keys(t0)[0] == p);
        } else {
            lemma_lookup_in_keys(t0.drop_first(), p);
            if kv_lookup(t0, p) is Some {
                let i = choose|i: int|
                    0 <= i < table_keys(t0.drop_first()).len() && table_keys(t0.drop_first())[i]
                        == p;
                assert(table_keys(t0.drop_first())[i] == t0.drop_first()[i].0);
                assert(t0.drop_first()[i] == t0[i + 1]);
                assert(table_keys(t0)[i + 1] == p);
            }
        }
    }
}

/// A path with a snapshot entry appears among the snapshot's paths.
proof fn lemma_fs_lookup_in_paths(fsv: Seq<FsDirV>, p: Seq<char>)
    ensures
        fs_lookup(fsv, p) is Some ==> fs_paths(fsv).contains(p),
    decreases fsv.len(),
{
    if fsv.len() > 0 {
        if fsv[0].path == p {
            assert(fs_paths(fsv)[0] == p);
        } else {
            lemma_fs_lookup_in_paths(fsv.drop_first(), p);
            if fs_lookup(fsv, p) is Some {
                let i = choose|i: int|
                    0 <= i < fs_paths(fsv.drop_first()).len() && fs_paths(fsv.drop_first())[i]
                        == p;
                assert(fs_paths(fsv.drop_first())[i] == fsv.drop_first()[i].path);
                assert(fsv.drop_first()[i] == fsv[i + 1]);
                assert(fs_paths(fsv)[i + 1] == p);
            }
        }
    }
}

/// A path with neither a stored row nor a snapshot entry is visited as a
/// no-op with no children: its visit cannot enqueue anything.
proof fn lemma_uncharged_no_children(
    t0: Seq<(Seq<char>, Seq<char>)>,
    fsv: Seq<FsDirV>,
    p: Seq<char>,
    now: u64,
)
    requires
        !table_keys(t0).contains(p),
        !fs_paths(fsv).contains(p),
    ensures
        children_of(visit_spec(t0, fsv, p, now).0, p).len() == 0,
{
    lemma_lookup_in_keys(t0, p);
    lemma_fs_lookup_in_paths(fsv, p);
    assert(kv_lookup(t0, p) is None);
    assert(dirstat_lookup(t0, p) is None);
    assert(fs_lookup(fsv, p) is None);
    assert(visit_spec(t0, fsv, p, now).0 == crate::dirstat::default_stat(p, now));
}


/// Everything one fresh visit re-establishes: the extended log keeps every
/// per-visit clause, the queue stays sound and tracked, and the measure
/// falls.
proof fn lemma_visit_step(
    t0: Seq<(Seq<char>, Seq<char>)>,
    fsv: Seq<FsDirV>,
    now: u64,
    log: Seq<VisitV>,
    logn: Seq<VisitV>,
    pend_entry: Seq<String>,
    pend2: Seq<String>,
    pendnew: Seq<String>,
    path_g: String,
    infl_len: nat,
    depth_first: bool,
)
    requires
        children_tracked(log, pend_entry),
        queue_sound(log, pend_entry),
        forall|k: int|
            0 < k < log.len() ==> queued_from(log.subrange(0, k), (#[trigger] log[k]).path),
        dispatched(pend_entry, pend2, path_g, depth_first),
        !log_paths(log).contains(path_g@),
        logn.len() == log.len() + 1,
        forall|k: int| 0 <= k < log.len() ==> #[trigger] logn[k] == log[k],
        logn[log.len() as int].path == path_g@,
        (logn[log.len() as int].stat, logn[log.len() as int].hit) == visit_spec(
            t0,
            fsv,
            path_g@,
            now,
        ),
        pendnew.len() == pend2.len() + children_of(
            logn[log.len() as int].stat,
            path_g@,
        ).len(),
        forall|i: int| 0 <= i < pend2.len() ==> #[trigger] pendnew[i] == pend2[i],
        forall|m: int|
            0 <= m < children_of(logn[log.len() as int].stat, path_g@).len() ==> (
            #[trigger] pendnew[pend2.len() + m])@ == children_of(
                logn[log.len() as int].stat,
                path_g@,
            )[m],
    ensures
        log_paths(logn) == log_paths(log).push(path_g@),
        children_tracked(logn, pendnew),
        queue_sound(logn, pendnew),
        forall|k: int|
            0 < k < logn.len() ==> queued_from(logn.subrange(0, k), (#[trigger] logn[k]).path),
        trav_measure(t0, fsv, pendnew.len(), infl_len + 1, log_paths(logn), now) < trav_measure(
            t0,
            fsv,
            pend_entry.len(),
            infl_len,
            log_paths(log),
            now,
        ),
{
    let v = logn[log.len() as int];
    let pathv = path_g@;
    assert(logn =~= log.push(v));
    assert(log_paths(logn) =~= log_paths(log).push(pathv));
    lemma_tracked_after_visit(log, logn, pend_entry, pend2, pendnew, path_g, v, depth_first);
    lemma_sound_after_dispatch(log, pend_entry, pend2, path_g, depth_first);
    lemma_sound_after_visit(log, logn, pend2, pendnew, v);
    assert forall|k: int| 0 < k < logn.len() implies queued_from(
        logn.subrange(0, k),
        (#[trigger] logn[k]).path,
    ) by {
        if k < log.len() {
            assert(logn.subrange(0, k) =~= log.subrange(0, k));
            assert(logn[k] == log[k]);
        } else {
            assert(logn.subrange(0, k) =~= log);
            assert(logn[k].path == pathv);
        }
    }
    lemma_pot_push(table_keys(t0), log_paths(log), pathv, t0, fsv, now);
    lemma_pot_push(fs_paths(fsv), log_paths(log), pathv, t0, fsv, now);
    if !table_keys(t0).contains(pathv) && !fs_paths(fsv).contains(pathv) {
        lemma_uncharged_no_children(t0, fsv, pathv, now);
        assert(children_of(v.stat, v.path).len() == 0);
    } else {
        assert(charge(t0, fsv, pathv, now) == 2 * children_of(v.stat, v.path).len() + 1);
    }
}


/// Dispatching an already-visited path is a no-op visit: the queue shrinks
/// and stays sound and tracked.
proof fn lemma_dup_step(
    log: Seq<VisitV>,
    pend_entry: Seq<String>,
    pend1: Seq<String>,
    path: String,
    depth_first: bool,
    visitedv: Seq<String>,
)
    requires
        children_tracked(log, pend_entry),
        queue_sound(log, pend_entry),
        dispatched(pend_entry, pend1, path, depth_first),
        visitedv.len() == log.len(),
        forall|k: int| 0 <= k < log.len() ==> (#[trigger] visitedv[k])@ == log[k].path,
        exists|i: int| 0 <= i < visitedv.len() && (#[trigger] visitedv[i])@ == path@,
    ensures
        children_tracked(log, pend1),
        queue_sound(log, pend1),
        log_paths(log).contains(path@),
{
    let vk = choose|i: int| 0 <= i < visitedv.len() && (#[trigger] visitedv[i])@ == path@;
    assert(log_paths(log)[vk] == log[vk].path);
    assert(log_paths(log).contains(path@));
    lemma_tracked_after_dup(log, pend_entry, pend1, path, depth_first);
    lemma_sound_after_dispatch(log, pend_entry, pend1, path, depth_first);
}

/// Folding the next in-flight overview advances the folded prefix by one.
proof fn lemma_fold_step(log: Seq<VisitV>, folded: int)
    requires
        1 <= folded <= log.len(),
    ensures
        fold_visits(log.subrange(0, folded)) == absorb_spec(
            fold_visits(log.subrange(0, folded - 1)),
            overview_of(log[folded - 1].stat, log[folded - 1].hit),
        ),
{
    assert(log.subrange(0, folded).drop_last() =~= log.subrange(0, folded - 1));
    assert(log.subrange(0, folded).last() == log[folded - 1]);
}


// ---------------------------------------------------------------------------
// The two strategies agree
// ---------------------------------------------------------------------------
/// Every path of a valid log appears in every other valid log of the same
/// traversal: the earlier-visit chain grounds each path in the root, and the
/// other log's closure picks the chain up link by link.
proof fn lemma_paths_subset(
    t0: Seq<(Seq<char>, Seq<char>)>,
    fsv: Seq<FsDirV>,
    root: Seq<char>,
    now: u64,
    loga: Seq<VisitV>,
    logb: Seq<VisitV>,
    k: int,
)
    requires
        log_wf(t0, fsv, root, now, loga),
        log_wf(t0, fsv, root, now, logb),
        0 <= k < loga.len(),
    ensures
        log_paths(logb).contains(loga[k].path),
    decreases k,
{
    if k == 0 {
        assert(log_paths(logb)[0] == logb[0].path);
    } else {
        assert(queued_from(loga.subrange(0, k), loga[k].path));
        let j = choose|j: int|
            0 <= j < loga.subrange(0, k).len() && children_of(
                #[trigger] loga.subrange(0, k)[j].stat,
                loga.subrange(0, k)[j].path,
            ).contains(loga[k].path);
        assert(loga.subrange(0, k)[j] == loga[j]);
        lemma_paths_subset(t0, fsv, root, now, loga, logb, j);
        let m = choose|m: int|
            0 <= m < log_paths(logb).len() && log_paths(logb)[m] == loga[j].path;
        assert(logb[m].path == loga[j].path);
        assert((logb[m].stat, logb[m].hit) == visit_spec(t0, fsv, logb[m].path, now));
        assert((loga[j].stat, loga[j].hit) == visit_spec(t0, fsv, loga[j].path, now));
        assert(logb[m].stat == loga[j].stat);
        assert(children_of(logb[m].stat, logb[m].path).contains(loga[k].path));
    }
}

/// Two folds absorb in either order.
proof fn lemma_absorb_swap(r: DirScanResult, a: DirScanOverview, b: DirScanOverview)
    ensures
        absorb_spec(absorb_spec(r, a), b) == absorb_spec(absorb_spec(r, b), a),
{
}

/// Moving one visit to the end of the log does not change the fold.
proof fn lemma_fold_exchange(l: Seq<VisitV>, i: int)
    requires
        0 <= i < l.len(),
    ensures
        fold_visits(l) == fold_visits(l.remove(i).push(l[i])),
    decreases l.len(),
{
    if i == l.len() - 1 {
        assert(l.remove(i).push(l[i]) =~= l);
    } else {
        let y = l.last();
        let dl = l.drop_last();
        lemma_fold_exchange(dl, i);
        assert(dl[i] == l[i]);
        let moved = dl.remove(i).push(dl[i]);
        assert(fold_visits(dl) == fold_visits(moved));
        assert(moved.drop_last() =~= dl.remove(i));
        assert(moved.last() == l[i]);
        lemma_absorb_swap(
            fold_visits(dl.remove(i)),
            overview_of(l[i].stat, l[i].hit),
            overview_of(y.stat, y.hit),
        );
        assert(l.remove(i).drop_last() =~= dl.remove(i));
        assert(l.remove(i).last() == y);
        assert(l.remove(i).push(l[i]).drop_last() =~= l.remove(i));
        assert(l.remove(i).push(l[i]).last() == l[i]);
        assert(fold_visits(l) == absorb_spec(fold_visits(dl), overview_of(y.stat, y.hit)));
        assert(fold_visits(moved) == absorb_spec(
            fold_visits(dl.remove(i)),
            overview_of(l[i].stat, l[i].hit),
        ));
        assert(fold_visits(l.remove(i)) == absorb_spec(
            fold_visits(dl.remove(i)),
            overview_of(y.stat, y.hit),
        ));
        assert(fold_visits(l.remove(i).push(l[i])) == absorb_spec(
            fold_visits(l.remove(i)),
            overview_of(l[i].stat, l[i].hit),
        ));
    }
}

/// Two duplicate-free logs of determined visits over the same path set fold
/// to the same session.
proof fn lemma_fold_agree(
    t0: Seq<(Seq<char>, Seq<char>)>,
    fsv: Seq<FsDirV>,
    now: u64,
    l1: Seq<VisitV>,
    l2: Seq<VisitV>,
)
    requires
        forall|a: int, b: int|
            0 <= a < b < l1.len() ==> (#[trigger] l1[a]).path != (#[trigger] l1[b]).path,
        forall|a: int, b: int|
            0 <= a < b < l2.len() ==> (#[trigger] l2[a]).path != (#[trigger] l2[b]).path,
        forall|k: int|
            0 <= k < l1.len() ==> ((#[trigger] l1[k]).stat, l1[k].hit) == visit_spec(
                t0,
                fsv,
                l1[k].path,
                now,
            ),
        forall|k: int|
            0 <= k < l2.len() ==> ((#[trigger] l2[k]).stat, l2[k].hit) == visit_spec(
                t0,
                fsv,
                l2[k].path,
                now,
            ),
        forall|p: Seq<char>|
            #[trigger] log_paths(l1).contains(p) == log_paths(l2).contains(p),
    ensures
        fold_visits(l1) == fold_visits(l2),
    decreases l2.len(),
{
    if l2.len() == 0 {
        if l1.len() > 0 {
            assert(log_paths(l1)[0] == l1[0].path);
            assert(log_paths(l1).contains(l1[0].path));
            assert(log_paths(l2).contains(l1[0].path));
        }
        assert(l1.len() == 0);
    } else {
        let x = l2.last();
        assert(log_paths(l2)[l2.len() - 1] == x.path);
        assert(log_paths(l2).contains(x.path));
        assert(log_paths(l1).contains(x.path));
        let i = choose|i: int| 0 <= i < log_paths(l1).len() && log_paths(l1)[i] == x.path;
        assert(l1[i].path == x.path);
        assert((l1[i].stat, l1[i].hit) == visit_spec(t0, fsv, x.path, now));
        assert((x.stat, x.hit) == visit_spec(t0, fsv, x.path, now));
        assert(l1[i] == x);
        lemma_fold_exchange(l1, i);
        let r1 = l1.remove(i);
        let d2 = l2.drop_last();
        assert(l1.remove(i).push(x).drop_last() =~= r1);
        assert(l1.remove(i).push(x).last() == x);
        // the shortened logs still satisfy everything
        assert(forall|k: int| 0 <= k < r1.len() ==> #[trigger] r1[k] == (if k < i {
            l1[k]
        } else {
            l1[k + 1]
        }));
        assert(forall|k: int| 0 <= k < d2.len() ==> #[trigger] d2[k] == l2[k]);
        assert forall|p: Seq<char>| #[trigger]
        log_paths(r1).contains(p) == log_paths(d2).contains(p) by {
            lemma_paths_minus(l1, i, p);
            lemma_paths_minus(l2, l2.len() - 1, p);
            assert(l2.remove(l2.len() - 1) =~= d2);
        }
        lemma_fold_agree(t0, fsv, now, r1, d2);
    }
}

/// Removing one visit removes exactly its path from a duplicate-free log.
proof fn lemma_paths_minus(l: Seq<VisitV>, i: int, p: Seq<char>)
    requires
        forall|a: int, b: int|
            0 <= a < b < l.len() ==> (#[trigger] l[a]).path != (#[trigger] l[b]).path,
        0 <= i < l.len(),
    ensures
        log_paths(l.remove(i)).contains(p) == (log_paths(l).contains(p) && p != l[i].path),
{
    let r = l.remove(i);
    if log_paths(r).contains(p) {
        let k = choose|k: int| 0 <= k < log_paths(r).len() && log_paths(r)[k] == p;
        if k < i {
            assert(r[k] == l[k]);
            assert(log_paths(l)[k] == p);
        } else {
            assert(r[k] == l[k + 1]);
            assert(log_paths(l)[k + 1] == p);
        }
        assert(p != l[i].path);
    }
    if log_paths(l).contains(p) && p != l[i].path {
        let k = choose|k: int| 0 <= k < log_paths(l).len() && log_paths(l)[k] == p;
        assert(l[k].path == p);
        if k < i {
            assert(r[k] == l[k]);
            assert(log_paths(r)[k] == p);
        } else {
            assert(k > i);
            assert(r[k - 1] == l[k]);
            assert(log_paths(r)[k - 1] == p);
        }
    }
}

/// The two traversal strategies agree: any two valid visit logs of the same
/// root against the same initial cache and snapshot fold to the same session
/// totals, whatever order the scheduling produced.
pub proof fn lemma_traversal_strategies_agree(
    t0: Seq<(Seq<char>, Seq<char>)>,
    fsv: Seq<FsDirV>,
    root: Seq<char>,
    now: u64,
    log1: Seq<VisitV>,
    log2: Seq<VisitV>,
)
    requires
        log_wf(t0, fsv, root, now, log1),
        log_wf(t0, fsv, root, now, log2),
    ensures
        fold_visits(log1) == fold_visits(log2),
{
    assert forall|p: Seq<char>| #[trigger]
    log_paths(log1).contains(p) == log_paths(log2).contains(p) by {
        if log_paths(log1).contains(p) {
            let k = choose|k: int| 0 <= k < log_paths(log1).len() && log_paths(log1)[k] == p;
            assert(log1[k].path == p);
            lemma_paths_subset(t0, fsv, root, now, log1, log2, k);
        }
        if log_paths(log2).contains(p) {
            let k = choose|k: int| 0 <= k < log_paths(log2).len() && log_paths(log2)[k] == p;
            assert(log2[k].path == p);
            lemma_paths_subset(t0, fsv, root, now, log2, log1, k);
        }
    }
    lemma_fold_agree(t0, fsv, now, log1, log2);
}

/// Walk the subtree of `root`: visit each reachable directory once, fold
/// every visit's overview into one session, and stop when the queue is empty
/// and no simulated worker is outstanding.  `depth_first` picks the
/// dispatch order; `cap` bounds how many scans are in flight at once.
#[verifier::rlimit(100)]
#[verifier::spinoff_prover]
fn traverse(db: &mut Db, fs: &FsModel, root: &str, now: u64, depth_first: bool, cap: u64) -> (r: (
    DirScanResult,
    Ghost<Seq<VisitV>>,
))
    requires
        db_ready(*old(db)),
        cap >= 1,
    ensures
        traversal_post(
            old(db).table_view(table_dir_stat_name()),
            *final(db),
            old(db).tables@,
            fs_view(*fs),
            root@,
            now,
            r.0,
            r.1@,
        ),
{
    let ghost t0 = old(db).table_view(table_dir_stat_name());
    let ghost tables0 = old(db).tables@;
    let ghost fsv = fs_view(*fs);
    let probe0 = probe_of(fs, root);
    let (stat0, hit0) = scan_one_dir(db, root, &probe0, now);
    let ghost mut log: Seq<VisitV> = seq![
        VisitV { path: root@, stat: stat0@, hit: hit0 },
    ];
    let mut visited: Vec<String> = Vec::new();
    visited.push(root.to_owned());
    let mut result = DirScanResult::new();
    let ov0 = DirScanOverview {
        dirs: stat0.subdir_num,
        files: stat0.file_num,
        blocks: stat0.blocks,
        is_cached: hit0,
    };
    result.absorb(&ov0);
    let ghost mut folded: int = 1;
    let mut pool: WorkPool<String> = WorkPool::new(cap);
    enqueue_children(&mut pool, root, &stat0.sub_dirs);
    let mut inflight: Vec<DirScanOverview> = Vec::new();
    proof {
        assert(log.subrange(0, 1) =~= log);
        assert(log_paths(log) =~= seq![root@]);
        assert forall|kk: Seq<char>| !log_paths(log).contains(kk) implies #[trigger]
        dirstat_lookup(db.table_view(table_dir_stat_name()), kk) == dirstat_lookup(t0, kk) by {
            assert(kk != root@) by {
                assert(log_paths(log)[0] == root@);
            }
        }
        assert(log.drop_last() =~= Seq::<VisitV>::empty());
        assert(log.last() == (VisitV { path: root@, stat: stat0@, hit: hit0 }));
        assert(ov0 == overview_of(stat0@, hit0));
        assert(fold_visits(Seq::<VisitV>::empty()) == new_result_spec());
        assert(result == absorb_spec(new_result_spec(), ov0));
        assert(fold_visits(log.subrange(0, 1)) == result);
        assert(forall|m: int|
            0 <= m < stat0@.sub_dirs.len() ==> #[trigger] children_of(stat0@, root@)[m]
                == child_path(root@, stat0@.sub_dirs[m]));
        assert(queue_sound(log, pool.pendings@)) by {
            assert forall|i: int| 0 <= i < pool.pendings@.len() implies queued_from(
                log,
                (#[trigger] pool.pendings@[i])@,
            ) by {
                assert(stat0@.sub_dirs[i] == stat0.sub_dirs@[i]@);
                assert(pool.pendings@[0 + i]@ == child_path(root@, stat0.sub_dirs@[i]@));
                assert(children_of(log[0].stat, log[0].path)[i] == (pool.pendings@[i])@);
            }
        }
        assert(children_tracked(log, pool.pendings@)) by {
            assert forall|k: int, c: Seq<char>|
                0 <= k < log.len() && #[trigger] children_of(log[k].stat, log[k].path).contains(c)
                implies log_paths(log).contains(c) || exists|i: int|
                0 <= i < pool.pendings@.len() && (#[trigger] pool.pendings@[i])@ == c by {
                let m = choose|m: int|
                    0 <= m < children_of(stat0@, root@).len() && children_of(stat0@, root@)[m]
                        == c;
                assert(children_of(stat0@, root@)[m] == child_path(root@, stat0@.sub_dirs[m]));
                assert(stat0@.sub_dirs[m] == stat0.sub_dirs@[m]@);
                assert(pool.pendings@[0 + m]@ == child_path(root@, stat0.sub_dirs@[m]@));
                assert(pool.pendings@[m]@ == c);
            }
        }
    }
    while !(pool.pending_count() == 0 && inflight.len() == 0)
        invariant
            db_ready(*db),
            fsv == fs_view(*fs),
            pool.wf(),
            pool.active == inflight@.len(),
            0 <= folded,
            folded + inflight@.len() == log.len(),
            result == fold_visits(log.subrange(0, folded)),
            forall|m: int|
                0 <= m < inflight@.len() ==> #[trigger] inflight@[m] == overview_of(
                    log[folded + m].stat,
                    log[folded + m].hit,
                ),
            visited@.len() == log.len(),
            forall|k: int| 0 <= k < log.len() ==> (#[trigger] visited@[k])@ == log[k].path,
            forall|a: int, b: int|
                0 <= a < b < log.len() ==> (#[trigger] log[a]).path != (#[trigger] log[b]).path,
            forall|k: int|
                0 <= k < log.len() ==> ((#[trigger] log[k]).stat, log[k].hit) == visit_spec(
                    t0,
                    fsv,
                    log[k].path,
                    now,
                ),
            log.len() >= 1 && log[0].path == root@,
            children_tracked(log, pool.pendings@),
            queue_sound(log, pool.pendings@),
            forall|k: int|
                0 < k < log.len() ==> queued_from(log.subrange(0, k), (#[trigger] log[k]).path),
            forall|k: Seq<char>|
                !log_paths(log).contains(k) ==> #[trigger] dirstat_lookup(
                    db.table_view(table_dir_stat_name()),
                    k,
                ) == dirstat_lookup(t0, k),
            forall|n: Seq<char>|
                n != table_dir_stat_name() ==> #[trigger] tview(db.tables@, n) == tview(
                    tables0,
                    n,
                ),
            result.spent == 0,
            result.ongoing == true,
            result.status == ProgressStatus::STARTED,
            covers(result),
        decreases trav_measure(t0, fsv, pool.pendings@.len(), inflight@.len(), log_paths(log), now),
    {
        if pool.must_wait() {
            proof {
                if inflight@.len() == 0 {
                    assert(pool.active == 0);
                    assert(pool.pendings@.len() == 0);
                }
            }
            let ov = inflight.remove(0);
            pool.complete_one();
            result.absorb(&ov);
            proof {
                folded = folded + 1;
                lemma_fold_step(log, folded);
            }
        } else {
            let ghost pend_entry = pool.pendings@;
            let path = pool.dispatch(depth_first);
            if contains_string(&visited, path.as_str()) {
                pool.complete_one();
                proof {
                    lemma_dup_step(log, pend_entry, pool.pendings@, path, depth_first, visited@);
                }
            } else {
                let ghost pend2 = pool.pendings@;
                let ghost pathv = path@;
                let ghost path_g = path;
                proof {
                    assert forall|k: int| 0 <= k < log.len() implies (#[trigger] visited@[k])@
                        != path@ by {}
                }
                let gl = visit_one(
                    db,
                    fs,
                    &mut pool,
                    &mut inflight,
                    &mut visited,
                    path,
                    now,
                    Ghost(t0),
                    Ghost(tables0),
                    Ghost(log),
                );
                proof {
                    let logn = gl@;
                    assert(!log_paths(log).contains(pathv)) by {
                        if log_paths(log).contains(pathv) {
                            let k = choose|k: int|
                                0 <= k < log_paths(log).len() && log_paths(log)[k] == pathv;
                            assert(visited@[k]@ == log[k].path);
                        }
                    }
                    lemma_visit_step(
                        t0,
                        fsv,
                        now,
                        log,
                        logn,
                        pend_entry,
                        pend2,
                        pool.pendings@,
                        path_g,
                        (inflight@.len() - 1) as nat,
                        depth_first,
                    );
                    assert(logn.subrange(0, folded) =~= log.subrange(0, folded)) by {
                        assert forall|k: int| 0 <= k < folded implies logn.subrange(0, folded)[k]
                            == log.subrange(0, folded)[k] by {
                            assert(logn[k] == log[k]);
                        }
                    }
                    assert(logn[0] == log[0]);
                    log = logn;
                }
            }
        }
    }
    proof {
        assert(inflight@.len() == 0);
        assert(folded == log.len());
        assert(log.subrange(0, folded) =~= log);
        assert forall|k: int, c: Seq<char>|
            0 <= k < log.len() && #[trigger] children_of(log[k].stat, log[k].path).contains(c)
            implies log_paths(log).contains(c) by {}
    }
    (result, Ghost(log))
}

/// Sequential depth-first traversal of the subtree of `root`: one scan at a
/// time, dispatched work-stack style.
pub fn compute_dir_stats_recursive(db: &mut Db, fs: &FsModel, root: &str, now: u64) -> (r: (
    DirScanResult,
    Ghost<Seq<VisitV>>,
))
    requires
        db_ready(*old(db)),
    ensures
        traversal_post(
            old(db).table_view(table_dir_stat_name()),
            *final(db),
            old(db).tables@,
            fs_view(*fs),
            root@,
            now,
            r.0,
            r.1@,
        ),
{
    traverse(db, fs, root, now, true, 1)
}

/// Bounded-parallel traversal of the subtree of `root`: a shared first-in
/// first-out queue of pending paths feeds at most eight in-flight scans,
/// whose overviews are folded in completion order.
pub fn compute_dir_stats_loop_parallel(db: &mut Db, fs: &FsModel, root: &str, now: u64) -> (r: (
    DirScanResult,
    Ghost<Seq<VisitV>>,
))
    requires
        db_ready(*old(db)),
    ensures
        traversal_post(
            old(db).table_view(table_dir_stat_name()),
            *final(db),
            old(db).tables@,
            fs_view(*fs),
            root@,
            now,
            r.0,
            r.1@,
        ),
{
    traverse(db, fs, root, now, false, 8)
}

} // verus!
