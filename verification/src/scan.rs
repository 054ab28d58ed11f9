//! Aggregate scan counters and the single-directory scanner.
//!
//! Counters add with saturation at `u64::MAX`, which keeps pairwise addition
//! a commutative monoid and rules overflow out.
use vstd::prelude::*;
use crate::cmd::ProgressStatus;
use crate::kvstore::{Db, kv_set, tview, lemma_kv_set_props};
use crate::db::{db_ready, table_dir_stat_name};
use crate::dirstat::{DirStat, DirStatV, default_stat, dirstat_lookup, enc_dirstat, get_dir_stat,
    save_dir_stat, lemma_roundtrip_dirstat};

verus! {

/// Saturating addition of counters.
pub open spec fn sat_add(a: u64, b: u64) -> u64 {
    if a + b > u64::MAX {
        u64::MAX
    } else {
        (a + b) as u64
    }
}

/// Aggregate counters of one scan contribution: how many directories, files
/// and allocated blocks it saw, and whether it was served from cache.
#[derive(Debug, Clone, Copy, PartialEq, Eq, Structural)]
pub struct DirScanOverview {
    pub dirs: u64,
    pub files: u64,
    pub blocks: u64,
    pub is_cached: bool,
}

/// Pairwise addition of the counters; the cache tag of the left, accumulating
/// side is carried through unchanged.
pub open spec fn combine(a: DirScanOverview, b: DirScanOverview) -> DirScanOverview {
    DirScanOverview {
        dirs: sat_add(a.dirs, b.dirs),
        files: sat_add(a.files, b.files),
        blocks: sat_add(a.blocks, b.blocks),
        is_cached: a.is_cached,
    }
}

impl DirScanOverview {
    pub fn new() -> (r: DirScanOverview)
        ensures
            r == (DirScanOverview { dirs: 0, files: 0, blocks: 0, is_cached: false }),
    {
        DirScanOverview { dirs: 0, files: 0, blocks: 0, is_cached: false }
    }

    /// Fold another overview into this one.
    pub fn add_assign(&mut self, o: &DirScanOverview)
        ensures
            *final(self) == combine(*old(self), *o),
    {
        self.dirs = self.dirs.saturating_add(o.dirs);
        self.files = self.files.saturating_add(o.files);
        self.blocks = self.blocks.saturating_add(o.blocks);
    }
}

impl Default for DirScanOverview {
    fn default() -> (r: DirScanOverview)
        ensures
            r == (DirScanOverview { dirs: 0, files: 0, blocks: 0, is_cached: false }),
    {
        DirScanOverview::new()
    }
}

/// Combination of overviews is associative, and a zero-valued overview is an
/// identity: a right identity outright, a left identity on the numeric
/// fields (the cache tag always comes from the left).
pub proof fn lemma_overview_monoid(a: DirScanOverview, b: DirScanOverview, c: DirScanOverview)
    ensures
        combine(combine(a, b), c) == combine(a, combine(b, c)),
        b.dirs == 0 && b.files == 0 && b.blocks == 0 ==> combine(a, b) == a,
        a.dirs == 0 && a.files == 0 && a.blocks == 0 ==> {
            &&& combine(a, b).dirs == b.dirs
            &&& combine(a, b).files == b.files
            &&& combine(a, b).blocks == b.blocks
            &&& combine(a, b).is_cached == a.is_cached
        },
{
}

/// Combination of overviews is commutative on the numeric fields.
pub proof fn lemma_overview_commutes(a: DirScanOverview, b: DirScanOverview)
    ensures
        combine(a, b).dirs == combine(b, a).dirs,
        combine(a, b).files == combine(b, a).files,
        combine(a, b).blocks == combine(b, a).blocks,
{
}

/// One full scan session: what was served from cache, everything that was
/// visited, the elapsed seconds, and whether the session still runs.
#[derive(Debug, Clone, Copy, PartialEq, Eq, Structural)]
pub struct DirScanResult {
    pub cached: DirScanOverview,
    pub scanned: DirScanOverview,
    /// Elapsed wall-clock time, in seconds.
    pub spent: u64,
    pub ongoing: bool,
    /// Terminal outcome of the session; `STARTED` while it runs.
    pub status: ProgressStatus,
}

/// Every cached contribution is also counted among the scanned ones.
pub open spec fn covers(r: DirScanResult) -> bool {
    &&& r.scanned.dirs >= r.cached.dirs
    &&& r.scanned.files >= r.cached.files
    &&& r.scanned.blocks >= r.cached.blocks
}

impl DirScanResult {
    pub fn new() -> (r: DirScanResult)
        ensures
            r.cached == (DirScanOverview { dirs: 0, files: 0, blocks: 0, is_cached: true }),
            r.scanned == (DirScanOverview { dirs: 0, files: 0, blocks: 0, is_cached: false }),
            r.spent == 0,
            r.ongoing == true,
            r.status == ProgressStatus::STARTED,
            covers(r),
    {
        let mut obj = DirScanResult {
            cached: DirScanOverview::new(),
            scanned: DirScanOverview::new(),
            spent: 0,
            ongoing: true,
            status: ProgressStatus::STARTED,
        };
        obj.cached.is_cached = true;
        obj
    }

    /// Fold one worker's overview into the running totals: always into
    /// `scanned`, and into `cached` too when it came from cache.
    pub fn absorb(&mut self, o: &DirScanOverview)
        ensures
            final(self).scanned == combine(old(self).scanned, *o),
            final(self).cached == if o.is_cached {
                combine(old(self).cached, *o)
            } else {
                old(self).cached
            },
            final(self).spent == old(self).spent,
            final(self).ongoing == old(self).ongoing,
            final(self).status == old(self).status,
            covers(*old(self)) ==> covers(*final(self)),
    {
        self.scanned.add_assign(o);
        if o.is_cached {
            self.cached.add_assign(o);
        }
    }
}

// ---------------------------------------------------------------------------
// Probing a directory, and the single-directory scanner
// ---------------------------------------------------------------------------
/// What kind of child a directory entry is; files carry their allocated
/// block count (not their logical size, so sparse files count correctly).
#[derive(Debug, Clone, Copy, PartialEq, Eq, Structural)]
pub enum EntryKind {
    File { blocks: u64 },
    Dir,
    Other,
}

/// One entry of a directory listing.
#[derive(Debug)]
pub struct DirEntryInfo {
    pub name: String,
    pub kind: EntryKind,
}

/// The mathematical value of a listing entry.
pub ghost struct DirEntryV {
    pub name: Seq<char>,
    pub kind: EntryKind,
}

impl View for DirEntryInfo {
    type V = DirEntryV;

    open spec fn view(&self) -> DirEntryV {
        DirEntryV { name: self.name@, kind: self.kind }
    }
}

pub open spec fn entries_view(es: Seq<DirEntryInfo>) -> Seq<DirEntryV> {
    es.map_values(|e: DirEntryInfo| e@)
}

/// What the operating system reported about a directory: its modification
/// time (`None` when the metadata was unreadable) and its listing (`None`
/// when it was not read, or reading it failed).
#[derive(Debug)]
pub struct DirProbe {
    pub mtime: Option<i64>,
    pub entries: Option<Vec<DirEntryInfo>>,
}

pub ghost struct DirProbeV {
    pub mtime: Option<i64>,
    pub entries: Option<Seq<DirEntryV>>,
}

impl View for DirProbe {
    type V = DirProbeV;

    open spec fn view(&self) -> DirProbeV {
        DirProbeV {
            mtime: self.mtime,
            entries: match self.entries {
                Some(es) => Some(entries_view(es@)),
                None => None,
            },
        }
    }
}

/// Folding a listing: how many files and directories it holds, the sum of
/// the files' allocated blocks, and the subdirectory names in listing order.
pub open spec fn scan_tally(es: Seq<DirEntryV>) -> (u64, u64, u64, Seq<Seq<char>>)
    decreases es.len(),
{
    if es.len() == 0 {
        (0u64, 0u64, 0u64, Seq::empty())
    } else {
        let (f, d, b, names) = scan_tally(es.drop_last());
        match es.last().kind {
            EntryKind::File { blocks } => (sat_add(f, 1), d, sat_add(b, blocks), names),
            EntryKind::Dir => (f, sat_add(d, 1), b, names.push(es.last().name)),
            EntryKind::Other => (f, d, b, names),
        }
    }
}

/// The snapshot a cache-miss rescan produces: counters recomputed from the
/// fresh listing, the subdirectory list rebuilt, the modification time and
/// timestamp updated.
pub open spec fn rescan_stat(prior: DirStatV, m: i64, es: Seq<DirEntryV>, now: u64) -> DirStatV {
    let (f, d, b, names) = scan_tally(es);
    DirStatV {
        ts: now,
        mtime: m,
        subdir_num: d,
        file_num: f,
        blocks: b,
        sub_dirs: names,
        path: prior.path,
    }
}

/// The scanner's decision: unreadable metadata, a matching modification time
/// and a failed listing each return the prior snapshot as a cache hit; only
/// a changed modification time with a fresh listing rescans.
pub open spec fn scan_decision(
    prior_opt: Option<DirStatV>,
    path: Seq<char>,
    probe: DirProbeV,
    now: u64,
) -> (DirStatV, bool) {
    let prior = match prior_opt {
        Some(st) => st,
        None => default_stat(path, now),
    };
    match probe.mtime {
        None => (prior, true),
        Some(m) => if prior.mtime == m {
            (prior, true)
        } else {
            match probe.entries {
                None => (prior, true),
                Some(es) => (rescan_stat(prior, m, es, now), false),
            }
        },
    }
}


/// Count a fresh listing: files, directories, blocks, subdirectory names.
fn tally_entries(es: &Vec<DirEntryInfo>) -> (r: (u64, u64, u64, Vec<String>))
    ensures
        (r.0, r.1, r.2, r.3.deep_view()) == scan_tally(entries_view(es@)),
{
    let ghost esv = entries_view(es@);
    let mut file_num: u64 = 0;
    let mut subdir_num: u64 = 0;
    let mut blocks: u64 = 0;
    let mut names: Vec<String> = Vec::new();
    let mut i: usize = 0;
    proof {
        assert(esv.subrange(0, 0) =~= Seq::<DirEntryV>::empty());
        assert(names.deep_view() =~= Seq::<Seq<char>>::empty());
    }
    while i < es.len()
        invariant
            i <= es@.len(),
            esv == entries_view(es@),
            esv.len() == es@.len(),
            (file_num, subdir_num, blocks, names.deep_view()) == scan_tally(
                esv.subrange(0, i as int),
            ),
        decreases es@.len() - i,
    {
        let ghost names0 = names.deep_view();
        proof {
            assert(esv[i as int] == es@[i as int]@);
            assert(esv.subrange(0, i + 1) =~= esv.subrange(0, i as int).push(esv[i as int]));
            assert(esv.subrange(0, i + 1).drop_last() =~= esv.subrange(0, i as int));
        }
        match es[i].kind {
            EntryKind::File { blocks: b } => {
                file_num = file_num.saturating_add(1);
                blocks = blocks.saturating_add(b);
            },
            EntryKind::Dir => {
                subdir_num = subdir_num.saturating_add(1);
                names.push(es[i].name.clone());
                proof {
                    assert(names.deep_view() =~= names0.push(es@[i as int].name@));
                }
            },
            EntryKind::Other => {},
        }
        i = i + 1;
    }
    proof {
        assert(esv.subrange(0, es@.len() as int) =~= esv);
    }
    (file_num, subdir_num, blocks, names)
}

/// After a snapshot is stored, the cache decodes it under its key and is
/// unchanged under every other key.
proof fn lemma_dirstat_lookup_after_set(
    t0: Seq<(Seq<char>, Seq<char>)>,
    path: Seq<char>,
    stv: DirStatV,
)
    requires
        crate::kvstore::kv_sorted(t0),
    ensures
        forall|k: Seq<char>|
            #[trigger] dirstat_lookup(kv_set(t0, path, enc_dirstat(stv)), k) == (if k == path {
                Some(stv)
            } else {
                dirstat_lookup(t0, k)
            }),
{
    lemma_kv_set_props(t0, path, enc_dirstat(stv));
    lemma_roundtrip_dirstat(stv);
}

/// Scan one directory: decide cache hit or miss against the stored snapshot
/// and, on a miss, recount the fresh listing and persist the new snapshot.
/// Nothing but the stat-cache table changes, and only on a miss.
#[verifier::rlimit(100)]
#[verifier::spinoff_prover]
pub fn scan_one_dir(db: &mut Db, path: &str, probe: &DirProbe, now: u64) -> (r: (DirStat, bool))
    requires
        db_ready(*old(db)),
    ensures
        db_ready(*final(db)),
        (r.0@, r.1) == scan_decision(
            dirstat_lookup(old(db).table_view(table_dir_stat_name()), path@),
            path@,
            probe@,
            now,
        ),
        r.1 ==> *final(db) == *old(db),
        !r.1 ==> final(db).table_view(table_dir_stat_name()) == kv_set(
            old(db).table_view(table_dir_stat_name()),
            path@,
            enc_dirstat(r.0@),
        ),
        forall|n: Seq<char>|
            n != table_dir_stat_name() ==> #[trigger] tview(final(db).tables@, n) == tview(
                old(db).tables@,
                n,
            ),
        forall|k: Seq<char>|
            #[trigger] dirstat_lookup(final(db).table_view(table_dir_stat_name()), k) == (if k
                == path@ && !r.1 {
                Some(r.0@)
            } else {
                dirstat_lookup(old(db).table_view(table_dir_stat_name()), k)
            }),
{
    let mut stat = match get_dir_stat(db, path) {
        Some(st) => st,
        None => DirStat::new(path, now),
    };
    let m = match probe.mtime {
        None => {
            return (stat, true);
        },
        Some(m) => m,
    };
    if stat.mtime == m {
        return (stat, true);
    }
    let es = match &probe.entries {
        None => {
            return (stat, true);
        },
        Some(es) => es,
    };
    let tally = tally_entries(es);
    stat.ts = now;
    stat.mtime = m;
    stat.file_num = tally.0;
    stat.subdir_num = tally.1;
    stat.blocks = tally.2;
    stat.sub_dirs = tally.3;
    let _saved = save_dir_stat(db, path, &stat);
    proof {
        crate::kvstore::lemma_table_view_sorted(*old(db), table_dir_stat_name());
        lemma_dirstat_lookup_after_set(old(db).table_view(table_dir_stat_name()), path@, stat@);
    }
    (stat, false)
}

/// Must the caller list the directory before scanning?  Only when the
/// metadata was readable and its modification time differs from the cached
/// one; in every other case the scanner decides without a listing.
pub fn needs_listing(cached_mtime: i64, os_mtime: &Option<i64>) -> (r: bool)
    ensures
        r == match *os_mtime {
            Some(m) => m != cached_mtime,
            None => false,
        },
{
    match os_mtime {
        Some(m) => *m != cached_mtime,
        None => false,
    }
}

/// Scanning a directory that has not changed since the last scan of it is a
/// cache hit: the second scan returns the first scan's snapshot completely
/// unchanged, its timestamp included.  The one pair left out is a first
/// listing that failed followed by one that succeeded, where the second scan
/// must rescan.
pub proof fn lemma_cache_hit_idempotent(
    prior: Option<DirStatV>,
    path: Seq<char>,
    m: i64,
    probe1: DirProbeV,
    probe2: DirProbeV,
    now1: u64,
    now2: u64,
)
    requires
        probe1.mtime == Some(m),
        probe2.mtime == Some(m),
        probe1.entries is Some || probe2.entries is None,
    ensures
        ({
            let (s1, c1) = scan_decision(prior, path, probe1, now1);
            scan_decision(Some(s1), path, probe2, now2) == (s1, true)
        }),
{
}

} // verus!
