use sizes::db::get_db;
use sizes::scan::{scan_one_dir, DirEntryInfo, DirScanOverview, EntryKind};
use sizes::scandir::{compute_dir_stats_loop_parallel, compute_dir_stats_recursive, probe_of,
    FsDir, FsModel, WorkPool};
use sizes::unix;

fn file(name: &str, blocks: u64) -> DirEntryInfo {
    DirEntryInfo { name: name.to_string(), kind: EntryKind::File { blocks } }
}

fn subdir(name: &str) -> DirEntryInfo {
    DirEntryInfo { name: name.to_string(), kind: EntryKind::Dir }
}

fn dir(path: &str, mtime: i64, entries: Vec<DirEntryInfo>) -> FsDir {
    FsDir { path: path.to_string(), mtime, entries }
}

#[test]
fn test_scandir_recurisve() {
    let mut db = get_db();
    let fs = FsModel {
        dirs: vec![
            dir("/tmp/t", 1, vec![file("a.txt", 8), subdir("sub")]),
            dir("/tmp/t/sub", 2, vec![file("b.txt", 16)]),
        ],
    };
    let (scan_result, _) = compute_dir_stats_recursive(&mut db, &fs, "/tmp/t", unix());
    println!("res is {:?}", scan_result);
    assert_eq!(scan_result.scanned.files, 2);
    assert_eq!(scan_result.scanned.blocks, 24);
    assert_eq!(scan_result.scanned.dirs, 1);
}

#[test]
fn test_cache_miss_counts() {
    // three files with blocks 8, 8 and 16, and two subdirectories
    let mut db = get_db();
    let fs = FsModel {
        dirs: vec![
            dir(
                "/d",
                5,
                vec![file("f1", 8), file("f2", 8), file("f3", 16), subdir("a"), subdir("b")],
            ),
        ],
    };
    let probe = probe_of(&fs, "/d");
    let (stat, cached) = scan_one_dir(&mut db, "/d", &probe, 100);
    assert_eq!(stat.file_num, 3);
    assert_eq!(stat.subdir_num, 2);
    assert_eq!(stat.blocks, 32);
    assert_eq!(stat.sub_dirs, vec!["a".to_string(), "b".to_string()]);
    assert!(!cached);
}

#[test]
fn test_cache_hit_idempotence() {
    let mut db = get_db();
    let fs = FsModel { dirs: vec![dir("/d", 5, vec![file("f1", 8), subdir("a")])] };
    let probe = probe_of(&fs, "/d");
    let (first, first_cached) = scan_one_dir(&mut db, "/d", &probe, 100);
    assert!(!first_cached);
    // the directory is unmodified, so the second scan is a cache hit and
    // nothing changes, the timestamp included
    let probe = probe_of(&fs, "/d");
    let (second, second_cached) = scan_one_dir(&mut db, "/d", &probe, 999);
    assert!(second_cached);
    assert_eq!(second.ts, first.ts);
    assert_eq!(second.mtime, first.mtime);
    assert_eq!(second.file_num, first.file_num);
    assert_eq!(second.subdir_num, first.subdir_num);
    assert_eq!(second.blocks, first.blocks);
    assert_eq!(second.sub_dirs, first.sub_dirs);
}

#[test]
fn test_overview_monoid() {
    let a = DirScanOverview { dirs: 1, files: 2, blocks: 3, is_cached: true };
    let b = DirScanOverview { dirs: 10, files: 20, blocks: 30, is_cached: false };
    let c = DirScanOverview { dirs: 100, files: 200, blocks: 300, is_cached: false };
    let mut ab = a;
    ab.add_assign(&b);
    let mut ab_c = ab;
    ab_c.add_assign(&c);
    let mut bc = b;
    bc.add_assign(&c);
    let mut a_bc = a;
    a_bc.add_assign(&bc);
    assert_eq!(ab_c.dirs, a_bc.dirs);
    assert_eq!(ab_c.files, a_bc.files);
    assert_eq!(ab_c.blocks, a_bc.blocks);
    // a zero-valued overview is an identity
    let mut az = a;
    az.add_assign(&DirScanOverview::new());
    assert_eq!(az, a);
}

/// A synthetic tree rooted at `root` with the given depth and branching.
fn build_tree(root: &str, depth: u32, branching: u32, out: &mut Vec<FsDir>) {
    let mut entries = vec![file("data", 4)];
    if depth > 0 {
        for b in 0..branching {
            entries.push(subdir(&format!("c{}", b)));
        }
    }
    out.push(dir(root, 1 + depth as i64, entries));
    if depth > 0 {
        for b in 0..branching {
            build_tree(&format!("{}/c{}", root, b), depth - 1, branching, out);
        }
    }
}

#[test]
fn test_traversal_strategies_agree() {
    for (depth, branching) in [(1u32, 4u32), (3, 3), (5, 2), (4, 4)] {
        let mut dirs = Vec::new();
        build_tree("/r", depth, branching, &mut dirs);
        let fs = FsModel { dirs };
        let mut db1 = get_db();
        let (seq_res, _) = compute_dir_stats_recursive(&mut db1, &fs, "/r", 50);
        let mut db2 = get_db();
        let (par_res, _) = compute_dir_stats_loop_parallel(&mut db2, &fs, "/r", 50);
        assert_eq!(seq_res.scanned.dirs, par_res.scanned.dirs);
        assert_eq!(seq_res.scanned.files, par_res.scanned.files);
        assert_eq!(seq_res.scanned.blocks, par_res.scanned.blocks);
    }
}

#[test]
fn test_bounded_concurrency() {
    // drive a pool over a tree of more than fifty work items and watch the
    // number of in-flight items never pass the cap of eight
    let mut pool: WorkPool<u64> = WorkPool::new(8);
    for t in 0..60u64 {
        pool.add_task(t);
    }
    let mut max_active: u64 = 0;
    let mut done: u64 = 0;
    while !pool.is_done() {
        if pool.must_wait() {
            pool.complete_one();
            done += 1;
        } else {
            let _t = pool.dispatch(false);
            if pool.active > max_active {
                max_active = pool.active;
            }
        }
        assert!(pool.active <= 8);
    }
    assert_eq!(done, 60);
    assert_eq!(max_active, 8);
}

#[test]
fn test_end_to_end_rescan() {
    // root /r with /r/a (two files of four blocks each) and /r/b (empty)
    let fs = FsModel {
        dirs: vec![
            dir("/r", 1, vec![subdir("a"), subdir("b")]),
            dir("/r/a", 2, vec![file("f1", 4), file("f2", 4)]),
            dir("/r/b", 3, vec![]),
        ],
    };
    let mut db = get_db();
    let (first, _) = compute_dir_stats_loop_parallel(&mut db, &fs, "/r", 10);
    assert_eq!(first.scanned.dirs, 2);
    assert_eq!(first.scanned.files, 2);
    assert_eq!(first.scanned.blocks, 8);
    assert_eq!(first.cached.dirs, 0);
    assert_eq!(first.cached.files, 0);
    assert_eq!(first.cached.blocks, 0);
    // an immediate re-run serves everything from cache
    let (second, _) = compute_dir_stats_loop_parallel(&mut db, &fs, "/r", 20);
    assert_eq!(second.scanned.dirs, 2);
    assert_eq!(second.scanned.files, 2);
    assert_eq!(second.scanned.blocks, 8);
    assert_eq!(second.cached.dirs, second.scanned.dirs);
    assert_eq!(second.cached.files, second.scanned.files);
    assert_eq!(second.cached.blocks, second.scanned.blocks);
}

#[test]
fn test_subtree_overview() {
    let fs = FsModel {
        dirs: vec![
            dir("/foo", 1, vec![file("f", 8), subdir("x")]),
            dir("/foo/x", 2, vec![file("g", 16)]),
            dir("/foobar", 3, vec![file("h", 100)]),
        ],
    };
    let mut db = get_db();
    compute_dir_stats_recursive(&mut db, &fs, "/foo", 5);
    compute_dir_stats_recursive(&mut db, &fs, "/foobar", 5);
    // the sibling that merely shares the spelling is not part of the subtree
    let ov = sizes::dirstat::get_dir_stat_recursive(&db, "/foo").unwrap();
    assert_eq!(ov.files, 2);
    assert_eq!(ov.blocks, 24);
    assert_eq!(ov.dirs, 1);
}
