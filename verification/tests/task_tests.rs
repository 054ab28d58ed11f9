use sizes::cmd::{Command, TaskManager};
use sizes::db::get_db;
use sizes::scan::DirScanResult;
use sizes::scanresult::{get_dir_scan_result, get_last_dir_scan_result, get_largest_dirs,
    save_dir_scan_result};
use sizes::cmd::ProgressStatus;

#[test]
fn test_duplicate_submission() {
    let mut mgr = TaskManager::new();
    let mut db = get_db();
    let cmd = Command::ScanDir("/a".to_string());
    // the first submission starts a scan; a duplicate while it runs is dropped
    assert!(mgr.accept_command(&cmd));
    assert!(!mgr.accept_command(&cmd));
    assert_eq!(mgr.ongoing_tasks.len(), 1);
    let snapshot = mgr.scan_progress();
    assert_eq!(snapshot.len(), 1);
    assert_eq!(snapshot[0].0, "/a");
    assert!(snapshot[0].1.ongoing);
    // settling the command persists exactly one record and clears the entry
    let mut result = DirScanResult::new();
    result.ongoing = false;
    result.spent = 3;
    result.status = ProgressStatus::COMPLETED;
    mgr.finish_command(&mut db, &cmd, &result, 77).unwrap();
    assert_eq!(mgr.ongoing_tasks.len(), 0);
    let history = get_dir_scan_result(&db, "/a", 0).unwrap();
    assert_eq!(history.len(), 1);
    assert_eq!(history[0], result);
    let last = get_last_dir_scan_result(&db, "/a").unwrap();
    assert_eq!(last, result);
}

#[test]
fn test_history_limit() {
    let mut db = get_db();
    let mut r1 = DirScanResult::new();
    r1.spent = 1;
    let mut r2 = DirScanResult::new();
    r2.spent = 2;
    save_dir_scan_result(&mut db, "/p", &r1, 100).unwrap();
    save_dir_scan_result(&mut db, "/p", &r2, 200).unwrap();
    save_dir_scan_result(&mut db, "/prefix-cousin", &r2, 300).unwrap();
    assert_eq!(get_dir_scan_result(&db, "/p", 0).unwrap().len(), 2);
    assert_eq!(get_dir_scan_result(&db, "/p", 1).unwrap().len(), 1);
    assert!(get_last_dir_scan_result(&db, "/nowhere").is_none());
    assert!(get_largest_dirs(&db, 0, 10, 0).unwrap().is_empty());
}
