use sizes::conf::{add_watch, list_watch, remove_watch, WatchDirectoryConfiguration};
use sizes::db::get_db;

fn watch(interval: &str, label: &str, path: &str) -> WatchDirectoryConfiguration {
    WatchDirectoryConfiguration {
        refresh_interval: interval.to_string(),
        label: label.to_string(),
        path: path.to_string(),
    }
}

fn same_lists(a: &[WatchDirectoryConfiguration], b: &[WatchDirectoryConfiguration]) -> bool {
    a.len() == b.len() && a.iter().zip(b.iter()).all(|(x, y)| x.same_as(y))
}

#[test]
fn test_db_get_set_str() {
    let mut db = get_db();
    db.set("default", "k1", "hello").unwrap();
    let v = db.get_string("default", "k1");
    assert_eq!(v, "hello");
}

#[test]
fn test_db_get_set_watch() {
    let db = &mut get_db();

    let watches = list_watch(db);
    assert!(watches.is_empty());

    let watch_conf_1 = watch("1 Day", "label1", "path1");
    let watch_conf_2 = watch("2 Day", "label2", "path2");
    let watch_conf_3 = watch("monthly", "label3", "path2");

    add_watch(db, &watch_conf_1).unwrap();
    let watches = list_watch(db);
    assert!(same_lists(&watches, &[watch_conf_1.duplicate()]));

    add_watch(db, &watch_conf_2).unwrap();
    let watches = list_watch(db);
    assert!(same_lists(&watches, &[watch_conf_1.duplicate(), watch_conf_2.duplicate()]));

    // adding a watch with the path of conf 2 updates that entry in place
    add_watch(db, &watch_conf_3).unwrap();
    let watches = list_watch(db);
    assert!(same_lists(&watches, &[watch_conf_1.duplicate(), watch_conf_3.duplicate()]));
}

#[test]
fn test_watch_remove_missing_is_noop() {
    let db = &mut get_db();
    add_watch(db, &watch("1 Day", "label1", "path1")).unwrap();
    let absent = watch("weekly", "other", "nowhere");
    remove_watch(db, &absent).unwrap();
    let watches = list_watch(db);
    assert_eq!(watches.len(), 1);
    assert_eq!(watches[0].path, "path1");
    remove_watch(db, &watch("x", "y", "path1")).unwrap();
    assert!(list_watch(db).is_empty());
}

#[test]
fn test_rocksdb_read_write() {
    let mut db = get_db();
    let table = "default";
    db.set(table, "k1", "this is some value").unwrap();
    let res = db.get_string(table, "k1");
    println!("{:?}", res);
}

#[test]
fn test_prefix_read() {
    let db = &mut get_db();
    let table = "default";

    db.set(table, "/foo", "foo").unwrap();
    db.set(table, "/foo/bar", "/foo/bar").unwrap();
    db.set(table, "/foo/zoo", "/foo/zoo").unwrap();
    db.set(table, "/bar", "/bar").unwrap();

    let rows = db.foreach(table, "/foo", 0);
    for e in rows.iter() {
        println!("{:?} -> {:?}", e.key, e.value);
    }
    let rows = db.foreach(table, "/foo", 0);
    assert_eq!(rows.len(), 3);
    assert_eq!(rows[0].key, "/foo");
    assert_eq!(rows[1].key, "/foo/bar");
    assert_eq!(rows[2].key, "/foo/zoo");
}

#[test]
fn test_codec_roundtrip() {
    let st = sizes::dirstat::DirStat {
        ts: 7,
        mtime: -1,
        subdir_num: 2,
        file_num: 3,
        blocks: 32,
        sub_dirs: vec!["a\"b".to_string(), "c\\d".to_string()],
        path: "/weird \"path\"".to_string(),
    };
    let text = sizes::dirstat::encode_dir_stat(&st);
    let back = sizes::dirstat::decode_dir_stat(&text).expect("round trip");
    assert_eq!(back.ts, 7);
    assert_eq!(back.mtime, -1);
    assert_eq!(back.subdir_num, 2);
    assert_eq!(back.file_num, 3);
    assert_eq!(back.blocks, 32);
    assert_eq!(back.sub_dirs, vec!["a\"b".to_string(), "c\\d".to_string()]);
    assert_eq!(back.path, "/weird \"path\"");
    assert!(sizes::dirstat::decode_dir_stat("not json").is_none());
    assert!(sizes::dirstat::decode_dir_stat("").is_none());
    assert!(sizes::scanresult::decode_scan_result("{\"cached\":garbage").is_none());
}
