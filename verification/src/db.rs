//! The store instance used by the scanner: three logical tables, one for
//! watch configuration, one for the per-directory stat cache and one for the
//! scan-result history, each with a size preset matching its write volume.
use vstd::prelude::*;
use crate::kvstore::{Db, StdColumnFamilyConfig, tview};

verus! {

pub fn table_conf() -> (r: &'static str)
    ensures
        r@ == table_conf_name(),
{
    "confs"
}

pub fn table_dir_stat() -> (r: &'static str)
    ensures
        r@ == table_dir_stat_name(),
{
    "dirs"
}

pub fn table_dir_scan_result() -> (r: &'static str)
    ensures
        r@ == table_dir_scan_result_name(),
{
    "dirscanres"
}

pub open spec fn table_conf_name() -> Seq<char> {
    "confs"@
}

pub open spec fn table_dir_stat_name() -> Seq<char> {
    "dirs"@
}

pub open spec fn table_dir_scan_result_name() -> Seq<char> {
    "dirscanres"@
}

/// A store has the shape the scanner needs: well-formed, with the three
/// tables present.
pub open spec fn db_ready(db: Db) -> bool {
    &&& db.wf()
    &&& db.has_table(table_conf_name())
    &&& db.has_table(table_dir_stat_name())
    &&& db.has_table(table_dir_scan_result_name())
}

pub open spec fn table_default_name() -> Seq<char> {
    "default"@
}

/// A fresh store with the three tables registered, plus the engine's default
/// table, all empty.
pub fn get_db() -> (r: Db)
    ensures
        db_ready(r),
        r.has_table(table_default_name()),
        r.table_view(table_default_name()) == Seq::<(Seq<char>, Seq<char>)>::empty(),
        r.table_view(table_conf_name()) == Seq::<(Seq<char>, Seq<char>)>::empty(),
        r.table_view(table_dir_stat_name()) == Seq::<(Seq<char>, Seq<char>)>::empty(),
        r.table_view(table_dir_scan_result_name()) == Seq::<(Seq<char>, Seq<char>)>::empty(),
{
    let mut db = Db::new();
    proof {
        reveal_strlit("default");
        reveal_strlit("confs");
        reveal_strlit("dirs");
        reveal_strlit("dirscanres");
    }
    db.add_table("default", StdColumnFamilyConfig::DEFAULT);
    db.add_table(table_conf(), StdColumnFamilyConfig::TINY);
    db.add_table(table_dir_stat(), StdColumnFamilyConfig::HUGE);
    db.add_table(table_dir_scan_result(), StdColumnFamilyConfig::DEFAULT);
    db
}

} // verus!
