//! The scan-result history: one record per completed session, appended under
//! a key of the scanned path and the completion time.
use vstd::prelude::*;
use crate::json::{dec_nat, sp_lit, sp_u64, sp_bool, push_u64, push_bool, parse_lit, parse_u64,
    parse_bool, push_char};
use crate::kvstore::{Db, kv_set, kv_filter, tview, lemma_table_view_sorted, lemma_kv_set_props};
use crate::db::{db_ready, table_dir_scan_result, table_dir_scan_result_name};
use crate::scan::{DirScanOverview, DirScanResult};
use crate::cmd::ProgressStatus;
use crate::dirstat::DirStat;
use crate::Error;

verus! {

pub open spec fn lit_ov_dirs() -> Seq<char> {
    seq!['{', '"', 'd', 'i', 'r', 's', '"', ':']
}

pub open spec fn lit_ov_files() -> Seq<char> {
    seq![',', '"', 'f', 'i', 'l', 'e', 's', '"', ':']
}

pub open spec fn lit_ov_blocks() -> Seq<char> {
    seq![',', '"', 'b', 'l', 'o', 'c', 'k', 's', '"', ':']
}

pub open spec fn lit_ov_is_cached() -> Seq<char> {
    seq![',', '"', 'i', 's', '_', 'c', 'a', 'c', 'h', 'e', 'd', '"', ':']
}

pub open spec fn lit_brace() -> Seq<char> {
    seq!['}']
}

pub open spec fn enc_overview(o: DirScanOverview) -> Seq<char> {
    lit_ov_dirs() + dec_nat(o.dirs as nat) + lit_ov_files() + dec_nat(o.files as nat)
        + lit_ov_blocks() + dec_nat(o.blocks as nat) + lit_ov_is_cached() + crate::json::enc_bool(
        o.is_cached,
    ) + lit_brace()
}

pub open spec fn sp_overview(s: Seq<char>, i: int) -> Option<(DirScanOverview, int)> {
    match sp_lit(s, i, lit_ov_dirs()) {
        None => None,
        Some(i1) => match sp_u64(s, i1) {
            None => None,
            Some((dirs, i2)) => match sp_lit(s, i2, lit_ov_files()) {
                None => None,
                Some(i3) => match sp_u64(s, i3) {
                    None => None,
                    Some((files, i4)) => match sp_lit(s, i4, lit_ov_blocks()) {
                        None => None,
                        Some(i5) => match sp_u64(s, i5) {
                            None => None,
                            Some((blocks, i6)) => match sp_lit(s, i6, lit_ov_is_cached()) {
                                None => None,
                                Some(i7) => match sp_bool(s, i7) {
                                    None => None,
                                    Some((is_cached, i8)) => match sp_lit(s, i8, lit_brace()) {
                                        None => None,
                                        Some(i9) => Some(
                                            (DirScanOverview { dirs, files, blocks, is_cached }, i9),
                                        ),
                                    },
                                },
                            },
                        },
                    },
                },
            },
        },
    }
}

pub open spec fn enc_status(st: ProgressStatus) -> Seq<char> {
    match st {
        ProgressStatus::PENDING => seq!['"', 'P', 'E', 'N', 'D', 'I', 'N', 'G', '"'],
        ProgressStatus::STARTED => seq!['"', 'S', 'T', 'A', 'R', 'T', 'E', 'D', '"'],
        ProgressStatus::COMPLETED => seq!['"', 'C', 'O', 'M', 'P', 'L', 'E', 'T', 'E', 'D', '"'],
        ProgressStatus::FAILED => seq!['"', 'F', 'A', 'I', 'L', 'E', 'D', '"'],
        ProgressStatus::ABORTED => seq!['"', 'A', 'B', 'O', 'R', 'T', 'E', 'D', '"'],
    }
}

pub open spec fn sp_status(s: Seq<char>, i: int) -> Option<(ProgressStatus, int)> {
    if sp_lit(s, i, enc_status(ProgressStatus::PENDING)) is Some {
        Some((ProgressStatus::PENDING, sp_lit(s, i, enc_status(ProgressStatus::PENDING)).unwrap()))
    } else if sp_lit(s, i, enc_status(ProgressStatus::STARTED)) is Some {
        Some((ProgressStatus::STARTED, sp_lit(s, i, enc_status(ProgressStatus::STARTED)).unwrap()))
    } else if sp_lit(s, i, enc_status(ProgressStatus::COMPLETED)) is Some {
        Some(
            (
                ProgressStatus::COMPLETED,
                sp_lit(s, i, enc_status(ProgressStatus::COMPLETED)).unwrap(),
            ),
        )
    } else if sp_lit(s, i, enc_status(ProgressStatus::FAILED)) is Some {
        Some((ProgressStatus::FAILED, sp_lit(s, i, enc_status(ProgressStatus::FAILED)).unwrap()))
    } else if sp_lit(s, i, enc_status(ProgressStatus::ABORTED)) is Some {
        Some((ProgressStatus::ABORTED, sp_lit(s, i, enc_status(ProgressStatus::ABORTED)).unwrap()))
    } else {
        None
    }
}

pub open spec fn lit_sr_cached() -> Seq<char> {
    seq!['{', '"', 'c', 'a', 'c', 'h', 'e', 'd', '"', ':']
}

pub open spec fn lit_sr_scanned() -> Seq<char> {
    seq![',', '"', 's', 'c', 'a', 'n', 'n', 'e', 'd', '"', ':']
}

pub open spec fn lit_sr_spent() -> Seq<char> {
    seq![',', '"', 's', 'p', 'e', 'n', 't', '"', ':']
}

pub open spec fn lit_sr_ongoing() -> Seq<char> {
    seq![',', '"', 'o', 'n', 'g', 'o', 'i', 'n', 'g', '"', ':']
}

pub open spec fn lit_sr_status() -> Seq<char> {
    seq![',', '"', 's', 't', 'a', 't', 'u', 's', '"', ':']
}

/// The JSON text under which one session's result is stored.
pub open spec fn enc_result(r: DirScanResult) -> Seq<char> {
    lit_sr_cached() + enc_overview(r.cached) + lit_sr_scanned() + enc_overview(r.scanned)
        + lit_sr_spent() + dec_nat(r.spent as nat) + lit_sr_ongoing() + crate::json::enc_bool(
        r.ongoing,
    ) + lit_sr_status() + enc_status(r.status) + lit_brace()
}

/// Strict parse of a stored session result.
pub open spec fn sp_result(s: Seq<char>) -> Option<DirScanResult> {
    match sp_lit(s, 0, lit_sr_cached()) {
        None => None,
        Some(i1) => match sp_overview(s, i1) {
            None => None,
            Some((cached, i2)) => match sp_lit(s, i2, lit_sr_scanned()) {
                None => None,
                Some(i3) => match sp_overview(s, i3) {
                    None => None,
                    Some((scanned, i4)) => match sp_lit(s, i4, lit_sr_spent()) {
                        None => None,
                        Some(i5) => match sp_u64(s, i5) {
                            None => None,
                            Some((spent, i6)) => match sp_lit(s, i6, lit_sr_ongoing()) {
                                None => None,
                                Some(i7) => match sp_bool(s, i7) {
                                    None => None,
                                    Some((ongoing, i8)) => match sp_lit(s, i8, lit_sr_status()) {
                                        None => None,
                                        Some(i9) => match sp_status(s, i9) {
                                            None => None,
                                            Some((status, i10)) => match sp_lit(
                                                s,
                                                i10,
                                                lit_brace(),
                                            ) {
                                                None => None,
                                                Some(i11) => if i11 == s.len() {
                                                    Some(
                                                        DirScanResult {
                                                            cached,
                                                            scanned,
                                                            spent,
                                                            ongoing,
                                                            status,
                                                        },
                                                    )
                                                } else {
                                                    None
                                                },
                                            },
                                        },
                                    },
                                },
                            },
                        },
                    },
                },
            },
        },
    }
}

/// Serialize one overview onto `out`.
fn push_overview(out: &mut String, o: &DirScanOverview)
    ensures
        final(out)@ == old(out)@ + enc_overview(*o),
{
    out.append("{\"dirs\":");
    proof {
        reveal_strlit("{\"dirs\":");
        assert("{\"dirs\":"@ =~= lit_ov_dirs());
    }
    push_u64(out, o.dirs);
    out.append(",\"files\":");
    proof {
        reveal_strlit(",\"files\":");
        assert(",\"files\":"@ =~= lit_ov_files());
    }
    push_u64(out, o.files);
    out.append(",\"blocks\":");
    proof {
        reveal_strlit(",\"blocks\":");
        assert(",\"blocks\":"@ =~= lit_ov_blocks());
    }
    push_u64(out, o.blocks);
    out.append(",\"is_cached\":");
    proof {
        reveal_strlit(",\"is_cached\":");
        assert(",\"is_cached\":"@ =~= lit_ov_is_cached());
    }
    push_bool(out, o.is_cached);
    out.append("}");
    proof {
        reveal_strlit("}");
        assert("}"@ =~= lit_brace());
    }
}

fn push_status(out: &mut String, st: ProgressStatus)
    ensures
        final(out)@ == old(out)@ + enc_status(st),
{
    match st {
        ProgressStatus::PENDING => {
            out.append("\"PENDING\"");
            proof {
                reveal_strlit("\"PENDING\"");
                assert("\"PENDING\""@ =~= enc_status(ProgressStatus::PENDING));
            }
        },
        ProgressStatus::STARTED => {
            out.append("\"STARTED\"");
            proof {
                reveal_strlit("\"STARTED\"");
                assert("\"STARTED\""@ =~= enc_status(ProgressStatus::STARTED));
            }
        },
        ProgressStatus::COMPLETED => {
            out.append("\"COMPLETED\"");
            proof {
                reveal_strlit("\"COMPLETED\"");
                assert("\"COMPLETED\""@ =~= enc_status(ProgressStatus::COMPLETED));
            }
        },
        ProgressStatus::FAILED => {
            out.append("\"FAILED\"");
            proof {
                reveal_strlit("\"FAILED\"");
                assert("\"FAILED\""@ =~= enc_status(ProgressStatus::FAILED));
            }
        },
        ProgressStatus::ABORTED => {
            out.append("\"ABORTED\"");
            proof {
                reveal_strlit("\"ABORTED\"");
                assert("\"ABORTED\""@ =~= enc_status(ProgressStatus::ABORTED));
            }
        },
    }
}

/// Serialize one session's result.
pub fn encode_scan_result(r: &DirScanResult) -> (out: String)
    ensures
        out@ == enc_result(*r),
{
    let mut out = String::new();
    out.append("{\"cached\":");
    proof {
        reveal_strlit("{\"cached\":");
        assert("{\"cached\":"@ =~= lit_sr_cached());
    }
    push_overview(&mut out, &r.cached);
    out.append(",\"scanned\":");
    proof {
        reveal_strlit(",\"scanned\":");
        assert(",\"scanned\":"@ =~= lit_sr_scanned());
    }
    push_overview(&mut out, &r.scanned);
    out.append(",\"spent\":");
    proof {
        reveal_strlit(",\"spent\":");
        assert(",\"spent\":"@ =~= lit_sr_spent());
    }
    push_u64(&mut out, r.spent);
    out.append(",\"ongoing\":");
    proof {
        reveal_strlit(",\"ongoing\":");
        assert(",\"ongoing\":"@ =~= lit_sr_ongoing());
    }
    push_bool(&mut out, r.ongoing);
    out.append(",\"status\":");
    proof {
        reveal_strlit(",\"status\":");
        assert(",\"status\":"@ =~= lit_sr_status());
    }
    push_status(&mut out, r.status);
    out.append("}");
    proof {
        reveal_strlit("}");
        assert("}"@ =~= lit_brace());
    }
    out
}

/// Parse one overview at `i`.
fn parse_overview(s: &str, i: usize) -> (r: Option<(DirScanOverview, usize)>)
    ensures
        match r {
            Some((o, j)) => sp_overview(s@, i as int) == Some((o, j as int)) && j <= s@.len(),
            None => sp_overview(s@, i as int) is None,
        },
{
    proof {
        reveal_strlit("{\"dirs\":");
        reveal_strlit(",\"files\":");
        reveal_strlit(",\"blocks\":");
        reveal_strlit(",\"is_cached\":");
        reveal_strlit("}");
        assert("{\"dirs\":"@ =~= lit_ov_dirs());
        assert(",\"files\":"@ =~= lit_ov_files());
        assert(",\"blocks\":"@ =~= lit_ov_blocks());
        assert(",\"is_cached\":"@ =~= lit_ov_is_cached());
        assert("}"@ =~= lit_brace());
    }
    let Some(i1) = parse_lit(s, i, "{\"dirs\":") else { return None };
    let Some((dirs, i2)) = parse_u64(s, i1) else { return None };
    let Some(i3) = parse_lit(s, i2, ",\"files\":") else { return None };
    let Some((files, i4)) = parse_u64(s, i3) else { return None };
    let Some(i5) = parse_lit(s, i4, ",\"blocks\":") else { return None };
    let Some((blocks, i6)) = parse_u64(s, i5) else { return None };
    let Some(i7) = parse_lit(s, i6, ",\"is_cached\":") else { return None };
    let Some((is_cached, i8)) = parse_bool(s, i7) else { return None };
    let Some(i9) = parse_lit(s, i8, "}") else { return None };
    Some((DirScanOverview { dirs, files, blocks, is_cached }, i9))
}

fn parse_status(s: &str, i: usize) -> (r: Option<(ProgressStatus, usize)>)
    ensures
        match r {
            Some((st, j)) => sp_status(s@, i as int) == Some((st, j as int)) && j <= s@.len(),
            None => sp_status(s@, i as int) is None,
        },
{
    proof {
        reveal_strlit("\"PENDING\"");
        reveal_strlit("\"STARTED\"");
        reveal_strlit("\"COMPLETED\"");
        reveal_strlit("\"FAILED\"");
        reveal_strlit("\"ABORTED\"");
        assert("\"PENDING\""@ =~= enc_status(ProgressStatus::PENDING));
        assert("\"STARTED\""@ =~= enc_status(ProgressStatus::STARTED));
        assert("\"COMPLETED\""@ =~= enc_status(ProgressStatus::COMPLETED));
        assert("\"FAILED\""@ =~= enc_status(ProgressStatus::FAILED));
        assert("\"ABORTED\""@ =~= enc_status(ProgressStatus::ABORTED));
    }
    if let Some(j) = parse_lit(s, i, "\"PENDING\"") {
        return Some((ProgressStatus::PENDING, j));
    }
    if let Some(j) = parse_lit(s, i, "\"STARTED\"") {
        return Some((ProgressStatus::STARTED, j));
    }
    if let Some(j) = parse_lit(s, i, "\"COMPLETED\"") {
        return Some((ProgressStatus::COMPLETED, j));
    }
    if let Some(j) = parse_lit(s, i, "\"FAILED\"") {
        return Some((ProgressStatus::FAILED, j));
    }
    if let Some(j) = parse_lit(s, i, "\"ABORTED\"") {
        return Some((ProgressStatus::ABORTED, j));
    }
    None
}

/// Parse one stored session result.
pub fn decode_scan_result(s: &str) -> (r: Option<DirScanResult>)
    ensures
        r == sp_result(s@),
{
    proof {
        reveal_strlit("{\"cached\":");
        reveal_strlit(",\"scanned\":");
        reveal_strlit(",\"spent\":");
        reveal_strlit(",\"ongoing\":");
        reveal_strlit(",\"status\":");
        reveal_strlit("}");
        assert("{\"cached\":"@ =~= lit_sr_cached());
        assert(",\"scanned\":"@ =~= lit_sr_scanned());
        assert(",\"spent\":"@ =~= lit_sr_spent());
        assert(",\"ongoing\":"@ =~= lit_sr_ongoing());
        assert(",\"status\":"@ =~= lit_sr_status());
        assert("}"@ =~= lit_brace());
    }
    let Some(i1) = parse_lit(s, 0, "{\"cached\":") else { return None };
    let Some((cached, i2)) = parse_overview(s, i1) else { return None };
    let Some(i3) = parse_lit(s, i2, ",\"scanned\":") else { return None };
    let Some((scanned, i4)) = parse_overview(s, i3) else { return None };
    let Some(i5) = parse_lit(s, i4, ",\"spent\":") else { return None };
    let Some((spent, i6)) = parse_u64(s, i5) else { return None };
    let Some(i7) = parse_lit(s, i6, ",\"ongoing\":") else { return None };
    let Some((ongoing, i8)) = parse_bool(s, i7) else { return None };
    let Some(i9) = parse_lit(s, i8, ",\"status\":") else { return None };
    let Some((status, i10)) = parse_status(s, i9) else { return None };
    let Some(i11) = parse_lit(s, i10, "}") else { return None };
    if i11 != s.unicode_len() {
        return None;
    }
    Some(DirScanResult { cached, scanned, spent, ongoing, status })
}

// ---------------------------------------------------------------------------
// The history table
// ---------------------------------------------------------------------------
/// The history key of a session of `path` completed at `now`.
pub open spec fn history_key(path: Seq<char>, now: u64) -> Seq<char> {
    path + seq![','] + dec_nat(now as nat)
}

/// Append one session's result to the history.
pub fn save_dir_scan_result(db: &mut Db, path: &str, result: &DirScanResult, now: u64) -> (r:
    Result<(), Error>)
    requires
        db_ready(*old(db)),
    ensures
        db_ready(*final(db)),
        r is Ok,
        final(db).table_view(table_dir_scan_result_name()) == kv_set(
            old(db).table_view(table_dir_scan_result_name()),
            history_key(path@, now),
            enc_result(*result),
        ),
        forall|n: Seq<char>|
            n != table_dir_scan_result_name() ==> #[trigger] tview(final(db).tables@, n) == tview(
                old(db).tables@,
                n,
            ),
{
    let mut key = path.to_owned();
    push_char(&mut key, ',');
    push_u64(&mut key, now);
    proof {
        assert(key@ =~= history_key(path@, now));
    }
    let text = encode_scan_result(result);
    db.set(table_dir_scan_result(), key.as_str(), text.as_str())
}

/// The sessions that decode from a run of stored pairs, in key order.
pub open spec fn decode_history(vs: Seq<(Seq<char>, Seq<char>)>) -> Seq<DirScanResult>
    decreases vs.len(),
{
    if vs.len() == 0 {
        Seq::empty()
    } else {
        match sp_result(vs[0].1) {
            Some(r) => seq![r] + decode_history(vs.drop_first()),
            None => decode_history(vs.drop_first()),
        }
    }
}

proof fn lemma_decode_history_snoc(vs: Seq<(Seq<char>, Seq<char>)>, x: (Seq<char>, Seq<char>))
    ensures
        decode_history(vs.push(x)) == (match sp_result(x.1) {
            Some(r) => decode_history(vs).push(r),
            None => decode_history(vs),
        }),
    decreases vs.len(),
{
    reveal_with_fuel(decode_history, 3);
    if vs.len() == 0 {
        assert(vs.push(x)[0] == x);
        assert(vs.push(x).drop_first() =~= Seq::<(Seq<char>, Seq<char>)>::empty());
        if sp_result(x.1) is Some {
            assert(decode_history(vs.push(x)) =~= decode_history(vs).push(
                sp_result(x.1).unwrap(),
            ));
        }
    } else {
        assert(vs.push(x)[0] == vs[0]);
        assert(vs.push(x).drop_first() =~= vs.drop_first().push(x));
        lemma_decode_history_snoc(vs.drop_first(), x);
        match sp_result(x.1) {
            Some(r) => {
                assert(decode_history(vs.push(x)) =~= decode_history(vs).push(r));
            },
            None => {
                assert(decode_history(vs.push(x)) =~= decode_history(vs));
            },
        }
    }
}

/// What a history query over `path` yields: up to `limit` stored rows whose
/// key starts with `path` and a separator, decoded; rows that do not decode
/// are skipped.
pub open spec fn history_of(
    t: Seq<(Seq<char>, Seq<char>)>,
    path: Seq<char>,
    limit: u32,
) -> Seq<DirScanResult> {
    let filt = kv_filter(t, path + seq![',']);
    let lim = if limit == 0 || limit as int >= filt.len() {
        filt
    } else {
        filt.subrange(0, limit as int)
    };
    decode_history(lim)
}

/// The stored scan history of `path`, most recent first not guaranteed.
pub fn get_dir_scan_result(db: &Db, path: &str, limit: u32) -> (r: Result<Vec<DirScanResult>, Error>)
    requires
        db_ready(*db),
    ensures
        r is Ok,
        ({
            let v = r.unwrap();
            v@ == history_of(db.table_view(table_dir_scan_result_name()), path@, limit)
        }),
{
    let mut prefix = path.to_owned();
    push_char(&mut prefix, ',');
    proof {
        assert(prefix@ =~= path@ + seq![',']);
    }
    let rows = db.foreach(table_dir_scan_result(), prefix.as_str(), limit);
    let ghost limv = {
        let filt = kv_filter(db.table_view(table_dir_scan_result_name()), path@ + seq![',']);
        if limit == 0 || limit as int >= filt.len() {
            filt
        } else {
            filt.subrange(0, limit as int)
        }
    };
    proof {
        assert(crate::kvstore::kv_view(rows@) == limv);
    }
    let mut out: Vec<DirScanResult> = Vec::new();
    let mut i: usize = 0;
    proof {
        assert(limv.subrange(0, 0) =~= Seq::<(Seq<char>, Seq<char>)>::empty());
        assert(out@ =~= decode_history(limv.subrange(0, 0)));
    }
    while i < rows.len()
        invariant
            i <= rows@.len(),
            crate::kvstore::kv_view(rows@) == limv,
            limv.len() == rows@.len(),
            out@ == decode_history(limv.subrange(0, i as int)),
        decreases rows@.len() - i,
    {
        proof {
            assert(limv[i as int] == rows@[i as int]@);
            assert(limv.subrange(0, i + 1) =~= limv.subrange(0, i as int).push(limv[i as int]));
            lemma_decode_history_snoc(limv.subrange(0, i as int), limv[i as int]);
        }
        match decode_scan_result(rows[i].value.as_str()) {
            Some(res) => {
                out.push(res);
            },
            None => {},
        }
        i = i + 1;
    }
    proof {
        assert(limv.subrange(0, rows@.len() as int) =~= limv);
    }
    Ok(out)
}

/// The most recent stored result for `path`, as far as the key order gives
/// it: the first row of a history query with limit one.
pub fn get_last_dir_scan_result(db: &Db, path: &str) -> (r: Option<DirScanResult>)
    requires
        db_ready(*db),
    ensures
        ({
            let h = history_of(db.table_view(table_dir_scan_result_name()), path@, 1);
            r == (if h.len() > 0 {
                Some(h[0])
            } else {
                None::<DirScanResult>
            })
        }),
{
    let results = match get_dir_scan_result(db, path, 1) {
        Ok(v) => v,
        Err(_) => {
            return None;
        },
    };
    if results.len() > 0 {
        let r = results[0];
        Some(r)
    } else {
        None
    }
}

/// The "largest directories" query is a stub of the storage interface: it
/// answers with no rows until an index over sizes exists.
pub fn get_largest_dirs(db: &Db, min: u64, limit: u32, offset: u32) -> (r: Result<
    Vec<DirStat>,
    Error,
>)
    requires
        db_ready(*db),
    ensures
        r is Ok,
        r.unwrap()@.len() == 0,
{
    let ret: Vec<DirStat> = Vec::new();
    Ok(ret)
}

} // verus!
