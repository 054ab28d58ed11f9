//! The per-directory snapshot and its row in the stat cache.
use vstd::prelude::*;
use crate::json::{dec_nat, dec_int, enc_str, enc_str_array, sp_lit, sp_u64, sp_i64, sp_str,
    sp_str_array, push_u64, push_i64, push_quoted, push_str_array, parse_lit, parse_u64, parse_i64,
    parse_string, parse_str_array, lemma_roundtrip_u64, lemma_roundtrip_i64,
    lemma_roundtrip_str, lemma_roundtrip_str_array, lemma_index_of_subrange, is_digit,
    lemma_subrange_chain, lemma_reassoc_chain};
use crate::kvstore::{Db, kv_lookup, kv_set, kv_filter, tview};
use crate::db::{db_ready, table_dir_stat, table_dir_stat_name};
use crate::scan::{DirScanOverview, sat_add};
use crate::order::is_prefix;
use crate::Error;

verus! {

/// Cached snapshot of one directory: when it was computed, the directory's
/// modification time as the OS reported it (`-1` until the first successful
/// listing), the counts of its immediate children, the sum of its file
/// children's allocated blocks, and the names of its immediate
/// subdirectories, kept as a traversal hint.
#[derive(Debug)]
pub struct DirStat {
    pub ts: u64,
    pub mtime: i64,
    pub subdir_num: u64,
    pub file_num: u64,
    pub blocks: u64,
    pub sub_dirs: Vec<String>,
    pub path: String,
}

/// The mathematical value of a `DirStat`.
pub ghost struct DirStatV {
    pub ts: u64,
    pub mtime: i64,
    pub subdir_num: u64,
    pub file_num: u64,
    pub blocks: u64,
    pub sub_dirs: Seq<Seq<char>>,
    pub path: Seq<char>,
}

impl View for DirStat {
    type V = DirStatV;

    open spec fn view(&self) -> DirStatV {
        DirStatV {
            ts: self.ts,
            mtime: self.mtime,
            subdir_num: self.subdir_num,
            file_num: self.file_num,
            blocks: self.blocks,
            sub_dirs: self.sub_dirs.deep_view(),
            path: self.path@,
        }
    }
}

/// The default snapshot of a never-scanned path.
pub open spec fn default_stat(path: Seq<char>, now: u64) -> DirStatV {
    DirStatV {
        ts: now,
        mtime: -1i64,
        subdir_num: 0,
        file_num: 0,
        blocks: 0,
        sub_dirs: Seq::empty(),
        path: path,
    }
}

impl DirStat {
    /// A fresh snapshot of `path`, stamped `now`, with the never-scanned
    /// modification-time sentinel.
    pub fn new(path: &str, now: u64) -> (r: DirStat)
        ensures
            r@ == default_stat(path@, now),
    {
        let r = DirStat {
            ts: now,
            mtime: -1,
            subdir_num: 0,
            file_num: 0,
            blocks: 0,
            sub_dirs: Vec::new(),
            path: path.to_owned(),
        };
        proof {
            assert(r.sub_dirs.deep_view() =~= Seq::<Seq<char>>::empty());
        }
        r
    }
}

// ---------------------------------------------------------------------------
// The stored record
// ---------------------------------------------------------------------------
pub open spec fn lit_ds_ts() -> Seq<char> {
    seq!['{', '"', 't', 's', '"', ':']
}

pub open spec fn lit_ds_mtime() -> Seq<char> {
    seq![',', '"', 'm', 't', 'i', 'm', 'e', '"', ':']
}

pub open spec fn lit_ds_subdir_num() -> Seq<char> {
    seq![',', '"', 's', 'u', 'b', 'd', 'i', 'r', '_', 'n', 'u', 'm', '"', ':']
}

pub open spec fn lit_ds_file_num() -> Seq<char> {
    seq![',', '"', 'f', 'i', 'l', 'e', '_', 'n', 'u', 'm', '"', ':']
}

pub open spec fn lit_ds_blocks() -> Seq<char> {
    seq![',', '"', 'b', 'l', 'o', 'c', 'k', 's', '"', ':']
}

pub open spec fn lit_ds_sub_dirs() -> Seq<char> {
    seq![',', '"', 's', 'u', 'b', '_', 'd', 'i', 'r', 's', '"', ':']
}

pub open spec fn lit_ds_path() -> Seq<char> {
    seq![',', '"', 'p', 'a', 't', 'h', '"', ':']
}

pub open spec fn lit_close() -> Seq<char> {
    seq!['}']
}

/// The JSON text under which a snapshot is stored.
pub open spec fn enc_dirstat(v: DirStatV) -> Seq<char> {
    lit_ds_ts() + (dec_nat(v.ts as nat) + (lit_ds_mtime() + (dec_int(v.mtime as int) + (
    lit_ds_subdir_num() + (dec_nat(v.subdir_num as nat) + (lit_ds_file_num() + (dec_nat(
        v.file_num as nat,
    ) + (lit_ds_blocks() + (dec_nat(v.blocks as nat) + (lit_ds_sub_dirs() + (enc_str_array(
        v.sub_dirs,
    ) + (lit_ds_path() + (enc_str(v.path) + lit_close())))))))))))))
}

/// Strict parse of a stored snapshot; anything else is `None`.
pub open spec fn sp_dirstat(s: Seq<char>) -> Option<DirStatV> {
    match sp_lit(s, 0, lit_ds_ts()) {
        None => None,
        Some(i1) => match sp_u64(s, i1) {
            None => None,
            Some((ts, i2)) => match sp_lit(s, i2, lit_ds_mtime()) {
                None => None,
                Some(i3) => match sp_i64(s, i3) {
                    None => None,
                    Some((mtime, i4)) => match sp_lit(s, i4, lit_ds_subdir_num()) {
                        None => None,
                        Some(i5) => match sp_u64(s, i5) {
                            None => None,
                            Some((subdir_num, i6)) => match sp_lit(s, i6, lit_ds_file_num()) {
                                None => None,
                                Some(i7) => match sp_u64(s, i7) {
                                    None => None,
                                    Some((file_num, i8)) => match sp_lit(s, i8, lit_ds_blocks()) {
                                        None => None,
                                        Some(i9) => match sp_u64(s, i9) {
                                            None => None,
                                            Some((blocks, i10)) => match sp_lit(
                                                s,
                                                i10,
                                                lit_ds_sub_dirs(),
                                            ) {
                                                None => None,
                                                Some(i11) => match sp_str_array(s, i11) {
                                                    None => None,
                                                    Some((sub_dirs, i12)) => match sp_lit(
                                                        s,
                                                        i12,
                                                        lit_ds_path(),
                                                    ) {
                                                        None => None,
                                                        Some(i13) => match sp_str(s, i13) {
                                                            None => None,
                                                            Some((path, i14)) => match sp_lit(
                                                                s,
                                                                i14,
                                                                lit_close(),
                                                            ) {
                                                                None => None,
                                                                Some(i15) => if i15 == s.len() {
                                                                    Some(
                                                                        DirStatV {
                                                                            ts,
                                                                            mtime,
                                                                            subdir_num,
                                                                            file_num,
                                                                            blocks,
                                                                            sub_dirs,
                                                                            path,
                                                                        },
                                                                    )
                                                                } else {
                                                                    None
                                                                },
                                                            },
                                                        },
                                                    },
                                                },
                                            },
                                        },
                                    },
                                },
                            },
                        },
                    },
                },
            },
        },
    }
}

/// Serialize a snapshot.
#[verifier::rlimit(100)]
#[verifier::spinoff_prover]
pub fn encode_dir_stat(st: &DirStat) -> (r: String)
    ensures
        r@ == enc_dirstat(st@),
{
    let mut out = String::new();
    out.append("{\"ts\":");
    proof {
        reveal_strlit("{\"ts\":");
        assert(out@ =~= lit_ds_ts());
    }
    push_u64(&mut out, st.ts);
    out.append(",\"mtime\":");
    proof {
        reveal_strlit(",\"mtime\":");
        assert(",\"mtime\":"@ =~= lit_ds_mtime());
    }
    push_i64(&mut out, st.mtime);
    out.append(",\"subdir_num\":");
    proof {
        reveal_strlit(",\"subdir_num\":");
        assert(",\"subdir_num\":"@ =~= lit_ds_subdir_num());
    }
    push_u64(&mut out, st.subdir_num);
    out.append(",\"file_num\":");
    proof {
        reveal_strlit(",\"file_num\":");
        assert(",\"file_num\":"@ =~= lit_ds_file_num());
    }
    push_u64(&mut out, st.file_num);
    out.append(",\"blocks\":");
    proof {
        reveal_strlit(",\"blocks\":");
        assert(",\"blocks\":"@ =~= lit_ds_blocks());
    }
    push_u64(&mut out, st.blocks);
    out.append(",\"sub_dirs\":");
    proof {
        reveal_strlit(",\"sub_dirs\":");
        assert(",\"sub_dirs\":"@ =~= lit_ds_sub_dirs());
    }
    push_str_array(&mut out, &st.sub_dirs);
    out.append(",\"path\":");
    proof {
        reveal_strlit(",\"path\":");
        assert(",\"path\":"@ =~= lit_ds_path());
    }
    push_quoted(&mut out, st.path.as_str());
    out.append("}");
    proof {
        reveal_strlit("}");
        assert("}"@ =~= lit_close());
        lemma_reassoc_chain(
            lit_ds_ts(),
            dec_nat(st.ts as nat),
            lit_ds_mtime(),
            dec_int(st.mtime as int),
            lit_ds_subdir_num(),
            dec_nat(st.subdir_num as nat),
            lit_ds_file_num(),
            dec_nat(st.file_num as nat),
            lit_ds_blocks(),
            dec_nat(st.blocks as nat),
            lit_ds_sub_dirs(),
            enc_str_array(st@.sub_dirs),
            lit_ds_path(),
            enc_str(st@.path),
            lit_close(),
        );
        assert(out@ == enc_dirstat(st@));
    }
    out
}

/// Parse a stored snapshot.
pub fn decode_dir_stat(s: &str) -> (r: Option<DirStat>)
    ensures
        match r {
            Some(st) => sp_dirstat(s@) == Some(st@),
            None => sp_dirstat(s@) is None,
        },
{
    proof {
        reveal_strlit("{\"ts\":");
        reveal_strlit(",\"mtime\":");
        reveal_strlit(",\"subdir_num\":");
        reveal_strlit(",\"file_num\":");
        reveal_strlit(",\"blocks\":");
        reveal_strlit(",\"sub_dirs\":");
        reveal_strlit(",\"path\":");
        reveal_strlit("}");
        assert("{\"ts\":"@ =~= lit_ds_ts());
        assert(",\"mtime\":"@ =~= lit_ds_mtime());
        assert(",\"subdir_num\":"@ =~= lit_ds_subdir_num());
        assert(",\"file_num\":"@ =~= lit_ds_file_num());
        assert(",\"blocks\":"@ =~= lit_ds_blocks());
        assert(",\"sub_dirs\":"@ =~= lit_ds_sub_dirs());
        assert(",\"path\":"@ =~= lit_ds_path());
        assert("}"@ =~= lit_close());
    }
    let Some(i1) = parse_lit(s, 0, "{\"ts\":") else { return None };
    let Some((ts, i2)) = parse_u64(s, i1) else { return None };
    let Some(i3) = parse_lit(s, i2, ",\"mtime\":") else { return None };
    let Some((mtime, i4)) = parse_i64(s, i3) else { return None };
    let Some(i5) = parse_lit(s, i4, ",\"subdir_num\":") else { return None };
    let Some((subdir_num, i6)) = parse_u64(s, i5) else { return None };
    let Some(i7) = parse_lit(s, i6, ",\"file_num\":") else { return None };
    let Some((file_num, i8)) = parse_u64(s, i7) else { return None };
    let Some(i9) = parse_lit(s, i8, ",\"blocks\":") else { return None };
    let Some((blocks, i10)) = parse_u64(s, i9) else { return None };
    let Some(i11) = parse_lit(s, i10, ",\"sub_dirs\":") else { return None };
    let Some((sub_dirs, i12)) = parse_str_array(s, i11) else { return None };
    let Some(i13) = parse_lit(s, i12, ",\"path\":") else { return None };
    let Some((path, i14)) = parse_string(s, i13) else { return None };
    let Some(i15) = parse_lit(s, i14, "}") else { return None };
    if i15 != s.unicode_len() {
        return None;
    }
    Some(DirStat { ts, mtime, subdir_num, file_num, blocks, sub_dirs, path })
}

/// Cumulative offsets of the record's segments.
pub open spec fn ds_p1(v: DirStatV) -> int {
    lit_ds_ts().len() as int
}

pub open spec fn ds_p2(v: DirStatV) -> int {
    ds_p1(v) + dec_nat(v.ts as nat).len()
}

pub open spec fn ds_p3(v: DirStatV) -> int {
    ds_p2(v) + lit_ds_mtime().len()
}

pub open spec fn ds_p4(v: DirStatV) -> int {
    ds_p3(v) + dec_int(v.mtime as int).len()
}

pub open spec fn ds_p5(v: DirStatV) -> int {
    ds_p4(v) + lit_ds_subdir_num().len()
}

pub open spec fn ds_p6(v: DirStatV) -> int {
    ds_p5(v) + dec_nat(v.subdir_num as nat).len()
}

pub open spec fn ds_p7(v: DirStatV) -> int {
    ds_p6(v) + lit_ds_file_num().len()
}

pub open spec fn ds_p8(v: DirStatV) -> int {
    ds_p7(v) + dec_nat(v.file_num as nat).len()
}

pub open spec fn ds_p9(v: DirStatV) -> int {
    ds_p8(v) + lit_ds_blocks().len()
}

pub open spec fn ds_p10(v: DirStatV) -> int {
    ds_p9(v) + dec_nat(v.blocks as nat).len()
}

pub open spec fn ds_p11(v: DirStatV) -> int {
    ds_p10(v) + lit_ds_sub_dirs().len()
}

pub open spec fn ds_p12(v: DirStatV) -> int {
    ds_p11(v) + enc_str_array(v.sub_dirs).len()
}

pub open spec fn ds_p13(v: DirStatV) -> int {
    ds_p12(v) + lit_ds_path().len()
}

pub open spec fn ds_p14(v: DirStatV) -> int {
    ds_p13(v) + enc_str(v.path).len()
}

pub open spec fn ds_p15(v: DirStatV) -> int {
    ds_p14(v) + lit_close().len()
}

/// Each field of an encoded snapshot parses from its own position.
#[verifier::rlimit(100)]
#[verifier::spinoff_prover]
proof fn lemma_rt_ds_head_a(v: DirStatV)
    ensures
        sp_lit(enc_dirstat(v), 0, lit_ds_ts()) == Some(ds_p1(v)),
        sp_u64(enc_dirstat(v), ds_p1(v)) == Some((v.ts, ds_p2(v))),
        sp_lit(enc_dirstat(v), ds_p2(v), lit_ds_mtime()) == Some(ds_p3(v)),
        sp_i64(enc_dirstat(v), ds_p3(v)) == Some((v.mtime, ds_p4(v))),
        sp_lit(enc_dirstat(v), ds_p4(v), lit_ds_subdir_num()) == Some(ds_p5(v)),
        sp_u64(enc_dirstat(v), ds_p5(v)) == Some((v.subdir_num, ds_p6(v))),
{
    let s = enc_dirstat(v);
    let g0 = lit_ds_ts();
    let g1 = dec_nat(v.ts as nat);
    let g2 = lit_ds_mtime();
    let g3 = dec_int(v.mtime as int);
    let g4 = lit_ds_subdir_num();
    let g5 = dec_nat(v.subdir_num as nat);
    let g6 = lit_ds_file_num();
    let g7 = dec_nat(v.file_num as nat);
    let g8 = lit_ds_blocks();
    let g9 = dec_nat(v.blocks as nat);
    let g10 = lit_ds_sub_dirs();
    let g11 = enc_str_array(v.sub_dirs);
    let g12 = lit_ds_path();
    let g13 = enc_str(v.path);
    let g14 = lit_close();
    lemma_subrange_chain(s, g0, g1, g2, g3, g4, g5, g6, g7, g8, g9, g10, g11, g12, g13, g14);
    let p0 = 0int;
    let p1 = p0 + g0.len();
    let p2 = p1 + g1.len();
    let p3 = p2 + g2.len();
    let p4 = p3 + g3.len();
    let p5 = p4 + g4.len();
    let p6 = p5 + g5.len();
    let p7 = p6 + g6.len();
    let p8 = p7 + g7.len();
    let p9 = p8 + g8.len();
    let p10 = p9 + g9.len();
    let p11 = p10 + g10.len();
    let p12 = p11 + g11.len();
    let p13 = p12 + g12.len();
    let p14 = p13 + g13.len();
    let p15 = p14 + g14.len();
    assert(p15 == s.len());

    assert(sp_lit(s, p0, g0) == Some(p1));
    assert(s[p2] == g2[0]) by {
        lemma_index_of_subrange(s, p2, g2, 0);
    }
    assert(!is_digit(s[p2]));
    lemma_roundtrip_u64(s, p1, v.ts);
    assert(sp_lit(s, p2, g2) == Some(p3));
    assert(s[p4] == g4[0]) by {
        lemma_index_of_subrange(s, p4, g4, 0);
    }
    assert(!is_digit(s[p4]));
    lemma_roundtrip_i64(s, p3, v.mtime);
    assert(sp_lit(s, p4, g4) == Some(p5));
    assert(s[p6] == g6[0]) by {
        lemma_index_of_subrange(s, p6, g6, 0);
    }
    assert(!is_digit(s[p6]));
    lemma_roundtrip_u64(s, p5, v.subdir_num);
}

#[verifier::rlimit(100)]
#[verifier::spinoff_prover]
proof fn lemma_rt_ds_head_b(v: DirStatV)
    ensures
        sp_lit(enc_dirstat(v), ds_p6(v), lit_ds_file_num()) == Some(ds_p7(v)),
        sp_u64(enc_dirstat(v), ds_p7(v)) == Some((v.file_num, ds_p8(v))),
        sp_lit(enc_dirstat(v), ds_p8(v), lit_ds_blocks()) == Some(ds_p9(v)),
        sp_u64(enc_dirstat(v), ds_p9(v)) == Some((v.blocks, ds_p10(v))),
{
    let s = enc_dirstat(v);
    let g0 = lit_ds_ts();
    let g1 = dec_nat(v.ts as nat);
    let g2 = lit_ds_mtime();
    let g3 = dec_int(v.mtime as int);
    let g4 = lit_ds_subdir_num();
    let g5 = dec_nat(v.subdir_num as nat);
    let g6 = lit_ds_file_num();
    let g7 = dec_nat(v.file_num as nat);
    let g8 = lit_ds_blocks();
    let g9 = dec_nat(v.blocks as nat);
    let g10 = lit_ds_sub_dirs();
    let g11 = enc_str_array(v.sub_dirs);
    let g12 = lit_ds_path();
    let g13 = enc_str(v.path);
    let g14 = lit_close();
    lemma_subrange_chain(s, g0, g1, g2, g3, g4, g5, g6, g7, g8, g9, g10, g11, g12, g13, g14);
    let p0 = 0int;
    let p1 = p0 + g0.len();
    let p2 = p1 + g1.len();
    let p3 = p2 + g2.len();
    let p4 = p3 + g3.len();
    let p5 = p4 + g4.len();
    let p6 = p5 + g5.len();
    let p7 = p6 + g6.len();
    let p8 = p7 + g7.len();
    let p9 = p8 + g8.len();
    let p10 = p9 + g9.len();
    let p11 = p10 + g10.len();
    let p12 = p11 + g11.len();
    let p13 = p12 + g12.len();
    let p14 = p13 + g13.len();
    let p15 = p14 + g14.len();
    assert(p15 == s.len());

    assert(sp_lit(s, p6, g6) == Some(p7));
    assert(s[p8] == g8[0]) by {
        lemma_index_of_subrange(s, p8, g8, 0);
    }
    assert(!is_digit(s[p8]));
    lemma_roundtrip_u64(s, p7, v.file_num);
    assert(sp_lit(s, p8, g8) == Some(p9));
    assert(s[p10] == g10[0]) by {
        lemma_index_of_subrange(s, p10, g10, 0);
    }
    assert(!is_digit(s[p10]));
    lemma_roundtrip_u64(s, p9, v.blocks);
}

#[verifier::rlimit(100)]
#[verifier::spinoff_prover]
proof fn lemma_rt_ds_tail(v: DirStatV)
    ensures
        sp_lit(enc_dirstat(v), ds_p10(v), lit_ds_sub_dirs()) == Some(ds_p11(v)),
        sp_str_array(enc_dirstat(v), ds_p11(v)) == Some((v.sub_dirs, ds_p12(v))),
        sp_lit(enc_dirstat(v), ds_p12(v), lit_ds_path()) == Some(ds_p13(v)),
        sp_str(enc_dirstat(v), ds_p13(v)) == Some((v.path, ds_p14(v))),
        sp_lit(enc_dirstat(v), ds_p14(v), lit_close()) == Some(ds_p15(v)),
        ds_p15(v) == enc_dirstat(v).len(),
{
    let s = enc_dirstat(v);
    let g0 = lit_ds_ts();
    let g1 = dec_nat(v.ts as nat);
    let g2 = lit_ds_mtime();
    let g3 = dec_int(v.mtime as int);
    let g4 = lit_ds_subdir_num();
    let g5 = dec_nat(v.subdir_num as nat);
    let g6 = lit_ds_file_num();
    let g7 = dec_nat(v.file_num as nat);
    let g8 = lit_ds_blocks();
    let g9 = dec_nat(v.blocks as nat);
    let g10 = lit_ds_sub_dirs();
    let g11 = enc_str_array(v.sub_dirs);
    let g12 = lit_ds_path();
    let g13 = enc_str(v.path);
    let g14 = lit_close();
    lemma_subrange_chain(s, g0, g1, g2, g3, g4, g5, g6, g7, g8, g9, g10, g11, g12, g13, g14);
    let p0 = 0int;
    let p1 = p0 + g0.len();
    let p2 = p1 + g1.len();
    let p3 = p2 + g2.len();
    let p4 = p3 + g3.len();
    let p5 = p4 + g4.len();
    let p6 = p5 + g5.len();
    let p7 = p6 + g6.len();
    let p8 = p7 + g7.len();
    let p9 = p8 + g8.len();
    let p10 = p9 + g9.len();
    let p11 = p10 + g10.len();
    let p12 = p11 + g11.len();
    let p13 = p12 + g12.len();
    let p14 = p13 + g13.len();
    let p15 = p14 + g14.len();
    assert(p15 == s.len());

    assert(sp_lit(s, p10, g10) == Some(p11));
    lemma_roundtrip_str_array(s, p11, v.sub_dirs);
    assert(sp_lit(s, p12, g12) == Some(p13));
    lemma_roundtrip_str(s, p13, v.path);
    assert(sp_lit(s, p14, g14) == Some(p15));
}

/// Decoding an encoded snapshot gives the snapshot back.
#[verifier::rlimit(100)]
#[verifier::spinoff_prover]
pub proof fn lemma_roundtrip_dirstat(v: DirStatV)
    ensures
        sp_dirstat(enc_dirstat(v)) == Some(v),
{
    lemma_rt_ds_head_a(v);
    lemma_rt_ds_head_b(v);
    lemma_rt_ds_tail(v);
}

// ---------------------------------------------------------------------------
// The stat-cache table
// ---------------------------------------------------------------------------
/// What the cache knows about `key`: the decoded snapshot, or nothing when
/// the key is absent or its text does not parse.
pub open spec fn dirstat_lookup(t: Seq<(Seq<char>, Seq<char>)>, key: Seq<char>) -> Option<
    DirStatV,
> {
    match kv_lookup(t, key) {
        None => None,
        Some(text) => sp_dirstat(text),
    }
}

/// Persist `stat` as the snapshot of `path`.
pub fn save_dir_stat(db: &mut Db, path: &str, stat: &DirStat) -> (r: Result<(), Error>)
    requires
        db_ready(*old(db)),
    ensures
        db_ready(*final(db)),
        r is Ok,
        final(db).table_view(table_dir_stat_name()) == kv_set(
            old(db).table_view(table_dir_stat_name()),
            path@,
            enc_dirstat(stat@),
        ),
        forall|n: Seq<char>|
            n != table_dir_stat_name() ==> #[trigger] tview(final(db).tables@, n) == tview(
                old(db).tables@,
                n,
            ),
{
    let text = encode_dir_stat(stat);
    db.set(table_dir_stat(), path, text.as_str())
}

/// Load the snapshot of `path` from the cache; a missing key and a text that
/// does not parse both count as a miss.
pub fn get_dir_stat(db: &Db, path: &str) -> (r: Option<DirStat>)
    requires
        db_ready(*db),
    ensures
        match r {
            Some(st) => dirstat_lookup(db.table_view(table_dir_stat_name()), path@) == Some(st@),
            None => dirstat_lookup(db.table_view(table_dir_stat_name()), path@) is None,
        },
{
    match db.get(table_dir_stat(), path) {
        None => None,
        Some(text) => decode_dir_stat(text.as_str()),
    }
}

// ---------------------------------------------------------------------------
// Subtree summation over the cache
// ---------------------------------------------------------------------------
/// Keys counted for a subtree query of `path`: the path itself, and keys
/// under it with a separator.  Matching on the bare string prefix alone
/// would also catch siblings that merely share the spelling, so the
/// separator is required.
pub open spec fn subtree_matches(key: Seq<char>, path: Seq<char>) -> bool {
    key == path || is_prefix(path + seq!['/'], key)
}

/// Sum of the decodable cached snapshots whose key belongs to the subtree of
/// `path`: their immediate child counts and blocks, saturating; never marked
/// as served from cache.
pub open spec fn subtree_overview(t: Seq<(Seq<char>, Seq<char>)>, path: Seq<char>) -> DirScanOverview
    decreases t.len(),
{
    if t.len() == 0 {
        DirScanOverview { dirs: 0, files: 0, blocks: 0, is_cached: false }
    } else {
        let acc = subtree_overview(t.drop_last(), path);
        let e = t.last();
        if subtree_matches(e.0, path) && sp_dirstat(e.1) is Some {
            let st = sp_dirstat(e.1).unwrap();
            DirScanOverview {
                dirs: sat_add(acc.dirs, st.subdir_num),
                files: sat_add(acc.files, st.file_num),
                blocks: sat_add(acc.blocks, st.blocks),
                is_cached: false,
            }
        } else {
            acc
        }
    }
}

/// Counted keys all start with `path`, so summing over the prefix-filtered
/// rows sums over the whole table.
proof fn lemma_subtree_over_filter(t: Seq<(Seq<char>, Seq<char>)>, path: Seq<char>)
    ensures
        subtree_overview(kv_filter(t, path), path) == subtree_overview(t, path),
    decreases t.len(),
{
    if t.len() > 0 {
        let t1 = t.drop_last();
        let x = t.last();
        assert(t =~= t1.push(x));
        lemma_subtree_over_filter(t1, path);
        crate::kvstore::lemma_kv_filter_snoc(t1, x, path);
        if subtree_matches(x.0, path) {
            assert(is_prefix(path, x.0)) by {
                if x.0 == path {
                    assert(x.0.subrange(0, path.len() as int) =~= path);
                } else {
                    assert(forall|j: int|
                        0 <= j < path.len() ==> (path + seq!['/'])[j] == path[j]);
                    assert(x.0.subrange(0, path.len() as int) =~= path) by {
                        assert(forall|j: int|
                            0 <= j < path.len() ==> x.0.subrange(0, (path + seq!['/']).len() as int)[j]
                                == (path + seq!['/'])[j]);
                        assert(forall|j: int|
                            0 <= j < path.len() ==> #[trigger] (x.0.subrange(
                                0,
                                path.len() as int,
                            )[j]) == x.0.subrange(0, (path + seq!['/']).len() as int)[j]);
                    }
                }
            }
            assert(kv_filter(t, path) == kv_filter(t1, path).push(x));
            assert(kv_filter(t1, path).push(x).drop_last() =~= kv_filter(t1, path));
        } else {
            if is_prefix(path, x.0) {
                assert(kv_filter(t, path) == kv_filter(t1, path).push(x));
                assert(kv_filter(t1, path).push(x).drop_last() =~= kv_filter(t1, path));
            }
        }
    }
}

/// Sum the cached snapshots of `path` and everything below it.
pub fn get_dir_stat_recursive(db: &Db, path: &str) -> (r: Option<DirScanOverview>)
    requires
        db_ready(*db),
    ensures
        r == Some(subtree_overview(db.table_view(table_dir_stat_name()), path@)),
{
    let rows = db.foreach(table_dir_stat(), path, 0);
    let ghost filt = kv_filter(db.table_view(table_dir_stat_name()), path@);
    proof {
        assert(crate::kvstore::kv_view(rows@) == filt);
    }
    let mut slash_path = path.to_owned();
    crate::json::push_char(&mut slash_path, '/');
    proof {
        assert(slash_path@ =~= path@ + seq!['/']);
    }
    let mut overview = DirScanOverview::new();
    let mut i: usize = 0;
    proof {
        assert(filt.subrange(0, 0) =~= Seq::<(Seq<char>, Seq<char>)>::empty());
    }
    while i < rows.len()
        invariant
            i <= rows@.len(),
            crate::kvstore::kv_view(rows@) == filt,
            filt.len() == rows@.len(),
            slash_path@ == path@ + seq!['/'],
            overview == subtree_overview(filt.subrange(0, i as int), path@),
        decreases rows@.len() - i,
    {
        proof {
            assert(filt[i as int] == rows@[i as int]@);
            assert(filt.subrange(0, i + 1) =~= filt.subrange(0, i as int).push(filt[i as int]));
            assert(filt.subrange(0, i + 1).drop_last() =~= filt.subrange(0, i as int));
            assert(filt.subrange(0, i + 1).last() == filt[i as int]);
        }
        let key = rows[i].key.as_str();
        let is_exact = matches!(crate::order::str_cmp(key, path), crate::order::KeyOrder::Equal);
        let in_subtree = is_exact || crate::order::str_has_prefix(key, slash_path.as_str());
        if in_subtree {
            match decode_dir_stat(rows[i].value.as_str()) {
                Some(st) => {
                    proof {
                        assert(sp_dirstat(filt[i as int].1) == Some(st@));
                        assert(st@.subdir_num == st.subdir_num);
                    }
                    overview.dirs = overview.dirs.saturating_add(st.subdir_num);
                    overview.files = overview.files.saturating_add(st.file_num);
                    overview.blocks = overview.blocks.saturating_add(st.blocks);
                    overview.is_cached = false;
                },
                None => {},
            }
        }
        proof {
            assert(subtree_matches(filt[i as int].0, path@) == in_subtree);
            let pre = filt.subrange(0, i as int);
            let post = filt.subrange(0, i + 1);
            assert(post.len() == i + 1);
            assert(subtree_overview(post, path@) == (if subtree_matches(post.last().0, path@)
                && sp_dirstat(post.last().1) is Some {
                let st = sp_dirstat(post.last().1).unwrap();
                DirScanOverview {
                    dirs: sat_add(subtree_overview(pre, path@).dirs, st.subdir_num),
                    files: sat_add(subtree_overview(pre, path@).files, st.file_num),
                    blocks: sat_add(subtree_overview(pre, path@).blocks, st.blocks),
                    is_cached: false,
                }
            } else {
                subtree_overview(pre, path@)
            }));
            assert(overview == subtree_overview(post, path@));
        }
        i = i + 1;
    }
    proof {
        assert(filt.subrange(0, rows@.len() as int) =~= filt);
        lemma_subtree_over_filter(db.table_view(table_dir_stat_name()), path@);
    }
    Some(overview)
}

} // verus!
