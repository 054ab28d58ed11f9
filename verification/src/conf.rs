//! Watch-list configuration: which directories are watched, under what label
//! and refresh interval, stored as one JSON list in the configuration table
//! and keyed by path.
use vstd::prelude::*;
use crate::json::{enc_str, sp_lit, sp_str, push_quoted, parse_lit, parse_string,
    lemma_subrange_chain7, lemma_reassoc_chain7, lemma_roundtrip_str, lemma_index_of_subrange,
    push_char};
use crate::kvstore::{Db, kv_lookup, kv_set, tview, lemma_kv_set_props, lemma_table_view_sorted};
use crate::db::{db_ready, table_conf, table_conf_name};
use crate::Error;

verus! {

/// One watched directory: how often to rescan it, its display label, and the
/// path that identifies it.
#[derive(Debug)]
pub struct WatchDirectoryConfiguration {
    pub refresh_interval: String,
    pub label: String,
    pub path: String,
}

/// The mathematical value of a watch entry.
pub ghost struct WatchV {
    pub refresh_interval: Seq<char>,
    pub label: Seq<char>,
    pub path: Seq<char>,
}

impl View for WatchDirectoryConfiguration {
    type V = WatchV;

    open spec fn view(&self) -> WatchV {
        WatchV { refresh_interval: self.refresh_interval@, label: self.label@, path: self.path@ }
    }
}

impl WatchDirectoryConfiguration {
    pub fn duplicate(&self) -> (r: WatchDirectoryConfiguration)
        ensures
            r@ == self@,
    {
        WatchDirectoryConfiguration {
            refresh_interval: self.refresh_interval.clone(),
            label: self.label.clone(),
            path: self.path.clone(),
        }
    }

    /// Field-by-field equality.
    pub fn same_as(&self, o: &WatchDirectoryConfiguration) -> (r: bool)
        ensures
            r == (self@ == o@),
    {
        let r = self.refresh_interval.eq(&o.refresh_interval) && self.label.eq(&o.label)
            && self.path.eq(&o.path);
        proof {
            if self.refresh_interval@ == o.refresh_interval@ && self.label@ == o.label@
                && self.path@ == o.path@ {
                assert(self@ == o@);
            }
        }
        r
    }
}

pub open spec fn watches_view(ws: Seq<WatchDirectoryConfiguration>) -> Seq<WatchV> {
    ws.map_values(|w: WatchDirectoryConfiguration| w@)
}

// ---------------------------------------------------------------------------
// The stored record
// ---------------------------------------------------------------------------
pub open spec fn lit_w_interval() -> Seq<char> {
    seq!['{', '"', 'r', 'e', 'f', 'r', 'e', 's', 'h', '_', 'i', 'n', 't', 'e', 'r', 'v', 'a', 'l',
        '"', ':']
}

pub open spec fn lit_w_label() -> Seq<char> {
    seq![',', '"', 'l', 'a', 'b', 'e', 'l', '"', ':']
}

pub open spec fn lit_w_path() -> Seq<char> {
    seq![',', '"', 'p', 'a', 't', 'h', '"', ':']
}

pub open spec fn lit_w_close() -> Seq<char> {
    seq!['}']
}

pub open spec fn enc_watch(w: WatchV) -> Seq<char> {
    lit_w_interval() + (enc_str(w.refresh_interval) + (lit_w_label() + (enc_str(w.label) + (
    lit_w_path() + (enc_str(w.path) + lit_w_close())))))
}

/// The comma-joined body of the stored list.
pub open spec fn enc_watch_body(ws: Seq<WatchV>) -> Seq<char>
    decreases ws.len(),
{
    if ws.len() == 0 {
        Seq::empty()
    } else if ws.len() == 1 {
        enc_watch(ws[0])
    } else {
        enc_watch(ws[0]) + seq![','] + enc_watch_body(ws.drop_first())
    }
}

pub open spec fn enc_watch_list(ws: Seq<WatchV>) -> Seq<char> {
    seq!['['] + enc_watch_body(ws) + seq![']']
}

pub open spec fn sp_watch(s: Seq<char>, i: int) -> Option<(WatchV, int)> {
    match sp_lit(s, i, lit_w_interval()) {
        None => None,
        Some(i1) => match sp_str(s, i1) {
            None => None,
            Some((ri, i2)) => match sp_lit(s, i2, lit_w_label()) {
                None => None,
                Some(i3) => match sp_str(s, i3) {
                    None => None,
                    Some((label, i4)) => match sp_lit(s, i4, lit_w_path()) {
                        None => None,
                        Some(i5) => match sp_str(s, i5) {
                            None => None,
                            Some((path, i6)) => match sp_lit(s, i6, lit_w_close()) {
                                None => None,
                                Some(i7) => Some(
                                    (WatchV { refresh_interval: ri, label, path }, i7),
                                ),
                            },
                        },
                    },
                },
            },
        },
    }
}

/// Items of a non-empty stored list; recursion guarded on forward progress.
pub open spec fn sp_watch_items(s: Seq<char>, i: int, acc: Seq<WatchV>) -> Option<
    (Seq<WatchV>, int),
>
    decreases s.len() - i,
{
    match sp_watch(s, i) {
        Some((w, j)) => if j < s.len() && s[j] == ',' {
            if i < j + 1 <= s.len() {
                sp_watch_items(s, j + 1, acc.push(w))
            } else {
                None
            }
        } else if j < s.len() && s[j] == ']' {
            Some((acc.push(w), j + 1))
        } else {
            None
        },
        None => None,
    }
}

/// Strict parse of the whole stored list.
pub open spec fn sp_watch_list(s: Seq<char>) -> Option<Seq<WatchV>> {
    if s.len() > 0 && s[0] == '[' {
        if s.len() == 2 && s[1] == ']' {
            Some(Seq::empty())
        } else {
            match sp_watch_items(s, 1, Seq::empty()) {
                Some((ws, j)) => if j == s.len() {
                    Some(ws)
                } else {
                    None
                },
                None => None,
            }
        }
    } else {
        None
    }
}

/// Serialize one watch entry onto `out`.
fn push_watch(out: &mut String, w: &WatchDirectoryConfiguration)
    ensures
        final(out)@ == old(out)@ + enc_watch(w@),
{
    out.append("{\"refresh_interval\":");
    proof {
        reveal_strlit("{\"refresh_interval\":");
        assert("{\"refresh_interval\":"@ =~= lit_w_interval());
    }
    push_quoted(out, w.refresh_interval.as_str());
    out.append(",\"label\":");
    proof {
        reveal_strlit(",\"label\":");
        assert(",\"label\":"@ =~= lit_w_label());
    }
    push_quoted(out, w.label.as_str());
    out.append(",\"path\":");
    proof {
        reveal_strlit(",\"path\":");
        assert(",\"path\":"@ =~= lit_w_path());
    }
    push_quoted(out, w.path.as_str());
    out.append("}");
    proof {
        reveal_strlit("}");
        assert("}"@ =~= lit_w_close());
        lemma_reassoc_chain7(
            lit_w_interval(),
            enc_str(w.refresh_interval@),
            lit_w_label(),
            enc_str(w.label@),
            lit_w_path(),
            enc_str(w.path@),
            lit_w_close(),
        );
        assert(final(out)@ == old(out)@ + enc_watch(w@));
    }
}

/// `enc_watch_body` distributes over appending one entry.
proof fn lemma_enc_watch_body_snoc(ws: Seq<WatchV>, w: WatchV)
    ensures
        ws.len() == 0 ==> enc_watch_body(ws.push(w)) == enc_watch(w),
        ws.len() > 0 ==> enc_watch_body(ws.push(w)) == enc_watch_body(ws) + seq![','] + enc_watch(
            w,
        ),
    decreases ws.len(),
{
    if ws.len() == 0 {
        assert(ws.push(w)[0] == w);
        assert(enc_watch_body(ws.push(w)) =~= enc_watch(w));
    } else {
        assert(ws.push(w).drop_first() =~= ws.drop_first().push(w));
        lemma_enc_watch_body_snoc(ws.drop_first(), w);
        assert(enc_watch_body(ws.push(w)) =~= enc_watch_body(ws) + seq![','] + enc_watch(w));
    }
}

/// Serialize the whole list.
pub fn encode_watch_list(ws: &Vec<WatchDirectoryConfiguration>) -> (r: String)
    ensures
        r@ == enc_watch_list(watches_view(ws@)),
{
    let ghost wsv = watches_view(ws@);
    let mut out = String::new();
    push_char(&mut out, '[');
    let mut i: usize = 0;
    while i < ws.len()
        invariant
            i <= ws@.len(),
            wsv == watches_view(ws@),
            wsv.len() == ws@.len(),
            forall|k: int| 0 <= k < ws@.len() ==> wsv[k] == #[trigger] ws@[k]@,
            out@ == seq!['['] + enc_watch_body(wsv.subrange(0, i as int)),
        decreases ws@.len() - i,
    {
        if i > 0 {
            push_char(&mut out, ',');
        }
        push_watch(&mut out, &ws[i]);
        proof {
            lemma_enc_watch_body_snoc(wsv.subrange(0, i as int), wsv[i as int]);
            assert(wsv.subrange(0, i + 1) =~= wsv.subrange(0, i as int).push(wsv[i as int]));
            assert(out@ =~= seq!['['] + enc_watch_body(wsv.subrange(0, i + 1)));
        }
        i = i + 1;
    }
    push_char(&mut out, ']');
    proof {
        assert(wsv.subrange(0, ws@.len() as int) =~= wsv);
        assert(out@ =~= enc_watch_list(wsv));
    }
    out
}

/// Parse one watch entry at `i`.
fn parse_watch(s: &str, i: usize) -> (r: Option<(WatchDirectoryConfiguration, usize)>)
    ensures
        match r {
            Some((w, j)) => sp_watch(s@, i as int) == Some((w@, j as int)) && i < j <= s@.len(),
            None => sp_watch(s@, i as int) is None,
        },
{
    proof {
        reveal_strlit("{\"refresh_interval\":");
        reveal_strlit(",\"label\":");
        reveal_strlit(",\"path\":");
        reveal_strlit("}");
        assert("{\"refresh_interval\":"@ =~= lit_w_interval());
        assert(",\"label\":"@ =~= lit_w_label());
        assert(",\"path\":"@ =~= lit_w_path());
        assert("}"@ =~= lit_w_close());
    }
    let Some(i1) = parse_lit(s, i, "{\"refresh_interval\":") else { return None };
    let Some((ri, i2)) = parse_string(s, i1) else { return None };
    let Some(i3) = parse_lit(s, i2, ",\"label\":") else { return None };
    let Some((label, i4)) = parse_string(s, i3) else { return None };
    let Some(i5) = parse_lit(s, i4, ",\"path\":") else { return None };
    let Some((path, i6)) = parse_string(s, i5) else { return None };
    let Some(i7) = parse_lit(s, i6, "}") else { return None };
    Some((WatchDirectoryConfiguration { refresh_interval: ri, label, path }, i7))
}

/// Parse the whole stored list.
pub fn decode_watch_list(s: &str) -> (r: Option<Vec<WatchDirectoryConfiguration>>)
    ensures
        match r {
            Some(ws) => sp_watch_list(s@) == Some(watches_view(ws@)),
            None => sp_watch_list(s@) is None,
        },
{
    let len: usize = s.unicode_len();
    if len == 0 || s.get_char(0) != '[' {
        return None;
    }
    if len == 2 && s.get_char(1) == ']' {
        let empty: Vec<WatchDirectoryConfiguration> = Vec::new();
        proof {
            assert(watches_view(empty@) =~= Seq::<WatchV>::empty());
        }
        return Some(empty);
    }
    let mut j: usize = 1;
    let mut acc: Vec<WatchDirectoryConfiguration> = Vec::new();
    proof {
        assert(watches_view(acc@) =~= Seq::<WatchV>::empty());
    }
    loop
        invariant
            1 <= j <= len,
            len == s@.len(),
            s@.len() > 0 && s@[0] == '[',
            !(s@.len() == 2 && s@[1] == ']'),
            sp_watch_list(s@) == (match sp_watch_items(s@, j as int, watches_view(acc@)) {
                Some((ws, k)) => if k == s@.len() {
                    Some(ws)
                } else {
                    None::<Seq<WatchV>>
                },
                None => None::<Seq<WatchV>>,
            }),
        decreases len - j,
    {
        let ghost acc0 = watches_view(acc@);
        match parse_watch(s, j) {
            Some((w, k)) => {
                if k < len && s.get_char(k) == ',' {
                    acc.push(w);
                    proof {
                        assert(watches_view(acc@) =~= acc0.push(w@));
                    }
                    j = k + 1;
                } else if k < len && s.get_char(k) == ']' {
                    acc.push(w);
                    proof {
                        assert(watches_view(acc@) =~= acc0.push(w@));
                    }
                    if k + 1 == len {
                        return Some(acc);
                    }
                    return None;
                } else {
                    return None;
                }
            },
            None => {
                return None;
            },
        }
    }
}

/// Parsing a watch entry straight out of its encoding.
proof fn lemma_roundtrip_watch(s: Seq<char>, i: int, w: WatchV)
    requires
        0 <= i,
        i + enc_watch(w).len() <= s.len(),
        s.subrange(i, i + enc_watch(w).len()) == enc_watch(w),
    ensures
        sp_watch(s, i) == Some((w, i + enc_watch(w).len())),
{
    let g0 = lit_w_interval();
    let g1 = enc_str(w.refresh_interval);
    let g2 = lit_w_label();
    let g3 = enc_str(w.label);
    let g4 = lit_w_path();
    let g5 = enc_str(w.path);
    let g6 = lit_w_close();
    let e = enc_watch(w);
    let sub = s.subrange(i, i + e.len());
    lemma_subrange_chain7(sub, g0, g1, g2, g3, g4, g5, g6);
    assert forall|a: int, b: int| 0 <= a && a <= b && b <= e.len() implies #[trigger] sub.subrange(
        a,
        b,
    ) == s.subrange(i + a, i + b) by {
        assert(sub.subrange(a, b) =~= s.subrange(i + a, i + b));
    }
    let p1 = i + g0.len();
    let p2 = p1 + g1.len();
    let p3 = p2 + g2.len();
    let p4 = p3 + g3.len();
    let p5 = p4 + g4.len();
    let p6 = p5 + g5.len();
    let p7 = p6 + g6.len();
    assert(s.subrange(i, p1) == g0);
    assert(s.subrange(p1, p2) == g1);
    assert(s.subrange(p2, p3) == g2);
    assert(s.subrange(p3, p4) == g3);
    assert(s.subrange(p4, p5) == g4);
    assert(s.subrange(p5, p6) == g5);
    assert(s.subrange(p6, p7) == g6);
    assert(sp_lit(s, i, g0) == Some(p1));
    lemma_roundtrip_str(s, p1, w.refresh_interval);
    assert(sp_lit(s, p2, g2) == Some(p3));
    lemma_roundtrip_str(s, p3, w.label);
    assert(sp_lit(s, p4, g4) == Some(p5));
    lemma_roundtrip_str(s, p5, w.path);
    assert(sp_lit(s, p6, g6) == Some(p7));
}

/// Parsing the items of a non-empty list straight out of their encoding.
proof fn lemma_sp_watch_items_through(s: Seq<char>, i: int, acc: Seq<WatchV>, ws: Seq<WatchV>)
    requires
        ws.len() >= 1,
        0 <= i,
        i + enc_watch_body(ws).len() + 1 <= s.len(),
        s.subrange(i, i + enc_watch_body(ws).len()) == enc_watch_body(ws),
        s[i + enc_watch_body(ws).len()] == ']',
    ensures
        sp_watch_items(s, i, acc) == Some((acc + ws, i + enc_watch_body(ws).len() + 1)),
    decreases ws.len(),
{
    let e = enc_watch_body(ws);
    let e0 = enc_watch(ws[0]);
    if ws.len() == 1 {
        assert(e == e0);
        lemma_roundtrip_watch(s, i, ws[0]);
        let j = i + e0.len();
        assert(s[j] == ']');
        assert(s[j] != ',') by {
            assert((',') as u32 == 44 && (']') as u32 == 93);
        }
        assert(acc.push(ws[0]) =~= acc + ws);
    } else {
        let erest = enc_watch_body(ws.drop_first());
        assert(e == e0 + seq![','] + erest);
        assert(s.subrange(i, i + e0.len() as int) =~= e0) by {
            assert forall|k: int| 0 <= k < e0.len() implies #[trigger] (s.subrange(
                i,
                i + e0.len() as int,
            )[k]) == e0[k] by {
                lemma_index_of_subrange(s, i, e, k);
                assert(e[k] == e0[k]);
            }
        }
        lemma_roundtrip_watch(s, i, ws[0]);
        let j = i + e0.len();
        assert(s[j] == ',') by {
            lemma_index_of_subrange(s, i, e, e0.len() as int);
            assert(e[e0.len() as int] == ',');
        }
        assert(s.subrange(j + 1, j + 1 + erest.len() as int) =~= erest) by {
            assert forall|k: int| 0 <= k < erest.len() implies #[trigger] (s.subrange(
                j + 1,
                j + 1 + erest.len() as int,
            )[k]) == erest[k] by {
                lemma_index_of_subrange(s, i, e, e0.len() + 1 + k);
                assert(e[e0.len() + 1 + k] == erest[k]);
            }
        }
        lemma_sp_watch_items_through(s, j + 1, acc.push(ws[0]), ws.drop_first());
        assert(acc.push(ws[0]) + ws.drop_first() =~= acc + ws);
    }
}

/// Decoding an encoded watch list gives the list back.
pub proof fn lemma_roundtrip_watch_list(ws: Seq<WatchV>)
    ensures
        sp_watch_list(enc_watch_list(ws)) == Some(ws),
{
    let s = enc_watch_list(ws);
    assert(s[0] == '[');
    if ws.len() == 0 {
        assert(s =~= seq!['[', ']']);
    } else {
        let body = enc_watch_body(ws);
        assert(body.len() >= enc_watch(ws[0]).len());
        assert(enc_watch(ws[0]).len() >= lit_w_interval().len());
        assert(s[1] == body[0]);
        assert(body[0] == enc_watch(ws[0])[0]);
        assert(enc_watch(ws[0])[0] == '{');
        assert(!(s.len() == 2 && s[1] == ']')) by {
            assert(('{') as u32 == 123 && (']') as u32 == 93);
        }
        assert(s.subrange(1, 1 + body.len() as int) =~= body);
        assert(s[1 + body.len() as int] == ']');
        lemma_sp_watch_items_through(s, 1, Seq::empty(), ws);
        assert(Seq::empty() + ws =~= ws);
    }
}

// ---------------------------------------------------------------------------
// The configuration table
// ---------------------------------------------------------------------------
pub open spec fn watches_key() -> Seq<char> {
    "watches"@
}

fn watches_key_exec() -> (r: &'static str)
    ensures
        r@ == watches_key(),
{
    "watches"
}

/// The watch list a configuration table holds: the decoded stored list, or
/// the empty list when none is stored or the text does not parse.
pub open spec fn watches_of(t: Seq<(Seq<char>, Seq<char>)>) -> Seq<WatchV> {
    match kv_lookup(t, watches_key()) {
        None => Seq::empty(),
        Some(text) => match sp_watch_list(text) {
            Some(ws) => ws,
            None => Seq::empty(),
        },
    }
}

/// Is some entry watching `p`?
pub open spec fn path_present(ws: Seq<WatchV>, p: Seq<char>) -> bool {
    exists|i: int| 0 <= i < ws.len() && #[trigger] ws[i].path == p
}

/// Every entry watching `w.path` takes `w`'s label and interval; the rest
/// stay as they are.
pub open spec fn update_watch(ws: Seq<WatchV>, w: WatchV) -> Seq<WatchV> {
    ws.map_values(
        |e: WatchV|
            if e.path == w.path {
                WatchV { refresh_interval: w.refresh_interval, label: w.label, path: e.path }
            } else {
                e
            },
    )
}

/// Adding a watch updates the path's entry in place, or appends a new one.
pub open spec fn upsert_watch(ws: Seq<WatchV>, w: WatchV) -> Seq<WatchV> {
    if path_present(ws, w.path) {
        update_watch(ws, w)
    } else {
        ws.push(w)
    }
}

/// The entries that do not watch `p`, in order.
pub open spec fn drop_path(ws: Seq<WatchV>, p: Seq<char>) -> Seq<WatchV>
    decreases ws.len(),
{
    if ws.len() == 0 {
        Seq::empty()
    } else if ws[0].path == p {
        drop_path(ws.drop_first(), p)
    } else {
        seq![ws[0]] + drop_path(ws.drop_first(), p)
    }
}

proof fn lemma_drop_path_snoc(ws: Seq<WatchV>, x: WatchV, p: Seq<char>)
    ensures
        drop_path(ws.push(x), p) == if x.path == p {
            drop_path(ws, p)
        } else {
            drop_path(ws, p).push(x)
        },
    decreases ws.len(),
{
    reveal_with_fuel(drop_path, 3);
    if ws.len() == 0 {
        assert(ws.push(x)[0] == x);
        assert(ws.push(x).drop_first() =~= Seq::<WatchV>::empty());
        if x.path != p {
            assert(drop_path(ws.push(x), p) =~= drop_path(ws, p).push(x));
        }
    } else {
        assert(ws.push(x)[0] == ws[0]);
        assert(ws.push(x).drop_first() =~= ws.drop_first().push(x));
        lemma_drop_path_snoc(ws.drop_first(), x, p);
        if x.path == p {
            assert(drop_path(ws.push(x), p) =~= drop_path(ws, p));
        } else {
            assert(drop_path(ws.push(x), p) =~= drop_path(ws, p).push(x));
        }
    }
}

/// The stored watch list.
pub fn list_watch(db: &Db) -> (r: Vec<WatchDirectoryConfiguration>)
    requires
        db_ready(*db),
    ensures
        watches_view(r@) == watches_of(db.table_view(table_conf_name())),
{
    match db.get(table_conf(), watches_key_exec()) {
        None => {
            let empty: Vec<WatchDirectoryConfiguration> = Vec::new();
            proof {
                assert(watches_view(empty@) =~= Seq::<WatchV>::empty());
            }
            empty
        },
        Some(text) => {
            match decode_watch_list(text.as_str()) {
                Some(ws) => ws,
                None => {
                    let empty: Vec<WatchDirectoryConfiguration> = Vec::new();
                    proof {
                        assert(watches_view(empty@) =~= Seq::<WatchV>::empty());
                    }
                    empty
                },
            }
        },
    }
}

/// Add a watch.  A watch equal to a stored one leaves the store untouched; a
/// watch whose path is already present updates that entry's label and
/// interval in place, without duplicating it; a new path is appended.
#[verifier::rlimit(30)]
pub fn add_watch(db: &mut Db, to_add: &WatchDirectoryConfiguration) -> (r: Result<(), Error>)
    requires
        db_ready(*old(db)),
    ensures
        db_ready(*final(db)),
        r is Ok,
        ({
            let ws0 = watches_of(old(db).table_view(table_conf_name()));
            &&& ws0.contains(to_add@) ==> *final(db) == *old(db)
            &&& !ws0.contains(to_add@) ==> {
                &&& watches_of(final(db).table_view(table_conf_name())) == upsert_watch(
                    ws0,
                    to_add@,
                )
                &&& forall|n: Seq<char>|
                    n != table_conf_name() ==> #[trigger] tview(final(db).tables@, n) == tview(
                        old(db).tables@,
                        n,
                    )
            }
        }),
{
    let ghost ws0 = watches_of(old(db).table_view(table_conf_name()));
    let watches = list_watch(db);
    let mut i: usize = 0;
    while i < watches.len()
        invariant
            i <= watches@.len(),
            *db == *old(db),
            db_ready(*db),
            ws0 == watches_of(old(db).table_view(table_conf_name())),
            watches_view(watches@) == ws0,
            forall|k: int| 0 <= k < i ==> #[trigger] watches@[k]@ != to_add@,
        decreases watches@.len() - i,
    {
        if watches[i].same_as(to_add) {
            proof {
                assert(ws0[i as int] == watches@[i as int]@);
            }
            return Ok(());
        }
        i = i + 1;
    }
    proof {
        if ws0.contains(to_add@) {
            let k = choose|k: int| 0 <= k < ws0.len() && ws0[k] == to_add@;
            assert(watches@[k]@ == ws0[k]);
        }
    }
    let mut out: Vec<WatchDirectoryConfiguration> = Vec::new();
    let mut updated = false;
    let mut j: usize = 0;
    proof {
        assert(watches_view(out@) =~= Seq::<WatchV>::empty());
    }
    while j < watches.len()
        invariant
            j <= watches@.len(),
            db_ready(*db),
            *db == *old(db),
            ws0 == watches_of(old(db).table_view(table_conf_name())),
            watches_view(watches@) == ws0,
            out@.len() == j,
            updated == exists|k: int| 0 <= k < j && #[trigger] ws0[k].path == to_add@.path,
            forall|k: int|
                0 <= k < j ==> #[trigger] (watches_view(out@)[k]) == update_watch(ws0, to_add@)[k],
        decreases watches@.len() - j,
    {
        let ghost outv0 = watches_view(out@);
        proof {
            assert(ws0[j as int] == watches@[j as int]@);
        }
        if watches[j].path.eq(&to_add.path) {
            out.push(
                WatchDirectoryConfiguration {
                    refresh_interval: to_add.refresh_interval.clone(),
                    label: to_add.label.clone(),
                    path: watches[j].path.clone(),
                },
            );
            updated = true;
        } else {
            out.push(watches[j].duplicate());
        }
        proof {
            assert(forall|k: int|
                0 <= k < j ==> #[trigger] (watches_view(out@)[k]) == outv0[k]);
            assert(watches_view(out@)[j as int] == out@[j as int]@);
            assert(update_watch(ws0, to_add@)[j as int] == (if ws0[j as int].path == to_add@.path {
                WatchV {
                    refresh_interval: to_add@.refresh_interval,
                    label: to_add@.label,
                    path: ws0[j as int].path,
                }
            } else {
                ws0[j as int]
            }));
        }
        j = j + 1;
    }
    let ghost outv1 = watches_view(out@);
    if !updated {
        out.push(to_add.duplicate());
    }
    proof {
        if updated {
            assert(watches_view(out@) =~= update_watch(ws0, to_add@));
            assert(path_present(ws0, to_add@.path));
        } else {
            assert(!path_present(ws0, to_add@.path));
            assert(watches_view(out@) =~= ws0.push(to_add@)) by {
                assert(forall|k: int|
                    0 <= k < ws0.len() ==> #[trigger] (watches_view(out@)[k]) == outv1[k]);
                assert(forall|k: int|
                    0 <= k < ws0.len() ==> #[trigger] outv1[k] == update_watch(ws0, to_add@)[k]);
                assert(forall|k: int|
                    0 <= k < ws0.len() ==> #[trigger] update_watch(ws0, to_add@)[k] == ws0[k]);
                assert(watches_view(out@)[ws0.len() as int] == out@[ws0.len() as int]@);
            }
        }
        assert(watches_view(out@) == upsert_watch(ws0, to_add@));
    }
    let text = encode_watch_list(&out);
    let res = db.set(table_conf(), watches_key_exec(), text.as_str());
    proof {
        lemma_table_view_sorted(*old(db), table_conf_name());
        lemma_kv_set_props(
            old(db).table_view(table_conf_name()),
            watches_key(),
            enc_watch_list(watches_view(out@)),
        );
        lemma_roundtrip_watch_list(watches_view(out@));
    }
    res
}

/// Remove the watch of `to_remove`'s path.  Removing a path that is not
/// watched is a no-op that leaves the store untouched and does not error.
#[verifier::rlimit(30)]
pub fn remove_watch(db: &mut Db, to_remove: &WatchDirectoryConfiguration) -> (r: Result<(), Error>)
    requires
        db_ready(*old(db)),
    ensures
        db_ready(*final(db)),
        r is Ok,
        ({
            let ws0 = watches_of(old(db).table_view(table_conf_name()));
            &&& !path_present(ws0, to_remove@.path) ==> *final(db) == *old(db)
            &&& path_present(ws0, to_remove@.path) ==> {
                &&& watches_of(final(db).table_view(table_conf_name())) == drop_path(
                    ws0,
                    to_remove@.path,
                )
                &&& forall|n: Seq<char>|
                    n != table_conf_name() ==> #[trigger] tview(final(db).tables@, n) == tview(
                        old(db).tables@,
                        n,
                    )
            }
        }),
{
    let ghost ws0 = watches_of(old(db).table_view(table_conf_name()));
    let watches = list_watch(db);
    let mut kept: Vec<WatchDirectoryConfiguration> = Vec::new();
    let mut i: usize = 0;
    proof {
        assert(watches_view(kept@) =~= Seq::<WatchV>::empty());
        assert(ws0.subrange(0, 0) =~= Seq::<WatchV>::empty());
        assert(drop_path(ws0.subrange(0, 0), to_remove@.path) =~= Seq::<WatchV>::empty());
    }
    while i < watches.len()
        invariant
            i <= watches@.len(),
            db_ready(*db),
            *db == *old(db),
            ws0 == watches_of(old(db).table_view(table_conf_name())),
            watches_view(watches@) == ws0,
            watches_view(kept@) == drop_path(ws0.subrange(0, i as int), to_remove@.path),
            kept@.len() <= i,
            (kept@.len() == i) == !path_present(ws0.subrange(0, i as int), to_remove@.path),
        decreases watches@.len() - i,
    {
        let ghost keptv0 = watches_view(kept@);
        proof {
            assert(ws0[i as int] == watches@[i as int]@);
            lemma_drop_path_snoc(ws0.subrange(0, i as int), ws0[i as int], to_remove@.path);
            assert(ws0.subrange(0, i + 1) =~= ws0.subrange(0, i as int).push(ws0[i as int]));
        }
        proof {
            lemma_path_present_push(ws0.subrange(0, i as int), ws0[i as int], to_remove@.path);
        }
        if !watches[i].path.eq(&to_remove.path) {
            kept.push(watches[i].duplicate());
            proof {
                assert(watches_view(kept@) =~= keptv0.push(ws0[i as int]));
            }
        }
        i = i + 1;
    }
    proof {
        assert(ws0.subrange(0, watches@.len() as int) =~= ws0);
    }
    if kept.len() == watches.len() {
        return Ok(());
    }
    let text = encode_watch_list(&kept);
    let res = db.set(table_conf(), watches_key_exec(), text.as_str());
    proof {
        lemma_table_view_sorted(*old(db), table_conf_name());
        lemma_kv_set_props(
            old(db).table_view(table_conf_name()),
            watches_key(),
            enc_watch_list(watches_view(kept@)),
        );
        lemma_roundtrip_watch_list(watches_view(kept@));
    }
    res
}

/// Dropping a path never lengthens the list.
proof fn lemma_drop_path_len(ws: Seq<WatchV>, p: Seq<char>)
    ensures
        drop_path(ws, p).len() <= ws.len(),
    decreases ws.len(),
{
    if ws.len() > 0 {
        lemma_drop_path_len(ws.drop_first(), p);
    }
}

/// Dropping a present path strictly shrinks the list.
proof fn lemma_drop_path_shrinks(ws: Seq<WatchV>, p: Seq<char>)
    requires
        path_present(ws, p),
    ensures
        drop_path(ws, p).len() < ws.len(),
    decreases ws.len(),
{
    if ws[0].path == p {
        lemma_drop_path_len(ws.drop_first(), p);
    } else {
        let i = choose|i: int| 0 <= i < ws.len() && #[trigger] ws[i].path == p;
        assert(ws.drop_first()[i - 1].path == p);
        lemma_drop_path_shrinks(ws.drop_first(), p);
    }
}

/// Appending one entry watches `p` exactly when the entry or the rest does.
proof fn lemma_path_present_push(ws: Seq<WatchV>, x: WatchV, p: Seq<char>)
    ensures
        path_present(ws.push(x), p) == (path_present(ws, p) || x.path == p),
{
    if x.path == p {
        assert(ws.push(x)[ws.len() as int].path == p);
    }
    if path_present(ws, p) {
        let i = choose|i: int| 0 <= i < ws.len() && #[trigger] ws[i].path == p;
        assert(ws.push(x)[i].path == p);
    }
    if path_present(ws.push(x), p) {
        let i = choose|i: int| 0 <= i < ws.push(x).len() && #[trigger] ws.push(x)[i].path == p;
        if i < ws.len() {
            assert(ws[i].path == p);
        } else {
            assert(ws.push(x)[i] == x);
        }
    }
}

/// Where the application database lives under the user's home directory.
pub fn app_db_path(home: &str) -> (r: String)
    ensures
        r@ == home@ + "/.config/sizes/app.db"@,
{
    let mut out = home.to_owned();
    out.append("/.config/sizes/app.db");
    out
}

} // verus!
