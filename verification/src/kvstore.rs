//! Ordered key/value storage grouped into named tables.  Keys and values are
//! strings; each table keeps its entries strictly sorted in lexicographic key
//! order, which gives point lookups and prefix-ordered iteration.
use vstd::prelude::*;
use crate::order::{lex_lt, is_prefix, str_cmp, str_has_prefix, KeyOrder, lemma_lex_total,
    lemma_lex_trans};
use crate::Error;

verus! {

/// One stored pair.
#[derive(Debug)]
pub struct KvEntry {
    pub key: String,
    pub value: String,
}

impl View for KvEntry {
    type V = (Seq<char>, Seq<char>);

    open spec fn view(&self) -> (Seq<char>, Seq<char>) {
        (self.key@, self.value@)
    }
}

impl KvEntry {
    pub fn duplicate(&self) -> (r: KvEntry)
        ensures
            r@ == self@,
    {
        KvEntry { key: self.key.clone(), value: self.value.clone() }
    }
}

/// Size preset for a table: how much write volume and working set it is
/// tuned for.  Tuning has no effect on the stored contents.
#[derive(Clone, Copy, Debug, PartialEq, Eq, Structural)]
pub enum StdColumnFamilyConfig {
    TINY,
    DEFAULT,
    HUGE,
}

/// One named table.
#[derive(Debug)]
pub struct Table {
    pub name: String,
    pub config: StdColumnFamilyConfig,
    pub entries: Vec<KvEntry>,
}

/// The mathematical contents of a table.
pub open spec fn kv_view(entries: Seq<KvEntry>) -> Seq<(Seq<char>, Seq<char>)> {
    entries.map_values(|e: KvEntry| e@)
}

/// Keys strictly ascending.
pub open spec fn kv_sorted(s: Seq<(Seq<char>, Seq<char>)>) -> bool {
    forall|i: int, j: int| 0 <= i < j < s.len() ==> lex_lt(#[trigger] s[i].0, #[trigger] s[j].0)
}

/// The value stored under `key`, if any.
pub open spec fn kv_lookup(s: Seq<(Seq<char>, Seq<char>)>, key: Seq<char>) -> Option<Seq<char>>
    decreases s.len(),
{
    if s.len() == 0 {
        None
    } else if s[0].0 == key {
        Some(s[0].1)
    } else {
        kv_lookup(s.drop_first(), key)
    }
}

/// The table after `key` is bound to `val`, keeping the order.
pub open spec fn kv_set(s: Seq<(Seq<char>, Seq<char>)>, key: Seq<char>, val: Seq<char>) -> Seq<
    (Seq<char>, Seq<char>),
>
    decreases s.len(),
{
    if s.len() == 0 {
        seq![(key, val)]
    } else if lex_lt(key, s[0].0) {
        seq![(key, val)] + s
    } else if key == s[0].0 {
        seq![(key, val)] + s.drop_first()
    } else {
        seq![s[0]] + kv_set(s.drop_first(), key, val)
    }
}

/// The entries whose keys start with `p`, kept in order.
pub open spec fn kv_filter(s: Seq<(Seq<char>, Seq<char>)>, p: Seq<char>) -> Seq<
    (Seq<char>, Seq<char>),
>
    decreases s.len(),
{
    if s.len() == 0 {
        Seq::empty()
    } else if is_prefix(p, s[0].0) {
        seq![s[0]] + kv_filter(s.drop_first(), p)
    } else {
        kv_filter(s.drop_first(), p)
    }
}

/// `kv_set` keeps the order, binds `key` to `val`, and changes nothing else.
pub proof fn lemma_kv_set_props(s: Seq<(Seq<char>, Seq<char>)>, key: Seq<char>, val: Seq<char>)
    requires
        kv_sorted(s),
    ensures
        kv_sorted(kv_set(s, key, val)),
        kv_lookup(kv_set(s, key, val), key) == Some(val),
        forall|k: Seq<char>|
            k != key ==> #[trigger] kv_lookup(kv_set(s, key, val), k) == kv_lookup(s, k),
        forall|idx: int|
            0 <= idx < kv_set(s, key, val).len() ==> #[trigger] kv_set(s, key, val)[idx] == (
            key,
            val,
            ) || s.contains(kv_set(s, key, val)[idx]),
    decreases s.len(),
{
    let r = kv_set(s, key, val);
    if s.len() == 0 {
        assert(r.drop_first() =~= Seq::<(Seq<char>, Seq<char>)>::empty());
        assert(kv_lookup(r, key) == Some(val));
        assert forall|k: Seq<char>| k != key implies #[trigger] kv_lookup(r, k) == kv_lookup(s, k)
        by {
            assert(kv_lookup(r, k) == kv_lookup(r.drop_first(), k));
        }
    } else if lex_lt(key, s[0].0) {
        assert(r == seq![(key, val)] + s);
        assert(r.drop_first() =~= s);
        assert(kv_sorted(r)) by {
            assert forall|i: int, j: int| 0 <= i < j < r.len() implies lex_lt(
                #[trigger] r[i].0,
                #[trigger] r[j].0,
            ) by {
                if i == 0 {
                    if j > 1 {
                        lemma_lex_trans(key, s[0].0, s[j - 1].0);
                    }
                }
            }
        }
        assert forall|k: Seq<char>| k != key implies #[trigger] kv_lookup(r, k) == kv_lookup(s, k)
        by {}
        assert forall|idx: int| 0 <= idx < r.len() implies #[trigger] r[idx] == (key, val)
            || s.contains(r[idx]) by {
            if idx > 0 {
                assert(r[idx] == s[idx - 1]);
            }
        }
    } else if key == s[0].0 {
        assert(r == seq![(key, val)] + s.drop_first());
        assert(r.drop_first() =~= s.drop_first());
        assert(kv_sorted(r)) by {
            assert forall|i: int, j: int| 0 <= i < j < r.len() implies lex_lt(
                #[trigger] r[i].0,
                #[trigger] r[j].0,
            ) by {
                if i == 0 {
                    assert(r[j].0 == s[j].0);
                } else {
                    assert(r[i].0 == s[i].0 && r[j].0 == s[j].0);
                }
            }
        }
        assert forall|k: Seq<char>| k != key implies #[trigger] kv_lookup(r, k) == kv_lookup(s, k)
        by {
            assert(kv_lookup(s, k) == kv_lookup(s.drop_first(), k));
        }
        assert forall|idx: int| 0 <= idx < r.len() implies #[trigger] r[idx] == (key, val)
            || s.contains(r[idx]) by {
            if idx > 0 {
                assert(r[idx] == s[idx]);
            }
        }
    } else {
        lemma_lex_total(key, s[0].0);
        assert(lex_lt(s[0].0, key));
        let s1 = s.drop_first();
        assert(kv_sorted(s1)) by {
            assert forall|i: int, j: int| 0 <= i < j < s1.len() implies lex_lt(
                #[trigger] s1[i].0,
                #[trigger] s1[j].0,
            ) by {
                assert(s1[i] == s[i + 1] && s1[j] == s[j + 1]);
            }
        }
        lemma_kv_set_props(s1, key, val);
        let r1 = kv_set(s1, key, val);
        assert(r == seq![s[0]] + r1);
        assert(r.drop_first() =~= r1);
        assert(kv_sorted(r)) by {
            assert forall|i: int, j: int| 0 <= i < j < r.len() implies lex_lt(
                #[trigger] r[i].0,
                #[trigger] r[j].0,
            ) by {
                if i == 0 {
                    assert(r[j] == r1[j - 1]);
                    if r1[j - 1] == (key, val) {
                        assert(lex_lt(s[0].0, key));
                    } else {
                        assert(s1.contains(r1[j - 1]));
                        let m = choose|m: int| 0 <= m < s1.len() && s1[m] == r1[j - 1];
                        assert(s1[m] == s[m + 1]);
                        assert(lex_lt(s[0].0, s[m + 1].0));
                    }
                } else {
                    assert(r[i] == r1[i - 1] && r[j] == r1[j - 1]);
                }
            }
        }
        assert(r[0].0 == s[0].0 && s[0].0 != key);
        assert(kv_lookup(r, key) == kv_lookup(r1, key));
        assert forall|k: Seq<char>| k != key implies #[trigger] kv_lookup(r, k) == kv_lookup(s, k)
        by {
            if k == s[0].0 {
                assert(kv_lookup(r, k) == Some(s[0].1));
                assert(kv_lookup(s, k) == Some(s[0].1));
            } else {
                assert(kv_lookup(r, k) == kv_lookup(r1, k));
                assert(kv_lookup(s, k) == kv_lookup(s1, k));
            }
        }
        assert forall|idx: int| 0 <= idx < r.len() implies #[trigger] r[idx] == (key, val)
            || s.contains(r[idx]) by {
            if idx == 0 {
                assert(r[0] == s[0]);
                assert(s.contains(s[0]));
            } else {
                assert(r[idx] == r1[idx - 1]);
                if r1[idx - 1] != (key, val) {
                    assert(s1.contains(r1[idx - 1]));
                    let m = choose|m: int| 0 <= m < s1.len() && s1[m] == r1[idx - 1];
                    assert(s[m + 1] == s1[m]);
                    assert(s.contains(s[m + 1]));
                }
            }
        }
    }
}

/// Where the linear scan stops is where `kv_set` puts the pair.
pub proof fn lemma_kv_set_split(
    s: Seq<(Seq<char>, Seq<char>)>,
    key: Seq<char>,
    val: Seq<char>,
    p: int,
)
    requires
        kv_sorted(s),
        0 <= p <= s.len(),
        forall|j: int| 0 <= j < p ==> lex_lt(#[trigger] s[j].0, key),
        p < s.len() ==> !lex_lt(s[p].0, key),
    ensures
        p < s.len() && s[p].0 == key ==> kv_set(s, key, val) == s.take(p) + seq![(key, val)]
            + s.skip(p + 1),
        !(p < s.len() && s[p].0 == key) ==> kv_set(s, key, val) == s.take(p) + seq![(key, val)]
            + s.skip(p),
    decreases s.len(),
{
    if p == 0 {
        if s.len() == 0 {
            assert(kv_set(s, key, val) =~= s.take(0) + seq![(key, val)] + s.skip(0));
        } else if s[0].0 == key {
            assert(kv_set(s, key, val) =~= s.take(0) + seq![(key, val)] + s.skip(1));
        } else {
            lemma_lex_total(key, s[0].0);
            assert(lex_lt(key, s[0].0));
            assert(kv_set(s, key, val) =~= s.take(0) + seq![(key, val)] + s.skip(0));
        }
    } else {
        assert(lex_lt(s[0].0, key));
        lemma_lex_total(key, s[0].0);
        let s1 = s.drop_first();
        assert(kv_sorted(s1)) by {
            assert forall|i: int, j: int| 0 <= i < j < s1.len() implies lex_lt(
                #[trigger] s1[i].0,
                #[trigger] s1[j].0,
            ) by {
                assert(s1[i] == s[i + 1] && s1[j] == s[j + 1]);
            }
        }
        assert(forall|j: int| 0 <= j < p - 1 ==> lex_lt(#[trigger] s1[j].0, key)) by {
            assert(forall|j: int| 0 <= j < p - 1 ==> s1[j] == s[j + 1]);
        }
        assert(p - 1 < s1.len() ==> !lex_lt(s1[p - 1].0, key)) by {
            if p - 1 < s1.len() {
                assert(s1[p - 1] == s[p]);
            }
        }
        lemma_kv_set_split(s1, key, val, p - 1);
        assert(kv_set(s, key, val) == seq![s[0]] + kv_set(s1, key, val));
        if p < s.len() && s[p].0 == key {
            assert(s1[p - 1] == s[p]);
            assert(kv_set(s, key, val) =~= s.take(p) + seq![(key, val)] + s.skip(p + 1)) by {
                assert(kv_set(s1, key, val) == s1.take(p - 1) + seq![(key, val)] + s1.skip(p));
                assert forall|j: int| 0 <= j < s.len() implies #[trigger] ((seq![s[0]]
                    + (s1.take(p - 1) + seq![(key, val)] + s1.skip(p)))[j]) == (s.take(p)
                    + seq![(key, val)] + s.skip(p + 1))[j] by {
                    if j > 0 && j < p {
                        assert(s1.take(p - 1)[j - 1] == s[j]);
                    }
                    if j > p {
                        assert(s1.skip(p)[j - 1 - p] == s[j]);
                    }
                }
            }
        } else {
            if p < s.len() {
                assert(s1[p - 1] == s[p]);
            }
            assert(kv_set(s, key, val) =~= s.take(p) + seq![(key, val)] + s.skip(p)) by {
                assert(kv_set(s1, key, val) == s1.take(p - 1) + seq![(key, val)] + s1.skip(p - 1));
                assert forall|j: int| 0 <= j < s.len() + 1 implies #[trigger] ((seq![s[0]]
                    + (s1.take(p - 1) + seq![(key, val)] + s1.skip(p - 1)))[j]) == (s.take(p)
                    + seq![(key, val)] + s.skip(p))[j] by {
                    if j > 0 && j < p {
                        assert(s1.take(p - 1)[j - 1] == s[j]);
                    }
                    if j > p {
                        assert(s1.skip(p - 1)[j - 1 - p] == s[j - 1]);
                    }
                }
            }
        }
    }
}

/// `kv_filter` distributes over appending one entry.
pub proof fn lemma_kv_filter_snoc(
    s: Seq<(Seq<char>, Seq<char>)>,
    x: (Seq<char>, Seq<char>),
    p: Seq<char>,
)
    ensures
        kv_filter(s.push(x), p) == if is_prefix(p, x.0) {
            kv_filter(s, p).push(x)
        } else {
            kv_filter(s, p)
        },
    decreases s.len(),
{
    reveal_with_fuel(kv_filter, 3);
    if s.len() == 0 {
        assert(s.push(x)[0] == x);
        assert(s.push(x).drop_first() =~= Seq::<(Seq<char>, Seq<char>)>::empty());
        if is_prefix(p, x.0) {
            assert(kv_filter(s.push(x), p) =~= kv_filter(s, p).push(x));
        }
    } else {
        assert(s.push(x)[0] == s[0]);
        assert(s.push(x).drop_first() =~= s.drop_first().push(x));
        lemma_kv_filter_snoc(s.drop_first(), x, p);
        if is_prefix(p, x.0) {
            assert(kv_filter(s.push(x), p) =~= kv_filter(s, p).push(x));
        } else {
            assert(kv_filter(s.push(x), p) =~= kv_filter(s, p));
        }
    }
}

/// The first matching table's contents, by name.
pub open spec fn tview(tables: Seq<Table>, name: Seq<char>) -> Option<Seq<(Seq<char>, Seq<char>)>>
    decreases tables.len(),
{
    if tables.len() == 0 {
        None
    } else if tables[0].name@ == name {
        Some(kv_view(tables[0].entries@))
    } else {
        tview(tables.drop_first(), name)
    }
}

/// The store: a set of named tables.
#[derive(Debug)]
pub struct Db {
    pub tables: Vec<Table>,
}

impl Db {
    /// Every table is sorted and no two tables share a name.
    pub open spec fn wf(self) -> bool {
        &&& forall|i: int, j: int|
            0 <= i < j < self.tables@.len() ==> #[trigger] self.tables@[i].name@
                != #[trigger] self.tables@[j].name@
        &&& forall|i: int|
            0 <= i < self.tables@.len() ==> kv_sorted(kv_view(#[trigger] self.tables@[i].entries@))
    }

    pub open spec fn has_table(self, name: Seq<char>) -> bool {
        tview(self.tables@, name) is Some
    }

    /// Contents of the table `name`.
    pub open spec fn table_view(self, name: Seq<char>) -> Seq<(Seq<char>, Seq<char>)> {
        tview(self.tables@, name).unwrap()
    }

    pub fn new() -> (r: Db)
        ensures
            r.wf(),
            r.tables@.len() == 0,
            forall|n: Seq<char>| !r.has_table(n),
    {
        Db { tables: Vec::new() }
    }
}

/// A matching index determines `tview`, when names are distinct.
pub proof fn lemma_tview_at(tables: Seq<Table>, i: int)
    requires
        0 <= i < tables.len(),
        forall|a: int, b: int|
            0 <= a < b < tables.len() ==> #[trigger] tables[a].name@ != #[trigger] tables[b].name@,
    ensures
        tview(tables, tables[i].name@) == Some(kv_view(tables[i].entries@)),
    decreases tables.len(),
{
    if i == 0 {
    } else {
        assert(tables[0].name@ != tables[i].name@);
        let t1 = tables.drop_first();
        assert(forall|a: int, b: int|
            0 <= a < b < t1.len() ==> #[trigger] t1[a].name@ != #[trigger] t1[b].name@) by {
            assert(forall|a: int| 0 <= a < t1.len() ==> #[trigger] t1[a] == tables[a + 1]);
        }
        assert(t1[i - 1] == tables[i]);
        lemma_tview_at(t1, i - 1);
    }
}

/// If no table is named `name`, `tview` finds none.
pub proof fn lemma_tview_none(tables: Seq<Table>, name: Seq<char>)
    requires
        forall|i: int| 0 <= i < tables.len() ==> #[trigger] tables[i].name@ != name,
    ensures
        tview(tables, name) is None,
    decreases tables.len(),
{
    if tables.len() > 0 {
        let t1 = tables.drop_first();
        assert(forall|i: int| 0 <= i < t1.len() ==> #[trigger] t1[i] == tables[i + 1]);
        lemma_tview_none(t1, name);
    }
}

/// Replacing one table changes only that name's view.
pub proof fn lemma_tview_update(tables: Seq<Table>, tables2: Seq<Table>, i: int)
    requires
        0 <= i < tables.len(),
        tables2.len() == tables.len(),
        forall|j: int| 0 <= j < tables.len() && j != i ==> tables2[j] == tables[j],
        tables2[i].name@ == tables[i].name@,
        forall|a: int, b: int|
            0 <= a < b < tables.len() ==> #[trigger] tables[a].name@ != #[trigger] tables[b].name@,
    ensures
        forall|n: Seq<char>|
            n != tables[i].name@ ==> #[trigger] tview(tables2, n) == tview(tables, n),
        tview(tables2, tables[i].name@) == Some(kv_view(tables2[i].entries@)),
    decreases tables.len(),
{
    assert(forall|a: int, b: int|
        0 <= a < b < tables2.len() ==> #[trigger] tables2[a].name@ != #[trigger] tables2[b].name@);
    lemma_tview_at(tables2, i);
    assert forall|n: Seq<char>| n != tables[i].name@ implies #[trigger] tview(tables2, n) == tview(
        tables,
        n,
    ) by {
        lemma_tview_other(tables, tables2, i, n);
    }
}

proof fn lemma_tview_other(tables: Seq<Table>, tables2: Seq<Table>, i: int, n: Seq<char>)
    requires
        0 <= i < tables.len(),
        tables2.len() == tables.len(),
        forall|j: int| 0 <= j < tables.len() && j != i ==> tables2[j] == tables[j],
        tables2[i].name@ == tables[i].name@,
        n != tables[i].name@,
    ensures
        tview(tables2, n) == tview(tables, n),
    decreases tables.len(),
{
    if tables.len() > 0 {
        if i == 0 {
            assert(tables2[0].name@ == tables[0].name@);
            assert(tables[0].name@ != n);
            let a1 = tables.drop_first();
            let b1 = tables2.drop_first();
            assert(a1 =~= b1) by {
                assert(forall|j: int| 0 <= j < a1.len() ==> #[trigger] a1[j] == tables[j + 1]);
                assert(forall|j: int| 0 <= j < b1.len() ==> #[trigger] b1[j] == tables2[j + 1]);
            }
        } else {
            assert(tables2[0] == tables[0]);
            if tables[0].name@ == n {
            } else {
                let a1 = tables.drop_first();
                let b1 = tables2.drop_first();
                assert(forall|j: int| 0 <= j < a1.len() ==> #[trigger] a1[j] == tables[j + 1]);
                assert(forall|j: int| 0 <= j < b1.len() ==> #[trigger] b1[j] == tables2[j + 1]);
                assert(b1[i - 1].name@ == a1[i - 1].name@);
                lemma_tview_other(a1, b1, i - 1, n);
            }
        }
    }
}

impl Db {
    /// Find the index of the table named `name`, which must exist.
    fn find_table(&self, name: &str) -> (r: usize)
        requires
            self.wf(),
            self.has_table(name@),
        ensures
            r < self.tables@.len(),
            self.tables@[r as int].name@ == name@,
            tview(self.tables@, name@) == Some(kv_view(self.tables@[r as int].entries@)),
    {
        let mut i: usize = 0;
        while i < self.tables.len()
            invariant
                self.wf(),
                self.has_table(name@),
                i <= self.tables@.len(),
                forall|j: int| 0 <= j < i ==> #[trigger] self.tables@[j].name@ != name@,
            decreases self.tables@.len() - i,
        {
            if matches!(str_cmp(self.tables[i].name.as_str(), name), KeyOrder::Equal) {
                proof {
                    lemma_tview_at(self.tables@, i as int);
                }
                return i;
            }
            i = i + 1;
        }
        proof {
            lemma_tview_none(self.tables@, name@);
        }
        unreached()
    }

    /// Register a table under `name` with the given tuning preset; adding a
    /// name that is already present leaves the store unchanged.
    pub fn add_table(&mut self, name: &str, config: StdColumnFamilyConfig)
        requires
            old(self).wf(),
        ensures
            final(self).wf(),
            old(self).has_table(name@) ==> *final(self) == *old(self),
            !old(self).has_table(name@) ==> {
                &&& final(self).has_table(name@)
                &&& final(self).table_view(name@) == Seq::<(Seq<char>, Seq<char>)>::empty()
                &&& forall|n: Seq<char>|
                    n != name@ ==> #[trigger] tview(final(self).tables@, n) == tview(
                        old(self).tables@,
                        n,
                    )
            },
    {
        let mut i: usize = 0;
        while i < self.tables.len()
            invariant
                self.wf(),
                self == old(self),
                i <= self.tables@.len(),
                forall|j: int| 0 <= j < i ==> #[trigger] self.tables@[j].name@ != name@,
            decreases self.tables@.len() - i,
        {
            if matches!(str_cmp(self.tables[i].name.as_str(), name), KeyOrder::Equal) {
                proof {
                    lemma_tview_at(self.tables@, i as int);
                }
                return ;
            }
            i = i + 1;
        }
        proof {
            lemma_tview_none(self.tables@, name@);
        }
        let t = Table { name: name.to_owned(), config, entries: Vec::new() };
        let ghost tables0 = self.tables@;
        self.tables.push(t);
        proof {
            assert(self.tables@[tables0.len() as int].name@ == name@);
            assert(forall|j: int|
                0 <= j < tables0.len() ==> #[trigger] self.tables@[j] == tables0[j]);
            assert(kv_view(self.tables@[tables0.len() as int].entries@) =~= Seq::<
                (Seq<char>, Seq<char>),
            >::empty());
            lemma_tview_at(self.tables@, tables0.len() as int);
            assert forall|n: Seq<char>| n != name@ implies #[trigger] tview(self.tables@, n)
                == tview(tables0, n) by {
                lemma_tview_push(tables0, self.tables@[tables0.len() as int], n);
            }
        }
    }

    /// Bind `key` to `value` in table `table`.  The in-memory store cannot
    /// fail; the `Result` is the storage interface's shape.
    pub fn set(&mut self, table: &str, key: &str, value: &str) -> (r: Result<(), Error>)
        requires
            old(self).wf(),
            old(self).has_table(table@),
        ensures
            final(self).wf(),
            r is Ok,
            final(self).has_table(table@),
            final(self).table_view(table@) == kv_set(old(self).table_view(table@), key@, value@),
            forall|n: Seq<char>|
                n != table@ ==> #[trigger] tview(final(self).tables@, n) == tview(
                    old(self).tables@,
                    n,
                ),
    {
        let ti = self.find_table(table);
        let ghost tables0 = self.tables@;
        let ghost s = kv_view(tables0[ti as int].entries@);
        let mut t = self.tables.remove(ti);
        let ghost entries0 = t.entries@;
        let mut p: usize = 0;
        while p < t.entries.len() && matches!(
            str_cmp(t.entries[p].key.as_str(), key),
            KeyOrder::Less,
        )
            invariant
                p <= t.entries@.len(),
                t.entries@ == entries0,
                s == kv_view(entries0),
                forall|j: int| 0 <= j < p ==> lex_lt(#[trigger] s[j].0, key@),
            decreases t.entries@.len() - p,
        {
            proof {
                assert(s[p as int].0 == t.entries@[p as int].key@);
            }
            p = p + 1;
        }
        proof {
            assert(p < s.len() ==> s[p as int].0 == t.entries@[p as int].key@);
        }
        let replacing = p < t.entries.len() && matches!(
            str_cmp(t.entries[p].key.as_str(), key),
            KeyOrder::Equal,
        );
        if replacing {
            t.entries.remove(p);
        }
        t.entries.insert(p, KvEntry { key: key.to_owned(), value: value.to_owned() });
        proof {
            assert(kv_sorted(s));
            lemma_kv_set_split(s, key@, value@, p as int);
            if replacing {
                assert(kv_view(t.entries@) =~= kv_set(s, key@, value@)) by {
                    assert forall|j: int| 0 <= j < t.entries@.len() implies #[trigger] (kv_view(
                        t.entries@,
                    )[j]) == kv_set(s, key@, value@)[j] by {
                        assert(kv_view(t.entries@)[j] == t.entries@[j]@);
                        if j < p {
                            assert(t.entries@[j] == entries0.remove(p as int)[j]);
                            assert(t.entries@[j] == entries0[j]);
                        } else if j > p {
                            assert(t.entries@[j] == entries0.remove(p as int)[j - 1]);
                            assert(t.entries@[j] == entries0[j]);
                        }
                    }
                }
            } else {
                assert(kv_view(t.entries@) =~= kv_set(s, key@, value@)) by {
                    assert forall|j: int| 0 <= j < t.entries@.len() implies #[trigger] (kv_view(
                        t.entries@,
                    )[j]) == kv_set(s, key@, value@)[j] by {
                        assert(kv_view(t.entries@)[j] == t.entries@[j]@);
                        if j < p {
                            assert(t.entries@[j] == entries0[j]);
                        } else if j > p {
                            assert(t.entries@[j] == entries0[j - 1]);
                        }
                    }
                }
            }
            lemma_kv_set_props(s, key@, value@);
        }
        self.tables.insert(ti, t);
        proof {
            assert(self.tables@.len() == tables0.len());
            assert forall|j: int| 0 <= j < tables0.len() && j != ti implies #[trigger] (
            self.tables@[j]) == tables0[j] by {
                if j < ti {
                    assert(self.tables@[j] == tables0.remove(ti as int)[j]);
                } else {
                    assert(self.tables@[j] == tables0.remove(ti as int)[j - 1]);
                }
            }
            assert(self.tables@[ti as int].name@ == tables0[ti as int].name@);
            lemma_tview_update(tables0, self.tables@, ti as int);
        }
        Ok(())
    }

    /// The value stored under `key` in `table`, if any.
    pub fn get(&self, table: &str, key: &str) -> (r: Option<String>)
        requires
            self.wf(),
            self.has_table(table@),
        ensures
            match r {
                Some(v) => kv_lookup(self.table_view(table@), key@) == Some(v@),
                None => kv_lookup(self.table_view(table@), key@) is None,
            },
    {
        let ti = self.find_table(table);
        let entries = &self.tables[ti].entries;
        let ghost s = kv_view(entries@);
        let mut i: usize = 0;
        proof {
            assert(s.skip(0) =~= s);
        }
        while i < entries.len()
            invariant
                i <= entries@.len(),
                s == kv_view(entries@),
                tview(self.tables@, table@) == Some(s),
                kv_lookup(s, key@) == kv_lookup(s.skip(i as int), key@),
            decreases entries@.len() - i,
        {
            proof {
                assert(s.skip(i as int)[0] == s[i as int]);
                assert(s.skip(i as int).drop_first() =~= s.skip(i + 1));
                assert(s[i as int].0 == entries@[i as int].key@);
            }
            if matches!(str_cmp(entries[i].key.as_str(), key), KeyOrder::Equal) {
                return Some(entries[i].value.clone());
            }
            i = i + 1;
        }
        proof {
            assert(s.skip(i as int).len() == 0);
        }
        None
    }

    /// The value stored under `key`, or the empty string.
    pub fn get_string(&self, table: &str, key: &str) -> (r: String)
        requires
            self.wf(),
            self.has_table(table@),
        ensures
            r@ == match kv_lookup(self.table_view(table@), key@) {
                Some(v) => v,
                None => Seq::<char>::empty(),
            },
    {
        match self.get(table, key) {
            Some(v) => v,
            None => String::new(),
        }
    }

    /// The entries of `table` whose keys start with `key_prefix`, in key
    /// order, at most `limit` of them (`0` means no limit).
    pub fn foreach(&self, table: &str, key_prefix: &str, limit: u32) -> (r: Vec<KvEntry>)
        requires
            self.wf(),
            self.has_table(table@),
        ensures
            ({
                let filt = kv_filter(self.table_view(table@), key_prefix@);
                if limit == 0 || limit as int >= filt.len() {
                    kv_view(r@) == filt
                } else {
                    kv_view(r@) == filt.subrange(0, limit as int)
                }
            }),
    {
        let ti = self.find_table(table);
        let entries = &self.tables[ti].entries;
        let ghost s = kv_view(entries@);
        let mut out: Vec<KvEntry> = Vec::new();
        let mut i: usize = 0;
        proof {
            assert(s.subrange(0, 0) =~= Seq::<(Seq<char>, Seq<char>)>::empty());
            assert(kv_view(out@) =~= kv_filter(s.subrange(0, 0), key_prefix@));
        }
        while i < entries.len()
            invariant
                i <= entries@.len(),
                s == kv_view(entries@),
                kv_view(out@) == kv_filter(s.subrange(0, i as int), key_prefix@),
            decreases entries@.len() - i,
        {
            let ghost out0 = out@;
            proof {
                assert(s[i as int].0 == entries@[i as int].key@);
            }
            if str_has_prefix(entries[i].key.as_str(), key_prefix) {
                out.push(entries[i].duplicate());
                proof {
                    assert(kv_view(out@) =~= kv_view(out0).push(s[i as int]));
                }
            }
            proof {
                assert(s.subrange(0, i + 1) =~= s.subrange(0, i as int).push(s[i as int]));
                lemma_kv_filter_snoc(s.subrange(0, i as int), s[i as int], key_prefix@);
            }
            i = i + 1;
        }
        proof {
            assert(s.subrange(0, entries@.len() as int) =~= s);
        }
        let ghost filt = kv_filter(s, key_prefix@);
        if limit > 0 && out.len() > limit as usize {
            out.truncate(limit as usize);
            proof {
                assert(kv_view(out@) =~= filt.subrange(0, limit as int)) by {
                    assert forall|j: int| 0 <= j < limit as int implies #[trigger] (kv_view(
                        out@,
                    )[j]) == filt.subrange(0, limit as int)[j] by {
                        assert(kv_view(out@)[j] == out@[j]@);
                    }
                }
            }
        }
        out
    }
}

/// Appending a table resolves its own name and leaves the rest alone.
pub proof fn lemma_tview_push(tables: Seq<Table>, t: Table, n: Seq<char>)
    ensures
        tview(tables, n) is Some ==> tview(tables.push(t), n) == tview(tables, n),
        tview(tables, n) is None && t.name@ == n ==> tview(tables.push(t), n) == Some(
            kv_view(t.entries@),
        ),
        tview(tables, n) is None && t.name@ != n ==> tview(tables.push(t), n) is None,
    decreases tables.len(),
{
    if tables.len() == 0 {
        assert(tables.push(t)[0] == t);
        assert(tables.push(t).drop_first() =~= Seq::<Table>::empty());
    } else {
        assert(tables.push(t)[0] == tables[0]);
        assert(tables.push(t).drop_first() =~= tables.drop_first().push(t));
        lemma_tview_push(tables.drop_first(), t, n);
    }
}

/// A resolved view comes from some table of the sequence.
pub proof fn lemma_tview_some_index(tables: Seq<Table>, n: Seq<char>)
    requires
        tview(tables, n) is Some,
    ensures
        exists|i: int|
            0 <= i < tables.len() && #[trigger] tables[i].name@ == n && tview(tables, n) == Some(
                kv_view(tables[i].entries@),
            ),
    decreases tables.len(),
{
    if tables.len() > 0 {
        if tables[0].name@ == n {
        } else {
            let t1 = tables.drop_first();
            lemma_tview_some_index(t1, n);
            let i = choose|i: int|
                0 <= i < t1.len() && #[trigger] t1[i].name@ == n && tview(t1, n) == Some(
                    kv_view(t1[i].entries@),
                );
            assert(tables[i + 1] == t1[i]);
        }
    }
}

/// In a well-formed store, every table's contents are sorted.
pub proof fn lemma_table_view_sorted(db: Db, n: Seq<char>)
    requires
        db.wf(),
        db.has_table(n),
    ensures
        kv_sorted(db.table_view(n)),
{
    lemma_tview_some_index(db.tables@, n);
}

} // verus!
