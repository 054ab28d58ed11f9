use vstd::prelude::*;
use crate::scan::DirScanResult;
use crate::kvstore::{Db, kv_set, tview};
use crate::db::{db_ready, table_dir_scan_result_name};
use crate::scanresult::{save_dir_scan_result, history_key, enc_result};
use crate::Error;

verus! {

/// A unit of requested work, also the key that deduplicates in-flight work.
#[derive(Debug, PartialEq, Eq, Hash, Clone)]
pub enum Command {
    ScanDir(String),
}

/// Lifecycle of a tracked piece of work.
#[derive(Debug, Clone, Copy, PartialEq, Eq, Structural)]
pub enum ProgressStatus {
    PENDING,
    STARTED,
    COMPLETED,
    FAILED,
    ABORTED,
}

/// Interface a progress-reporting task offers to its observers.
pub trait Progress: Sized {
    fn new() -> Self;

    fn status() -> Result<ProgressStatus, String>;

    fn progress() -> Result<(i8, i8), String>;
}

/// The path a command identifies.
pub open spec fn cmd_view(c: Command) -> Seq<char> {
    match c {
        Command::ScanDir(p) => p@,
    }
}

impl Command {
    pub fn duplicate(&self) -> (r: Command)
        ensures
            cmd_view(r) == cmd_view(*self),
    {
        match self {
            Command::ScanDir(p) => Command::ScanDir(p.clone()),
        }
    }

    pub fn path(&self) -> (r: &str)
        ensures
            r@ == cmd_view(*self),
    {
        match self {
            Command::ScanDir(p) => p.as_str(),
        }
    }
}

/// Is some entry keyed by the command `c`?
pub open spec fn contains_cmd(s: Seq<(Command, DirScanResult)>, c: Seq<char>) -> bool {
    exists|i: int| 0 <= i < s.len() && cmd_view(#[trigger] s[i].0) == c
}

/// The registry without its first entry for `c`.
pub open spec fn remove_cmd(s: Seq<(Command, DirScanResult)>, c: Seq<char>) -> Seq<
    (Command, DirScanResult),
>
    decreases s.len(),
{
    if s.len() == 0 {
        Seq::empty()
    } else if cmd_view(s[0].0) == c {
        s.drop_first()
    } else {
        seq![s[0]] + remove_cmd(s.drop_first(), c)
    }
}

/// The in-flight registry of scans: at most one entry per command, each
/// holding the running session's progress.  The asynchronous plumbing around
/// it (the command channel and the workers) lives with the caller; the
/// registry makes the decisions.
#[derive(Debug)]
pub struct TaskManager {
    pub ongoing_tasks: Vec<(Command, DirScanResult)>,
}

impl TaskManager {
    /// No two entries track the same command.
    pub open spec fn wf(self) -> bool {
        forall|i: int, j: int|
            0 <= i < j < self.ongoing_tasks@.len() ==> cmd_view(
                #[trigger] self.ongoing_tasks@[i].0,
            ) != cmd_view(#[trigger] self.ongoing_tasks@[j].0)
    }

    pub fn new() -> (r: TaskManager)
        ensures
            r.wf(),
            r.ongoing_tasks@.len() == 0,
    {
        TaskManager { ongoing_tasks: Vec::new() }
    }

    /// Accept a command for dispatch.  A command already in flight is
    /// discarded: the registry is unchanged and the caller starts nothing,
    /// so at most one scan per command ever runs.  A new command gets a
    /// fresh in-progress entry.
    pub fn accept_command(&mut self, cmd: &Command) -> (r: bool)
        requires
            old(self).wf(),
        ensures
            final(self).wf(),
            !r ==> contains_cmd(old(self).ongoing_tasks@, cmd_view(*cmd)) && *final(self)
                == *old(self),
            r ==> {
                &&& !contains_cmd(old(self).ongoing_tasks@, cmd_view(*cmd))
                &&& final(self).ongoing_tasks@.len() == old(self).ongoing_tasks@.len() + 1
                &&& forall|k: int|
                    0 <= k < old(self).ongoing_tasks@.len()
                        ==> #[trigger] final(self).ongoing_tasks@[k]
                        == old(self).ongoing_tasks@[k]
                &&& cmd_view(final(self).ongoing_tasks@.last().0) == cmd_view(*cmd)
                &&& final(self).ongoing_tasks@.last().1.ongoing == true
                &&& final(self).ongoing_tasks@.last().1.status == ProgressStatus::STARTED
            },
    {
        let mut i: usize = 0;
        while i < self.ongoing_tasks.len()
            invariant
                i <= self.ongoing_tasks@.len(),
                self == old(self),
                old(self).wf(),
                forall|k: int|
                    0 <= k < i ==> cmd_view(#[trigger] self.ongoing_tasks@[k].0) != cmd_view(*cmd),
            decreases self.ongoing_tasks@.len() - i,
        {
            let entry_path = self.ongoing_tasks[i].0.path();
            if matches!(
                crate::order::str_cmp(entry_path, cmd.path()),
                crate::order::KeyOrder::Equal,
            ) {
                return false;
            }
            i = i + 1;
        }
        self.ongoing_tasks.push((cmd.duplicate(), DirScanResult::new()));
        true
    }

    /// A point-in-time snapshot of every running scan's progress, keyed by
    /// path, each entry reported as still running.
    pub fn scan_progress(&self) -> (r: Vec<(String, DirScanResult)>)
        ensures
            r@.len() == self.ongoing_tasks@.len(),
            forall|k: int|
                0 <= k < r@.len() ==> {
                    &&& (#[trigger] r@[k]).0@ == cmd_view(self.ongoing_tasks@[k].0)
                    &&& r@[k].1 == (DirScanResult { ongoing: true, ..self.ongoing_tasks@[k].1 })
                },
    {
        let mut out: Vec<(String, DirScanResult)> = Vec::new();
        let mut i: usize = 0;
        while i < self.ongoing_tasks.len()
            invariant
                i <= self.ongoing_tasks@.len(),
                out@.len() == i,
                forall|k: int|
                    0 <= k < i ==> {
                        &&& (#[trigger] out@[k]).0@ == cmd_view(self.ongoing_tasks@[k].0)
                        &&& out@[k].1 == (DirScanResult {
                            ongoing: true,
                            ..self.ongoing_tasks@[k].1
                        })
                    },
            decreases self.ongoing_tasks@.len() - i,
        {
            let path = self.ongoing_tasks[i].0.path().to_owned();
            let mut res = self.ongoing_tasks[i].1;
            res.ongoing = true;
            out.push((path, res));
            i = i + 1;
        }
        out
    }

    /// Settle a command on any worker outcome, success or failure: persist
    /// the terminal record into the history and clear the command's entry,
    /// so no permanently running entry can leak.  The record must already be
    /// finalized: a persisted session is never still running.
    pub fn finish_command(
        &mut self,
        db: &mut Db,
        cmd: &Command,
        result: &DirScanResult,
        now: u64,
    ) -> (r: Result<(), Error>)
        requires
            old(self).wf(),
            db_ready(*old(db)),
            result.ongoing == false,
        ensures
            final(self).wf(),
            db_ready(*final(db)),
            r is Ok,
            final(self).ongoing_tasks@ == remove_cmd(old(self).ongoing_tasks@, cmd_view(*cmd)),
            final(db).table_view(table_dir_scan_result_name()) == kv_set(
                old(db).table_view(table_dir_scan_result_name()),
                history_key(cmd_view(*cmd), now),
                enc_result(*result),
            ),
            forall|n: Seq<char>|
                n != table_dir_scan_result_name() ==> #[trigger] tview(final(db).tables@, n)
                    == tview(old(db).tables@, n),
    {
        let saved = save_dir_scan_result(db, cmd.path(), result, now);
        let ghost s0 = self.ongoing_tasks@;
        let mut i: usize = 0;
        while i < self.ongoing_tasks.len()
            invariant
                i <= self.ongoing_tasks@.len(),
                self.ongoing_tasks@ == s0,
                old(self).wf(),
                s0 == old(self).ongoing_tasks@,
                saved is Ok,
                db_ready(*db),
                db.table_view(table_dir_scan_result_name()) == kv_set(
                    old(db).table_view(table_dir_scan_result_name()),
                    history_key(cmd_view(*cmd), now),
                    enc_result(*result),
                ),
                forall|n: Seq<char>|
                    n != table_dir_scan_result_name() ==> #[trigger] tview(db.tables@, n) == tview(
                        old(db).tables@,
                        n,
                    ),
                forall|k: int| 0 <= k < i ==> cmd_view(#[trigger] s0[k].0) != cmd_view(*cmd),
            decreases self.ongoing_tasks@.len() - i,
        {
            let entry_path = self.ongoing_tasks[i].0.path();
            if matches!(
                crate::order::str_cmp(entry_path, cmd.path()),
                crate::order::KeyOrder::Equal,
            ) {
                self.ongoing_tasks.remove(i);
                proof {
                    lemma_remove_cmd_at(s0, cmd_view(*cmd), i as int);
                    assert(self.ongoing_tasks@ =~= remove_cmd(s0, cmd_view(*cmd)));
                    assert(final(self).wf()) by {
                        assert(forall|k: int|
                            0 <= k < i ==> #[trigger] self.ongoing_tasks@[k] == s0[k]);
                        assert(forall|k: int|
                            i <= k < self.ongoing_tasks@.len() ==> #[trigger] self.ongoing_tasks@[k]
                                == s0[k + 1]);
                    }
                }
                return saved;
            }
            i = i + 1;
        }
        proof {
            lemma_remove_cmd_absent(s0, cmd_view(*cmd));
        }
        saved
    }
}

/// Removing at the first matching index is what `remove_cmd` does.
proof fn lemma_remove_cmd_at(s: Seq<(Command, DirScanResult)>, c: Seq<char>, i: int)
    requires
        0 <= i < s.len(),
        cmd_view(s[i].0) == c,
        forall|k: int| 0 <= k < i ==> cmd_view(#[trigger] s[k].0) != c,
    ensures
        remove_cmd(s, c) == s.remove(i),
    decreases i,
{
    if i == 0 {
        assert(remove_cmd(s, c) =~= s.remove(0));
    } else {
        let s1 = s.drop_first();
        assert(forall|k: int| 0 <= k < s1.len() ==> #[trigger] s1[k] == s[k + 1]);
        lemma_remove_cmd_at(s1, c, i - 1);
        assert(remove_cmd(s, c) =~= s.remove(i));
    }
}

/// Removing an absent command changes nothing.
proof fn lemma_remove_cmd_absent(s: Seq<(Command, DirScanResult)>, c: Seq<char>)
    requires
        forall|k: int| 0 <= k < s.len() ==> cmd_view(#[trigger] s[k].0) != c,
    ensures
        remove_cmd(s, c) == s,
    decreases s.len(),
{
    if s.len() > 0 {
        let s1 = s.drop_first();
        assert(forall|k: int| 0 <= k < s1.len() ==> #[trigger] s1[k] == s[k + 1]);
        lemma_remove_cmd_absent(s1, c);
        assert(remove_cmd(s, c) =~= s);
    } else {
        assert(remove_cmd(s, c) =~= s);
    }
}

} // verus!
