//! Where the log files are, and which of them have to go.

use vstd::prelude::*;

use crate::order;
use crate::text;
use crate::winpath;

verus! {

/// How many nanoseconds a log file is kept: seven days.
pub const RETENTION_NANOS: u64 = 604_800_000_000_000;

/// How many bytes all log files may have.
pub const MAX_TOTAL_BYTES: u64 = 52_428_800;

/// The directory of the log files.
pub fn log_dir(data_dir: &str) -> (r: String)
    ensures
        r@ == winpath::joined_path(data_dir@, "logs"@),
{
    winpath::join(data_dir, "logs")
}

/// An entry of the directory, with the moment of its last change in nanoseconds since the epoch.
#[derive(Clone, Debug)]
pub struct LogFile {
    pub name: String,
    pub is_file: bool,
    pub modified: u64,
    pub len: u64,
}

/// The entry is a log file.
pub open spec fn is_log(f: LogFile) -> bool {
    f.is_file && text::begins(f.name@, "repodeck."@)
}

/// The log file is older than files are kept. One from the future has no age.
pub open spec fn is_expired(f: LogFile, now: u64) -> bool {
    is_log(f) && now - f.modified > RETENTION_NANOS
}

/// The places of the entries that are log files and expired, or not expired.
pub open spec fn logs_where(files: Seq<LogFile>, now: u64, expired: bool, n: nat) -> Seq<usize>
    decreases n,
{
    if n == 0 {
        Seq::empty()
    } else {
        let before = logs_where(files, now, expired, (n - 1) as nat);
        let f = files[n - 1];
        if is_log(f) && is_expired(f, now) == expired {
            before.push((n - 1) as usize)
        } else {
            before
        }
    }
}

pub open spec fn total_len(files: Seq<LogFile>, picks: Seq<usize>) -> nat
    decreases picks.len(),
{
    if picks.len() == 0 {
        0
    } else {
        total_len(files, picks.drop_last()) + files[picks.last() as int].len as nat
    }
}

pub open spec fn change_times(files: Seq<LogFile>, picks: Seq<usize>) -> Seq<u64> {
    picks.map_values(|i: usize| files[i as int].modified)
}

/// Which log files go: the expired ones at once, and then the others, the longest unchanged first,
/// while they are too large together.
#[derive(Clone, Debug)]
pub struct RetentionPlan {
    pub expired: Vec<usize>,
    pub queue: Vec<usize>,
    /// How many bytes the files that are left have.
    pub total: u128,
    /// How many of the queue have been tried.
    pub tried: usize,
}

/// Makes a plan for the entries of the directory.
pub fn plan_retention(files: &[LogFile], now: u64) -> (r: RetentionPlan)
    ensures
        r.expired@ == logs_where(files@, now, true, files@.len()),
        r.tried == 0,
        ({
            let kept = logs_where(files@, now, false, files@.len());
            &&& r.total == total_len(files@, kept)
            &&& exists|o: Seq<usize>| #[trigger]
                order::is_stable_order(o, change_times(files@, kept)) && r.queue@
                    == order::picked(kept, o)
        }),
{
    let n: usize = files.len();
    let mut expired: Vec<usize> = Vec::new();
    let mut kept: Vec<usize> = Vec::new();
    let mut times: Vec<u64> = Vec::new();
    let mut total: u128 = 0;
    let mut i: usize = 0;
    assert(times@ =~= change_times(files@, kept@));
    while i < n
        invariant
            i <= n == files@.len(),
            expired@ == logs_where(files@, now, true, i as nat),
            kept@ == logs_where(files@, now, false, i as nat),
            times@ == change_times(files@, kept@),
            forall|k: int| 0 <= k < kept@.len() ==> (#[trigger] kept@[k]) < i,
            total == total_len(files@, kept@),
            total <= i * 0xffff_ffff_ffff_ffff,
        decreases n - i,
    {
        let f = &files[i];
        if f.is_file && text::starts_with_text(f.name.as_str(), "repodeck.") {
            let old = now > f.modified && now - f.modified > RETENTION_NANOS;
            if old {
                expired.push(i);
            } else {
                let ghost k0 = kept@;
                kept.push(i);
                times.push(f.modified);
                assert(kept@.drop_last() =~= k0);
                assert(times@ =~= change_times(files@, kept@));
                assert(total + f.len <= (i + 1) * 0xffff_ffff_ffff_ffff) by (nonlinear_arith)
                    requires
                        total <= i * 0xffff_ffff_ffff_ffff,
                        f.len <= 0xffff_ffff_ffff_ffff,
                ;
                assert((i + 1) * 0xffff_ffff_ffff_ffff <= 0xffff_ffff_ffff_ffff_ffff_ffff_ffff_ffff)
                    by (nonlinear_arith)
                    requires
                        i + 1 <= 0xffff_ffff_ffff_ffff,
                ;
                total = total + f.len as u128;
            }
        }
        assert(i * 0xffff_ffff_ffff_ffff <= (i + 1) * 0xffff_ffff_ffff_ffff) by (nonlinear_arith);
        i += 1;
    }
    let o = order::stable_order(&times);
    let mut queue: Vec<usize> = Vec::new();
    let mut k: usize = 0;
    assert(queue@ =~= order::picked(kept@, o@).take(0));
    while k < o.len()
        invariant
            k <= o@.len(),
            o@.len() == kept@.len(),
            forall|a: int| 0 <= a < o@.len() ==> (#[trigger] o@[a]) < kept@.len(),
            queue@ == order::picked(kept@, o@).take(k as int),
        decreases o@.len() - k,
    {
        let at: usize = o[k];
        queue.push(kept[at]);
        assert(queue@ =~= order::picked(kept@, o@).take(k + 1));
        k += 1;
    }
    assert(queue@ =~= order::picked(kept@, o@));
    RetentionPlan { expired, queue, total, tried: 0 }
}

impl RetentionPlan {
    /// The next log file to remove, while all of them together are too large.
    pub fn next_victim(&self) -> (r: Option<usize>)
        ensures
            r == if self.total > MAX_TOTAL_BYTES && self.tried < self.queue@.len() {
                Some(self.queue@[self.tried as int])
            } else {
                None
            },
    {
        if self.total > MAX_TOTAL_BYTES as u128 && self.tried < self.queue.len() {
            Some(self.queue[self.tried])
        } else {
            None
        }
    }

    /// Notes whether the file could be removed, which had `len` bytes.
    pub fn note_removal(&mut self, len: u64, removed: bool)
        requires
            old(self).tried < old(self).queue@.len(),
        ensures
            final(self).expired == old(self).expired,
            final(self).queue == old(self).queue,
            final(self).tried == old(self).tried + 1,
            final(self).total == if removed {
                less(old(self).total as int, len as int)
            } else {
                old(self).total as int
            },
    {
        if removed {
            self.total = if self.total >= len as u128 {
                self.total - len as u128
            } else {
                0
            };
        }
        let n: usize = self.queue.len();
        assert(self.tried < n);
        self.tried = self.tried + 1;
    }
}

pub open spec fn less(total: int, len: int) -> int {
    if total >= len {
        total - len
    } else {
        0
    }
}

/// How many bytes are left once everything in the queue was tried that had to be, with each
/// removal going well.
pub open spec fn swept(files: Seq<LogFile>, queue: Seq<usize>, total: int, tried: int) -> int
    decreases queue.len() - tried,
{
    if total <= MAX_TOTAL_BYTES || tried < 0 || tried >= queue.len() {
        total
    } else {
        swept(files, queue, less(total, files[queue[tried] as int].len as int), tried + 1)
    }
}

/// How many bytes the files of the queue have from a place on.
pub open spec fn len_from(files: Seq<LogFile>, queue: Seq<usize>, from: int) -> int
    decreases queue.len() - from,
{
    if from < 0 || from >= queue.len() {
        0
    } else {
        files[queue[from] as int].len + len_from(files, queue, from + 1)
    }
}

/// Where every removal goes well, the files are not too large any more at the end.
pub proof fn law_sweep_ends_in_bounds(
    files: Seq<LogFile>,
    queue: Seq<usize>,
    total: int,
    tried: int,
)
    requires
        0 <= tried <= queue.len(),
        total <= len_from(files, queue, tried),
    ensures
        swept(files, queue, total, tried) <= MAX_TOTAL_BYTES,
    decreases queue.len() - tried,
{
    if total > MAX_TOTAL_BYTES && tried < queue.len() {
        let len = files[queue[tried] as int].len as int;
        lemma_len_from(files, queue, tried + 1);
        law_sweep_ends_in_bounds(files, queue, less(total, len), tried + 1);
    }
}

proof fn lemma_len_from(files: Seq<LogFile>, queue: Seq<usize>, from: int)
    ensures
        len_from(files, queue, from) >= 0,
    decreases queue.len() - from,
{
    if 0 <= from < queue.len() {
        lemma_len_from(files, queue, from + 1);
    }
}

/// The queue begins with the files that have been unchanged the longest.
pub proof fn law_oldest_go_first(
    files: Seq<LogFile>,
    kept: Seq<usize>,
    o: Seq<usize>,
    a: int,
    b: int,
)
    requires
        order::is_stable_order(o, change_times(files, kept)),
        0 <= a < b < o.len(),
    ensures
        files[order::picked(kept, o)[a] as int].modified <= files[order::picked(
            kept,
            o,
        )[b] as int].modified,
{
    assert(order::stable_before(change_times(files, kept), o[a] as int, o[b] as int));
}

/// Every log file is either removed at once, where it was last written to more than seven days ago,
/// or may be kept; and nothing but a log file is ever touched.
pub proof fn law_logs_are_kept_for_seven_days(
    files: Seq<LogFile>,
    now: u64,
    expired: bool,
    n: nat,
    i: usize,
)
    requires
        n <= files.len() <= usize::MAX,
        i < n,
    ensures
        logs_where(files, now, expired, n).contains(i) <==> {
            &&& files[i as int].is_file
            &&& text::begins(files[i as int].name@, "repodeck."@)
            &&& expired == (now - files[i as int].modified > 7 * 24 * 60 * 60 * 1_000_000_000)
        },
    decreases n,
{
    let before = logs_where(files, now, expired, (n - 1) as nat);
    let list = logs_where(files, now, expired, n);
    lemma_logs_below(files, now, expired, (n - 1) as nat);
    let f = files[n - 1];
    if i < n - 1 {
        law_logs_are_kept_for_seven_days(files, now, expired, (n - 1) as nat, i);
        if before.contains(i) {
            let k = choose|k: int| 0 <= k < before.len() && before[k] == i;
            assert(list[k] == i);
        }
        if list.contains(i) {
            let k = choose|k: int| 0 <= k < list.len() && list[k] == i;
            assert(k < before.len());
            assert(before[k] == i);
        }
    } else {
        if is_log(f) && is_expired(f, now) == expired {
            assert(list[list.len() - 1] == i);
        }
        if list.contains(i) {
            let k = choose|k: int| 0 <= k < list.len() && list[k] == i;
            if k < before.len() {
                assert(before[k] < n - 1);
            }
        }
    }
}

proof fn lemma_logs_below(files: Seq<LogFile>, now: u64, expired: bool, n: nat)
    requires
        n <= files.len() <= usize::MAX,
    ensures
        forall|k: int|
            0 <= k < logs_where(files, now, expired, n).len() ==> (#[trigger] logs_where(
                files,
                now,
                expired,
                n,
            )[k]) < n,
    decreases n,
{
    if n > 0 {
        lemma_logs_below(files, now, expired, (n - 1) as nat);
        let before = logs_where(files, now, expired, (n - 1) as nat);
        let list = logs_where(files, now, expired, n);
        assert forall|k: int| 0 <= k < list.len() implies (#[trigger] list[k]) < n by {
            if k < before.len() {
                assert(list[k] == before[k]);
            }
        }
    }
}

} // verus!
