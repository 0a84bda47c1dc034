//! Accumulating per-executable usage between samples: CPU time and disk traffic count only
//! over continuous intervals; peak memory is the largest seen.
use vstd::prelude::*;
use crate::metrics::sat_add;
use crate::process::Identity;
use crate::table::Table;

verus! {

/// The most executables the usage history holds.
pub const ROWS_LIMIT: usize = 4096;

/// The accumulated disk traffic and peak memory of one executable.
#[derive(Clone, Copy)]
pub struct Usage {
    pub read: u64,
    pub write: u64,
    pub peak_memory: u64,
}

/// A process's counters at the previous sample.
#[derive(Clone, Copy)]
pub struct Reading {
    pub ticks: u64,
    pub read: Option<u64>,
    pub write: Option<u64>,
}

/// Whether a process's executable can be recorded: it already has a row, or there is room.
pub fn has_room(rows: usize, present: bool) -> (r: bool)
    ensures
        r == (present || rows < ROWS_LIMIT),
{
    present || rows < ROWS_LIMIT
}

pub open spec fn sat_sub(a: u64, b: u64) -> u64 {
    if a >= b {
        (a - b) as u64
    } else {
        0
    }
}

/// Adds the growth of a counter to a total, when both readings exist.
pub open spec fn grown(total: u64, now: Option<u64>, before: Option<u64>) -> u64 {
    match (now, before) {
        (Some(a), Some(b)) => sat_add(total, sat_sub(a, b)),
        _ => total,
    }
}

fn add_growth(total: u64, now: Option<u64>, before: Option<u64>) -> (r: u64)
    ensures
        r == grown(total, now, before),
{
    match (now, before) {
        (Some(a), Some(b)) => total.saturating_add(a.saturating_sub(b)),
        _ => total,
    }
}

/// The usage of an executable after a sample of one of its processes, and the CPU ticks
/// to add to its CPU time.
pub open spec fn accumulated(
    row: Usage,
    previous: Option<Reading>,
    ticks: u64,
    read: Option<u64>,
    write: Option<u64>,
    memory: u64,
    continuous: bool,
) -> (Usage, Option<u64>) {
    let peak = if row.peak_memory >= memory { row.peak_memory } else { memory };
    if continuous && previous is Some {
        let p = previous->0;
        (
            Usage { read: grown(row.read, read, p.read), write: grown(row.write, write, p.write), peak_memory: peak },
            Some(sat_sub(ticks, p.ticks)),
        )
    } else {
        (Usage { read: row.read, write: row.write, peak_memory: peak }, None)
    }
}

/// The usage of an executable after a sample of one of its processes, and the CPU ticks
/// to add to its CPU time (none unless the interval is continuous and the process was
/// seen before).
pub fn accumulate(
    row: Usage,
    previous: Option<Reading>,
    ticks: u64,
    read: Option<u64>,
    write: Option<u64>,
    memory: u64,
    continuous: bool,
) -> (r: (Usage, Option<u64>))
    ensures
        r.0.peak_memory == if row.peak_memory >= memory { row.peak_memory } else { memory },
        match previous {
            Some(p) if continuous => {
                &&& r.1 == Some(sat_sub(ticks, p.ticks))
                &&& r.0.read == grown(row.read, read, p.read)
                &&& r.0.write == grown(row.write, write, p.write)
            },
            _ => r.1 is None && r.0.read == row.read && r.0.write == row.write,
        },
        r == accumulated(row, previous, ticks, read, write, memory, continuous),
{
    let peak = if row.peak_memory >= memory {
        row.peak_memory
    } else {
        memory
    };
    if continuous {
        match previous {
            Some(p) => {
                let usage = Usage {
                    read: add_growth(row.read, read, p.read),
                    write: add_growth(row.write, write, p.write),
                    peak_memory: peak,
                };
                return (usage, Some(ticks.saturating_sub(p.ticks)));
            },
            None => {},
        }
    }
    (Usage { read: row.read, write: row.write, peak_memory: peak }, None)
}

/// How often the usage history is written while sampling (s).
pub const SAVE_INTERVAL_SECS: u64 = 30;

/// Whether a periodic save is due, `elapsed_secs` after the last one.
pub fn save_due(elapsed_secs: u64) -> (r: bool)
    ensures
        r == (elapsed_secs >= SAVE_INTERVAL_SECS),
{
    elapsed_secs >= SAVE_INTERVAL_SECS
}

/// Whether the history may be written, and the error shown with it. A history file that
/// could not be loaded is preserved: nothing overwrites it until an explicit reset.
pub struct Persistence {
    pub preserve_unreadable: bool,
    pub error: Option<String>,
}

impl Persistence {
    /// The state after loading: `failure` is why the saved history could not be read.
    pub fn loaded(failure: Option<&str>) -> (r: Persistence)
        ensures
            r.preserve_unreadable == (failure is Some),
            match failure {
                Some(e) => r.error matches Some(m) && m@ == "Saved history could not be loaded: "@ + e@
                    + ". Original file preserved; reset history to replace it."@,
                None => r.error is None,
            },
    {
        match failure {
            Some(e) => {
                let mut m = "Saved history could not be loaded: ".to_owned();
                m.append(e);
                m.append(". Original file preserved; reset history to replace it.");
                Persistence { preserve_unreadable: true, error: Some(m) }
            },
            None => Persistence { preserve_unreadable: false, error: None },
        }
    }

    /// Whether a periodic or final save may write the file.
    pub fn may_save(&self) -> (r: bool)
        ensures
            r == !self.preserve_unreadable,
    {
        !self.preserve_unreadable
    }

    /// Records the outcome of a save: its error is shown until the next save succeeds.
    pub fn saved(&mut self, outcome: Result<(), String>)
        ensures
            final(self).preserve_unreadable == old(self).preserve_unreadable,
            match outcome {
                Ok(()) => final(self).error is None,
                Err(e) => final(self).error matches Some(m) && m@ == "Usage history could not be saved: "@ + e@,
            },
    {
        self.error = match outcome {
            Ok(()) => None,
            Err(e) => {
                let mut m = "Usage history could not be saved: ".to_owned();
                m.append(e.as_str());
                Some(m)
            },
        };
    }

    /// A reset was written: the file may be saved again and no error remains.
    pub fn reset_written(&mut self)
        ensures
            !final(self).preserve_unreadable,
            final(self).error is None,
    {
        self.preserve_unreadable = false;
        self.error = None;
    }
}


/// A process as the usage history samples it: the executable it is kept under (its
/// `/proc/<pid>/exe` target, else its name), its identity and owner, and its counters.
pub struct Sampled {
    pub key: String,
    pub id: Identity,
    pub uid: u32,
    pub ticks: u64,
    pub read: Option<u64>,
    pub write: Option<u64>,
    pub memory: u64,
}

/// The reading a sampled process leaves for the next sample.
pub open spec fn reading_of(p: Sampled) -> Reading {
    Reading { ticks: p.ticks, read: p.read, write: p.write }
}

/// The last reading recorded for `id` (a later process with the same identity wins).
pub open spec fn reading_for(prev: Seq<(Identity, Reading)>, id: Identity) -> Option<Reading>
    decreases prev.len(),
{
    if prev.len() == 0 {
        None
    } else if prev.last().0 == id {
        Some(prev.last().1)
    } else {
        reading_for(prev.drop_last(), id)
    }
}

/// Whether a sampled process is recorded: it belongs to `me`, and its executable has a row
/// already or there is room for one.
pub open spec fn kept(rows: Map<Seq<char>, Usage>, p: Sampled, me: u32) -> bool {
    p.uid == me && (rows.contains_key(p.key@) || rows.dom().len() < ROWS_LIMIT)
}

/// The zero usage a new row starts from.
pub open spec fn fresh_usage() -> Usage {
    Usage { read: 0, write: 0, peak_memory: 0 }
}

/// One sampled process: the rows after it, and the CPU ticks its row gains.
pub open spec fn book_step(
    rows: Map<Seq<char>, Usage>,
    prev: Seq<(Identity, Reading)>,
    p: Sampled,
    me: u32,
    continuous: bool,
) -> (Map<Seq<char>, Usage>, Option<u64>) {
    if !kept(rows, p, me) {
        (rows, None)
    } else {
        let row = if rows.contains_key(p.key@) { rows[p.key@] } else { fresh_usage() };
        let a = accumulated(row, reading_for(prev, p.id), p.ticks, p.read, p.write, p.memory, continuous);
        (rows.insert(p.key@, a.0), a.1)
    }
}

/// The rows after sampling `ps` in order.
pub open spec fn book_fold(
    rows: Map<Seq<char>, Usage>,
    prev: Seq<(Identity, Reading)>,
    ps: Seq<Sampled>,
    me: u32,
    continuous: bool,
) -> Map<Seq<char>, Usage>
    decreases ps.len(),
{
    if ps.len() == 0 {
        rows
    } else {
        book_step(book_fold(rows, prev, ps.drop_last(), me, continuous), prev, ps.last(), me, continuous).0
    }
}

/// The history never holds more than `ROWS_LIMIT` executables: sampling adds a row only
/// while there is room.
pub proof fn lemma_rows_stay_bounded(
    rows: Map<Seq<char>, Usage>,
    prev: Seq<(Identity, Reading)>,
    ps: Seq<Sampled>,
    me: u32,
    continuous: bool,
)
    requires
        rows.dom().finite(),
        rows.dom().len() <= ROWS_LIMIT,
    ensures
        book_fold(rows, prev, ps, me, continuous).dom().finite(),
        book_fold(rows, prev, ps, me, continuous).dom().len() <= ROWS_LIMIT,
        forall|k: Seq<char>| rows.contains_key(k) ==> #[trigger] book_fold(rows, prev, ps, me, continuous).contains_key(k),
    decreases ps.len(),
{
    if ps.len() > 0 {
        lemma_rows_stay_bounded(rows, prev, ps.drop_last(), me, continuous);
        let m = book_fold(rows, prev, ps.drop_last(), me, continuous);
        let p = ps.last();
        if kept(m, p, me) {
            if m.contains_key(p.key@) {
                assert(m.dom().insert(p.key@) =~= m.dom());
            }
        }
    }
}

/// The row `k` starts from: its saved usage, or zero for a new executable.
pub open spec fn base_of(rows: Map<Seq<char>, Usage>, k: Seq<char>) -> Usage {
    if rows.contains_key(k) { rows[k] } else { fresh_usage() }
}

/// Whether process `i` of `ps` is recorded at its turn of the fold.
pub open spec fn kept_at(
    rows: Map<Seq<char>, Usage>,
    prev: Seq<(Identity, Reading)>,
    ps: Seq<Sampled>,
    me: u32,
    continuous: bool,
    i: int,
) -> bool {
    kept(book_fold(rows, prev, ps.take(i), me, continuous), ps[i], me)
}

/// What sampling does to the rows, whatever the processes:
/// - no row is lost, and no counter or peak ever goes down;
/// - disk counters move only over a `continuous` interval, and only for a process of
///   `me` whose identity was in the previous sample;
/// - a new row belongs to one of `me`'s processes;
/// - a row's peak memory is its earlier peak or the memory of one of its processes, and
///   at least the memory of each of its processes that was recorded.
pub proof fn lemma_sampling_only_accumulates(
    rows: Map<Seq<char>, Usage>,
    prev: Seq<(Identity, Reading)>,
    ps: Seq<Sampled>,
    me: u32,
    continuous: bool,
)
    ensures
        ({
            let f = book_fold(rows, prev, ps, me, continuous);
            &&& forall|k: Seq<char>| #[trigger] rows.contains_key(k) ==> f.contains_key(k) && f[k].read >= rows[k].read
                && f[k].write >= rows[k].write && f[k].peak_memory >= rows[k].peak_memory
            &&& forall|k: Seq<char>| #[trigger] f.contains_key(k) && !continuous ==> f[k].read == base_of(rows, k).read
                && f[k].write == base_of(rows, k).write
            &&& forall|k: Seq<char>| #[trigger] f.contains_key(k) && (f[k].read != base_of(rows, k).read
                || f[k].write != base_of(rows, k).write) ==> continuous && exists|i: int| 0 <= i < ps.len()
                && ps[i].key@ == k && ps[i].uid == me && #[trigger] reading_for(prev, ps[i].id) is Some
            &&& forall|k: Seq<char>| #[trigger] f.contains_key(k) && !rows.contains_key(k) ==> exists|i: int|
                0 <= i < ps.len() && #[trigger] ps[i].key@ == k && ps[i].uid == me
            &&& forall|k: Seq<char>| #[trigger] f.contains_key(k) ==> f[k].peak_memory == base_of(rows, k).peak_memory
                || exists|i: int| 0 <= i < ps.len() && #[trigger] ps[i].key@ == k && ps[i].uid == me
                && ps[i].memory == f[k].peak_memory
            &&& forall|i: int| 0 <= i < ps.len() && #[trigger] kept_at(rows, prev, ps, me, continuous, i)
                ==> f.contains_key(ps[i].key@) && f[ps[i].key@].peak_memory >= ps[i].memory
        }),
    decreases ps.len(),
{
    if ps.len() == 0 {
        return;
    }
    let q = ps.drop_last();
    lemma_sampling_only_accumulates(rows, prev, q, me, continuous);
    let m = book_fold(rows, prev, q, me, continuous);
    let p = ps.last();
    let f = book_fold(rows, prev, ps, me, continuous);
    let last = ps.len() - 1;
    assert(ps[last] == p);
    assert forall|i: int| 0 <= i < q.len() implies ps[i] == #[trigger] q[i] by {}
    assert(ps.take(last) =~= q);
    if !kept(m, p, me) {
        assert(f == m);
        assert forall|k: Seq<char>| #[trigger] f.contains_key(k) && (f[k].read != base_of(rows, k).read
            || f[k].write != base_of(rows, k).write) implies continuous && exists|i: int| 0 <= i < ps.len()
            && ps[i].key@ == k && ps[i].uid == me && #[trigger] reading_for(prev, ps[i].id) is Some by {
            let i = choose|i: int| 0 <= i < q.len() && q[i].key@ == k && q[i].uid == me && #[trigger] reading_for(
                prev,
                q[i].id,
            ) is Some;
            assert(ps[i] == q[i]);
        }
        assert forall|k: Seq<char>| #[trigger] f.contains_key(k) && !rows.contains_key(k) implies exists|i: int|
            0 <= i < ps.len() && #[trigger] ps[i].key@ == k && ps[i].uid == me by {
            let i = choose|i: int| 0 <= i < q.len() && #[trigger] q[i].key@ == k && q[i].uid == me;
            assert(ps[i] == q[i]);
        }
        assert forall|k: Seq<char>| #[trigger] f.contains_key(k) implies f[k].peak_memory == base_of(
            rows,
            k,
        ).peak_memory || exists|i: int| 0 <= i < ps.len() && #[trigger] ps[i].key@ == k && ps[i].uid == me
            && ps[i].memory == f[k].peak_memory by {
            if f[k].peak_memory != base_of(rows, k).peak_memory {
                let i = choose|i: int| 0 <= i < q.len() && #[trigger] q[i].key@ == k && q[i].uid == me && q[i].memory
                    == m[k].peak_memory;
                assert(ps[i] == q[i]);
            }
        }
        assert forall|i: int| 0 <= i < ps.len() && #[trigger] kept_at(rows, prev, ps, me, continuous, i) implies f.contains_key(
            ps[i].key@,
        ) && f[ps[i].key@].peak_memory >= ps[i].memory by {
            if i < last {
                assert(ps.take(i) =~= q.take(i));
                assert(kept_at(rows, prev, q, me, continuous, i));
            }
        }
    } else {
        let key = p.key@;
        let row = base_of(m, key);
        let r = reading_for(prev, p.id);
        let a = accumulated(row, r, p.ticks, p.read, p.write, p.memory, continuous);
        assert(f == m.insert(key, a.0));
        assert(a.0.read >= row.read && a.0.write >= row.write && a.0.peak_memory >= row.peak_memory);
        assert(!continuous ==> a.0.read == row.read && a.0.write == row.write);
        assert(a.0.read != row.read || a.0.write != row.write ==> continuous && r is Some);
        assert(a.0.peak_memory == row.peak_memory || a.0.peak_memory == p.memory);
        assert(!m.contains_key(key) ==> !rows.contains_key(key) && row == fresh_usage());
        assert forall|k: Seq<char>| #[trigger] rows.contains_key(k) implies f.contains_key(k) && f[k].read
            >= rows[k].read && f[k].write >= rows[k].write && f[k].peak_memory >= rows[k].peak_memory by {
            if k == key {
                assert(row == m[k]);
            }
        }
        assert forall|k: Seq<char>| #[trigger] f.contains_key(k) && !continuous implies f[k].read == base_of(
            rows,
            k,
        ).read && f[k].write == base_of(rows, k).write by {
            if k == key && m.contains_key(k) {
                assert(row == m[k]);
            }
        }
        assert forall|k: Seq<char>| #[trigger] f.contains_key(k) && (f[k].read != base_of(rows, k).read
            || f[k].write != base_of(rows, k).write) implies continuous && exists|i: int| 0 <= i < ps.len()
            && ps[i].key@ == k && ps[i].uid == me && #[trigger] reading_for(prev, ps[i].id) is Some by {
            if k == key && (a.0.read != row.read || a.0.write != row.write) {
                assert(reading_for(prev, ps[last].id) is Some);
            } else {
                if k == key {
                    assert(m.contains_key(k));
                    assert(row == m[k]);
                }
                let i = choose|i: int| 0 <= i < q.len() && q[i].key@ == k && q[i].uid == me && #[trigger] reading_for(
                    prev,
                    q[i].id,
                ) is Some;
                assert(ps[i] == q[i]);
            }
        }
        assert forall|k: Seq<char>| #[trigger] f.contains_key(k) && !rows.contains_key(k) implies exists|i: int|
            0 <= i < ps.len() && #[trigger] ps[i].key@ == k && ps[i].uid == me by {
            if k == key {
                assert(ps[last].key@ == k);
            } else {
                let i = choose|i: int| 0 <= i < q.len() && #[trigger] q[i].key@ == k && q[i].uid == me;
                assert(ps[i] == q[i]);
            }
        }
        assert forall|k: Seq<char>| #[trigger] f.contains_key(k) implies f[k].peak_memory == base_of(
            rows,
            k,
        ).peak_memory || exists|i: int| 0 <= i < ps.len() && #[trigger] ps[i].key@ == k && ps[i].uid == me
            && ps[i].memory == f[k].peak_memory by {
            if k == key && a.0.peak_memory == p.memory {
                assert(ps[last].key@ == k);
            } else if f[k].peak_memory != base_of(rows, k).peak_memory {
                if k == key {
                    assert(m.contains_key(k));
                    assert(row == m[k]);
                }
                let i = choose|i: int| 0 <= i < q.len() && #[trigger] q[i].key@ == k && q[i].uid == me && q[i].memory
                    == m[k].peak_memory;
                assert(ps[i] == q[i]);
            }
        }
        assert forall|i: int| 0 <= i < ps.len() && #[trigger] kept_at(rows, prev, ps, me, continuous, i) implies f.contains_key(
            ps[i].key@,
        ) && f[ps[i].key@].peak_memory >= ps[i].memory by {
            if i < last {
                assert(ps.take(i) =~= q.take(i));
                assert(kept_at(rows, prev, q, me, continuous, i));
                if ps[i].key@ == key {
                    assert(row == m[key]);
                }
            }
        }
    }
}

/// The usage history: one row per executable (at most `ROWS_LIMIT`), and each process's
/// readings at the previous sample.
pub struct UsageBook {
    rows: Table<Usage>,
    previous: Vec<(Identity, Reading)>,
}

impl UsageBook {
    pub closed spec fn rows(&self) -> Map<Seq<char>, Usage> {
        self.rows@
    }

    pub closed spec fn previous(&self) -> Seq<(Identity, Reading)> {
        self.previous@
    }

    /// An empty history.
    pub fn new() -> (r: UsageBook)
        ensures
            r.rows() == Map::<Seq<char>, Usage>::empty(),
            r.previous() == Seq::<(Identity, Reading)>::empty(),
    {
        UsageBook { rows: Table::new(), previous: Vec::new() }
    }

    /// Restores a saved row.
    pub fn restore(&mut self, key: String, usage: Usage)
        ensures
            final(self).rows() == old(self).rows().insert(key@, usage),
            final(self).previous() == old(self).previous(),
    {
        self.rows.insert(key, usage);
    }

    /// The row of `key`, if there is one.
    pub fn usage(&self, key: &str) -> (r: Option<Usage>)
        ensures
            match r {
                Some(u) => self.rows().contains_key(key@) && u == self.rows()[key@],
                None => !self.rows().contains_key(key@),
            },
    {
        self.rows.get(key)
    }

    /// The number of rows.
    pub fn len(&self) -> (r: usize)
        ensures
            r == self.rows().dom().len(),
    {
        self.rows.len()
    }

    /// Forgets every row and reading (a reset).
    pub fn clear(&mut self)
        ensures
            final(self).rows() == Map::<Seq<char>, Usage>::empty(),
            final(self).previous() == Seq::<(Identity, Reading)>::empty(),
    {
        self.rows = Table::new();
        self.previous = Vec::new();
    }

    fn reading(&self, id: Identity) -> (r: Option<Reading>)
        ensures
            r == reading_for(self.previous(), id),
    {
        let mut i = self.previous.len();
        assert(self.previous@.take(i as int) =~= self.previous@);
        while i > 0
            invariant
                i <= self.previous@.len(),
                reading_for(self.previous@, id) == reading_for(self.previous@.take(i as int), id),
            decreases i,
        {
            let ghost t = self.previous@.take(i as int);
            assert(t.drop_last() =~= self.previous@.take(i - 1));
            assert(t.last() == self.previous@[i - 1]);
            if self.previous[i - 1].0 == id {
                return Some(self.previous[i - 1].1);
            }
            i -= 1;
        }
        assert(self.previous@.take(0) =~= Seq::<(Identity, Reading)>::empty());
        None
    }

    /// Samples the processes of user `me`: each one's executable row gains its usage since
    /// the previous sample (CPU and disk only over a `continuous` interval), a new
    /// executable gets a row while fewer than `ROWS_LIMIT` exist, and other users'
    /// processes are passed over. Every process's readings are kept for the next sample.
    /// For each process: whether it was recorded, and the CPU ticks its row gained.
    pub fn sample(&mut self, processes: &[Sampled], me: u32, continuous: bool) -> (r: Vec<(bool, Option<u64>)>)
        ensures
            final(self).rows() == book_fold(old(self).rows(), old(self).previous(), processes@, me, continuous),
            final(self).previous() == processes@.map_values(|p: Sampled| (p.id, reading_of(p))),
            r@.len() == processes@.len(),
            forall|i: int| 0 <= i < processes@.len() ==> {
                let before = book_fold(old(self).rows(), old(self).previous(), processes@.take(i), me, continuous);
                &&& (#[trigger] r@[i]).0 == kept(before, processes@[i], me)
                &&& r@[i].1 == book_step(before, old(self).previous(), processes@[i], me, continuous).1
            },
    {
        let ghost rows0 = self.rows();
        let ghost prev = self.previous();
        let mut out: Vec<(bool, Option<u64>)> = Vec::new();
        let mut i: usize = 0;
        while i < processes.len()
            invariant
                i <= processes.len(),
                prev == self.previous(),
                self.rows() == book_fold(rows0, prev, processes@.take(i as int), me, continuous),
                out@.len() == i,
                forall|j: int| 0 <= j < i ==> {
                    let before = book_fold(rows0, prev, processes@.take(j), me, continuous);
                    &&& (#[trigger] out@[j]).0 == kept(before, processes@[j], me)
                    &&& out@[j].1 == book_step(before, prev, processes@[j], me, continuous).1
                },
            decreases processes.len() - i,
        {
            let p = &processes[i];
            let ghost before = self.rows();
            assert(processes@.take(i + 1).drop_last() =~= processes@.take(i as int));
            assert(processes@.take(i + 1).last() == processes@[i as int]);
            let current = self.rows.get(p.key.as_str());
            let room = has_room(self.rows.len(), current.is_some());
            if p.uid != me || !room {
                out.push((false, None));
            } else {
                let row = match current {
                    Some(u) => u,
                    None => Usage { read: 0, write: 0, peak_memory: 0 },
                };
                let previous = self.reading(p.id);
                let (usage, ticks) = accumulate(row, previous, p.ticks, p.read, p.write, p.memory, continuous);
                self.rows.insert(p.key.clone(), usage);
                out.push((true, ticks));
            }
            i += 1;
        }
        assert(processes@.take(processes.len() as int) =~= processes@);
        let mut next: Vec<(Identity, Reading)> = Vec::new();
        let mut k: usize = 0;
        while k < processes.len()
            invariant
                k <= processes.len(),
                next@ == processes@.take(k as int).map_values(|p: Sampled| (p.id, reading_of(p))),
            decreases processes.len() - k,
        {
            let p = &processes[k];
            next.push((p.id, Reading { ticks: p.ticks, read: p.read, write: p.write }));
            k += 1;
            assert(next@ =~= processes@.take(k as int).map_values(|p: Sampled| (p.id, reading_of(p))));
        }
        self.previous = next;
        out
    }
}

} // verus!
