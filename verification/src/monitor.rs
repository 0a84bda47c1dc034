//! The rules of the background collector's history file: which points it keeps, and when
//! a history read back from it may be shown.
use vstd::prelude::*;

verus! {

/// Points kept in the background history.
pub const POINTS: usize = 61;

/// The span of the background history, in ms.
pub const SPAN_MS: u64 = 60000;

/// How old the last update of a history may be when it is read back, in ms.
pub const FRESH_MS: u64 = 3000;

/// The largest history file, in bytes (2 MiB).
pub const FILE_LIMIT: u64 = 2097152;

/// What a history file holds that its validity depends on: its version, its last update
/// and the time of each point (`None` where a field is missing or not an unsigned number).
pub struct Snapshot {
    pub version: Option<i64>,
    pub updated: Option<u64>,
    pub points: Option<Vec<Option<u64>>>,
}

pub open spec fn is_time(p: Option<u64>) -> bool {
    p is Some
}

/// A history read back at `now` (ms, boot clock) may be shown when it is version 1,
/// updated within the last three seconds and not in the future, holds one to 61 points,
/// every point at most a minute older than the update, in strictly increasing time, the
/// last one at the update itself.
pub open spec fn valid_history(version: Option<i64>, updated: Option<u64>, points: Option<Seq<Option<u64>>>, now: u64) -> bool {
    match (updated, points) {
        (Some(u), Some(ps)) => {
            &&& version == Some(1i64)
            &&& u <= now
            &&& now - u <= FRESH_MS
            &&& 0 < ps.len() <= POINTS
            &&& forall|i: int| 0 <= i < ps.len() ==> #[trigger] is_time(ps[i])
            &&& forall|i: int| 0 <= i < ps.len() ==> ps[i]->0 <= u && u - ps[i]->0 <= SPAN_MS
            &&& forall|i: int, j: int| 0 <= i < j < ps.len() ==> ps[i]->0 < ps[j]->0
            &&& ps.last() == Some(u)
        },
        _ => false,
    }
}

/// Whether a history file read back at `now` may be shown.
pub fn validate(snapshot: &Snapshot, now: u64) -> (r: bool)
    ensures
        r == valid_history(
            snapshot.version,
            snapshot.updated,
            match &snapshot.points {
                Some(v) => Some(v@),
                None => None,
            },
            now,
        ),
{
    let updated = match snapshot.updated {
        Some(u) => u,
        None => return false,
    };
    let points = match &snapshot.points {
        Some(p) => p,
        None => return false,
    };
    if snapshot.version != Some(1i64) || updated > now || now - updated > FRESH_MS || points.len() == 0
        || points.len() > POINTS {
        return false;
    }
    let mut previous: Option<u64> = None;
    let mut i: usize = 0;
    while i < points.len()
        invariant
            i <= points.len(),
            updated <= now,
            now - updated <= FRESH_MS,
            0 < points.len() <= POINTS,
            snapshot.updated == Some(updated),
            snapshot.version == Some(1i64),
            match &snapshot.points {
                Some(v) => v@ == points@,
                None => false,
            },
            forall|k: int| 0 <= k < i ==> #[trigger] is_time(points@[k]),
            forall|k: int| 0 <= k < i ==> points@[k]->0 <= updated && updated - points@[k]->0 <= SPAN_MS,
            forall|k: int, l: int| 0 <= k < l < i ==> points@[k]->0 < points@[l]->0,
            previous == if i == 0 { None } else { points@[i - 1] },
        decreases points.len() - i,
    {
        let time = match points[i] {
            Some(t) => t,
            None => {
                assert(!is_time(points@[i as int]));
                return false;
            },
        };
        if time > updated || updated - time > SPAN_MS {
            return false;
        }
        assert(i > 0 ==> is_time(points@[i - 1]));
        match previous {
            Some(p) => if time <= p {
                assert(points@[i - 1]->0 >= points@[i as int]->0);
                return false;
            },
            None => {},
        }
        assert(is_time(points@[i as int]));
        assert(points@[i as int]->0 == time);
        assert(i > 0 ==> points@[i - 1]->0 < time);
        assert forall|k: int, l: int| 0 <= k < l < i + 1 implies points@[k]->0 < points@[l]->0 by {
            if l == i && k < i - 1 {
                assert(points@[k]->0 < points@[i - 1]->0);
            }
        }
        previous = Some(time);
        i += 1;
    }
    previous == Some(updated)
}

/// The index of the first point the collector keeps, given the points' times in order:
/// older points are dropped while more than 61 remain or the oldest is more than a
/// minute before `now`.
pub open spec fn first_kept(times: Seq<u64>, now: u64, k: int) -> int
    decreases times.len() - k,
{
    if k >= times.len() {
        times.len() as int
    } else if times.len() - k > POINTS as int || (if now >= times[k] { now - times[k] } else { 0 }) > SPAN_MS {
        first_kept(times, now, k + 1)
    } else {
        k
    }
}

/// How many of the oldest points to drop after a sample at `now` (ms).
pub fn expired(times: &[u64], now: u64) -> (r: usize)
    ensures
        r == first_kept(times@, now, 0),
{
    let mut k: usize = 0;
    while k < times.len() && (times.len() - k > POINTS || now.saturating_sub(times[k]) > SPAN_MS)
        invariant
            k <= times.len(),
            first_kept(times@, now, 0) == first_kept(times@, now, k as int),
        decreases times.len() - k,
    {
        k += 1;
    }
    k
}

proof fn lemma_first_kept(times: Seq<u64>, now: u64, k: int)
    requires
        0 <= k <= times.len(),
    ensures
        k <= first_kept(times, now, k) <= times.len(),
        first_kept(times, now, k) < times.len() ==> times.len() - first_kept(times, now, k) <= POINTS
            && (if now >= times[first_kept(times, now, k)] { now - times[first_kept(times, now, k)] } else { 0 }) <= SPAN_MS,
        forall|j: int| k <= j < first_kept(times, now, k) ==> times.len() - j > POINTS || (if now >= times[j] { now - times[j] } else { 0 }) > SPAN_MS,
    decreases times.len() - k,
{
    if k < times.len() {
        if times.len() - k > POINTS as int || (if now >= times[k] { now - times[k] } else { 0 }) > SPAN_MS {
            lemma_first_kept(times, now, k + 1);
        }
    }
}

/// A history the collector writes reads back as valid for three seconds: when the times
/// of its points strictly increase and the newest is the update time, the points kept
/// after trimming form a valid history at any moment up to three seconds later.
pub proof fn lemma_written_history_is_valid(times: Seq<u64>, now: u64, later: u64)
    requires
        times.len() > 0,
        times.last() == now,
        forall|i: int, j: int| 0 <= i < j < times.len() ==> times[i] < times[j],
        now <= later,
        later - now <= FRESH_MS,
    ensures
        valid_history(
            Some(1i64),
            Some(now),
            Some(times.skip(first_kept(times, now, 0)).map_values(|t: u64| Some(t))),
            later,
        ),
{
    lemma_first_kept(times, now, 0);
    let k = first_kept(times, now, 0);
    let n = times.len();
    if k == n {
        assert(n - (n - 1) <= POINTS);
        assert(!(n - (n - 1) > POINTS as int || (if now >= times[n - 1] { now - times[n - 1] } else { 0 }) > SPAN_MS));
        assert(false);
    }
    let ps = times.skip(k).map_values(|t: u64| Some(t));
    assert forall|i: int| 0 <= i < ps.len() implies #[trigger] is_time(ps[i]) by {}
    assert forall|i: int| 0 <= i < ps.len() implies ps[i]->0 <= now && now - ps[i]->0 <= SPAN_MS by {
        assert(ps[i]->0 == times[k + i]);
        if k + i < n - 1 {
            assert(times[k + i] < times[n - 1]);
        }
        if i > 0 {
            assert(times[k] < times[k + i]);
        }
    }
    assert forall|i: int, j: int| 0 <= i < j < ps.len() implies ps[i]->0 < ps[j]->0 by {
        assert(ps[i]->0 == times[k + i] && ps[j]->0 == times[k + j]);
    }
    assert(ps.last() == Some(times[n - 1]));
}

/// Whether the collector's runtime directory may be used: a directory owned by this user
/// (`me`) that no one else can read, write or enter.
pub fn private_directory(is_dir: bool, owner: u32, me: u32, mode: u32) -> (r: bool)
    ensures
        r == (is_dir && owner == me && mode & 0o077u32 == 0),
{
    is_dir && owner == me && mode & 0o077u32 == 0
}

} // verus!
