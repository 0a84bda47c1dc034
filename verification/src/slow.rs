//! The decisions of the one background collector for slow readings (filesystem capacity):
//! a blocked reader can neither hold up sampling nor cause replacement readers to pile up.
//! The caller owns the reader thread and its channels and reports what happened.
use vstd::prelude::*;

verus! {

/// How often fresh rows are requested (ms).
pub const REFRESH_MS: u64 = 5000;

/// How old rows may be and still be shown (ms).
pub const STALE_MS: u64 = 15000;

/// What the reader's channel held at a poll.
pub enum Received<T> {
    /// A finished reading.
    Rows(Vec<T>),
    /// Nothing yet.
    Empty,
    /// The reader is gone.
    Disconnected,
}

/// The collector's own state: whether a request is outstanding, when rows last arrived
/// (ms), the rows, and whether the reader failed.
pub struct Collector<T> {
    pub pending: bool,
    pub updated: Option<u64>,
    pub rows: Vec<T>,
    pub failed: bool,
}

/// What a poll reports besides the rows.
pub struct Status {
    pub stale: bool,
    pub age_seconds: Option<u64>,
    pub message: String,
}

pub open spec fn age_of(updated: Option<u64>, now: u64) -> Option<u64> {
    match updated {
        Some(t) => Some(if now >= t { (now - t) as u64 } else { 0 }),
        None => None,
    }
}

/// The collector after a poll that found `received` at `now`.
pub open spec fn after_poll<T>(c: Collector<T>, received: Received<T>, now: u64) -> Collector<T> {
    match received {
        Received::Rows(rows) => Collector { pending: false, updated: Some(now), rows: rows, failed: c.failed },
        Received::Empty => c,
        Received::Disconnected => Collector { pending: c.pending, updated: c.updated, rows: c.rows, failed: true },
    }
}

/// Whether a collector in state `c` asks for a new reading at `now`.
pub open spec fn wants_request<T>(c: Collector<T>, now: u64) -> bool {
    !c.failed && !c.pending && match age_of(c.updated, now) {
        None => true,
        Some(a) => a >= REFRESH_MS,
    }
}

/// The collector after a request was (`sent`) or could not be handed to the reader.
pub open spec fn after_request<T>(c: Collector<T>, sent: bool) -> Collector<T> {
    Collector { pending: sent, updated: c.updated, rows: c.rows, failed: c.failed || !sent }
}

/// Whether the rows of `c` are withheld at `now`.
pub open spec fn is_stale<T>(c: Collector<T>, now: u64) -> bool {
    c.failed || match age_of(c.updated, now) {
        None => true,
        Some(a) => a >= STALE_MS,
    }
}

/// The collector after polls at `times` that each found nothing.
pub open spec fn quiet_polls<T>(c: Collector<T>, times: Seq<u64>) -> Collector<T>
    decreases times.len(),
{
    if times.len() == 0 {
        c
    } else {
        after_poll(quiet_polls(c, times.drop_last()), Received::Empty, times.last())
    }
}

/// A blocked reader: however many polls find nothing while a reading is outstanding, the
/// collector stays as it was and never asks for a replacement reading; without rows yet,
/// every one of those polls reports the capacity as unavailable.
pub proof fn lemma_blocked_reader<T>(c: Collector<T>, times: Seq<u64>)
    requires
        c.pending,
    ensures
        quiet_polls(c, times) == c,
        forall|k: int| 0 <= k < times.len() ==> quiet_polls(c, #[trigger] times.take(k + 1)) == c,
        forall|k: int| 0 <= k < times.len() ==> !wants_request(quiet_polls(c, times.take(k + 1)), #[trigger] times[k]),
        c.updated is None ==> forall|k: int| 0 <= k < times.len() ==> is_stale(
            quiet_polls(c, times.take(k + 1)),
            #[trigger] times[k],
        ),
    decreases times.len(),
{
    if times.len() > 0 {
        lemma_blocked_reader(c, times.drop_last());
    }
    assert forall|k: int| 0 <= k < times.len() implies quiet_polls(c, #[trigger] times.take(k + 1)) == c by {
        lemma_quiet_polls_keep(c, times.take(k + 1));
    }
}

proof fn lemma_quiet_polls_keep<T>(c: Collector<T>, times: Seq<u64>)
    ensures
        quiet_polls(c, times) == c,
    decreases times.len(),
{
    if times.len() > 0 {
        lemma_quiet_polls_keep(c, times.drop_last());
    }
}

/// Rows that arrive are shown at once; the next refresh is asked for only once they are
/// five seconds old, and then only while none is outstanding; once they are fifteen
/// seconds old they are withheld, also while that refresh is stuck.
pub proof fn lemma_rows_arrive_and_age<T>(c: Collector<T>, rows: Vec<T>, now: u64, later: u64, sent: bool)
    requires
        !c.failed,
        now <= later,
    ensures
        after_poll(c, Received::Rows(rows), now).rows == rows,
        !is_stale(after_poll(c, Received::Rows(rows), now), now),
        wants_request(after_poll(c, Received::Rows(rows), now), later) == (later - now >= REFRESH_MS),
        !wants_request(after_request(after_poll(c, Received::Rows(rows), now), sent), later) || !sent,
        later - now >= STALE_MS ==> is_stale(after_request(after_poll(c, Received::Rows(rows), now), sent), later),
        later - now < STALE_MS && sent ==> !is_stale(after_request(after_poll(c, Received::Rows(rows), now), sent), later),
{
}

impl<T> Collector<T> {
    /// A collector whose reader could (`started`) or could not be started.
    pub fn new(started: bool) -> (r: Collector<T>)
        ensures
            !r.pending,
            r.updated is None,
            r.rows@.len() == 0,
            r.failed == !started,
    {
        Collector { pending: false, updated: None, rows: Vec::new(), failed: !started }
    }

    /// Takes what the channel held at `now` (ms); returns whether a new reading must be
    /// requested: none is outstanding, the reader has not failed, and there are no rows or
    /// they are at least five seconds old.
    pub fn poll(&mut self, received: Received<T>, now: u64) -> (request: bool)
        ensures
            match received {
                Received::Rows(rows) => final(self).rows == rows && final(self).updated == Some(now)
                    && final(self).failed == old(self).failed,
                Received::Empty => final(self).rows == old(self).rows && final(self).updated == old(
                    self,
                ).updated && final(self).failed == old(self).failed,
                Received::Disconnected => final(self).rows == old(self).rows && final(self).updated
                    == old(self).updated && final(self).failed,
            },
            final(self).pending == match received {
                Received::Rows(_) => false,
                _ => old(self).pending,
            },
            request == (!final(self).failed && !final(self).pending && match age_of(final(self).updated, now) {
                None => true,
                Some(a) => a >= REFRESH_MS,
            }),
            *final(self) == after_poll(*old(self), received, now),
            request == wants_request(*final(self), now),
    {
        match received {
            Received::Rows(rows) => {
                self.rows = rows;
                self.updated = Some(now);
                self.pending = false;
            },
            Received::Disconnected => {
                self.failed = true;
            },
            Received::Empty => {},
        }
        let age = match self.updated {
            Some(t) => Some(now.saturating_sub(t)),
            None => None,
        };
        !self.failed && !self.pending && match age {
            None => true,
            Some(a) => a >= REFRESH_MS,
        }
    }

    /// Records whether the request was handed to the reader; a request that could not be
    /// sent means the reader is gone.
    pub fn requested(&mut self, sent: bool)
        ensures
            final(self).pending == sent,
            final(self).failed == (old(self).failed || !sent),
            final(self).rows == old(self).rows,
            final(self).updated == old(self).updated,
            *final(self) == after_request(*old(self), sent),
    {
        self.pending = sent;
        if !sent {
            self.failed = true;
        }
    }

    /// Whether the rows may be shown at `now`, their age, and the message to show.
    pub fn status(&self, now: u64) -> (r: Status)
        ensures
            r.stale == (self.failed || match age_of(self.updated, now) {
                None => true,
                Some(a) => a >= STALE_MS,
            }),
            r.age_seconds == match age_of(self.updated, now) {
                None => None,
                Some(a) => Some(a / 1000),
            },
            self.failed ==> r.message@ == "Filesystem capacity unavailable: collector stopped."@,
            !self.failed && r.stale ==> r.message@
                == "Filesystem capacity pending or unavailable; other metrics remain live."@,
            !r.stale ==> r.message@ == "Filesystem capacity refreshes every 5 seconds."@,
            r.stale == is_stale(*self, now),
    {
        let age = match self.updated {
            Some(t) => Some(now.saturating_sub(t)),
            None => None,
        };
        let stale = self.failed || match age {
            None => true,
            Some(a) => a >= STALE_MS,
        };
        let message = if self.failed {
            "Filesystem capacity unavailable: collector stopped.".to_owned()
        } else if stale {
            "Filesystem capacity pending or unavailable; other metrics remain live.".to_owned()
        } else {
            "Filesystem capacity refreshes every 5 seconds.".to_owned()
        };
        Status {
            stale,
            age_seconds: match age {
                Some(a) => Some(a / 1000),
                None => None,
            },
            message,
        }
    }
}

} // verus!
