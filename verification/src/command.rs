//! Running a helper program with a deadline and bounded output, as decisions taken on the
//! events of the run: output arriving on either pipe, the child exiting, time passing and
//! cancellation. The caller spawns the child, reads its pipes without blocking and reports
//! each event here; the bounds apply while reading, not after collecting everything.
use vstd::prelude::*;
use crate::manage::{args_view, strings};
use crate::process::{lossy_string, utf8_lossy};
use crate::text::{chars_of, push_range, string_of, trim, trim_bounds};

verus! {

/// The most standard output a command may produce (8 MiB).
pub const OUTPUT_LIMIT: usize = 8388608;

/// The most standard error kept of a failing command (64 KiB).
pub const ERROR_LIMIT: usize = 65536;

/// The deadline of `run`, in milliseconds.
pub const DEFAULT_DEADLINE_MS: u64 = 4000;

/// One of the two pipes read from the child.
pub enum Stream {
    Stdout,
    Stderr,
}

/// A command to run and what it has written so far.
pub struct Capture {
    pub program: String,
    pub args: Vec<String>,
    pub deadline_ms: u64,
    pub limit: usize,
    /// Everything read from standard output so far.
    pub out: Vec<u8>,
    /// Everything read from standard error so far.
    pub err: Vec<u8>,
}

pub open spec fn min_usize(a: usize, b: usize) -> usize {
    if a < b {
        a
    } else {
        b
    }
}

/// The text of `program` followed by `suffix`.
fn suffixed(program: &String, suffix: &str) -> (r: String)
    ensures
        r@ == program@ + suffix@,
{
    let mut v: Vec<char> = chars_of(program.as_str());
    let t = chars_of(suffix);
    assert(t@.subrange(0, t@.len() as int) =~= t@);
    push_range(&mut v, &t, 0, t.len());
    string_of(v.as_slice())
}

/// The text of `program` followed by `middle`, `tail` and `end`.
fn message(program: &String, middle: &str, tail: &str, end: &str) -> (r: String)
    ensures
        r@ == program@ + middle@ + tail@ + end@,
{
    let mut v: Vec<char> = chars_of(program.as_str());
    let m = chars_of(middle);
    let t = chars_of(tail);
    let e = chars_of(end);
    assert(m@.subrange(0, m@.len() as int) =~= m@);
    assert(t@.subrange(0, t@.len() as int) =~= t@);
    assert(e@.subrange(0, e@.len() as int) =~= e@);
    push_range(&mut v, &m, 0, m.len());
    push_range(&mut v, &t, 0, t.len());
    push_range(&mut v, &e, 0, e.len());
    string_of(v.as_slice())
}

impl Capture {
    /// How much a stream may hold: the whole limit for standard output, at most 64 KiB
    /// of standard error.
    pub open spec fn bound(&self, stream: Stream) -> usize {
        match stream {
            Stream::Stdout => self.limit,
            Stream::Stderr => min_usize(self.limit, ERROR_LIMIT),
        }
    }

    pub open spec fn held(&self, stream: Stream) -> Seq<u8> {
        match stream {
            Stream::Stdout => self.out@,
            Stream::Stderr => self.err@,
        }
    }

    /// A run of `program` with `args`, stopped after `deadline_ms` and refused once either
    /// stream exceeds its bound under `limit`.
    pub fn capture(program: &str, args: &[&str], deadline_ms: u64, limit: usize) -> (r: Capture)
        ensures
            r.program@ == program@,
            args_view(r.args@) == args@.map_values(|a: &str| a@),
            r.deadline_ms == deadline_ms,
            r.limit == limit,
            r.out@ == Seq::<u8>::empty(),
            r.err@ == Seq::<u8>::empty(),
    {
        Capture {
            program: program.to_owned(),
            args: strings(args),
            deadline_ms,
            limit,
            out: Vec::new(),
            err: Vec::new(),
        }
    }

    /// Refuses to start, or to go on, once cancellation was requested.
    pub fn proceed(&self, cancelled: bool) -> (r: Result<(), String>)
        ensures
            match r {
                Ok(()) => !cancelled,
                Err(e) => cancelled && e@ == "Command cancelled"@,
            },
    {
        if cancelled {
            Err("Command cancelled".to_owned())
        } else {
            Ok(())
        }
    }

    /// The error of a child that could not be started: the program, a colon, the reason.
    pub fn spawn_failed(&self, reason: &str) -> (r: String)
        ensures
            r@ == self.program@ + ": "@ + reason@,
    {
        let r = message(&self.program, ": ", reason, "");
        proof {
            reveal_strlit("");
        }
        assert(r@ =~= self.program@ + ": "@ + reason@);
        r
    }

    /// Takes a chunk read from `stream`; refuses it, keeping what was held, when the
    /// stream would exceed its bound.
    pub fn receive(&mut self, stream: Stream, chunk: &[u8]) -> (r: Result<(), String>)
        ensures
            final(self).program == old(self).program,
            final(self).args == old(self).args,
            final(self).deadline_ms == old(self).deadline_ms,
            final(self).limit == old(self).limit,
            match r {
                Ok(()) => old(self).held(stream).len() + chunk@.len() <= old(self).bound(stream)
                    && final(self).held(stream) == old(self).held(stream) + chunk@,
                Err(e) => old(self).held(stream).len() + chunk@.len() > old(self).bound(stream)
                    && e@ == "Command response exceeded limit"@
                    && final(self).held(stream) == old(self).held(stream),
            },
            match stream {
                Stream::Stdout => final(self).err@ == old(self).err@,
                Stream::Stderr => final(self).out@ == old(self).out@,
            },
    {
        let bound = match stream {
            Stream::Stdout => self.limit,
            Stream::Stderr => if self.limit < ERROR_LIMIT {
                self.limit
            } else {
                ERROR_LIMIT
            },
        };
        let held = match stream {
            Stream::Stdout => self.out.len(),
            Stream::Stderr => self.err.len(),
        };
        if chunk.len() > bound || held > bound - chunk.len() {
            return Err("Command response exceeded limit".to_owned());
        }
        let mut i: usize = 0;
        match stream {
            Stream::Stdout => {
                while i < chunk.len()
                    invariant
                        i <= chunk.len(),
                        self.out@ == old(self).out@ + chunk@.take(i as int),
                        self.err@ == old(self).err@,
                        self.program == old(self).program,
                        self.args == old(self).args,
                        self.deadline_ms == old(self).deadline_ms,
                        self.limit == old(self).limit,
                    decreases chunk.len() - i,
                {
                    self.out.push(chunk[i]);
                    i += 1;
                    assert(self.out@ =~= old(self).out@ + chunk@.take(i as int));
                }
            },
            Stream::Stderr => {
                while i < chunk.len()
                    invariant
                        i <= chunk.len(),
                        self.err@ == old(self).err@ + chunk@.take(i as int),
                        self.out@ == old(self).out@,
                        self.program == old(self).program,
                        self.args == old(self).args,
                        self.deadline_ms == old(self).deadline_ms,
                        self.limit == old(self).limit,
                    decreases chunk.len() - i,
                {
                    self.err.push(chunk[i]);
                    i += 1;
                    assert(self.err@ =~= old(self).err@ + chunk@.take(i as int));
                }
            },
        }
        assert(chunk@.take(chunk.len() as int) =~= chunk@);
        Ok(())
    }

    /// The outcome once the child has exited and both pipes are drained: its decoded
    /// output on success; else its trimmed standard error or, where that is empty,
    /// "<program> failed (<status>)".
    pub fn exited(&self, success: bool, status: &str) -> (r: Result<String, String>)
        ensures
            match r {
                Ok(s) => success && s@ == utf8_lossy(self.out@),
                Err(e) => !success && if trim(utf8_lossy(self.err@)).len() > 0 {
                    e@ == trim(utf8_lossy(self.err@))
                } else {
                    e@ == self.program@ + " failed ("@ + status@ + ")"@
                },
            },
            success && (forall|i: int| 0 <= i < self.out@.len() ==> self.out@[i] < 128) ==> (r matches Ok(s)
                && s@ == self.out@.map_values(|b: u8| b as char)),
            !success && self.err@.len() == 0 ==> (r matches Err(e) && e@ == self.program@ + " failed ("@
                + status@ + ")"@),
    {
        if success {
            return Ok(lossy_string(self.out.as_slice()));
        }
        let text = lossy_string(self.err.as_slice());
        let c = chars_of(text.as_str());
        let (a, b) = trim_bounds(&c, 0, c.len());
        assert(c@.subrange(0, c@.len() as int) =~= c@);
        if a == b {
            return Err(message(&self.program, " failed (", status, ")"));
        }
        let mut v: Vec<char> = Vec::new();
        push_range(&mut v, &c, a, b);
        assert(v@ =~= trim(utf8_lossy(self.err@)));
        Err(string_of(v.as_slice()))
    }

    /// Gives up once `elapsed_ms` reaches the deadline.
    pub fn in_time(&self, elapsed_ms: u64) -> (r: Result<(), String>)
        ensures
            match r {
                Ok(()) => elapsed_ms < self.deadline_ms,
                Err(e) => elapsed_ms >= self.deadline_ms && e@ == self.program@ + " timed out"@,
            },
    {
        if elapsed_ms >= self.deadline_ms {
            Err(suffixed(&self.program, " timed out"))
        } else {
            Ok(())
        }
    }
}

/// Whether the child's process group must be killed and reaped: the run failed while the
/// child is still running. A successful or already reaped child is never signalled.
pub fn must_stop(failed: bool, running: bool) -> (r: bool)
    ensures
        r == (failed && running),
{
    failed && running
}

/// A run with the default deadline (4 s) and output limit (8 MiB).
pub fn run(program: &str, args: &[&str]) -> (r: Capture)
    ensures
        r.program@ == program@,
        args_view(r.args@) == args@.map_values(|a: &str| a@),
        r.deadline_ms == DEFAULT_DEADLINE_MS,
        r.limit == OUTPUT_LIMIT,
        r.out@ == Seq::<u8>::empty(),
        r.err@ == Seq::<u8>::empty(),
{
    run_for(program, args, DEFAULT_DEADLINE_MS)
}

/// A run with the given deadline (ms) and the default output limit (8 MiB).
pub fn run_for(program: &str, args: &[&str], deadline_ms: u64) -> (r: Capture)
    ensures
        r.program@ == program@,
        args_view(r.args@) == args@.map_values(|a: &str| a@),
        r.deadline_ms == deadline_ms,
        r.limit == OUTPUT_LIMIT,
        r.out@ == Seq::<u8>::empty(),
        r.err@ == Seq::<u8>::empty(),
{
    Capture::capture(program, args, deadline_ms, OUTPUT_LIMIT)
}

} // verus!
