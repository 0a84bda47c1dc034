//! The worker's line protocol: which requests exist, how large a request line and a
//! response frame may be, and a response buffer that refuses to grow past its bound so a
//! rejected payload never corrupts the framing.
use vstd::prelude::*;

verus! {

/// The largest response frame, in bytes (16 MiB, below the GUI's 32 MiB framing cap).
pub const RESPONSE_LIMIT: usize = 16777216;

/// The largest request line, in bytes (1 MiB).
pub const REQUEST_LIMIT: u64 = 1048576;

/// The most processes one signal request may name.
pub const TARGETS_LIMIT: usize = 4096;

/// The operations a request may ask for.
#[derive(Debug, Clone, Copy, PartialEq, Eq, Structural)]
pub enum Op {
    Sample,
    Manage,
    Inspect,
    Signal,
    Window,
    Float,
    Quit,
    Unknown,
}

pub open spec fn op_of(s: Seq<char>) -> Op {
    if s == "sample"@ {
        Op::Sample
    } else if s == "manage"@ {
        Op::Manage
    } else if s == "inspect"@ {
        Op::Inspect
    } else if s == "signal"@ {
        Op::Signal
    } else if s == "window"@ {
        Op::Window
    } else if s == "float"@ {
        Op::Float
    } else if s == "quit"@ {
        Op::Quit
    } else {
        Op::Unknown
    }
}

/// The operation a request's `op` field names.
pub fn op(name: &str) -> (r: Op)
    ensures
        r == op_of(name@),
{
    let c = crate::text::chars_of(name);
    if crate::text::eq_lit(&c, "sample") {
        Op::Sample
    } else if crate::text::eq_lit(&c, "manage") {
        Op::Manage
    } else if crate::text::eq_lit(&c, "inspect") {
        Op::Inspect
    } else if crate::text::eq_lit(&c, "signal") {
        Op::Signal
    } else if crate::text::eq_lit(&c, "window") {
        Op::Window
    } else if crate::text::eq_lit(&c, "float") {
        Op::Float
    } else if crate::text::eq_lit(&c, "quit") {
        Op::Quit
    } else {
        Op::Unknown
    }
}

/// Whether a request line of `read` bytes (read with a bound one past the limit) is
/// refused as too long.
pub fn request_too_long(read: u64) -> (r: bool)
    ensures
        r == (read > REQUEST_LIMIT),
{
    read > REQUEST_LIMIT
}

/// Whether a signal request names an acceptable number of targets.
pub fn targets_acceptable(count: usize) -> (r: bool)
    ensures
        r == (0 < count <= TARGETS_LIMIT),
{
    count > 0 && count <= TARGETS_LIMIT
}

/// A response being serialised: it holds at most `limit` bytes.
pub struct Bounded {
    pub bytes: Vec<u8>,
    pub limit: usize,
}

impl Bounded {
    pub fn new(limit: usize) -> (r: Bounded)
        ensures
            r.bytes@ == Seq::<u8>::empty(),
            r.limit == limit,
    {
        Bounded { bytes: Vec::new(), limit }
    }

    /// Appends `chunk` when the frame stays within the bound; otherwise refuses it and
    /// keeps what it held.
    pub fn accept(&mut self, chunk: &[u8]) -> (r: bool)
        ensures
            final(self).limit == old(self).limit,
            r == (old(self).bytes@.len() + chunk@.len() <= old(self).limit),
            r ==> final(self).bytes@ == old(self).bytes@ + chunk@,
            !r ==> final(self).bytes@ == old(self).bytes@,
    {
        if chunk.len() > self.limit || self.bytes.len() > self.limit - chunk.len() {
            return false;
        }
        let mut i: usize = 0;
        while i < chunk.len()
            invariant
                i <= chunk.len(),
                self.limit == old(self).limit,
                self.bytes@ == old(self).bytes@ + chunk@.take(i as int),
            decreases chunk.len() - i,
        {
            self.bytes.push(chunk[i]);
            i += 1;
            assert(self.bytes@ =~= old(self).bytes@ + chunk@.take(i as int));
        }
        assert(chunk@.take(chunk.len() as int) =~= chunk@);
        true
    }
}


/// The management actions a request may name by its category and verb.
#[derive(Debug, Clone, Copy, PartialEq, Eq, Structural)]
pub enum Action {
    Restart,
    Service,
    Startup,
    Session,
    ResetHistory,
    Dump,
    Suspend,
    Resume,
    Nice,
    Affinity,
    /// A process action with an unknown verb.
    UnknownProcess,
    Unknown,
}

pub open spec fn process_action_of(verb: Seq<char>) -> Action {
    if verb == "dump"@ {
        Action::Dump
    } else if verb == "suspend"@ {
        Action::Suspend
    } else if verb == "resume"@ {
        Action::Resume
    } else if verb == "nice"@ {
        Action::Nice
    } else if verb == "affinity"@ {
        Action::Affinity
    } else {
        Action::UnknownProcess
    }
}

pub open spec fn action_of(category: Seq<char>, verb: Seq<char>) -> Action {
    if category == "restart"@ {
        Action::Restart
    } else if category == "service"@ {
        Action::Service
    } else if category == "startup"@ {
        Action::Startup
    } else if category == "session"@ {
        Action::Session
    } else if category == "history"@ && verb == "reset"@ {
        Action::ResetHistory
    } else if category == "process"@ {
        process_action_of(verb)
    } else {
        Action::Unknown
    }
}

/// The action a management request names by its `category` and `verb`.
pub fn action(category: &str, verb: &str) -> (r: Action)
    ensures
        r == action_of(category@, verb@),
{
    let c = crate::text::chars_of(category);
    let v = crate::text::chars_of(verb);
    if crate::text::eq_lit(&c, "restart") {
        Action::Restart
    } else if crate::text::eq_lit(&c, "service") {
        Action::Service
    } else if crate::text::eq_lit(&c, "startup") {
        Action::Startup
    } else if crate::text::eq_lit(&c, "session") {
        Action::Session
    } else if crate::text::eq_lit(&c, "history") && crate::text::eq_lit(&v, "reset") {
        Action::ResetHistory
    } else if crate::text::eq_lit(&c, "process") {
        if crate::text::eq_lit(&v, "dump") {
            Action::Dump
        } else if crate::text::eq_lit(&v, "suspend") {
            Action::Suspend
        } else if crate::text::eq_lit(&v, "resume") {
            Action::Resume
        } else if crate::text::eq_lit(&v, "nice") {
            Action::Nice
        } else if crate::text::eq_lit(&v, "affinity") {
            Action::Affinity
        } else {
            Action::UnknownProcess
        }
    } else {
        Action::Unknown
    }
}

/// Whether an action acts on one process, named by the request's identity.
pub open spec fn on_process(a: Action) -> bool {
    a == Action::Dump || a == Action::Suspend || a == Action::Resume || a == Action::Nice || a
        == Action::Affinity || a == Action::UnknownProcess
}

/// Whether the action needs a process identity, read before the verb is acted on.
pub fn needs_process(a: Action) -> (r: bool)
    ensures
        r == on_process(a),
{
    match a {
        Action::Dump | Action::Suspend | Action::Resume | Action::Nice | Action::Affinity
        | Action::UnknownProcess => true,
        _ => false,
    }
}

/// The error of an action no request may name.
pub fn unknown_action(a: Action) -> (r: String)
    requires
        a == Action::Unknown || a == Action::UnknownProcess,
    ensures
        r@ == if a == Action::UnknownProcess {
            "Unknown process action"@
        } else {
            "Unknown management action"@
        },
{
    if a == Action::UnknownProcess {
        "Unknown process action".to_owned()
    } else {
        "Unknown management action".to_owned()
    }
}

/// Whether the reply carries a service's journal (an inspection) rather than an action
/// result.
pub fn logs_reply(category: &str, verb: &str) -> (r: bool)
    ensures
        r == (category@ == "service"@ && verb@ == "logs"@),
{
    let c = crate::text::chars_of(category);
    let v = crate::text::chars_of(verb);
    crate::text::eq_lit(&c, "service") && crate::text::eq_lit(&v, "logs")
}

} // verus!
