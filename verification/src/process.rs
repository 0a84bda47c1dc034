//! Process records, `/proc/<pid>/stat` parsing, desktop/session protection and the
//! ownership rules that every process action checks.
use std::collections::{HashMap, HashSet};
use vstd::prelude::*;
use crate::text::{
    ascii_lower, chars_of, copy_range, eq_lit, find_char, find_prefixed, first_prefixed, index_of,
    last_index_of, lines, lowered, parse_i32, parse_i32_str, parse_i64, parse_i64_str, parse_u32,
    parse_u32_str, parse_u64, parse_u64_range, parse_u64_str, rfind_char, split_lines, split_words, string_of, trim,
    trim_bounds, views, words,
};

verus! {

broadcast use vstd::std_specs::hash::group_hash_axioms;

/// A process as the kernel identifies it over time: its PID and its start time in ticks.
#[derive(Debug, Clone, Copy, PartialEq, Eq, Hash, Structural)]
pub struct Identity {
    pub pid: i32,
    pub start: u64,
}

/// One process as read from procfs.
#[derive(Debug, Clone)]
pub struct Process {
    pub id: Identity,
    pub ppid: i32,
    pub name: String,
    pub command: String,
    pub uid: u32,
    pub user: String,
    pub state: String,
    pub ticks: u64,
    pub memory: u64,
    pub read: Option<u64>,
    pub write: Option<u64>,
    pub protected: bool,
    pub nice: i32,
    pub threads: u64,
    pub virtual_memory: u64,
    pub gpu_memory: Option<u64>,
}

/// Why a `/proc/<pid>/stat` line was rejected.
#[derive(Debug, Clone, Copy, PartialEq, Eq, Structural)]
pub enum StatError {
    MissingName,
    MissingNameEnd,
    ShortStat,
}

impl StatError {
    pub fn message(&self) -> (r: &'static str)
        ensures
            r@ == match self {
                StatError::MissingName => "missing name"@,
                StatError::MissingNameEnd => "missing name end"@,
                StatError::ShortStat => "short process stat"@,
            },
    {
        match self {
            StatError::MissingName => "missing name",
            StatError::MissingNameEnd => "missing name end",
            StatError::ShortStat => "short process stat",
        }
    }
}

/// A stat line: the command name lies between the first `(` and the last `)`, so it may
/// itself hold parentheses; at least 22 white-space separated fields follow it.
pub open spec fn stat_fields(s: Seq<char>) -> Result<(Seq<char>, Seq<Seq<char>>), StatError> {
    let a = index_of(s, '(');
    let b = last_index_of(s, ')');
    if a >= s.len() {
        Err(StatError::MissingName)
    } else if b <= a {
        Err(StatError::MissingNameEnd)
    } else if words(s.skip(b + 1)).len() < 22 {
        Err(StatError::ShortStat)
    } else {
        Ok((s.subrange(a + 1, b), words(s.skip(b + 1))))
    }
}

/// Splits a stat line into the command name and the fields after it.
pub fn parse_stat(s: &str) -> (r: Result<(String, Vec<String>), StatError>)
    ensures
        match (r, stat_fields(s@)) {
            (Ok((name, fields)), Ok((n, f))) => name@ == n && fields@.len() == f.len() && forall|
                i: int,
            | 0 <= i < f.len() ==> #[trigger] fields@[i]@ == f[i],
            (Err(e), Err(e2)) => e == e2,
            _ => false,
        },
{
    let c = chars_of(s);
    let n = c.len();
    let a = find_char(&c, 0, n, '(');
    assert(c@.subrange(0, n as int) =~= c@);
    if a == n {
        return Err(StatError::MissingName);
    }
    let b = match rfind_char(&c, 0, n, ')') {
        Some(b) if b > a => b,
        _ => {
            return Err(StatError::MissingNameEnd);
        },
    };
    let ws = split_words(&c, b + 1, n);
    assert(c@.skip(b + 1) =~= c@.subrange(b + 1, n as int));
    if ws.len() < 22 {
        return Err(StatError::ShortStat);
    }
    let name = copy_range(&c, a + 1, b);
    let mut fields: Vec<String> = Vec::new();
    let mut i: usize = 0;
    while i < ws.len()
        invariant
            i <= ws.len(),
            fields@.len() == i,
            forall|j: int| 0 <= j < i ==> #[trigger] fields@[j]@ == ws@[j]@,
        decreases ws.len() - i,
    {
        fields.push(string_of(ws[i].as_slice()));
        i += 1;
    }
    assert forall|j: int| 0 <= j < ws@.len() implies #[trigger] fields@[j]@ == views(ws@)[j] by {}
    Ok((string_of(name.as_slice()), fields))
}

/// Executables that the desktop session or this monitor cannot do without.
pub open spec fn critical_name(n: Seq<char>) -> bool {
    ||| n == "hyprland"@
    ||| n == "quickshell"@
    ||| n == "qs"@
    ||| n == "systemd"@
    ||| n == "dbus-daemon"@
    ||| n == "dbus-broker"@
    ||| n == "dbus-broker-launch"@
    ||| n == "omarchy-task-manager"@
    ||| n == "omarchy-task-manager-core"@
}

/// PID 1 and below, and the session's critical executables (by lower-cased name).
pub open spec fn is_critical(p: Process) -> bool {
    p.id.pid <= 1 || critical_name(ascii_lower(p.name@))
}

/// Whether `p` is a process that actions must never target by itself.
pub fn critical(p: &Process) -> (r: bool)
    ensures
        r == is_critical(*p),
{
    if p.id.pid <= 1 {
        return true;
    }
    let c = chars_of(p.name.as_str());
    let l = lowered(&c, 0, c.len());
    assert(c@.subrange(0, c@.len() as int) =~= c@);
    eq_lit(&l, "hyprland") || eq_lit(&l, "quickshell") || eq_lit(&l, "qs") || eq_lit(
        &l,
        "systemd",
    ) || eq_lit(&l, "dbus-daemon") || eq_lit(&l, "dbus-broker") || eq_lit(
        &l,
        "dbus-broker-launch",
    ) || eq_lit(&l, "omarchy-task-manager") || eq_lit(&l, "omarchy-task-manager-core")
}

/// The parent PID that the last process record with `pid` names.
pub open spec fn parent_in(v: Seq<Process>, pid: i32) -> Option<i32>
    decreases v.len(),
{
    if v.len() == 0 {
        None
    } else if v.last().id.pid == pid {
        Some(v.last().ppid)
    } else {
        parent_in(v.drop_last(), pid)
    }
}

/// The `k`-th ancestor of `start` along known parents with a positive PID.
pub open spec fn ancestor(v: Seq<Process>, start: i32, k: nat) -> Option<i32>
    decreases k,
{
    if k == 0 {
        Some(start)
    } else {
        match ancestor(v, start, (k - 1) as nat) {
            Some(x) => match parent_in(v, x) {
                Some(p) => if p > 0 {
                    Some(p)
                } else {
                    None
                },
                None => None,
            },
            None => None,
        }
    }
}

/// A starting point of protection: this process, or a critical process.
pub open spec fn is_seed(v: Seq<Process>, self_pid: i32, s: i32) -> bool {
    s == self_pid || exists|i: int| 0 <= i < v.len() && #[trigger] is_critical(v[i]) && v[i].id.pid == s
}

/// Every seed and every known ancestor of a seed.
pub open spec fn protected_set(v: Seq<Process>, self_pid: i32) -> Set<i32> {
    Set::new(|x: i32| exists|s: i32, k: nat| is_seed(v, self_pid, s) && ancestor(v, s, k) == Some(x))
}

proof fn lemma_ancestor_none(v: Seq<Process>, s: i32, j: nat, k: nat)
    requires
        j <= k,
        ancestor(v, s, j) is None,
    ensures
        ancestor(v, s, k) is None,
    decreases k,
{
    if j < k {
        lemma_ancestor_none(v, s, j, (k - 1) as nat);
    }
}

proof fn lemma_ancestor_shift(v: Seq<Process>, s: i32, i: nat, j: nat, t: nat)
    requires
        ancestor(v, s, i) == ancestor(v, s, j),
    ensures
        ancestor(v, s, i + t) == ancestor(v, s, j + t),
    decreases t,
{
    if t > 0 {
        lemma_ancestor_shift(v, s, i, j, (t - 1) as nat);
        assert(ancestor(v, s, i + t) == ancestor(v, s, j + t)) by {
            assert((i + t - 1) as nat == i + (t - 1) as nat);
            assert((j + t - 1) as nat == j + (t - 1) as nat);
        }
    }
}

/// Once a chain returns to an earlier element, it only revisits `ancestor(i..j)`.
proof fn lemma_ancestor_cycle(v: Seq<Process>, s: i32, i: nat, j: nat, k: nat)
    requires
        i < j <= k,
        ancestor(v, s, i) == ancestor(v, s, j),
    ensures
        exists|m: nat| i <= m < j && ancestor(v, s, k) == ancestor(v, s, m),
    decreases k,
{
    let d = (j - i) as nat;
    let k2 = (k - d) as nat;
    lemma_ancestor_shift(v, s, i, j, (k - j) as nat);
    assert(i + (k - j) as nat == k2);
    assert(j + (k - j) as nat == k);
    if k2 < j {
        assert(i <= k2);
    } else {
        lemma_ancestor_cycle(v, s, i, j, k2);
    }
}

/// Every PID on the known-parent chain that starts at `seed`.
pub open spec fn chain_set(v: Seq<Process>, seed: i32) -> Set<i32> {
    Set::new(|x: i32| exists|k: nat| ancestor(v, seed, k) == Some(x))
}

/// The map from PID to parent PID that collecting `v` into a map produces (a later
/// record of a PID replaces an earlier one).
fn parent_map(v: &[Process]) -> (m: HashMap<i32, i32>)
    ensures
        forall|x: i32| #[trigger] m@.contains_key(x) == (parent_in(v@, x) is Some),
        forall|x: i32| m@.contains_key(x) ==> #[trigger] m@[x] == parent_in(v@, x)->0,
{
    let mut parents: HashMap<i32, i32> = HashMap::new();
    let mut k: usize = 0;
    while k < v.len()
        invariant
            k <= v.len(),
            forall|x: i32| #[trigger]
                parents@.contains_key(x) == (parent_in(v@.take(k as int), x) is Some),
            forall|x: i32|
                parents@.contains_key(x) ==> #[trigger] parents@[x] == parent_in(
                    v@.take(k as int),
                    x,
                )->0,
        decreases v.len() - k,
    {
        assert(v@.take(k + 1).drop_last() =~= v@.take(k as int));
        parents.insert(v[k].id.pid, v[k].ppid);
        k += 1;
    }
    assert(v@.take(v.len() as int) =~= v@);
    parents
}

/// Adds `seed` and its known ancestors to `ids`, stopping at an unknown parent, a
/// non-positive parent PID or a cycle.
fn add_chain(v: &[Process], parents: &HashMap<i32, i32>, seed: i32, ids: &mut HashSet<i32>)
    requires
        forall|x: i32| #[trigger] parents@.contains_key(x) == (parent_in(v@, x) is Some),
        forall|x: i32| parents@.contains_key(x) ==> #[trigger] parents@[x] == parent_in(v@, x)->0,
    ensures
        final(ids)@ == old(ids)@.union(chain_set(v@, seed)),
{
    let ghost base = ids@;
    let mut pid = seed;
    let mut visited: HashSet<i32> = HashSet::new();
    let ghost mut j: nat = 0;
    assert(visited@ =~= Set::new(|x: i32| exists|i: nat| i < j && ancestor(v@, seed, i) == Some(x)));
    assert(ids@ =~= base.union(visited@));
    loop
        invariant_except_break
            ancestor(v@, seed, j) == Some(pid),
            visited@ == Set::new(|x: i32| exists|i: nat| i < j && ancestor(v@, seed, i) == Some(x)),
            ids@ == base.union(visited@),
        invariant
            forall|x: i32| #[trigger] parents@.contains_key(x) == (parent_in(v@, x) is Some),
            forall|x: i32| parents@.contains_key(x) ==> #[trigger] parents@[x] == parent_in(v@, x)->0,
        ensures
            ids@ == base.union(chain_set(v@, seed)),
        decreases parents@.dom().difference(visited@).len(),
    {
        if visited.contains(&pid) {
            proof {
                let i = choose|i: nat| i < j && ancestor(v@, seed, i) == Some(pid);
                assert forall|x: i32| chain_set(v@, seed).contains(x) implies visited@.contains(x) by {
                    let t = choose|t: nat| ancestor(v@, seed, t) == Some(x);
                    if t >= j {
                        lemma_ancestor_cycle(v@, seed, i, j, t);
                    }
                }
                assert(ids@ =~= base.union(chain_set(v@, seed)));
            }
            break;
        }
        let ghost old_visited = visited@;
        visited.insert(pid);
        ids.insert(pid);
        assert(visited@ =~= Set::new(|x: i32| exists|i: nat| i < j + 1 && ancestor(v@, seed, i) == Some(x))) by {
            assert forall|x: i32| visited@.contains(x) implies (exists|i: nat| i < j + 1 && ancestor(v@, seed, i) == Some(x)) by {
                if x == pid {
                    assert(ancestor(v@, seed, j) == Some(x));
                }
            }
        }
        assert(ids@ =~= base.union(visited@));
        match parents.get(&pid) {
            Some(p) if *p > 0 => {
                let next = *p;
                proof {
                    assert(ancestor(v@, seed, j + 1) == Some(next));
                    assert(parents@.dom().contains(pid));
                    let d = parents@.dom().difference(old_visited);
                    assert(parents@.dom().difference(visited@) =~= d.remove(pid));
                    assert(d.finite());
                    assert(d.contains(pid));
                    vstd::set::axiom_set_remove_len(d, pid);
                    j = j + 1;
                }
                pid = next;
            },
            _ => {
                proof {
                    assert(ancestor(v@, seed, j + 1) is None);
                    assert forall|x: i32| chain_set(v@, seed).contains(x) implies visited@.contains(x) by {
                        let t = choose|t: nat| ancestor(v@, seed, t) == Some(x);
                        if t > j {
                            lemma_ancestor_none(v@, seed, j + 1, t);
                        }
                    }
                    assert(ids@ =~= base.union(chain_set(v@, seed)));
                }
                break;
            },
        }
    }
}

/// The PIDs that actions must not target: critical processes, this process (`self_pid`)
/// and all of their known ancestors.
pub fn protected_ids(v: &[Process], self_pid: i32) -> (r: HashSet<i32>)
    ensures
        r@ == protected_set(v@, self_pid),
{
    let parents = parent_map(v);
    let mut ids: HashSet<i32> = HashSet::new();
    let mut i: usize = 0;
    assert(ids@ =~= Set::new(|x: i32| exists|m: int| 0 <= m < i && #[trigger] is_critical(v@[m])
        && chain_set(v@, v@[m].id.pid).contains(x)));
    while i < v.len()
        invariant
            i <= v.len(),
            forall|x: i32| #[trigger] parents@.contains_key(x) == (parent_in(v@, x) is Some),
            forall|x: i32| parents@.contains_key(x) ==> #[trigger] parents@[x] == parent_in(v@, x)->0,
            ids@ == Set::new(|x: i32| exists|m: int| 0 <= m < i && #[trigger] is_critical(v@[m])
                && chain_set(v@, v@[m].id.pid).contains(x)),
        decreases v.len() - i,
    {
        let ghost before = ids@;
        if critical(&v[i]) {
            add_chain(v, &parents, v[i].id.pid, &mut ids);
        }
        assert(ids@ =~= Set::new(|x: i32| exists|m: int| 0 <= m < i + 1 && #[trigger] is_critical(v@[m])
                && chain_set(v@, v@[m].id.pid).contains(x))) by {
            assert forall|x: i32| (exists|m: int| 0 <= m < i + 1 && #[trigger] is_critical(v@[m])
                && chain_set(v@, v@[m].id.pid).contains(x)) implies ids@.contains(x) by {
                let m = choose|m: int| 0 <= m < i + 1 && #[trigger] is_critical(v@[m])
                    && chain_set(v@, v@[m].id.pid).contains(x);
                if m < i {
                    assert(before.contains(x));
                }
            }
        }
        i += 1;
    }
    let ghost crit = ids@;
    add_chain(v, &parents, self_pid, &mut ids);
    proof {
        assert(ids@ =~= protected_set(v@, self_pid)) by {
            assert forall|x: i32| ids@.contains(x) implies protected_set(v@, self_pid).contains(x) by {
                if crit.contains(x) {
                    let m = choose|m: int| 0 <= m < v.len() && #[trigger] is_critical(v@[m])
                        && chain_set(v@, v@[m].id.pid).contains(x);
                    let k = choose|k: nat| ancestor(v@, v@[m].id.pid, k) == Some(x);
                    assert(is_seed(v@, self_pid, v@[m].id.pid));
                } else {
                    let k = choose|k: nat| ancestor(v@, self_pid, k) == Some(x);
                    assert(is_seed(v@, self_pid, self_pid));
                }
            }
            assert forall|x: i32| protected_set(v@, self_pid).contains(x) implies ids@.contains(x) by {
                let (s, k) = choose|s: i32, k: nat| is_seed(v@, self_pid, s) && ancestor(v@, s, k) == Some(x);
                if s == self_pid {
                    assert(chain_set(v@, self_pid).contains(x));
                } else {
                    let m = choose|m: int| 0 <= m < v@.len() && #[trigger] is_critical(v@[m]) && v@[m].id.pid == s;
                    assert(chain_set(v@, v@[m].id.pid).contains(x));
                    assert(crit.contains(x));
                }
            }
        }
    }
    ids
}


/// Protection is closed under known parents: the parent of a protected process, when
/// known and positive, is protected too.
pub proof fn lemma_protected_parent_closed(v: Seq<Process>, self_pid: i32, x: i32)
    requires
        protected_set(v, self_pid).contains(x),
        parent_in(v, x) is Some,
        parent_in(v, x)->0 > 0,
    ensures
        protected_set(v, self_pid).contains(parent_in(v, x)->0),
{
    let (s, k) = choose|s: i32, k: nat| is_seed(v, self_pid, s) && ancestor(v, s, k) == Some(x);
    assert(ancestor(v, s, k + 1) == Some(parent_in(v, x)->0));
}

/// This process and every critical process are protected.
pub proof fn lemma_seeds_protected(v: Seq<Process>, self_pid: i32, i: int)
    requires
        0 <= i < v.len(),
        is_critical(v[i]),
    ensures
        protected_set(v, self_pid).contains(self_pid),
        protected_set(v, self_pid).contains(v[i].id.pid),
{
    assert(ancestor(v, self_pid, 0) == Some(self_pid));
    assert(is_seed(v, self_pid, v[i].id.pid));
    assert(ancestor(v, v[i].id.pid, 0) == Some(v[i].id.pid));
}

/// The desktop session's own processes and this monitor are never targets: a process named
/// (ignoring ASCII case) hyprland, quickshell, qs, systemd, dbus-daemon, dbus-broker,
/// dbus-broker-launch, omarchy-task-manager or omarchy-task-manager-core is critical, and
/// it and every one of its known ancestors are protected.
pub proof fn lemma_session_processes_are_protected(v: Seq<Process>, self_pid: i32, i: int)
    requires
        0 <= i < v.len(),
        ({
            let n = ascii_lower(v[i].name@);
            ||| n == "hyprland"@
            ||| n == "quickshell"@
            ||| n == "qs"@
            ||| n == "systemd"@
            ||| n == "dbus-daemon"@
            ||| n == "dbus-broker"@
            ||| n == "dbus-broker-launch"@
            ||| n == "omarchy-task-manager"@
            ||| n == "omarchy-task-manager-core"@
        }),
    ensures
        is_critical(v[i]),
        protected_set(v, self_pid).contains(v[i].id.pid),
        forall|k: nat| #[trigger] ancestor(v, v[i].id.pid, k) is Some ==> protected_set(v, self_pid).contains(
            ancestor(v, v[i].id.pid, k)->0,
        ),
{
    assert(is_critical(v[i]));
    lemma_seeds_protected(v, self_pid, i);
    assert forall|k: nat| #[trigger] ancestor(v, v[i].id.pid, k) is Some implies protected_set(v, self_pid).contains(
        ancestor(v, v[i].id.pid, k)->0,
    ) by {
        assert(is_critical(v[i]));
        assert(is_seed(v, self_pid, v[i].id.pid));
    }
}

/// The identity, ownership and protection checks that every process action makes.
pub fn validate_target(p: &Process, id: &Identity, uid: u32, protected: &HashSet<i32>) -> (r:
    Result<(), String>)
    ensures
        match r {
            Ok(()) => p.id == *id && p.uid == uid && !protected@.contains(id.pid),
            Err(m) => if p.id != *id {
                m@ == "Process changed or exited; refresh and try again"@
            } else if p.uid != uid {
                m@ == "Only your own processes can be controlled"@
            } else {
                protected@.contains(id.pid) && m@
                    == "This process is required by the desktop or monitor"@
            },
        },
{
    if p.id != *id {
        return Err("Process changed or exited; refresh and try again".to_owned());
    }
    if p.uid != uid {
        return Err("Only your own processes can be controlled".to_owned());
    }
    if protected.contains(&id.pid) {
        return Err("This process is required by the desktop or monitor".to_owned());
    }
    Ok(())
}

/// Why a process record could not be built.
#[derive(Debug, Clone, Copy, PartialEq, Eq, Structural)]
pub enum ProcessError {
    Stat(StatError),
    MissingOwner,
    InvalidField,
}

impl ProcessError {
    pub fn message(&self) -> (r: &'static str)
        ensures
            r@ == match self {
                ProcessError::Stat(e) => match e {
                    StatError::MissingName => "missing name"@,
                    StatError::MissingNameEnd => "missing name end"@,
                    StatError::ShortStat => "short process stat"@,
                },
                ProcessError::MissingOwner => "missing owner"@,
                ProcessError::InvalidField => "invalid process field"@,
            },
    {
        match self {
            ProcessError::Stat(e) => e.message(),
            ProcessError::MissingOwner => "missing owner",
            ProcessError::InvalidField => "invalid process field",
        }
    }
}

/// The raw owner UID token: the first word after `Uid:` on the first line that starts so.
pub open spec fn owner_token(status: Seq<char>) -> Option<Seq<char>> {
    match first_prefixed(lines(status), "Uid:"@) {
        Some(rest) => if words(rest).len() > 0 {
            Some(words(rest)[0])
        } else {
            None
        },
        None => None,
    }
}

/// An I/O counter line of `/proc/<pid>/io`: the trimmed rest of the first line with `key`.
pub open spec fn io_counter(io: Seq<char>, key: Seq<char>) -> Option<u64> {
    match first_prefixed(lines(io), key) {
        Some(v) => parse_u64(trim(v)),
        None => None,
    }
}

/// The name of the decoded command line: NUL separators become spaces, ends trimmed.
pub open spec fn command_text(lossy: Seq<char>) -> Seq<char> {
    trim(lossy.map_values(|c: char| if c == '\0' { ' ' } else { c }))
}

/// What `String::from_utf8_lossy` decodes from `bytes` (invalid sequences become U+FFFD).
pub uninterp spec fn utf8_lossy(bytes: Seq<u8>) -> Seq<char>;

/// `String::from_utf8_lossy(bytes).into_owned()`. The result is named, not restated;
/// std documents that valid UTF-8 comes back unchanged, so ASCII bytes (empty input
/// included) give exactly their characters. What replaces invalid sequences is left to
/// the name.
#[verifier::external_body]
pub(crate) fn lossy_string(bytes: &[u8]) -> (s: String)
    ensures
        s@ == utf8_lossy(bytes@),
        (forall|i: int| 0 <= i < bytes@.len() ==> bytes@[i] < 128) ==> s@ == bytes@.map_values(|b: u8| b as char),
{
    String::from_utf8_lossy(bytes).into_owned()
}

/// The command line shown for a process, from its decoded `/proc/<pid>/cmdline`.
pub fn command_line(lossy: &str) -> (r: String)
    ensures
        r@ == command_text(lossy@),
{
    let c = chars_of(lossy);
    let mut m: Vec<char> = Vec::new();
    let mut i: usize = 0;
    while i < c.len()
        invariant
            i <= c.len(),
            m@ == c@.take(i as int).map_values(|c: char| if c == '\0' { ' ' } else { c }),
        decreases c.len() - i,
    {
        m.push(if c[i] == '\0' { ' ' } else { c[i] });
        i += 1;
        assert(m@ =~= c@.take(i as int).map_values(|c: char| if c == '\0' { ' ' } else { c }));
    }
    assert(c@.take(c@.len() as int) =~= c@);
    let (a, b) = trim_bounds(&m, 0, m.len());
    assert(m@.subrange(0, m@.len() as int) =~= m@);
    string_of(copy_range(&m, a, b).as_slice())
}

/// The numeric stat fields of a process, in the order `(rss, start, ppid, uid, utime, stime,
/// nice, threads, vsize)`, when all of them parse.
pub open spec fn stat_numbers(f: Seq<Seq<char>>, uid: Seq<char>) -> Option<
    (i64, u64, i32, u32, u64, u64, i32, u64, u64),
> {
    if parse_i64(f[21]) is Some && parse_u64(f[19]) is Some && parse_i32(f[1]) is Some
        && parse_u32(uid) is Some && parse_u64(f[11]) is Some && parse_u64(f[12]) is Some
        && parse_i32(f[16]) is Some && parse_u64(f[17]) is Some && parse_u64(f[20]) is Some {
        Some(
            (
                parse_i64(f[21])->0,
                parse_u64(f[19])->0,
                parse_i32(f[1])->0,
                parse_u32(uid)->0,
                parse_u64(f[11])->0,
                parse_u64(f[12])->0,
                parse_i32(f[16])->0,
                parse_u64(f[17])->0,
                parse_u64(f[20])->0,
            ),
        )
    } else {
        None
    }
}

/// Resident memory in bytes: negative page counts read as zero; the product wraps as the
/// released build's `u64` multiplication does.
pub open spec fn resident_bytes(rss: i64, page: u64) -> u64 {
    (((if rss < 0 { 0 } else { rss as nat }) * page as nat) % 0x1_0000_0000_0000_0000nat) as u64
}

/// The process that procfs texts describe. `exe_name` is the file name of the executable
/// link, when readable; `cmdline` the raw command line, when readable; `page` the page size.
pub open spec fn process_record(
    pid: i32,
    stat: Seq<char>,
    status: Seq<char>,
    exe_name: Option<Seq<char>>,
    cmdline: Option<Seq<u8>>,
    io: Seq<char>,
    page: u64,
) -> Result<
    (
        Identity,
        i32,
        Seq<char>,
        Seq<char>,
        u32,
        Seq<char>,
        Seq<char>,
        u64,
        u64,
        Option<u64>,
        Option<u64>,
        i32,
        u64,
        u64,
    ),
    ProcessError,
> {
    match stat_fields(stat) {
        Err(e) => Err(ProcessError::Stat(e)),
        Ok((comm, f)) => match owner_token(status) {
            None => Err(ProcessError::MissingOwner),
            Some(uid) => match stat_numbers(f, uid) {
                None => Err(ProcessError::InvalidField),
                Some((rss, start, ppid, u, utime, stime, nice, threads, vsize)) => Ok(
                    (
                        Identity { pid, start },
                        ppid,
                        match exe_name {
                            Some(n) => n,
                            None => comm,
                        },
                        match cmdline {
                            Some(b) => command_text(utf8_lossy(b)),
                            None => Seq::empty(),
                        },
                        u,
                        uid,
                        f[0],
                        if utime + stime > u64::MAX {
                            u64::MAX
                        } else {
                            (utime + stime) as u64
                        },
                        resident_bytes(rss, page),
                        io_counter(io, "read_bytes:"@),
                        io_counter(io, "write_bytes:"@),
                        nice,
                        threads,
                        vsize,
                    ),
                ),
            },
        },
    }
}

/// Whether `p` holds exactly the fields of `rec`, is unprotected and has no GPU reading.
pub open spec fn matches_record(
    p: Process,
    rec: (
        Identity,
        i32,
        Seq<char>,
        Seq<char>,
        u32,
        Seq<char>,
        Seq<char>,
        u64,
        u64,
        Option<u64>,
        Option<u64>,
        i32,
        u64,
        u64,
    ),
) -> bool {
    &&& p.id == rec.0
    &&& p.ppid == rec.1
    &&& p.name@ == rec.2
    &&& p.command@ == rec.3
    &&& p.uid == rec.4
    &&& p.user@ == rec.5
    &&& p.state@ == rec.6
    &&& p.ticks == rec.7
    &&& p.memory == rec.8
    &&& p.read == rec.9
    &&& p.write == rec.10
    &&& p.nice == rec.11
    &&& p.threads == rec.12
    &&& p.virtual_memory == rec.13
    &&& !p.protected
    &&& p.gpu_memory is None
}

fn counter(io_lines: &Vec<Vec<char>>, key: &str) -> (r: Option<u64>)
    ensures
        r == match first_prefixed(views(io_lines@), key@) {
            Some(v) => parse_u64(trim(v)),
            None => None,
        },
{
    let k = chars_of(key);
    match find_prefixed(io_lines, &k) {
        Some(i) => {
            let line = &io_lines[i];
            let (a, b) = trim_bounds(line, k.len(), line.len());
            assert(line@.subrange(k.len() as int, line@.len() as int) =~= line@.skip(
                k@.len() as int,
            ));
            parse_u64_range(line, a, b)
        },
        None => None,
    }
}

/// Builds a process record from the texts of `/proc/<pid>/{stat,status,io}`, the executable
/// link's file name, the raw command line and the page size.
pub fn read_one_from(
    pid: i32,
    stat: &str,
    status: &str,
    exe_name: Option<String>,
    cmdline: Option<Vec<u8>>,
    io: &str,
    page: u64,
) -> (r: Result<Process, ProcessError>)
    ensures
        match (r, process_record(
            pid,
            stat@,
            status@,
            match exe_name {
                Some(n) => Some(n@),
                None => None,
            },
            match cmdline {
                Some(b) => Some(b@),
                None => None,
            },
            io@,
            page,
        )) {
            (Ok(p), Ok(rec)) => matches_record(p, rec),
            (Err(e), Err(e2)) => e == e2,
            _ => false,
        },
{
    let (comm, f) = match parse_stat(stat) {
        Ok(x) => x,
        Err(e) => {
            return Err(ProcessError::Stat(e));
        },
    };
    let ghost fv = stat_fields(stat@)->Ok_0.1;
    assert(forall|i: int| 0 <= i < fv.len() ==> #[trigger] f@[i]@ == fv[i]);
    let sc = chars_of(status);
    let sl = split_lines(&sc);
    let uid_key = chars_of("Uid:");
    let uid_tok = match find_prefixed(&sl, &uid_key) {
        Some(i) => {
            let line = &sl[i];
            let ws = split_words(line, uid_key.len(), line.len());
            assert(line@.subrange(uid_key.len() as int, line@.len() as int) =~= line@.skip(
                uid_key@.len() as int,
            ));
            if ws.len() == 0 {
                return Err(ProcessError::MissingOwner);
            }
            string_of(ws[0].as_slice())
        },
        None => {
            return Err(ProcessError::MissingOwner);
        },
    };
    let rss = match parse_i64_str(f[21].as_str()) { Some(v) => v, None => { return Err(ProcessError::InvalidField); } };
    let start = match parse_u64_str(f[19].as_str()) { Some(v) => v, None => { return Err(ProcessError::InvalidField); } };
    let ppid = match parse_i32_str(f[1].as_str()) { Some(v) => v, None => { return Err(ProcessError::InvalidField); } };
    let uid = match parse_u32_str(uid_tok.as_str()) { Some(v) => v, None => { return Err(ProcessError::InvalidField); } };
    let utime = match parse_u64_str(f[11].as_str()) { Some(v) => v, None => { return Err(ProcessError::InvalidField); } };
    let stime = match parse_u64_str(f[12].as_str()) { Some(v) => v, None => { return Err(ProcessError::InvalidField); } };
    let nice = match parse_i32_str(f[16].as_str()) { Some(v) => v, None => { return Err(ProcessError::InvalidField); } };
    let threads = match parse_u64_str(f[17].as_str()) { Some(v) => v, None => { return Err(ProcessError::InvalidField); } };
    let vsize = match parse_u64_str(f[20].as_str()) { Some(v) => v, None => { return Err(ProcessError::InvalidField); } };
    let name = match exe_name {
        Some(n) => n,
        None => comm,
    };
    let command = match cmdline {
        Some(b) => {
            let l = lossy_string(b.as_slice());
            command_line(l.as_str())
        },
        None => String::new(),
    };
    let ic = chars_of(io);
    let il = split_lines(&ic);
    let read = counter(&il, "read_bytes:");
    let write = counter(&il, "write_bytes:");
    let pages: u64 = if rss < 0 { 0 } else { rss as u64 };
    let memory = pages.wrapping_mul(page);
    Ok(Process {
        id: Identity { pid, start },
        ppid,
        name,
        command,
        uid,
        user: uid_tok,
        state: f[0].clone(),
        ticks: utime.saturating_add(stime),
        memory,
        read,
        write,
        protected: false,
        nice,
        threads,
        virtual_memory: vsize,
        gpu_memory: None,
    })
}

/// Whether a priority or affinity request may be applied: a nice value lies in
/// -20..=19, a CPU list is non-empty and names only CPUs below `set_size`.
pub open spec fn tune_error(nice: Option<i32>, cpus: Option<Seq<usize>>, set_size: usize) -> Option<Seq<char>> {
    if nice is Some && !(-20 <= nice->0 <= 19) {
        Some("Nice must be between -20 and 19"@)
    } else if cpus is Some && (cpus->0.len() == 0 || exists|i: int| 0 <= i < cpus->0.len() && cpus->0[i] >= set_size) {
        Some("Choose at least one valid CPU"@)
    } else {
        None
    }
}

/// Tuning accepts nice values from -20 to 19 and CPU lists that are not empty and name only
/// CPUs below the set size; nothing else.
pub proof fn lemma_tune_ranges(n: i32, cpus: Seq<usize>, set_size: usize)
    ensures
        tune_error(Some(n), None, set_size) is None <==> -20 <= n && n <= 19,
        tune_error(None, Some(cpus), set_size) is None <==> cpus.len() > 0 && forall|i: int| 0 <= i < cpus.len() ==> cpus[i]
            < set_size,
        tune_error(None, None, set_size) is None,
{
}

pub fn check_tune(nice: Option<i32>, cpus: Option<&[usize]>, set_size: usize) -> (r: Result<(), String>)
    ensures
        match r {
            Ok(()) => tune_error(nice, match cpus { Some(c) => Some(c@), None => None }, set_size) is None,
            Err(e) => tune_error(nice, match cpus { Some(c) => Some(c@), None => None }, set_size) == Some(e@),
        },
{
    match nice {
        Some(n) => if n < -20 || n > 19 {
            return Err("Nice must be between -20 and 19".to_owned());
        },
        None => {},
    }
    match cpus {
        Some(c) => {
            if c.len() == 0 {
                return Err("Choose at least one valid CPU".to_owned());
            }
            let mut i: usize = 0;
            while i < c.len()
                invariant
                    i <= c.len(),
                    cpus == Some(c),
                    nice is Some ==> -20 <= nice->0 <= 19,
                    forall|j: int| 0 <= j < i ==> c@[j] < set_size,
                decreases c.len() - i,
            {
                if c[i] >= set_size {
                    assert(c@[i as int] >= set_size);
                    return Err("Choose at least one valid CPU".to_owned());
                }
                i += 1;
            }
        },
        None => {},
    }
    Ok(())
}

/// Items joined with `"; "` between them.
pub open spec fn semicolon_joined(items: Seq<Seq<char>>) -> Seq<char>
    decreases items.len(),
{
    if items.len() == 0 {
        seq![]
    } else if items.len() == 1 {
        items[0]
    } else {
        semicolon_joined(items.drop_last()) + seq![';', ' '] + items.last()
    }
}

/// How many failure details a tuning report keeps.
pub const TUNE_ERROR_LIMIT: usize = 8;

/// The first `TUNE_ERROR_LIMIT` failures (all of them when there are fewer).
pub open spec fn kept_failures(failures: Seq<Seq<char>>) -> Seq<Seq<char>> {
    if failures.len() <= TUNE_ERROR_LIMIT {
        failures
    } else {
        failures.take(TUNE_ERROR_LIMIT as int)
    }
}

/// The outcome of tuning every thread: success only when at least one thread was updated
/// and none failed; an empty thread set is refused; otherwise the count of updated threads
/// and the first eight failures joined by `"; "`.
pub fn tune_report(success: u64, failures: &[String]) -> (r: Result<String, String>)
    ensures
        match r {
            Ok(m) => success > 0 && failures@.len() == 0 && m@ == "Updated "@ + crate::text::dec_str(
                success as nat,
            ) + " threads. New threads inherit their creator's settings."@,
            Err(m) => if failures@.len() > 0 {
                m@ == "Updated "@ + crate::text::dec_str(success as nat) + " threads; failures: "@
                    + semicolon_joined(kept_failures(failures@.map_values(|f: String| f@)))
            } else {
                success == 0 && m@ == "No threads to update"@
            },
        },
{
    if success == 0 && failures.len() == 0 {
        return Err("No threads to update".to_owned());
    }
    let mut v: Vec<char> = chars_of("Updated ");
    crate::text::push_decimal(&mut v, success);
    if failures.len() == 0 {
        let tail = chars_of(" threads. New threads inherit their creator's settings.");
        assert(tail@.subrange(0, tail@.len() as int) =~= tail@);
        crate::text::push_range(&mut v, &tail, 0, tail.len());
        return Ok(string_of(v.as_slice()));
    }
    let mid = chars_of(" threads; failures: ");
    assert(mid@.subrange(0, mid@.len() as int) =~= mid@);
    crate::text::push_range(&mut v, &mid, 0, mid.len());
    let ghost head = v@;
    let ghost fs = failures@.map_values(|f: String| f@);
    let mut i: usize = 0;
    while i < failures.len() && i < TUNE_ERROR_LIMIT
        invariant
            i <= failures.len(),
            i <= TUNE_ERROR_LIMIT,
            fs == failures@.map_values(|f: String| f@),
            v@ == head + semicolon_joined(fs.take(i as int)),
        decreases failures.len() - i,
    {
        assert(fs.take(i + 1).drop_last() =~= fs.take(i as int));
        assert(fs.take(i + 1).last() == failures@[i as int]@);
        if i > 0 {
            v.push(';');
            v.push(' ');
        }
        let f = chars_of(failures[i].as_str());
        assert(f@.subrange(0, f@.len() as int) =~= f@);
        crate::text::push_range(&mut v, &f, 0, f.len());
        i += 1;
        proof {
            if i == 1 {
                assert(fs.take(1) =~= seq![fs[0]]);
            }
        }
        assert(v@ =~= head + semicolon_joined(fs.take(i as int)));
    }
    if failures.len() <= TUNE_ERROR_LIMIT {
        assert(fs.take(failures.len() as int) =~= fs);
    }
    Err(string_of(v.as_slice()))
}


/// The failure recorded for thread `tid`.
pub open spec fn thread_failure(tid: i32, error: Seq<char>) -> Seq<char> {
    crate::text::int_str(tid as int) + ": "@ + error
}

/// What a tuning pass changes on each thread.
pub enum TuneChange {
    /// The nice value.
    Nice(i32),
    /// The CPU affinity.
    Affinity,
}

/// The change a tuning request asks for: the nice value when one is given, else the
/// affinity when CPUs are given.
pub fn tune_change(nice: Option<i32>, affinity: bool) -> (r: Result<TuneChange, String>)
    ensures
        match r {
            Ok(TuneChange::Nice(n)) => nice == Some(n),
            Ok(TuneChange::Affinity) => nice is None && affinity,
            Err(e) => nice is None && !affinity && e@ == "No setting supplied"@,
        },
{
    match nice {
        Some(n) => Ok(TuneChange::Nice(n)),
        None => if affinity {
            Ok(TuneChange::Affinity)
        } else {
            Err("No setting supplied".to_owned())
        },
    }
}

/// Before each thread is changed, the process must still be the one requested.
pub fn leader_check(reread: Option<Identity>, id: &Identity) -> (r: Result<(), String>)
    ensures
        match r {
            Ok(()) => reread == Some(*id),
            Err(e) => match reread {
                None => e@ == "Process exited"@,
                Some(x) => x != *id && e@ == "Process changed"@,
            },
        },
{
    match reread {
        None => Err("Process exited".to_owned()),
        Some(x) => if x == *id {
            Ok(())
        } else {
            Err("Process changed".to_owned())
        },
    }
}

/// The tally of a tuning pass over a process's threads: how many were changed, and the
/// failures in the order they happened.
pub struct TuneRun {
    pub success: u64,
    pub failures: Vec<String>,
}

impl TuneRun {
    pub fn new() -> (r: TuneRun)
        ensures
            r.success == 0,
            r.failures@.len() == 0,
    {
        TuneRun { success: 0, failures: Vec::new() }
    }

    /// Records that thread `tid` could not be changed: it could not be read again, no
    /// longer passed validation, or the change failed.
    pub fn failed(&mut self, tid: i32, error: &str)
        ensures
            final(self).success == old(self).success,
            final(self).failures@.map_values(|f: String| f@) == old(self).failures@.map_values(|f: String| f@).push(
                thread_failure(tid, error@),
            ),
    {
        let mut m = crate::text::signed_decimal(tid as i64);
        m.append(": ");
        m.append(error);
        let ghost before = self.failures@;
        self.failures.push(m);
        assert(self.failures@.map_values(|f: String| f@) =~= before.map_values(|f: String| f@).push(
            thread_failure(tid, error@),
        ));
    }

    /// Records the outcome of changing thread `tid`.
    pub fn applied(&mut self, tid: i32, result: Result<(), String>)
        ensures
            match result {
                Ok(()) => final(self).success == (if old(self).success < u64::MAX {
                    old(self).success + 1
                } else {
                    old(self).success as int
                }) && final(self).failures@ == old(self).failures@,
                Err(e) => final(self).success == old(self).success && final(self).failures@.map_values(
                    |f: String| f@,
                ) == old(self).failures@.map_values(|f: String| f@).push(thread_failure(tid, e@)),
            },
    {
        match result {
            Ok(()) => {
                self.success = self.success.saturating_add(1);
            },
            Err(e) => {
                self.failed(tid, e.as_str());
            },
        }
    }

    /// The report of the whole pass (see `tune_report`).
    pub fn report(&self) -> (r: Result<String, String>)
        ensures
            match r {
                Ok(m) => self.success > 0 && self.failures@.len() == 0 && m@ == "Updated "@
                    + crate::text::dec_str(self.success as nat)
                    + " threads. New threads inherit their creator's settings."@,
                Err(m) => if self.failures@.len() > 0 {
                    m@ == "Updated "@ + crate::text::dec_str(self.success as nat) + " threads; failures: "@
                        + semicolon_joined(kept_failures(self.failures@.map_values(|f: String| f@)))
                } else {
                    self.success == 0 && m@ == "No threads to update"@
                },
            },
    {
        tune_report(self.success, self.failures.as_slice())
    }
}

/// Linux signal numbers that a process action may send (the generic Linux ABI).
pub const SIGNAL_KILL: i32 = 9;
pub const SIGNAL_TERM: i32 = 15;
pub const SIGNAL_CONT: i32 = 18;
pub const SIGNAL_STOP: i32 = 19;

/// The signals a process action may send: terminate, kill, stop and continue.
pub open spec fn allowed_signal(sig: i32) -> bool {
    sig == SIGNAL_TERM || sig == SIGNAL_KILL || sig == SIGNAL_STOP || sig == SIGNAL_CONT
}

/// Refuses any signal but terminate, kill, stop and continue.
pub fn check_signal(sig: i32) -> (r: Result<(), String>)
    ensures
        match r {
            Ok(()) => allowed_signal(sig),
            Err(e) => !allowed_signal(sig) && e@ == "Invalid signal"@,
        },
{
    if sig == SIGNAL_TERM || sig == SIGNAL_KILL || sig == SIGNAL_STOP || sig == SIGNAL_CONT {
        Ok(())
    } else {
        Err("Invalid signal".to_owned())
    }
}

/// The signal of a close request: force-quit kills, terminate asks the process to exit.
pub fn signal_for(force: bool) -> (r: i32)
    ensures
        r == if force { SIGNAL_KILL } else { SIGNAL_TERM },
        allowed_signal(r),
{
    if force {
        SIGNAL_KILL
    } else {
        SIGNAL_TERM
    }
}

} // verus!
