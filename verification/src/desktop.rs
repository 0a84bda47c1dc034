//! Window and application attribution, desktop launchers, theme files and the
//! compositor-facing identity checks.
use std::collections::{HashMap, HashSet};
use vstd::prelude::*;
use crate::process::{Identity, Process};
use crate::desktop_entry::Fields;
use crate::text::{
    lemma_wrapping_sum, all_hex, chars_of, contains_char, eq_lit, find_char, index_of, is_hex, lines, push_range,
    range_eq, signed_decimal, int_str, split_char, split_lines, starts_with, string_of, trim, trim_bounds, trim_char,
    trim_char_bounds, trim_char_start, trim_char_start_bound, views,
};

verus! {

broadcast use vstd::std_specs::hash::group_hash_axioms;

/// A compositor client window.
#[derive(Clone, Debug)]
pub struct Window {
    pub address: String,
    pub pid: i32,
    pub class: String,
    pub title: String,
}

/// The icon for an application window: Omarchy's own windows share the brand icon;
/// otherwise the launcher's icon when it names one, else a generic executable icon.
pub open spec fn icon_for(class: Seq<char>, desktop_icon: Option<Seq<char>>) -> Seq<char> {
    if starts_with(class, "org.omarchy."@) {
        "omarchy-default"@
    } else {
        match desktop_icon {
            Some(i) => if i.len() > 0 {
                i
            } else {
                "application-x-executable"@
            },
            None => "application-x-executable"@,
        }
    }
}

pub fn application_icon<'a>(class: &str, desktop_icon: Option<&'a str>) -> (r: &'a str)
    ensures
        r@ == icon_for(
            class@,
            match desktop_icon {
                Some(i) => Some(i@),
                None => None,
            },
        ),
{
    let c = chars_of(class);
    let p = chars_of("org.omarchy.");
    assert(c@.subrange(0, c@.len() as int) =~= c@);
    if crate::text::range_starts_with(&c, 0, c.len(), &p) {
        "omarchy-default"
    } else {
        match desktop_icon {
            Some(i) => if i.is_empty() {
                "application-x-executable"
            } else {
                i
            },
            None => "application-x-executable",
        }
    }
}

/// Names of shells and session managers whose children are separate jobs.
pub open spec fn is_job_boundary(name: Seq<char>) -> bool {
    ||| name == "bash"@
    ||| name == "zsh"@
    ||| name == "fish"@
    ||| name == "sh"@
    ||| name == "nu"@
    ||| name == "systemd"@
}

fn job_boundary(name: &String) -> (r: bool)
    ensures
        r == is_job_boundary(name@),
{
    let c = chars_of(name.as_str());
    eq_lit(&c, "bash") || eq_lit(&c, "zsh") || eq_lit(&c, "fish") || eq_lit(&c, "sh")
        || eq_lit(&c, "nu") || eq_lit(&c, "systemd")
}

/// Index of the last record of `pid` in `v`, or -1.
pub open spec fn last_index_of_pid(v: Seq<Process>, pid: i32) -> int
    decreases v.len(),
{
    if v.len() == 0 {
        -1
    } else if v.last().id.pid == pid {
        v.len() - 1
    } else {
        last_index_of_pid(v.drop_last(), pid)
    }
}

proof fn lemma_last_index_of_pid(v: Seq<Process>, pid: i32)
    ensures
        -1 <= last_index_of_pid(v, pid) < v.len(),
        last_index_of_pid(v, pid) >= 0 ==> v[last_index_of_pid(v, pid)].id.pid == pid,
        last_index_of_pid(v, pid) < 0 ==> forall|i: int| 0 <= i < v.len() ==> v[i].id.pid != pid,
    decreases v.len(),
{
    if v.len() > 0 && v.last().id.pid != pid {
        lemma_last_index_of_pid(v.drop_last(), pid);
        if last_index_of_pid(v, pid) < 0 {
            assert forall|i: int| 0 <= i < v.len() implies v[i].id.pid != pid by {
                if i < v.len() - 1 {
                    assert(v[i] == v.drop_last()[i]);
                }
            }
        }
    }
}

/// A window's process is a grouping root.
pub open spec fn is_root(ws: Seq<Window>, pid: i32) -> bool {
    pid > 0 && exists|i: int| 0 <= i < ws.len() && ws[i].pid == pid
}

/// The walk from `p` towards its ancestors: the first same-owner ancestor (or `p` itself)
/// that owns a window is the group root. The walk stops at an unknown or foreign-owned
/// process, at a shell or session manager above `p`, and at a repeated PID.
pub open spec fn owner_walk(
    v: Seq<Process>,
    ws: Seq<Window>,
    p: Process,
    id: i32,
    visited: Set<i32>,
    fuel: nat,
) -> Option<i32>
    decreases fuel,
{
    if fuel == 0 || visited.contains(id) {
        None
    } else {
        let k = last_index_of_pid(v, id);
        if k < 0 {
            None
        } else if v[k].uid != p.uid {
            None
        } else if is_root(ws, id) {
            Some(id)
        } else if id != p.id.pid && is_job_boundary(v[k].name@) {
            None
        } else {
            owner_walk(v, ws, p, v[k].ppid, visited.insert(id), (fuel - 1) as nat)
        }
    }
}

/// The window root that `p` is attributed to, if any.
pub open spec fn owner(v: Seq<Process>, ws: Seq<Window>, p: Process) -> Option<i32> {
    owner_walk(v, ws, p, p.id.pid, Set::empty(), v.len() + 1)
}

/// The PIDs among the first `k` processes that are attributed to `root`, in order.
pub open spec fn members(v: Seq<Process>, ws: Seq<Window>, root: i32, k: int) -> Seq<i32>
    decreases k,
{
    if k <= 0 {
        seq![]
    } else {
        members(v, ws, root, k - 1) + if owner(v, ws, v[k - 1]) == Some(root) {
            seq![v[k - 1].id.pid]
        } else {
            seq![]
        }
    }
}

fn index_by_pid(v: &[Process]) -> (m: HashMap<i32, usize>)
    ensures
        forall|x: i32| #[trigger] m@.contains_key(x) == (last_index_of_pid(v@, x) >= 0),
        forall|x: i32| m@.contains_key(x) ==> #[trigger] m@[x] == last_index_of_pid(v@, x),
{
    let mut m: HashMap<i32, usize> = HashMap::new();
    let mut k: usize = 0;
    while k < v.len()
        invariant
            k <= v.len(),
            forall|x: i32| #[trigger]
                m@.contains_key(x) == (last_index_of_pid(v@.take(k as int), x) >= 0),
            forall|x: i32|
                m@.contains_key(x) ==> #[trigger] m@[x] == last_index_of_pid(v@.take(k as int), x),
        decreases v.len() - k,
    {
        assert(v@.take(k + 1).drop_last() =~= v@.take(k as int));
        m.insert(v[k].id.pid, k);
        k += 1;
    }
    assert(v@.take(v.len() as int) =~= v@);
    m
}

fn window_roots(windows: &[Window]) -> (r: HashSet<i32>)
    ensures
        forall|x: i32| #[trigger] r@.contains(x) == is_root(windows@, x),
{
    let mut r: HashSet<i32> = HashSet::new();
    let mut i: usize = 0;
    while i < windows.len()
        invariant
            i <= windows.len(),
            forall|x: i32| #[trigger] r@.contains(x) == (x > 0 && exists|j: int| 0 <= j < i && windows@[j].pid == x),
        decreases windows.len() - i,
    {
        if windows[i].pid > 0 {
            r.insert(windows[i].pid);
        }
        proof {
            assert forall|x: i32| #[trigger] r@.contains(x) == (x > 0 && exists|j: int| 0 <= j < i + 1 && windows@[j].pid == x) by {
                if x > 0 && exists|j: int| 0 <= j < i + 1 && windows@[j].pid == x {
                    let j = choose|j: int| 0 <= j < i + 1 && windows@[j].pid == x;
                    if j < i {
                        assert(exists|j: int| 0 <= j < i && windows@[j].pid == x);
                    }
                }
            }
        }
        i += 1;
    }
    r
}

fn owner_of(
    v: &[Process],
    by_pid: &HashMap<i32, usize>,
    roots: &HashSet<i32>,
    Ghost(ws): Ghost<Seq<Window>>,
    p: &Process,
) -> (r: Option<i32>)
    requires
        forall|x: i32| #[trigger] by_pid@.contains_key(x) == (last_index_of_pid(v@, x) >= 0),
        forall|x: i32| by_pid@.contains_key(x) ==> #[trigger] by_pid@[x] == last_index_of_pid(v@, x),
        forall|x: i32| #[trigger] roots@.contains(x) == is_root(ws, x),
    ensures
        r == owner(v@, ws, *p),
{
    let ghost pids = v@.map_values(|q: Process| q.id.pid);
    let ghost pset = pids.to_set();
    proof {
        pids.lemma_cardinality_of_set();
    }
    let mut id = p.id.pid;
    let mut seen: HashSet<i32> = HashSet::new();
    let ghost n = v@.len();
    loop
        invariant
            forall|x: i32| #[trigger] by_pid@.contains_key(x) == (last_index_of_pid(v@, x) >= 0),
            forall|x: i32| by_pid@.contains_key(x) ==> #[trigger] by_pid@[x] == last_index_of_pid(v@, x),
            forall|x: i32| #[trigger] roots@.contains(x) == is_root(ws, x),
            n == v@.len(),
            pset == v@.map_values(|q: Process| q.id.pid).to_set(),
            pset.finite(),
            pset.len() <= n,
            seen@.finite(),
            seen@.subset_of(pset),
            owner(v@, ws, *p) == owner_walk(v@, ws, *p, id, seen@, (n + 1 - seen@.len()) as nat),
        decreases n + 1 - seen@.len(),
    {
        proof {
            vstd::set_lib::lemma_len_subset(seen@, pset);
        }
        if seen.contains(&id) {
            return None;
        }
        let k = match by_pid.get(&id) {
            Some(k) => *k,
            None => {
                return None;
            },
        };
        proof {
            lemma_last_index_of_pid(v@, id);
        }
        let parent = &v[k];
        if parent.uid != p.uid {
            return None;
        }
        if roots.contains(&id) {
            return Some(id);
        }
        if id != p.id.pid && job_boundary(&parent.name) {
            return None;
        }
        proof {
            let pids2 = v@.map_values(|q: Process| q.id.pid);
            assert(k == last_index_of_pid(v@, id));
            assert(pids2[k as int] == id);
            assert(pids2.contains(id));
            assert(pset.contains(id));
        }
        seen.insert(id);
        id = parent.ppid;
    }
}

/// Groups processes under the window processes that own them: each key is a window's PID,
/// each value the PIDs attributed to it, in process order.
pub fn group(processes: &[Process], windows: &[Window]) -> (r: HashMap<i32, Vec<i32>>)
    ensures
        forall|root: i32| #[trigger] r@.contains_key(root) == (members(processes@, windows@, root, processes@.len() as int).len() > 0),
        forall|root: i32| r@.contains_key(root) ==> #[trigger] r@[root]@ == members(processes@, windows@, root, processes@.len() as int),
{
    let roots = window_roots(windows);
    let by_pid = index_by_pid(processes);
    let mut result: HashMap<i32, Vec<i32>> = HashMap::new();
    let mut i: usize = 0;
    while i < processes.len()
        invariant
            i <= processes.len(),
            forall|x: i32| #[trigger] by_pid@.contains_key(x) == (last_index_of_pid(processes@, x) >= 0),
            forall|x: i32| by_pid@.contains_key(x) ==> #[trigger] by_pid@[x] == last_index_of_pid(processes@, x),
            forall|x: i32| #[trigger] roots@.contains(x) == is_root(windows@, x),
            forall|root: i32| #[trigger] result@.contains_key(root) == (members(processes@, windows@, root, i as int).len() > 0),
            forall|root: i32| result@.contains_key(root) ==> #[trigger] result@[root]@ == members(processes@, windows@, root, i as int),
        decreases processes.len() - i,
    {
        let o = owner_of(processes, &by_pid, &roots, Ghost(windows@), &processes[i]);
        if let Some(root) = o {
            let mut m = match result.remove(&root) {
                Some(m) => m,
                None => Vec::new(),
            };
            m.push(processes[i].id.pid);
            result.insert(root, m);
        }
        proof {
            assert forall|r: i32| #[trigger] result@.contains_key(r) == (members(processes@, windows@, r, i + 1).len() > 0) by {
                assert(members(processes@, windows@, r, i + 1) == members(processes@, windows@, r, i as int) + if owner(processes@, windows@, processes@[i as int]) == Some(r) {
                    seq![processes@[i as int].id.pid]
                } else {
                    seq![]
                });
            }
            assert forall|r: i32| result@.contains_key(r) implies #[trigger] result@[r]@ == members(processes@, windows@, r, i + 1) by {
                assert(members(processes@, windows@, r, i + 1) == members(processes@, windows@, r, i as int) + if owner(processes@, windows@, processes@[i as int]) == Some(r) {
                    seq![processes@[i as int].id.pid]
                } else {
                    seq![]
                });
                if o == Some(r) {
                    assert(result@[r]@ =~= members(processes@, windows@, r, i + 1));
                } else {
                    assert(members(processes@, windows@, r, i + 1) =~= members(processes@, windows@, r, i as int));
                }
            }
        }
        i += 1;
    }
    result
}


/// Law: a process is only ever attributed to a window process of its own user.
pub proof fn lemma_owner_is_own_window(v: Seq<Process>, ws: Seq<Window>, p: Process)
    requires
        owner(v, ws, p) is Some,
    ensures
        is_root(ws, owner(v, ws, p)->0),
        last_index_of_pid(v, owner(v, ws, p)->0) >= 0,
        v[last_index_of_pid(v, owner(v, ws, p)->0)].uid == p.uid,
{
    lemma_owner_walk_is_own_window(v, ws, p, p.id.pid, Set::empty(), v.len() + 1);
}

proof fn lemma_owner_walk_is_own_window(
    v: Seq<Process>,
    ws: Seq<Window>,
    p: Process,
    id: i32,
    visited: Set<i32>,
    fuel: nat,
)
    requires
        owner_walk(v, ws, p, id, visited, fuel) is Some,
    ensures
        is_root(ws, owner_walk(v, ws, p, id, visited, fuel)->0),
        last_index_of_pid(v, owner_walk(v, ws, p, id, visited, fuel)->0) >= 0,
        v[last_index_of_pid(v, owner_walk(v, ws, p, id, visited, fuel)->0)].uid == p.uid,
    decreases fuel,
{
    let k = last_index_of_pid(v, id);
    if !is_root(ws, id) {
        lemma_owner_walk_is_own_window(v, ws, p, v[k].ppid, visited.insert(id), (fuel - 1) as nat);
    }
}

/// A walk up from `p` that meets a shell or session manager: `s[0]` is `p`'s PID and each
/// next PID is the parent named by the (last) record of the one before; every process on
/// the way belongs to `p`'s user and owns no window, and the last one, above `p`, is named
/// bash, zsh, fish, sh, nu or systemd.
pub open spec fn shell_chain(v: Seq<Process>, ws: Seq<Window>, p: Process, s: Seq<i32>) -> bool {
    &&& s.len() >= 2
    &&& s[0] == p.id.pid
    &&& forall|j: int| 0 <= j < s.len() ==> last_index_of_pid(v, #[trigger] s[j]) >= 0
    &&& forall|j: int| 0 <= j < s.len() ==> v[last_index_of_pid(v, #[trigger] s[j])].uid == p.uid
    &&& forall|j: int| 0 <= j < s.len() ==> !is_root(ws, #[trigger] s[j])
    &&& forall|j: int| 0 <= j < s.len() - 1 ==> s[j + 1] == v[last_index_of_pid(v, #[trigger] s[j])].ppid
    &&& s[s.len() - 1] != p.id.pid
    &&& {
        let n = v[last_index_of_pid(v, s[s.len() - 1])].name@;
        ||| n == "bash"@
        ||| n == "zsh"@
        ||| n == "fish"@
        ||| n == "sh"@
        ||| n == "nu"@
        ||| n == "systemd"@
    }
}

proof fn lemma_walk_stops_at_shell(
    v: Seq<Process>,
    ws: Seq<Window>,
    p: Process,
    s: Seq<i32>,
    j: int,
    visited: Set<i32>,
    fuel: nat,
)
    requires
        shell_chain(v, ws, p, s),
        0 <= j < s.len(),
    ensures
        owner_walk(v, ws, p, s[j], visited, fuel) is None,
    decreases fuel,
{
    if fuel == 0 || visited.contains(s[j]) {
        return;
    }
    let k = last_index_of_pid(v, s[j]);
    assert(k >= 0);
    assert(v[k].uid == p.uid);
    assert(!is_root(ws, s[j]));
    if j == s.len() - 1 {
        assert(is_job_boundary(v[k].name@));
    } else if !(s[j] != p.id.pid && is_job_boundary(v[k].name@)) {
        assert(s[j + 1] == v[k].ppid);
        lemma_walk_stops_at_shell(v, ws, p, s, j + 1, visited.insert(s[j]), (fuel - 1) as nat);
    }
}

proof fn lemma_members_are_attributed(v: Seq<Process>, ws: Seq<Window>, root: i32, k: int, x: i32)
    requires
        members(v, ws, root, k).contains(x),
        k <= v.len(),
    ensures
        exists|i: int| 0 <= i < k && v[i].id.pid == x && owner(v, ws, #[trigger] v[i]) == Some(root),
    decreases k,
{
    if k > 0 {
        let tail = if owner(v, ws, v[k - 1]) == Some(root) { seq![v[k - 1].id.pid] } else { seq![] };
        let m = members(v, ws, root, k - 1);
        assert(members(v, ws, root, k) == m + tail);
        let idx = choose|idx: int| 0 <= idx < (m + tail).len() && (m + tail)[idx] == x;
        if idx < m.len() {
            assert(m[idx] == x);
            lemma_members_are_attributed(v, ws, root, k - 1, x);
        } else {
            assert(owner(v, ws, v[k - 1]) == Some(root));
        }
    }
}

/// Terminal jobs are not part of the terminal's application: a process whose walk up its
/// ancestors meets a shell or session manager (bash, zsh, fish, sh, nu, systemd) above
/// itself before any window process is attributed to no window, so no group holds its PID.
pub proof fn lemma_shell_jobs_are_not_grouped(v: Seq<Process>, ws: Seq<Window>, p: Process, s: Seq<i32>)
    requires
        shell_chain(v, ws, p, s),
    ensures
        owner(v, ws, p) is None,
        (forall|i: int| 0 <= i < v.len() && #[trigger] v[i].id.pid == p.id.pid ==> v[i].uid == p.uid) ==> forall|
            root: i32,
        | !(#[trigger] members(v, ws, root, v.len() as int)).contains(p.id.pid),
{
    lemma_walk_stops_at_shell(v, ws, p, s, 0, Set::empty(), (v.len() + 1) as nat);
    if forall|i: int| 0 <= i < v.len() && #[trigger] v[i].id.pid == p.id.pid ==> v[i].uid == p.uid {
        assert forall|root: i32| !(#[trigger] members(v, ws, root, v.len() as int)).contains(p.id.pid) by {
            if members(v, ws, root, v.len() as int).contains(p.id.pid) {
                lemma_members_are_attributed(v, ws, root, v.len() as int, p.id.pid);
                let i = choose|i: int| 0 <= i < v.len() && v[i].id.pid == p.id.pid && owner(v, ws, #[trigger] v[i])
                    == Some(root);
                let q = v[i];
                assert(shell_chain(v, ws, q, s));
                lemma_walk_stops_at_shell(v, ws, q, s, 0, Set::empty(), (v.len() + 1) as nat);
            }
        }
    }
}

/// Windows own their processes: a window's process belongs to its own window, and a
/// same-user child of a window's process (itself owning no window) belongs to that window.
pub proof fn lemma_window_processes_are_grouped(v: Seq<Process>, ws: Seq<Window>, p: Process)
    requires
        last_index_of_pid(v, p.id.pid) >= 0,
        v[last_index_of_pid(v, p.id.pid)].uid == p.uid,
    ensures
        p.id.pid > 0 && (exists|w: int| 0 <= w < ws.len() && ws[w].pid == p.id.pid) ==> owner(v, ws, p) == Some(
            p.id.pid,
        ),
        ({
            let parent = v[last_index_of_pid(v, p.id.pid)].ppid;
            &&& !(exists|w: int| 0 <= w < ws.len() && ws[w].pid == p.id.pid)
            &&& parent != p.id.pid
            &&& parent > 0
            &&& (exists|w: int| 0 <= w < ws.len() && ws[w].pid == parent)
            &&& last_index_of_pid(v, parent) >= 0
            &&& v[last_index_of_pid(v, parent)].uid == p.uid
        }) ==> owner(v, ws, p) == Some(v[last_index_of_pid(v, p.id.pid)].ppid),
{
    lemma_last_index_of_pid(v, p.id.pid);
    let k = last_index_of_pid(v, p.id.pid);
    let parent = v[k].ppid;
    let fuel = (v.len() + 1) as nat;
    assert(owner(v, ws, p) == owner_walk(v, ws, p, p.id.pid, Set::empty(), fuel));
    if !is_root(ws, p.id.pid) {
        let visited = Set::<i32>::empty().insert(p.id.pid);
        assert(owner_walk(v, ws, p, p.id.pid, Set::empty(), fuel) == owner_walk(v, ws, p, parent, visited, (fuel - 1) as nat));
        if parent != p.id.pid && parent > 0 && (exists|w: int| 0 <= w < ws.len() && ws[w].pid == parent) {
            assert(!visited.contains(parent));
            assert(is_root(ws, parent));
        }
    }
}

/// A compositor window address: `0x` followed by hex digits.
pub open spec fn valid_address(a: Seq<char>) -> bool {
    a.len() >= 2 && a[0] == '0' && a[1] == 'x' && forall|i: int| 2 <= i < a.len() ==> is_hex(a[i])
}

pub fn valid_window_address(address: &str) -> (r: bool)
    ensures
        r == valid_address(address@),
{
    let c = chars_of(address);
    if c.len() < 2 || c[0] != '0' || c[1] != 'x' {
        return false;
    }
    all_hex(&c, 2, c.len())
}

/// A compositor instance signature that cannot leave its runtime directory.
pub open spec fn valid_instance(s: Seq<char>) -> bool {
    !contains_char(s, '/') && !exists|i: int| 0 <= i < s.len() - 1 && #[trigger] dots_at(s, i)
}

/// `s[i..i + 2]` is `..`.
pub open spec fn dots_at(s: Seq<char>, i: int) -> bool {
    s[i] == '.' && s[i + 1] == '.'
}

pub fn valid_instance_signature(instance: &str) -> (r: bool)
    ensures
        r == valid_instance(instance@),
{
    let c = chars_of(instance);
    assert(c@.subrange(0, c@.len() as int) =~= c@);
    if find_char(&c, 0, c.len(), '/') < c.len() {
        return false;
    }
    let mut i: usize = 0;
    while i < c.len()
        invariant
            c@ == instance@,
            i <= c.len(),
            forall|j: int| 0 <= j < i && j < c@.len() - 1 ==> !#[trigger] dots_at(c@, j),
        decreases c.len() - i,
    {
        if i + 1 < c.len() && c[i] == '.' && c[i + 1] == '.' {
            assert(dots_at(instance@, i as int));
            return false;
        }
        i += 1;
    }
    true
}

/// A `#rrggbb` colour.
pub open spec fn valid_color(c: Seq<char>) -> bool {
    c.len() == 7 && c[0] == '#' && forall|i: int| 1 <= i < 7 ==> is_hex(c[i])
}

fn is_color(s: &Vec<char>, lo: usize, hi: usize) -> (r: bool)
    requires
        lo <= hi <= s.len(),
    ensures
        r == valid_color(s@.subrange(lo as int, hi as int)),
{
    if hi - lo != 7 || s[lo] != '#' {
        return false;
    }
    let r = all_hex(s, lo + 1, hi);
    assert(r == forall|i: int| 1 <= i < 7 ==> is_hex(s@.subrange(lo as int, hi as int)[i])) by {
        if r {
            assert forall|i: int| 1 <= i < 7 implies is_hex(s@.subrange(lo as int, hi as int)[i]) by {
                assert(s@.subrange(lo as int, hi as int)[i] == s@[lo + i]);
            }
        } else {
            let j = choose|j: int| lo + 1 <= j < hi && !is_hex(s@[j]);
            assert(s@.subrange(lo as int, hi as int)[j - lo] == s@[j]);
        }
    }
    r
}

pub open spec fn palette_key(k: Seq<char>) -> bool {
    k == "background"@ || k == "foreground"@ || k == "accent"@
}

/// One line of `colors.toml`: `key = "#rrggbb"` for the three palette keys.
pub open spec fn palette_step(m: Map<Seq<char>, Seq<char>>, line: Seq<char>) -> Map<
    Seq<char>,
    Seq<char>,
> {
    if contains_char(line, '=') {
        let i = index_of(line, '=');
        let key = trim(line.take(i));
        let color = trim_char(trim(line.skip(i + 1)), '"');
        if palette_key(key) && valid_color(color) {
            m.insert(key, color)
        } else {
            m
        }
    } else {
        m
    }
}

pub open spec fn palette_fold(ls: Seq<Seq<char>>) -> Map<Seq<char>, Seq<char>>
    decreases ls.len(),
{
    if ls.len() == 0 {
        Map::empty()
    } else {
        palette_step(palette_fold(ls.drop_last()), ls.last())
    }
}

/// The validated palette entries of a `colors.toml` text.
pub open spec fn palette_of(text: Seq<char>) -> Map<Seq<char>, Seq<char>> {
    palette_fold(lines(text))
}

/// The palette entries of a `colors.toml` text.
pub fn palette(text: &str) -> (r: Fields)
    ensures
        r@ == palette_of(text@),
{
    let s = chars_of(text);
    let ls = split_lines(&s);
    let mut m = Fields::new();
    let mut i: usize = 0;
    while i < ls.len()
        invariant
            i <= ls.len(),
            views(ls@) == lines(s@),
            s@ == text@,
            m@ == palette_fold(views(ls@).take(i as int)),
        decreases ls.len() - i,
    {
        let line = &ls[i];
        assert(views(ls@).take(i + 1).drop_last() =~= views(ls@).take(i as int));
        assert(views(ls@).take(i + 1).last() == line@);
        assert(line@.subrange(0, line@.len() as int) =~= line@);
        let e = find_char(line, 0, line.len(), '=');
        if e < line.len() {
            let (ka, kb) = trim_bounds(line, 0, e);
            let (va, vb) = trim_bounds(line, e + 1, line.len());
            let (ca, cb) = trim_char_bounds(line, va, vb, '"');
            assert(line@.take(e as int) =~= line@.subrange(0, e as int));
            assert(line@.skip(e + 1) =~= line@.subrange(e + 1, line@.len() as int));
            let k = crate::text::copy_range(line, ka, kb);
            let known = crate::text::eq_lit(&k, "background") || crate::text::eq_lit(&k, "foreground")
                || crate::text::eq_lit(&k, "accent");
            if known && is_color(line, ca, cb) {
                let c = crate::text::copy_range(line, ca, cb);
                m.insert(string_of(k.as_slice()), string_of(c.as_slice()));
            }
        }
        i += 1;
    }
    assert(views(ls@).take(ls.len() as int) =~= views(ls@));
    m
}

/// The value of a `shell.toml` assignment: a quoted value ends at its closing quote; an
/// unquoted value ends before a `#` comment and is trimmed.
pub open spec fn token_value(v: Seq<char>) -> Seq<char> {
    if v.len() > 0 && v[0] == '"' {
        let u = trim_char_start(v, '"');
        u.take(index_of(u, '"'))
    } else {
        trim(v.take(index_of(v, '#')))
    }
}

/// One line of `shell.toml`: comments are skipped, `[name]` opens a section, and
/// `key = value` records `section.key`.
pub open spec fn shell_step(st: (Seq<char>, Map<Seq<char>, Seq<char>>), line: Seq<char>) -> (
    Seq<char>,
    Map<Seq<char>, Seq<char>>,
) {
    let l = trim(line);
    if l.len() > 0 && l[0] == '#' {
        st
    } else if l.len() >= 2 && l[0] == '[' && l.last() == ']' {
        (l.subrange(1, l.len() - 1), st.1)
    } else if contains_char(l, '=') {
        let i = index_of(l, '=');
        (st.0, st.1.insert(st.0 + seq!['.'] + trim(l.take(i)), token_value(trim(l.skip(i + 1)))))
    } else {
        st
    }
}

pub open spec fn shell_fold(ls: Seq<Seq<char>>) -> (Seq<char>, Map<Seq<char>, Seq<char>>)
    decreases ls.len(),
{
    if ls.len() == 0 {
        (Seq::empty(), Map::empty())
    } else {
        shell_step(shell_fold(ls.drop_last()), ls.last())
    }
}

/// The `section.key` tokens of a `shell.toml` text.
pub open spec fn shell_tokens_of(text: Seq<char>) -> Map<Seq<char>, Seq<char>> {
    shell_fold(lines(text)).1
}

fn shell_line(section: &mut Vec<char>, m: &mut Fields, line: &Vec<char>)
    ensures
        (final(section)@, final(m)@) == shell_step((old(section)@, old(m)@), line@),
{
    assert(line@.subrange(0, line@.len() as int) =~= line@);
    let (a, b) = trim_bounds(line, 0, line.len());
    let ghost l = line@.subrange(a as int, b as int);
    if a < b && line[a] == '#' {
    } else if b - a >= 2 && line[a] == '[' && line[b - 1] == ']' {
        let s = crate::text::copy_range(line, a + 1, b - 1);
        assert(s@ =~= l.subrange(1, l.len() - 1));
        *section = s;
    } else {
        let e = find_char(line, a, b, '=');
        if e < b {
            assert(l.take(e - a) =~= line@.subrange(a as int, e as int));
            assert(l.skip(e - a + 1) =~= line@.subrange(e + 1, b as int));
            let (ka, kb) = trim_bounds(line, a, e);
            let (va, vb) = trim_bounds(line, e + 1, b);
            let ghost v = line@.subrange(va as int, vb as int);
            let mut key: Vec<char> = Vec::new();
            push_range(&mut key, section, 0, section.len());
            key.push('.');
            push_range(&mut key, line, ka, kb);
            assert(section@.subrange(0, section@.len() as int) =~= section@);
            let value = if va < vb && line[va] == '"' {
                let qa = trim_char_start_bound(line, va, vb, '"');
                let qe = find_char(line, qa, vb, '"');
                assert(trim_char_start(v, '"').take(qe - qa) =~= line@.subrange(qa as int, qe as int));
                crate::text::copy_range(line, qa, qe)
            } else {
                let h = find_char(line, va, vb, '#');
                assert(v.take(h - va) =~= line@.subrange(va as int, h as int));
                crate::text::trimmed(line, va, h)
            };
            assert(key@ =~= section@ + seq!['.'] + line@.subrange(ka as int, kb as int));
            m.insert(string_of(key.as_slice()), string_of(value.as_slice()));
        }
    }
}

/// The `section.key` tokens of a `shell.toml` text.
pub fn shell_tokens(text: &str) -> (r: Fields)
    ensures
        r@ == shell_tokens_of(text@),
{
    let s = chars_of(text);
    let ls = split_lines(&s);
    let mut section: Vec<char> = Vec::new();
    let mut m = Fields::new();
    let mut i: usize = 0;
    while i < ls.len()
        invariant
            i <= ls.len(),
            views(ls@) == lines(s@),
            s@ == text@,
            (section@, m@) == shell_fold(views(ls@).take(i as int)),
        decreases ls.len() - i,
    {
        assert(views(ls@).take(i + 1).drop_last() =~= views(ls@).take(i as int));
        assert(views(ls@).take(i + 1).last() == ls@[i as int]@);
        shell_line(&mut section, &mut m, &ls[i]);
        i += 1;
    }
    assert(views(ls@).take(ls.len() as int) =~= views(ls@));
    m
}

/// The theme's palette and shell tokens: `None` unless `colors.toml` sets all three palette
/// keys validly; valid popup colours from `shell.toml` then replace background and foreground.
pub open spec fn theme_of(colors: Seq<char>, shell: Seq<char>) -> Option<
    (Map<Seq<char>, Seq<char>>, Map<Seq<char>, Seq<char>>),
> {
    let p = palette_of(colors);
    if p.dom().len() == 3 {
        let t = shell_tokens_of(shell);
        let p1 = if t.contains_key("popups.background"@) && valid_color(t["popups.background"@]) {
            p.insert("background"@, t["popups.background"@])
        } else {
            p
        };
        let p2 = if t.contains_key("popups.text"@) && valid_color(t["popups.text"@]) {
            p1.insert("foreground"@, t["popups.text"@])
        } else {
            p1
        };
        Some((p2, t))
    } else {
        None
    }
}

/// A colour the theme may use: `#` and six hexadecimal digits.
pub open spec fn hex_colour(c: Seq<char>) -> bool {
    &&& c.len() == 7
    &&& c[0] == '#'
    &&& forall|i: int| 1 <= i < 7 ==> {
        let u = #[trigger] c[i] as u32;
        (0x30 <= u && u <= 0x39) || (0x61 <= u && u <= 0x66) || (0x41 <= u && u <= 0x46)
    }
}

proof fn lemma_palette_fold_colours(ls: Seq<Seq<char>>)
    ensures
        forall|k: Seq<char>| #[trigger] palette_fold(ls).contains_key(k) ==> (k == "background"@ || k == "foreground"@
            || k == "accent"@) && hex_colour(palette_fold(ls)[k]),
    decreases ls.len(),
{
    if ls.len() > 0 {
        lemma_palette_fold_colours(ls.drop_last());
        let m = palette_fold(ls.drop_last());
        let line = ls.last();
        assert(palette_fold(ls) == palette_step(m, line));
        assert forall|k: Seq<char>| #[trigger] palette_fold(ls).contains_key(k) implies (k == "background"@ || k
            == "foreground"@ || k == "accent"@) && hex_colour(palette_fold(ls)[k]) by {
            if contains_char(line, '=') {
                let i = index_of(line, '=');
                let key = trim(line.take(i));
                let color = trim_char(trim(line.skip(i + 1)), '"');
                if palette_key(key) && valid_color(color) && k == key {
                    assert(palette_fold(ls)[k] == color);
                    assert forall|j: int| 1 <= j < 7 implies {
                        let u = #[trigger] color[j] as u32;
                        (0x30 <= u && u <= 0x39) || (0x61 <= u && u <= 0x66) || (0x41 <= u && u <= 0x46)
                    } by {
                        assert(is_hex(color[j]));
                    }
                } else {
                    assert(m.contains_key(k));
                }
            }
        }
    }
}

/// Only well-formed colours reach the theme: its palette names nothing but background,
/// foreground and accent, every one of them `#` and six hexadecimal digits, and a theme is
/// given only when all three are present.
pub proof fn lemma_theme_colours_are_valid(colors: Seq<char>, shell: Seq<char>)
    ensures
        theme_of(colors, shell) matches Some((p, _)) ==> {
            &&& p.contains_key("background"@) && p.contains_key("foreground"@) && p.contains_key("accent"@)
            &&& forall|k: Seq<char>| #[trigger] p.contains_key(k) ==> (k == "background"@ || k == "foreground"@
                || k == "accent"@) && hex_colour(p[k])
        },
{
    let pal = palette_of(colors);
    lemma_palette_fold_colours(lines(colors));
    if pal.dom().len() == 3 {
        reveal_strlit("background");
        reveal_strlit("foreground");
        reveal_strlit("accent");
        let three = set!["background"@, "foreground"@, "accent"@];
        assert(pal.dom().subset_of(three));
        assert(three.len() == 3) by {
            assert("background"@ != "foreground"@ && "background"@ != "accent"@ && "foreground"@ != "accent"@) by {
                assert("background"@[0] != "foreground"@[0]);
                assert("background"@[0] != "accent"@[0]);
                assert("foreground"@[0] != "accent"@[0]);
            }
        }
        vstd::set_lib::lemma_subset_equality(pal.dom(), three);
        assert(pal.dom() =~= three) by {
            if !(pal.dom() =~= three) {
                let x = choose|x: Seq<char>| three.contains(x) && !pal.dom().contains(x);
                vstd::set_lib::lemma_len_subset(pal.dom(), three.remove(x));
            }
        }
    }
}

/// A theme: palette colours and the `section.key` shell tokens.
pub struct Theme {
    pub colors: Fields,
    pub shell: Fields,
}

fn valid_color_string(s: &String) -> (r: bool)
    ensures
        r == valid_color(s@),
{
    let c = chars_of(s.as_str());
    assert(c@.subrange(0, c@.len() as int) =~= c@);
    is_color(&c, 0, c.len())
}

/// The theme that a `colors.toml` and a `shell.toml` text describe.
pub fn theme(colors: &str, shell: &str) -> (r: Option<Theme>)
    ensures
        match (r, theme_of(colors@, shell@)) {
            (Some(t), Some((c, s))) => t.colors@ == c && t.shell@ == s,
            (None, None) => true,
            _ => false,
        },
{
    let mut p = palette(colors);
    if p.len() != 3 {
        return None;
    }
    let t = shell_tokens(shell);
    match t.get("popups.background") {
        Some(c) => if valid_color_string(&c) {
            p.insert("background".to_owned(), c);
        },
        None => {},
    }
    match t.get("popups.text") {
        Some(c) => if valid_color_string(&c) {
            p.insert("foreground".to_owned(), c);
        },
        None => {},
    }
    Some(Theme { colors: p, shell: t })
}


/// A desktop file found in an applications directory: its path, its file name, and its
/// text when it could be read.
pub struct LauncherFile {
    pub path: String,
    pub file_name: String,
    pub text: Option<String>,
}

pub open spec fn file_view(f: LauncherFile) -> (Seq<char>, Seq<char>, Option<Seq<char>>) {
    (
        f.path@,
        f.file_name@,
        match f.text {
            Some(t) => Some(t@),
            None => None,
        },
    )
}

/// A launcher: `(path, name, icon, startup class, desktop-file ID)`.
pub type LauncherView = (Seq<char>, Seq<char>, Seq<char>, Seq<char>, Seq<char>);

pub open spec fn entry_view(e: (String, String, String, String, String)) -> LauncherView {
    (e.0@, e.1@, e.2@, e.3@, e.4@)
}

/// Known desktop launchers, in discovery order.
pub struct Desktop {
    entries: Vec<(String, String, String, String, String)>,
}

impl View for Desktop {
    type V = Seq<LauncherView>;

    closed spec fn view(&self) -> Seq<LauncherView> {
        self.entries@.map_values(|e: (String, String, String, String, String)| entry_view(e))
    }
}

/// `s` with every trailing copy of `suffix` removed (`str::trim_end_matches`).
pub open spec fn strip_suffixes(s: Seq<char>, suffix: Seq<char>) -> Seq<char>
    decreases s.len(),
{
    if suffix.len() > 0 && crate::text::ends_with(s, suffix) {
        strip_suffixes(s.take(s.len() - suffix.len()), suffix)
    } else {
        s
    }
}

/// `Path::extension() == Some("desktop")` for a file name.
pub open spec fn is_desktop_file(name: Seq<char>) -> bool {
    let k = crate::text::last_index_of(name, '.');
    k > 0 && name.skip(k + 1) == "desktop"@
}

/// One file of launcher discovery: the first file of each desktop-file ID decides it;
/// a readable file that is not `Hidden=true` becomes a launcher.
pub open spec fn launcher_step(
    st: (Seq<Seq<char>>, Seq<LauncherView>),
    f: (Seq<char>, Seq<char>, Option<Seq<char>>),
) -> (Seq<Seq<char>>, Seq<LauncherView>) {
    let id = strip_suffixes(f.1, ".desktop"@);
    if !is_desktop_file(f.1) || st.0.contains(id) {
        st
    } else {
        let seen = st.0.push(id);
        match f.2 {
            None => (seen, st.1),
            Some(t) => {
                let fields = crate::desktop_entry::entry_fields(t);
                if fields.contains_key("Hidden"@) && fields["Hidden"@] == "true"@ {
                    (seen, st.1)
                } else {
                    (
                        seen,
                        st.1.push(
                            (
                                f.0,
                                if fields.contains_key("Name"@) {
                                    fields["Name"@]
                                } else {
                                    id
                                },
                                if fields.contains_key("Icon"@) {
                                    fields["Icon"@]
                                } else {
                                    Seq::empty()
                                },
                                if fields.contains_key("StartupWMClass"@) {
                                    fields["StartupWMClass"@]
                                } else {
                                    Seq::empty()
                                },
                                id,
                            ),
                        ),
                    )
                }
            },
        }
    }
}

pub open spec fn launchers_fold(fs: Seq<(Seq<char>, Seq<char>, Option<Seq<char>>)>) -> (
    Seq<Seq<char>>,
    Seq<LauncherView>,
)
    decreases fs.len(),
{
    if fs.len() == 0 {
        (Seq::empty(), Seq::empty())
    } else {
        launcher_step(launchers_fold(fs.drop_last()), fs.last())
    }
}

pub open spec fn launchers_of(files: Seq<LauncherFile>) -> Seq<LauncherView> {
    launchers_fold(files.map_values(|f: LauncherFile| file_view(f))).1
}

fn seen_contains(seen: &Vec<Vec<char>>, id: &Vec<char>) -> (r: bool)
    ensures
        r == views(seen@).contains(id@),
{
    let mut i: usize = 0;
    while i < seen.len()
        invariant
            i <= seen.len(),
            forall|j: int| 0 <= j < i ==> seen@[j]@ != id@,
        decreases seen.len() - i,
    {
        let s = &seen[i];
        assert(s@.subrange(0, s@.len() as int) =~= s@);
        if range_eq(s, 0, s.len(), id) {
            assert(views(seen@)[i as int] == id@);
            return true;
        }
        i += 1;
    }
    assert forall|j: int| 0 <= j < views(seen@).len() implies views(seen@)[j] != id@ by {
        assert(views(seen@)[j] == seen@[j]@);
    }
    false
}

fn field_or(fields: &Fields, key: &str, default: &Vec<char>) -> (r: String)
    ensures
        r@ == if fields@.contains_key(key@) {
            fields@[key@]
        } else {
            default@
        },
{
    match fields.get(key) {
        Some(v) => v,
        None => string_of(default.as_slice()),
    }
}

impl Desktop {
    /// Discovers launchers from desktop files listed in directory order (user data
    /// directory first): the first file of each ID wins; hidden entries are left out.
    pub fn new(files: &[LauncherFile]) -> (r: Desktop)
        ensures
            r@ == launchers_of(files@),
    {
        let suffix = chars_of(".desktop");
        let ext = chars_of("desktop");
        let empty: Vec<char> = Vec::new();
        let mut seen: Vec<Vec<char>> = Vec::new();
        let mut entries: Vec<(String, String, String, String, String)> = Vec::new();
        let ghost fs = files@.map_values(|f: LauncherFile| file_view(f));
        let mut i: usize = 0;
        while i < files.len()
            invariant
                i <= files.len(),
                fs == files@.map_values(|f: LauncherFile| file_view(f)),
                suffix@ == ".desktop"@,
                ext@ == "desktop"@,
                empty@ == Seq::<char>::empty(),
                (views(seen@), entries@.map_values(|e: (String, String, String, String, String)| entry_view(e)))
                    == launchers_fold(fs.take(i as int)),
            decreases files.len() - i,
        {
            assert(fs.take(i + 1).drop_last() =~= fs.take(i as int));
            assert(fs.take(i + 1).last() == file_view(files@[i as int]));
            let f = &files[i];
            let name = chars_of(f.file_name.as_str());
            let mut end = name.len();
            assert(name@.subrange(0, end as int) =~= name@);
            while suffix.len() > 0 && crate::text::range_ends_with(&name, 0, end, &suffix)
                invariant
                    end <= name.len(),
                    suffix@ == ".desktop"@,
                    strip_suffixes(name@, ".desktop"@) == strip_suffixes(name@.subrange(0, end as int), ".desktop"@),
                decreases end,
            {
                assert(name@.subrange(0, end as int).take(end - suffix@.len()) =~= name@.subrange(0, end - suffix.len()));
                end = end - suffix.len();
            }
            let id = crate::text::copy_range(&name, 0, end);
            let dot = crate::text::rfind_char(&name, 0, name.len(), '.');
            let is_desktop = match dot {
                Some(k) => {
                    assert(name@.skip(k + 1) =~= name@.subrange(k + 1, name@.len() as int));
                    k > 0 && range_eq(&name, k + 1, name.len(), &ext)
                },
                None => false,
            };
            if is_desktop && !seen_contains(&seen, &id) {
                let ghost sv = views(seen@);
                let ghost iv = id@;
                match &f.text {
                    None => {
                        seen.push(id);
                        assert(views(seen@) =~= sv.push(iv));
                    },
                    Some(t) => {
                        let fields = crate::desktop_entry::parse(t.as_str());
                        let hidden = match fields.get("Hidden") {
                            Some(v) => {
                                let vc = chars_of(v.as_str());
                                eq_lit(&vc, "true")
                            },
                            None => false,
                        };
                        if !hidden {
                            let e = (
                                f.path.clone(),
                                field_or(&fields, "Name", &id),
                                field_or(&fields, "Icon", &empty),
                                field_or(&fields, "StartupWMClass", &empty),
                                string_of(id.as_slice()),
                            );
                            let ghost ev = entries@.map_values(|e: (String, String, String, String, String)| entry_view(e));
                            entries.push(e);
                            assert(entries@.map_values(|e: (String, String, String, String, String)| entry_view(e)) =~= ev.push(entry_view(e)));
                        }
                        seen.push(id);
                        assert(views(seen@) =~= sv.push(iv));
                    },
                }
            }
            i += 1;
        }
        assert(fs.take(files.len() as int) =~= fs);
        Desktop { entries }
    }

    /// Whether `path` names the same file as a known launcher, comparing paths by their
    /// components as `std::path::Path` does.
    pub fn has_launcher(&self, path: &str) -> (r: bool)
        ensures
            r == exists|i: int| 0 <= i < self@.len() && same_path(self@[i].0, path@),
    {
        let key = path_key_of(path);
        let mut i: usize = 0;
        while i < self.entries.len()
            invariant
                i <= self.entries.len(),
                key@ == path_key(path@),
                forall|j: int| 0 <= j < i ==> !same_path(#[trigger] self.entries@[j].0@, path@),
            decreases self.entries.len() - i,
        {
            let k = path_key_of(self.entries[i].0.as_str());
            assert(k@.subrange(0, k@.len() as int) =~= k@);
            if range_eq(&k, 0, k.len(), &key) {
                assert(self@[i as int] == entry_view(self.entries@[i as int]));
                assert(same_path(self@[i as int].0, path@));
                return true;
            }
            i += 1;
        }
        assert forall|j: int| 0 <= j < self@.len() implies !same_path(self@[j].0, path@) by {
            assert(self@[j] == entry_view(self.entries@[j]));
            assert(!same_path(self.entries@[j].0@, path@));
        }
        false
    }
}

/// The names of `pieces` joined by `/`, leaving out empty pieces and `.`.
pub open spec fn names_joined(pieces: Seq<Seq<char>>) -> Seq<char>
    decreases pieces.len(),
{
    if pieces.len() == 0 {
        seq![]
    } else {
        let rest = names_joined(pieces.drop_last());
        let n = pieces.last();
        if n.len() == 0 || n == seq!['.'] {
            rest
        } else if rest.len() == 0 {
            n
        } else {
            rest + seq!['/'] + n
        }
    }
}

/// A path's components written out once each: a root or a leading `.` first, then the
/// names; repeated separators, a trailing separator and inner `.` components fall away,
/// as `std::path::Path::components` reads them.
pub open spec fn path_key(p: Seq<char>) -> Seq<char> {
    let pieces = split_char(p, '/');
    (if p.len() > 0 && p[0] == '/' {
        seq!['/']
    } else if pieces[0] == seq!['.'] {
        seq!['.', '/']
    } else {
        seq![]
    }) + names_joined(pieces)
}

/// Whether two paths have the same components (`Path`'s `==`).
pub open spec fn same_path(a: Seq<char>, b: Seq<char>) -> bool {
    path_key(a) == path_key(b)
}

/// The components of `path`, written out as `path_key` gives them.
fn path_key_of(path: &str) -> (r: Vec<char>)
    ensures
        r@ == path_key(path@),
{
    let c = chars_of(path);
    assert(c@.subrange(0, c@.len() as int) =~= c@);
    let pieces = crate::text::split_on(&c, 0, c.len(), '/');
    let ghost ps = views(pieces@);
    assert(ps == split_char(path@, '/'));
    assert(ps.len() >= 1) by {
        reveal_with_fuel(split_char, 1);
    }
    let mut out: Vec<char> = Vec::new();
    if c.len() > 0 && c[0] == '/' {
        out.push('/');
    } else if pieces[0].len() == 1 && pieces[0][0] == '.' {
        assert(ps[0] =~= seq!['.']);
        out.push('.');
        out.push('/');
    } else {
        assert(ps[0] != seq!['.']) by {
            if ps[0] == seq!['.'] {
                assert(pieces@[0]@ == ps[0]);
            }
        }
    }
    let ghost head = out@;
    let start = out.len();
    let mut i: usize = 0;
    while i < pieces.len()
        invariant
            i <= pieces.len(),
            start == head.len(),
            ps == views(pieces@),
            out@ == head + names_joined(ps.take(i as int)),
        decreases pieces.len() - i,
    {
        let ghost before = out@;
        assert(ps.take(i + 1).drop_last() =~= ps.take(i as int));
        assert(ps.take(i + 1).last() == pieces@[i as int]@);
        let n = &pieces[i];
        let skip = n.len() == 0 || (n.len() == 1 && n[0] == '.');
        proof {
            if n@ == seq!['.'] {
                assert(n.len() == 1 && n@[0] == '.');
            }
            if n.len() == 1 && n@[0] == '.' {
                assert(n@ =~= seq!['.']);
            }
        }
        if !skip {
            if out.len() > start {
                out.push('/');
            }
            assert(n@.subrange(0, n@.len() as int) =~= n@);
            push_range(&mut out, n, 0, n.len());
        }
        i += 1;
        assert(out@ =~= head + names_joined(ps.take(i as int)));
    }
    assert(ps.take(pieces.len() as int) =~= ps);
    out
}

/// Indices of the windows among the first `k` that belong to process `pid`.
pub open spec fn window_indices(ws: Seq<Window>, pid: i32, k: int) -> Seq<int>
    decreases k,
{
    if k <= 0 {
        seq![]
    } else {
        window_indices(ws, pid, k - 1) + if ws[k - 1].pid == pid {
            seq![k - 1]
        } else {
            seq![]
        }
    }
}

/// The class an application is known by: its first window's class, else its process name.
pub open spec fn app_class(v: Seq<Process>, ws: Seq<Window>, root: i32) -> Seq<char> {
    let w = window_indices(ws, root, ws.len() as int);
    if w.len() > 0 {
        ws[w[0]].class@
    } else {
        v[last_index_of_pid(v, root)].name@
    }
}

/// Whether launcher `e` is the one for `class` (ID or startup class, ignoring ASCII case).
pub open spec fn launcher_for(e: LauncherView, class: Seq<char>) -> bool {
    crate::text::eq_ignore_ascii_case(e.4, class) || (e.3.len() > 0
        && crate::text::eq_ignore_ascii_case(e.3, class))
}

/// Index of the first launcher among the first `k` that is for `class`, or -1.
pub open spec fn launcher_index(ls: Seq<LauncherView>, class: Seq<char>, k: int) -> int
    decreases k,
{
    if k <= 0 {
        -1
    } else if launcher_index(ls, class, k - 1) >= 0 {
        launcher_index(ls, class, k - 1)
    } else if launcher_for(ls[k - 1], class) {
        k - 1
    } else {
        -1
    }
}

/// The records of an application's member processes.
pub open spec fn app_members(v: Seq<Process>, ws: Seq<Window>, root: i32) -> Seq<Process> {
    members(v, ws, root, v.len() as int).map_values(|pid: i32| v[last_index_of_pid(v, pid)])
}

pub open spec fn memory_total(ps: Seq<Process>) -> nat
    decreases ps.len(),
{
    if ps.len() == 0 {
        0
    } else {
        memory_total(ps.drop_last()) + ps.last().memory as nat
    }
}

/// An application: the processes attributed to one window process.
pub struct App {
    /// The window process.
    pub root: i32,
    /// Its start time; with `root` it forms the application's key.
    pub start: u64,
    pub name: String,
    pub desktop_file: Option<String>,
    pub icon: String,
    /// Summed resident memory of the members (the sum wraps as `u64` addition does).
    pub memory: u64,
    pub targets: Vec<Identity>,
    /// Indices of the application's windows in the window list.
    pub windows: Vec<usize>,
    pub protected: bool,
    pub uid: u32,
}

/// Whether `a` is the application row for `root`.
pub open spec fn app_row(
    a: App,
    ls: Seq<LauncherView>,
    v: Seq<Process>,
    ws: Seq<Window>,
    root: i32,
) -> bool {
    let class = app_class(v, ws, root);
    let m = launcher_index(ls, class, ls.len() as int);
    let ms = app_members(v, ws, root);
    &&& a.root == root
    &&& a.start == v[last_index_of_pid(v, root)].id.start
    &&& a.uid == v[last_index_of_pid(v, root)].uid
    &&& a.name@ == if m >= 0 {
        ls[m].1
    } else {
        class
    }
    &&& match a.desktop_file {
        Some(f) => m >= 0 && f@ == ls[m].0,
        None => m < 0,
    }
    &&& a.icon@ == icon_for(
        class,
        if m >= 0 {
            Some(ls[m].2)
        } else {
            None
        },
    )
    &&& a.memory == (memory_total(ms) % 0x1_0000_0000_0000_0000nat) as u64
    &&& a.targets@ == ms.map_values(|p: Process| p.id)
    &&& a.windows@.map_values(|i: usize| i as int) == window_indices(ws, root, ws.len() as int)
    &&& a.protected == exists|i: int| 0 <= i < ms.len() && ms[i].protected
}


proof fn lemma_launcher_index_stable(ls: Seq<LauncherView>, class: Seq<char>, j: int, k: int)
    requires
        0 <= j <= k,
        launcher_index(ls, class, j) >= 0,
    ensures
        launcher_index(ls, class, k) == launcher_index(ls, class, j),
    decreases k,
{
    if k > j {
        lemma_launcher_index_stable(ls, class, j, k - 1);
    }
}

proof fn lemma_members_known(v: Seq<Process>, ws: Seq<Window>, root: i32, k: int, j: int)
    requires
        0 <= k <= v.len(),
        0 <= j < members(v, ws, root, k).len(),
    ensures
        last_index_of_pid(v, members(v, ws, root, k)[j]) >= 0,
    decreases k,
{
    let m = members(v, ws, root, k - 1);
    if j < m.len() {
        lemma_members_known(v, ws, root, k - 1, j);
    } else {
        let pid = v[k - 1].id.pid;
        assert(members(v, ws, root, k)[j] == pid);
        lemma_last_index_of_pid(v, pid);
    }
}

/// Every attributed root has a process record.
proof fn lemma_root_known(v: Seq<Process>, ws: Seq<Window>, root: i32)
    requires
        members(v, ws, root, v.len() as int).len() > 0,
    ensures
        last_index_of_pid(v, root) >= 0,
        is_root(ws, root),
{
    lemma_root_known_upto(v, ws, root, v.len() as int);
}

proof fn lemma_root_known_upto(v: Seq<Process>, ws: Seq<Window>, root: i32, k: int)
    requires
        0 <= k <= v.len(),
        members(v, ws, root, k).len() > 0,
    ensures
        last_index_of_pid(v, root) >= 0,
        is_root(ws, root),
    decreases k,
{
    if members(v, ws, root, k - 1).len() > 0 {
        lemma_root_known_upto(v, ws, root, k - 1);
    } else {
        assert(owner(v, ws, v[k - 1]) == Some(root));
        lemma_owner_is_own_window(v, ws, v[k - 1]);
    }
}

impl Desktop {
    fn launcher_match(&self, class: &String) -> (r: Option<usize>)
        ensures
            match r {
                Some(m) => m < self@.len() && m as int == launcher_index(self@, class@, self@.len() as int),
                None => launcher_index(self@, class@, self@.len() as int) < 0,
            },
    {
        let mut i: usize = 0;
        while i < self.entries.len()
            invariant
                i <= self.entries.len(),
                self@.len() == self.entries.len(),
                launcher_index(self@, class@, i as int) < 0,
            decreases self.entries.len() - i,
        {
            let e = &self.entries[i];
            assert(self@[i as int] == entry_view(*e));
            let hit = crate::text::eq_ignore_case(e.4.as_str(), class.as_str()) || (!e.3.as_str().is_empty()
                && crate::text::eq_ignore_case(e.3.as_str(), class.as_str()));
            if hit {
                proof {
                    lemma_launcher_index_stable(self@, class@, i + 1, self@.len() as int);
                }
                return Some(i);
            }
            i += 1;
        }
        None
    }

    fn app_for(
        &self,
        v: &[Process],
        windows: &[Window],
        by_pid: &HashMap<i32, usize>,
        member_pids: &Vec<i32>,
        root: i32,
    ) -> (a: App)
        requires
            forall|x: i32| #[trigger] by_pid@.contains_key(x) == (last_index_of_pid(v@, x) >= 0),
            forall|x: i32| by_pid@.contains_key(x) ==> #[trigger] by_pid@[x] == last_index_of_pid(v@, x),
            member_pids@ == members(v@, windows@, root, v@.len() as int),
            member_pids@.len() > 0,
        ensures
            app_row(a, self@, v@, windows@, root),
    {
        proof {
            lemma_root_known(v@, windows@, root);
        }
        let rk = *by_pid.get(&root).unwrap();
        proof {
            lemma_last_index_of_pid(v@, root);
        }
        let rec = &v[rk];
        let mut wins: Vec<usize> = Vec::new();
        let mut wi: usize = 0;
        while wi < windows.len()
            invariant
                wi <= windows.len(),
                wins@.map_values(|i: usize| i as int) == window_indices(windows@, root, wi as int),
                forall|j: int| 0 <= j < wins@.len() ==> wins@[j] < windows.len(),
            decreases windows.len() - wi,
        {
            if windows[wi].pid == root {
                wins.push(wi);
            }
            wi += 1;
            assert(wins@.map_values(|i: usize| i as int) =~= window_indices(windows@, root, wi as int));
        }
        let class = if wins.len() > 0 {
            assert(wins@.map_values(|i: usize| i as int)[0] == wins@[0] as int);
            windows[wins[0]].class.clone()
        } else {
            rec.name.clone()
        };
        let m = self.launcher_match(&class);
        let class_icon = match m {
            Some(m) => application_icon(class.as_str(), Some(self.entries[m].2.as_str())),
            None => application_icon(class.as_str(), None),
        };
        proof {
            match m {
                Some(mm) => {
                    assert(self@[mm as int] == entry_view(self.entries@[mm as int]));
                },
                None => {},
            }
        }
        let ghost ms = app_members(v@, windows@, root);
        let mut targets: Vec<Identity> = Vec::new();
        let mut memory: u64 = 0;
        let mut protected = false;
        let mut j: usize = 0;
        while j < member_pids.len()
            invariant
                j <= member_pids.len(),
                forall|x: i32| #[trigger] by_pid@.contains_key(x) == (last_index_of_pid(v@, x) >= 0),
                forall|x: i32| by_pid@.contains_key(x) ==> #[trigger] by_pid@[x] == last_index_of_pid(v@, x),
                member_pids@ == members(v@, windows@, root, v@.len() as int),
                ms == app_members(v@, windows@, root),
                targets@ == ms.take(j as int).map_values(|p: Process| p.id),
                memory == (memory_total(ms.take(j as int)) % 0x1_0000_0000_0000_0000nat) as u64,
                protected == exists|i: int| 0 <= i < j && ms[i].protected,
            decreases member_pids.len() - j,
        {
            proof {
                lemma_members_known(v@, windows@, root, v@.len() as int, j as int);
            }
            let k = *by_pid.get(&member_pids[j]).unwrap();
            proof {
                lemma_last_index_of_pid(v@, member_pids@[j as int]);
                assert(ms[j as int] == v@[k as int]);
                assert(ms.take(j + 1).drop_last() =~= ms.take(j as int));
                lemma_wrapping_sum(memory_total(ms.take(j as int)), v@[k as int].memory);
            }
            let p = &v[k];
            targets.push(p.id);
            memory = memory.wrapping_add(p.memory);
            protected = protected || p.protected;
            j += 1;
            assert(targets@ =~= ms.take(j as int).map_values(|p: Process| p.id));
        }
        assert(ms.take(j as int) =~= ms);
        let (name, desktop_file) = match m {
            Some(m) => (self.entries[m].1.clone(), Some(self.entries[m].0.clone())),
            None => (class.clone(), None),
        };
        App {
            root,
            start: rec.id.start,
            name,
            desktop_file,
            icon: class_icon.to_owned(),
            memory,
            targets,
            windows: wins,
            protected,
            uid: rec.uid,
        }
    }
}


impl Desktop {
    /// The applications: one per window process that has attributed processes, in
    /// ascending order of that process's PID.
    pub fn apps(&self, processes: &[Process], windows: &[Window]) -> (r: Vec<App>)
        ensures
            forall|i: int, j: int| 0 <= i < j < r@.len() ==> r@[i].root < r@[j].root,
            forall|root: i32| (exists|i: int| 0 <= i < r@.len() && r@[i].root == root) <==> members(
                processes@,
                windows@,
                root,
                processes@.len() as int,
            ).len() > 0,
            forall|i: int| 0 <= i < r@.len() ==> app_row(#[trigger] r@[i], self@, processes@, windows@, r@[i].root),
    {
        let groups = group(processes, windows);
        let by_pid = index_by_pid(processes);
        let ghost n = processes@.len() as int;
        let mut out: Vec<App> = Vec::new();
        let mut prev: i64 = -0x1_0000_0000;
        loop
            invariant
                n == processes@.len(),
                -0x1_0000_0000 <= prev <= i32::MAX,
                forall|x: i32| #[trigger] by_pid@.contains_key(x) == (last_index_of_pid(processes@, x) >= 0),
                forall|x: i32| by_pid@.contains_key(x) ==> #[trigger] by_pid@[x] == last_index_of_pid(processes@, x),
                forall|root: i32| #[trigger] groups@.contains_key(root) == (members(processes@, windows@, root, n).len() > 0),
                forall|root: i32| groups@.contains_key(root) ==> #[trigger] groups@[root]@ == members(processes@, windows@, root, n),
                forall|i: int, j: int| 0 <= i < j < out@.len() ==> out@[i].root < out@[j].root,
                forall|i: int| 0 <= i < out@.len() ==> out@[i].root <= prev,
                forall|root: i32| (exists|i: int| 0 <= i < out@.len() && out@[i].root == root) <==> (members(processes@, windows@, root, n).len() > 0 && root <= prev),
                forall|i: int| 0 <= i < out@.len() ==> app_row(#[trigger] out@[i], self@, processes@, windows@, out@[i].root),
            ensures
                forall|i: int, j: int| 0 <= i < j < out@.len() ==> out@[i].root < out@[j].root,
                forall|root: i32| (exists|i: int| 0 <= i < out@.len() && out@[i].root == root) <==> members(processes@, windows@, root, n).len() > 0,
                forall|i: int| 0 <= i < out@.len() ==> app_row(#[trigger] out@[i], self@, processes@, windows@, out@[i].root),
            decreases 0x8000_0000 - prev,
        {
            let mut best: Option<i32> = None;
            let mut wi: usize = 0;
            while wi < windows.len()
                invariant
                    wi <= windows.len(),
                    forall|root: i32| #[trigger] groups@.contains_key(root) == (members(processes@, windows@, root, n).len() > 0),
                    match best {
                        Some(b) => b > prev && groups@.contains_key(b) && forall|w: int| 0 <= w < wi && windows@[w].pid > prev && groups@.contains_key(windows@[w].pid) ==> b <= windows@[w].pid,
                        None => forall|w: int| 0 <= w < wi ==> !(windows@[w].pid > prev && groups@.contains_key(windows@[w].pid)),
                    },
                decreases windows.len() - wi,
            {
                let pid = windows[wi].pid;
                if (pid as i64) > prev && groups.contains_key(&pid) {
                    best = match best {
                        Some(b) => if pid < b { Some(pid) } else { Some(b) },
                        None => Some(pid),
                    };
                }
                wi += 1;
            }
            match best {
                None => {
                    proof {
                        assert forall|root: i32| members(processes@, windows@, root, n).len() > 0 implies root <= prev by {
                            lemma_root_known(processes@, windows@, root);
                            let w = choose|w: int| 0 <= w < windows@.len() && windows@[w].pid == root;
                            assert(groups@.contains_key(windows@[w].pid));
                        }
                    }
                    break;
                },
                Some(c) => {
                    let members_c = groups.get(&c).unwrap();
                    let a = self.app_for(processes, windows, &by_pid, members_c, c);
                    let ghost old_out = out@;
                    out.push(a);
                    proof {
                        assert forall|root: i32| (members(processes@, windows@, root, n).len() > 0 && root <= c) implies (exists|i: int| 0 <= i < out@.len() && out@[i].root == root) by {
                            if members(processes@, windows@, root, n).len() > 0 && root <= c {
                                if root <= prev {
                                    let i = choose|i: int| 0 <= i < old_out.len() && old_out[i].root == root;
                                    assert(out@[i] == old_out[i]);
                                } else {
                                    lemma_root_known(processes@, windows@, root);
                                    let w = choose|w: int| 0 <= w < windows@.len() && windows@[w].pid == root;
                                    assert(groups@.contains_key(windows@[w].pid));
                                    assert(c <= root);
                                    assert(out@[old_out.len() as int].root == root);
                                }
                            }
                        }
                        assert forall|root: i32| (exists|i: int| 0 <= i < out@.len() && out@[i].root == root) implies (members(processes@, windows@, root, n).len() > 0 && root <= c) by {
                            if exists|i: int| 0 <= i < out@.len() && out@[i].root == root {
                                let i = choose|i: int| 0 <= i < out@.len() && out@[i].root == root;
                                if i < old_out.len() {
                                    assert(old_out[i].root == root);
                                }
                            }
                        }
                        assert forall|i: int| 0 <= i < out@.len() implies app_row(#[trigger] out@[i], self@, processes@, windows@, out@[i].root) by {
                            if i < old_out.len() {
                                assert(out@[i] == old_out[i]);
                            }
                        }
                    }
                    prev = c as i64;
                },
            }
        }
        out
    }
}

impl Desktop {
    /// Checks a restart request before anything is signalled: it names one to 4096
    /// processes and a known launcher.
    pub fn restart_check(&self, targets: usize, path: &str) -> (r: Result<(), String>)
        ensures
            match r {
                Ok(()) => 0 < targets <= 4096 && exists|i: int| 0 <= i < self@.len() && same_path(self@[i].0, path@),
                Err(e) => !(0 < targets <= 4096 && exists|i: int| 0 <= i < self@.len() && same_path(self@[i].0, path@))
                    && e@ == "Application launcher unavailable"@,
            },
    {
        if targets == 0 || targets > 4096 || !self.has_launcher(path) {
            return Err("Application launcher unavailable".to_owned());
        }
        Ok(())
    }
}

/// The compositor command that focuses or closes the window at `address`.
pub fn window_command(address: &str, close: bool) -> (r: Result<String, String>)
    ensures
        match r {
            Ok(c) => valid_address(address@) && c@ == (if close {
                "/dispatch closewindow address:"@
            } else {
                "/dispatch focuswindow address:"@
            }) + address@,
            Err(e) => !valid_address(address@) && e@ == "Invalid window identity"@,
        },
{
    if !valid_window_address(address) {
        return Err("Invalid window identity".to_owned());
    }
    let mut c = if close {
        "/dispatch closewindow address:".to_owned()
    } else {
        "/dispatch focuswindow address:".to_owned()
    };
    c.append(address);
    Ok(c)
}

/// Whether the compositor still shows a window at `address` owned by `pid`.
pub fn window_present(windows: &[Window], address: &str, pid: i32) -> (r: bool)
    ensures
        r == exists|i: int| 0 <= i < windows@.len() && windows@[i].address@ == address@ && windows@[i].pid == pid,
{
    let a = chars_of(address);
    assert(a@.subrange(0, a@.len() as int) =~= a@);
    let mut i: usize = 0;
    while i < windows.len()
        invariant
            i <= windows.len(),
            a@ == address@,
            forall|j: int| 0 <= j < i ==> !(windows@[j].address@ == address@ && windows@[j].pid == pid),
        decreases windows.len() - i,
    {
        let w = chars_of(windows[i].address.as_str());
        assert(w@.subrange(0, w@.len() as int) =~= w@);
        if windows[i].pid == pid && range_eq(&w, 0, w.len(), &a) {
            return true;
        }
        i += 1;
    }
    false
}

/// Whether a compositor reply reports success: `ok` once trimmed.
pub fn dispatched(reply: &str) -> (r: bool)
    ensures
        r == (trim(reply@) == "ok"@),
{
    let c = chars_of(reply);
    let (a, b) = trim_bounds(&c, 0, c.len());
    assert(c@.subrange(0, c@.len() as int) =~= c@);
    let t = crate::text::copy_range(&c, a, b);
    eq_lit(&t, "ok")
}

/// The outcome of a window request from the compositor's reply.
pub fn window_outcome(reply: &str, close: bool) -> (r: Result<String, String>)
    ensures
        match r {
            Ok(m) => trim(reply@) == "ok"@ && m@ == if close { "Close requested"@ } else { "Window focused"@ },
            Err(e) => trim(reply@) != "ok"@ && e@ == reply@,
        },
{
    if dispatched(reply) {
        Ok(if close {
            "Close requested".to_owned()
        } else {
            "Window focused".to_owned()
        })
    } else {
        Err(reply.to_owned())
    }
}


/// The window class under which the Task Manager maps its window.
pub open spec fn panel_class() -> Seq<char> {
    "io.github.tcballard.TaskManager"@
}

/// A window of the Task Manager's own GUI: the worker's parent process, with its class.
pub open spec fn is_panel(w: Window, ppid: i32) -> bool {
    w.pid == ppid && w.class@ == panel_class()
}

/// Whether `i` is the first window that `is_panel` picks out.
pub open spec fn first_panel(ws: Seq<Window>, ppid: i32, i: int) -> bool {
    &&& 0 <= i < ws.len()
    &&& is_panel(ws[i], ppid)
    &&& forall|j: int| 0 <= j < i ==> !is_panel(#[trigger] ws[j], ppid)
}

/// The compositor selector of the worker's own parent window: only that window is ever
/// floated, sized or moved.
pub fn panel_window(windows: &[Window], ppid: i32) -> (r: Result<String, String>)
    ensures
        r is Ok <==> exists|i: int| first_panel(windows@, ppid, i) && valid_address(windows@[i].address@),
        forall|i: int| first_panel(windows@, ppid, i) ==> match r {
            Ok(s) => s@ == "address:"@ + windows@[i].address@,
            Err(e) => !valid_address(windows@[i].address@) && e@ == "Invalid window address"@,
        },
        (forall|i: int| 0 <= i < windows@.len() ==> !is_panel(#[trigger] windows@[i], ppid)) ==> (r matches Err(e)
            && e@ == "Task Manager window is not mapped yet"@),
{
    let mut i: usize = 0;
    while i < windows.len()
        invariant
            i <= windows.len(),
            forall|j: int| 0 <= j < i ==> !is_panel(#[trigger] windows@[j], ppid),
        decreases windows.len() - i,
    {
        let class = chars_of(windows[i].class.as_str());
        if windows[i].pid == ppid && eq_lit(&class, "io.github.tcballard.TaskManager") {
            assert(first_panel(windows@, ppid, i as int));
            if !valid_window_address(windows[i].address.as_str()) {
                return Err("Invalid window address".to_owned());
            }
            let mut s = "address:".to_owned();
            s.append(windows[i].address.as_str());
            return Ok(s);
        }
        i += 1;
    }
    Err("Task Manager window is not mapped yet".to_owned())
}

/// The request that floats the window named by `selector`, in the Lua dispatcher's form
/// or in the classic one.
pub open spec fn float_request(selector: Seq<char>, lua: bool) -> Seq<char> {
    if lua {
        "/dispatch hl.dsp.window.float({ window = \""@ + selector + "\", action = \"set\" })"@
    } else {
        "/dispatch setfloating "@ + selector
    }
}

pub fn panel_float(selector: &str, lua: bool) -> (r: String)
    ensures
        r@ == float_request(selector@, lua),
{
    if lua {
        let mut c = "/dispatch hl.dsp.window.float({ window = \"".to_owned();
        c.append(selector);
        c.append("\", action = \"set\" })");
        c
    } else {
        let mut c = "/dispatch setfloating ".to_owned();
        c.append(selector);
        c
    }
}

/// The request that sizes the window named by `selector` to `w` by `h`.
pub open spec fn resize_request(selector: Seq<char>, lua: bool, w: int, h: int) -> Seq<char> {
    if lua {
        "/dispatch hl.dsp.window.resize({ window = \""@ + selector + "\", x = "@ + int_str(w) + ", y = "@
            + int_str(h) + " })"@
    } else {
        "/dispatch resizewindowpixel exact "@ + int_str(w) + " "@ + int_str(h) + ","@ + selector
    }
}

/// The request that moves the window named by `selector` to `(x, y)`.
pub open spec fn move_request(selector: Seq<char>, lua: bool, x: int, y: int) -> Seq<char> {
    if lua {
        "/dispatch hl.dsp.window.move({ window = \""@ + selector + "\", x = "@ + int_str(x) + ", y = "@
            + int_str(y) + " })"@
    } else {
        "/dispatch movewindowpixel exact "@ + int_str(x) + " "@ + int_str(y) + ","@ + selector
    }
}

/// The two requests that size and then place the panel window, each naming `selector`.
pub fn panel_commands(selector: &str, lua: bool, w: i64, h: i64, x: i64, y: i64) -> (r: Vec<String>)
    ensures
        r@.len() == 2,
        r@[0]@ == resize_request(selector@, lua, w as int, h as int),
        r@[1]@ == move_request(selector@, lua, x as int, y as int),
{
    let ws = signed_decimal(w);
    let hs = signed_decimal(h);
    let xs = signed_decimal(x);
    let ys = signed_decimal(y);
    let (resize, place) = if lua {
        let mut a = "/dispatch hl.dsp.window.resize({ window = \"".to_owned();
        a.append(selector);
        a.append("\", x = ");
        a.append(ws.as_str());
        a.append(", y = ");
        a.append(hs.as_str());
        a.append(" })");
        let mut b = "/dispatch hl.dsp.window.move({ window = \"".to_owned();
        b.append(selector);
        b.append("\", x = ");
        b.append(xs.as_str());
        b.append(", y = ");
        b.append(ys.as_str());
        b.append(" })");
        (a, b)
    } else {
        let mut a = "/dispatch resizewindowpixel exact ".to_owned();
        a.append(ws.as_str());
        a.append(" ");
        a.append(hs.as_str());
        a.append(",");
        a.append(selector);
        let mut b = "/dispatch movewindowpixel exact ".to_owned();
        b.append(xs.as_str());
        b.append(" ");
        b.append(ys.as_str());
        b.append(",");
        b.append(selector);
        (a, b)
    };
    let mut r: Vec<String> = Vec::new();
    r.push(resize);
    r.push(place);
    r
}


/// Whether a target, read again from procfs (`None` once gone), is still that process and
/// still running: neither replaced under its PID nor a zombie.
pub fn still_running(reread: &Option<Process>, id: &Identity) -> (r: bool)
    ensures
        r == (reread matches Some(p) && p.id == *id && p.state@ != "Z"@),
{
    match reread {
        Some(p) => {
            let st = chars_of(p.state.as_str());
            p.id == *id && !eq_lit(&st, "Z")
        },
        None => false,
    }
}

/// A member whose signal failed stops the restart while it still runs; one that has
/// already gone (reaped while its group closed) does not.
pub fn partially_closed(error: &str, running: bool) -> (r: Result<(), String>)
    ensures
        match r {
            Ok(()) => !running,
            Err(e) => running && e@ == "Application partially closed: "@ + error@,
        },
{
    if running {
        let mut e = "Application partially closed: ".to_owned();
        e.append(error);
        Err(e)
    } else {
        Ok(())
    }
}

/// How long a restart waits for its targets to exit before giving up (ms).
pub const RESTART_WAIT_MS: u64 = 3000;

/// What a restart does while its targets close.
pub enum RestartStep {
    /// Every target has exited: launch the application.
    Launch,
    /// Some target still runs: look again shortly.
    Wait,
    /// Some target still runs after the wait: give up, without killing anything.
    Fail(String),
}

/// The next step of a restart, from which targets still run and the time since they
/// were signalled.
pub fn restart_step(running: &[bool], elapsed_ms: u64) -> (r: RestartStep)
    ensures
        match r {
            RestartStep::Launch => forall|i: int| 0 <= i < running@.len() ==> !running@[i],
            RestartStep::Wait => (exists|i: int| 0 <= i < running@.len() && running@[i]) && elapsed_ms
                < RESTART_WAIT_MS,
            RestartStep::Fail(e) => (exists|i: int| 0 <= i < running@.len() && running@[i]) && elapsed_ms
                >= RESTART_WAIT_MS && e@
                == "Application is still closing. Resolve any save prompts, then launch it again."@,
        },
{
    let mut i: usize = 0;
    while i < running.len()
        invariant
            i <= running.len(),
            forall|j: int| 0 <= j < i ==> !running@[j],
        decreases running.len() - i,
    {
        if running[i] {
            if elapsed_ms >= RESTART_WAIT_MS {
                return RestartStep::Fail(
                    "Application is still closing. Resolve any save prompts, then launch it again.".to_owned(),
                );
            }
            return RestartStep::Wait;
        }
        i += 1;
    }
    RestartStep::Launch
}

/// The reply once the desktop launcher has run.
pub fn launch_outcome(success: bool) -> (r: Result<String, String>)
    ensures
        match r {
            Ok(m) => success && m@ == "Application restart requested"@,
            Err(e) => !success && e@ == "Application closed, but its desktop launcher failed"@,
        },
{
    if success {
        Ok("Application restart requested".to_owned())
    } else {
        Err("Application closed, but its desktop launcher failed".to_owned())
    }
}

} // verus!
