//! Service, startup-entry and session management rules: which requests are valid, which
//! commands they become, and how desktop-entry overrides are written. No shell evaluation.
use vstd::prelude::*;
use crate::desktop_entry::{entry_fields, entry_fold, entry_step, Fields};
use crate::process::Identity;
use crate::text::{
    chars_of, contains_char, dec_str, decimal, eq_ignore_ascii_case, eq_ignore_case, eq_lit,
    ends_with, find_char, index_of, lines, push_range, range_ends_with, split_char, split_lines,
    split_on, string_of, trim, trim_bounds, views,
};

verus! {

pub open spec fn unit_char(c: char) -> bool {
    let u = c as u32;
    (0x30 <= u <= 0x39) || (0x41 <= u <= 0x5a) || (0x61 <= u <= 0x7a) || c == '-' || c == '_'
        || c == '.' || c == '@' || c == ':' || c == '\\'
}

/// A systemd service name that cannot be read as an option or a path.
pub open spec fn is_valid_unit(s: Seq<char>) -> bool {
    &&& ends_with(s, ".service"@)
    &&& s.len() <= 255
    &&& !(s.len() > 0 && s[0] == '-')
    &&& forall|i: int| 0 <= i < s.len() ==> unit_char(s[i])
}

pub fn valid_unit(s: &str) -> (r: bool)
    ensures
        r == is_valid_unit(s@),
{
    let c = chars_of(s);
    let suffix = chars_of(".service");
    assert(c@.subrange(0, c@.len() as int) =~= c@);
    if !range_ends_with(&c, 0, c.len(), &suffix) || c.len() > 255 || (c.len() > 0 && c[0] == '-') {
        return false;
    }
    let mut i: usize = 0;
    while i < c.len()
        invariant
            i <= c.len(),
            c@ == s@,
            forall|j: int| 0 <= j < i ==> unit_char(c@[j]),
        decreases c.len() - i,
    {
        let ch = c[i];
        let u = ch as u32;
        let ok = (0x30 <= u && u <= 0x39) || (0x41 <= u && u <= 0x5a) || (0x61 <= u && u <= 0x7a)
            || ch == '-' || ch == '_' || ch == '.' || ch == '@' || ch == ':' || ch == '\\';
        if !ok {
            return false;
        }
        i += 1;
    }
    true
}

/// A command to run without a shell: a fixed executable and its arguments.
pub struct Invocation {
    pub program: String,
    pub args: Vec<String>,
}

pub open spec fn args_view(a: Seq<String>) -> Seq<Seq<char>> {
    a.map_values(|s: String| s@)
}

/// A service request: the command to run and, for lifecycle verbs, the message to report
/// after it succeeds (journal requests report the command's output instead).
pub struct ServiceCommand {
    pub command: Invocation,
    pub success: Option<String>,
}

pub open spec fn is_service_verb(v: Seq<char>) -> bool {
    v == "start"@ || v == "stop"@ || v == "restart"@ || v == "enable"@ || v == "disable"@
        || v == "logs"@
}

/// Services that the desktop session depends on; only their journal may be read.
pub open spec fn is_protected_unit(u: Seq<char>) -> bool {
    ||| u == "dbus.service"@
    ||| u == "dbus-broker.service"@
    ||| u == "systemd-logind.service"@
    ||| u == "polkit.service"@
    ||| u == "quickshell.service"@
    ||| u == "hyprland.service"@
    ||| crate::text::starts_with(u, "omarchy"@)
}

pub(crate) fn strings(parts: &[&str]) -> (r: Vec<String>)
    ensures
        args_view(r@) == parts@.map_values(|p: &str| p@),
{
    let mut r: Vec<String> = Vec::new();
    let mut i: usize = 0;
    while i < parts.len()
        invariant
            i <= parts.len(),
            args_view(r@) == parts@.take(i as int).map_values(|p: &str| p@),
        decreases parts.len() - i,
    {
        let s = parts[i].to_owned();
        assert(s@ == parts@[i as int]@);
        let ghost before = args_view(r@);
        r.push(s);
        assert(args_view(r@) =~= before.push(s@));
        i += 1;
        assert(args_view(r@) =~= parts@.take(i as int).map_values(|p: &str| p@));
    }
    assert(parts@.take(parts.len() as int) =~= parts@);
    r
}

/// The arguments of a service request, in order.
pub open spec fn service_args(unit: Seq<char>, verb: Seq<char>, user: bool) -> Seq<Seq<char>> {
    let base = if verb == "logs"@ {
        seq!["--no-pager"@, "--output=short-iso"@, "--lines=80"@, "--unit"@, unit]
    } else {
        seq!["--no-pager"@, "--no-ask-password"@, verb, unit]
    };
    if user {
        seq!["--user"@] + base
    } else {
        base
    }
}

/// The outcome of a service request on unit `unit`, verb `verb` and scope `scope`.
pub open spec fn service_outcome(unit: Seq<char>, verb: Seq<char>, scope: Option<Seq<char>>) -> Result<
    (Seq<char>, Seq<Seq<char>>, Option<Seq<char>>),
    Seq<char>,
> {
    if !is_valid_unit(unit) || !is_service_verb(verb) {
        Err("Invalid service action"@)
    } else if !(scope == Some("user"@) || scope == Some("system"@)) {
        Err("Invalid service scope"@)
    } else if verb == "logs"@ {
        Ok(("/usr/bin/journalctl"@, service_args(unit, verb, scope == Some("user"@)), None))
    } else if is_protected_unit(unit) {
        Err("Desktop/session service is protected"@)
    } else {
        Ok(
            (
                "/usr/bin/systemctl"@,
                service_args(unit, verb, scope == Some("user"@)),
                Some(verb + ": "@ + unit),
            ),
        )
    }
}

/// Lifecycle requests cannot touch the session: start, stop, restart, enable or disable of
/// dbus, dbus-broker, systemd-logind, polkit, quickshell or hyprland (or any `omarchy…`
/// unit) is refused; a name that could be read as an option (leading `-`) or a path (with
/// `/`) is refused as invalid, whatever the verb and scope.
pub proof fn lemma_session_services_are_protected(unit: Seq<char>, verb: Seq<char>, scope: Option<Seq<char>>)
    ensures
        (verb == "start"@ || verb == "stop"@ || verb == "restart"@ || verb == "enable"@ || verb == "disable"@) && (
        unit == "dbus.service"@ || unit == "dbus-broker.service"@ || unit == "systemd-logind.service"@ || unit
            == "polkit.service"@ || unit == "quickshell.service"@ || unit == "hyprland.service"@ || (unit.len() >= 7
            && unit.take(7) == "omarchy"@)) ==> service_outcome(unit, verb, scope) is Err,
        (unit.len() > 0 && unit[0] == '-') || (exists|i: int| 0 <= i < unit.len() && unit[i] == '/') ==> service_outcome(
            unit,
            verb,
            scope,
        ) == Err::<(Seq<char>, Seq<Seq<char>>, Option<Seq<char>>), Seq<char>>("Invalid service action"@),
{
    reveal_strlit("omarchy");
    reveal_strlit("start");
    reveal_strlit("stop");
    reveal_strlit("restart");
    reveal_strlit("enable");
    reveal_strlit("disable");
    reveal_strlit("logs");
    if (unit.len() > 0 && unit[0] == '-') || (exists|i: int| 0 <= i < unit.len() && unit[i] == '/') {
        if exists|i: int| 0 <= i < unit.len() && unit[i] == '/' {
            let i = choose|i: int| 0 <= i < unit.len() && unit[i] == '/';
            assert(!unit_char(unit[i]));
        }
        assert(!is_valid_unit(unit));
    }
    if unit.len() >= 7 && unit.take(7) == "omarchy"@ {
        assert(crate::text::starts_with(unit, "omarchy"@));
    }
    if verb == "start"@ || verb == "stop"@ || verb == "restart"@ || verb == "enable"@ || verb == "disable"@ {
        assert(verb.len() > 0 && verb[0] != 'l');
        assert("logs"@[0] == 'l');
        assert(verb != "logs"@);
    }
}

/// Validates a service request and builds its command.
pub fn service_action(unit: &str, verb: &str, scope: Option<&str>) -> (r: Result<ServiceCommand, String>)
    ensures
        match (r, service_outcome(unit@, verb@, match scope {
            Some(s) => Some(s@),
            None => None,
        })) {
            (Ok(c), Ok((p, a, m))) => c.command.program@ == p && args_view(c.command.args@) == a
                && match (c.success, m) {
                (Some(x), Some(y)) => x@ == y,
                (None, None) => true,
                _ => false,
            },
            (Err(e), Err(e2)) => e@ == e2,
            _ => false,
        },
{
    let vc = chars_of(verb);
    let known = eq_lit(&vc, "start") || eq_lit(&vc, "stop") || eq_lit(&vc, "restart") || eq_lit(
        &vc,
        "enable",
    ) || eq_lit(&vc, "disable") || eq_lit(&vc, "logs");
    if !valid_unit(unit) || !known {
        return Err("Invalid service action".to_owned());
    }
    let user = match scope {
        Some(s) => {
            let sc = chars_of(s);
            if eq_lit(&sc, "user") {
                true
            } else if eq_lit(&sc, "system") {
                false
            } else {
                return Err("Invalid service scope".to_owned());
            }
        },
        None => {
            return Err("Invalid service scope".to_owned());
        },
    };
    proof {
        assert(user == (match scope {
            Some(s) => Some(s@),
            None => None,
        } == Some("user"@)));
    }
    if eq_lit(&vc, "logs") {
        let args = if user {
            strings(&["--user", "--no-pager", "--output=short-iso", "--lines=80", "--unit", unit])
        } else {
            strings(&["--no-pager", "--output=short-iso", "--lines=80", "--unit", unit])
        };
        return Ok(ServiceCommand {
            command: Invocation { program: "/usr/bin/journalctl".to_owned(), args },
            success: None,
        });
    }
    let uc = chars_of(unit);
    let omarchy = chars_of("omarchy");
    assert(uc@.subrange(0, uc@.len() as int) =~= uc@);
    if eq_lit(&uc, "dbus.service") || eq_lit(&uc, "dbus-broker.service") || eq_lit(
        &uc,
        "systemd-logind.service",
    ) || eq_lit(&uc, "polkit.service") || eq_lit(&uc, "quickshell.service") || eq_lit(
        &uc,
        "hyprland.service",
    ) || crate::text::range_starts_with(&uc, 0, uc.len(), &omarchy) {
        return Err("Desktop/session service is protected".to_owned());
    }
    let args = if user {
        strings(&["--user", "--no-pager", "--no-ask-password", verb, unit])
    } else {
        strings(&["--no-pager", "--no-ask-password", verb, unit])
    };
    let mut msg = verb.to_owned();
    msg.append(": ");
    msg.append(unit);
    Ok(ServiceCommand {
        command: Invocation { program: "/usr/bin/systemctl".to_owned(), args },
        success: Some(msg),
    })
}

} // verus!
verus! {

/// `manage`'s own name for the shared Desktop Entry parser.
pub fn parse_entry(s: &str) -> (r: Fields)
    ensures
        r@ == entry_fields(s@),
{
    crate::desktop_entry::parse(s)
}

pub open spec fn hidden_line(hidden: bool) -> Seq<char> {
    if hidden {
        "Hidden=true"@
    } else {
        "Hidden=false"@
    }
}

/// A line whose key (before its first `=`, trimmed) is `Hidden`.
pub open spec fn is_hidden_key_line(line: Seq<char>) -> bool {
    contains_char(line, '=') && trim(line.take(index_of(line, '='))) == "Hidden"@
}

/// One line of an override: `(active, seen, duplicate, output lines)`. The
/// `[Desktop Entry]` header is followed by the new `Hidden=` line; old `Hidden` keys of
/// that section are dropped; every other line is kept.
pub open spec fn hide_step(st: (bool, bool, bool, Seq<Seq<char>>), line: Seq<char>, hidden: bool) -> (
    bool,
    bool,
    bool,
    Seq<Seq<char>>,
) {
    if st.2 {
        st
    } else {
        let t = trim(line);
        if t.len() > 0 && t[0] == '[' {
            if t == "[Desktop Entry]"@ {
                if st.1 {
                    (true, true, true, st.3)
                } else {
                    (true, true, false, st.3.push(line).push(hidden_line(hidden)))
                }
            } else {
                (false, st.1, false, st.3.push(line))
            }
        } else if st.0 && is_hidden_key_line(line) {
            st
        } else {
            (st.0, st.1, false, st.3.push(line))
        }
    }
}

pub open spec fn hide_fold(ls: Seq<Seq<char>>, hidden: bool) -> (bool, bool, bool, Seq<Seq<char>>)
    decreases ls.len(),
{
    if ls.len() == 0 {
        (false, false, false, Seq::empty())
    } else {
        hide_step(hide_fold(ls.drop_last(), hidden), ls.last(), hidden)
    }
}

/// Lines joined with `\n`, with a final `\n`.
pub open spec fn join_lines(ls: Seq<Seq<char>>) -> Seq<char>
    decreases ls.len(),
{
    if ls.len() == 0 {
        Seq::empty()
    } else {
        join_lines(ls.drop_last()) + ls.last() + seq!['\n']
    }
}

/// The override text for a desktop entry, or why none can be written.
pub open spec fn hidden_override(text: Seq<char>, hidden: bool) -> Result<Seq<char>, Seq<char>> {
    let st = hide_fold(lines(text), hidden);
    if st.2 {
        Err("Duplicate Desktop Entry section"@)
    } else if !st.1 {
        Err("Invalid desktop entry"@)
    } else {
        Ok(join_lines(st.3))
    }
}

proof fn lemma_join_push(ls: Seq<Seq<char>>, l: Seq<char>)
    ensures
        join_lines(ls.push(l)) == join_lines(ls) + l + seq!['\n'],
{
    assert(ls.push(l).drop_last() =~= ls);
}

/// A duplicate section ends the fold: the error stays.
proof fn lemma_hide_error_sticky(ls: Seq<Seq<char>>, hidden: bool, i: int)
    requires
        0 <= i <= ls.len(),
        hide_fold(ls.take(i), hidden).2,
    ensures
        hide_fold(ls, hidden).2,
    decreases ls.len(),
{
    if i == ls.len() {
        assert(ls.take(i) =~= ls);
    } else {
        assert(ls.drop_last().take(i) =~= ls.take(i));
        lemma_hide_error_sticky(ls.drop_last(), hidden, i);
    }
}

fn push_line(out: &mut Vec<char>, line: &Vec<char>)
    ensures
        final(out)@ == old(out)@ + line@ + seq!['\n'],
{
    push_range(out, line, 0, line.len());
    assert(line@.subrange(0, line@.len() as int) =~= line@);
    out.push('\n');
}

/// Writes `Hidden=<hidden>` into the `[Desktop Entry]` section of a desktop file, keeping
/// every other section and line.
pub fn set_hidden(text: &str, hidden: bool) -> (r: Result<String, String>)
    ensures
        match (r, hidden_override(text@, hidden)) {
            (Ok(s), Ok(t)) => s@ == t,
            (Err(e), Err(e2)) => e@ == e2,
            _ => false,
        },
{
    let s = chars_of(text);
    let ls = split_lines(&s);
    let header = chars_of("[Desktop Entry]");
    let key = chars_of("Hidden");
    let hl = if hidden {
        chars_of("Hidden=true")
    } else {
        chars_of("Hidden=false")
    };
    let mut active = false;
    let mut seen = false;
    let mut out: Vec<char> = Vec::new();
    let ghost mut outl: Seq<Seq<char>> = Seq::empty();
    let mut i: usize = 0;
    while i < ls.len()
        invariant
            i <= ls.len(),
            views(ls@) == lines(s@),
            s@ == text@,
            header@ == "[Desktop Entry]"@,
            key@ == "Hidden"@,
            hl@ == hidden_line(hidden),
            hide_fold(views(ls@).take(i as int), hidden) == (active, seen, false, outl),
            out@ == join_lines(outl),
        decreases ls.len() - i,
    {
        let line = &ls[i];
        assert(views(ls@).take(i + 1).drop_last() =~= views(ls@).take(i as int));
        assert(views(ls@).take(i + 1).last() == line@);
        assert(line@.subrange(0, line@.len() as int) =~= line@);
        let (a, b) = trim_bounds(line, 0, line.len());
        if a < b && line[a] == '[' {
            if crate::text::range_eq(line, a, b, &header) {
                if seen {
                    proof {
                        assert(hide_fold(views(ls@).take(i + 1), hidden).2);
                        lemma_hide_error_sticky(views(ls@), hidden, i + 1);
                    }
                    return Err("Duplicate Desktop Entry section".to_owned());
                }
                active = true;
                seen = true;
                push_line(&mut out, line);
                push_line(&mut out, &hl);
                proof {
                    lemma_join_push(outl, line@);
                    lemma_join_push(outl.push(line@), hl@);
                    outl = outl.push(line@).push(hl@);
                }
                assert(out@ =~= join_lines(outl));
                i += 1;
                continue;
            } else {
                active = false;
            }
        }
        let e = find_char(line, 0, line.len(), '=');
        let skip = if active && e < line.len() {
            let (ka, kb) = trim_bounds(line, 0, e);
            assert(line@.take(e as int) =~= line@.subrange(0, e as int));
            crate::text::range_eq(line, ka, kb, &key)
        } else {
            false
        };
        if !skip {
            push_line(&mut out, line);
            proof {
                lemma_join_push(outl, line@);
                outl = outl.push(line@);
            }
            assert(out@ =~= join_lines(outl));
        }
        i += 1;
    }
    assert(views(ls@).take(ls.len() as int) =~= views(ls@));
    if !seen {
        return Err("Invalid desktop entry".to_owned());
    }
    Ok(string_of(out.as_slice()))
}

/// A startup entry name that names a file of the autostart directory itself.
pub open spec fn is_valid_startup_key(k: Seq<char>) -> bool {
    !contains_char(k, '/') && !contains_char(k, '\\') && ends_with(k, ".desktop"@) && !(k.len() > 0
        && k[0] == '.')
}

pub fn valid_startup_key(key: &str) -> (r: bool)
    ensures
        r == is_valid_startup_key(key@),
{
    let c = chars_of(key);
    let suffix = chars_of(".desktop");
    assert(c@.subrange(0, c@.len() as int) =~= c@);
    find_char(&c, 0, c.len(), '/') == c.len() && find_char(&c, 0, c.len(), '\\') == c.len()
        && range_ends_with(&c, 0, c.len(), &suffix) && !(c.len() > 0 && c[0] == '.')
}

/// The report of a startup toggle.
pub fn startup_message(enabled: bool, key: &str) -> (r: String)
    ensures
        r@ == (if enabled {
            "Enabled"@
        } else {
            "Disabled"@
        }) + " at next login: "@ + key@,
{
    let mut m = if enabled {
        "Enabled".to_owned()
    } else {
        "Disabled".to_owned()
    };
    m.append(" at next login: ");
    m.append(key);
    m
}

} // verus!
verus! {

/// How a startup entry will behave at the next login.
#[derive(Debug, Clone, Copy, PartialEq, Eq, Structural)]
pub enum StartupState {
    Enabled,
    Disabled,
    OtherDesktop,
}

impl StartupState {
    pub fn label(&self) -> (r: &'static str)
        ensures
            r@ == match self {
                StartupState::Enabled => "Enabled"@,
                StartupState::Disabled => "Disabled"@,
                StartupState::OtherDesktop => "Other desktop"@,
            },
    {
        match self {
            StartupState::Enabled => "Enabled",
            StartupState::Disabled => "Disabled",
            StartupState::OtherDesktop => "Other desktop",
        }
    }
}

/// An XDG autostart entry as the startup page lists it.
pub struct StartupEntry {
    pub name: String,
    pub command: Option<String>,
    pub state: StartupState,
    pub description: Option<String>,
}

/// Whether the `;`-separated desktop list under `key` names one of `desktops`
/// (`:`-separated), ignoring ASCII case.
pub open spec fn applies(fields: Map<Seq<char>, Seq<char>>, key: Seq<char>, desktops: Seq<char>) -> bool {
    fields.contains_key(key) && exists|i: int| 0 <= i < split_char(fields[key], ';').len()
        && split_char(fields[key], ';')[i].len() > 0 && exists|j: int| 0 <= j < split_char(desktops, ':').len()
        && #[trigger] eq_ignore_ascii_case(split_char(desktops, ':')[j], split_char(fields[key], ';')[i])
}

/// The state of an autostart entry with fields `f` on the desktops `desktops`.
pub open spec fn startup_state_of(f: Map<Seq<char>, Seq<char>>, desktops: Seq<char>) -> StartupState {
    let eligible = (!f.contains_key("OnlyShowIn"@) || applies(f, "OnlyShowIn"@, desktops)) && !applies(
        f,
        "NotShowIn"@,
        desktops,
    );
    if f.contains_key("Hidden"@) && f["Hidden"@] == "true"@ {
        StartupState::Disabled
    } else if !eligible {
        StartupState::OtherDesktop
    } else {
        StartupState::Enabled
    }
}

/// An autostart entry runs unless something says otherwise: one that sets `Hidden=true` is
/// disabled, and one that is not hidden and restricts no desktop (no `OnlyShowIn`, no
/// `NotShowIn`) is enabled on every desktop.
pub proof fn lemma_unrestricted_entry_is_enabled(text: Seq<char>, desktops: Seq<char>)
    ensures
        ({
            let f = entry_fields(text);
            &&& f.contains_key("Hidden"@) && f["Hidden"@] == "true"@ ==> startup_state_of(f, desktops)
                == StartupState::Disabled
            &&& !(f.contains_key("Hidden"@) && f["Hidden"@] == "true"@) && !f.contains_key("OnlyShowIn"@)
                && !f.contains_key("NotShowIn"@) ==> startup_state_of(f, desktops) == StartupState::Enabled
        }),
{
}

/// A string with no `c` splits into itself alone.
proof fn lemma_split_whole(s: Seq<char>, c: char)
    requires
        !contains_char(s, c),
    ensures
        split_char(s, c) == seq![s],
{
    crate::text::lemma_index_of(s, c);
}

/// The desktop lists of an entry decide where it runs: on a single current desktop `d`
/// (one name, no separators), an entry that is not hidden and lists `d` as its only
/// `OnlyShowIn` desktop, with no `NotShowIn`, is enabled; one that lists `d` as its
/// `NotShowIn` desktop belongs to another desktop.
pub proof fn lemma_desktop_lists_decide(f: Map<Seq<char>, Seq<char>>, d: Seq<char>)
    requires
        d.len() > 0,
        !contains_char(d, ':'),
        !contains_char(d, ';'),
        !(f.contains_key("Hidden"@) && f["Hidden"@] == "true"@),
    ensures
        f.contains_key("OnlyShowIn"@) && f["OnlyShowIn"@] == d && !f.contains_key("NotShowIn"@) ==> startup_state_of(
            f,
            d,
        ) == StartupState::Enabled,
        f.contains_key("NotShowIn"@) && f["NotShowIn"@] == d ==> startup_state_of(f, d) == StartupState::OtherDesktop,
{
    lemma_split_whole(d, ':');
    lemma_split_whole(d, ';');
    assert(eq_ignore_ascii_case(split_char(d, ':')[0], split_char(d, ';')[0]));
    if f.contains_key("OnlyShowIn"@) && f["OnlyShowIn"@] == d {
        assert(applies(f, "OnlyShowIn"@, d));
    }
    if f.contains_key("NotShowIn"@) && f["NotShowIn"@] == d {
        assert(applies(f, "NotShowIn"@, d));
    }
}

pub open spec fn opt_field(f: Map<Seq<char>, Seq<char>>, key: Seq<char>) -> Option<Seq<char>> {
    if f.contains_key(key) {
        Some(f[key])
    } else {
        None
    }
}

pub open spec fn opt_view(o: Option<String>) -> Option<Seq<char>> {
    match o {
        Some(s) => Some(s@),
        None => None,
    }
}

fn desktop_applies(fields: &Fields, key: &str, desktops: &Vec<Vec<char>>, Ghost(d): Ghost<Seq<char>>) -> (r: bool)
    requires
        views(desktops@) == split_char(d, ':'),
    ensures
        r == applies(fields@, key@, d),
{
    let v = match fields.get(key) {
        Some(v) => v,
        None => {
            return false;
        },
    };
    let vc = chars_of(v.as_str());
    assert(vc@.subrange(0, vc@.len() as int) =~= vc@);
    let parts = split_on(&vc, 0, vc.len(), ';');
    let mut i: usize = 0;
    while i < parts.len()
        invariant
            i <= parts.len(),
            fields@.contains_key(key@),
            views(parts@) == split_char(fields@[key@], ';'),
            views(desktops@) == split_char(d, ':'),
            forall|a: int| 0 <= a < i ==> !(split_char(fields@[key@], ';')[a].len() > 0 && exists|j: int| 0 <= j < split_char(d, ':').len()
                && #[trigger] eq_ignore_ascii_case(split_char(d, ':')[j], split_char(fields@[key@], ';')[a])),
        decreases parts.len() - i,
    {
        assert(views(parts@)[i as int] == parts@[i as int]@);
        if parts[i].len() > 0 {
            assert(split_char(fields@[key@], ';')[i as int].len() > 0);
            let pi = string_of(parts[i].as_slice());
            let mut j: usize = 0;
            while j < desktops.len()
                invariant
                    j <= desktops.len(),
                    i < parts.len(),
                    fields@.contains_key(key@),
                    views(parts@) == split_char(fields@[key@], ';'),
                    split_char(fields@[key@], ';')[i as int].len() > 0,
                    pi@ == split_char(fields@[key@], ';')[i as int],
                    views(desktops@) == split_char(d, ':'),
                    forall|b: int| 0 <= b < j ==> !eq_ignore_ascii_case(split_char(d, ':')[b], pi@),
                decreases desktops.len() - j,
            {
                assert(views(desktops@)[j as int] == desktops@[j as int]@);
                let dj = string_of(desktops[j].as_slice());
                if eq_ignore_case(dj.as_str(), pi.as_str()) {
                    assert(eq_ignore_ascii_case(split_char(d, ':')[j as int], split_char(fields@[key@], ';')[i as int]));
                    assert(exists|jj: int| 0 <= jj < split_char(d, ':').len()
                        && #[trigger] eq_ignore_ascii_case(split_char(d, ':')[jj], split_char(fields@[key@], ';')[i as int]));
                    return true;
                }
                j += 1;
            }
        }
        i += 1;
    }
    false
}

/// Lists an autostart entry with desktop-file ID `id` and text `text` for the current
/// desktops `desktops` (`XDG_CURRENT_DESKTOP`).
pub fn startup_entry(id: &str, text: &str, desktops: &str) -> (r: StartupEntry)
    ensures
        ({
            let f = entry_fields(text@);
            &&& r.name@ == (if f.contains_key("Name"@) {
                f["Name"@]
            } else {
                id@
            })
            &&& opt_view(r.command) == opt_field(f, "Exec"@)
            &&& opt_view(r.description) == opt_field(f, "Comment"@)
            &&& r.state == startup_state_of(f, desktops@)
        }),
{
    let fields = crate::desktop_entry::parse(text);
    let dc = chars_of(desktops);
    assert(dc@.subrange(0, dc@.len() as int) =~= dc@);
    let ds = split_on(&dc, 0, dc.len(), ':');
    let only = desktop_applies(&fields, "OnlyShowIn", &ds, Ghost(desktops@));
    let not = desktop_applies(&fields, "NotShowIn", &ds, Ghost(desktops@));
    let has_only = match fields.get("OnlyShowIn") {
        Some(_) => true,
        None => false,
    };
    let eligible = (!has_only || only) && !not;
    let hidden = match fields.get("Hidden") {
        Some(h) => {
            let hc = chars_of(h.as_str());
            eq_lit(&hc, "true")
        },
        None => false,
    };
    let state = if hidden {
        StartupState::Disabled
    } else if !eligible {
        StartupState::OtherDesktop
    } else {
        StartupState::Enabled
    };
    let name = match fields.get("Name") {
        Some(n) => n,
        None => id.to_owned(),
    };
    StartupEntry { name, command: fields.get("Exec"), state, description: fields.get("Comment") }
}

/// The launch commands of a compositor autostart file: `(line index, trimmed line)` for
/// each line that is not blank, a `#` comment or a `--` comment.
pub open spec fn command_lines(ls: Seq<Seq<char>>, k: int) -> Seq<(int, Seq<char>)>
    decreases k,
{
    if k <= 0 {
        seq![]
    } else {
        let t = trim(ls[k - 1]);
        command_lines(ls, k - 1) + if t.len() == 0 || t[0] == '#' || crate::text::starts_with(t, "--"@) {
            seq![]
        } else {
            seq![(k - 1, t)]
        }
    }
}

pub fn autostart_commands(text: &str) -> (r: Vec<(usize, String)>)
    ensures
        r@.map_values(|e: (usize, String)| (e.0 as int, e.1@)) == command_lines(lines(text@), lines(text@).len() as int),
{
    let s = chars_of(text);
    let ls = split_lines(&s);
    let dashes = chars_of("--");
    let mut out: Vec<(usize, String)> = Vec::new();
    let mut i: usize = 0;
    while i < ls.len()
        invariant
            i <= ls.len(),
            views(ls@) == lines(text@),
            dashes@ == "--"@,
            out@.map_values(|e: (usize, String)| (e.0 as int, e.1@)) == command_lines(views(ls@), i as int),
        decreases ls.len() - i,
    {
        let line = &ls[i];
        assert(line@.subrange(0, line@.len() as int) =~= line@);
        assert(views(ls@)[i as int] == line@);
        let (a, b) = trim_bounds(line, 0, line.len());
        let skip = a == b || line[a] == '#' || crate::text::range_starts_with(line, a, b, &dashes);
        let ghost before = out@.map_values(|e: (usize, String)| (e.0 as int, e.1@));
        if !skip {
            let t = crate::text::copy_range(line, a, b);
            let e = (i, string_of(t.as_slice()));
            out.push(e);
            assert(out@.map_values(|e: (usize, String)| (e.0 as int, e.1@)) =~= before.push((i as int, t@)));
        }
        i += 1;
        assert(out@.map_values(|e: (usize, String)| (e.0 as int, e.1@)) =~= command_lines(views(ls@), i as int));
    }
    out
}

pub open spec fn is_alnum(c: char) -> bool {
    let u = c as u32;
    (0x30 <= u <= 0x39) || (0x41 <= u <= 0x5a) || (0x61 <= u <= 0x7a)
}

pub open spec fn is_session_id(s: Seq<char>) -> bool {
    s.len() > 0 && forall|i: int| 0 <= i < s.len() ==> is_alnum(s[i])
}

/// The session a session request targets: only the current user's (`current_uid`) own
/// sessions, named by an alphanumeric ID.
pub fn session_target(uid: Option<u64>, current_uid: u32, session: Option<&str>) -> (r: Result<
    String,
    String,
>)
    ensures
        r is Ok <==> (uid == Some(current_uid as u64) && session is Some && is_session_id(
            session->0@,
        )),
        r matches Ok(s) ==> s@ == session->0@,
        r matches Err(e) ==> e@ == if uid is None {
            "Invalid user"@
        } else if uid != Some(current_uid as u64) {
            "You can only manage your own sessions"@
        } else if session is None {
            "No session selected"@
        } else {
            "Invalid session"@
        },
{
    let u = match uid {
        Some(u) => u,
        None => {
            return Err("Invalid user".to_owned());
        },
    };
    if u != current_uid as u64 {
        return Err("You can only manage your own sessions".to_owned());
    }
    let s = match session {
        Some(s) => s,
        None => {
            return Err("No session selected".to_owned());
        },
    };
    let c = chars_of(s);
    if c.len() == 0 {
        return Err("Invalid session".to_owned());
    }
    let mut i: usize = 0;
    while i < c.len()
        invariant
            i <= c.len(),
            c@ == s@,
            uid == Some(current_uid as u64),
            session == Some(s),
            forall|j: int| 0 <= j < i ==> is_alnum(c@[j]),
        decreases c.len() - i,
    {
        let x = c[i] as u32;
        if !((0x30 <= x && x <= 0x39) || (0x41 <= x && x <= 0x5a) || (0x61 <= x && x <= 0x7a)) {
            assert(!is_alnum(s@[i as int]));
            return Err("Invalid session".to_owned());
        }
        i += 1;
    }
    Ok(s.to_owned())
}

/// The query for a session's owner.
pub fn session_owner_query(session: &str) -> (r: Invocation)
    ensures
        r.program@ == "/usr/bin/loginctl"@,
        args_view(r.args@) == seq!["show-session"@, session@, "--property=User"@, "--value"@],
{
    Invocation {
        program: "/usr/bin/loginctl".to_owned(),
        args: strings(&["show-session", session, "--property=User", "--value"]),
    }
}

pub open spec fn session_verb(verb: Option<Seq<char>>) -> Option<Seq<char>> {
    if verb == Some("lock"@) {
        Some("lock-session"@)
    } else if verb == Some("logout"@) {
        Some("terminate-session"@)
    } else {
        None
    }
}

/// The session command, once the owner query reported `owner`: it must still be `uid`.
pub fn session_command(owner: &str, uid: u64, session: &str, verb: Option<&str>) -> (r: Result<
    ServiceCommand,
    String,
>)
    ensures
        match r {
            Ok(c) => trim(owner@) == dec_str(uid as nat) && session_verb(opt_str(verb)) is Some
                && c.command.program@ == "/usr/bin/loginctl"@ && args_view(c.command.args@) == seq![
                "--no-ask-password"@,
                session_verb(opt_str(verb))->0,
                session@,
            ] && c.success is Some && c.success->0@ == session_verb(opt_str(verb))->0 + ": "@ + session@,
            Err(e) => if trim(owner@) != dec_str(uid as nat) {
                e@ == "Session owner changed"@
            } else {
                session_verb(opt_str(verb)) is None && e@ == "Invalid session action"@
            },
        },
{
    let oc = chars_of(owner);
    assert(oc@.subrange(0, oc@.len() as int) =~= oc@);
    let (a, b) = trim_bounds(&oc, 0, oc.len());
    let us = decimal(uid);
    let uc = chars_of(us.as_str());
    if !crate::text::range_eq(&oc, a, b, &uc) {
        return Err("Session owner changed".to_owned());
    }
    let v = match verb {
        Some(v) => {
            let vc = chars_of(v);
            if eq_lit(&vc, "lock") {
                "lock-session"
            } else if eq_lit(&vc, "logout") {
                "terminate-session"
            } else {
                return Err("Invalid session action".to_owned());
            }
        },
        None => {
            return Err("Invalid session action".to_owned());
        },
    };
    let mut msg = v.to_owned();
    msg.append(": ");
    msg.append(session);
    Ok(ServiceCommand {
        command: Invocation {
            program: "/usr/bin/loginctl".to_owned(),
            args: strings(&["--no-ask-password", v, session]),
        },
        success: Some(msg),
    })
}

pub open spec fn opt_str(o: Option<&str>) -> Option<Seq<char>> {
    match o {
        Some(s) => Some(s@),
        None => None,
    }
}

/// A line holds no line break.
pub open spec fn no_newline(l: Seq<char>) -> bool {
    forall|j: int| 0 <= j < l.len() ==> l[j] != '\n'
}

proof fn lemma_lines_have_no_newline(s: Seq<char>)
    ensures
        forall|i: int| 0 <= i < lines(s).len() ==> no_newline(#[trigger] lines(s)[i]),
    decreases s.len(),
{
    if s.len() > 0 {
        let i = crate::text::index_of(s, '\n');
        crate::text::lemma_index_of(s, '\n');
        if i < s.len() {
            lemma_lines_have_no_newline(s.skip(i + 1));
            let first = crate::text::strip_cr(s.take(i));
            assert(no_newline(first));
            assert forall|k: int| 0 <= k < lines(s).len() implies no_newline(#[trigger] lines(s)[k]) by {
                if k > 0 {
                    assert(lines(s)[k] == lines(s.skip(i + 1))[k - 1]);
                }
            }
        }
    }
}

proof fn lemma_join_front(l: Seq<char>, rest: Seq<Seq<char>>)
    ensures
        join_lines(seq![l] + rest) == l + seq!['\n'] + join_lines(rest),
    decreases rest.len(),
{
    if rest.len() == 0 {
        let full = seq![l] + rest;
        assert(full =~= seq![l]);
        assert(full.drop_last() =~= Seq::<Seq<char>>::empty());
        assert(join_lines(full) == join_lines(full.drop_last()) + full.last() + seq!['\n']);
        assert(join_lines(Seq::<Seq<char>>::empty()) == Seq::<char>::empty());
        assert(join_lines(full) =~= l + seq!['\n'] + join_lines(rest));
    } else {
        lemma_join_front(l, rest.drop_last());
        let full = seq![l] + rest;
        assert(full.drop_last() =~= seq![l] + rest.drop_last());
        assert(full.last() == rest.last());
        assert(join_lines(full) == join_lines(full.drop_last()) + full.last() + seq!['\n']);
        assert(join_lines(rest) == join_lines(rest.drop_last()) + rest.last() + seq!['\n']);
        assert(join_lines(full) =~= l + seq!['\n'] + join_lines(rest));
    }
}

proof fn lemma_lines_cons(l: Seq<char>, r: Seq<char>)
    requires
        no_newline(l),
    ensures
        lines(l + seq!['\n'] + r) == seq![crate::text::strip_cr(l)] + lines(r),
{
    let s = l + seq!['\n'] + r;
    crate::text::lemma_index_of_is(s, '\n', l.len() as int);
    assert(s.take(l.len() as int) =~= l);
    assert(s.skip(l.len() as int + 1) =~= r);
}

/// The lines of joined lines are those lines (a `\r` before each break read as part of
/// the break).
proof fn lemma_lines_of_join(out: Seq<Seq<char>>)
    requires
        forall|i: int| 0 <= i < out.len() ==> no_newline(#[trigger] out[i]),
    ensures
        lines(join_lines(out)) == out.map_values(|l: Seq<char>| crate::text::strip_cr(l)),
    decreases out.len(),
{
    if out.len() == 0 {
        assert(out.map_values(|l: Seq<char>| crate::text::strip_cr(l)) =~= Seq::<Seq<char>>::empty());
    } else {
        let rest = out.drop_first();
        assert(out =~= seq![out[0]] + rest);
        assert forall|i: int| 0 <= i < rest.len() implies no_newline(#[trigger] rest[i]) by {
            assert(rest[i] == out[i + 1]);
        }
        lemma_lines_of_join(rest);
        lemma_join_front(out[0], rest);
        assert(no_newline(out[0]));
        lemma_lines_cons(out[0], join_lines(rest));
        assert(out.map_values(|l: Seq<char>| crate::text::strip_cr(l)) =~= seq![crate::text::strip_cr(out[0])]
            + rest.map_values(|l: Seq<char>| crate::text::strip_cr(l)));
    }
}

proof fn lemma_trim_drop_ws_end(s: Seq<char>)
    requires
        s.len() > 0,
        crate::text::is_ws(s.last()),
    ensures
        trim(s) == trim(s.drop_last()),
    decreases s.len(),
{
    if crate::text::is_ws(s[0]) {
        if s.len() == 1 {
            assert(s.drop_first() =~= Seq::<char>::empty());
            assert(s.drop_last() =~= Seq::<char>::empty());
        } else {
            let t = s.drop_first();
            assert(t.last() == s.last());
            lemma_trim_drop_ws_end(t);
            assert(t.drop_last() =~= s.drop_last().drop_first());
            assert(s.drop_last()[0] == s[0]);
        }
    } else {
        assert(s.len() > 1);
        assert(s.drop_last()[0] == s[0]);
    }
}

proof fn lemma_trim_strip_cr(x: Seq<char>)
    ensures
        trim(crate::text::strip_cr(x)) == trim(x),
{
    if x.len() > 0 && x.last() == '\r' {
        lemma_trim_drop_ws_end(x);
    }
}

/// The number of leading white-space characters.
pub open spec fn lead(x: Seq<char>) -> int
    decreases x.len(),
{
    if x.len() > 0 && crate::text::is_ws(x[0]) {
        1 + lead(x.drop_first())
    } else {
        0
    }
}

/// The number of trailing white-space characters.
pub open spec fn trail(x: Seq<char>) -> int
    decreases x.len(),
{
    if x.len() > 0 && crate::text::is_ws(x.last()) {
        1 + trail(x.drop_last())
    } else {
        0
    }
}

proof fn lemma_trim_start_shape(x: Seq<char>)
    ensures
        0 <= lead(x) <= x.len(),
        crate::text::trim_start(x) == x.skip(lead(x)),
        forall|j: int| 0 <= j < lead(x) ==> crate::text::is_ws(#[trigger] x[j]),
    decreases x.len(),
{
    if x.len() > 0 && crate::text::is_ws(x[0]) {
        lemma_trim_start_shape(x.drop_first());
        assert(x.drop_first().skip(lead(x.drop_first())) =~= x.skip(lead(x)));
        assert forall|j: int| 0 <= j < lead(x) implies crate::text::is_ws(#[trigger] x[j]) by {
            if j > 0 {
                assert(x[j] == x.drop_first()[j - 1]);
            }
        }
    } else {
        assert(x.skip(0) =~= x);
    }
}

proof fn lemma_trim_end_shape(x: Seq<char>)
    ensures
        0 <= trail(x) <= x.len(),
        crate::text::trim_end(x) == x.take(x.len() - trail(x)),
        forall|j: int| x.len() - trail(x) <= j < x.len() ==> crate::text::is_ws(#[trigger] x[j]),
    decreases x.len(),
{
    if x.len() > 0 && crate::text::is_ws(x.last()) {
        lemma_trim_end_shape(x.drop_last());
        assert(x.drop_last().take(x.drop_last().len() - trail(x.drop_last())) =~= x.take(x.len() - trail(x)));
        assert forall|j: int| x.len() - trail(x) <= j < x.len() implies crate::text::is_ws(#[trigger] x[j]) by {
            if j < x.len() - 1 {
                assert(x[j] == x.drop_last()[j]);
            }
        }
    } else {
        assert(x.take(x.len() as int) =~= x);
    }
}

proof fn lemma_trim_ws_prefix(w: Seq<char>, z: Seq<char>)
    requires
        forall|j: int| 0 <= j < w.len() ==> crate::text::is_ws(#[trigger] w[j]),
    ensures
        trim(w + z) == trim(z),
    decreases w.len(),
{
    if w.len() > 0 {
        let t = w.drop_first();
        assert forall|j: int| 0 <= j < t.len() implies crate::text::is_ws(#[trigger] t[j]) by {
            assert(t[j] == w[j + 1]);
        }
        lemma_trim_ws_prefix(t, z);
        assert((w + z).drop_first() =~= t + z);
        assert((w + z)[0] == w[0]);
    } else {
        assert(w + z =~= z);
    }
}

/// A line's key is the same whether read from the line or from its trimmed text.
proof fn lemma_key_of_trimmed(x: Seq<char>)
    ensures
        contains_char(trim(x), '=') == contains_char(x, '='),
        contains_char(x, '=') ==> trim(trim(x).take(index_of(trim(x), '='))) == trim(x.take(index_of(x, '='))),
{
    lemma_trim_start_shape(x);
    let a = lead(x);
    let y = x.skip(a);
    lemma_trim_end_shape(y);
    let b = y.len() - trail(y);
    let l = y.take(b);
    assert(trim(x) == l);
    assert(!crate::text::is_ws('='));
    crate::text::lemma_index_of(x, '=');
    crate::text::lemma_index_of(l, '=');
    if contains_char(x, '=') {
        let p = index_of(x, '=');
        assert(x[p] == '=');
        assert(p >= a) by {
            if p < a {
                assert(crate::text::is_ws(x[p]));
            }
        }
        assert(p < a + b) by {
            if p >= a + b {
                assert(y[p - a] == x[p]);
                assert(crate::text::is_ws(y[p - a]));
            }
        }
        assert forall|j: int| 0 <= j < p - a implies l[j] != '=' by {
            assert(l[j] == x[a + j]);
        }
        assert(l[p - a] == x[p]);
        crate::text::lemma_index_of_is(l, '=', p - a);
        assert(l.take(p - a) =~= x.subrange(a, p));
        assert(x.take(p) =~= x.take(a) + x.subrange(a, p));
        assert forall|j: int| 0 <= j < x.take(a).len() implies crate::text::is_ws(#[trigger] x.take(a)[j]) by {
            assert(x.take(a)[j] == x[j]);
        }
        lemma_trim_ws_prefix(x.take(a), x.subrange(a, p));
    }
    if contains_char(l, '=') {
        let q = index_of(l, '=');
        assert(x[a + q] == l[q]);
        assert(index_of(x, '=') <= a + q) by {
            if index_of(x, '=') > a + q {
                assert(x[a + q] != '=');
            }
        }
    }
}

/// The value an override writes under `Hidden`.
pub open spec fn hidden_value(hidden: bool) -> Seq<char> {
    if hidden {
        "true"@
    } else {
        "false"@
    }
}

proof fn lemma_hidden_line(hidden: bool)
    ensures
        ({
            let hl = hidden_line(hidden);
            &&& no_newline(hl)
            &&& crate::text::strip_cr(hl) == hl
            &&& trim(hl) == hl
            &&& hl.len() > 0 && hl[0] != '[' && hl[0] != '#'
            &&& contains_char(hl, '=')
            &&& trim(hl.take(index_of(hl, '='))) == "Hidden"@
            &&& trim(hl.skip(index_of(hl, '=') + 1)) == hidden_value(hidden)
        }),
{
    reveal_strlit("Hidden=true");
    reveal_strlit("Hidden=false");
    reveal_strlit("Hidden");
    reveal_strlit("true");
    reveal_strlit("false");
    let hl = hidden_line(hidden);
    assert forall|j: int| 0 <= j < 6 implies hl[j] != '=' by {
        if j == 0 {
        } else if j == 1 {
        } else if j == 2 {
        } else if j == 3 {
        } else if j == 4 {
        } else {
        }
    }
    assert(hl[6] == '=');
    crate::text::lemma_index_of_is(hl, '=', 6);
    assert forall|j: int| 0 <= j < hl.len() implies hl[j] != '\n' by {
        if hidden {
            assert(hl == seq!['H', 'i', 'd', 'd', 'e', 'n', '=', 't', 'r', 'u', 'e']);
        } else {
            assert(hl == seq!['H', 'i', 'd', 'd', 'e', 'n', '=', 'f', 'a', 'l', 's', 'e']);
        }
    }
    assert(hl.take(6) =~= "Hidden"@);
    assert(hl.skip(7) =~= hidden_value(hidden));
}

/// The entry fields the parser reads from output lines.
pub open spec fn entry_of(out: Seq<Seq<char>>) -> (bool, Map<Seq<char>, Seq<char>>) {
    entry_fold(out.map_values(|l: Seq<char>| crate::text::strip_cr(l)))
}

proof fn lemma_entry_of_push(out: Seq<Seq<char>>, y: Seq<char>)
    ensures
        entry_of(out.push(y)) == entry_step(entry_of(out), y),
{
    let f = |l: Seq<char>| crate::text::strip_cr(l);
    assert(out.push(y).map_values(f) =~= out.map_values(f).push(f(y)));
    assert(out.map_values(f).push(f(y)).drop_last() =~= out.map_values(f));
    lemma_trim_strip_cr(y);
}

/// What an override's lines hold so far: no line breaks inside lines, the parser's section
/// flag agrees with the writer's, and once the section was written, `Hidden` reads back.
pub open spec fn override_inv(st: (bool, bool, bool, Seq<Seq<char>>), hidden: bool) -> bool {
    !st.2 ==> {
        &&& forall|i: int| 0 <= i < st.3.len() ==> no_newline(#[trigger] st.3[i])
        &&& entry_of(st.3).0 == st.0
        &&& st.1 ==> entry_of(st.3).1.contains_key("Hidden"@) && entry_of(st.3).1["Hidden"@] == hidden_value(hidden)
    }
}

proof fn lemma_override_step(st: (bool, bool, bool, Seq<Seq<char>>), x: Seq<char>, hidden: bool)
    requires
        override_inv(st, hidden),
        no_newline(x),
    ensures
        override_inv(hide_step(st, x, hidden), hidden),
{
    let n = hide_step(st, x, hidden);
    if st.2 || n.2 {
        return;
    }
    let t = trim(x);
    let e = entry_of(st.3);
    lemma_entry_of_push(st.3, x);
    assert forall|i: int| 0 <= i < st.3.push(x).len() implies no_newline(#[trigger] st.3.push(x)[i]) by {
        if i < st.3.len() {
            assert(st.3.push(x)[i] == st.3[i]);
        }
    }
    if t.len() > 0 && t[0] == '[' {
        if t == "[Desktop Entry]"@ {
            let hl = hidden_line(hidden);
            lemma_hidden_line(hidden);
            lemma_entry_of_push(st.3.push(x), hl);
            let e1 = entry_step(e, x);
            assert(e1.0);
            assert(entry_step(e1, hl) == (e1.0, e1.1.insert("Hidden"@, hidden_value(hidden))));
            assert forall|i: int| 0 <= i < n.3.len() implies no_newline(#[trigger] n.3[i]) by {
                if i < st.3.push(x).len() {
                    assert(n.3[i] == st.3.push(x)[i]);
                }
            }
        } else {
            assert(!entry_step(e, x).0);
        }
    } else if st.0 && is_hidden_key_line(x) {
    } else {
        lemma_key_of_trimmed(x);
        if e.0 && !(t.len() > 0 && t[0] == '#') && contains_char(t, '=') {
            assert(trim(t.take(index_of(t, '='))) != "Hidden"@);
        }
    }
}

proof fn lemma_override_prefix(ls: Seq<Seq<char>>, k: int, hidden: bool)
    requires
        0 <= k <= ls.len(),
        forall|i: int| 0 <= i < ls.len() ==> no_newline(#[trigger] ls[i]),
    ensures
        override_inv(hide_fold(ls.take(k), hidden), hidden),
    decreases k,
{
    if k == 0 {
        assert(ls.take(0) =~= Seq::<Seq<char>>::empty());
        assert(Seq::<Seq<char>>::empty().map_values(|l: Seq<char>| crate::text::strip_cr(l)) =~= Seq::<Seq<char>>::empty());
    } else {
        lemma_override_prefix(ls, k - 1, hidden);
        assert(ls.take(k).drop_last() =~= ls.take(k - 1));
        assert(ls.take(k).last() == ls[k - 1]);
        lemma_override_step(hide_fold(ls.take(k - 1), hidden), ls[k - 1], hidden);
    }
}

/// A sequence that starts with a non-blank character keeps it first once trimmed.
proof fn lemma_trim_keeps_first(q: Seq<char>)
    requires
        q.len() > 0,
        !crate::text::is_ws(q[0]),
    ensures
        trim(q).len() > 0,
        trim(q)[0] == q[0],
{
    assert(crate::text::trim_start(q) == q);
    lemma_trim_end_shape(q);
    if trail(q) == q.len() {
        assert(crate::text::is_ws(q[0]));
    }
}

/// A comment line never carries the `Hidden` key.
proof fn lemma_comment_not_hidden(x: Seq<char>)
    requires
        trim(x).len() > 0,
        trim(x)[0] == '#',
        contains_char(x, '='),
    ensures
        !is_hidden_key_line(x),
{
    let t = trim(x);
    lemma_key_of_trimmed(x);
    crate::text::lemma_index_of(t, '=');
    let c = index_of(t, '=');
    assert(c > 0) by {
        if c == 0 {
            assert(t[0] == '=');
        }
    }
    let q = t.take(c);
    assert(q[0] == '#');
    lemma_trim_keeps_first(q);
    reveal_strlit("Hidden");
    assert("Hidden"@[0] == 'H');
}

/// How an override's output relates to the input read so far: the parser's section flag
/// agrees, and the output's fields are the input's, with `Hidden` written over them once
/// the section has begun.
pub open spec fn readback_inv(
    st: (bool, bool, bool, Seq<Seq<char>>),
    tf: (bool, Map<Seq<char>, Seq<char>>),
    hidden: bool,
) -> bool {
    !st.2 ==> {
        &&& tf.0 == st.0
        &&& st.0 ==> st.1
        &&& entry_of(st.3).1 == if st.1 {
            tf.1.insert("Hidden"@, hidden_value(hidden))
        } else {
            tf.1
        }
    }
}

proof fn lemma_readback_step(
    st: (bool, bool, bool, Seq<Seq<char>>),
    tf: (bool, Map<Seq<char>, Seq<char>>),
    x: Seq<char>,
    hidden: bool,
)
    requires
        override_inv(st, hidden),
        readback_inv(st, tf, hidden),
    ensures
        readback_inv(hide_step(st, x, hidden), entry_step(tf, x), hidden),
{
    let n = hide_step(st, x, hidden);
    if st.2 || n.2 {
        return;
    }
    let t = trim(x);
    let e = entry_of(st.3);
    let h = "Hidden"@;
    let v = hidden_value(hidden);
    lemma_entry_of_push(st.3, x);
    if t.len() > 0 && t[0] == '[' {
        if t == "[Desktop Entry]"@ {
            let hl = hidden_line(hidden);
            lemma_hidden_line(hidden);
            lemma_entry_of_push(st.3.push(x), hl);
            let e1 = entry_step(e, x);
            assert(entry_step(e1, hl) == (e1.0, e1.1.insert(h, v)));
        }
    } else if st.0 && is_hidden_key_line(x) {
        lemma_key_of_trimmed(x);
        if t.len() > 0 && t[0] == '#' {
            lemma_comment_not_hidden(x);
        }
        let i = index_of(t, '=');
        assert(entry_step(tf, x).1 == tf.1.insert(h, trim(t.skip(i + 1))));
        assert(tf.1.insert(h, trim(t.skip(i + 1))).insert(h, v) =~= tf.1.insert(h, v));
    } else {
        lemma_key_of_trimmed(x);
        if e.0 && !(t.len() > 0 && t[0] == '#') && contains_char(t, '=') {
            let i = index_of(t, '=');
            let k = trim(t.take(i));
            assert(k != h);
            let w = trim(t.skip(i + 1));
            if st.1 {
                assert(tf.1.insert(h, v).insert(k, w) =~= tf.1.insert(k, w).insert(h, v));
            }
        }
    }
}

proof fn lemma_readback_prefix(ls: Seq<Seq<char>>, k: int, hidden: bool)
    requires
        0 <= k <= ls.len(),
        forall|i: int| 0 <= i < ls.len() ==> no_newline(#[trigger] ls[i]),
    ensures
        readback_inv(hide_fold(ls.take(k), hidden), entry_fold(ls.take(k)), hidden),
    decreases k,
{
    if k == 0 {
        assert(ls.take(0) =~= Seq::<Seq<char>>::empty());
        assert(Seq::<Seq<char>>::empty().map_values(|l: Seq<char>| crate::text::strip_cr(l)) =~= Seq::<Seq<char>>::empty());
    } else {
        lemma_readback_prefix(ls, k - 1, hidden);
        lemma_override_prefix(ls, k - 1, hidden);
        assert(ls.take(k).drop_last() =~= ls.take(k - 1));
        assert(ls.take(k).last() == ls[k - 1]);
        lemma_readback_step(hide_fold(ls.take(k - 1), hidden), entry_fold(ls.take(k - 1)), ls[k - 1], hidden);
    }
}

/// An override reads back: the `[Desktop Entry]` section of the text `set_hidden` writes
/// holds exactly the fields it held before, with `Hidden` set to the value written.
pub proof fn lemma_override_reads_back(text: Seq<char>, hidden: bool)
    requires
        hidden_override(text, hidden) is Ok,
    ensures
        entry_fields(hidden_override(text, hidden)->Ok_0).contains_key("Hidden"@),
        entry_fields(hidden_override(text, hidden)->Ok_0)["Hidden"@] == hidden_value(hidden),
        entry_fields(hidden_override(text, hidden)->Ok_0) == entry_fields(text).insert(
            "Hidden"@,
            hidden_value(hidden),
        ),
{
    let ls = lines(text);
    lemma_lines_have_no_newline(text);
    lemma_override_prefix(ls, ls.len() as int, hidden);
    lemma_readback_prefix(ls, ls.len() as int, hidden);
    assert(ls.take(ls.len() as int) =~= ls);
    let st = hide_fold(ls, hidden);
    lemma_lines_of_join(st.3);
}


/// What a core capture comes to, once the capture ran and the target was read again:
/// whether the dump file must be removed, and the reply. A failed capture, or a target
/// whose identity no longer matches, never leaves a dump behind.
pub fn dump_outcome(captured: Result<String, String>, after: Option<Identity>, id: &Identity, file: &str) -> (r: (
    bool,
    Result<String, String>,
))
    ensures
        r.0 == (captured is Err || after != Some(*id)),
        match captured {
            Err(e) => r.1 matches Err(m) && m@ == "Core dump failed (ptrace permission or timeout): "@ + trim(e@),
            Ok(_) => if after != Some(*id) {
                r.1 matches Err(m) && m@ == "Process identity could not be verified after capture; dump removed"@
            } else {
                r.1 matches Ok(m) && m@ == "Core dump saved to "@ + file@
            },
        },
{
    match captured {
        Err(e) => {
            let c = chars_of(e.as_str());
            let t = crate::text::trimmed(&c, 0, c.len());
            assert(c@.subrange(0, c@.len() as int) =~= c@);
            let mut m = "Core dump failed (ptrace permission or timeout): ".to_owned();
            m.append(string_of(t.as_slice()).as_str());
            (true, Err(m))
        },
        Ok(_) => {
            let same = match after {
                Some(a) => a == *id,
                None => false,
            };
            if !same {
                (true, Err("Process identity could not be verified after capture; dump removed".to_owned()))
            } else {
                let mut m = "Core dump saved to ".to_owned();
                m.append(file);
                (false, Ok(m))
            }
        },
    }
}


/// How many open files an inspection lists (directory entries read).
pub const INSPECT_FILES: usize = 256;

/// How many threads an inspection lists.
pub const INSPECT_THREADS: usize = 512;

/// How much of the memory map an inspection shows (bytes).
pub const INSPECT_MAPS_BYTES: usize = 524288;

/// How much of the status and cgroup texts an inspection shows (bytes each).
pub const INSPECT_TEXT_BYTES: usize = 65536;

/// How much of a process's command line is read (bytes).
pub const COMMAND_LINE_BYTES: usize = 16384;

/// Keeps at most `cap` of `items`, in order, and says whether any was dropped.
pub fn capped<T>(items: Vec<T>, cap: usize) -> (r: (Vec<T>, bool))
    ensures
        r.1 == (items@.len() > cap),
        r.0@ == if r.1 { items@.take(cap as int) } else { items@ },
{
    let cut = items.len() > cap;
    let mut v = items;
    v.truncate(cap);
    (v, cut)
}

/// At most `limit` bytes of a procfs text, decoded, and whether the text was cut.
pub fn bounded_text(bytes: &[u8], limit: usize) -> (r: (String, bool))
    ensures
        r.1 == (bytes@.len() > limit),
        r.0@ == crate::process::utf8_lossy(if r.1 { bytes@.take(limit as int) } else { bytes@ }),
{
    let cut = bytes.len() > limit;
    let n = if cut { limit } else { bytes.len() };
    let part = vstd::slice::slice_subrange(bytes, 0, n);
    assert(part@ == if cut { bytes@.take(limit as int) } else { bytes@ }) by {
        if !cut {
            assert(bytes@.subrange(0, n as int) =~= bytes@);
        }
    }
    (crate::process::lossy_string(part), cut)
}

/// A text shown with a trailing ellipsis when it was cut at its bound.
pub fn marked_if_cut(text: String, cut: bool) -> (r: String)
    ensures
        r@ == if cut { text@ + "…"@ } else { text@ },
{
    let mut t = text;
    if cut {
        t.append("…");
    }
    t
}

/// The note shown with an inspection; it discloses when a list or text was cut at its bound.
pub fn inspection_note(truncated: bool) -> (r: String)
    ensures
        r@ == "Read permissions may hide files or memory maps. No process memory is copied."@ + if truncated {
            " Some lists or texts reached their size limit and were truncated."@
        } else {
            ""@
        },
{
    let mut n = "Read permissions may hide files or memory maps. No process memory is copied.".to_owned();
    if truncated {
        n.append(" Some lists or texts reached their size limit and were truncated.");
    } else {
        n.append("");
    }
    n
}

} // verus!
