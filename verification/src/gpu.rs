//! GPU clients from DRM fdinfo, device filtering, and the rows of the NVIDIA reading
//! stream. Absent driver counters stay absent rather than reading as zero.
use vstd::prelude::*;
use crate::metrics::{sat_add, sat_mul, saturating_mul};
use crate::table::Table;
use crate::text::{
    chars_of, ends_with, find_char, index_of, lines, parse_u64, parse_u64_range,
    range_ends_with, range_eq, range_starts_with, split_lines, split_words, starts_with,
    string_of, trim, trimmed, views, words,
};

verus! {

/// The first number of an fdinfo value (`"500 ns"` reads 500).
pub open spec fn first_number(value: Seq<char>) -> Option<u64> {
    let w = words(value);
    if w.len() > 0 {
        parse_u64(w[0])
    } else {
        None
    }
}

/// A resident-memory amount in bytes, by its unit.
pub open spec fn resident_amount(value: Seq<char>, n: u64) -> u64 {
    if ends_with(value, "KiB"@) {
        sat_mul(n, 1024)
    } else if ends_with(value, "MiB"@) {
        sat_mul(n, 1048576)
    } else {
        n
    }
}

/// What the fdinfo lines read so far say of a client: whether a driver was named, the
/// device, the client id, busy nanoseconds and capacity per engine, resident bytes.
pub type ClientState = (bool, Seq<char>, Seq<char>, Map<Seq<char>, u64>, Map<Seq<char>, u64>, Option<u64>);

pub open spec fn max1(n: u64) -> u64 {
    if n < 1 {
        1
    } else {
        n
    }
}

/// The effect of one fdinfo line `key: value`.
pub open spec fn client_step(st: ClientState, l: Seq<char>) -> ClientState {
    let i = index_of(l, ':');
    if i >= l.len() {
        st
    } else {
        let key = l.take(i);
        let value = trim(l.skip(i + 1));
        if key == "drm-driver"@ {
            (true, st.1, st.2, st.3, st.4, st.5)
        } else if key == "drm-pdev"@ {
            (st.0, value, st.2, st.3, st.4, st.5)
        } else if key == "drm-client-id"@ {
            (st.0, st.1, value, st.3, st.4, st.5)
        } else {
            match first_number(value) {
                None => st,
                Some(n) => if starts_with(key, "drm-engine-capacity-"@) {
                    (st.0, st.1, st.2, st.3, st.4.insert(key.skip("drm-engine-capacity-"@.len() as int), max1(n)), st.5)
                } else if starts_with(key, "drm-engine-"@) {
                    if ends_with(value, " ns"@) {
                        (st.0, st.1, st.2, st.3.insert(key.skip("drm-engine-"@.len() as int), n), st.4, st.5)
                    } else {
                        st
                    }
                } else if starts_with(key, "drm-resident-"@) {
                    let held: u64 = match st.5 {
                        Some(m) => m,
                        None => 0,
                    };
                    (st.0, st.1, st.2, st.3, st.4, Some(sat_add(held, resident_amount(value, n))))
                } else {
                    st
                },
            }
        }
    }
}

pub open spec fn client_fold(ls: Seq<Seq<char>>) -> ClientState
    decreases ls.len(),
{
    if ls.len() == 0 {
        (false, seq![], seq![], Map::empty(), Map::empty(), None)
    } else {
        client_step(client_fold(ls.drop_last()), ls.last())
    }
}

/// The client an fdinfo text describes: one that names its driver and a client id.
pub open spec fn client_of(text: Seq<char>) -> Option<ClientState> {
    let st = client_fold(lines(text));
    if st.0 && st.2.len() > 0 {
        Some(st)
    } else {
        None
    }
}

/// A DRM client of one open descriptor.
pub struct Client {
    pub device: String,
    pub id: String,
    /// Busy nanoseconds per engine.
    pub engines: Table<u64>,
    /// Parallel capacity per engine (at least one).
    pub capacity: Table<u64>,
    /// Resident bytes over all memory regions.
    pub memory: Option<u64>,
}

pub open spec fn client_view(c: Client) -> ClientState {
    (true, c.device@, c.id@, c.engines@, c.capacity@, c.memory)
}

fn number_step(
    key: &Vec<char>,
    value: &Vec<char>,
    n: u64,
    engines: &mut Table<u64>,
    capacity: &mut Table<u64>,
    memory: &mut Option<u64>,
)
    ensures
        if starts_with(key@, "drm-engine-capacity-"@) {
            &&& final(capacity)@ == old(capacity)@.insert(key@.skip("drm-engine-capacity-"@.len() as int), max1(n))
            &&& final(engines)@ == old(engines)@
            &&& *final(memory) == *old(memory)
        } else if starts_with(key@, "drm-engine-"@) && ends_with(value@, " ns"@) {
            &&& final(capacity)@ == old(capacity)@
            &&& final(engines)@ == old(engines)@.insert(key@.skip("drm-engine-"@.len() as int), n)
            &&& *final(memory) == *old(memory)
        } else if !starts_with(key@, "drm-engine-"@) && starts_with(key@, "drm-resident-"@) {
            &&& final(capacity)@ == old(capacity)@
            &&& final(engines)@ == old(engines)@
            &&& *final(memory) == Some(sat_add(
                match *old(memory) {
                    Some(m) => m,
                    None => 0u64,
                },
                resident_amount(value@, n),
            ))
        } else {
            &&& final(capacity)@ == old(capacity)@
            &&& final(engines)@ == old(engines)@
            &&& *final(memory) == *old(memory)
        },
{
    let cap = chars_of("drm-engine-capacity-");
    let eng = chars_of("drm-engine-");
    let res = chars_of("drm-resident-");
    let ns = chars_of(" ns");
    let kib = chars_of("KiB");
    let mib = chars_of("MiB");
    assert(key@.subrange(0, key@.len() as int) =~= key@);
    assert(value@.subrange(0, value@.len() as int) =~= value@);
    if range_starts_with(key, 0, key.len(), &cap) {
        assert(key@.subrange(cap.len() as int, key.len() as int) =~= key@.skip(cap@.len() as int));
        let k = crate::text::copy_range(key, cap.len(), key.len());
        capacity.insert(string_of(k.as_slice()), if n < 1 { 1 } else { n });
    } else if range_starts_with(key, 0, key.len(), &eng) {
        if range_ends_with(value, 0, value.len(), &ns) {
            assert(key@.subrange(eng.len() as int, key.len() as int) =~= key@.skip(eng@.len() as int));
            let k = crate::text::copy_range(key, eng.len(), key.len());
            engines.insert(string_of(k.as_slice()), n);
        }
    } else if range_starts_with(key, 0, key.len(), &res) {
        let amount = if range_ends_with(value, 0, value.len(), &kib) {
            saturating_mul(n, 1024)
        } else if range_ends_with(value, 0, value.len(), &mib) {
            saturating_mul(n, 1048576)
        } else {
            n
        };
        let held: u64 = match *memory {
            Some(m) => m,
            None => 0,
        };
        *memory = Some(held.saturating_add(amount));
    }
}

/// Parses the fdinfo of a DRM descriptor: a client when the text names its driver and a
/// non-empty client id.
pub fn parse(text: &str) -> (r: Option<Client>)
    ensures
        match (r, client_of(text@)) {
            (Some(c), Some(st)) => client_view(c) == st,
            (None, None) => true,
            _ => false,
        },
{
    let s = chars_of(text);
    let ls = split_lines(&s);
    let k_driver = chars_of("drm-driver");
    let k_pdev = chars_of("drm-pdev");
    let k_id = chars_of("drm-client-id");
    let mut driver = false;
    let mut device: Vec<char> = Vec::new();
    let mut id: Vec<char> = Vec::new();
    let mut engines: Table<u64> = Table::new();
    let mut capacity: Table<u64> = Table::new();
    let mut memory: Option<u64> = None;
    let mut i: usize = 0;
    while i < ls.len()
        invariant
            i <= ls.len(),
            views(ls@) == lines(text@),
            k_driver@ == "drm-driver"@,
            k_pdev@ == "drm-pdev"@,
            k_id@ == "drm-client-id"@,
            (driver, device@, id@, engines@, capacity@, memory) == client_fold(views(ls@).take(i as int)),
        decreases ls.len() - i,
    {
        let line = &ls[i];
        assert(views(ls@).take(i + 1).drop_last() =~= views(ls@).take(i as int));
        assert(views(ls@).take(i + 1).last() == line@);
        let n = line.len();
        assert(line@.subrange(0, n as int) =~= line@);
        let c = find_char(line, 0, n, ':');
        if c < n {
            assert(line@.subrange(0, c as int) =~= line@.take(c as int));
            assert(line@.subrange(c + 1, n as int) =~= line@.skip(c + 1));
            let value = trimmed(line, c + 1, n);
            if range_eq(line, 0, c, &k_driver) {
                driver = true;
            } else if range_eq(line, 0, c, &k_pdev) {
                device = value;
            } else if range_eq(line, 0, c, &k_id) {
                id = value;
            } else {
                assert(value@.subrange(0, value@.len() as int) =~= value@);
                let ws = split_words(&value, 0, value.len());
                if ws.len() > 0 {
                    let w = &ws[0];
                    assert(views(ws@)[0] == w@);
                    assert(w@.subrange(0, w@.len() as int) =~= w@);
                    match parse_u64_range(w, 0, w.len()) {
                        Some(x) => {
                            let key = crate::text::copy_range(line, 0, c);
                            number_step(&key, &value, x, &mut engines, &mut capacity, &mut memory);
                        },
                        None => {},
                    }
                }
            }
        }
        i += 1;
    }
    assert(views(ls@).take(ls.len() as int) =~= views(ls@));
    if driver && id.len() > 0 {
        Some(Client {
            device: string_of(device.as_slice()),
            id: string_of(id.as_slice()),
            engines,
            capacity,
            memory,
        })
    } else {
        None
    }
}

/// `libc::major`: the major number of a Linux device id, as the crate computes it.
#[verifier::external_body]
fn device_major(dev: u64) -> (r: u32)
    ensures
        r == (((dev & 0xfff00u64) >> 8u64) | ((dev & 0xfffff00000000000u64) >> 32u64)) as u32,
{
    libc::major(dev)
}

/// Whether a descriptor's target is a DRM (major 226) or compute-accelerator (major 261)
/// character device: only those publish `drm-*` fdinfo.
pub fn is_drm_device(is_char_device: bool, rdev: u64) -> (r: bool)
    ensures
        r == (is_char_device && ({
            let m = (((rdev & 0xfff00u64) >> 8u64) | ((rdev & 0xfffff00000000000u64) >> 32u64)) as u32;
            m == 226 || m == 261
        })),
{
    if !is_char_device {
        return false;
    }
    let m = device_major(rdev);
    m == 226 || m == 261
}

/// A DRM card node name: `card` followed by one or more ASCII digits.
pub open spec fn is_card_name(name: Seq<char>) -> bool {
    &&& starts_with(name, "card"@)
    &&& name.len() > "card"@.len()
    &&& crate::text::all_digits(name.skip("card"@.len() as int))
}

pub fn card_name(name: &str) -> (r: bool)
    ensures
        r == is_card_name(name@),
{
    let c = chars_of(name);
    let p = chars_of("card");
    assert(c@.subrange(0, c@.len() as int) =~= c@);
    if !range_starts_with(&c, 0, c.len(), &p) || c.len() <= p.len() {
        return false;
    }
    let mut i = p.len();
    while i < c.len()
        invariant
            p@ == "card"@,
            p.len() <= i <= c.len(),
            c@ == name@,
            forall|j: int| p.len() <= j < i ==> crate::text::is_digit(#[trigger] c@[j]),
        decreases c.len() - i,
    {
        let u = c[i] as u32;
        if !(0x30 <= u && u <= 0x39) {
            assert(name@.skip(p@.len() as int)[i - p.len()] == c@[i as int]);
            return false;
        }
        i += 1;
    }
    assert forall|j: int| 0 <= j < name@.skip(p@.len() as int).len() implies crate::text::is_digit(#[trigger] name@.skip(p@.len() as int)[j]) by {
        assert(name@.skip(p@.len() as int)[j] == c@[j + p.len()]);
    }
    true
}

/// The columns of an `nvidia-smi` CSV row (bus id, name, utilisation, memory used and
/// total in MiB, temperature, power), trimmed; a row needs all seven and a bus id.
pub open spec fn nvidia_columns_of(l: Seq<char>) -> Option<Seq<Seq<char>>> {
    let cols = crate::text::split_char(l, ',').map_values(|c: Seq<char>| trim(c));
    if cols.len() == 7 && cols[0].len() > 0 {
        Some(cols)
    } else {
        None
    }
}

pub open spec fn nvidia_rows_of(ls: Seq<Seq<char>>) -> Seq<Seq<Seq<char>>>
    decreases ls.len(),
{
    if ls.len() == 0 {
        seq![]
    } else {
        nvidia_rows_of(ls.drop_last()) + match nvidia_columns_of(ls.last()) {
            Some(c) => seq![c],
            None => seq![],
        }
    }
}

pub open spec fn row_view(r: Vec<String>) -> Seq<Seq<char>> {
    r@.map_values(|c: String| c@)
}

fn nvidia_columns(line: &Vec<char>) -> (r: Option<Vec<String>>)
    ensures
        match (r, nvidia_columns_of(line@)) {
            (Some(v), Some(w)) => row_view(v) == w,
            (None, None) => true,
            _ => false,
        },
{
    assert(line@.subrange(0, line@.len() as int) =~= line@);
    let parts = crate::text::split_on(line, 0, line.len(), ',');
    if parts.len() != 7 {
        return None;
    }
    let ghost spec_cols = crate::text::split_char(line@, ',').map_values(|c: Seq<char>| trim(c));
    let mut cols: Vec<String> = Vec::new();
    let mut i: usize = 0;
    while i < parts.len()
        invariant
            i <= parts.len(),
            views(parts@) == crate::text::split_char(line@, ','),
            spec_cols == crate::text::split_char(line@, ',').map_values(|c: Seq<char>| trim(c)),
            row_view(cols) == spec_cols.take(i as int),
        decreases parts.len() - i,
    {
        let p = &parts[i];
        assert(views(parts@)[i as int] == p@);
        assert(p@.subrange(0, p@.len() as int) =~= p@);
        let t = trimmed(p, 0, p.len());
        let ghost before = row_view(cols);
        let st = string_of(t.as_slice());
        assert(spec_cols[i as int] == trim(p@));
        cols.push(st);
        assert(row_view(cols) =~= before.push(st@));
        i += 1;
        assert(row_view(cols) =~= spec_cols.take(i as int));
    }
    assert(spec_cols.take(7) =~= spec_cols);
    if cols[0].as_str().is_empty() {
        return None;
    }
    Some(cols)
}

/// The well-formed rows of `nvidia-smi` CSV output, in order.
pub fn nvidia_rows(output: &str) -> (r: Vec<Vec<String>>)
    ensures
        r@.map_values(|row: Vec<String>| row_view(row)) == nvidia_rows_of(lines(output@)),
{
    let s = chars_of(output);
    let ls = split_lines(&s);
    let mut out: Vec<Vec<String>> = Vec::new();
    let mut i: usize = 0;
    while i < ls.len()
        invariant
            i <= ls.len(),
            views(ls@) == lines(output@),
            out@.map_values(|row: Vec<String>| row_view(row)) == nvidia_rows_of(views(ls@).take(i as int)),
        decreases ls.len() - i,
    {
        assert(views(ls@).take(i + 1).drop_last() =~= views(ls@).take(i as int));
        assert(views(ls@).take(i + 1).last() == ls@[i as int]@);
        let ghost before = out@.map_values(|row: Vec<String>| row_view(row));
        match nvidia_columns(&ls[i]) {
            Some(c) => {
                let ghost cv = row_view(c);
                out.push(c);
                assert(out@.map_values(|row: Vec<String>| row_view(row)) =~= before.push(cv));
            },
            None => {},
        }
        i += 1;
        assert(out@.map_values(|row: Vec<String>| row_view(row)) =~= nvidia_rows_of(views(ls@).take(i as int)));
    }
    assert(views(ls@).take(ls.len() as int) =~= views(ls@));
    out
}

/// The quiet period after which an exited reading stream may be started again (10 s).
pub const NVIDIA_RESTART_MS: u64 = 10000;

/// Whether to start the NVIDIA reading stream: it is not running, and it was never started
/// or was last started at least ten seconds ago.
pub fn restart_due(exited: bool, started_ms: Option<u64>, now_ms: u64) -> (r: bool)
    ensures
        r == (exited && match started_ms {
            None => true,
            Some(t) => now_ms >= t && now_ms - t >= NVIDIA_RESTART_MS,
        }),
{
    exited && match started_ms {
        None => true,
        Some(t) => now_ms >= t && now_ms - t >= NVIDIA_RESTART_MS,
    }
}

/// How many devices the NVIDIA stream keeps rows for.
pub const NVIDIA_DEVICES: usize = 64;

/// How old a row may be and still be shown as live (3 s).
pub const NVIDIA_STALE_MS: u64 = 3000;

/// How many bytes one line of the stream may take, newline included.
pub const NVIDIA_LINE_LIMIT: usize = 4096;

/// Lexicographic order of strings by character (the byte order of their UTF-8 text).
pub open spec fn lex_lt(a: Seq<char>, b: Seq<char>) -> bool
    decreases a.len(),
{
    if a.len() == 0 {
        b.len() > 0
    } else if b.len() == 0 {
        false
    } else if (a[0] as u32) < (b[0] as u32) {
        true
    } else if a[0] == b[0] {
        lex_lt(a.drop_first(), b.drop_first())
    } else {
        false
    }
}

pub(crate) fn less(a: &Vec<char>, b: &Vec<char>) -> (r: bool)
    ensures
        r == lex_lt(a@, b@),
{
    let mut i: usize = 0;
    assert(a@.skip(0) =~= a@ && b@.skip(0) =~= b@);
    while i < a.len() && i < b.len() && a[i] == b[i]
        invariant
            i <= a.len(),
            i <= b.len(),
            lex_lt(a@, b@) == lex_lt(a@.skip(i as int), b@.skip(i as int)),
        decreases a.len() - i,
    {
        assert(a@.skip(i as int).drop_first() =~= a@.skip(i + 1));
        assert(b@.skip(i as int).drop_first() =~= b@.skip(i + 1));
        assert(a@.skip(i as int)[0] == a@[i as int] && b@.skip(i as int)[0] == b@[i as int]);
        i += 1;
    }
    assert(i < a.len() ==> a@.skip(i as int)[0] == a@[i as int]);
    assert(i < b.len() ==> b@.skip(i as int)[0] == b@[i as int]);
    if i == a.len() {
        i < b.len()
    } else if i == b.len() {
        false
    } else {
        (a[i] as u32) < (b[i] as u32)
    }
}

/// One stored reading: bus id, when it was read (ms), the row.
pub open spec fn reading_view(r: (String, u64, String)) -> (Seq<char>, u64, Seq<char>) {
    (r.0@, r.1, r.2@)
}

/// Inserting a reading into rows kept in bus order: a reading of a present bus replaces
/// that bus's reading in place.
pub open spec fn sorted_insert(s: Seq<(Seq<char>, u64, Seq<char>)>, e: (Seq<char>, u64, Seq<char>)) -> Seq<(Seq<char>, u64, Seq<char>)>
    decreases s.len(),
{
    if s.len() == 0 {
        seq![e]
    } else if s[0].0 == e.0 {
        seq![e] + s.drop_first()
    } else if lex_lt(e.0, s[0].0) {
        seq![e] + s
    } else {
        seq![s[0]] + sorted_insert(s.drop_first(), e)
    }
}

pub open spec fn has_bus(s: Seq<(Seq<char>, u64, Seq<char>)>, bus: Seq<char>) -> bool {
    exists|i: int| 0 <= i < s.len() && s[i].0 == bus
}

/// The rows read in the last three seconds, in bus order.
pub open spec fn fresh_rows(s: Seq<(Seq<char>, u64, Seq<char>)>, now: u64) -> Seq<Seq<char>>
    decreases s.len(),
{
    if s.len() == 0 {
        seq![]
    } else {
        fresh_rows(s.drop_last(), now) + if (if now >= s.last().1 { now - s.last().1 } else { 0 }) < NVIDIA_STALE_MS {
            seq![s.last().2]
        } else {
            seq![]
        }
    }
}

/// Lines joined with a newline between them.
pub open spec fn newline_joined(ls: Seq<Seq<char>>) -> Seq<char>
    decreases ls.len(),
{
    if ls.len() == 0 {
        seq![]
    } else if ls.len() == 1 {
        ls[0]
    } else {
        newline_joined(ls.drop_last()) + seq!['\n'] + ls.last()
    }
}

/// What one line read from the stream means.
pub enum StreamLine {
    /// An empty read, a line cut short by the length bound, or the end: stop reading.
    End,
    /// A line without a comma: ignored.
    Skip,
    /// A reading: the bus id before the first comma, and the line without trailing
    /// white space.
    Reading(String, String),
}

/// Classifies a line of at most `NVIDIA_LINE_LIMIT` bytes read from the stream.
pub fn stream_line(line: &str) -> (r: StreamLine)
    ensures
        match r {
            StreamLine::End => line@.len() == 0 || line@.last() != '\n',
            StreamLine::Skip => line@.len() > 0 && line@.last() == '\n' && index_of(line@, ',') >= line@.len(),
            StreamLine::Reading(bus, row) => line@.len() > 0 && line@.last() == '\n' && index_of(line@, ',')
                < line@.len() && bus@ == line@.take(index_of(line@, ',')) && row@
                == crate::text::trim_end(line@),
        },
{
    let c = chars_of(line);
    let n = c.len();
    if n == 0 || c[n - 1] != '\n' {
        return StreamLine::End;
    }
    assert(c@.subrange(0, n as int) =~= c@);
    let k = find_char(&c, 0, n, ',');
    if k >= n {
        return StreamLine::Skip;
    }
    let bus = crate::text::copy_range(&c, 0, k);
    assert(bus@ =~= line@.take(k as int));
    let (_, b) = crate::text::trim_bounds(&c, 0, n);
    let mut e = n;
    while e > 0 && crate::text::char_is_ws(c[e - 1])
        invariant
            e <= n == c.len(),
            crate::text::trim_end(c@) == crate::text::trim_end(c@.subrange(0, e as int)),
        decreases e,
    {
        assert(c@.subrange(0, e as int).drop_last() =~= c@.subrange(0, e - 1));
        e -= 1;
    }
    let row = crate::text::copy_range(&c, 0, e);
    StreamLine::Reading(string_of(bus.as_slice()), string_of(row.as_slice()))
}

/// The latest reading per device of the NVIDIA stream, kept in bus order.
pub struct NvidiaRows {
    rows: Vec<(String, u64, String)>,
}

impl NvidiaRows {
    pub closed spec fn readings(&self) -> Seq<(Seq<char>, u64, Seq<char>)> {
        self.rows@.map_values(|r: (String, u64, String)| reading_view(r))
    }

    pub fn new() -> (r: NvidiaRows)
        ensures
            r.readings() == Seq::<(Seq<char>, u64, Seq<char>)>::empty(),
    {
        let r = NvidiaRows { rows: Vec::new() };
        assert(r.readings() =~= Seq::<(Seq<char>, u64, Seq<char>)>::empty());
        r
    }

    /// Stores a reading of `bus` taken at `time` (ms): it replaces the bus's earlier
    /// reading; a new bus is taken only while fewer than 64 are kept.
    pub fn record(&mut self, bus: String, time: u64, row: String)
        ensures
            final(self).readings() == if old(self).readings().len() < NVIDIA_DEVICES || has_bus(old(self).readings(), bus@) {
                sorted_insert(old(self).readings(), (bus@, time, row@))
            } else {
                old(self).readings()
            },
    {
        let b = chars_of(bus.as_str());
        let ghost e = (bus@, time, row@);
        let ghost s = self.readings();
        assert(s == old(self).readings());
        let mut present = false;
        let mut j: usize = 0;
        while j < self.rows.len()
            invariant
                j <= self.rows.len(),
                b@ == bus@,
                s == self.readings(),
                s == old(self).readings(),
                present == exists|i: int| 0 <= i < j && s[i].0 == bus@,
            decreases self.rows.len() - j,
        {
            let k = chars_of(self.rows[j].0.as_str());
            assert(s[j as int].0 == k@);
            assert(k@.subrange(0, k@.len() as int) =~= k@);
            if range_eq(&k, 0, k.len(), &b) {
                present = true;
            }
            j += 1;
        }
        if !(self.rows.len() < NVIDIA_DEVICES || present) {
            return;
        }
        assert(s.len() < NVIDIA_DEVICES || has_bus(s, bus@));
        let mut i: usize = 0;
        assert(s.skip(0) =~= s);
        while i < self.rows.len()
            invariant
                i <= self.rows.len(),
                b@ == bus@,
                s == self.readings(),
                s == old(self).readings(),
                s.len() < NVIDIA_DEVICES || has_bus(s, bus@),
                e == (bus@, time, row@),
                sorted_insert(s, e) == s.take(i as int) + sorted_insert(s.skip(i as int), e),
            decreases self.rows.len() - i,
        {
            let k = chars_of(self.rows[i].0.as_str());
            assert(s.skip(i as int)[0] == s[i as int]);
            assert(s[i as int].0 == k@);
            assert(k@.subrange(0, k@.len() as int) =~= k@);
            if range_eq(&k, 0, k.len(), &b) {
                let ghost tail = s.skip(i as int);
                assert(tail[0].0 == e.0);
                assert(sorted_insert(tail, e) == seq![e] + tail.drop_first());
                self.rows.set(i, (bus, time, row));
                assert(self.readings() =~= s.take(i as int) + (seq![e] + tail.drop_first()));
                assert(self.readings() == sorted_insert(s, e));
                return;
            }
            if less(&b, &k) {
                let ghost tail = s.skip(i as int);
                assert(tail[0].0 != e.0);
                assert(lex_lt(e.0, tail[0].0));
                assert(sorted_insert(tail, e) == seq![e] + tail);
                self.rows.insert(i, (bus, time, row));
                assert(self.readings() =~= s.take(i as int) + (seq![e] + tail));
                assert(self.readings() == sorted_insert(s, e));
                return;
            }
            assert(s.take(i as int) + (seq![s[i as int]] + sorted_insert(s.skip(i + 1), e)) =~= s.take(i + 1) + sorted_insert(s.skip(i + 1), e));
            assert(s.skip(i as int).drop_first() =~= s.skip(i + 1));
            i += 1;
        }
        assert(s.take(s.len() as int) =~= s);
        self.rows.push((bus, time, row));
        assert(self.readings() =~= s.push(e));
        assert(s + seq![e] =~= s.push(e));
    }

    /// The rows read less than three seconds before `now` (ms), in bus order, one per line.
    pub fn fresh(&self, now: u64) -> (r: String)
        ensures
            r@ == newline_joined(fresh_rows(self.readings(), now)),
    {
        let mut out: Vec<char> = Vec::new();
        let mut count: usize = 0;
        let mut i: usize = 0;
        let ghost s = self.readings();
        while i < self.rows.len()
            invariant
                i <= self.rows.len(),
                s == self.readings(),
                count == fresh_rows(s.take(i as int), now).len(),
                count <= i,
                out@ == newline_joined(fresh_rows(s.take(i as int), now)),
            decreases self.rows.len() - i,
        {
            assert(s.take(i + 1).drop_last() =~= s.take(i as int));
            assert(s.take(i + 1).last() == reading_view(self.rows@[i as int]));
            let age = now.saturating_sub(self.rows[i].1);
            if age < NVIDIA_STALE_MS {
                let ghost before = fresh_rows(s.take(i as int), now);
                if count > 0 {
                    out.push('\n');
                }
                let row = chars_of(self.rows[i].2.as_str());
                assert(row@.subrange(0, row@.len() as int) =~= row@);
                push_range_all(&mut out, &row);
                assert(fresh_rows(s.take(i + 1), now) == before.push(row@));
                proof {
                    if count == 0 {
                        assert(before.push(row@) =~= seq![row@]);
                    } else {
                        assert(before.push(row@).drop_last() =~= before);
                    }
                }
                count += 1;
            } else {
                assert(fresh_rows(s.take(i + 1), now) =~= fresh_rows(s.take(i as int), now));
            }
            i += 1;
        }
        assert(s.take(s.len() as int) =~= s);
        string_of(out.as_slice())
    }
}

fn push_range_all(out: &mut Vec<char>, src: &Vec<char>)
    ensures
        final(out)@ == old(out)@ + src@,
{
    crate::text::push_range(out, src, 0, src.len());
    assert(src@.subrange(0, src@.len() as int) =~= src@);
}

/// The key of a client: its device and id, colon separated; a client shared by several
/// descriptors or processes is counted once per sample.
pub open spec fn client_key(device: Seq<char>, id: Seq<char>) -> Seq<char> {
    device + seq![':'] + id
}

/// Engine counters of a client, keyed by the client key, a colon and the engine.
pub open spec fn prefixed(m: Map<Seq<char>, u64>, p: Seq<char>) -> Map<Seq<char>, u64> {
    Map::new(
        |k: Seq<char>| k.len() >= p.len() && k.take(p.len() as int) == p && m.contains_key(k.skip(p.len() as int)),
        |k: Seq<char>| m[k.skip(p.len() as int)],
    )
}

/// One engine of an admitted client: its name, busy nanoseconds now, busy nanoseconds at
/// the previous sample (if the client was seen then) and its capacity.
pub struct EngineReading {
    pub engine: String,
    pub busy: u64,
    pub previous: Option<u64>,
    pub capacity: u64,
}

/// Resident bytes of a process's clients, summed with saturation.
pub open spec fn add_memory_of(acc: Option<u64>, m: Option<u64>) -> Option<u64> {
    match m {
        Some(x) => Some(sat_add(
            match acc {
                Some(a) => a,
                None => 0u64,
            },
            x,
        )),
        None => acc,
    }
}

pub fn add_memory(acc: Option<u64>, m: Option<u64>) -> (r: Option<u64>)
    ensures
        r == add_memory_of(acc, m),
{
    match m {
        Some(x) => Some(
            match acc {
                Some(a) => a,
                None => 0,
            }.saturating_add(x),
        ),
        None => acc,
    }
}

/// The clients counted in the current sample and the engine counters of this and the
/// previous sample.
pub struct GpuTally {
    seen: Table<bool>,
    previous: Table<u64>,
    next: Table<u64>,
}

impl GpuTally {
    pub closed spec fn seen(&self) -> Set<Seq<char>> {
        self.seen@.dom()
    }

    pub closed spec fn previous(&self) -> Map<Seq<char>, u64> {
        self.previous@
    }

    pub closed spec fn next(&self) -> Map<Seq<char>, u64> {
        self.next@
    }

    pub fn new() -> (r: GpuTally)
        ensures
            r.seen() == Set::<Seq<char>>::empty(),
            r.previous() == Map::<Seq<char>, u64>::empty(),
            r.next() == Map::<Seq<char>, u64>::empty(),
    {
        let r = GpuTally { seen: Table::new(), previous: Table::new(), next: Table::new() };
        assert(r.seen() =~= Set::<Seq<char>>::empty());
        r
    }

    /// Counts a client found on a descriptor, unless it was already counted in this
    /// sample: returns its resident bytes and one reading per engine, and keeps the
    /// engines' counters for the next sample.
    pub fn count_client(&mut self, c: &Client) -> (r: Option<(Option<u64>, Vec<EngineReading>)>)
        ensures
            final(self).previous() == old(self).previous(),
            final(self).seen() == old(self).seen().insert(client_key(c.device@, c.id@)),
            match r {
                None => old(self).seen().contains(client_key(c.device@, c.id@)) && final(self).next() == old(self).next(),
                Some((memory, rows)) => !old(self).seen().contains(client_key(c.device@, c.id@)) && ({
                let p = client_key(c.device@, c.id@) + seq![':'];
                &&& memory == c.memory
                &&& final(self).next() == old(self).next().union_prefer_right(prefixed(c.engines@, p))
                &&& rows@.len() == c.engines@.dom().len()
                &&& forall|i: int, j: int| 0 <= i < j < rows@.len() ==> rows@[i].engine@ != rows@[j].engine@
                &&& forall|i: int| 0 <= i < rows@.len() ==> #[trigger] c.engines@.contains_key(rows@[i].engine@)
                    && rows@[i].busy == c.engines@[rows@[i].engine@]
                    && rows@[i].previous == (if old(self).previous().contains_key(p + rows@[i].engine@) {
                        Some(old(self).previous()[p + rows@[i].engine@])
                    } else {
                        None::<u64>
                    })
                    && rows@[i].capacity == (if c.capacity@.contains_key(rows@[i].engine@) {
                        c.capacity@[rows@[i].engine@]
                    } else {
                        1u64
                    })
                &&& forall|e: Seq<char>| #[trigger] c.engines@.contains_key(e) ==> exists|i: int| 0 <= i < rows@.len() && rows@[i].engine@ == e
                }),
            },
    {
        let mut kv: Vec<char> = chars_of(c.device.as_str());
        kv.push(':');
        let idc = chars_of(c.id.as_str());
        assert(idc@.subrange(0, idc@.len() as int) =~= idc@);
        crate::text::push_range(&mut kv, &idc, 0, idc.len());
        let key = string_of(kv.as_slice());
        assert(key@ =~= client_key(c.device@, c.id@));
        let known = self.seen.get(key.as_str());
        let key2 = key.clone();
        self.seen.insert(key2, true);
        assert(self.seen@.dom() =~= old(self).seen@.dom().insert(key@));
        if known.is_some() {
            return None;
        }
        kv.push(':');
        let ghost p = kv@;
        assert(p =~= client_key(c.device@, c.id@) + seq![':']);
        let es = c.engines.entries();
        let mut rows: Vec<EngineReading> = Vec::new();
        let mut i: usize = 0;
        let ghost next0 = self.next@;
        while i < es.len()
            invariant
                i <= es.len(),
                p == kv@,
                p == client_key(c.device@, c.id@) + seq![':'],
                self.previous@ == old(self).previous@,
                self.seen@ == old(self).seen@.insert(key@, true),
                es@.len() == c.engines@.dom().len(),
                forall|a: int, b: int| 0 <= a < b < es@.len() ==> es@[a].0@ != es@[b].0@,
                forall|a: int| 0 <= a < es@.len() ==> #[trigger] c.engines@.contains_key(es@[a].0@),
                forall|e: Seq<char>| #[trigger] c.engines@.contains_key(e) ==> exists|a: int| 0 <= a < es@.len() && es@[a].0@ == e,
                rows@.len() == i,
                forall|a: int| 0 <= a < i ==> (#[trigger] rows@[a]).engine@ == es@[a].0@
                    && rows@[a].busy == c.engines@[es@[a].0@]
                    && rows@[a].previous == (if old(self).previous@.contains_key(p + es@[a].0@) {
                        Some(old(self).previous@[p + es@[a].0@])
                    } else {
                        None::<u64>
                    })
                    && rows@[a].capacity == (if c.capacity@.contains_key(es@[a].0@) {
                        c.capacity@[es@[a].0@]
                    } else {
                        1u64
                    }),
                self.next@ == next0.union_prefer_right(prefixed(c.engines@, p).restrict(
                    Set::new(|k: Seq<char>| exists|a: int| 0 <= a < i && k == p + es@[a].0@),
                )),
            decreases es.len() - i,
        {
            let engine = es[i].0.clone();
            let busy = match c.engines.get(engine.as_str()) {
                Some(n) => n,
                None => 0,
            };
            assert(c.engines@.contains_key(es@[i as int].0@));
            let mut ek: Vec<char> = kv.clone();
            let ec = chars_of(engine.as_str());
            assert(ec@.subrange(0, ec@.len() as int) =~= ec@);
            crate::text::push_range(&mut ek, &ec, 0, ec.len());
            let full = string_of(ek.as_slice());
            assert(full@ =~= p + engine@);
            let previous = self.previous.get(full.as_str());
            let capacity = match c.capacity.get(engine.as_str()) {
                Some(n) => n,
                None => 1,
            };
            let ghost before = self.next@;
            self.next.insert(full, busy);
            proof {
                assert((p + engine@).take(p.len() as int) =~= p);
                assert((p + engine@).skip(p.len() as int) =~= engine@);
                assert forall|k: Seq<char>| #[trigger] prefixed(c.engines@, p).dom().contains(k) && (exists|a: int| 0 <= a < i + 1 && k == p + es@[a].0@)
                    <==> (prefixed(c.engines@, p).dom().contains(k) && (exists|a: int| 0 <= a < i && k == p + es@[a].0@)) || k == p + engine@ by {
                    if k == p + engine@ {
                        assert(k == p + es@[i as int].0@);
                    }
                }
                assert(self.next@ =~= next0.union_prefer_right(prefixed(c.engines@, p).restrict(
                    Set::new(|k: Seq<char>| exists|a: int| 0 <= a < i + 1 && k == p + es@[a].0@),
                )));
            }
            rows.push(EngineReading { engine, busy, previous, capacity });
            i += 1;
        }
        proof {
            assert forall|k: Seq<char>| #[trigger] prefixed(c.engines@, p).dom().contains(k) implies (exists|a: int| 0 <= a < es@.len() && k == p + es@[a].0@) by {
                let e = k.skip(p.len() as int);
                assert(c.engines@.contains_key(e));
                let a = choose|a: int| 0 <= a < es@.len() && es@[a].0@ == e;
                assert(k =~= p + es@[a].0@);
            }
            assert(prefixed(c.engines@, p).restrict(Set::new(|k: Seq<char>| exists|a: int| 0 <= a < es@.len() && k == p + es@[a].0@)) =~= prefixed(c.engines@, p));
            assert(!old(self).seen().contains(client_key(c.device@, c.id@)));
            assert(self.next@ == old(self).next@.union_prefer_right(prefixed(c.engines@, p)));
            assert forall|e: Seq<char>| #[trigger] c.engines@.contains_key(e) implies exists|a: int| 0 <= a < rows@.len() && rows@[a].engine@ == e by {
                let a = choose|a: int| 0 <= a < es@.len() && es@[a].0@ == e;
                assert(rows@[a].engine@ == e);
            }
            assert forall|a: int, b: int| 0 <= a < b < rows@.len() implies rows@[a].engine@ != rows@[b].engine@ by {
                assert(rows@[a].engine@ == es@[a].0@ && rows@[b].engine@ == es@[b].0@);
            }
        }
        Some((c.memory, rows))
    }

    /// Ends a sample: its counters become the previous ones, and no client is counted yet.
    pub fn finish(&mut self)
        ensures
            final(self).previous() == old(self).next(),
            final(self).next() == Map::<Seq<char>, u64>::empty(),
            final(self).seen() == Set::<Seq<char>>::empty(),
    {
        let mut next: Table<u64> = Table::new();
        std::mem::swap(&mut next, &mut self.next);
        self.previous = next;
        self.seen = Table::new();
        assert(self.seen@.dom() =~= Set::<Seq<char>>::empty());
    }
}

/// No string precedes itself.
pub proof fn lemma_lex_irreflexive(a: Seq<char>)
    ensures
        !lex_lt(a, a),
    decreases a.len(),
{
    if a.len() > 0 {
        lemma_lex_irreflexive(a.drop_first());
    }
}

/// Of two different strings, one precedes the other.
pub proof fn lemma_lex_total(a: Seq<char>, b: Seq<char>)
    requires
        a != b,
    ensures
        lex_lt(a, b) || lex_lt(b, a),
    decreases a.len(),
{
    if a.len() > 0 && b.len() > 0 && a[0] == b[0] {
        if a.drop_first() == b.drop_first() {
            assert(a =~= seq![a[0]] + a.drop_first());
            assert(b =~= seq![b[0]] + b.drop_first());
        }
        lemma_lex_total(a.drop_first(), b.drop_first());
    } else if a.len() > 0 && b.len() > 0 {
        vstd::utf8::char_u32_cast(a[0], a[0] as u32);
        vstd::utf8::char_u32_cast(b[0], b[0] as u32);
        assert((a[0] as u32) != (b[0] as u32));
    } else if a.len() == 0 && b.len() == 0 {
        assert(a =~= b);
    }
}

/// Two strings do not precede each other.
pub proof fn lemma_lex_asymmetric(a: Seq<char>, b: Seq<char>)
    requires
        lex_lt(a, b),
    ensures
        !lex_lt(b, a),
    decreases a.len(),
{
    if a.len() > 0 && b.len() > 0 && a[0] == b[0] {
        lemma_lex_asymmetric(a.drop_first(), b.drop_first());
    }
}

/// The order of strings is transitive.
pub proof fn lemma_lex_transitive(a: Seq<char>, b: Seq<char>, c: Seq<char>)
    requires
        lex_lt(a, b),
        lex_lt(b, c),
    ensures
        lex_lt(a, c),
    decreases a.len(),
{
    if a.len() > 0 && b.len() > 0 && c.len() > 0 && a[0] == b[0] && b[0] == c[0] {
        lemma_lex_transitive(a.drop_first(), b.drop_first(), c.drop_first());
    }
}

/// Readings strictly ordered by bus id: one per device.
pub open spec fn bus_ordered(s: Seq<(Seq<char>, u64, Seq<char>)>) -> bool {
    forall|i: int, j: int| 0 <= i < j < s.len() ==> lex_lt(s[i].0, s[j].0)
}

/// Storing a reading keeps the rows in strict bus order, so each device has one row: the
/// latest. The row count grows by one exactly when the bus is new.
pub proof fn lemma_record_keeps_one_row_per_device(s: Seq<(Seq<char>, u64, Seq<char>)>, e: (Seq<char>, u64, Seq<char>))
    requires
        bus_ordered(s),
    ensures
        bus_ordered(sorted_insert(s, e)),
        sorted_insert(s, e).len() == s.len() + if has_bus(s, e.0) { 0int } else { 1int },
        has_bus(sorted_insert(s, e), e.0),
        forall|i: int| 0 <= i < sorted_insert(s, e).len() && sorted_insert(s, e)[i].0 == e.0 ==> sorted_insert(s, e)[i] == e,
    decreases s.len(),
{
    let r = sorted_insert(s, e);
    if s.len() == 0 {
        assert(r[0] == e);
        assert(!has_bus(s, e.0));
    } else if s[0].0 == e.0 {
        assert(has_bus(s, e.0));
        assert(r[0] == e);
        assert forall|i: int, j: int| 0 <= i < j < r.len() implies lex_lt(r[i].0, r[j].0) by {
            assert(r[i].0 == s[i].0 && r[j].0 == s[j].0);
        }
        assert forall|i: int| 0 <= i < r.len() && r[i].0 == e.0 implies r[i] == e by {
            if i > 0 {
                assert(lex_lt(s[0].0, s[i].0));
                lemma_lex_irreflexive(e.0);
            }
        }
    } else if lex_lt(e.0, s[0].0) {
        assert(r[0] == e);
        assert(!has_bus(s, e.0)) by {
            if has_bus(s, e.0) {
                let k = choose|k: int| 0 <= k < s.len() && s[k].0 == e.0;
                if k > 0 {
                    assert(lex_lt(s[0].0, s[k].0));
                    lemma_lex_asymmetric(e.0, s[0].0);
                }
            }
        }
        assert forall|i: int, j: int| 0 <= i < j < r.len() implies lex_lt(r[i].0, r[j].0) by {
            if i == 0 {
                if j > 1 {
                    assert(lex_lt(s[0].0, s[j - 1].0));
                    lemma_lex_transitive(e.0, s[0].0, s[j - 1].0);
                }
            } else {
                assert(r[i] == s[i - 1] && r[j] == s[j - 1]);
            }
        }
        assert forall|i: int| 0 <= i < r.len() && r[i].0 == e.0 implies r[i] == e by {
            if i > 0 {
                assert(r[i] == s[i - 1]);
                assert(has_bus(s, e.0));
            }
        }
    } else {
        let t = s.drop_first();
        assert(bus_ordered(t)) by {
            assert forall|i: int, j: int| 0 <= i < j < t.len() implies lex_lt(t[i].0, t[j].0) by {
                assert(t[i] == s[i + 1] && t[j] == s[j + 1]);
            }
        }
        lemma_record_keeps_one_row_per_device(t, e);
        lemma_lex_total(e.0, s[0].0);
        let u = sorted_insert(t, e);
        assert(r == seq![s[0]] + u);
        assert(has_bus(s, e.0) == has_bus(t, e.0)) by {
            if has_bus(s, e.0) {
                let k = choose|k: int| 0 <= k < s.len() && s[k].0 == e.0;
                assert(k > 0);
                assert(t[k - 1].0 == e.0);
            }
            if has_bus(t, e.0) {
                let k = choose|k: int| 0 <= k < t.len() && t[k].0 == e.0;
                assert(s[k + 1].0 == e.0);
            }
        }
        assert forall|x: int| 0 <= x < u.len() implies lex_lt(s[0].0, #[trigger] u[x].0) by {
            if u[x].0 == e.0 {
            } else {
                assert(has_bus(t, u[x].0) || u[x].0 == e.0) by {
                    lemma_insert_members(t, e, x);
                }
                let k = choose|k: int| 0 <= k < t.len() && t[k].0 == u[x].0;
                assert(lex_lt(s[0].0, s[k + 1].0));
            }
        }
        assert forall|i: int, j: int| 0 <= i < j < r.len() implies lex_lt(r[i].0, r[j].0) by {
            if i == 0 {
                assert(r[j] == u[j - 1]);
            } else {
                assert(r[i] == u[i - 1] && r[j] == u[j - 1]);
            }
        }
        assert(has_bus(r, e.0)) by {
            let k = choose|k: int| 0 <= k < u.len() && u[k].0 == e.0;
            assert(r[k + 1] == u[k]);
        }
        assert forall|i: int| 0 <= i < r.len() && r[i].0 == e.0 implies r[i] == e by {
            if i > 0 {
                assert(r[i] == u[i - 1]);
            }
        }
    }
}

proof fn lemma_insert_members(s: Seq<(Seq<char>, u64, Seq<char>)>, e: (Seq<char>, u64, Seq<char>), x: int)
    requires
        0 <= x < sorted_insert(s, e).len(),
    ensures
        sorted_insert(s, e)[x].0 == e.0 || has_bus(s, sorted_insert(s, e)[x].0),
    decreases s.len(),
{
    let r = sorted_insert(s, e);
    if s.len() == 0 {
    } else if s[0].0 == e.0 {
        if x > 0 {
            assert(r[x] == s[x]);
        }
    } else if lex_lt(e.0, s[0].0) {
        if x > 0 {
            assert(r[x] == s[x - 1]);
        }
    } else {
        if x > 0 {
            let t = s.drop_first();
            lemma_insert_members(t, e, x - 1);
            if has_bus(t, r[x].0) {
                let k = choose|k: int| 0 <= k < t.len() && t[k].0 == r[x].0;
                assert(s[k + 1].0 == r[x].0);
            }
        } else {
            assert(s[0].0 == r[0].0);
        }
    }
}

} // verus!
