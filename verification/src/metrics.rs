//! procfs counter parsing and the sampling rules: continuity across samples, counter
//! resets, and the per-interval deltas from which rates are computed.
use vstd::prelude::*;
use crate::process::Process;
use crate::gpu::{less, lex_lt};
use crate::table::Table;
use std::collections::HashMap;
use crate::text::{
    chars_of, find_char, index_of, lemma_wrapping_sum, lines, parse_u64, parse_u64_range,
    range_starts_with, split_lines, split_words, starts_with, string_of, trim, trim_bounds,
    trim_char_end, views, words,
};

verus! {

broadcast use vstd::std_specs::hash::group_hash_axioms;

pub open spec fn value_or_zero(s: Seq<char>) -> u64 {
    match parse_u64(s) {
        Some(v) => v,
        None => 0,
    }
}

pub open spec fn sum_nat(vs: Seq<u64>) -> nat
    decreases vs.len(),
{
    if vs.len() == 0 {
        0
    } else {
        sum_nat(vs.drop_last()) + vs.last() as nat
    }
}

/// A `u64` sum as the released build computes it: modulo 2^64.
pub open spec fn wrap(n: nat) -> u64 {
    (n % 0x1_0000_0000_0000_0000nat) as u64
}

/// The tick counters of a `/proc/stat` CPU line: up to eight fields after its name,
/// unparsable fields read as zero.
pub open spec fn cpu_fields(l: Seq<char>) -> Seq<u64> {
    let rest = words(l).skip(1);
    rest.take(if rest.len() < 8 {
        rest.len() as int
    } else {
        8
    }).map_values(|s: Seq<char>| value_or_zero(s))
}

/// A CPU line: `(name, total ticks, idle + iowait ticks)`, for lines starting with `cpu`
/// that have at least four counters.
pub open spec fn cpu_line(l: Seq<char>) -> Option<(Seq<char>, u64, u64)> {
    if starts_with(l, "cpu"@) && words(l).len() > 0 && cpu_fields(l).len() >= 4 {
        let v = cpu_fields(l);
        Some(
            (
                words(l)[0],
                wrap(sum_nat(v)),
                wrap(v[3] as nat + if v.len() > 4 {
                    v[4] as nat
                } else {
                    0
                }),
            ),
        )
    } else {
        None
    }
}

/// The CPU lines of the first `k` lines, in order.
pub open spec fn cpu_lines(ls: Seq<Seq<char>>, k: int) -> Seq<(Seq<char>, u64, u64)>
    decreases k,
{
    if k <= 0 {
        seq![]
    } else {
        cpu_lines(ls, k - 1) + match cpu_line(ls[k - 1]) {
            Some(c) => seq![c],
            None => seq![],
        }
    }
}

pub open spec fn cpu_view(c: (String, u64, u64)) -> (Seq<char>, u64, u64) {
    (c.0@, c.1, c.2)
}

fn cpu_line_of(line: &Vec<char>, prefix: &Vec<char>) -> (r: Option<(String, u64, u64)>)
    requires
        prefix@ == "cpu"@,
    ensures
        match (r, cpu_line(line@)) {
            (Some(c), Some(d)) => cpu_view(c) == d,
            (None, None) => true,
            _ => false,
        },
{
    assert(line@.subrange(0, line@.len() as int) =~= line@);
    if !range_starts_with(line, 0, line.len(), prefix) {
        return None;
    }
    let ws = split_words(line, 0, line.len());
    if ws.len() == 0 {
        return None;
    }
    let ghost rest = views(ws@).skip(1);
    let count = if ws.len() - 1 < 8 {
        ws.len() - 1
    } else {
        8
    };
    let ghost v = cpu_fields(line@);
    assert(v.len() == count);
    if count < 4 {
        return None;
    }
    let mut vals: Vec<u64> = Vec::new();
    let mut total: u64 = 0;
    let mut i: usize = 0;
    while i < count
        invariant
            i <= count <= 8,
            count + 1 <= ws.len(),
            views(ws@) == words(line@),
            v == cpu_fields(line@),
            v.len() == count,
            vals@ == v.take(i as int),
            total == wrap(sum_nat(v.take(i as int))),
        decreases count - i,
    {
        let w = &ws[i + 1];
        assert(w@.subrange(0, w@.len() as int) =~= w@);
        assert(views(ws@)[i + 1] == w@);
        let x = match parse_u64_range(w, 0, w.len()) {
            Some(x) => x,
            None => 0,
        };
        assert(x == v[i as int]);
        proof {
            assert(v.take(i + 1).drop_last() =~= v.take(i as int));
            lemma_wrapping_sum(sum_nat(v.take(i as int)), x);
        }
        vals.push(x);
        total = total.wrapping_add(x);
        i += 1;
        assert(vals@ =~= v.take(i as int));
    }
    assert(v.take(count as int) =~= v);
    let extra: u64 = if count > 4 {
        vals[4]
    } else {
        0
    };
    proof {
        vstd::arithmetic::div_mod::lemma_small_mod(vals@[3] as nat, 0x1_0000_0000_0000_0000nat);
        lemma_wrapping_sum(vals@[3] as nat, extra);
    }
    let idle = vals[3].wrapping_add(extra);
    assert(views(ws@)[0] == ws@[0]@);
    Some((string_of(ws[0].as_slice()), total, idle))
}

/// The CPU lines of a `/proc/stat` text: `(name, total ticks, idle ticks)`.
pub fn cpu_ticks(stat: &str) -> (r: Vec<(String, u64, u64)>)
    ensures
        r@.map_values(|c: (String, u64, u64)| cpu_view(c)) == cpu_lines(lines(stat@), lines(stat@).len() as int),
{
    let s = chars_of(stat);
    let ls = split_lines(&s);
    let prefix = chars_of("cpu");
    let mut out: Vec<(String, u64, u64)> = Vec::new();
    let mut i: usize = 0;
    while i < ls.len()
        invariant
            i <= ls.len(),
            views(ls@) == lines(stat@),
            prefix@ == "cpu"@,
            out@.map_values(|c: (String, u64, u64)| cpu_view(c)) == cpu_lines(views(ls@), i as int),
        decreases ls.len() - i,
    {
        assert(views(ls@)[i as int] == ls@[i as int]@);
        let ghost before = out@.map_values(|c: (String, u64, u64)| cpu_view(c));
        match cpu_line_of(&ls[i], &prefix) {
            Some(c) => {
                out.push(c);
                assert(out@.map_values(|c: (String, u64, u64)| cpu_view(c)) =~= before.push(cpu_view(c)));
            },
            None => {},
        }
        i += 1;
        assert(out@.map_values(|c: (String, u64, u64)| cpu_view(c)) =~= cpu_lines(views(ls@), i as int));
    }
    out
}

} // verus!
verus! {

/// `u64::saturating_mul`.
pub open spec fn sat_mul(x: u64, y: u64) -> u64 {
    if x as nat * y as nat > u64::MAX {
        u64::MAX
    } else {
        (x * y) as u64
    }
}

pub open spec fn sat_add(x: u64, y: u64) -> u64 {
    if x + y > u64::MAX {
        u64::MAX
    } else {
        (x + y) as u64
    }
}

pub(crate) fn saturating_mul(x: u64, y: u64) -> (r: u64)
    ensures
        r == sat_mul(x, y),
{
    match x.checked_mul(y) {
        Some(v) => v,
        None => u64::MAX,
    }
}

/// A `/proc/meminfo` line: the name without its trailing colons and the value in bytes
/// (kB times 1024, as the released build's `u64` multiplication computes it).
pub open spec fn mem_entry(l: Seq<char>) -> Option<(Seq<char>, u64)> {
    let w = words(l);
    if w.len() >= 2 && parse_u64(w[1]) is Some {
        Some((trim_char_end(w[0], ':'), wrap(parse_u64(w[1])->0 as nat * 1024)))
    } else {
        None
    }
}

/// A `/proc/net/dev` line: the trimmed interface name before `:` and its received and
/// transmitted byte counters (the first and ninth fields after it).
pub open spec fn net_entry(l: Seq<char>) -> Option<(Seq<char>, (u64, u64))> {
    let i = index_of(l, ':');
    let f = words(l.skip(i + 1));
    if i < l.len() && f.len() >= 9 && parse_u64(f[0]) is Some && parse_u64(f[8]) is Some {
        Some((trim(l.take(i)), (parse_u64(f[0])->0, parse_u64(f[8])->0)))
    } else {
        None
    }
}

/// A `/proc/diskstats` line of a whole block device (one present in `blocks`, not a loop
/// or RAM device): its sectors read and written, in bytes (saturating).
pub open spec fn disk_entry(l: Seq<char>, blocks: Seq<Seq<char>>) -> Option<(Seq<char>, (u64, u64))> {
    let f = words(l);
    if f.len() >= 10 && blocks.contains(f[2]) && !starts_with(f[2], "loop"@) && !starts_with(
        f[2],
        "ram"@,
    ) && parse_u64(f[5]) is Some && parse_u64(f[9]) is Some {
        Some((f[2], (sat_mul(parse_u64(f[5])->0, 512), sat_mul(parse_u64(f[9])->0, 512))))
    } else {
        None
    }
}

/// A `/proc/diskstats` line's busy time (ms), completed operations and time spent on them.
pub open spec fn disk_activity_entry(l: Seq<char>) -> Option<(Seq<char>, (u64, u64, u64))> {
    let f = words(l);
    if f.len() >= 13 && parse_u64(f[12]) is Some && parse_u64(f[3]) is Some && parse_u64(f[7]) is Some
        && parse_u64(f[6]) is Some && parse_u64(f[10]) is Some {
        Some(
            (
                f[2],
                (
                    parse_u64(f[12])->0,
                    sat_add(parse_u64(f[3])->0, parse_u64(f[7])->0),
                    sat_add(parse_u64(f[6])->0, parse_u64(f[10])->0),
                ),
            ),
        )
    } else {
        None
    }
}

/// Collecting entries into a map: a later entry of a name replaces an earlier one.
pub open spec fn collect<V>(ls: Seq<Seq<char>>, entry: spec_fn(Seq<char>) -> Option<(Seq<char>, V)>) -> Map<Seq<char>, V>
    decreases ls.len(),
{
    if ls.len() == 0 {
        Map::empty()
    } else {
        match entry(ls.last()) {
            Some((k, v)) => collect(ls.drop_last(), entry).insert(k, v),
            None => collect(ls.drop_last(), entry),
        }
    }
}

fn word_u64(ws: &Vec<Vec<char>>, i: usize) -> (r: Option<u64>)
    requires
        i < ws.len(),
    ensures
        r == parse_u64(ws@[i as int]@),
{
    let w = &ws[i];
    assert(w@.subrange(0, w@.len() as int) =~= w@);
    parse_u64_range(w, 0, w.len())
}

fn mem_entry_of(line: &Vec<char>) -> (r: Option<(String, u64)>)
    ensures
        match (r, mem_entry(line@)) {
            (Some((k, v)), Some((k2, v2))) => k@ == k2 && v == v2,
            (None, None) => true,
            _ => false,
        },
{
    assert(line@.subrange(0, line@.len() as int) =~= line@);
    let ws = split_words(line, 0, line.len());
    if ws.len() < 2 {
        return None;
    }
    assert(views(ws@)[1] == ws@[1]@ && views(ws@)[0] == ws@[0]@);
    match word_u64(&ws, 1) {
        Some(kb) => {
            let w0 = &ws[0];
            let mut e = w0.len();
            assert(w0@.subrange(0, w0@.len() as int) =~= w0@);
            while e > 0 && w0[e - 1] == ':'
                invariant
                    e <= w0.len(),
                    trim_char_end(w0@, ':') == trim_char_end(w0@.subrange(0, e as int), ':'),
                decreases e,
            {
                assert(w0@.subrange(0, e as int).drop_last() =~= w0@.subrange(0, e - 1));
                e -= 1;
            }
            let name = crate::text::copy_range(w0, 0, e);
            proof {
                vstd::arithmetic::div_mod::lemma_small_mod(0, 0x1_0000_0000_0000_0000nat);
            }
            let bytes = kb.wrapping_mul(1024);
            Some((string_of(name.as_slice()), bytes))
        },
        None => None,
    }
}

/// Memory totals from `/proc/meminfo`, in bytes; an absent line reads as zero.
pub struct MemoryInfo {
    pub total: u64,
    pub available: u64,
    pub used: u64,
    pub commit_limit: u64,
    pub committed: u64,
    pub buffers: u64,
    pub slab: u64,
    pub cache: u64,
    pub swap_total: u64,
    pub swap_used: u64,
}

pub open spec fn mem_of(text: Seq<char>) -> Map<Seq<char>, u64> {
    collect(lines(text), |l: Seq<char>| mem_entry(l))
}

pub open spec fn mem_value(m: Map<Seq<char>, u64>, key: Seq<char>) -> u64 {
    if m.contains_key(key) {
        m[key]
    } else {
        0
    }
}

fn lookup(t: &Table<u64>, key: &str) -> (r: u64)
    ensures
        r == mem_value(t@, key@),
{
    match t.get(key) {
        Some(v) => v,
        None => 0,
    }
}

/// Parses `/proc/meminfo`.
pub fn memory(meminfo: &str) -> (r: MemoryInfo)
    ensures
        ({
            let m = mem_of(meminfo@);
            &&& r.total == mem_value(m, "MemTotal"@)
            &&& r.available == mem_value(m, "MemAvailable"@)
            &&& r.used == if mem_value(m, "MemTotal"@) >= mem_value(m, "MemAvailable"@) {
                (mem_value(m, "MemTotal"@) - mem_value(m, "MemAvailable"@)) as u64
            } else {
                0
            }
            &&& r.commit_limit == mem_value(m, "CommitLimit"@)
            &&& r.committed == mem_value(m, "Committed_AS"@)
            &&& r.buffers == mem_value(m, "Buffers"@)
            &&& r.slab == mem_value(m, "Slab"@)
            &&& r.cache == wrap(mem_value(m, "Cached"@) as nat + mem_value(m, "SReclaimable"@) as nat)
            &&& r.swap_total == mem_value(m, "SwapTotal"@)
            &&& r.swap_used == if mem_value(m, "SwapTotal"@) >= mem_value(m, "SwapFree"@) {
                (mem_value(m, "SwapTotal"@) - mem_value(m, "SwapFree"@)) as u64
            } else {
                0
            }
        }),
{
    let s = chars_of(meminfo);
    let ls = split_lines(&s);
    let mut t: Table<u64> = Table::new();
    let mut i: usize = 0;
    while i < ls.len()
        invariant
            i <= ls.len(),
            views(ls@) == lines(meminfo@),
            t@ == collect(views(ls@).take(i as int), |l: Seq<char>| mem_entry(l)),
        decreases ls.len() - i,
    {
        assert(views(ls@).take(i + 1).drop_last() =~= views(ls@).take(i as int));
        assert(views(ls@).take(i + 1).last() == ls@[i as int]@);
        match mem_entry_of(&ls[i]) {
            Some((k, v)) => t.insert(k, v),
            None => {},
        }
        i += 1;
    }
    assert(views(ls@).take(ls.len() as int) =~= views(ls@));
    let total = lookup(&t, "MemTotal");
    let available = lookup(&t, "MemAvailable");
    let cached = lookup(&t, "Cached");
    let reclaim = lookup(&t, "SReclaimable");
    let swap_total = lookup(&t, "SwapTotal");
    let swap_free = lookup(&t, "SwapFree");
    proof {
        vstd::arithmetic::div_mod::lemma_small_mod(cached as nat, 0x1_0000_0000_0000_0000nat);
        lemma_wrapping_sum(cached as nat, reclaim);
    }
    MemoryInfo {
        total,
        available,
        used: total.saturating_sub(available),
        commit_limit: lookup(&t, "CommitLimit"),
        committed: lookup(&t, "Committed_AS"),
        buffers: lookup(&t, "Buffers"),
        slab: lookup(&t, "Slab"),
        cache: cached.wrapping_add(reclaim),
        swap_total,
        swap_used: swap_total.saturating_sub(swap_free),
    }
}

fn net_entry_of(line: &Vec<char>) -> (r: Option<(String, (u64, u64))>)
    ensures
        match (r, net_entry(line@)) {
            (Some((k, v)), Some((k2, v2))) => k@ == k2 && v == v2,
            (None, None) => true,
            _ => false,
        },
{
    let n = line.len();
    assert(line@.subrange(0, n as int) =~= line@);
    let i = find_char(line, 0, n, ':');
    if i >= n {
        return None;
    }
    assert(line@.subrange(i + 1, n as int) =~= line@.skip(i + 1));
    let ws = split_words(line, i + 1, n);
    if ws.len() < 9 {
        return None;
    }
    let a = match word_u64(&ws, 0) {
        Some(a) => a,
        None => return None,
    };
    let b = match word_u64(&ws, 8) {
        Some(b) => b,
        None => return None,
    };
    let (x, y) = trim_bounds(line, 0, i);
    assert(line@.subrange(0, i as int) =~= line@.take(i as int));
    let name = crate::text::copy_range(line, x, y);
    Some((string_of(name.as_slice()), (a, b)))
}

/// Received and transmitted byte counters per interface, from `/proc/net/dev`.
pub fn net(text: &str) -> (r: Table<(u64, u64)>)
    ensures
        r@ == collect(lines(text@), |l: Seq<char>| net_entry(l)),
{
    let s = chars_of(text);
    let ls = split_lines(&s);
    let mut t: Table<(u64, u64)> = Table::new();
    let mut i: usize = 0;
    while i < ls.len()
        invariant
            i <= ls.len(),
            views(ls@) == lines(text@),
            t@ == collect(views(ls@).take(i as int), |l: Seq<char>| net_entry(l)),
        decreases ls.len() - i,
    {
        assert(views(ls@).take(i + 1).drop_last() =~= views(ls@).take(i as int));
        assert(views(ls@).take(i + 1).last() == ls@[i as int]@);
        match net_entry_of(&ls[i]) {
            Some((k, v)) => t.insert(k, v),
            None => {},
        }
        i += 1;
    }
    assert(views(ls@).take(ls.len() as int) =~= views(ls@));
    t
}

pub open spec fn names(v: Seq<String>) -> Seq<Seq<char>> {
    v.map_values(|b: String| b@)
}

fn listed(blocks: &[String], name: &Vec<char>) -> (r: bool)
    ensures
        r == names(blocks@).contains(name@),
{
    let mut j: usize = 0;
    while j < blocks.len()
        invariant
            j <= blocks.len(),
            forall|k: int| 0 <= k < j ==> blocks@[k]@ != name@,
        decreases blocks.len() - j,
    {
        let b = chars_of(blocks[j].as_str());
        assert(b@.subrange(0, b@.len() as int) =~= b@);
        if crate::text::range_eq(&b, 0, b.len(), name) {
            assert(names(blocks@)[j as int] == name@);
            return true;
        }
        j += 1;
    }
    proof {
        if names(blocks@).contains(name@) {
            let k = choose|k: int| 0 <= k < names(blocks@).len() && names(blocks@)[k] == name@;
            assert(blocks@[k]@ == name@);
        }
    }
    false
}

fn disk_entry_of(line: &Vec<char>, blocks: &[String]) -> (r: Option<(String, (u64, u64))>)
    ensures
        match (r, disk_entry(line@, names(blocks@))) {
            (Some((k, v)), Some((k2, v2))) => k@ == k2 && v == v2,
            (None, None) => true,
            _ => false,
        },
{
    let n = line.len();
    assert(line@.subrange(0, n as int) =~= line@);
    let ws = split_words(line, 0, n);
    if ws.len() < 10 {
        return None;
    }
    let name = &ws[2];
    assert(views(ws@)[2] == name@);
    assert(name@.subrange(0, name@.len() as int) =~= name@);
    if !listed(blocks, name) {
        return None;
    }
    let lp = chars_of("loop");
    let rp = chars_of("ram");
    if range_starts_with(name, 0, name.len(), &lp) || range_starts_with(name, 0, name.len(), &rp) {
        return None;
    }
    let read = match word_u64(&ws, 5) {
        Some(v) => v,
        None => return None,
    };
    let written = match word_u64(&ws, 9) {
        Some(v) => v,
        None => return None,
    };
    Some((string_of(name.as_slice()), (saturating_mul(read, 512), saturating_mul(written, 512))))
}

/// Bytes read and written per whole block device, from `/proc/diskstats`; `blocks` lists
/// the devices present under `/sys/block`.
pub fn disk(text: &str, blocks: &[String]) -> (r: Table<(u64, u64)>)
    ensures
        r@ == collect(lines(text@), |l: Seq<char>| disk_entry(l, names(blocks@))),
{
    let s = chars_of(text);
    let ls = split_lines(&s);
    let mut t: Table<(u64, u64)> = Table::new();
    let mut i: usize = 0;
    while i < ls.len()
        invariant
            i <= ls.len(),
            views(ls@) == lines(text@),
            t@ == collect(views(ls@).take(i as int), |l: Seq<char>| disk_entry(l, names(blocks@))),
        decreases ls.len() - i,
    {
        assert(views(ls@).take(i + 1).drop_last() =~= views(ls@).take(i as int));
        assert(views(ls@).take(i + 1).last() == ls@[i as int]@);
        match disk_entry_of(&ls[i], blocks) {
            Some((k, v)) => t.insert(k, v),
            None => {},
        }
        i += 1;
    }
    assert(views(ls@).take(ls.len() as int) =~= views(ls@));
    t
}

fn disk_activity_entry_of(line: &Vec<char>) -> (r: Option<(String, (u64, u64, u64))>)
    ensures
        match (r, disk_activity_entry(line@)) {
            (Some((k, v)), Some((k2, v2))) => k@ == k2 && v == v2,
            (None, None) => true,
            _ => false,
        },
{
    let n = line.len();
    assert(line@.subrange(0, n as int) =~= line@);
    let ws = split_words(line, 0, n);
    if ws.len() < 13 {
        return None;
    }
    assert(views(ws@)[2] == ws@[2]@);
    let busy = match word_u64(&ws, 12) {
        Some(v) => v,
        None => return None,
    };
    let reads = match word_u64(&ws, 3) {
        Some(v) => v,
        None => return None,
    };
    let writes = match word_u64(&ws, 7) {
        Some(v) => v,
        None => return None,
    };
    let read_ms = match word_u64(&ws, 6) {
        Some(v) => v,
        None => return None,
    };
    let write_ms = match word_u64(&ws, 10) {
        Some(v) => v,
        None => return None,
    };
    Some((string_of(ws[2].as_slice()), (busy, reads.saturating_add(writes), read_ms.saturating_add(write_ms))))
}

/// Per-device busy time, completed operations and time spent on them, from
/// `/proc/diskstats` (every device listed, partitions included).
pub fn disk_activity(text: &str) -> (r: Table<(u64, u64, u64)>)
    ensures
        r@ == collect(lines(text@), |l: Seq<char>| disk_activity_entry(l)),
{
    let s = chars_of(text);
    let ls = split_lines(&s);
    let mut t: Table<(u64, u64, u64)> = Table::new();
    let mut i: usize = 0;
    while i < ls.len()
        invariant
            i <= ls.len(),
            views(ls@) == lines(text@),
            t@ == collect(views(ls@).take(i as int), |l: Seq<char>| disk_activity_entry(l)),
        decreases ls.len() - i,
    {
        assert(views(ls@).take(i + 1).drop_last() =~= views(ls@).take(i as int));
        assert(views(ls@).take(i + 1).last() == ls@[i as int]@);
        match disk_activity_entry_of(&ls[i]) {
            Some((k, v)) => t.insert(k, v),
            None => {},
        }
        i += 1;
    }
    assert(views(ls@).take(ls.len() as int) =~= views(ls@));
    t
}

/// `str::replace(p, r)`: every non-overlapping occurrence of `p`, left to right, becomes `r`.
pub open spec fn replace_all(s: Seq<char>, p: Seq<char>, r: Seq<char>) -> Seq<char>
    decreases s.len(),
{
    if s.len() == 0 {
        s
    } else if p.len() > 0 && starts_with(s, p) {
        r + replace_all(s.skip(p.len() as int), p, r)
    } else {
        seq![s[0]] + replace_all(s.drop_first(), p, r)
    }
}

fn replace_chars(s: &Vec<char>, p: &Vec<char>, r: &Vec<char>) -> (out: Vec<char>)
    requires
        p.len() > 0,
    ensures
        out@ == replace_all(s@, p@, r@),
{
    let mut out: Vec<char> = Vec::new();
    let mut pos: usize = 0;
    assert(s@.skip(0) =~= s@);
    while pos < s.len()
        invariant
            pos <= s.len(),
            p.len() > 0,
            replace_all(s@, p@, r@) == out@ + replace_all(s@.skip(pos as int), p@, r@),
        decreases s.len() - pos,
    {
        let ghost t = s@.skip(pos as int);
        assert(s@.subrange(pos as int, s.len() as int) =~= t);
        if range_starts_with(s, pos, s.len(), p) {
            assert(t.skip(p.len() as int) =~= s@.skip(pos + p.len()));
            let ghost before = out@;
            let mut k: usize = 0;
            while k < r.len()
                invariant
                    k <= r.len(),
                    out@ == before + r@.take(k as int),
                decreases r.len() - k,
            {
                out.push(r[k]);
                k += 1;
                assert(out@ =~= before + r@.take(k as int));
            }
            assert(r@.take(r.len() as int) =~= r@);
            assert(out@ + replace_all(s@.skip(pos + p.len()), p@, r@) =~= before + (r@ + replace_all(t.skip(p.len() as int), p@, r@)));
            pos = pos + p.len();
        } else {
            assert(t.drop_first() =~= s@.skip(pos + 1));
            let ghost before = out@;
            out.push(s[pos]);
            assert(out@ + replace_all(s@.skip(pos + 1), p@, r@) =~= before + (seq![t[0]] + replace_all(t.drop_first(), p@, r@)));
            pos = pos + 1;
        }
    }
    assert(s@.skip(s.len() as int) =~= Seq::<char>::empty());
    assert(out@ + Seq::<char>::empty() =~= out@);
    out
}

/// A mount point as `/proc/self/mounts` writes it: octal escapes for space, tab, newline
/// and backslash, undone in that order.
pub open spec fn unescaped(s: Seq<char>) -> Seq<char> {
    replace_all(
        replace_all(
            replace_all(
                replace_all(s, seq!['\\', '0', '4', '0'], seq![' ']),
                seq!['\\', '0', '1', '1'],
                seq!['\t'],
            ),
            seq!['\\', '0', '1', '2'],
            seq!['\n'],
        ),
        seq!['\\', '1', '3', '4'],
        seq!['\\'],
    )
}

fn unescape_chars(s: &Vec<char>) -> (r: Vec<char>)
    ensures
        r@ == unescaped(s@),
{
    let (e1, r1) = (vec!['\\', '0', '4', '0'], vec![' ']);
    let (e2, r2) = (vec!['\\', '0', '1', '1'], vec!['\t']);
    let (e3, r3) = (vec!['\\', '0', '1', '2'], vec!['\n']);
    let (e4, r4) = (vec!['\\', '1', '3', '4'], vec!['\\']);
    assert(e1@ =~= seq!['\\', '0', '4', '0'] && r1@ =~= seq![' ']);
    assert(e2@ =~= seq!['\\', '0', '1', '1'] && r2@ =~= seq!['\t']);
    assert(e3@ =~= seq!['\\', '0', '1', '2'] && r3@ =~= seq!['\n']);
    assert(e4@ =~= seq!['\\', '1', '3', '4'] && r4@ =~= seq!['\\']);
    let space = replace_chars(s, &e1, &r1);
    let tab = replace_chars(&space, &e2, &r2);
    let newline = replace_chars(&tab, &e3, &r3);
    replace_chars(&newline, &e4, &r4)
}

/// Undoes the escapes of a mount point.
pub fn unescape_mount(s: &str) -> (r: String)
    ensures
        r@ == unescaped(s@),
{
    let c = chars_of(s);
    string_of(unescape_chars(&c).as_slice())
}

/// A `/proc/self/mounts` line of a device under `/dev/`: `(device, mount point)`.
pub open spec fn mount_entry(l: Seq<char>) -> Option<(Seq<char>, Seq<char>)> {
    let f = words(l);
    if f.len() >= 2 && starts_with(f[0], seq!['/', 'd', 'e', 'v', '/']) {
        Some((f[0], unescaped(f[1])))
    } else {
        None
    }
}

/// The device-backed mounts of a `/proc/self/mounts` text, in order.
pub open spec fn mount_list(ls: Seq<Seq<char>>) -> Seq<(Seq<char>, Seq<char>)>
    decreases ls.len(),
{
    if ls.len() == 0 {
        seq![]
    } else {
        mount_list(ls.drop_last()) + match mount_entry(ls.last()) {
            Some(m) => seq![m],
            None => seq![],
        }
    }
}

pub open spec fn pair_view(m: (String, String)) -> (Seq<char>, Seq<char>) {
    (m.0@, m.1@)
}

fn mount_entry_of(line: &Vec<char>) -> (r: Option<(String, String)>)
    ensures
        match (r, mount_entry(line@)) {
            (Some(m), Some(e)) => pair_view(m) == e,
            (None, None) => true,
            _ => false,
        },
{
    let n = line.len();
    assert(line@.subrange(0, n as int) =~= line@);
    let ws = split_words(line, 0, n);
    if ws.len() < 2 {
        return None;
    }
    assert(views(ws@)[0] == ws@[0]@ && views(ws@)[1] == ws@[1]@);
    let dev = &ws[0];
    let prefix = vec!['/', 'd', 'e', 'v', '/'];
    assert(dev@.subrange(0, dev@.len() as int) =~= dev@);
    if !range_starts_with(dev, 0, dev.len(), &prefix) {
        return None;
    }
    let mount = unescape_chars(&ws[1]);
    Some((string_of(dev.as_slice()), string_of(mount.as_slice())))
}

/// The device-backed mounts of `/proc/self/mounts`: `(device, unescaped mount point)`.
pub fn mounts(text: &str) -> (r: Vec<(String, String)>)
    ensures
        r@.map_values(|m: (String, String)| pair_view(m)) == mount_list(lines(text@)),
{
    let s = chars_of(text);
    let ls = split_lines(&s);
    let mut out: Vec<(String, String)> = Vec::new();
    let mut i: usize = 0;
    while i < ls.len()
        invariant
            i <= ls.len(),
            views(ls@) == lines(text@),
            out@.map_values(|m: (String, String)| pair_view(m)) == mount_list(views(ls@).take(i as int)),
        decreases ls.len() - i,
    {
        assert(views(ls@).take(i + 1).drop_last() =~= views(ls@).take(i as int));
        assert(views(ls@).take(i + 1).last() == ls@[i as int]@);
        let ghost before = out@.map_values(|m: (String, String)| pair_view(m));
        match mount_entry_of(&ls[i]) {
            Some(m) => {
                out.push(m);
                assert(out@.map_values(|m: (String, String)| pair_view(m)) =~= before.push(pair_view(m)));
            },
            None => {},
        }
        i += 1;
        assert(out@.map_values(|m: (String, String)| pair_view(m)) =~= mount_list(views(ls@).take(i as int)));
    }
    assert(views(ls@).take(ls.len() as int) =~= views(ls@));
    out
}

/// Filesystem capacity in bytes from `statvfs` counts: `(total, available, used)`, each a
/// block count times the fragment size (as the released build's `u64` arithmetic wraps).
pub open spec fn capacity_of(blocks: u64, frsize: u64, bavail: u64, bfree: u64) -> (u64, u64, u64) {
    (
        wrap(blocks as nat * frsize as nat),
        wrap(bavail as nat * frsize as nat),
        wrap(if blocks >= bfree { (blocks - bfree) as nat } else { 0 } * frsize as nat),
    )
}

pub fn capacity(blocks: u64, frsize: u64, bavail: u64, bfree: u64) -> (r: (u64, u64, u64))
    ensures
        r == capacity_of(blocks, frsize, bavail, bfree),
{
    let free = blocks.saturating_sub(bfree);
    let t = blocks.wrapping_mul(frsize);
    let a = bavail.wrapping_mul(frsize);
    let u = free.wrapping_mul(frsize);
    (t, a, u)
}

/// Whether two samples are one continuous interval: the monotonic gap `elapsed_us` is
/// positive and under 15 s, and the boot clock advanced by the same amount to within
/// half a second (a suspend in between breaks continuity).
pub open spec fn is_continuous(elapsed_us: u64, boot_delta_us: i128) -> bool {
    &&& 0 < elapsed_us < 15_000_000
    &&& -500_000 < elapsed_us - boot_delta_us < 500_000
}

pub fn continuous(elapsed_us: u64, boot_delta_us: i128) -> (r: bool)
    ensures
        r == is_continuous(elapsed_us, boot_delta_us),
{
    if elapsed_us == 0 || elapsed_us >= 15_000_000 {
        return false;
    }
    if boot_delta_us <= -500_000 || boot_delta_us >= 15_500_000 {
        return false;
    }
    let d: i128 = elapsed_us as i128 - boot_delta_us;
    -500_000 < d && d < 500_000
}

/// The growth of a counter from `old` to `now`, none after a reset.
pub open spec fn growth(now: u64, old: u64) -> Option<u64> {
    if now >= old {
        Some((now - old) as u64)
    } else {
        None
    }
}

/// The growth of a counter between two samples; a counter that went backwards was reset
/// and has no rate.
pub fn counter_delta(now: u64, old: u64) -> (r: Option<u64>)
    ensures
        r == growth(now, old),
{
    now.checked_sub(old)
}

/// Busy and total ticks of a CPU between two readings, when both counters grew and the
/// idle share is no larger than the total.
pub open spec fn busy_ticks(total: u64, idle: u64, old_total: u64, old_idle: u64) -> Option<(u64, u64)> {
    if total < old_total || idle < old_idle {
        None
    } else {
        let dt = (total - old_total) as u64;
        let di = (idle - old_idle) as u64;
        if dt == 0 || di > dt {
            None
        } else {
            Some(((dt - di) as u64, dt))
        }
    }
}

/// The first earlier reading of the CPU called `name`.
pub open spec fn find_cpu(prev: Seq<(Seq<char>, u64, u64)>, name: Seq<char>) -> Option<(u64, u64)>
    decreases prev.len(),
{
    if prev.len() == 0 {
        None
    } else if prev[0].0 == name {
        Some((prev[0].1, prev[0].2))
    } else {
        find_cpu(prev.drop_first(), name)
    }
}

pub open spec fn cpu_usage_of(prev: Seq<(Seq<char>, u64, u64)>, c: (Seq<char>, u64, u64)) -> Option<(u64, u64)> {
    match find_cpu(prev, c.0) {
        Some((t, i)) => busy_ticks(c.1, c.2, t, i),
        None => None,
    }
}

pub open spec fn cpu_views(v: Seq<(String, u64, u64)>) -> Seq<(Seq<char>, u64, u64)> {
    v.map_values(|c: (String, u64, u64)| cpu_view(c))
}

/// Whether `k` is the first reading in `prev` of the CPU called `name`.
pub open spec fn first_reading(prev: Seq<(Seq<char>, u64, u64)>, name: Seq<char>, k: int) -> bool {
    &&& 0 <= k < prev.len()
    &&& prev[k].0 == name
    &&& forall|j: int| 0 <= j < k ==> #[trigger] prev[j].0 != name
}

proof fn lemma_find_cpu(prev: Seq<(Seq<char>, u64, u64)>, name: Seq<char>)
    ensures
        match find_cpu(prev, name) {
            Some((t, i)) => exists|k: int| first_reading(prev, name, k) && t == prev[k].1 && i == prev[k].2,
            None => forall|k: int| 0 <= k < prev.len() ==> #[trigger] prev[k].0 != name,
        },
    decreases prev.len(),
{
    if prev.len() > 0 && prev[0].0 != name {
        let t = prev.drop_first();
        lemma_find_cpu(t, name);
        match find_cpu(t, name) {
            Some((a, b)) => {
                let k = choose|k: int| first_reading(t, name, k) && a == t[k].1 && b == t[k].2;
                assert forall|j: int| 0 <= j < k + 1 implies #[trigger] prev[j].0 != name by {
                    if j > 0 {
                        assert(prev[j] == t[j - 1]);
                    }
                }
                assert(first_reading(prev, name, k + 1));
            },
            None => {
                assert forall|k: int| 0 <= k < prev.len() implies #[trigger] prev[k].0 != name by {
                    if k > 0 {
                        assert(prev[k] == t[k - 1]);
                    }
                }
            },
        }
    } else if prev.len() > 0 {
        assert(first_reading(prev, name, 0));
    }
}

/// CPU usage measures busy time: over the interval since the first earlier reading of the
/// same CPU, the total is the growth of the total counter and the busy ticks are that
/// growth minus the growth of the idle counter. There is no reading when the CPU was not
/// seen before, when a counter went backwards, when no time passed, or when the idle
/// counter grew more than the total.
pub proof fn lemma_cpu_busy_is_total_minus_idle(prev: Seq<(Seq<char>, u64, u64)>, c: (Seq<char>, u64, u64))
    ensures
        match cpu_usage_of(prev, c) {
            Some((busy, total)) => exists|k: int| #[trigger] first_reading(prev, c.0, k) && total == c.1 - prev[k].1
                && busy + (c.2 - prev[k].2) == total && c.2 >= prev[k].2 && total > 0,
            None => forall|k: int| #[trigger] first_reading(prev, c.0, k) ==> (c.1 <= prev[k].1 || c.2 < prev[k].2
                || c.2 - prev[k].2 > c.1 - prev[k].1),
        },
{
    lemma_find_cpu(prev, c.0);
    match find_cpu(prev, c.0) {
        Some((t, i)) => {
            let k = choose|k: int| first_reading(prev, c.0, k) && t == prev[k].1 && i == prev[k].2;
            assert forall|m: int| #[trigger] first_reading(prev, c.0, m) implies m == k by {
                if m < k {
                    assert(prev[m].0 != c.0);
                } else if m > k {
                    assert(prev[k].0 != c.0);
                }
            }
        },
        None => {},
    }
}

/// Busy and total ticks of `now` since the earlier reading of the same CPU in `prev`.
pub fn cpu_usage(prev: &[(String, u64, u64)], now: &(String, u64, u64)) -> (r: Option<(u64, u64)>)
    ensures
        r == cpu_usage_of(cpu_views(prev@), cpu_view(*now)),
{
    let name = chars_of(now.0.as_str());
    assert(name@.subrange(0, name@.len() as int) =~= name@);
    let mut j: usize = 0;
    assert(cpu_views(prev@).skip(0) =~= cpu_views(prev@));
    while j < prev.len()
        invariant
            j <= prev.len(),
            name@ == now.0@,
            find_cpu(cpu_views(prev@), name@) == find_cpu(cpu_views(prev@).skip(j as int), name@),
        decreases prev.len() - j,
    {
        let p = chars_of(prev[j].0.as_str());
        assert(cpu_views(prev@).skip(j as int)[0] == cpu_view(prev@[j as int]));
        assert(p@.subrange(0, p@.len() as int) =~= p@);
        if crate::text::range_eq(&p, 0, p.len(), &name) {
            let (t, i) = (prev[j].1, prev[j].2);
            let dt = match now.1.checked_sub(t) {
                Some(d) => d,
                None => return None,
            };
            let di = match now.2.checked_sub(i) {
                Some(d) => d,
                None => return None,
            };
            if dt == 0 || di > dt {
                return None;
            }
            return Some((dt - di, dt));
        }
        assert(cpu_views(prev@).skip(j as int).drop_first() =~= cpu_views(prev@).skip(j + 1));
        j += 1;
    }
    None
}

/// The growth of each counter pair in `now` since `old`, when the interval is valid and the
/// name was present before.
pub open spec fn pair_delta(valid: bool, old: Map<Seq<char>, (u64, u64)>, name: Seq<char>, v: (u64, u64)) -> (Option<u64>, Option<u64>) {
    if valid && old.contains_key(name) {
        (
            if v.0 >= old[name].0 { Some((v.0 - old[name].0) as u64) } else { None },
            if v.1 >= old[name].1 { Some((v.1 - old[name].1) as u64) } else { None },
        )
    } else {
        (None, None)
    }
}

/// One row per entry of `now`: its name and the growth of both counters since `old`.
pub open spec fn deltas_cover(
    out: Seq<(String, Option<u64>, Option<u64>)>,
    valid: bool,
    now: Map<Seq<char>, (u64, u64)>,
    old: Map<Seq<char>, (u64, u64)>,
) -> bool {
    &&& out.len() == now.dom().len()
    &&& forall|i: int, j: int| 0 <= i < j < out.len() ==> out[i].0@ != out[j].0@
    &&& forall|i: int| 0 <= i < out.len() ==> #[trigger] now.contains_key(out[i].0@) && (out[i].1, out[i].2)
        == pair_delta(valid, old, out[i].0@, now[out[i].0@])
    &&& forall|k: Seq<char>| #[trigger] now.contains_key(k) ==> exists|i: int| 0 <= i < out.len() && out[i].0@ == k
}

fn deltas(now: &Table<(u64, u64)>, old: &Table<(u64, u64)>, valid: bool) -> (r: Vec<(String, Option<u64>, Option<u64>)>)
    ensures
        deltas_cover(r@, valid, now@, old@),
        name_sorted(r@),
{
    let es = now.entries();
    let mut out: Vec<(String, Option<u64>, Option<u64>)> = Vec::new();
    let mut i: usize = 0;
    while i < es.len()
        invariant
            i <= es.len(),
            es@.len() == now@.dom().len(),
            forall|a: int, b: int| 0 <= a < b < es@.len() ==> es@[a].0@ != es@[b].0@,
            forall|a: int| 0 <= a < es@.len() ==> #[trigger] now@.contains_key(es@[a].0@),
            out@.len() == i,
            forall|a: int| 0 <= a < i ==> (#[trigger] out@[a]).0@ == es@[a].0@ && (out@[a].1, out@[a].2) == pair_delta(valid, old@, es@[a].0@, now@[es@[a].0@]),
        decreases es.len() - i,
    {
        let name = es[i].0.clone();
        assert(now@.contains_key(es@[i as int].0@));
        let row = match now.get(name.as_str()) {
            Some((a, b)) => if valid {
                match old.get(name.as_str()) {
                    Some((o1, o2)) => (name, counter_delta(a, o1), counter_delta(b, o2)),
                    None => (name, None, None),
                }
            } else {
                (name, None, None)
            },
            None => (name, None, None),
        };
        out.push(row);
        assert(out@[i as int].0@ == es@[i as int].0@);
        i += 1;
    }
    proof {
        assert forall|k: Seq<char>| #[trigger] now@.contains_key(k) implies exists|a: int| 0 <= a < out@.len() && out@[a].0@ == k by {
            let a = choose|a: int| 0 <= a < es@.len() && es@[a].0@ == k;
            assert(out@[a].0@ == k);
        }
        assert forall|a: int| 0 <= a < out@.len() implies #[trigger] now@.contains_key(out@[a].0@) && (out@[a].1, out@[a].2) == pair_delta(valid, old@, out@[a].0@, now@[out@[a].0@]) by {
            assert(now@.contains_key(es@[a].0@));
        }
        assert forall|a: int, b: int| 0 <= a < b < out@.len() implies out@[a].0@ != out@[b].0@ by {
            assert(out@[a].0@ == es@[a].0@ && out@[b].0@ == es@[b].0@);
        }
    }
    let ghost unsorted = out@;
    let (sorted, Ghost(from), Ghost(to)) = sort_rows(out);
    proof {
        assert forall|a: int, b: int| 0 <= a < b < sorted@.len() implies sorted@[a].0@ != sorted@[b].0@ by {
            crate::gpu::lemma_lex_irreflexive(sorted@[a].0@);
        }
        assert forall|a: int| 0 <= a < sorted@.len() implies #[trigger] now@.contains_key(sorted@[a].0@) && (sorted@[a].1, sorted@[a].2) == pair_delta(valid, old@, sorted@[a].0@, now@[sorted@[a].0@]) by {
            assert(sorted@[a] == unsorted[from[a]]);
        }
        assert forall|k: Seq<char>| #[trigger] now@.contains_key(k) implies exists|a: int| 0 <= a < sorted@.len() && sorted@[a].0@ == k by {
            let b = choose|b: int| 0 <= b < unsorted.len() && unsorted[b].0@ == k;
            assert(sorted@[to[b]] == unsorted[b]);
        }
    }
    sorted
}

/// What one procfs sample yields, in integers: whether the interval since the previous
/// sample is continuous, its length, and per CPU, interface and disk the counter growth
/// from which the caller computes rates.
pub struct BasicPoint {
    pub time: u64,
    pub valid: bool,
    pub elapsed_us: u64,
    /// Busy and total ticks per CPU line.
    pub cpu: Vec<(String, Option<(u64, u64)>)>,
    /// Received and transmitted bytes per interface.
    pub network: Vec<(String, Option<u64>, Option<u64>)>,
    /// Read and written bytes per disk.
    pub disks: Vec<(String, Option<u64>, Option<u64>)>,
}

/// Basic procfs counters only, kept between samples of the background collector.
pub struct BasicSampler {
    time: Option<u64>,
    monotonic: Option<u64>,
    cpus: Vec<(String, u64, u64)>,
    networks: Table<(u64, u64)>,
    disks: Table<(u64, u64)>,
}

impl BasicSampler {
    /// Boot-clock time (ms) of the previous sample.
    pub closed spec fn last_time(&self) -> Option<u64> {
        self.time
    }

    /// Monotonic time (µs) of the previous sample.
    pub closed spec fn last_instant(&self) -> Option<u64> {
        self.monotonic
    }

    pub closed spec fn last_cpus(&self) -> Seq<(Seq<char>, u64, u64)> {
        cpu_views(self.cpus@)
    }

    pub closed spec fn last_networks(&self) -> Map<Seq<char>, (u64, u64)> {
        self.networks@
    }

    pub closed spec fn last_disks(&self) -> Map<Seq<char>, (u64, u64)> {
        self.disks@
    }

    /// Whether a sample at `now` ms (boot clock) and `instant` µs (monotonic) continues
    /// the previous one.
    pub open spec fn continues(&self, now: u64, instant: u64) -> bool {
        match (self.last_time(), self.last_instant()) {
            (Some(t), Some(m)) => now >= t && is_continuous(
                if instant >= m { (instant - m) as u64 } else { 0 },
                ((now - t) * 1000) as i128,
            ),
            _ => false,
        }
    }

    pub fn new() -> (r: BasicSampler)
        ensures
            r.last_time() is None,
            r.last_instant() is None,
            r.last_cpus() == Seq::<(Seq<char>, u64, u64)>::empty(),
            r.last_networks() == Map::<Seq<char>, (u64, u64)>::empty(),
            r.last_disks() == Map::<Seq<char>, (u64, u64)>::empty(),
    {
        let r = BasicSampler { time: None, monotonic: None, cpus: Vec::new(), networks: Table::new(), disks: Table::new() };
        assert(r.last_cpus() =~= Seq::<(Seq<char>, u64, u64)>::empty());
        r
    }

    /// Records a sample taken at `now` ms of the boot clock and `instant` µs of a monotonic
    /// clock, given the parsed CPU, network and disk counters; returns the growth of each
    /// counter since the previous sample, withheld where the interval is not continuous.
    pub fn sample(
        &mut self,
        now: u64,
        instant: u64,
        cpus: Vec<(String, u64, u64)>,
        networks: Table<(u64, u64)>,
        disks: Table<(u64, u64)>,
    ) -> (r: BasicPoint)
        ensures
            r.time == now,
            r.valid == old(self).continues(now, instant),
            r.elapsed_us == match old(self).last_instant() {
                Some(m) => if instant >= m { (instant - m) as u64 } else { 0 },
                None => 0,
            },
            r.cpu@.len() == cpus@.len(),
            forall|i: int| 0 <= i < cpus@.len() ==> #[trigger] r.cpu@[i].0@ == cpus@[i].0@ && r.cpu@[i].1 == if r.valid {
                cpu_usage_of(old(self).last_cpus(), cpu_view(cpus@[i]))
            } else {
                None
            },
            deltas_cover(r.network@, r.valid, networks@, old(self).last_networks()),
            deltas_cover(r.disks@, r.valid, disks@, old(self).last_disks()),
            name_sorted(r.network@),
            name_sorted(r.disks@),
            final(self).last_time() == Some(now),
            final(self).last_instant() == Some(instant),
            final(self).last_cpus() == cpu_views(cpus@),
            final(self).last_networks() == networks@,
            final(self).last_disks() == disks@,
    {
        let elapsed: u64 = match self.monotonic {
            Some(m) => instant.saturating_sub(m),
            None => 0,
        };
        let valid = match (self.time, self.monotonic) {
            (Some(t), Some(_)) => match now.checked_sub(t) {
                Some(ms) => continuous(elapsed, ms as i128 * 1000),
                None => false,
            },
            _ => false,
        };
        let mut cpu: Vec<(String, Option<(u64, u64)>)> = Vec::new();
        let mut i: usize = 0;
        while i < cpus.len()
            invariant
                i <= cpus.len(),
                cpu@.len() == i,
                forall|a: int| 0 <= a < i ==> (#[trigger] cpu@[a]).0@ == cpus@[a].0@ && cpu@[a].1 == if valid {
                    cpu_usage_of(cpu_views(self.cpus@), cpu_view(cpus@[a]))
                } else {
                    None
                },
            decreases cpus.len() - i,
        {
            let usage = if valid {
                cpu_usage(self.cpus.as_slice(), &cpus[i])
            } else {
                None
            };
            let name = cpus[i].0.clone();
            cpu.push((name, usage));
            assert(cpu@[i as int].0@ == cpus@[i as int].0@);
            i += 1;
        }
        let network = deltas(&networks, &self.networks, valid);
        let disk_rows = deltas(&disks, &self.disks, valid);
        self.time = Some(now);
        self.monotonic = Some(instant);
        self.cpus = cpus;
        self.networks = networks;
        self.disks = disks;
        BasicPoint { time: now, valid, elapsed_us: elapsed, cpu, network, disks: disk_rows }
    }
}

/// Completed operations and time spent on them since the previous reading of a disk, when
/// operations were completed in between.
pub open spec fn response_counts_of(ops: u64, wait: u64, old_ops: u64, old_wait: u64) -> Option<(u64, u64)> {
    if ops >= old_ops && ops - old_ops > 0 && wait >= old_wait {
        Some(((ops - old_ops) as u64, (wait - old_wait) as u64))
    } else {
        None
    }
}

pub fn response_counts(ops: u64, wait: u64, old_ops: u64, old_wait: u64) -> (r: Option<(u64, u64)>)
    ensures
        r == response_counts_of(ops, wait, old_ops, old_wait),
{
    match ops.checked_sub(old_ops) {
        Some(n) if n > 0 => match wait.checked_sub(old_wait) {
            Some(w) => Some((n, w)),
            None => None,
        },
        _ => None,
    }
}

/// The number of cores from the number of `/proc/stat` CPU lines (the first is the
/// machine total), at least one.
pub fn cores(cpu_lines: usize) -> (r: usize)
    ensures
        r == if cpu_lines >= 2 { cpu_lines - 1 } else { 1 },
{
    let n = cpu_lines.saturating_sub(1);
    if n < 1 {
        1
    } else {
        n
    }
}

/// The trimmed value of a `key ... : value` line (`strip_prefix(key)`, then the text after
/// the first colon).
pub open spec fn labeled(l: Seq<char>, key: Seq<char>) -> Option<Seq<char>> {
    if starts_with(l, key) {
        let rest = l.skip(key.len() as int);
        let i = index_of(rest, ':');
        if i < rest.len() {
            Some(trim(rest.skip(i + 1)))
        } else {
            None
        }
    } else {
        None
    }
}

fn labeled_of(line: &Vec<char>, key: &Vec<char>) -> (r: Option<Vec<char>>)
    ensures
        match (r, labeled(line@, key@)) {
            (Some(v), Some(w)) => v@ == w,
            (None, None) => true,
            _ => false,
        },
{
    let n = line.len();
    assert(line@.subrange(0, n as int) =~= line@);
    if !range_starts_with(line, 0, n, key) {
        return None;
    }
    let k = key.len();
    assert(line@.subrange(k as int, n as int) =~= line@.skip(k as int));
    let i = find_char(line, k, n, ':');
    if i >= n {
        return None;
    }
    assert(line@.subrange(i + 1, n as int) =~= line@.skip(k as int).skip(i - k + 1));
    Some(crate::text::trimmed(line, i + 1, n))
}

/// The first labelled value of `key` among the lines of `text`.
pub open spec fn first_labeled(ls: Seq<Seq<char>>, key: Seq<char>) -> Option<Seq<char>>
    decreases ls.len(),
{
    if ls.len() == 0 {
        None
    } else {
        match labeled(ls[0], key) {
            Some(v) => Some(v),
            None => first_labeled(ls.drop_first(), key),
        }
    }
}

/// Every labelled value of `key` among the lines of `text`, in order.
pub open spec fn all_labeled(ls: Seq<Seq<char>>, key: Seq<char>) -> Seq<Seq<char>>
    decreases ls.len(),
{
    if ls.len() == 0 {
        seq![]
    } else {
        all_labeled(ls.drop_last(), key) + match labeled(ls.last(), key) {
            Some(v) => seq![v],
            None => seq![],
        }
    }
}

/// The processor model named in `/proc/cpuinfo`.
pub fn cpu_model(cpuinfo: &str) -> (r: Option<String>)
    ensures
        match (r, first_labeled(lines(cpuinfo@), "model name"@)) {
            (Some(v), Some(w)) => v@ == w,
            (None, None) => true,
            _ => false,
        },
{
    let s = chars_of(cpuinfo);
    let ls = split_lines(&s);
    let key = chars_of("model name");
    let mut i: usize = 0;
    assert(views(ls@).skip(0) =~= views(ls@));
    while i < ls.len()
        invariant
            i <= ls.len(),
            key@ == "model name"@,
            views(ls@) == lines(cpuinfo@),
            first_labeled(views(ls@), key@) == first_labeled(views(ls@).skip(i as int), key@),
        decreases ls.len() - i,
    {
        assert(views(ls@).skip(i as int)[0] == ls@[i as int]@);
        assert(views(ls@).skip(i as int).drop_first() =~= views(ls@).skip(i + 1));
        match labeled_of(&ls[i], &key) {
            Some(v) => return Some(string_of(v.as_slice())),
            None => {},
        }
        i += 1;
    }
    None
}

/// The clock readings (MHz) listed in `/proc/cpuinfo`, as written there.
pub fn cpu_mhz(cpuinfo: &str) -> (r: Vec<String>)
    ensures
        r@.map_values(|v: String| v@) == all_labeled(lines(cpuinfo@), "cpu MHz"@),
{
    let s = chars_of(cpuinfo);
    let ls = split_lines(&s);
    let key = chars_of("cpu MHz");
    let mut out: Vec<String> = Vec::new();
    let mut i: usize = 0;
    while i < ls.len()
        invariant
            i <= ls.len(),
            key@ == "cpu MHz"@,
            views(ls@) == lines(cpuinfo@),
            out@.map_values(|v: String| v@) == all_labeled(views(ls@).take(i as int), key@),
        decreases ls.len() - i,
    {
        assert(views(ls@).take(i + 1).drop_last() =~= views(ls@).take(i as int));
        assert(views(ls@).take(i + 1).last() == ls@[i as int]@);
        let ghost before = out@.map_values(|v: String| v@);
        match labeled_of(&ls[i], &key) {
            Some(v) => {
                let t = string_of(v.as_slice());
                out.push(t);
                assert(out@.map_values(|v: String| v@) =~= before.push(v@));
            },
            None => {},
        }
        i += 1;
        assert(out@.map_values(|v: String| v@) =~= all_labeled(views(ls@).take(i as int), key@));
    }
    assert(views(ls@).take(ls.len() as int) =~= views(ls@));
    out
}

/// The words of `ws` joined with two spaces between them.
pub open spec fn joined(ws: Seq<Seq<char>>) -> Seq<char>
    decreases ws.len(),
{
    if ws.len() == 0 {
        seq![]
    } else if ws.len() == 1 {
        ws[0]
    } else {
        joined(ws.drop_last()) + seq![' ', ' '] + ws.last()
    }
}

/// The load averages of `/proc/loadavg`: its first three fields, two spaces apart.
pub fn load(loadavg: &str) -> (r: String)
    ensures
        r@ == joined(words(loadavg@).take(if words(loadavg@).len() < 3 { words(loadavg@).len() as int } else { 3 })),
{
    let s = chars_of(loadavg);
    assert(s@.subrange(0, s@.len() as int) =~= s@);
    let ws = split_words(&s, 0, s.len());
    let n = if ws.len() < 3 {
        ws.len()
    } else {
        3
    };
    let mut out: Vec<char> = Vec::new();
    let mut i: usize = 0;
    while i < n
        invariant
            i <= n <= ws.len(),
            views(ws@) == words(loadavg@),
            out@ == joined(views(ws@).take(i as int)),
        decreases n - i,
    {
        assert(views(ws@).take(i + 1).drop_last() =~= views(ws@).take(i as int));
        assert(views(ws@).take(i + 1).last() == ws@[i as int]@);
        if i > 0 {
            out.push(' ');
            out.push(' ');
        }
        let w = &ws[i];
        assert(w@.subrange(0, w@.len() as int) =~= w@);
        crate::text::push_range(&mut out, w, 0, w.len());
        i += 1;
        proof {
            if i == 1 {
                assert(views(ws@).take(1) =~= seq![ws@[0]@]);
            }
        }
        assert(out@ =~= joined(views(ws@).take(i as int)));
    }
    string_of(out.as_slice())
}

/// The growth of a process's counters since its previous sample, when the interval is
/// continuous and the same process (PID and start time) was seen then: CPU ticks, bytes
/// read, bytes written.
pub open spec fn process_delta(
    valid: bool,
    prev: Map<i32, (u64, u64, Option<u64>, Option<u64>)>,
    p: Process,
) -> (Option<u64>, Option<u64>, Option<u64>) {
    if valid && prev.contains_key(p.id.pid) && prev[p.id.pid].0 == p.id.start {
        let o = prev[p.id.pid];
        (
            if p.ticks >= o.1 { Some((p.ticks - o.1) as u64) } else { None },
            match (p.read, o.2) {
                (Some(a), Some(b)) => if a >= b { Some((a - b) as u64) } else { None },
                _ => None,
            },
            match (p.write, o.3) {
                (Some(a), Some(b)) => if a >= b { Some((a - b) as u64) } else { None },
                _ => None,
            },
        )
    } else {
        (None, None, None)
    }
}

/// The counters of each process by PID, later entries replacing earlier ones.
pub open spec fn process_map(ps: Seq<Process>) -> Map<i32, (u64, u64, Option<u64>, Option<u64>)>
    decreases ps.len(),
{
    if ps.len() == 0 {
        Map::empty()
    } else {
        let p = ps.last();
        process_map(ps.drop_last()).insert(p.id.pid, (p.id.start, p.ticks, p.read, p.write))
    }
}

/// Per disk of `disks`, the growth of its busy time (ms) and its completed operations
/// with the time spent on them, from the activity counters of two samples.
pub open spec fn activity_of(
    valid: bool,
    now: Map<Seq<char>, (u64, u64, u64)>,
    old: Map<Seq<char>, (u64, u64, u64)>,
    name: Seq<char>,
) -> (Option<u64>, Option<(u64, u64)>) {
    if valid && now.contains_key(name) && old.contains_key(name) {
        let (a, b) = (now[name], old[name]);
        (
            if a.0 >= b.0 { Some((a.0 - b.0) as u64) } else { None },
            response_counts_of(a.1, a.2, b.1, b.2),
        )
    } else {
        (None, None)
    }
}

/// What one full sample yields, in integers.
pub struct SamplePoint {
    pub valid: bool,
    pub elapsed_us: u64,
    /// Busy and total ticks per CPU line.
    pub cpu: Vec<(String, Option<(u64, u64)>)>,
    /// Per process, in the order given: CPU ticks, bytes read and written since the last sample.
    pub processes: Vec<(Option<u64>, Option<u64>, Option<u64>)>,
    pub network: Vec<(String, Option<u64>, Option<u64>)>,
    pub disks: Vec<(String, Option<u64>, Option<u64>)>,
    /// Per disk row, in the order of `disks`: busy milliseconds, and completed operations
    /// with the milliseconds spent on them.
    pub activity: Vec<(Option<u64>, Option<(u64, u64)>)>,
}

/// The counters the monitor keeps between full samples.
pub struct Sampler {
    instant: Option<u64>,
    uptime: Option<u64>,
    cpus: Vec<(String, u64, u64)>,
    processes: HashMap<i32, (u64, u64, Option<u64>, Option<u64>)>,
    networks: Table<(u64, u64)>,
    disks: Table<(u64, u64)>,
    activity: Table<(u64, u64, u64)>,
}

impl Sampler {
    pub closed spec fn last_instant(&self) -> Option<u64> {
        self.instant
    }

    pub closed spec fn last_uptime(&self) -> Option<u64> {
        self.uptime
    }

    pub closed spec fn last_cpus(&self) -> Seq<(Seq<char>, u64, u64)> {
        cpu_views(self.cpus@)
    }

    pub closed spec fn last_processes(&self) -> Map<i32, (u64, u64, Option<u64>, Option<u64>)> {
        self.processes@
    }

    pub closed spec fn last_networks(&self) -> Map<Seq<char>, (u64, u64)> {
        self.networks@
    }

    pub closed spec fn last_disks(&self) -> Map<Seq<char>, (u64, u64)> {
        self.disks@
    }

    pub closed spec fn last_activity(&self) -> Map<Seq<char>, (u64, u64, u64)> {
        self.activity@
    }

    /// Whether a sample at monotonic `instant` (µs) with boot-clock uptime `uptime` (µs)
    /// continues the previous one.
    pub open spec fn continues(&self, instant: u64, uptime: Option<u64>) -> bool {
        match (self.last_instant(), self.last_uptime(), uptime) {
            (Some(m), Some(b), Some(u)) => is_continuous(
                if instant >= m { (instant - m) as u64 } else { 0 },
                (u - b) as i128,
            ),
            _ => false,
        }
    }

    pub fn new() -> (r: Sampler)
        ensures
            r.last_instant() is None,
            r.last_uptime() is None,
            r.last_cpus().len() == 0,
            r.last_processes() == Map::<i32, (u64, u64, Option<u64>, Option<u64>)>::empty(),
            r.last_networks() == Map::<Seq<char>, (u64, u64)>::empty(),
            r.last_disks() == Map::<Seq<char>, (u64, u64)>::empty(),
            r.last_activity() == Map::<Seq<char>, (u64, u64, u64)>::empty(),
    {
        Sampler {
            instant: None,
            uptime: None,
            cpus: Vec::new(),
            processes: HashMap::new(),
            networks: Table::new(),
            disks: Table::new(),
            activity: Table::new(),
        }
    }

    /// Forgets the time of the previous sample, so the next one reports no rates.
    pub fn invalidate(&mut self)
        ensures
            final(self).last_instant() is None,
            final(self).last_uptime() is None,
            final(self).last_cpus() == old(self).last_cpus(),
            final(self).last_processes() == old(self).last_processes(),
            final(self).last_networks() == old(self).last_networks(),
            final(self).last_disks() == old(self).last_disks(),
            final(self).last_activity() == old(self).last_activity(),
    {
        self.instant = None;
        self.uptime = None;
    }

    /// Records a sample taken at monotonic `instant` (µs) with the boot-clock `uptime`
    /// (µs), given the parsed counters; returns the growth of each counter since the
    /// previous sample, withheld where the interval is not continuous.
    pub fn sample(
        &mut self,
        instant: u64,
        uptime: Option<u64>,
        cpus: Vec<(String, u64, u64)>,
        processes: &[Process],
        networks: Table<(u64, u64)>,
        disks: Table<(u64, u64)>,
        activity: Table<(u64, u64, u64)>,
    ) -> (r: SamplePoint)
        ensures
            r.valid == old(self).continues(instant, uptime),
            r.elapsed_us == match old(self).last_instant() {
                Some(m) => if instant >= m { (instant - m) as u64 } else { 0 },
                None => 0,
            },
            r.cpu@.len() == cpus@.len(),
            forall|i: int| 0 <= i < cpus@.len() ==> #[trigger] r.cpu@[i].0@ == cpus@[i].0@ && r.cpu@[i].1 == if r.valid {
                cpu_usage_of(old(self).last_cpus(), cpu_view(cpus@[i]))
            } else {
                None
            },
            r.processes@.len() == processes@.len(),
            forall|i: int| 0 <= i < processes@.len() ==> #[trigger] r.processes@[i] == process_delta(r.valid, old(self).last_processes(), processes@[i]),
            deltas_cover(r.network@, r.valid, networks@, old(self).last_networks()),
            deltas_cover(r.disks@, r.valid, disks@, old(self).last_disks()),
            name_sorted(r.network@),
            name_sorted(r.disks@),
            r.activity@.len() == r.disks@.len(),
            forall|i: int| 0 <= i < r.disks@.len() ==> #[trigger] r.activity@[i] == activity_of(r.valid, activity@, old(self).last_activity(), r.disks@[i].0@),
            final(self).last_instant() == Some(instant),
            final(self).last_uptime() == uptime,
            final(self).last_cpus() == cpu_views(cpus@),
            final(self).last_processes() == process_map(processes@),
            final(self).last_networks() == networks@,
            final(self).last_disks() == disks@,
            final(self).last_activity() == activity@,
    {
        let elapsed: u64 = match self.instant {
            Some(m) => instant.saturating_sub(m),
            None => 0,
        };
        let valid = match (self.instant, self.uptime, uptime) {
            (Some(_), Some(b), Some(u)) => continuous(elapsed, u as i128 - b as i128),
            _ => false,
        };
        let mut cpu: Vec<(String, Option<(u64, u64)>)> = Vec::new();
        let mut i: usize = 0;
        while i < cpus.len()
            invariant
                i <= cpus.len(),
                cpu@.len() == i,
                forall|a: int| 0 <= a < i ==> (#[trigger] cpu@[a]).0@ == cpus@[a].0@ && cpu@[a].1 == if valid {
                    cpu_usage_of(cpu_views(self.cpus@), cpu_view(cpus@[a]))
                } else {
                    None
                },
            decreases cpus.len() - i,
        {
            let usage = if valid {
                cpu_usage(self.cpus.as_slice(), &cpus[i])
            } else {
                None
            };
            let name = cpus[i].0.clone();
            cpu.push((name, usage));
            assert(cpu@[i as int].0@ == cpus@[i as int].0@);
            i += 1;
        }
        let rates = process_deltas(&self.processes, processes, valid);
        let network = deltas(&networks, &self.networks, valid);
        let disk_rows = deltas(&disks, &self.disks, valid);
        let mut extra: Vec<(Option<u64>, Option<(u64, u64)>)> = Vec::new();
        let mut k: usize = 0;
        while k < disk_rows.len()
            invariant
                k <= disk_rows.len(),
                extra@.len() == k,
                forall|a: int| 0 <= a < k ==> #[trigger] extra@[a] == activity_of(valid, activity@, self.activity@, disk_rows@[a].0@),
            decreases disk_rows.len() - k,
        {
            let name = disk_rows[k].0.as_str();
            let row = if valid {
                match (activity.get(name), self.activity.get(name)) {
                    (Some((busy, ops, wait)), Some((b0, o0, w0))) => (counter_delta(busy, b0), response_counts(ops, wait, o0, w0)),
                    _ => (None, None),
                }
            } else {
                (None, None)
            };
            extra.push(row);
            k += 1;
        }
        self.instant = Some(instant);
        self.uptime = uptime;
        self.cpus = cpus;
        self.processes = process_table(processes);
        self.networks = networks;
        self.disks = disks;
        self.activity = activity;
        SamplePoint { valid, elapsed_us: elapsed, cpu, processes: rates, network, disks: disk_rows, activity: extra }
    }
}

fn process_deltas(
    prev: &HashMap<i32, (u64, u64, Option<u64>, Option<u64>)>,
    processes: &[Process],
    valid: bool,
) -> (r: Vec<(Option<u64>, Option<u64>, Option<u64>)>)
    ensures
        r@.len() == processes@.len(),
        forall|i: int| 0 <= i < processes@.len() ==> #[trigger] r@[i] == process_delta(valid, prev@, processes@[i]),
{
    let mut out: Vec<(Option<u64>, Option<u64>, Option<u64>)> = Vec::new();
    let mut i: usize = 0;
    while i < processes.len()
        invariant
            i <= processes.len(),
            out@.len() == i,
            forall|a: int| 0 <= a < i ==> #[trigger] out@[a] == process_delta(valid, prev@, processes@[a]),
        decreases processes.len() - i,
    {
        let p = &processes[i];
        let row = if valid {
            match prev.get(&p.id.pid) {
                Some(o) => if o.0 == p.id.start {
                    let t = counter_delta(p.ticks, o.1);
                    let r = match (p.read, o.2) {
                        (Some(a), Some(b)) => counter_delta(a, b),
                        _ => None,
                    };
                    let w = match (p.write, o.3) {
                        (Some(a), Some(b)) => counter_delta(a, b),
                        _ => None,
                    };
                    (t, r, w)
                } else {
                    (None, None, None)
                },
                None => (None, None, None),
            }
        } else {
            (None, None, None)
        };
        out.push(row);
        i += 1;
    }
    out
}

fn process_table(processes: &[Process]) -> (m: HashMap<i32, (u64, u64, Option<u64>, Option<u64>)>)
    ensures
        m@ == process_map(processes@),
{
    let mut m: HashMap<i32, (u64, u64, Option<u64>, Option<u64>)> = HashMap::new();
    let mut i: usize = 0;
    while i < processes.len()
        invariant
            i <= processes.len(),
            m@ == process_map(processes@.take(i as int)),
        decreases processes.len() - i,
    {
        assert(processes@.take(i + 1).drop_last() =~= processes@.take(i as int));
        let p = &processes[i];
        m.insert(p.id.pid, (p.id.start, p.ticks, p.read, p.write));
        i += 1;
    }
    assert(processes@.take(processes.len() as int) =~= processes@);
    m
}

/// The first sample of the background collector reports no rates: without a previous
/// sample no interval is continuous.
pub proof fn lemma_first_basic_sample_has_no_rates(s: BasicSampler, now: u64, instant: u64)
    requires
        s.last_time() is None,
    ensures
        !s.continues(now, instant),
{
}

/// The first sample after creation or `invalidate` reports no rates.
pub proof fn lemma_first_sample_has_no_rates(s: Sampler, instant: u64, uptime: Option<u64>)
    requires
        s.last_instant() is None,
    ensures
        !s.continues(instant, uptime),
{
}

/// A suspend breaks continuity: when the boot clock advanced half a second or more
/// beyond (or short of) the monotonic gap, or the gap is 15 s or more, no rate is given.
pub proof fn lemma_gap_breaks_continuity(elapsed_us: u64, boot_delta_us: i128)
    requires
        elapsed_us >= 15_000_000 || boot_delta_us - elapsed_us >= 500_000 || elapsed_us - boot_delta_us >= 500_000,
    ensures
        !is_continuous(elapsed_us, boot_delta_us),
{
}

/// A counter that went backwards (a reset) yields no rate, and the next sample measures
/// the process's growth from the reset value: the reading it was reset to is the new
/// baseline.
pub proof fn lemma_reset_counter_recovers(before: Process, reset: Process, next: Process)
    requires
        before.id == reset.id,
        reset.id == next.id,
        reset.ticks < before.ticks,
        next.ticks >= reset.ticks,
    ensures
        process_delta(true, process_map(seq![before]), reset).0 is None,
        process_delta(true, process_map(seq![reset]), next).0 == Some((next.ticks - reset.ticks) as u64),
{
    assert(seq![before].drop_last() =~= Seq::<Process>::empty());
    assert(seq![reset].drop_last() =~= Seq::<Process>::empty());
}

/// Rows in strictly increasing order of name.
pub open spec fn name_sorted(r: Seq<(String, Option<u64>, Option<u64>)>) -> bool {
    forall|i: int, j: int| 0 <= i < j < r.len() ==> lex_lt(r[i].0@, r[j].0@)
}

pub type Row = (String, Option<u64>, Option<u64>);

/// Where a row named `name` goes: after every row it does not precede.
fn position(out: &Vec<Row>, name: &Vec<char>) -> (p: usize)
    ensures
        p <= out@.len(),
        forall|a: int| 0 <= a < p ==> !lex_lt(name@, #[trigger] out@[a].0@),
        p < out@.len() ==> lex_lt(name@, out@[p as int].0@),
{
    let mut p: usize = 0;
    while p < out.len() && !less(name, &chars_of(out[p].0.as_str()))
        invariant
            p <= out.len(),
            forall|a: int| 0 <= a < p ==> !lex_lt(name@, #[trigger] out@[a].0@),
        decreases out.len() - p,
    {
        p += 1;
    }
    p
}

/// The same rows, sorted by name (the names are distinct), with the positions each row
/// came from and went to.
fn sort_rows(rows: Vec<Row>) -> (r: (Vec<Row>, Ghost<Seq<int>>, Ghost<Seq<int>>))
    requires
        forall|i: int, j: int| 0 <= i < j < rows@.len() ==> rows@[i].0@ != rows@[j].0@,
    ensures
        r.0@.len() == rows@.len(),
        r.1@.len() == rows@.len(),
        r.2@.len() == rows@.len(),
        name_sorted(r.0@),
        forall|a: int| 0 <= a < rows@.len() ==> 0 <= #[trigger] r.1@[a] < rows@.len() && r.0@[a] == rows@[r.1@[a]],
        forall|b: int| 0 <= b < rows@.len() ==> 0 <= #[trigger] r.2@[b] < rows@.len() && r.0@[r.2@[b]] == rows@[b],
{
    let mut out: Vec<Row> = Vec::new();
    let ghost mut from: Seq<int> = Seq::empty();
    let ghost mut to: Seq<int> = Seq::empty();
    let mut i: usize = 0;
    while i < rows.len()
        invariant
            i <= rows.len(),
            forall|x: int, y: int| 0 <= x < y < rows@.len() ==> rows@[x].0@ != rows@[y].0@,
            out@.len() == i,
            from.len() == i,
            to.len() == i,
            name_sorted(out@),
            forall|a: int| 0 <= a < i ==> 0 <= #[trigger] from[a] < i && out@[a] == rows@[from[a]],
            forall|b: int| 0 <= b < i ==> 0 <= #[trigger] to[b] < i && out@[to[b]] == rows@[b],
        decreases rows.len() - i,
    {
        let e = (rows[i].0.clone(), rows[i].1, rows[i].2);
        assert(e == rows@[i as int]);
        let name = chars_of(e.0.as_str());
        let p = position(&out, &name);
        let ghost before = out@;
        proof {
            assert forall|a: int| 0 <= a < p implies lex_lt(#[trigger] before[a].0@, rows@[i as int].0@) by {
                assert(rows@[from[a]].0@ != rows@[i as int].0@);
                crate::gpu::lemma_lex_total(before[a].0@, rows@[i as int].0@);
            }
            assert forall|a: int| p <= a < before.len() implies lex_lt(rows@[i as int].0@, #[trigger] before[a].0@) by {
                if a > p {
                    crate::gpu::lemma_lex_transitive(rows@[i as int].0@, before[p as int].0@, before[a].0@);
                }
            }
        }
        out.insert(p, e);
        proof {
            assert(out@ =~= before.take(p as int) + seq![e] + before.skip(p as int));
            lemma_insert_row(before, rows@[i as int], p as int);
            let f0 = from;
            let t0 = to;
            from = f0.take(p as int) + seq![i as int] + f0.skip(p as int);
            to = t0.map_values(|a: int| if a >= p { a + 1 } else { a }).push(p as int);
            assert forall|a: int| 0 <= a < i + 1 implies 0 <= #[trigger] from[a] < i + 1 && out@[a] == rows@[from[a]] by {
                if a < p {
                    assert(from[a] == f0[a] && out@[a] == before[a]);
                } else if a > p {
                    assert(from[a] == f0[a - 1] && out@[a] == before[a - 1]);
                }
            }
            assert forall|b: int| 0 <= b < i + 1 implies 0 <= #[trigger] to[b] < i + 1 && out@[to[b]] == rows@[b] by {
                if b < i {
                    if t0[b] >= p {
                        assert(out@[t0[b] + 1] == before[t0[b]]);
                    } else {
                        assert(out@[t0[b]] == before[t0[b]]);
                    }
                }
            }
        }
        i += 1;
    }
    (out, Ghost(from), Ghost(to))
}

proof fn lemma_insert_row(before: Seq<Row>, e: Row, p: int)
    requires
        0 <= p <= before.len(),
        name_sorted(before),
        forall|a: int| 0 <= a < p ==> lex_lt(#[trigger] before[a].0@, e.0@),
        forall|a: int| p <= a < before.len() ==> lex_lt(e.0@, #[trigger] before[a].0@),
    ensures
        name_sorted(before.take(p) + seq![e] + before.skip(p)),
{
    let out = before.take(p) + seq![e] + before.skip(p);
    assert forall|x: int, y: int| 0 <= x < y < out.len() implies lex_lt(out[x].0@, out[y].0@) by {
        if y < p {
            assert(out[x] == before[x] && out[y] == before[y]);
        } else if y == p {
            assert(out[x] == before[x]);
        } else if x < p {
            assert(out[x] == before[x] && out[y] == before[y - 1]);
            crate::gpu::lemma_lex_transitive(out[x].0@, e.0@, out[y].0@);
        } else if x == p {
            assert(out[y] == before[y - 1]);
        } else {
            assert(out[x] == before[x - 1] && out[y] == before[y - 1]);
        }
    }
}

} // verus!
