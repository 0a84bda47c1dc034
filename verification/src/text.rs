//! Character-level text model shared by the procfs, desktop-entry and theme parsers.
use vstd::prelude::*;

verus! {

/// Unicode `White_Space`, as used by `char::is_whitespace`.
pub open spec fn is_ws(c: char) -> bool {
    let u = c as u32;
    ||| u == 0x20
    ||| 0x09 <= u <= 0x0d
    ||| u == 0x85
    ||| u == 0xa0
    ||| u == 0x1680
    ||| 0x2000 <= u <= 0x200a
    ||| u == 0x2028
    ||| u == 0x2029
    ||| u == 0x202f
    ||| u == 0x205f
    ||| u == 0x3000
}

pub fn char_is_ws(c: char) -> (r: bool)
    ensures
        r == is_ws(c),
{
    let u = c as u32;
    u == 0x20 || (0x09 <= u && u <= 0x0d) || u == 0x85 || u == 0xa0 || u == 0x1680 || (0x2000
        <= u && u <= 0x200a) || u == 0x2028 || u == 0x2029 || u == 0x202f || u == 0x205f || u
        == 0x3000
}

} // verus!
verus! {

/// Builds a `String` holding exactly the characters of `chars`.
/// Calls std's `FromIterator<&char> for String`, which appends each character in turn.
#[verifier::external_body]
pub(crate) fn string_of(chars: &[char]) -> (s: String)
    ensures
        s@ == chars@,
{
    chars.iter().collect()
}

/// The characters of `s`, in order.
pub fn chars_of(s: &str) -> (v: Vec<char>)
    ensures
        v@ == s@,
{
    let mut v: Vec<char> = Vec::new();
    for c in it: s.chars()
        invariant
            v@ == it.seq().take(it.index() as int),
            it.seq() == s@,
    {
        v.push(c);
        assert(v@ =~= it.seq().take(it.index() + 1));
    }
    v
}

} // verus!
verus! {

pub open spec fn trim_start(s: Seq<char>) -> Seq<char>
    decreases s.len(),
{
    if s.len() > 0 && is_ws(s[0]) {
        trim_start(s.drop_first())
    } else {
        s
    }
}

pub open spec fn trim_end(s: Seq<char>) -> Seq<char>
    decreases s.len(),
{
    if s.len() > 0 && is_ws(s.last()) {
        trim_end(s.drop_last())
    } else {
        s
    }
}

/// `str::trim`: leading and trailing white space removed.
pub open spec fn trim(s: Seq<char>) -> Seq<char> {
    trim_end(trim_start(s))
}

/// Index of the first `c` in `s`, or `s.len()` when there is none.
pub open spec fn index_of(s: Seq<char>, c: char) -> int
    decreases s.len(),
{
    if s.len() == 0 {
        0
    } else if s[0] == c {
        0
    } else {
        1 + index_of(s.drop_first(), c)
    }
}

pub open spec fn contains_char(s: Seq<char>, c: char) -> bool {
    index_of(s, c) < s.len()
}

/// Index of the last `c` in `s`, or -1 when there is none.
pub open spec fn last_index_of(s: Seq<char>, c: char) -> int
    decreases s.len(),
{
    if s.len() == 0 {
        -1
    } else if s.last() == c {
        s.len() - 1
    } else {
        last_index_of(s.drop_last(), c)
    }
}

pub open spec fn starts_with(s: Seq<char>, p: Seq<char>) -> bool {
    p.len() <= s.len() && s.subrange(0, p.len() as int) == p
}

pub open spec fn ends_with(s: Seq<char>, p: Seq<char>) -> bool {
    p.len() <= s.len() && s.subrange(s.len() - p.len(), s.len() as int) == p
}

/// A line as `str::lines` yields it: a `\r` before the `\n` is not part of the line.
pub open spec fn strip_cr(l: Seq<char>) -> Seq<char> {
    if l.len() > 0 && l.last() == '\r' {
        l.drop_last()
    } else {
        l
    }
}

/// `str::lines`: pieces separated by `\n`; no empty last piece after a final `\n`.
pub open spec fn lines(s: Seq<char>) -> Seq<Seq<char>>
    decreases s.len(),
{
    if s.len() == 0 {
        seq![]
    } else {
        let i = index_of(s, '\n');
        proof {
            lemma_index_of(s, '\n');
        }
        if i < s.len() {
            seq![strip_cr(s.take(i))] + lines(s.skip(i + 1))
        } else {
            seq![s]
        }
    }
}

/// Index of the first white-space character of `s`, or `s.len()`.
pub open spec fn ws_index(s: Seq<char>) -> int
    decreases s.len(),
{
    if s.len() == 0 {
        0
    } else if is_ws(s[0]) {
        0
    } else {
        1 + ws_index(s.drop_first())
    }
}

/// `str::split_whitespace`: the maximal runs of non-white-space characters.
pub open spec fn words(s: Seq<char>) -> Seq<Seq<char>>
    decreases s.len(),
{
    if s.len() == 0 {
        seq![]
    } else if is_ws(s[0]) {
        words(s.drop_first())
    } else {
        let k = ws_index(s);
        proof {
            lemma_ws_index(s);
        }
        seq![s.take(k)] + words(s.skip(k))
    }
}

pub proof fn lemma_index_of(s: Seq<char>, c: char)
    ensures
        0 <= index_of(s, c) <= s.len(),
        forall|j: int| 0 <= j < index_of(s, c) ==> s[j] != c,
        index_of(s, c) < s.len() ==> s[index_of(s, c)] == c,
    decreases s.len(),
{
    if s.len() > 0 && s[0] != c {
        lemma_index_of(s.drop_first(), c);
        assert forall|j: int| 0 <= j < index_of(s, c) implies s[j] != c by {
            if j > 0 {
                assert(s[j] == s.drop_first()[j - 1]);
            }
        }
    }
}

/// `index_of` is the unique index before which no `c` occurs and at which `c` (or the end) stands.
pub proof fn lemma_index_of_is(s: Seq<char>, c: char, k: int)
    requires
        0 <= k <= s.len(),
        forall|j: int| 0 <= j < k ==> s[j] != c,
        k < s.len() ==> s[k] == c,
    ensures
        index_of(s, c) == k,
    decreases k,
{
    if k > 0 {
        assert(s[0] != c);
        assert forall|j: int| 0 <= j < k - 1 implies s.drop_first()[j] != c by {
            assert(s.drop_first()[j] == s[j + 1]);
        }
        lemma_index_of_is(s.drop_first(), c, k - 1);
    }
}

pub proof fn lemma_last_index_of(s: Seq<char>, c: char)
    ensures
        -1 <= last_index_of(s, c) < s.len(),
        forall|j: int| last_index_of(s, c) < j < s.len() ==> s[j] != c,
        last_index_of(s, c) >= 0 ==> s[last_index_of(s, c)] == c,
    decreases s.len(),
{
    if s.len() > 0 && s.last() != c {
        lemma_last_index_of(s.drop_last(), c);
        assert forall|j: int| last_index_of(s, c) < j < s.len() implies s[j] != c by {
            if j < s.len() - 1 {
                assert(s[j] == s.drop_last()[j]);
            }
        }
    }
}

pub proof fn lemma_last_index_of_is(s: Seq<char>, c: char, k: int)
    requires
        -1 <= k < s.len(),
        forall|j: int| k < j < s.len() ==> s[j] != c,
        k >= 0 ==> s[k] == c,
    ensures
        last_index_of(s, c) == k,
    decreases s.len() - k,
{
    if k < s.len() - 1 {
        assert(s.last() != c);
        lemma_last_index_of_is(s.drop_last(), c, k);
    }
}

pub proof fn lemma_ws_index(s: Seq<char>)
    ensures
        0 <= ws_index(s) <= s.len(),
        forall|j: int| 0 <= j < ws_index(s) ==> !is_ws(s[j]),
        ws_index(s) < s.len() ==> is_ws(s[ws_index(s)]),
    decreases s.len(),
{
    if s.len() > 0 && !is_ws(s[0]) {
        lemma_ws_index(s.drop_first());
        assert forall|j: int| 0 <= j < ws_index(s) implies !is_ws(s[j]) by {
            if j > 0 {
                assert(s[j] == s.drop_first()[j - 1]);
            }
        }
    }
}

pub proof fn lemma_ws_index_is(s: Seq<char>, k: int)
    requires
        0 <= k <= s.len(),
        forall|j: int| 0 <= j < k ==> !is_ws(s[j]),
        k < s.len() ==> is_ws(s[k]),
    ensures
        ws_index(s) == k,
    decreases k,
{
    if k > 0 {
        assert forall|j: int| 0 <= j < k - 1 implies !is_ws(s.drop_first()[j]) by {
            assert(s.drop_first()[j] == s[j + 1]);
        }
        lemma_ws_index_is(s.drop_first(), k - 1);
    }
}

/// The views of a sequence of character vectors.
pub open spec fn views(v: Seq<Vec<char>>) -> Seq<Seq<char>> {
    v.map_values(|x: Vec<char>| x@)
}

/// A copy of `s[lo..hi]`.
pub fn copy_range(s: &Vec<char>, lo: usize, hi: usize) -> (r: Vec<char>)
    requires
        lo <= hi <= s.len(),
    ensures
        r@ == s@.subrange(lo as int, hi as int),
{
    let mut r: Vec<char> = Vec::new();
    let mut i = lo;
    while i < hi
        invariant
            lo <= i <= hi <= s.len(),
            r@ == s@.subrange(lo as int, i as int),
        decreases hi - i,
    {
        r.push(s[i]);
        i += 1;
        assert(r@ =~= s@.subrange(lo as int, i as int));
    }
    r
}

/// Bounds of `trim(s[lo..hi])` inside `s`.
pub fn trim_bounds(s: &Vec<char>, lo: usize, hi: usize) -> (r: (usize, usize))
    requires
        lo <= hi <= s.len(),
    ensures
        lo <= r.0 <= r.1 <= hi,
        s@.subrange(r.0 as int, r.1 as int) == trim(s@.subrange(lo as int, hi as int)),
{
    let mut a = lo;
    while a < hi && char_is_ws(s[a])
        invariant
            lo <= a <= hi <= s.len(),
            trim_start(s@.subrange(lo as int, hi as int)) == trim_start(
                s@.subrange(a as int, hi as int),
            ),
        decreases hi - a,
    {
        assert(s@.subrange(a as int, hi as int).drop_first() =~= s@.subrange(
            a + 1,
            hi as int,
        ));
        a += 1;
    }
    assert(trim_start(s@.subrange(a as int, hi as int)) == s@.subrange(a as int, hi as int));
    let mut b = hi;
    while b > a && char_is_ws(s[b - 1])
        invariant
            lo <= a <= b <= hi <= s.len(),
            trim(s@.subrange(lo as int, hi as int)) == trim_end(s@.subrange(a as int, b as int)),
        decreases b - a,
    {
        assert(s@.subrange(a as int, b as int).drop_last() =~= s@.subrange(
            a as int,
            b - 1,
        ));
        b -= 1;
    }
    (a, b)
}

/// A trimmed copy of `s[lo..hi]`.
pub fn trimmed(s: &Vec<char>, lo: usize, hi: usize) -> (r: Vec<char>)
    requires
        lo <= hi <= s.len(),
    ensures
        r@ == trim(s@.subrange(lo as int, hi as int)),
{
    let (a, b) = trim_bounds(s, lo, hi);
    copy_range(s, a, b)
}

/// Position of the first `c` in `s[lo..hi]`, or `hi`.
pub fn find_char(s: &Vec<char>, lo: usize, hi: usize, c: char) -> (r: usize)
    requires
        lo <= hi <= s.len(),
    ensures
        lo <= r <= hi,
        r - lo == index_of(s@.subrange(lo as int, hi as int), c),
        forall|j: int| lo <= j < r ==> s@[j] != c,
        r < hi ==> s@[r as int] == c,
{
    let mut i = lo;
    while i < hi && s[i] != c
        invariant
            lo <= i <= hi <= s.len(),
            forall|j: int| lo <= j < i ==> s@[j] != c,
        decreases hi - i,
    {
        i += 1;
    }
    proof {
        lemma_index_of_is(s@.subrange(lo as int, hi as int), c, i - lo);
    }
    i
}

/// Position of the last `c` in `s[lo..hi]`, if any.
pub fn rfind_char(s: &Vec<char>, lo: usize, hi: usize, c: char) -> (r: Option<usize>)
    requires
        lo <= hi <= s.len(),
    ensures
        match r {
            Some(k) => lo <= k < hi && k - lo == last_index_of(
                s@.subrange(lo as int, hi as int),
                c,
            ),
            None => last_index_of(s@.subrange(lo as int, hi as int), c) == -1,
        },
{
    let mut i = hi;
    while i > lo && s[i - 1] != c
        invariant
            lo <= i <= hi <= s.len(),
            forall|j: int| i <= j < hi ==> s@[j] != c,
        decreases i - lo,
    {
        i -= 1;
    }
    proof {
        lemma_last_index_of_is(s@.subrange(lo as int, hi as int), c, i - lo - 1);
    }
    if i == lo {
        None
    } else {
        Some(i - 1)
    }
}

/// Whether `s[lo..hi]` equals `p`.
pub fn range_eq(s: &Vec<char>, lo: usize, hi: usize, p: &Vec<char>) -> (r: bool)
    requires
        lo <= hi <= s.len(),
    ensures
        r == (s@.subrange(lo as int, hi as int) == p@),
{
    if hi - lo != p.len() {
        assert(s@.subrange(lo as int, hi as int).len() != p@.len());
        return false;
    }
    let mut i: usize = 0;
    while i < p.len()
        invariant
            lo <= hi <= s.len(),
            hi - lo == p.len(),
            0 <= i <= p.len(),
            forall|j: int| 0 <= j < i ==> s@[lo + j] == p@[j],
        decreases p.len() - i,
    {
        if s[lo + i] != p[i] {
            assert(s@.subrange(lo as int, hi as int)[i as int] != p@[i as int]);
            return false;
        }
        i += 1;
    }
    assert(s@.subrange(lo as int, hi as int) =~= p@);
    true
}

/// Whether `s[lo..hi]` starts with `p`.
pub fn range_starts_with(s: &Vec<char>, lo: usize, hi: usize, p: &Vec<char>) -> (r: bool)
    requires
        lo <= hi <= s.len(),
    ensures
        r == starts_with(s@.subrange(lo as int, hi as int), p@),
{
    if hi - lo < p.len() {
        return false;
    }
    let r = range_eq(s, lo, lo + p.len(), p);
    assert(s@.subrange(lo as int, hi as int).subrange(0, p@.len() as int) =~= s@.subrange(
        lo as int,
        lo + p.len(),
    ));
    r
}

/// Whether `s[lo..hi]` ends with `p`.
pub fn range_ends_with(s: &Vec<char>, lo: usize, hi: usize, p: &Vec<char>) -> (r: bool)
    requires
        lo <= hi <= s.len(),
    ensures
        r == ends_with(s@.subrange(lo as int, hi as int), p@),
{
    if hi - lo < p.len() {
        return false;
    }
    let r = range_eq(s, hi - p.len(), hi, p);
    assert(s@.subrange(lo as int, hi as int).subrange(
        (hi - lo) - p@.len(),
        (hi - lo) as int,
    ) =~= s@.subrange(hi - p.len(), hi as int));
    r
}

/// `str::lines` over a character vector.
pub fn split_lines(s: &Vec<char>) -> (r: Vec<Vec<char>>)
    ensures
        views(r@) == lines(s@),
{
    let n = s.len();
    let mut out: Vec<Vec<char>> = Vec::new();
    let mut pos: usize = 0;
    assert(s@.skip(0) =~= s@);
    while pos < n
        invariant
            n == s.len(),
            pos <= n,
            lines(s@) == views(out@) + lines(s@.skip(pos as int)),
        decreases n - pos,
    {
        let e = find_char(s, pos, n, '\n');
        let ghost t = s@.skip(pos as int);
        assert(t =~= s@.subrange(pos as int, n as int));
        let mut line = copy_range(s, pos, e);
        assert(t.take(e - pos) =~= line@);
        let ghost before = views(out@);
        if e < n {
            if e > pos && s[e - 1] == '\r' {
                line.pop();
            }
            assert(line@ == strip_cr(t.take(e - pos)));
            assert(t.skip(e - pos + 1) =~= s@.skip(e + 1));
            let ghost lv = line@;
            out.push(line);
            assert(views(out@) =~= before.push(lv));
            pos = e + 1;
        } else {
            let ghost lv = line@;
            out.push(line);
            assert(views(out@) =~= before.push(lv));
            pos = n;
            assert(s@.skip(n as int) =~= Seq::<char>::empty());
        }
    }
    assert(s@.skip(pos as int) =~= Seq::<char>::empty());
    assert(views(out@) + Seq::<Seq<char>>::empty() =~= views(out@));
    out
}

} // verus!
verus! {

/// `str::split_whitespace` over `s[lo..hi]`.
pub fn split_words(s: &Vec<char>, lo: usize, hi: usize) -> (r: Vec<Vec<char>>)
    requires
        lo <= hi <= s.len(),
    ensures
        views(r@) == words(s@.subrange(lo as int, hi as int)),
{
    let mut out: Vec<Vec<char>> = Vec::new();
    let mut pos = lo;
    while pos < hi
        invariant
            lo <= pos <= hi <= s.len(),
            words(s@.subrange(lo as int, hi as int)) == views(out@) + words(
                s@.subrange(pos as int, hi as int),
            ),
        decreases hi - pos,
    {
        let ghost t = s@.subrange(pos as int, hi as int);
        if char_is_ws(s[pos]) {
            assert(t.drop_first() =~= s@.subrange(pos + 1, hi as int));
            pos += 1;
        } else {
            let mut e = pos;
            while e < hi && !char_is_ws(s[e])
                invariant
                    pos <= e <= hi <= s.len(),
                    forall|j: int| pos <= j < e ==> !is_ws(s@[j]),
                decreases hi - e,
            {
                e += 1;
            }
            proof {
                lemma_ws_index_is(t, e - pos);
            }
            let w = copy_range(s, pos, e);
            assert(t.take(e - pos) =~= w@);
            assert(t.skip(e - pos) =~= s@.subrange(e as int, hi as int));
            let ghost before = views(out@);
            let ghost wv = w@;
            out.push(w);
            assert(views(out@) =~= before.push(wv));
            assert(views(out@) + words(s@.subrange(e as int, hi as int)) =~= before + (seq![wv]
                + words(s@.subrange(e as int, hi as int))));
            pos = e;
        }
    }
    assert(s@.subrange(pos as int, hi as int) =~= Seq::<char>::empty());
    assert(views(out@) + Seq::<Seq<char>>::empty() =~= views(out@));
    out
}

pub open spec fn is_digit(c: char) -> bool {
    0x30 <= (c as u32) <= 0x39
}

pub open spec fn digit_value(c: char) -> nat {
    ((c as u32) - 0x30) as nat
}

pub open spec fn all_digits(s: Seq<char>) -> bool {
    forall|i: int| 0 <= i < s.len() ==> is_digit(s[i])
}

/// The value of a decimal numeral.
pub open spec fn dec_value(s: Seq<char>) -> nat
    decreases s.len(),
{
    if s.len() == 0 {
        0
    } else {
        dec_value(s.drop_last()) * 10 + digit_value(s.last())
    }
}

/// The digits that `FromStr` for an integer reads after an optional `+`.
pub open spec fn after_plus(s: Seq<char>) -> Seq<char> {
    if s.len() > 0 && s[0] == '+' {
        s.drop_first()
    } else {
        s
    }
}

/// `u64::from_str`: an optional `+`, then at least one ASCII digit, within range.
pub open spec fn parse_u64(s: Seq<char>) -> Option<u64> {
    let d = after_plus(s);
    if d.len() > 0 && all_digits(d) && dec_value(d) <= u64::MAX {
        Some(dec_value(d) as u64)
    } else {
        None
    }
}

/// `i64::from_str`: an optional `+` or `-`, then at least one ASCII digit, within range.
pub open spec fn parse_i64(s: Seq<char>) -> Option<i64> {
    if s.len() > 0 && s[0] == '-' {
        let d = s.drop_first();
        if d.len() > 0 && all_digits(d) && dec_value(d) <= 0x8000_0000_0000_0000 {
            Some((0 - dec_value(d)) as i64)
        } else {
            None
        }
    } else {
        let d = after_plus(s);
        if d.len() > 0 && all_digits(d) && dec_value(d) <= i64::MAX {
            Some(dec_value(d) as i64)
        } else {
            None
        }
    }
}

/// `i32::from_str`.
pub open spec fn parse_i32(s: Seq<char>) -> Option<i32> {
    match parse_i64(s) {
        Some(v) => if i32::MIN <= v <= i32::MAX {
            Some(v as i32)
        } else {
            None
        },
        None => None,
    }
}

/// `u32::from_str`.
pub open spec fn parse_u32(s: Seq<char>) -> Option<u32> {
    match parse_u64(s) {
        Some(v) => if v <= u32::MAX {
            Some(v as u32)
        } else {
            None
        },
        None => None,
    }
}

pub proof fn lemma_dec_value_prefix(s: Seq<char>, k: int)
    requires
        0 <= k <= s.len(),
    ensures
        dec_value(s.take(k)) <= dec_value(s),
    decreases s.len(),
{
    if k < s.len() {
        lemma_dec_value_prefix(s.drop_last(), k);
        assert(s.drop_last().take(k) =~= s.take(k));
    } else {
        assert(s.take(k) =~= s);
    }
}

/// The value of the digits `s[lo..hi]`, when they are all ASCII digits, at least one, and fit.
fn digits_value(s: &Vec<char>, lo: usize, hi: usize) -> (r: Option<u64>)
    requires
        lo <= hi <= s.len(),
    ensures
        ({
            let d = s@.subrange(lo as int, hi as int);
            r == if d.len() > 0 && all_digits(d) && dec_value(d) <= u64::MAX {
                Some(dec_value(d) as u64)
            } else {
                None
            }
        }),
{
    if lo == hi {
        return None;
    }
    let ghost d = s@.subrange(lo as int, hi as int);
    let mut v: u64 = 0;
    let mut over = false;
    let mut i = lo;
    while i < hi
        invariant
            lo <= i <= hi <= s.len(),
            d == s@.subrange(lo as int, hi as int),
            forall|j: int| lo <= j < i ==> is_digit(s@[j]),
            !over ==> v == dec_value(s@.subrange(lo as int, i as int)),
            over ==> dec_value(s@.subrange(lo as int, i as int)) > u64::MAX,
        decreases hi - i,
    {
        let c = s[i];
        let u = c as u32;
        if u < 0x30 || u > 0x39 {
            assert(!is_digit(d[i - lo]));
            return None;
        }
        let ghost before = s@.subrange(lo as int, i as int);
        assert(s@.subrange(lo as int, i + 1).drop_last() =~= before);
        let dv = (u - 0x30) as u64;
        if !over {
            match v.checked_mul(10) {
                Some(t) => match t.checked_add(dv) {
                    Some(w) => {
                        v = w;
                    },
                    None => {
                        over = true;
                    },
                },
                None => {
                    over = true;
                },
            }
        }
        i += 1;
    }
    assert(s@.subrange(lo as int, i as int) =~= d);
    assert(all_digits(d));
    if over {
        None
    } else {
        Some(v)
    }
}

/// `u64::from_str` on `s[lo..hi]`.
pub fn parse_u64_range(s: &Vec<char>, lo: usize, hi: usize) -> (r: Option<u64>)
    requires
        lo <= hi <= s.len(),
    ensures
        r == parse_u64(s@.subrange(lo as int, hi as int)),
{
    let ghost t = s@.subrange(lo as int, hi as int);
    if lo < hi && s[lo] == '+' {
        assert(t.drop_first() =~= s@.subrange(lo + 1, hi as int));
        digits_value(s, lo + 1, hi)
    } else {
        digits_value(s, lo, hi)
    }
}

/// `i64::from_str` on `s[lo..hi]`.
pub fn parse_i64_range(s: &Vec<char>, lo: usize, hi: usize) -> (r: Option<i64>)
    requires
        lo <= hi <= s.len(),
    ensures
        r == parse_i64(s@.subrange(lo as int, hi as int)),
{
    let ghost t = s@.subrange(lo as int, hi as int);
    if lo < hi && s[lo] == '-' {
        assert(t.drop_first() =~= s@.subrange(lo + 1, hi as int));
        match digits_value(s, lo + 1, hi) {
            Some(m) => if m <= 0x8000_0000_0000_0000 {
                if m == 0x8000_0000_0000_0000 {
                    Some(i64::MIN)
                } else {
                    Some(0 - (m as i64))
                }
            } else {
                None
            },
            None => None,
        }
    } else {
        let start = if lo < hi && s[lo] == '+' {
            lo + 1
        } else {
            lo
        };
        assert(after_plus(t) =~= s@.subrange(start as int, hi as int));
        match digits_value(s, start, hi) {
            Some(m) => if m <= 0x7fff_ffff_ffff_ffff {
                Some(m as i64)
            } else {
                None
            },
            None => None,
        }
    }
}

/// `i32::from_str` on `s[lo..hi]`.
pub fn parse_i32_range(s: &Vec<char>, lo: usize, hi: usize) -> (r: Option<i32>)
    requires
        lo <= hi <= s.len(),
    ensures
        r == parse_i32(s@.subrange(lo as int, hi as int)),
{
    match parse_i64_range(s, lo, hi) {
        Some(v) => if -0x8000_0000 <= v && v <= 0x7fff_ffff {
            Some(v as i32)
        } else {
            None
        },
        None => None,
    }
}

/// `u32::from_str` on `s[lo..hi]`.
pub fn parse_u32_range(s: &Vec<char>, lo: usize, hi: usize) -> (r: Option<u32>)
    requires
        lo <= hi <= s.len(),
    ensures
        r == parse_u32(s@.subrange(lo as int, hi as int)),
{
    match parse_u64_range(s, lo, hi) {
        Some(v) => if v <= 0xffff_ffff {
            Some(v as u32)
        } else {
            None
        },
        None => None,
    }
}

} // verus!
verus! {

/// Whether `s` is exactly the string `lit`.
pub fn eq_lit(s: &Vec<char>, lit: &str) -> (r: bool)
    ensures
        r == (s@ == lit@),
{
    let p = chars_of(lit);
    assert(s@.subrange(0, s@.len() as int) =~= s@);
    range_eq(s, 0, s.len(), &p)
}

/// `char::to_ascii_lowercase`.
pub open spec fn lower_char(c: char) -> char {
    if 0x41 <= (c as u32) <= 0x5a {
        ((c as u32) + 32) as char
    } else {
        c
    }
}

/// `str::to_ascii_lowercase`.
pub open spec fn ascii_lower(s: Seq<char>) -> Seq<char> {
    s.map_values(|c: char| lower_char(c))
}

/// `str::eq_ignore_ascii_case`.
pub open spec fn eq_ignore_ascii_case(a: Seq<char>, b: Seq<char>) -> bool {
    ascii_lower(a) == ascii_lower(b)
}

pub fn to_lower_char(c: char) -> (r: char)
    ensures
        r == lower_char(c),
{
    let u = c as u32;
    if 0x41 <= u && u <= 0x5a {
        let b = (u + 32) as u8;
        b as char
    } else {
        c
    }
}

/// A lower-cased copy of `s[lo..hi]`.
pub fn lowered(s: &Vec<char>, lo: usize, hi: usize) -> (r: Vec<char>)
    requires
        lo <= hi <= s.len(),
    ensures
        r@ == ascii_lower(s@.subrange(lo as int, hi as int)),
{
    let mut r: Vec<char> = Vec::new();
    let mut i = lo;
    while i < hi
        invariant
            lo <= i <= hi <= s.len(),
            r@ == ascii_lower(s@.subrange(lo as int, i as int)),
        decreases hi - i,
    {
        r.push(to_lower_char(s[i]));
        i += 1;
        assert(r@ =~= ascii_lower(s@.subrange(lo as int, i as int)));
    }
    r
}

} // verus!
verus! {

/// `u64::from_str`.
pub fn parse_u64_str(s: &str) -> (r: Option<u64>)
    ensures
        r == parse_u64(s@),
{
    let c = chars_of(s);
    assert(c@.subrange(0, c@.len() as int) =~= c@);
    parse_u64_range(&c, 0, c.len())
}

/// `i64::from_str`.
pub fn parse_i64_str(s: &str) -> (r: Option<i64>)
    ensures
        r == parse_i64(s@),
{
    let c = chars_of(s);
    assert(c@.subrange(0, c@.len() as int) =~= c@);
    parse_i64_range(&c, 0, c.len())
}

/// `i32::from_str`.
pub fn parse_i32_str(s: &str) -> (r: Option<i32>)
    ensures
        r == parse_i32(s@),
{
    let c = chars_of(s);
    assert(c@.subrange(0, c@.len() as int) =~= c@);
    parse_i32_range(&c, 0, c.len())
}

/// `u32::from_str`.
pub fn parse_u32_str(s: &str) -> (r: Option<u32>)
    ensures
        r == parse_u32(s@),
{
    let c = chars_of(s);
    assert(c@.subrange(0, c@.len() as int) =~= c@);
    parse_u32_range(&c, 0, c.len())
}

/// The rest of the first line that starts with `key`
/// (`lines().find_map(|l| l.strip_prefix(key))`).
pub open spec fn first_prefixed(ls: Seq<Seq<char>>, key: Seq<char>) -> Option<Seq<char>>
    decreases ls.len(),
{
    if ls.len() == 0 {
        None
    } else if starts_with(ls[0], key) {
        Some(ls[0].skip(key.len() as int))
    } else {
        first_prefixed(ls.drop_first(), key)
    }
}

/// Index of the first line of `ls` that starts with `key`, if any.
pub fn find_prefixed(ls: &Vec<Vec<char>>, key: &Vec<char>) -> (r: Option<usize>)
    ensures
        match r {
            Some(i) => i < ls.len() && starts_with(ls@[i as int]@, key@) && first_prefixed(views(ls@), key@) == Some(
                ls@[i as int]@.skip(key@.len() as int),
            ),
            None => first_prefixed(views(ls@), key@) is None,
        },
{
    let mut i: usize = 0;
    assert(views(ls@).skip(0) =~= views(ls@));
    while i < ls.len()
        invariant
            i <= ls.len(),
            first_prefixed(views(ls@), key@) == first_prefixed(views(ls@).skip(i as int), key@),
        decreases ls.len() - i,
    {
        let line = &ls[i];
        assert(line@.subrange(0, line@.len() as int) =~= line@);
        assert(views(ls@).skip(i as int)[0] == line@);
        if range_starts_with(line, 0, line.len(), key) {
            return Some(i);
        }
        assert(views(ls@).skip(i as int).drop_first() =~= views(ls@).skip(i + 1));
        i += 1;
    }
    None
}

} // verus!
verus! {

pub open spec fn trim_char_start(s: Seq<char>, c: char) -> Seq<char>
    decreases s.len(),
{
    if s.len() > 0 && s[0] == c {
        trim_char_start(s.drop_first(), c)
    } else {
        s
    }
}

pub open spec fn trim_char_end(s: Seq<char>, c: char) -> Seq<char>
    decreases s.len(),
{
    if s.len() > 0 && s.last() == c {
        trim_char_end(s.drop_last(), c)
    } else {
        s
    }
}

/// `str::trim_matches(c)` for a single character.
pub open spec fn trim_char(s: Seq<char>, c: char) -> Seq<char> {
    trim_char_end(trim_char_start(s, c), c)
}

/// Bounds of `trim_char_start(s[lo..hi], c)`.
pub fn trim_char_start_bound(s: &Vec<char>, lo: usize, hi: usize, c: char) -> (r: usize)
    requires
        lo <= hi <= s.len(),
    ensures
        lo <= r <= hi,
        s@.subrange(r as int, hi as int) == trim_char_start(s@.subrange(lo as int, hi as int), c),
{
    let mut a = lo;
    while a < hi && s[a] == c
        invariant
            lo <= a <= hi <= s.len(),
            trim_char_start(s@.subrange(lo as int, hi as int), c) == trim_char_start(
                s@.subrange(a as int, hi as int),
                c,
            ),
        decreases hi - a,
    {
        assert(s@.subrange(a as int, hi as int).drop_first() =~= s@.subrange(a + 1, hi as int));
        a += 1;
    }
    a
}

/// Bounds of `trim_char(s[lo..hi], c)`.
pub fn trim_char_bounds(s: &Vec<char>, lo: usize, hi: usize, c: char) -> (r: (usize, usize))
    requires
        lo <= hi <= s.len(),
    ensures
        lo <= r.0 <= r.1 <= hi,
        s@.subrange(r.0 as int, r.1 as int) == trim_char(s@.subrange(lo as int, hi as int), c),
{
    let a = trim_char_start_bound(s, lo, hi, c);
    let mut b = hi;
    while b > a && s[b - 1] == c
        invariant
            lo <= a <= b <= hi <= s.len(),
            trim_char(s@.subrange(lo as int, hi as int), c) == trim_char_end(
                s@.subrange(a as int, b as int),
                c,
            ),
        decreases b - a,
    {
        assert(s@.subrange(a as int, b as int).drop_last() =~= s@.subrange(a as int, b - 1));
        b -= 1;
    }
    (a, b)
}

pub open spec fn is_hex(c: char) -> bool {
    let u = c as u32;
    (0x30 <= u <= 0x39) || (0x41 <= u <= 0x46) || (0x61 <= u <= 0x66)
}

pub fn char_is_hex(c: char) -> (r: bool)
    ensures
        r == is_hex(c),
{
    let u = c as u32;
    (0x30 <= u && u <= 0x39) || (0x41 <= u && u <= 0x46) || (0x61 <= u && u <= 0x66)
}

/// Whether every character of `s[lo..hi]` is an ASCII hex digit.
pub fn all_hex(s: &Vec<char>, lo: usize, hi: usize) -> (r: bool)
    requires
        lo <= hi <= s.len(),
    ensures
        r == forall|i: int| lo <= i < hi ==> is_hex(s@[i]),
{
    let mut i = lo;
    while i < hi
        invariant
            lo <= i <= hi <= s.len(),
            forall|j: int| lo <= j < i ==> is_hex(s@[j]),
        decreases hi - i,
    {
        if !char_is_hex(s[i]) {
            return false;
        }
        i += 1;
    }
    true
}

} // verus!
verus! {

/// Appends `src[lo..hi]` to `dst`.
pub fn push_range(dst: &mut Vec<char>, src: &Vec<char>, lo: usize, hi: usize)
    requires
        lo <= hi <= src.len(),
    ensures
        final(dst)@ == old(dst)@ + src@.subrange(lo as int, hi as int),
{
    let mut i = lo;
    while i < hi
        invariant
            lo <= i <= hi <= src.len(),
            dst@ == old(dst)@ + src@.subrange(lo as int, i as int),
        decreases hi - i,
    {
        dst.push(src[i]);
        i += 1;
        assert(dst@ =~= old(dst)@ + src@.subrange(lo as int, i as int));
    }
}

} // verus!
verus! {

/// Whether `a` and `b` are equal ignoring ASCII case (`str::eq_ignore_ascii_case`).
pub fn eq_ignore_case(a: &str, b: &str) -> (r: bool)
    ensures
        r == eq_ignore_ascii_case(a@, b@),
{
    let ac = chars_of(a);
    let bc = chars_of(b);
    assert(ac@.subrange(0, ac@.len() as int) =~= ac@);
    assert(bc@.subrange(0, bc@.len() as int) =~= bc@);
    let al = lowered(&ac, 0, ac.len());
    let bl = lowered(&bc, 0, bc.len());
    assert(al@.subrange(0, al@.len() as int) =~= al@);
    range_eq(&al, 0, al.len(), &bl)
}

/// Wrapping `u64` addition continues a sum taken modulo 2^64.
pub proof fn lemma_wrapping_sum(t: nat, b: u64)
    ensures
        (if (t % 0x1_0000_0000_0000_0000nat) + b > u64::MAX {
            ((t % 0x1_0000_0000_0000_0000nat) + b - 0x1_0000_0000_0000_0000nat) as u64
        } else {
            ((t % 0x1_0000_0000_0000_0000nat) + b) as u64
        }) == ((t + b as nat) % 0x1_0000_0000_0000_0000nat) as u64,
{
    let m: int = 0x1_0000_0000_0000_0000;
    let a: int = (t % 0x1_0000_0000_0000_0000nat) as int;
    vstd::arithmetic::div_mod::lemma_add_mod_noop(t as int, b as int, m);
    vstd::arithmetic::div_mod::lemma_small_mod(b as nat, m as nat);
    if a + b < m {
        vstd::arithmetic::div_mod::lemma_small_mod((a + b) as nat, m as nat);
    } else {
        vstd::arithmetic::div_mod::lemma_mod_add_multiples_vanish(a + b - m, m);
        vstd::arithmetic::div_mod::lemma_small_mod((a + b - m) as nat, m as nat);
    }
}

} // verus!
verus! {

/// The ASCII digit for `d < 10`.
pub open spec fn digit_char(d: nat) -> char {
    (0x30 + d) as char
}

/// The decimal numeral of `n` (`u64::to_string`).
pub open spec fn dec_str(n: nat) -> Seq<char>
    decreases n,
{
    if n < 10 {
        seq![digit_char(n)]
    } else {
        dec_str(n / 10).push(digit_char(n % 10))
    }
}

/// Appends the decimal numeral of `n` to `out`.
pub fn push_decimal(out: &mut Vec<char>, n: u64)
    ensures
        final(out)@ == old(out)@ + dec_str(n as nat),
    decreases n,
{
    if n >= 10 {
        push_decimal(out, n / 10);
    }
    let d = (n % 10) as u8;
    out.push((0x30u8 + d) as char);
    assert(final(out)@ =~= old(out)@ + dec_str(n as nat)) by {
        if n >= 10 {
            assert(dec_str(n as nat) == dec_str((n / 10) as nat).push(digit_char((n % 10) as nat)));
        }
    }
}

/// The decimal numeral of `n`.
pub fn decimal(n: u64) -> (s: String)
    ensures
        s@ == dec_str(n as nat),
{
    let mut v: Vec<char> = Vec::new();
    push_decimal(&mut v, n);
    assert(v@ =~= dec_str(n as nat));
    string_of(v.as_slice())
}

/// The decimal numeral of `n`, with a leading `-` when negative (`i64::to_string`).
pub open spec fn int_str(n: int) -> Seq<char> {
    if n < 0 {
        seq!['-'] + dec_str((-n) as nat)
    } else {
        dec_str(n as nat)
    }
}

/// The decimal numeral of `n`, signed.
pub fn signed_decimal(n: i64) -> (s: String)
    ensures
        s@ == int_str(n as int),
{
    let mut v: Vec<char> = Vec::new();
    if n < 0 {
        v.push('-');
        let m: u64 = (-(n as i128)) as u64;
        push_decimal(&mut v, m);
        assert(v@ =~= seq!['-'] + dec_str((-n) as nat));
    } else {
        push_decimal(&mut v, n as u64);
        assert(v@ =~= dec_str(n as nat));
    }
    string_of(v.as_slice())
}

/// `str::split(c)`: the pieces between occurrences of `c`, empty pieces included.
pub open spec fn split_char(s: Seq<char>, c: char) -> Seq<Seq<char>>
    decreases s.len(),
{
    let i = index_of(s, c);
    proof {
        lemma_index_of(s, c);
    }
    if i < s.len() {
        seq![s.take(i)] + split_char(s.skip(i + 1), c)
    } else {
        seq![s]
    }
}

/// `str::split(c)` over `s[lo..hi]`.
pub fn split_on(s: &Vec<char>, lo: usize, hi: usize, c: char) -> (r: Vec<Vec<char>>)
    requires
        lo <= hi <= s.len(),
    ensures
        views(r@) == split_char(s@.subrange(lo as int, hi as int), c),
{
    let mut out: Vec<Vec<char>> = Vec::new();
    let mut pos = lo;
    loop
        invariant
            lo <= pos <= hi <= s.len(),
            split_char(s@.subrange(lo as int, hi as int), c) == views(out@) + split_char(
                s@.subrange(pos as int, hi as int),
                c,
            ),
        decreases hi - pos,
    {
        let e = find_char(s, pos, hi, c);
        let ghost t = s@.subrange(pos as int, hi as int);
        let piece = copy_range(s, pos, e);
        assert(t.take(e - pos) =~= piece@);
        let ghost before = views(out@);
        let ghost pv = piece@;
        out.push(piece);
        assert(views(out@) =~= before.push(pv));
        if e < hi {
            assert(t.skip(e - pos + 1) =~= s@.subrange(e + 1, hi as int));
            assert(views(out@) + split_char(s@.subrange(e + 1, hi as int), c) =~= before + (seq![pv] + split_char(s@.subrange(e + 1, hi as int), c)));
            pos = e + 1;
        } else {
            assert(views(out@) =~= before + seq![pv]);
            return out;
        }
    }
}

} // verus!
