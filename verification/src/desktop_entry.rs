//! The shared Desktop Entry section parser used by launchers and autostart.
use vstd::prelude::*;
use crate::text::{
    chars_of, contains_char, find_char, index_of, lines, range_eq, split_lines, string_of, trim,
    trim_bounds, trimmed, views,
};

verus! {

/// Key/value fields with distinct keys; a later insertion of a key replaces its value.
pub struct Fields {
    pairs: Vec<(String, String)>,
}

/// The map that inserting `p`'s pairs in order produces.
pub open spec fn pairs_map(p: Seq<(String, String)>) -> Map<Seq<char>, Seq<char>>
    decreases p.len(),
{
    if p.len() == 0 {
        Map::empty()
    } else {
        pairs_map(p.drop_last()).insert(p.last().0@, p.last().1@)
    }
}

pub open spec fn distinct_keys(p: Seq<(String, String)>) -> bool {
    forall|i: int, j: int| 0 <= i < j < p.len() ==> p[i].0@ != p[j].0@
}

proof fn lemma_pairs_map_lookup(p: Seq<(String, String)>, k: Seq<char>)
    requires
        distinct_keys(p),
    ensures
        pairs_map(p).dom().finite(),
        pairs_map(p).dom().len() == p.len(),
        pairs_map(p).dom().contains(k) <==> exists|i: int| 0 <= i < p.len() && p[i].0@ == k,
        forall|i: int| 0 <= i < p.len() ==> #[trigger] pairs_map(p)[p[i].0@] == p[i].1@,
    decreases p.len(),
{
    if p.len() > 0 {
        let q = p.drop_last();
        lemma_pairs_map_lookup(q, k);
        lemma_pairs_map_lookup(q, p.last().0@);
        assert(!pairs_map(q).dom().contains(p.last().0@)) by {
            if pairs_map(q).dom().contains(p.last().0@) {
                let i = choose|i: int| 0 <= i < q.len() && q[i].0@ == p.last().0@;
                assert(p[i].0@ == p[p.len() - 1].0@);
            }
        }
        assert forall|i: int| 0 <= i < p.len() implies #[trigger] pairs_map(p)[p[i].0@]
            == p[i].1@ by {
            if i < p.len() - 1 {
                assert(p[i] == q[i]);
                assert(p[i].0@ != p.last().0@);
            }
        }
        if pairs_map(p).dom().contains(k) && k != p.last().0@ {
            let i = choose|i: int| 0 <= i < q.len() && q[i].0@ == k;
            assert(p[i] == q[i]);
        }
        if exists|i: int| 0 <= i < p.len() && p[i].0@ == k {
            let i = choose|i: int| 0 <= i < p.len() && p[i].0@ == k;
            if i < p.len() - 1 {
                assert(q[i] == p[i]);
            }
        }
    }
}

proof fn lemma_pairs_map_update(p: Seq<(String, String)>, j: int, e: (String, String))
    requires
        distinct_keys(p),
        0 <= j < p.len(),
        p[j].0@ == e.0@,
    ensures
        pairs_map(p.update(j, e)) == pairs_map(p).insert(e.0@, e.1@),
        distinct_keys(p.update(j, e)),
    decreases p.len(),
{
    let u = p.update(j, e);
    assert(distinct_keys(u)) by {
        assert forall|a: int, b: int| 0 <= a < b < u.len() implies u[a].0@ != u[b].0@ by {
            assert(p[a].0@ != p[b].0@);
        }
    }
    if j == p.len() - 1 {
        assert(u.drop_last() =~= p.drop_last());
        assert(pairs_map(u) =~= pairs_map(p).insert(e.0@, e.1@));
    } else {
        let q = p.drop_last();
        assert(u.drop_last() =~= q.update(j, e));
        lemma_pairs_map_update(q, j, e);
        assert(p.last().0@ != e.0@) by {
            assert(p[j].0@ != p[p.len() - 1].0@);
        }
        assert(pairs_map(u) =~= pairs_map(p).insert(e.0@, e.1@));
    }
}

impl View for Fields {
    type V = Map<Seq<char>, Seq<char>>;

    closed spec fn view(&self) -> Map<Seq<char>, Seq<char>> {
        pairs_map(self.pairs@)
    }
}

impl Fields {
    #[verifier::type_invariant]
    spec fn inv(&self) -> bool {
        distinct_keys(self.pairs@)
    }

    /// No fields.
    pub fn new() -> (r: Fields)
        ensures
            r@ == Map::<Seq<char>, Seq<char>>::empty(),
    {
        Fields { pairs: Vec::new() }
    }

    /// Sets `key` to `value`, replacing an earlier value of `key`.
    pub fn insert(&mut self, key: String, value: String)
        ensures
            final(self)@ == old(self)@.insert(key@, value@),
    {
        proof {
            use_type_invariant(&*self);
        }
        let mut i: usize = 0;
        while i < self.pairs.len()
            invariant
                i <= self.pairs.len(),
                self.pairs@ == old(self).pairs@,
                distinct_keys(self.pairs@),
                forall|j: int| 0 <= j < i ==> self.pairs@[j].0@ != key@,
            decreases self.pairs.len() - i,
        {
            if self.pairs[i].0 == key {
                let ghost p = self.pairs@;
                let e = (key, value);
                proof {
                    lemma_pairs_map_update(p, i as int, e);
                }
                let mut pairs: Vec<(String, String)> = Vec::new();
                std::mem::swap(&mut pairs, &mut self.pairs);
                pairs.set(i, e);
                assert(pairs@ == p.update(i as int, e));
                self.pairs = pairs;
                assert(self@ == pairs_map(p.update(i as int, e)));
                return;
            }
            i += 1;
        }
        let ghost p = self.pairs@;
        let mut pairs: Vec<(String, String)> = Vec::new();
        std::mem::swap(&mut pairs, &mut self.pairs);
        let ghost kv = key@;
        let ghost vv = value@;
        pairs.push((key, value));
        assert(pairs@.drop_last() =~= p);
        assert(distinct_keys(pairs@)) by {
            assert forall|a: int, b: int| 0 <= a < b < pairs@.len() implies pairs@[a].0@
                != pairs@[b].0@ by {
                if b == pairs@.len() - 1 {
                    assert(pairs@[a] == p[a]);
                } else {
                    assert(pairs@[a] == p[a] && pairs@[b] == p[b]);
                }
            }
        }
        self.pairs = pairs;
        assert(self@ == pairs_map(p).insert(kv, vv));
    }

    /// The value of `key`, if it is set.
    pub fn get(&self, key: &str) -> (r: Option<String>)
        ensures
            match r {
                Some(v) => self@.dom().contains(key@) && v@ == self@[key@],
                None => !self@.dom().contains(key@),
            },
    {
        proof {
            use_type_invariant(self);
            lemma_pairs_map_lookup(self.pairs@, key@);
        }
        let k = key.to_owned();
        let mut i: usize = 0;
        while i < self.pairs.len()
            invariant
                i <= self.pairs.len(),
                k@ == key@,
                forall|j: int| 0 <= j < i ==> self.pairs@[j].0@ != key@,
            decreases self.pairs.len() - i,
        {
            if self.pairs[i].0 == k {
                proof {
                    use_type_invariant(self);
                    lemma_pairs_map_lookup(self.pairs@, key@);
                }
                assert(self.pairs@[i as int].0@ == key@);
                assert(pairs_map(self.pairs@)[self.pairs@[i as int].0@] == self.pairs@[i as int].1@);
                return Some(self.pairs[i].1.clone());
            }
            i += 1;
        }
        proof {
            use_type_invariant(self);
            lemma_pairs_map_lookup(self.pairs@, key@);
        }
        None
    }

    /// The keys and values, each key once.
    pub fn entries(&self) -> (r: Vec<(String, String)>)
        ensures
            r@.len() == self@.dom().len(),
            forall|i: int, j: int| 0 <= i < j < r@.len() ==> r@[i].0@ != r@[j].0@,
            forall|i: int| 0 <= i < r@.len() ==> #[trigger] self@.contains_key(r@[i].0@) && self@[r@[i].0@] == r@[i].1@,
            forall|k: Seq<char>| #[trigger] self@.contains_key(k) ==> exists|i: int| 0 <= i < r@.len() && r@[i].0@ == k,
    {
        proof {
            use_type_invariant(self);
        }
        let mut r: Vec<(String, String)> = Vec::new();
        let mut i: usize = 0;
        while i < self.pairs.len()
            invariant
                i <= self.pairs.len(),
                distinct_keys(self.pairs@),
                r@.len() == i,
                forall|j: int| 0 <= j < i ==> #[trigger] r@[j].0@ == self.pairs@[j].0@ && r@[j].1@ == self.pairs@[j].1@,
            decreases self.pairs.len() - i,
        {
            r.push((self.pairs[i].0.clone(), self.pairs[i].1.clone()));
            i += 1;
        }
        proof {
            lemma_pairs_map_lookup(self.pairs@, Seq::empty());
            assert forall|i: int| 0 <= i < r@.len() implies #[trigger] self@.contains_key(r@[i].0@) && self@[r@[i].0@] == r@[i].1@ by {
                lemma_pairs_map_lookup(self.pairs@, r@[i].0@);
            }
            assert forall|k: Seq<char>| #[trigger] self@.contains_key(k) implies exists|i: int| 0 <= i < r@.len() && r@[i].0@ == k by {
                lemma_pairs_map_lookup(self.pairs@, k);
                let i = choose|i: int| 0 <= i < self.pairs@.len() && self.pairs@[i].0@ == k;
                assert(r@[i].0@ == k);
            }
        }
        r
    }

    /// The number of fields.
    pub fn len(&self) -> (r: usize)
        ensures
            r == self@.dom().len(),
    {
        proof {
            use_type_invariant(self);
            lemma_pairs_map_lookup(self.pairs@, Seq::empty());
        }
        self.pairs.len()
    }
}

/// One line of the section parser: a `[` line opens a section (active only when it is
/// exactly `[Desktop Entry]` after trimming); within the active section a non-comment
/// line with `=` sets the trimmed key to the trimmed rest.
pub open spec fn entry_step(st: (bool, Map<Seq<char>, Seq<char>>), line: Seq<char>) -> (
    bool,
    Map<Seq<char>, Seq<char>>,
) {
    let l = trim(line);
    if l.len() > 0 && l[0] == '[' {
        (l == "[Desktop Entry]"@, st.1)
    } else if st.0 && !(l.len() > 0 && l[0] == '#') && contains_char(l, '=') {
        let i = index_of(l, '=');
        (st.0, st.1.insert(trim(l.take(i)), trim(l.skip(i + 1))))
    } else {
        st
    }
}

pub open spec fn entry_fold(ls: Seq<Seq<char>>) -> (bool, Map<Seq<char>, Seq<char>>)
    decreases ls.len(),
{
    if ls.len() == 0 {
        (false, Map::empty())
    } else {
        entry_step(entry_fold(ls.drop_last()), ls.last())
    }
}

/// The fields of the `[Desktop Entry]` section of `text`.
pub open spec fn entry_fields(text: Seq<char>) -> Map<Seq<char>, Seq<char>> {
    entry_fold(lines(text)).1
}

/// Parses the `[Desktop Entry]` section of a desktop file.
pub fn parse(text: &str) -> (r: Fields)
    ensures
        r@ == entry_fields(text@),
{
    let s = chars_of(text);
    let ls = split_lines(&s);
    let header = chars_of("[Desktop Entry]");
    let mut active = false;
    let mut fields = Fields::new();
    let mut i: usize = 0;
    while i < ls.len()
        invariant
            i <= ls.len(),
            header@ == "[Desktop Entry]"@,
            views(ls@) == lines(s@),
            s@ == text@,
            (active, fields@) == entry_fold(views(ls@).take(i as int)),
        decreases ls.len() - i,
    {
        let line = &ls[i];
        assert(views(ls@).take(i + 1).drop_last() =~= views(ls@).take(i as int));
        assert(views(ls@).take(i + 1).last() == line@);
        let (a, b) = trim_bounds(line, 0, line.len());
        assert(line@.subrange(0, line@.len() as int) =~= line@);
        let ghost l = line@.subrange(a as int, b as int);
        if a < b && line[a] == '[' {
            active = range_eq(line, a, b, &header);
        } else if active && !(a < b && line[a] == '#') {
            let e = find_char(line, a, b, '=');
            if e < b {
                assert(l.take(e - a) =~= line@.subrange(a as int, e as int));
                assert(l.skip(e - a + 1) =~= line@.subrange(e + 1, b as int));
                let k = trimmed(line, a, e);
                let v = trimmed(line, e + 1, b);
                fields.insert(string_of(k.as_slice()), string_of(v.as_slice()));
            }
        }
        i += 1;
    }
    assert(views(ls@).take(ls.len() as int) =~= views(ls@));
    fields
}

} // verus!
