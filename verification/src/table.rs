//! A small map from names to values, kept as a vector with distinct names.
use vstd::prelude::*;

verus! {

/// Name/value entries with distinct names; inserting a present name replaces its value.
pub struct Table<V> {
    entries: Vec<(String, V)>,
}

/// The map that inserting `p`'s entries in order produces.
pub open spec fn entries_map<V>(p: Seq<(String, V)>) -> Map<Seq<char>, V>
    decreases p.len(),
{
    if p.len() == 0 {
        Map::empty()
    } else {
        entries_map(p.drop_last()).insert(p.last().0@, p.last().1)
    }
}

pub open spec fn distinct_names<V>(p: Seq<(String, V)>) -> bool {
    forall|i: int, j: int| 0 <= i < j < p.len() ==> p[i].0@ != p[j].0@
}

pub proof fn lemma_entries_map<V>(p: Seq<(String, V)>, k: Seq<char>)
    requires
        distinct_names(p),
    ensures
        entries_map(p).dom().finite(),
        entries_map(p).dom().len() == p.len(),
        entries_map(p).dom().contains(k) <==> exists|i: int| 0 <= i < p.len() && p[i].0@ == k,
        forall|i: int| 0 <= i < p.len() ==> #[trigger] entries_map(p)[p[i].0@] == p[i].1,
    decreases p.len(),
{
    if p.len() > 0 {
        let q = p.drop_last();
        lemma_entries_map(q, k);
        lemma_entries_map(q, p.last().0@);
        assert(!entries_map(q).dom().contains(p.last().0@)) by {
            if entries_map(q).dom().contains(p.last().0@) {
                let i = choose|i: int| 0 <= i < q.len() && q[i].0@ == p.last().0@;
                assert(p[i].0@ == p[p.len() - 1].0@);
            }
        }
        assert forall|i: int| 0 <= i < p.len() implies #[trigger] entries_map(p)[p[i].0@] == p[i].1 by {
            if i < p.len() - 1 {
                assert(p[i] == q[i]);
                assert(p[i].0@ != p.last().0@);
            }
        }
        if entries_map(p).dom().contains(k) && k != p.last().0@ {
            let i = choose|i: int| 0 <= i < q.len() && q[i].0@ == k;
            assert(p[i] == q[i]);
        }
        if exists|i: int| 0 <= i < p.len() && p[i].0@ == k {
            let i = choose|i: int| 0 <= i < p.len() && p[i].0@ == k;
            if i < p.len() - 1 {
                assert(q[i] == p[i]);
            }
        }
    }
}

proof fn lemma_entries_map_update<V>(p: Seq<(String, V)>, j: int, e: (String, V))
    requires
        distinct_names(p),
        0 <= j < p.len(),
        p[j].0@ == e.0@,
    ensures
        entries_map(p.update(j, e)) == entries_map(p).insert(e.0@, e.1),
        distinct_names(p.update(j, e)),
    decreases p.len(),
{
    let u = p.update(j, e);
    assert(distinct_names(u)) by {
        assert forall|a: int, b: int| 0 <= a < b < u.len() implies u[a].0@ != u[b].0@ by {
            assert(p[a].0@ != p[b].0@);
        }
    }
    if j == p.len() - 1 {
        assert(u.drop_last() =~= p.drop_last());
        assert(entries_map(u) =~= entries_map(p).insert(e.0@, e.1));
    } else {
        let q = p.drop_last();
        assert(u.drop_last() =~= q.update(j, e));
        lemma_entries_map_update(q, j, e);
        assert(p.last().0@ != e.0@) by {
            assert(p[j].0@ != p[p.len() - 1].0@);
        }
        assert(entries_map(u) =~= entries_map(p).insert(e.0@, e.1));
    }
}

impl<V: Copy> View for Table<V> {
    type V = Map<Seq<char>, V>;

    closed spec fn view(&self) -> Map<Seq<char>, V> {
        entries_map(self.entries@)
    }
}

impl<V> Table<V> {
    #[verifier::type_invariant]
    spec fn inv(&self) -> bool {
        distinct_names(self.entries@)
    }
}

impl<V: Copy> Table<V> {

    pub fn new() -> (r: Table<V>)
        ensures
            r@ == Map::<Seq<char>, V>::empty(),
    {
        Table { entries: Vec::new() }
    }

    /// Sets `name` to `value`, replacing an earlier value of `name`.
    pub fn insert(&mut self, name: String, value: V)
        ensures
            final(self)@ == old(self)@.insert(name@, value),
    {
        proof {
            use_type_invariant(&*self);
        }
        let mut i: usize = 0;
        while i < self.entries.len()
            invariant
                i <= self.entries.len(),
                self.entries@ == old(self).entries@,
                distinct_names(self.entries@),
                forall|j: int| 0 <= j < i ==> self.entries@[j].0@ != name@,
            decreases self.entries.len() - i,
        {
            if self.entries[i].0 == name {
                let ghost p = self.entries@;
                let e = (name, value);
                proof {
                    lemma_entries_map_update(p, i as int, e);
                }
                let mut entries: Vec<(String, V)> = Vec::new();
                std::mem::swap(&mut entries, &mut self.entries);
                entries.set(i, e);
                assert(entries@ == p.update(i as int, e));
                self.entries = entries;
                return;
            }
            i += 1;
        }
        let ghost p = self.entries@;
        let ghost nv = name@;
        let mut entries: Vec<(String, V)> = Vec::new();
        std::mem::swap(&mut entries, &mut self.entries);
        entries.push((name, value));
        assert(entries@.drop_last() =~= p);
        assert(distinct_names(entries@)) by {
            assert forall|a: int, b: int| 0 <= a < b < entries@.len() implies entries@[a].0@
                != entries@[b].0@ by {
                if b == entries@.len() - 1 {
                    assert(entries@[a] == p[a]);
                } else {
                    assert(entries@[a] == p[a] && entries@[b] == p[b]);
                }
            }
        }
        self.entries = entries;
        assert(self@ == entries_map(p).insert(nv, value));
    }

    /// The value of `name`, if present.
    pub fn get(&self, name: &str) -> (r: Option<V>)
        ensures
            match r {
                Some(v) => self@.contains_key(name@) && v == self@[name@],
                None => !self@.contains_key(name@),
            },
    {
        let k = name.to_owned();
        let mut i: usize = 0;
        while i < self.entries.len()
            invariant
                i <= self.entries.len(),
                k@ == name@,
                forall|j: int| 0 <= j < i ==> self.entries@[j].0@ != name@,
            decreases self.entries.len() - i,
        {
            if self.entries[i].0 == k {
                proof {
                    use_type_invariant(self);
                    lemma_entries_map(self.entries@, name@);
                    assert(entries_map(self.entries@)[self.entries@[i as int].0@] == self.entries@[i as int].1);
                }
                return Some(self.entries[i].1);
            }
            i += 1;
        }
        proof {
            use_type_invariant(self);
            lemma_entries_map(self.entries@, name@);
        }
        None
    }

    /// The number of names.
    pub fn len(&self) -> (r: usize)
        ensures
            r == self@.dom().len(),
    {
        proof {
            use_type_invariant(self);
            lemma_entries_map(self.entries@, Seq::empty());
        }
        self.entries.len()
    }

    /// The names and values, each name once.
    pub fn entries(&self) -> (r: Vec<(String, V)>)
        ensures
            r@.len() == self@.dom().len(),
            forall|i: int, j: int| 0 <= i < j < r@.len() ==> r@[i].0@ != r@[j].0@,
            forall|i: int| 0 <= i < r@.len() ==> #[trigger] self@.contains_key(r@[i].0@) && self@[r@[i].0@] == r@[i].1,
            forall|k: Seq<char>| #[trigger] self@.contains_key(k) ==> exists|i: int| 0 <= i < r@.len() && r@[i].0@ == k,
    {
        proof {
            use_type_invariant(self);
        }
        let mut r: Vec<(String, V)> = Vec::new();
        let mut i: usize = 0;
        while i < self.entries.len()
            invariant
                i <= self.entries.len(),
                distinct_names(self.entries@),
                r@.len() == i,
                forall|j: int| 0 <= j < i ==> #[trigger] r@[j].0@ == self.entries@[j].0@ && r@[j].1 == self.entries@[j].1,
            decreases self.entries.len() - i,
        {
            r.push((self.entries[i].0.clone(), self.entries[i].1));
            i += 1;
        }
        proof {
            lemma_entries_map(self.entries@, Seq::empty());
            assert forall|i: int| 0 <= i < r@.len() implies #[trigger] self@.contains_key(r@[i].0@) && self@[r@[i].0@] == r@[i].1 by {
                lemma_entries_map(self.entries@, r@[i].0@);
            }
            assert forall|k: Seq<char>| #[trigger] self@.contains_key(k) implies exists|i: int| 0 <= i < r@.len() && r@[i].0@ == k by {
                lemma_entries_map(self.entries@, k);
                let i = choose|i: int| 0 <= i < self.entries@.len() && self.entries@[i].0@ == k;
                assert(r@[i].0@ == k);
            }
        }
        r
    }
}

} // verus!
