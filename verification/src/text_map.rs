//! A map from text keys to text values, kept as a list of entries with
//! distinct keys (what a `HashMap<String, String>` holds, without its
//! iteration order).

use vstd::prelude::*;

verus! {

/// Entries with distinct keys.
#[derive(Clone, Debug)]
pub struct TextMap {
    entries: Vec<(String, String)>,
}

/// The map of a list of entries (a later entry wins).
pub open spec fn entries_map(s: Seq<(String, String)>) -> Map<Seq<char>, Seq<char>>
    decreases s.len(),
{
    if s.len() == 0 {
        Map::empty()
    } else {
        entries_map(s.drop_last()).insert(s.last().0@, s.last().1@)
    }
}

/// No key occurs twice.
pub open spec fn distinct_keys(s: Seq<(String, String)>) -> bool {
    forall|i: int, j: int| 0 <= i < j < s.len() ==> (#[trigger] s[i]).0@ != (#[trigger] s[j]).0@
}

proof fn lemma_entries_map(s: Seq<(String, String)>)
    requires
        distinct_keys(s),
    ensures
        forall|i: int| 0 <= i < s.len() ==> #[trigger] entries_map(s).contains_key(s[i].0@)
            && entries_map(s)[s[i].0@] == s[i].1@,
        forall|k: Seq<char>| #[trigger] entries_map(s).contains_key(k) ==> exists|i: int|
            0 <= i < s.len() && s[i].0@ == k,
    decreases s.len(),
{
    if s.len() > 0 {
        let t = s.drop_last();
        assert(distinct_keys(t)) by {
            assert forall|i: int, j: int| 0 <= i < j < t.len() implies (#[trigger] t[i]).0@ != (#[trigger] t[j]).0@ by {
                assert(t[i] == s[i] && t[j] == s[j]);
            }
        }
        lemma_entries_map(t);
        assert forall|i: int| 0 <= i < s.len() implies #[trigger] entries_map(s).contains_key(s[i].0@)
            && entries_map(s)[s[i].0@] == s[i].1@ by {
            if i < s.len() - 1 {
                assert(s[i] == t[i]);
                assert(entries_map(t).contains_key(t[i].0@));
                assert(s[i].0@ != s[s.len() - 1].0@);
            }
        }
        assert forall|k: Seq<char>| #[trigger] entries_map(s).contains_key(k) implies exists|i: int|
            0 <= i < s.len() && s[i].0@ == k by {
            if k != s.last().0@ {
                assert(entries_map(t).contains_key(k));
                let i = choose|i: int| 0 <= i < t.len() && t[i].0@ == k;
                assert(s[i] == t[i]);
            } else {
                assert(s[s.len() - 1].0@ == k);
            }
        }
    }
}

proof fn lemma_entries_map_update(s: Seq<(String, String)>, i: int, e: (String, String))
    requires
        distinct_keys(s),
        0 <= i < s.len(),
        e.0@ == s[i].0@,
    ensures
        distinct_keys(s.update(i, e)),
        entries_map(s.update(i, e)) == entries_map(s).insert(e.0@, e.1@),
{
    let u = s.update(i, e);
    assert(distinct_keys(u)) by {
        assert forall|a: int, b: int| 0 <= a < b < u.len() implies (#[trigger] u[a]).0@ != (#[trigger] u[b]).0@ by {
            assert(u[a].0@ == s[a].0@ && u[b].0@ == s[b].0@);
        }
    }
    lemma_entries_map(s);
    lemma_entries_map(u);
    assert(entries_map(u) =~= entries_map(s).insert(e.0@, e.1@)) by {
        assert forall|k: Seq<char>| #[trigger] entries_map(u).contains_key(k) <==> entries_map(s).insert(e.0@, e.1@).contains_key(k) by {
            if entries_map(u).contains_key(k) {
                let j = choose|j: int| 0 <= j < u.len() && u[j].0@ == k;
                assert(s[j].0@ == k);
            }
            if entries_map(s).contains_key(k) {
                let j = choose|j: int| 0 <= j < s.len() && s[j].0@ == k;
                assert(u[j].0@ == k);
            }
        }
        assert forall|k: Seq<char>| #[trigger] entries_map(u).contains_key(k) implies entries_map(u)[k] == entries_map(s).insert(e.0@, e.1@)[k] by {
            let j = choose|j: int| 0 <= j < u.len() && u[j].0@ == k;
            if j != i {
                assert(u[j] == s[j]);
                assert(s[j].0@ != s[i].0@);
            }
        }
    }
}

impl View for TextMap {
    type V = Map<Seq<char>, Seq<char>>;

    closed spec fn view(&self) -> Map<Seq<char>, Seq<char>> {
        entries_map(self.entries@)
    }
}

impl TextMap {
    /// The map's invariant: no key occurs twice.
    pub closed spec fn wf(&self) -> bool {
        distinct_keys(self.entries@)
    }

    /// The keys, in insertion order.
    pub closed spec fn key_list(&self) -> Seq<Seq<char>> {
        self.entries@.map_values(|e: (String, String)| e.0@)
    }

    pub proof fn lemma_keys(&self)
        requires
            self.wf(),
        ensures
            forall|i: int| 0 <= i < self.key_list().len() ==> self@.contains_key(#[trigger] self.key_list()[i]),
            forall|k: Seq<char>| #[trigger] self@.contains_key(k) ==> self.key_list().contains(k),
            forall|i: int, j: int|
                0 <= i < j < self.key_list().len() ==> #[trigger] self.key_list()[i] != #[trigger] self.key_list()[j],
    {
        lemma_entries_map(self.entries@);
        assert forall|i: int, j: int|
            0 <= i < j < self.key_list().len() implies #[trigger] self.key_list()[i] != #[trigger] self.key_list()[j] by {
            assert(self.key_list()[i] == self.entries@[i].0@);
            assert(self.key_list()[j] == self.entries@[j].0@);
        }
        assert forall|k: Seq<char>| #[trigger] self@.contains_key(k) implies self.key_list().contains(k) by {
            let i = choose|i: int| 0 <= i < self.entries@.len() && self.entries@[i].0@ == k;
            assert(self.key_list()[i] == k);
        }
    }

    /// An empty map.
    pub fn new() -> (r: TextMap)
        ensures
            r.wf(),
            r@ == Map::<Seq<char>, Seq<char>>::empty(),
            r.key_list().len() == 0,
    {
        let r = TextMap { entries: Vec::new() };
        proof {
            assert(r.key_list() =~= Seq::<Seq<char>>::empty());
        }
        r
    }

    /// Number of entries.
    pub fn len(&self) -> (r: usize)
        ensures
            r == self.key_list().len(),
    {
        self.entries.len()
    }

    /// The position of the key, if present.
    fn position(&self, key: &String) -> (r: Option<usize>)
        requires
            self.wf(),
        ensures
            match r {
                Some(i) => i < self.entries@.len() && self.entries@[i as int].0@ == key@,
                None => !self@.contains_key(key@),
            },
    {
        let mut i: usize = 0;
        while i < self.entries.len()
            invariant
                i <= self.entries@.len(),
                forall|j: int| 0 <= j < i ==> self.entries@[j].0@ != key@,
            decreases self.entries.len() - i,
        {
            if self.entries[i].0 == *key {
                return Some(i);
            }
            i = i + 1;
        }
        proof {
            lemma_entries_map(self.entries@);
            if self@.contains_key(key@) {
                let j = choose|j: int| 0 <= j < self.entries@.len() && self.entries@[j].0@ == key@;
                assert(self.entries@[j].0@ != key@);
            }
        }
        None
    }

    /// The value of the key, if present.
    pub fn get(&self, key: &String) -> (r: Option<&String>)
        requires
            self.wf(),
        ensures
            match r {
                Some(v) => self@.contains_key(key@) && self@[key@] == v@,
                None => !self@.contains_key(key@),
            },
    {
        match self.position(key) {
            Some(i) => {
                proof {
                    lemma_entries_map(self.entries@);
                    assert(entries_map(self.entries@).contains_key(self.entries@[i as int].0@));
                }
                Some(&self.entries[i].1)
            },
            None => None,
        }
    }

    /// The `i`-th key and its value.
    pub fn entry(&self, i: usize) -> (r: (&String, &String))
        requires
            self.wf(),
            i < self.key_list().len(),
        ensures
            r.0@ == self.key_list()[i as int],
            self@.contains_key(r.0@),
            self@[r.0@] == r.1@,
    {
        proof {
            lemma_entries_map(self.entries@);
            assert(entries_map(self.entries@).contains_key(self.entries@[i as int].0@));
        }
        let e = &self.entries[i];
        (&e.0, &e.1)
    }

    /// Sets the key's value (keeping its place if it was present).
    pub fn insert(&mut self, key: String, value: String)
        requires
            old(self).wf(),
        ensures
            final(self).wf(),
            final(self)@ == old(self)@.insert(key@, value@),
    {
        match self.position(&key) {
            Some(i) => {
                let ghost s = self.entries@;
                let mut e = (key, value);
                let ghost ev = e;
                self.entries.set_and_swap(i, &mut e);
                proof {
                    lemma_entries_map_update(s, i as int, ev);
                }
            },
            None => {
                let ghost s = self.entries@;
                let e = (key, value);
                self.entries.push(e);
                proof {
                    assert(self.entries@.drop_last() =~= s);
                    assert(distinct_keys(self.entries@)) by {
                        lemma_entries_map(s);
                        assert forall|a: int, b: int| 0 <= a < b < self.entries@.len() implies (#[trigger] self.entries@[a]).0@ != (#[trigger] self.entries@[b]).0@ by {
                            if b == s.len() {
                                assert(entries_map(s).contains_key(s[a].0@));
                            } else {
                                assert(self.entries@[a] == s[a] && self.entries@[b] == s[b]);
                            }
                        }
                    }
                }
            },
        }
    }

    /// Replaces the value of the `i`-th key, keeping the keys and their order.
    pub fn set_value(&mut self, i: usize, value: String)
        requires
            old(self).wf(),
            i < old(self).key_list().len(),
        ensures
            final(self).wf(),
            final(self).key_list() == old(self).key_list(),
            final(self)@ == old(self)@.insert(old(self).key_list()[i as int], value@),
    {
        let ghost s = self.entries@;
        let key = self.entries[i].0.clone();
        let mut e = (key, value);
        let ghost ev = e;
        self.entries.set_and_swap(i, &mut e);
        proof {
            lemma_entries_map_update(s, i as int, ev);
            assert(self.key_list() =~= old(self).key_list());
        }
    }

    /// Sets every key of `other` to its value there (`extend`).
    pub fn extend_from(&mut self, other: &TextMap)
        requires
            old(self).wf(),
            other.wf(),
        ensures
            final(self).wf(),
            final(self)@ == old(self)@.union_prefer_right(other@),
    {
        let mut i: usize = 0;
        proof {
            assert(old(self)@.union_prefer_right(entries_map(other.entries@.subrange(0, 0))) =~= old(self)@);
        }
        while i < other.entries.len()
            invariant
                self.wf(),
                other.wf(),
                i <= other.entries@.len(),
                self@ == old(self)@.union_prefer_right(entries_map(other.entries@.subrange(0, i as int))),
            decreases other.entries.len() - i,
        {
            let k = other.entries[i].0.clone();
            let v = other.entries[i].1.clone();
            self.insert(k, v);
            proof {
                let s1 = other.entries@.subrange(0, i + 1);
                assert(s1.drop_last() =~= other.entries@.subrange(0, i as int));
                assert(s1.last() == other.entries@[i as int]);
                assert(self@ =~= old(self)@.union_prefer_right(entries_map(s1)));
            }
            i = i + 1;
        }
        proof {
            assert(other.entries@.subrange(0, other.entries@.len() as int) =~= other.entries@);
        }
    }

    /// A copy of the map.
    pub fn duplicate(&self) -> (r: TextMap)
        requires
            self.wf(),
        ensures
            r.wf(),
            r@ == self@,
    {
        let mut r = TextMap::new();
        r.extend_from(self);
        proof {
            assert(Map::<Seq<char>, Seq<char>>::empty().union_prefer_right(self@) =~= self@);
        }
        r
    }
}

} // verus!
