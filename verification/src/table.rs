//! A small string-keyed table: the in-memory form of the JSON objects that
//! the app keeps under its state directory (caret positions per document,
//! execution counts per palette command).

use vstd::prelude::*;

verus! {

/// The map that a list of `(key, value)` pairs denotes when read in order,
/// a later pair overriding an earlier one with the same key.
pub open spec fn map_of<V>(s: Seq<(String, V)>) -> Map<Seq<char>, V>
    decreases s.len(),
{
    if s.len() == 0 {
        Map::empty()
    } else {
        map_of(s.drop_last()).insert(s.last().0@, s.last().1)
    }
}

/// No key occurs twice.
pub open spec fn keys_distinct<V>(s: Seq<(String, V)>) -> bool {
    forall|i: int, j: int|
        0 <= i < s.len() && 0 <= j < s.len() && i != j ==> s[i].0@ != s[j].0@
}

pub proof fn lemma_map_of_dom<V>(s: Seq<(String, V)>, k: Seq<char>)
    ensures
        map_of(s).dom().contains(k) <==> exists|i: int| 0 <= i < s.len() && s[i].0@ == k,
    decreases s.len(),
{
    if s.len() > 0 {
        lemma_map_of_dom(s.drop_last(), k);
        if map_of(s).dom().contains(k) {
            if k != s.last().0@ {
                let i = choose|i: int| 0 <= i < s.drop_last().len() && s.drop_last()[i].0@ == k;
                assert(s[i].0@ == k);
            } else {
                assert(s[s.len() - 1].0@ == k);
            }
        }
        if exists|i: int| 0 <= i < s.len() && s[i].0@ == k {
            let i = choose|i: int| 0 <= i < s.len() && s[i].0@ == k;
            if i < s.len() - 1 {
                assert(s.drop_last()[i].0@ == k);
            }
        }
    }
}

pub proof fn lemma_map_of_at<V>(s: Seq<(String, V)>, i: int)
    requires
        keys_distinct(s),
        0 <= i < s.len(),
    ensures
        map_of(s).dom().contains(s[i].0@),
        map_of(s)[s[i].0@] == s[i].1,
    decreases s.len(),
{
    lemma_map_of_dom(s, s[i].0@);
    if i < s.len() - 1 {
        assert(keys_distinct(s.drop_last()));
        lemma_map_of_at(s.drop_last(), i);
        assert(s.drop_last()[i] == s[i]);
        assert(s.last().0@ != s[i].0@);
    }
}

proof fn lemma_map_of_update<V>(s: Seq<(String, V)>, i: int, e: (String, V))
    requires
        keys_distinct(s),
        0 <= i < s.len(),
        e.0@ == s[i].0@,
    ensures
        keys_distinct(s.update(i, e)),
        map_of(s.update(i, e)) == map_of(s).insert(e.0@, e.1),
{
    let t = s.update(i, e);
    assert(keys_distinct(t));
    assert forall|k: Seq<char>| #[trigger] map_of(t).dom().contains(k) <==> map_of(s).insert(
        e.0@,
        e.1,
    ).dom().contains(k) by {
        lemma_map_of_dom(t, k);
        lemma_map_of_dom(s, k);
        if exists|j: int| 0 <= j < s.len() && s[j].0@ == k {
            let j = choose|j: int| 0 <= j < s.len() && s[j].0@ == k;
            assert(t[j].0@ == k);
        }
        if exists|j: int| 0 <= j < t.len() && t[j].0@ == k {
            let j = choose|j: int| 0 <= j < t.len() && t[j].0@ == k;
            assert(s[j].0@ == k);
        }
    }
    assert forall|k: Seq<char>| #[trigger] map_of(t).dom().contains(k) implies map_of(t)[k]
        == map_of(s).insert(e.0@, e.1)[k] by {
        lemma_map_of_dom(t, k);
        let j = choose|j: int| 0 <= j < t.len() && t[j].0@ == k;
        lemma_map_of_at(t, j);
        if j != i {
            lemma_map_of_at(s, j);
        }
    }
    assert(map_of(t) =~= map_of(s).insert(e.0@, e.1));
}

/// A table from strings to values, no key twice. It denotes `map_of` of its
/// entries.
pub struct KeyedTable<V> {
    entries: Vec<(String, V)>,
}

impl<V> KeyedTable<V> {
    #[verifier::type_invariant]
    spec fn inv(self) -> bool {
        keys_distinct(self.entries@)
    }

    /// What the table maps each key to.
    pub closed spec fn view(self) -> Map<Seq<char>, V> {
        map_of(self.entries@)
    }

    /// The entries, in the order they were first inserted.
    pub closed spec fn entry_seq(self) -> Seq<(String, V)> {
        self.entries@
    }
}

impl<V: Copy> KeyedTable<V> {
    /// An empty table.
    pub fn new() -> (t: Self)
        ensures
            t.view() == Map::<Seq<char>, V>::empty(),
            t.entry_seq().len() == 0,
    {
        KeyedTable { entries: Vec::new() }
    }

    /// Position of `key` among the entries.
    fn find(&self, key: &String) -> (r: Option<usize>)
        ensures
            match r {
                Some(i) => i < self.entries@.len() && self.entries@[i as int].0@ == key@,
                None => forall|j: int|
                    0 <= j < self.entries@.len() ==> #[trigger] self.entries@[j].0@ != key@,
            },
    {
        let mut i: usize = 0;
        while i < self.entries.len()
            invariant
                i <= self.entries@.len(),
                forall|j: int| 0 <= j < i ==> #[trigger] self.entries@[j].0@ != key@,
            decreases self.entries@.len() - i,
        {
            if self.entries[i].0 == *key {
                return Some(i);
            }
            i += 1;
        }
        None
    }

    /// The value stored under `key`, if any.
    pub fn get(&self, key: &str) -> (r: Option<V>)
        ensures
            r == (if self.view().dom().contains(key@) {
                Some(self.view()[key@])
            } else {
                None::<V>
            }),
    {
        proof {
            use_type_invariant(self);
        }
        let k = key.to_owned();
        match self.find(&k) {
            Some(i) => {
                proof {
                    lemma_map_of_at(self.entries@, i as int);
                }
                Some(self.entries[i].1)
            },
            None => {
                proof {
                    lemma_map_of_dom(self.entries@, key@);
                }
                None
            },
        }
    }

    /// Store `value` under `key`, replacing what was there.
    pub fn insert(&mut self, key: &str, value: V)
        ensures
            final(self).view() == old(self).view().insert(key@, value),
    {
        proof {
            use_type_invariant(&*self);
        }
        let k = key.to_owned();
        let found = self.find(&k);
        let mut entries: Vec<(String, V)> = Vec::new();
        std::mem::swap(&mut entries, &mut self.entries);
        match found {
            Some(i) => {
                proof {
                    lemma_map_of_update(entries@, i as int, (k, value));
                }
                entries.set(i, (k, value));
            },
            None => {
                let ghost old_entries = entries@;
                entries.push((k, value));
                proof {
                    assert(entries@.drop_last() =~= old_entries);
                    assert forall|a: int, b: int|
                        0 <= a < entries@.len() && 0 <= b < entries@.len() && a != b
                        implies entries@[a].0@ != entries@[b].0@ by {
                        if a < old_entries.len() && b < old_entries.len() {
                            assert(entries@[a] == old_entries[a]);
                            assert(entries@[b] == old_entries[b]);
                        } else if a < old_entries.len() {
                            assert(entries@[a] == old_entries[a]);
                        } else if b < old_entries.len() {
                            assert(entries@[b] == old_entries[b]);
                        }
                    }
                }
            },
        }
        self.entries = entries;
    }

    /// A table holding the given pairs, read in order: where a key occurs
    /// more than once the last pair wins, as when a JSON object is read into
    /// a hash map.
    pub fn from_entries(pairs: Vec<(String, V)>) -> (t: Self)
        ensures
            t.view() == map_of(pairs@),
    {
        let mut t = Self::new();
        let mut i: usize = 0;
        while i < pairs.len()
            invariant
                i <= pairs@.len(),
                t.view() == map_of(pairs@.take(i as int)),
            decreases pairs@.len() - i,
        {
            let (ref k, v) = pairs[i];
            t.insert(k.as_str(), v);
            i += 1;
            assert(pairs@.take(i as int).drop_last() =~= pairs@.take(i - 1));
        }
        assert(pairs@.take(pairs@.len() as int) =~= pairs@);
        t
    }

    /// The pairs of the table, each key once.
    pub fn to_entries(&self) -> (r: Vec<(String, V)>)
        ensures
            map_of(r@) == self.view(),
            keys_distinct(r@),
    {
        proof {
            use_type_invariant(self);
        }
        let mut r: Vec<(String, V)> = Vec::new();
        let mut i: usize = 0;
        while i < self.entries.len()
            invariant
                i <= self.entries@.len(),
                r@.len() == i,
                forall|j: int| 0 <= j < i ==> #[trigger] r@[j].0@ == self.entries@[j].0@ && r@[j].1 == self.entries@[j].1,
                keys_distinct(self.entries@),
            decreases self.entries@.len() - i,
        {
            let k = self.entries[i].0.clone();
            r.push((k, self.entries[i].1));
            i += 1;
        }
        proof {
            assert(keys_distinct(r@));
            lemma_map_of_same_keys(r@, self.entries@);
        }
        r
    }
}

proof fn lemma_map_of_same_keys<V>(a: Seq<(String, V)>, b: Seq<(String, V)>)
    requires
        a.len() == b.len(),
        forall|j: int| 0 <= j < a.len() ==> #[trigger] a[j].0@ == b[j].0@ && a[j].1 == b[j].1,
    ensures
        map_of(a) == map_of(b),
    decreases a.len(),
{
    if a.len() > 0 {
        lemma_map_of_same_keys(a.drop_last(), b.drop_last());
        assert(a.last().0@ == b.last().0@);
    }
}

} // verus!
