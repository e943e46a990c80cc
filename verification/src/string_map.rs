//! A map keyed by strings that keeps its entries in the order in which their
//! keys were first inserted.
use crate::text::str_eq;
use vstd::prelude::*;

verus! {

/// The map that a sequence of entries with distinct keys stands for.
pub open spec fn entries_map<V>(s: Seq<(Seq<char>, V)>) -> Map<Seq<char>, V>
    decreases s.len(),
{
    if s.len() == 0 {
        Map::empty()
    } else {
        entries_map(s.drop_last()).insert(s.last().0, s.last().1)
    }
}

/// No two entries share a key.
pub open spec fn distinct_keys<V>(s: Seq<(Seq<char>, V)>) -> bool {
    forall|i: int, j: int| 0 <= i < j < s.len() ==> s[i].0 != s[j].0
}

/// The keys of the entries, in order.
pub open spec fn entry_keys<V>(s: Seq<(Seq<char>, V)>) -> Seq<Seq<char>> {
    s.map_values(|e: (Seq<char>, V)| e.0)
}

/// In a sequence of entries with distinct keys, each entry's key maps to its
/// value, and nothing else is in the map.
pub proof fn lemma_entries_map<V>(s: Seq<(Seq<char>, V)>)
    requires
        distinct_keys(s),
    ensures
        forall|k: Seq<char>|
            #[trigger] entries_map(s).dom().contains(k) <==> exists|i: int|
                0 <= i < s.len() && s[i].0 == k,
        forall|i: int| 0 <= i < s.len() ==> #[trigger] entries_map(s)[s[i].0] == s[i].1,
        entries_map(s).dom().finite(),
        entries_map(s).dom().len() == s.len(),
    decreases s.len(),
{
    if s.len() > 0 {
        let p = s.drop_last();
        lemma_entries_map(p);
        assert forall|k: Seq<char>| #[trigger] entries_map(s).dom().contains(k) <==> exists|i: int|
            0 <= i < s.len() && s[i].0 == k by {
            if entries_map(s).dom().contains(k) && k != s.last().0 {
                let i = choose|i: int| 0 <= i < p.len() && p[i].0 == k;
                assert(s[i].0 == k);
            }
            if exists|i: int| 0 <= i < s.len() && s[i].0 == k {
                let i = choose|i: int| 0 <= i < s.len() && s[i].0 == k;
                if i < p.len() {
                    assert(p[i].0 == k);
                }
            }
        }
        assert forall|i: int| 0 <= i < s.len() implies #[trigger] entries_map(s)[s[i].0]
            == s[i].1 by {
            if i < p.len() {
                assert(p[i].0 == s[i].0);
                assert(s[i].0 != s.last().0);
            }
        }
        assert(!entries_map(p).dom().contains(s.last().0)) by {
            if entries_map(p).dom().contains(s.last().0) {
                let i = choose|i: int| 0 <= i < p.len() && p[i].0 == s.last().0;
                assert(s[i].0 == s[s.len() - 1].0);
            }
        }
    }
}

/// A map from strings to values; its entries keep the order in which their
/// keys were first inserted.
pub struct StringMap<V> {
    entries: Vec<(String, V)>,
}

impl<V> StringMap<V> {
    /// The entries in order, keys taken as character sequences.
    pub closed spec fn entry_seq(&self) -> Seq<(Seq<char>, V)> {
        self.entries@.map_values(|e: (String, V)| (e.0@, e.1))
    }

    /// The keys in order.
    pub open spec fn key_seq(&self) -> Seq<Seq<char>> {
        entry_keys(self.entry_seq())
    }

    /// The map's invariant: no key occurs twice.
    pub open spec fn wf(&self) -> bool {
        distinct_keys(self.entry_seq())
    }

    /// An empty map.
    pub fn new() -> (m: Self)
        ensures
            m.wf(),
            m.entry_seq() == Seq::<(Seq<char>, V)>::empty(),
            m@ == Map::<Seq<char>, V>::empty(),
    {
        let m = StringMap { entries: Vec::new() };
        assert(m.entry_seq() =~= Seq::<(Seq<char>, V)>::empty());
        m
    }

    /// Number of entries.
    pub fn len(&self) -> (n: usize)
        ensures
            n == self.entry_seq().len(),
    {
        self.entries.len()
    }

    /// The index of the entry whose key is `key`.
    pub fn find(&self, key: &str) -> (r: Option<usize>)
        requires
            self.wf(),
        ensures
            r matches Some(i) ==> i < self.entry_seq().len() && self.entry_seq()[i as int].0
                == key@,
            r is None ==> forall|i: int|
                0 <= i < self.entry_seq().len() ==> self.entry_seq()[i].0 != key@,
    {
        let mut i: usize = 0;
        while i < self.entries.len()
            invariant
                i <= self.entries@.len(),
                forall|j: int| 0 <= j < i ==> self.entry_seq()[j].0 != key@,
            decreases self.entries@.len() - i,
        {
            if str_eq(self.entries[i].0.as_str(), key) {
                return Some(i);
            }
            i = i + 1;
        }
        None
    }

    /// The key of entry `i`.
    pub fn key_at(&self, i: usize) -> (k: &String)
        requires
            i < self.entry_seq().len(),
        ensures
            k@ == self.entry_seq()[i as int].0,
    {
        &self.entries[i].0
    }

    /// The value of entry `i`.
    pub fn value_at(&self, i: usize) -> (v: &V)
        requires
            i < self.entry_seq().len(),
        ensures
            *v == self.entry_seq()[i as int].1,
    {
        &self.entries[i].1
    }

    /// The value stored under `key`.
    pub fn get(&self, key: &str) -> (r: Option<&V>)
        requires
            self.wf(),
        ensures
            r matches Some(v) ==> self@.dom().contains(key@) && *v == self@[key@],
            r is None ==> !self@.dom().contains(key@),
    {
        proof {
            lemma_entries_map(self.entry_seq());
        }
        match self.find(key) {
            Some(i) => Some(&self.entries[i].1),
            None => None,
        }
    }

    /// Stores `value` under `key`: an existing entry keeps its place and takes
    /// the new value, a new key is appended.
    pub fn insert(&mut self, key: String, value: V)
        requires
            old(self).wf(),
        ensures
            final(self).wf(),
            final(self)@ == old(self)@.insert(key@, value),
            old(self).key_seq().contains(key@) ==> final(self).key_seq() == old(self).key_seq(),
            !old(self).key_seq().contains(key@) ==> final(self).key_seq() == old(
                self,
            ).key_seq().push(key@),
            final(self).entry_seq() == (if old(self).key_seq().contains(key@) {
                old(self).entry_seq().update(
                    old(self).key_seq().index_of(key@),
                    (key@, value),
                )
            } else {
                old(self).entry_seq().push((key@, value))
            }),
    {
        let ghost old_entries = self.entry_seq();
        proof {
            lemma_entries_map(old_entries);
        }
        match self.find(key.as_str()) {
            Some(i) => {
                proof {
                    assert(entry_keys(old_entries)[i as int] == key@);
                    lemma_index_of_distinct(old_entries, i as int);
                }
                let ghost k = key@;
                self.entries.set(i, (key, value));
                proof {
                    assert(self.entry_seq() =~= old_entries.update(i as int, (k, value)));
                    assert(entry_keys(self.entry_seq()) =~= entry_keys(old_entries));
                    lemma_entries_map(self.entry_seq());
                    assert(self@ =~= old(self)@.insert(k, value)) by {
                        assert forall|q: Seq<char>| #[trigger] self@.dom().contains(q) implies old(
                            self,
                        )@.insert(k, value).dom().contains(q) by {
                            let j = choose|j: int|
                                0 <= j < self.entry_seq().len() && self.entry_seq()[j].0 == q;
                            assert(old_entries[j].0 == q);
                        }
                        assert forall|q: Seq<char>| #[trigger] old(self)@.insert(
                            k,
                            value,
                        ).dom().contains(q) implies self@.dom().contains(q) by {
                            if q != k {
                                let j = choose|j: int|
                                    0 <= j < old_entries.len() && old_entries[j].0 == q;
                                assert(self.entry_seq()[j].0 == q);
                            }
                        }
                        assert forall|q: Seq<char>| #[trigger] self@.dom().contains(q) implies self@[q]
                            == old(self)@.insert(k, value)[q] by {
                            let j = choose|j: int|
                                0 <= j < self.entry_seq().len() && self.entry_seq()[j].0 == q;
                            assert(self@[self.entry_seq()[j].0] == self.entry_seq()[j].1);
                            if j != i {
                                assert(old(self)@[old_entries[j].0] == old_entries[j].1);
                            }
                        }
                    }
                }
            },
            None => {
                let ghost k = key@;
                self.entries.push((key, value));
                proof {
                    assert(self.entry_seq() =~= old_entries.push((k, value)));
                    assert(!entry_keys(old_entries).contains(k)) by {
                        if entry_keys(old_entries).contains(k) {
                            let j = choose|j: int|
                                0 <= j < entry_keys(old_entries).len() && entry_keys(
                                    old_entries,
                                )[j] == k;
                            assert(old_entries[j].0 == k);
                        }
                    }
                    assert(entry_keys(self.entry_seq()) =~= entry_keys(old_entries).push(k));
                    assert(self.entry_seq().drop_last() =~= old_entries);
                }
            },
        }
    }

    /// Removes the entry stored under `key`, if any; the others keep their order.
    pub fn remove(&mut self, key: &str)
        requires
            old(self).wf(),
        ensures
            final(self).wf(),
            final(self)@ == old(self)@.remove(key@),
    {
        let ghost old_entries = self.entry_seq();
        proof {
            lemma_entries_map(old_entries);
        }
        match self.find(key) {
            Some(i) => {
                self.entries.remove(i);
                proof {
                    assert(self.entry_seq() =~= old_entries.remove(i as int));
                    lemma_entries_map(self.entry_seq());
                    assert(self@ =~= old(self)@.remove(key@)) by {
                        assert forall|q: Seq<char>| #[trigger] self@.dom().contains(q) implies old(
                            self,
                        )@.remove(key@).dom().contains(q) by {
                            let j = choose|j: int|
                                0 <= j < self.entry_seq().len() && self.entry_seq()[j].0 == q;
                            if j < i {
                                assert(old_entries[j].0 == q);
                            } else {
                                assert(old_entries[j + 1].0 == q);
                            }
                        }
                        assert forall|q: Seq<char>| #[trigger] old(self)@.remove(
                            key@,
                        ).dom().contains(q) implies self@.dom().contains(q) by {
                            let j = choose|j: int|
                                0 <= j < old_entries.len() && old_entries[j].0 == q;
                            if j < i {
                                assert(self.entry_seq()[j].0 == q);
                            } else {
                                assert(self.entry_seq()[j - 1].0 == q);
                            }
                        }
                        assert forall|q: Seq<char>| #[trigger] self@.dom().contains(q) implies self@[q]
                            == old(self)@.remove(key@)[q] by {
                            let j = choose|j: int|
                                0 <= j < self.entry_seq().len() && self.entry_seq()[j].0 == q;
                            assert(self@[self.entry_seq()[j].0] == self.entry_seq()[j].1);
                            if j < i {
                                assert(old(self)@[old_entries[j].0] == old_entries[j].1);
                            } else {
                                assert(old(self)@[old_entries[j + 1].0] == old_entries[j + 1].1);
                            }
                        }
                    }
                }
            },
            None => {
                proof {
                    assert(old(self)@.remove(key@) =~= old(self)@);
                }
            },
        }
    }
}

/// With distinct keys, the first occurrence of entry `i`'s key is at `i`.
pub proof fn lemma_index_of_distinct<V>(s: Seq<(Seq<char>, V)>, i: int)
    requires
        distinct_keys(s),
        0 <= i < s.len(),
    ensures
        entry_keys(s).contains(s[i].0),
        entry_keys(s).index_of(s[i].0) == i,
{
    let ks = entry_keys(s);
    assert(ks[i] == s[i].0);
    let j = ks.index_of(s[i].0);
    assert(ks[j] == s[i].0);
    if j != i {
        if j < i {
            assert(s[j].0 != s[i].0);
        } else {
            assert(s[i].0 != s[j].0);
        }
    }
}

impl<V> View for StringMap<V> {
    type V = Map<Seq<char>, V>;

    open spec fn view(&self) -> Map<Seq<char>, V> {
        entries_map(self.entry_seq())
    }
}

} // verus!
