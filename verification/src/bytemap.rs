//! A map from byte-vector keys to values, kept as a vector of entries with
//! pairwise distinct keys.  It backs the engines' in-memory state: the log
//! engine's offset index and the map engines' data.

use vstd::map::*;
use vstd::prelude::*;

use crate::bytes::bytes_eq;

verus! {

/// No two entries carry the same key.
pub open spec fn unique_keys<V>(s: Seq<(Vec<u8>, V)>) -> bool {
    forall|i: int, j: int| 0 <= i < j < s.len() ==> (#[trigger] s[i]).0@ != (#[trigger] s[j]).0@
}

/// The mapping a list of entries denotes; on duplicate keys the later entry
/// would win, but well-formed maps have none.
pub open spec fn entries_map<V: View>(s: Seq<(Vec<u8>, V)>) -> Map<Seq<u8>, V::V>
    decreases s.len(),
{
    if s.len() == 0 {
        Map::empty()
    } else {
        entries_map(s.drop_last()).insert(s.last().0@, s.last().1@)
    }
}

/// A key is in the denoted map exactly when some entry carries it, and then
/// the map holds that entry's value.
pub proof fn lemma_entries_map<V: View>(s: Seq<(Vec<u8>, V)>, q: Seq<u8>)
    requires
        unique_keys(s),
    ensures
        entries_map(s).contains_key(q) <==> (exists|i: int|
            0 <= i < s.len() && (#[trigger] s[i]).0@ == q),
        forall|i: int|
            0 <= i < s.len() && (#[trigger] s[i]).0@ == q ==> entries_map(s)[q] == s[i].1@,
    decreases s.len(),
{
    if s.len() > 0 {
        let front = s.drop_last();
        assert(unique_keys(front)) by {
            assert(forall|i: int| 0 <= i < front.len() ==> front[i] == s[i]);
        }
        lemma_entries_map(front, q);
        if s.last().0@ == q {
            assert(s[s.len() - 1].0@ == q);
        } else {
            assert forall|i: int| 0 <= i < s.len() && (#[trigger] s[i]).0@ == q implies
                entries_map(s)[q] == s[i].1@ by {
                assert(i != s.len() - 1);
                assert(front[i] == s[i]);
            }
            if entries_map(s).contains_key(q) {
                let i = choose|i: int| 0 <= i < front.len() && (#[trigger] front[i]).0@ == q;
                assert(s[i].0@ == q);
            }
            if exists|i: int| 0 <= i < s.len() && (#[trigger] s[i]).0@ == q {
                let i = choose|i: int| 0 <= i < s.len() && (#[trigger] s[i]).0@ == q;
                assert(front[i] == s[i]);
            }
        }
    }
}

/// Removing the entry at `i` removes exactly its key from the denoted map.
pub proof fn lemma_entries_map_remove<V: View>(s: Seq<(Vec<u8>, V)>, i: int)
    requires
        unique_keys(s),
        0 <= i < s.len(),
    ensures
        unique_keys(s.remove(i)),
        entries_map(s.remove(i)) == entries_map(s).remove(s[i].0@),
{
    let t = s.remove(i);
    s.remove_ensures(i);
    assert(unique_keys(t)) by {
        assert forall|a: int, b: int| 0 <= a < b < t.len() implies (#[trigger] t[a]).0@ != (
        #[trigger] t[b]).0@ by {
            let a2 = if a < i {
                a
            } else {
                a + 1
            };
            let b2 = if b < i {
                b
            } else {
                b + 1
            };
            assert(t[a] == s[a2] && t[b] == s[b2]);
        }
    }
    let k = s[i].0@;
    assert_maps_equal!(entries_map(t), entries_map(s).remove(k), q => {
        lemma_entries_map(s, q);
        lemma_entries_map(t, q);
        if q == k {
            if exists|a: int| 0 <= a < t.len() && (#[trigger] t[a]).0@ == q {
                let a = choose|a: int| 0 <= a < t.len() && (#[trigger] t[a]).0@ == q;
                let a2 = if a < i { a } else { a + 1 };
                assert(t[a] == s[a2]);
                assert(s[a2].0@ == s[i].0@ && a2 != i);
                if a2 < i {
                    assert(s[a2].0@ != s[i].0@);
                } else {
                    assert(s[i].0@ != s[a2].0@);
                }
            }
        } else {
            if exists|a: int| 0 <= a < s.len() && (#[trigger] s[a]).0@ == q {
                let a = choose|a: int| 0 <= a < s.len() && (#[trigger] s[a]).0@ == q;
                assert(a != i);
                let a2 = if a < i { a } else { a - 1 };
                assert(t[a2] == s[a]);
                assert((#[trigger] t[a2]).0@ == q);
                assert(entries_map(t)[q] == t[a2].1@);
                assert(entries_map(s)[q] == s[a].1@);
            }
            if exists|a: int| 0 <= a < t.len() && (#[trigger] t[a]).0@ == q {
                let a = choose|a: int| 0 <= a < t.len() && (#[trigger] t[a]).0@ == q;
                let a2 = if a < i { a } else { a + 1 };
                assert(t[a] == s[a2]);
            }
        }
    });
}

/// A map from byte-vector keys to values.
pub struct ByteMap<V> {
    entries: Vec<(Vec<u8>, V)>,
}

impl<V: View> View for ByteMap<V> {
    type V = Map<Seq<u8>, V::V>;

    closed spec fn view(&self) -> Map<Seq<u8>, V::V> {
        entries_map(self.entries@)
    }
}

impl<V: View> ByteMap<V> {
    /// The entry list carries no duplicate keys.
    pub closed spec fn wf(&self) -> bool {
        unique_keys(self.entries@)
    }

    /// An empty map.
    pub fn new() -> (r: Self)
        ensures
            r.wf(),
            r@ == Map::<Seq<u8>, V::V>::empty(),
    {
        let entries: Vec<(Vec<u8>, V)> = Vec::new();
        proof {
            assert(entries_map(entries@) =~= Map::<Seq<u8>, V::V>::empty());
        }
        ByteMap { entries }
    }

    /// Position of the entry carrying `key`, if any.
    fn position_of(&self, key: &Vec<u8>) -> (r: Option<usize>)
        requires
            self.wf(),
        ensures
            match r {
                Some(i) => i < self.entries@.len() && self.entries@[i as int].0@ == key@,
                None => !self@.contains_key(key@),
            },
    {
        let mut i: usize = 0;
        while i < self.entries.len()
            invariant
                self.wf(),
                i <= self.entries@.len(),
                forall|j: int| 0 <= j < i ==> (#[trigger] self.entries@[j]).0@ != key@,
            decreases self.entries@.len() - i,
        {
            if bytes_eq(&self.entries[i].0, key) {
                return Some(i);
            }
            i = i + 1;
        }
        proof {
            lemma_entries_map(self.entries@, key@);
        }
        None
    }

    /// The value stored under `key`, if any.
    pub fn get(&self, key: &Vec<u8>) -> (r: Option<&V>)
        requires
            self.wf(),
        ensures
            match r {
                Some(v) => self@.contains_key(key@) && v@ == self@[key@],
                None => !self@.contains_key(key@),
            },
    {
        match self.position_of(key) {
            Some(i) => {
                proof {
                    lemma_entries_map(self.entries@, key@);
                }
                Some(&self.entries[i].1)
            },
            None => None,
        }
    }

    /// Removes the entry under `key`, returning its value.
    pub fn remove(&mut self, key: &Vec<u8>) -> (r: Option<V>)
        requires
            old(self).wf(),
        ensures
            final(self).wf(),
            final(self)@ == old(self)@.remove(key@),
            match r {
                Some(v) => old(self)@.contains_key(key@) && v@ == old(self)@[key@],
                None => !old(self)@.contains_key(key@),
            },
    {
        match self.position_of(key) {
            Some(i) => {
                proof {
                    lemma_entries_map(self.entries@, key@);
                    lemma_entries_map_remove(self.entries@, i as int);
                }
                let pair = self.entries.remove(i);
                Some(pair.1)
            },
            None => {
                proof {
                    assert(self@ =~= self@.remove(key@));
                }
                None
            },
        }
    }

    /// Stores `value` under `key`, returning the value it replaces.
    pub fn insert(&mut self, key: Vec<u8>, value: V) -> (r: Option<V>)
        requires
            old(self).wf(),
        ensures
            final(self).wf(),
            final(self)@ == old(self)@.insert(key@, value@),
            match r {
                Some(v) => old(self)@.contains_key(key@) && v@ == old(self)@[key@],
                None => !old(self)@.contains_key(key@),
            },
    {
        let prior = self.remove(&key);
        proof {
            lemma_entries_map(self.entries@, key@);
            assert(!self@.contains_key(key@));
            assert(self.entries@.push((key, value)).drop_last() =~= self.entries@);
            assert forall|a: int, b: int|
                0 <= a < b < self.entries@.push((key, value)).len() implies (
            #[trigger] self.entries@.push((key, value))[a]).0@ != (#[trigger] self.entries@.push(
                (key, value),
            )[b]).0@ by {
                if b < self.entries@.len() {
                    assert(self.entries@.push((key, value))[a] == self.entries@[a]);
                    assert(self.entries@.push((key, value))[b] == self.entries@[b]);
                } else {
                    assert(self.entries@.push((key, value))[a] == self.entries@[a]);
                    if self.entries@[a].0@ == key@ {
                        assert(self@.contains_key(key@));
                    }
                }
            }
            assert(old(self)@.remove(key@).insert(key@, value@) =~= old(self)@.insert(
                key@,
                value@,
            ));
        }
        self.entries.push((key, value));
        prior
    }
}

} // verus!
