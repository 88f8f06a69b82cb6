//! The in-memory mapping from keys to values that all connections share.
//!
//! Each operation here is one map operation; the server holds its lock for
//! one call and never across I/O.
use vstd::prelude::*;
use bytes::Bytes;
use crate::frame::bytes_contents;

verus! {

/// The map that a sequence of entries denotes; a later entry for a key
/// overrides an earlier one.
pub open spec fn map_of(s: Seq<(String, Bytes)>) -> Map<Seq<char>, Seq<u8>>
    decreases s.len(),
{
    if s.len() == 0 {
        Map::empty()
    } else {
        map_of(s.drop_last()).insert(s.last().0@, bytes_contents(s.last().1))
    }
}

/// No two entries share a key.
pub open spec fn unique_keys(s: Seq<(String, Bytes)>) -> bool {
    forall|i: int, j: int| 0 <= i < s.len() && 0 <= j < s.len() && i != j ==> s[i].0@ != s[j].0@
}

proof fn lemma_map_of(s: Seq<(String, Bytes)>)
    requires
        unique_keys(s),
    ensures
        forall|i: int|
            0 <= i < s.len() ==> #[trigger] map_of(s).contains_key(s[i].0@) && map_of(s)[s[i].0@]
                == bytes_contents(s[i].1),
        forall|k: Seq<char>|
            #[trigger] map_of(s).contains_key(k) ==> exists|i: int| 0 <= i < s.len() && s[i].0@ == k,
    decreases s.len(),
{
    if s.len() > 0 {
        let t = s.drop_last();
        assert(unique_keys(t)) by {
            assert forall|i: int, j: int|
                0 <= i < t.len() && 0 <= j < t.len() && i != j implies t[i].0@ != t[j].0@ by {
                assert(t[i] == s[i] && t[j] == s[j]);
            }
        }
        lemma_map_of(t);
        assert(map_of(s) == map_of(t).insert(s.last().0@, bytes_contents(s.last().1)));
        assert forall|i: int| 0 <= i < s.len() implies #[trigger] map_of(s).contains_key(s[i].0@)
            && map_of(s)[s[i].0@] == bytes_contents(s[i].1) by {
            if i < s.len() - 1 {
                assert(t[i] == s[i]);
                assert(s[i].0@ != s[s.len() - 1].0@);
                assert(map_of(t).contains_key(t[i].0@));
            }
        }
        assert forall|k: Seq<char>| #[trigger] map_of(s).contains_key(k) implies exists|i: int|
            0 <= i < s.len() && s[i].0@ == k by {
            if k != s.last().0@ {
                assert(map_of(t).contains_key(k));
                let i = choose|i: int| 0 <= i < t.len() && t[i].0@ == k;
                assert(s[i] == t[i]);
            } else {
                assert(s[s.len() - 1].0@ == k);
            }
        }
    }
}

/// The shared key-value store.
pub struct Store {
    entries: Vec<(String, Bytes)>,
}

impl View for Store {
    type V = Map<Seq<char>, Seq<u8>>;

    closed spec fn view(&self) -> Map<Seq<char>, Seq<u8>> {
        map_of(self.entries@)
    }
}

impl Store {
    pub closed spec fn wf(&self) -> bool {
        unique_keys(self.entries@)
    }

    pub fn new() -> (r: Store)
        ensures
            r.wf(),
            r@ == Map::<Seq<char>, Seq<u8>>::empty(),
    {
        Store { entries: Vec::new() }
    }

    fn find(&self, key: &String) -> (r: Option<usize>)
        requires
            self.wf(),
        ensures
            match r {
                Some(i) => i < self.entries@.len() && self.entries@[i as int].0@ == key@,
                None => forall|i: int| 0 <= i < self.entries@.len() ==> self.entries@[i].0@ != key@,
            },
    {
        let mut i: usize = 0;
        while i < self.entries.len()
            invariant
                i <= self.entries@.len(),
                forall|j: int| 0 <= j < i ==> self.entries@[j].0@ != key@,
            decreases self.entries@.len() - i,
        {
            if self.entries[i].0 == *key {
                return Some(i);
            }
            i = i + 1;
        }
        None
    }

    /// The value stored under `key`, if any.
    pub fn get(&self, key: &String) -> (r: Option<Bytes>)
        requires
            self.wf(),
        ensures
            match r {
                Some(v) => self@.contains_key(key@) && bytes_contents(v) == self@[key@],
                None => !self@.contains_key(key@),
            },
    {
        proof {
            lemma_map_of(self.entries@);
        }
        match self.find(key) {
            Some(i) => {
                assert(self@.contains_key(self.entries@[i as int].0@));
                Some(self.entries[i].1.clone())
            },
            None => None,
        }
    }

    /// Stores `value` under `key`, replacing what was there.
    pub fn set(&mut self, key: String, value: Bytes)
        requires
            old(self).wf(),
        ensures
            final(self).wf(),
            final(self)@ == old(self)@.insert(key@, bytes_contents(value)),
    {
        proof {
            lemma_map_of(self.entries@);
        }
        let ghost k = key@;
        let ghost v = bytes_contents(value);
        match self.find(&key) {
            Some(i) => {
                let ghost s = self.entries@;
                self.entries.remove(i);
                self.entries.insert(i, (key, value));
                let ghost t = self.entries@;
                assert(t =~= s.update(i as int, t[i as int]));
                assert(unique_keys(t)) by {
                    assert forall|a: int, b: int|
                        0 <= a < t.len() && 0 <= b < t.len() && a != b implies t[a].0@
                        != t[b].0@ by {
                        if a != i && b != i {
                            assert(t[a] == s[a] && t[b] == s[b]);
                        } else if a == i {
                            assert(t[b] == s[b]);
                        } else {
                            assert(t[a] == s[a]);
                        }
                    }
                }
                proof {
                    lemma_map_of(t);
                }
                assert(map_of(t) =~= map_of(s).insert(k, v)) by {
                    assert forall|x: Seq<char>| #[trigger] map_of(t).contains_key(x)
                        == map_of(s).insert(k, v).contains_key(x) by {
                        if map_of(t).contains_key(x) {
                            let j = choose|j: int| 0 <= j < t.len() && t[j].0@ == x;
                            if j != i {
                                assert(t[j] == s[j]);
                            }
                        }
                        if map_of(s).contains_key(x) {
                            let j = choose|j: int| 0 <= j < s.len() && s[j].0@ == x;
                            if j != i {
                                assert(t[j] == s[j]);
                                assert(map_of(t).contains_key(t[j].0@));
                            } else {
                                assert(map_of(t).contains_key(t[i as int].0@));
                            }
                        }
                        if x == k {
                            assert(map_of(t).contains_key(t[i as int].0@));
                        }
                    }
                    assert forall|x: Seq<char>| #[trigger] map_of(t).contains_key(x) implies map_of(
                        t,
                    )[x] == map_of(s).insert(k, v)[x] by {
                        let j = choose|j: int| 0 <= j < t.len() && t[j].0@ == x;
                        if j != i {
                            assert(t[j] == s[j]);
                            assert(map_of(s).contains_key(s[j].0@));
                        }
                    }
                }
            },
            None => {
                let ghost s = self.entries@;
                self.entries.push((key, value));
                let ghost t = self.entries@;
                assert(t.drop_last() =~= s);
                assert(unique_keys(t)) by {
                    assert forall|a: int, b: int|
                        0 <= a < t.len() && 0 <= b < t.len() && a != b implies t[a].0@
                        != t[b].0@ by {
                        if a < s.len() && b < s.len() {
                            assert(t[a] == s[a] && t[b] == s[b]);
                        } else if a < s.len() {
                            assert(t[a] == s[a]);
                        } else {
                            assert(t[b] == s[b]);
                        }
                    }
                }
            },
        }
    }
}

} // verus!
