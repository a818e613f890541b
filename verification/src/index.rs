//! The in-memory index: a map from keys to byte ranges of the log.
//!
//! The index is a pure cache over the log and is rebuilt by replay on every
//! open. It is kept as an association list with pairwise distinct keys; its
//! mathematical view is the finite map those pairs denote.

use vstd::prelude::*;

verus! {

/// The place of one serialized record inside a log segment: a byte offset
/// from the start of the file and the record's byte length.
#[derive(Clone, Copy, Debug, PartialEq, Eq, Structural)]
pub struct Pointer {
    pub location: u64,
    pub length: u64,
}

/// The map denoted by an association list, later pairs winning.
pub open spec fn assoc_map(s: Seq<(Seq<char>, Pointer)>) -> Map<Seq<char>, Pointer>
    decreases s.len(),
{
    if s.len() == 0 {
        Map::empty()
    } else {
        assoc_map(s.drop_last()).insert(s.last().0, s.last().1)
    }
}

/// The bytes of the log still referenced by the given entries.
pub open spec fn live_bytes(s: Seq<(Seq<char>, Pointer)>) -> int
    decreases s.len(),
{
    if s.len() == 0 {
        0int
    } else {
        live_bytes(s.drop_last()) + s.last().1.length
    }
}

/// Live bytes are nonnegative, and no entry exceeds the total.
pub proof fn lemma_live_bytes_bounds(s: Seq<(Seq<char>, Pointer)>)
    ensures
        0 <= live_bytes(s),
        forall|i: int| 0 <= i < s.len() ==> (#[trigger] s[i]).1.length <= live_bytes(s),
    decreases s.len(),
{
    if s.len() > 0 {
        lemma_live_bytes_bounds(s.drop_last());
        assert forall|i: int| 0 <= i < s.len() implies (#[trigger] s[i]).1.length <= live_bytes(
            s,
        ) by {
            if i < s.len() - 1 {
                assert(s.drop_last()[i] == s[i]);
            }
        }
    }
}

/// Keys of the entries are pairwise distinct.
pub open spec fn distinct_keys(s: Seq<(Seq<char>, Pointer)>) -> bool {
    forall|i: int, j: int| 0 <= i < j < s.len() ==> (#[trigger] s[i]).0 != (#[trigger] s[j]).0
}

/// With distinct keys, each entry is in the map, and every key of the map
/// has an entry.
pub proof fn lemma_assoc_map_entries(s: Seq<(Seq<char>, Pointer)>)
    requires
        distinct_keys(s),
    ensures
        forall|i: int|
            0 <= i < s.len() ==> assoc_map(s).contains_key((#[trigger] s[i]).0) && assoc_map(
                s,
            )[s[i].0] == s[i].1,
        forall|k: Seq<char>|
            assoc_map(s).contains_key(k) ==> exists|i: int|
                0 <= i < s.len() && (#[trigger] s[i]).0 == k,
    decreases s.len(),
{
    if s.len() > 0 {
        let pre = s.drop_last();
        let n = s.len() as int;
        lemma_assoc_map_entries(pre);
        assert forall|i: int|
            0 <= i < s.len() implies assoc_map(s).contains_key((#[trigger] s[i]).0) && assoc_map(
            s,
        )[s[i].0] == s[i].1 by {
            if i < n - 1 {
                assert(pre[i] == s[i]);
                assert(s[i].0 != s[n - 1].0);
            }
        }
        assert forall|k: Seq<char>| assoc_map(s).contains_key(k) implies exists|i: int|
            0 <= i < s.len() && (#[trigger] s[i]).0 == k by {
            if k == s.last().0 {
                assert(s[n - 1].0 == k);
            } else {
                assert(assoc_map(pre).contains_key(k));
                let i = choose|i: int| 0 <= i < pre.len() && (#[trigger] pre[i]).0 == k;
                assert(pre[i] == s[i]);
                assert(s[i].0 == k);
            }
        }
    }
}

/// A key no entry holds is not in the map.
pub proof fn lemma_assoc_map_absent(s: Seq<(Seq<char>, Pointer)>, k: Seq<char>)
    requires
        forall|i: int| 0 <= i < s.len() ==> (#[trigger] s[i]).0 != k,
    ensures
        !assoc_map(s).contains_key(k),
    decreases s.len(),
{
    if s.len() > 0 {
        assert(s.last() == s[s.len() - 1]);
        lemma_assoc_map_absent(s.drop_last(), k);
    }
}

/// Updating the entry that holds `k` updates the map at `k`.
proof fn lemma_assoc_map_update(s: Seq<(Seq<char>, Pointer)>, i: int, p: Pointer)
    requires
        distinct_keys(s),
        0 <= i < s.len(),
    ensures
        assoc_map(s.update(i, (s[i].0, p))) == assoc_map(s).insert(s[i].0, p),
        distinct_keys(s.update(i, (s[i].0, p))),
        live_bytes(s.update(i, (s[i].0, p))) == live_bytes(s) - s[i].1.length + p.length,
    decreases s.len(),
{
    let k = s[i].0;
    let t = s.update(i, (k, p));
    assert forall|a: int, b: int| 0 <= a < b < t.len() implies (#[trigger] t[a]).0 != (
    #[trigger] t[b]).0 by {
        assert(t[a].0 == s[a].0 && t[b].0 == s[b].0);
    }
    let n = s.len() as int;
    if i == n - 1 {
        assert(t.drop_last() =~= s.drop_last());
        assert(t.last() == (k, p));
        assert(assoc_map(t) == assoc_map(s.drop_last()).insert(k, p));
        assert(assoc_map(s).insert(k, p) =~= assoc_map(s.drop_last()).insert(k, p));
    } else {
        assert(t.drop_last() =~= s.drop_last().update(i, (k, p)));
        assert(s.drop_last()[i] == s[i]);
        lemma_assoc_map_update(s.drop_last(), i, p);
        assert(t.last() == s.last());
        assert(assoc_map(t) == assoc_map(s.drop_last()).insert(k, p).insert(
            s.last().0,
            s.last().1,
        ));
        assert(s.last().0 != k);
        assert(assoc_map(s.drop_last()).insert(k, p).insert(s.last().0, s.last().1)
            =~= assoc_map(s.drop_last()).insert(s.last().0, s.last().1).insert(k, p));
    }
}

/// Removing the entry that holds `k` removes `k` from the map.
proof fn lemma_assoc_map_remove(s: Seq<(Seq<char>, Pointer)>, i: int)
    requires
        distinct_keys(s),
        0 <= i < s.len(),
    ensures
        assoc_map(s.remove(i)) == assoc_map(s).remove(s[i].0),
        distinct_keys(s.remove(i)),
        live_bytes(s.remove(i)) == live_bytes(s) - s[i].1.length,
    decreases s.len(),
{
    let k = s[i].0;
    let t = s.remove(i);
    let n = s.len() as int;
    assert forall|a: int, b: int| 0 <= a < b < t.len() implies (#[trigger] t[a]).0 != (
    #[trigger] t[b]).0 by {
        let a0 = if a < i {
            a
        } else {
            a + 1
        };
        let b0 = if b < i {
            b
        } else {
            b + 1
        };
        assert(t[a].0 == s[a0].0 && t[b].0 == s[b0].0);
    }
    if i == n - 1 {
        assert(t =~= s.drop_last());
        lemma_assoc_map_entries(s.drop_last());
        assert forall|j: int| 0 <= j < s.drop_last().len() implies (#[trigger] s.drop_last()[j]).0
            != k by {
            assert(s.drop_last()[j] == s[j]);
        }
        lemma_assoc_map_absent(s.drop_last(), k);
        assert(assoc_map(s.remove(i)) =~= assoc_map(s).remove(k));
    } else {
        assert(t.drop_last() =~= s.drop_last().remove(i));
        assert(s.drop_last()[i] == s[i]);
        lemma_assoc_map_remove(s.drop_last(), i);
        assert(t.last() == s.last());
        assert(assoc_map(t) == assoc_map(s.drop_last()).remove(k).insert(
            s.last().0,
            s.last().1,
        ));
        assert(s.last().0 != k);
        assert(assoc_map(s.drop_last()).remove(k).insert(s.last().0, s.last().1) =~= assoc_map(
            s,
        ).remove(k));
    }
}

/// The in-memory index.
pub struct Index {
    entries: Vec<(String, Pointer)>,
}

impl Index {
    /// The entries as pairs of character sequences and pointers, in order.
    pub closed spec fn pairs(&self) -> Seq<(Seq<char>, Pointer)> {
        Seq::new(self.entries@.len(), |i: int| (self.entries@[i].0@, self.entries@[i].1))
    }

    /// Keys are pairwise distinct.
    pub open spec fn wf(&self) -> bool {
        distinct_keys(self.pairs())
    }

    /// The number of live keys.
    pub fn len(&self) -> (n: usize)
        ensures
            n == self.pairs().len(),
    {
        self.entries.len()
    }

    /// A fresh, empty index.
    pub fn new() -> (r: Index)
        ensures
            r.wf(),
            r@ == Map::<Seq<char>, Pointer>::empty(),
            r.pairs() == Seq::<(Seq<char>, Pointer)>::empty(),
    {
        let r = Index { entries: Vec::new() };
        proof {
            assert(r.pairs() =~= Seq::<(Seq<char>, Pointer)>::empty());
        }
        r
    }

    /// Find the position of a key among the entries.
    fn position(&self, key: &String) -> (r: Option<usize>)
        ensures
            match r {
                Some(i) => i < self.pairs().len() && self.pairs()[i as int].0 == key@,
                None => forall|j: int| 0 <= j < self.pairs().len() ==> (#[trigger] self.pairs()[j]).0
                    != key@,
            },
    {
        let n = self.entries.len();
        let mut i: usize = 0;
        while i < n
            invariant
                i <= n,
                n == self.pairs().len(),
                forall|j: int| 0 <= j < i ==> (#[trigger] self.pairs()[j]).0 != key@,
            decreases n - i,
        {
            if self.entries[i].0 == *key {
                assert(self.pairs()[i as int].0 == key@);
                return Some(i);
            }
            assert(self.pairs()[i as int].0 != key@);
            i = i + 1;
        }
        None
    }

    /// Look a key up.
    pub fn lookup(&self, key: &String) -> (r: Option<Pointer>)
        requires
            self.wf(),
        ensures
            match r {
                Some(p) => self@.contains_key(key@) && p == self@[key@],
                None => !self@.contains_key(key@),
            },
    {
        match self.position(key) {
            Some(i) => {
                proof {
                    lemma_assoc_map_entries(self.pairs());
                }
                Some(self.entries[i].1)
            },
            None => {
                proof {
                    lemma_assoc_map_absent(self.pairs(), key@);
                }
                None
            },
        }
    }

    /// Bind a key to a pointer, returning the pointer it replaced, if any.
    pub fn insert(&mut self, key: String, ptr: Pointer) -> (prior: Option<Pointer>)
        requires
            old(self).wf(),
        ensures
            final(self).wf(),
            final(self)@ == old(self)@.insert(key@, ptr),
            match prior {
                Some(p) => old(self)@.contains_key(key@) && p == old(self)@[key@],
                None => !old(self)@.contains_key(key@),
            },
            live_bytes(final(self).pairs()) == live_bytes(old(self).pairs()) + ptr.length - (
            match prior {
                Some(p) => p.length as int,
                None => 0int,
            }),
    {
        match self.position(&key) {
            Some(i) => {
                let prior = self.entries[i].1;
                proof {
                    lemma_assoc_map_entries(self.pairs());
                    lemma_assoc_map_update(self.pairs(), i as int, ptr);
                }
                let ghost before = self.pairs();
                self.entries[i] = (key, ptr);
                proof {
                    assert(self.pairs() =~= before.update(i as int, (before[i as int].0, ptr)));
                }
                Some(prior)
            },
            None => {
                proof {
                    lemma_assoc_map_absent(self.pairs(), key@);
                }
                let ghost before = self.pairs();
                self.entries.push((key, ptr));
                proof {
                    assert(self.pairs() =~= before.push((key@, ptr)));
                    assert(self.pairs().drop_last() =~= before);
                    assert forall|a: int, b: int|
                        0 <= a < b < self.pairs().len() implies (#[trigger] self.pairs()[a]).0 != (
                    #[trigger] self.pairs()[b]).0 by {
                        if b < self.pairs().len() - 1 {
                            assert(self.pairs()[a] == before[a] && self.pairs()[b] == before[b]);
                        } else {
                            assert(self.pairs()[a] == before[a]);
                        }
                    }
                }
                None
            },
        }
    }

    /// Unbind a key, returning the pointer it held, if any.
    pub fn remove(&mut self, key: &String) -> (prior: Option<Pointer>)
        requires
            old(self).wf(),
        ensures
            final(self).wf(),
            final(self)@ == old(self)@.remove(key@),
            match prior {
                Some(p) => old(self)@.contains_key(key@) && p == old(self)@[key@],
                None => !old(self)@.contains_key(key@),
            },
            live_bytes(final(self).pairs()) == live_bytes(old(self).pairs()) - (match prior {
                Some(p) => p.length as int,
                None => 0int,
            }),
    {
        match self.position(key) {
            Some(i) => {
                proof {
                    lemma_assoc_map_entries(self.pairs());
                    lemma_assoc_map_remove(self.pairs(), i as int);
                }
                let ghost before = self.pairs();
                let entry = self.entries.remove(i);
                proof {
                    assert(self.pairs() =~= before.remove(i as int));
                }
                Some(entry.1)
            },
            None => {
                proof {
                    lemma_assoc_map_absent(self.pairs(), key@);
                    assert(self@.remove(key@) =~= self@);
                }
                None
            },
        }
    }

    /// The pointer of the entry at a position; compaction walks these.
    pub fn ptr_at(&self, i: usize) -> (p: Pointer)
        requires
            i < self.pairs().len(),
        ensures
            p == self.pairs()[i as int].1,
    {
        self.entries[i].1
    }

    /// Re-point the entry at a position, keeping its key.
    pub fn set_ptr_at(&mut self, i: usize, p: Pointer)
        requires
            old(self).wf(),
            i < old(self).pairs().len(),
        ensures
            final(self).wf(),
            final(self).pairs() == old(self).pairs().update(
                i as int,
                (old(self).pairs()[i as int].0, p),
            ),
            final(self)@ == old(self)@.insert(old(self).pairs()[i as int].0, p),
            live_bytes(final(self).pairs()) == live_bytes(old(self).pairs()) - old(self).pairs()[i
                as int].1.length + p.length,
    {
        proof {
            lemma_assoc_map_update(self.pairs(), i as int, p);
        }
        let ghost before = self.pairs();
        let key = self.entries[i].0.clone();
        self.entries[i] = (key, p);
        proof {
            assert(self.pairs() =~= before.update(i as int, (before[i as int].0, p)));
        }
    }
}

impl View for Index {
    type V = Map<Seq<char>, Pointer>;

    open spec fn view(&self) -> Map<Seq<char>, Pointer> {
        assoc_map(self.pairs())
    }
}

} // verus!
