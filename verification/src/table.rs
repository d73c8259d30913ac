//! A small table from keys to values.
use crate::deep::{contains, Dup, Same};
use vstd::prelude::*;

verus! {

/// A table from keys to values; its view is the map that it holds.
#[derive(Debug)]
pub struct Table<K, V> {
    entries: Vec<(K, V)>,
}

/// The map that a list of entries holds: the last value of each key.
pub open spec fn entries_map<K: DeepView, V: DeepView>(e: Seq<(K, V)>) -> Map<K::V, V::V>
    decreases e.len(),
{
    if e.len() == 0 {
        Map::empty()
    } else {
        entries_map(e.drop_last()).insert(e.last().0.deep_view(), e.last().1.deep_view())
    }
}

/// `m` without the keys that are in `keys`, or without those that are not.
pub open spec fn filtered<K, V>(m: Map<K, V>, keys: Seq<K>, want: bool) -> Map<K, V> {
    Map::new(|k: K| m.contains_key(k) && keys.contains(k) == want, |k: K| m[k])
}

impl<K: DeepView, V: DeepView> View for Table<K, V> {
    type V = Map<K::V, V::V>;

    closed spec fn view(&self) -> Map<K::V, V::V> {
        entries_map(self.entries@)
    }
}

impl<K: DeepView, V: DeepView> DeepView for Table<K, V> {
    type V = Map<K::V, V::V>;

    open spec fn deep_view(&self) -> Map<K::V, V::V> {
        self@
    }
}

/// Later entries under other keys do not matter for `key`.
proof fn lemma_entries_prefix<K: DeepView, V: DeepView>(e: Seq<(K, V)>, n: int, key: K::V)
    requires
        0 <= n <= e.len(),
        forall|i: int| n <= i < e.len() ==> e[i].0.deep_view() != key,
    ensures
        entries_map(e).contains_key(key) == entries_map(e.take(n)).contains_key(key),
        entries_map(e).contains_key(key) ==> entries_map(e)[key] == entries_map(e.take(n))[key],
    decreases e.len() - n,
{
    if n < e.len() {
        lemma_entries_prefix(e.drop_last(), n, key);
        assert(e.drop_last().take(n) =~= e.take(n));
    } else {
        assert(e.take(n) =~= e);
    }
}

/// Replacing the last entry under a key.
proof fn lemma_entries_update<K: DeepView, V: DeepView>(e: Seq<(K, V)>, i: int, x: (K, V))
    requires
        0 <= i < e.len(),
        x.0.deep_view() == e[i].0.deep_view(),
        forall|j: int| i < j < e.len() ==> e[j].0.deep_view() != x.0.deep_view(),
    ensures
        entries_map(e.update(i, x)) == entries_map(e).insert(x.0.deep_view(), x.1.deep_view()),
    decreases e.len(),
{
    let u = e.update(i, x);
    if i == e.len() - 1 {
        assert(u.drop_last() =~= e.drop_last());
    } else {
        assert(u.drop_last() =~= e.drop_last().update(i, x));
        lemma_entries_update(e.drop_last(), i, x);
        assert(u.last() == e.last());
    }
    assert(entries_map(u) =~= entries_map(e).insert(x.0.deep_view(), x.1.deep_view()));
}

impl<K: Same, V: DeepView> Table<K, V> {
    /// A table without entries.
    pub fn new() -> (r: Self)
        ensures
            r@ == Map::<K::V, V::V>::empty(),
    {
        Table { entries: Vec::new() }
    }

    /// The index of the last entry under `key`; the number of entries if none has it.
    fn last_entry(&self, key: &K) -> (r: usize)
        ensures
            r <= self.entries@.len(),
            self@.contains_key(key.deep_view()) == (r < self.entries@.len()),
            r < self.entries@.len() ==> {
                &&& self.entries@[r as int].0.deep_view() == key.deep_view()
                &&& self@[key.deep_view()] == self.entries@[r as int].1.deep_view()
                &&& forall|i: int|
                    r < i < self.entries@.len() ==> self.entries@[i].0.deep_view()
                        != key.deep_view()
            },
    {
        let ghost e = self.entries@;
        let mut n: usize = self.entries.len();
        while n > 0
            invariant
                n <= e.len(),
                e == self.entries@,
                forall|i: int| n <= i < e.len() ==> e[i].0.deep_view() != key.deep_view(),
            decreases n,
        {
            if self.entries[n - 1].0.same(key) {
                proof {
                    lemma_entries_prefix(e, n as int, key.deep_view());
                    assert(e.take(n as int).last() == e[n - 1]);
                }
                return n - 1;
            }
            n = n - 1;
        }
        proof {
            lemma_entries_prefix(e, 0, key.deep_view());
            assert(e.take(0).len() == 0);
        }
        self.entries.len()
    }

    /// The value under `key`.
    pub fn get(&self, key: &K) -> (r: Option<&V>)
        ensures
            match r {
                Some(v) => self@.contains_key(key.deep_view()) && v.deep_view()
                    == self@[key.deep_view()],
                None => !self@.contains_key(key.deep_view()),
            },
    {
        let at: usize = self.last_entry(key);
        if at < self.entries.len() {
            Some(&self.entries[at].1)
        } else {
            None
        }
    }

    /// Whether there is a value under `key`.
    pub fn contains_key(&self, key: &K) -> (r: bool)
        ensures
            r == self@.contains_key(key.deep_view()),
    {
        self.last_entry(key) < self.entries.len()
    }

    /// Puts a value under `key`, in place of the one that was there.
    pub fn insert(&mut self, key: K, value: V)
        ensures
            final(self)@ == old(self)@.insert(key.deep_view(), value.deep_view()),
    {
        let at: usize = self.last_entry(&key);
        if at < self.entries.len() {
            proof {
                lemma_entries_update(self.entries@, at as int, (key, value));
            }
            self.entries.set(at, (key, value));
        } else {
            let ghost before = self.entries@;
            self.entries.push((key, value));
            proof {
                assert(self.entries@.drop_last() =~= before);
            }
        }
    }

    /// Takes the value under `key` away.
    pub fn remove(&mut self, key: &K)
        ensures
            final(self)@ == old(self)@.remove(key.deep_view()),
    {
        let ghost e = self.entries@;
        let ghost k = key.deep_view();
        let mut rest: Vec<(K, V)> = Vec::new();
        let mut all: Vec<(K, V)> = Vec::new();
        all.append(&mut self.entries);
        for x in it: all
            invariant
                it.seq() == e,
                k == key.deep_view(),
                entries_map(rest@) =~= entries_map(e.take(it.index() as int)).remove(k),
        {
            proof {
                assert(e.take(it.index() + 1).drop_last() =~= e.take(it.index() as int));
            }
            if !x.0.same(key) {
                let ghost before = rest@;
                rest.push(x);
                proof {
                    assert(rest@.drop_last() =~= before);
                }
            }
        }
        proof {
            assert(e.take(e.len() as int) =~= e);
        }
        self.entries = rest;
    }

    /// Takes over the entries of `other` whose keys are not there yet.
    pub fn absorb(&mut self, other: Self)
        ensures
            final(self)@ == other@.union_prefer_right(old(self)@),
    {
        let ghost mine = self.entries@;
        let ghost theirs = other.entries@;
        let mut all: Vec<(K, V)> = other.entries;
        let mut own: Vec<(K, V)> = Vec::new();
        own.append(&mut self.entries);
        proof {
            assert(mine.take(0) =~= Seq::empty());
            assert(entries_map(theirs).union_prefer_right(entries_map(mine.take(0)))
                =~= entries_map(theirs));
        }
        for x in it: own
            invariant
                it.seq() == mine,
                entries_map(all@) == entries_map(theirs).union_prefer_right(
                    entries_map(mine.take(it.index() as int)),
                ),
        {
            let ghost before = all@;
            all.push(x);
            proof {
                let m = mine.take(it.index() + 1);
                assert(m.drop_last() =~= mine.take(it.index() as int));
                assert(all@.drop_last() =~= before);
                assert(entries_map(all@) =~= entries_map(theirs).union_prefer_right(
                    entries_map(m),
                ));
            }
        }
        proof {
            assert(mine.take(mine.len() as int) =~= mine);
        }
        self.entries = all;
    }

    /// Keeps the entries whose key is in `keys` if `want`, else those whose
    /// key is not.
    pub fn keep_keys(&mut self, keys: &Vec<K>, want: bool)
        ensures
            final(self)@ == filtered(old(self)@, keys.deep_view(), want),
    {
        let ghost e = self.entries@;
        let ghost ks = keys.deep_view();
        let mut rest: Vec<(K, V)> = Vec::new();
        let mut all: Vec<(K, V)> = Vec::new();
        all.append(&mut self.entries);
        proof {
            assert(entries_map(rest@) =~= filtered(entries_map(e.take(0)), ks, want));
        }
        for x in it: all
            invariant
                it.seq() == e,
                ks == keys.deep_view(),
                entries_map(rest@) == filtered(entries_map(e.take(it.index() as int)), ks, want),
        {
            proof {
                assert(e.take(it.index() + 1).drop_last() =~= e.take(it.index() as int));
            }
            if contains(keys, &x.0) == want {
                let ghost before = rest@;
                rest.push(x);
                proof {
                    assert(rest@.drop_last() =~= before);
                }
            }
            proof {
                assert(entries_map(rest@) =~= filtered(
                    entries_map(e.take(it.index() + 1)),
                    ks,
                    want,
                ));
            }
        }
        proof {
            assert(e.take(e.len() as int) =~= e);
        }
        self.entries = rest;
    }
}

/// `m` without the keys whose value is not above `bound`.
pub open spec fn above<K>(m: Map<K, u64>, bound: u64) -> Map<K, u64> {
    Map::new(|k: K| m.contains_key(k) && m[k] > bound, |k: K| m[k])
}

impl<K: Same> Table<K, u64> {
    /// Keeps the entries whose value is above `bound`.
    pub fn keep_above(&mut self, bound: u64)
        ensures
            final(self)@ == above(old(self)@, bound),
    {
        let ghost e = self.entries@;
        let mut rest: Table<K, u64> = Table::new();
        let mut all: Vec<(K, u64)> = Vec::new();
        all.append(&mut self.entries);
        proof {
            assert(rest@ =~= above(entries_map(e.take(0)), bound));
        }
        for x in it: all
            invariant
                it.seq() == e,
                rest@ == above(entries_map(e.take(it.index() as int)), bound),
        {
            proof {
                assert(e.take(it.index() + 1).drop_last() =~= e.take(it.index() as int));
            }
            let (key, value) = x;
            if value > bound {
                rest.insert(key, value);
            } else {
                rest.remove(&key);
            }
            proof {
                assert(rest@ =~= above(entries_map(e.take(it.index() + 1)), bound));
            }
        }
        proof {
            assert(e.take(e.len() as int) =~= e);
        }
        self.entries = rest.entries;
    }
}

impl<K: Same + Dup, V: Dup> Dup for Table<K, V> {
    fn dup(&self) -> (r: Self) {
        let ghost e = self.entries@;
        let mut out: Vec<(K, V)> = Vec::new();
        let mut i: usize = 0;
        while i < self.entries.len()
            invariant
                i <= e.len(),
                e == self.entries@,
                entries_map(out@) == entries_map(e.take(i as int)),
            decreases e.len() - i,
        {
            let ghost before = out@;
            let key = self.entries[i].0.dup();
            let value = self.entries[i].1.dup();
            out.push((key, value));
            proof {
                assert(out@.drop_last() =~= before);
                assert(e.take(i + 1).drop_last() =~= e.take(i as int));
            }
            i = i + 1;
        }
        proof {
            assert(e.take(e.len() as int) =~= e);
        }
        Table { entries: out }
    }
}

impl<K: Same + Dup, V: Dup> Clone for Table<K, V> {
    fn clone(&self) -> (r: Self)
        ensures
            r@ == self@,
    {
        self.dup()
    }
}

/// A filtered map has the entries of the map whose keys are, or are not, in a list,
/// and no others.
pub proof fn law_filtered<K, V>(m: Map<K, V>, keys: Seq<K>, k: K)
    ensures
        filtered(m, keys, true).contains_key(k) <==> m.contains_key(k) && keys.contains(k),
        filtered(m, keys, false).contains_key(k) <==> m.contains_key(k) && !keys.contains(k),
        filtered(m, keys, true).contains_key(k) ==> filtered(m, keys, true)[k] == m[k],
        filtered(m, keys, false).contains_key(k) ==> filtered(m, keys, false)[k] == m[k],
{
}

/// The entries above a bound are those of the map with a larger value, as they were.
pub proof fn law_above<K>(m: Map<K, u64>, bound: u64, k: K)
    ensures
        above(m, bound).contains_key(k) <==> m.contains_key(k) && m[k] > bound,
        above(m, bound).contains_key(k) ==> above(m, bound)[k] == m[k],
{
}

/// The last entry of a key counts, and no other entry matters to it.
pub proof fn law_last_entry<K: DeepView, V: DeepView>(e: Seq<(K, V)>, last: (K, V), k: K::V)
    ensures
        ({
            let m = entries_map(e.push(last));
            &&& m.contains_key(last.0.deep_view())
            &&& m[last.0.deep_view()] == last.1.deep_view()
            &&& k != last.0.deep_view() ==> (m.contains_key(k) <==> entries_map(e).contains_key(k))
            &&& k != last.0.deep_view() && entries_map(e).contains_key(k) ==> m[k]
                == entries_map(e)[k]
        }),
{
    assert(e.push(last).drop_last() =~= e);
}

} // verus!
