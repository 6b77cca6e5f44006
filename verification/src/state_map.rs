//! An ordered map keyed by state symbols.
//!
//! The entries are kept in strictly increasing key order, so a map is
//! determined by what it holds, whatever the order of the insertions, and
//! walking it always visits the keys in the same order.

use vstd::prelude::*;

verus! {

/// The keys of `s` strictly increase.
pub open spec fn keys_increase<T>(s: Seq<(char, T)>) -> bool {
    forall|i: int, j: int| 0 <= i < j < s.len() ==> (#[trigger] s[i]).0 < (#[trigger] s[j]).0
}

/// Some entry of `s` has the key `key`.
pub open spec fn has_key<T>(s: Seq<(char, T)>, key: char) -> bool {
    exists|i: int| 0 <= i < s.len() && (#[trigger] s[i]).0 == key
}

/// The position of an entry of `s` with the key `key`.
pub open spec fn index_of<T>(s: Seq<(char, T)>, key: char) -> int {
    choose|i: int| 0 <= i < s.len() && (#[trigger] s[i]).0 == key
}

/// The entries of `s` as a map from key to value.
pub open spec fn as_map<T>(s: Seq<(char, T)>) -> Map<char, T> {
    Map::new(|key: char| has_key(s, key), |key: char| s[index_of(s, key)].1)
}

/// The number of entries of `s` whose key is below `key`.
pub open spec fn rank<T>(s: Seq<(char, T)>, key: char) -> int
    decreases s.len(),
{
    if s.len() == 0 {
        0
    } else {
        rank(s.drop_last(), key) + if s.last().0 < key {
            1int
        } else {
            0int
        }
    }
}

/// `s` with `key` bound to `value`: the entry of that key is replaced, or a
/// new entry takes its place in key order.
pub open spec fn put<T>(s: Seq<(char, T)>, key: char, value: T) -> Seq<(char, T)> {
    if has_key(s, key) {
        s.update(rank(s, key), (key, value))
    } else {
        s.insert(rank(s, key), (key, value))
    }
}

/// `s` without the entry of `key`, if it has one.
pub open spec fn without<T>(s: Seq<(char, T)>, key: char) -> Seq<(char, T)> {
    if has_key(s, key) {
        s.remove(rank(s, key))
    } else {
        s
    }
}

/// In a sequence with increasing keys, the rank of a key is the position
/// that splits the keys below it from the others.
pub proof fn lemma_rank_splits<T>(s: Seq<(char, T)>, key: char, i: int)
    requires
        keys_increase(s),
        0 <= i <= s.len(),
        forall|j: int| 0 <= j < i ==> (#[trigger] s[j]).0 < key,
        forall|j: int| i <= j < s.len() ==> (#[trigger] s[j]).0 >= key,
    ensures
        rank(s, key) == i,
    decreases s.len(),
{
    if s.len() > 0 {
        let t = s.drop_last();
        if i == s.len() {
            lemma_rank_splits(t, key, i - 1);
        } else {
            lemma_rank_splits(t, key, i);
        }
    }
}

/// In a sequence with increasing keys, each entry is found under its key.
pub proof fn lemma_entry_found<T>(s: Seq<(char, T)>, i: int)
    requires
        keys_increase(s),
        0 <= i < s.len(),
    ensures
        has_key(s, s[i].0),
        index_of(s, s[i].0) == i,
        rank(s, s[i].0) == i,
        as_map(s).contains_key(s[i].0),
        as_map(s)[s[i].0] == s[i].1,
{
    lemma_rank_splits(s, s[i].0, i);
}

/// In a sequence with increasing keys, the rank of a key is a position of
/// the sequence or its end, with the smaller keys before it and no smaller
/// key from it on; the key's own entry, if there is one, stands there.
pub proof fn lemma_rank_bounds<T>(s: Seq<(char, T)>, key: char)
    requires
        keys_increase(s),
    ensures
        0 <= rank(s, key) <= s.len(),
        forall|j: int| 0 <= j < rank(s, key) ==> (#[trigger] s[j]).0 < key,
        forall|j: int| rank(s, key) <= j < s.len() ==> (#[trigger] s[j]).0 >= key,
        has_key(s, key) <==> (rank(s, key) < s.len() && s[rank(s, key)].0 == key),
    decreases s.len(),
{
    if s.len() > 0 {
        let t = s.drop_last();
        lemma_rank_bounds(t, key);
        let r = rank(t, key);
        if s.last().0 < key {
            if r < t.len() {
                assert(t[r].0 >= key);
                assert(s[r].0 < s[s.len() - 1].0);
            }
        }
        assert forall|j: int| 0 <= j < rank(s, key) implies (#[trigger] s[j]).0 < key by {
            if j < t.len() {
                assert(t[j] == s[j]);
            }
        }
        assert forall|j: int| rank(s, key) <= j < s.len() implies (#[trigger] s[j]).0 >= key by {
            if j < t.len() {
                assert(t[j] == s[j]);
            }
        }
    }
    let r = rank(s, key);
    if has_key(s, key) {
        let i = index_of(s, key);
        if i < r {
            assert(s[i].0 < key);
        }
        if r < i {
            assert(s[r].0 < s[i].0);
        }
    }
}

/// A sequence with increasing keys holds the map `m` when each of its
/// entries is in `m` and each key of `m` has an entry.
pub proof fn lemma_holds_map<T>(s: Seq<(char, T)>, m: Map<char, T>)
    requires
        keys_increase(s),
        forall|i: int|
            0 <= i < s.len() ==> m.contains_key((#[trigger] s[i]).0) && m[s[i].0] == s[i].1,
        forall|k: char| m.contains_key(k) ==> has_key(s, k),
    ensures
        as_map(s) == m,
{
    assert forall|k: char| as_map(s).contains_key(k) implies m.contains_key(k) && as_map(s)[k]
        == m[k] by {
        let i = index_of(s, k);
        assert(m.contains_key(s[i].0));
    }
    assert(as_map(s) =~= m);
}

/// A new value for the entry at `i` keeps the keys increasing and changes
/// the map at that entry's key alone.
proof fn lemma_put_present<T>(s: Seq<(char, T)>, i: int, value: T)
    requires
        keys_increase(s),
        0 <= i < s.len(),
    ensures
        keys_increase(s.update(i, (s[i].0, value))),
        as_map(s.update(i, (s[i].0, value))) == as_map(s).insert(s[i].0, value),
{
    let key = s[i].0;
    let p = s.update(i, (key, value));
    let m = as_map(s).insert(key, value);
    assert forall|a: int, b: int| 0 <= a < b < p.len() implies (#[trigger] p[a]).0 < (
    #[trigger] p[b]).0 by {
        assert(p[a].0 == s[a].0 && p[b].0 == s[b].0);
    }
    assert forall|a: int| 0 <= a < p.len() implies m.contains_key((#[trigger] p[a]).0) && m[p[a].0]
        == p[a].1 by {
        lemma_entry_found(s, a);
        if a != i {
            assert(s[a].0 != s[i].0) by {
                if a < i {
                    assert(s[a].0 < s[i].0);
                } else {
                    assert(s[i].0 < s[a].0);
                }
            }
        }
    }
    assert forall|k: char| m.contains_key(k) implies has_key(p, k) by {
        if k == key {
            assert(p[i].0 == k);
        } else {
            let a = index_of(s, k);
            assert(p[a].0 == k);
        }
    }
    lemma_holds_map(p, m);
}

/// A new entry at `i`, between the smaller keys and the larger ones, keeps
/// the keys increasing and adds its key to the map.
proof fn lemma_put_absent<T>(s: Seq<(char, T)>, i: int, key: char, value: T)
    requires
        keys_increase(s),
        0 <= i <= s.len(),
        forall|j: int| 0 <= j < i ==> (#[trigger] s[j]).0 < key,
        forall|j: int| i <= j < s.len() ==> (#[trigger] s[j]).0 > key,
    ensures
        keys_increase(s.insert(i, (key, value))),
        as_map(s.insert(i, (key, value))) == as_map(s).insert(key, value),
{
    let p = s.insert(i, (key, value));
    let m = as_map(s).insert(key, value);
    assert forall|a: int, b: int| 0 <= a < b < p.len() implies (#[trigger] p[a]).0 < (
    #[trigger] p[b]).0 by {
        let x = if a < i { a } else { a - 1 };
        let y = if b < i { b } else { b - 1 };
        if a != i && b != i {
            assert(p[a] == s[x] && p[b] == s[y]);
        } else if a == i {
            assert(p[b] == s[y]);
        } else {
            assert(p[a] == s[x]);
        }
    }
    assert forall|a: int| 0 <= a < p.len() implies m.contains_key((#[trigger] p[a]).0) && m[p[a].0]
        == p[a].1 by {
        if a != i {
            let x = if a < i { a } else { a - 1 };
            assert(p[a] == s[x]);
            lemma_entry_found(s, x);
        }
    }
    assert forall|k: char| m.contains_key(k) implies has_key(p, k) by {
        if k == key {
            assert(p[i].0 == k);
        } else {
            let x = index_of(s, k);
            let a = if x < i { x } else { x + 1 };
            assert(p[a] == s[x]);
        }
    }
    lemma_holds_map(p, m);
}

/// Binding a key keeps the keys increasing and changes the map at that key
/// alone.
pub proof fn lemma_put<T>(s: Seq<(char, T)>, key: char, value: T)
    requires
        keys_increase(s),
    ensures
        keys_increase(put(s, key, value)),
        as_map(put(s, key, value)) == as_map(s).insert(key, value),
{
    lemma_rank_bounds(s, key);
    let r = rank(s, key);
    if has_key(s, key) {
        lemma_put_present(s, r, value);
    } else {
        assert forall|j: int| r <= j < s.len() implies (#[trigger] s[j]).0 > key by {
            assert(s[j].0 >= key);
        }
        lemma_put_absent(s, r, key, value);
    }
}

/// Taking a key out keeps the keys increasing and changes the map at that
/// key alone.
pub proof fn lemma_without<T>(s: Seq<(char, T)>, key: char)
    requires
        keys_increase(s),
    ensures
        keys_increase(without(s, key)),
        as_map(without(s, key)) == as_map(s).remove(key),
{
    lemma_rank_bounds(s, key);
    let r = rank(s, key);
    let w = without(s, key);
    let m = as_map(s).remove(key);
    if has_key(s, key) {
        assert forall|a: int, b: int| 0 <= a < b < w.len() implies (#[trigger] w[a]).0 < (
        #[trigger] w[b]).0 by {
            let x = if a < r { a } else { a + 1 };
            let y = if b < r { b } else { b + 1 };
            assert(w[a] == s[x] && w[b] == s[y]);
        }
        assert forall|a: int| 0 <= a < w.len() implies m.contains_key((#[trigger] w[a]).0)
            && m[w[a].0] == w[a].1 by {
            let x = if a < r { a } else { a + 1 };
            assert(w[a] == s[x]);
            lemma_entry_found(s, x);
            assert(s[x].0 != s[r].0) by {
                if x < r {
                    assert(s[x].0 < s[r].0);
                } else {
                    assert(s[r].0 < s[x].0);
                }
            }
        }
        assert forall|k: char| m.contains_key(k) implies has_key(w, k) by {
            let x = index_of(s, k);
            let a = if x < r { x } else { x - 1 };
            assert(w[a] == s[x]);
        }
        lemma_holds_map(w, m);
    } else {
        assert(m =~= as_map(s));
    }
}

/// Two sequences with increasing keys that hold the same map are equal.
pub proof fn lemma_entries_determined<T>(s: Seq<(char, T)>, t: Seq<(char, T)>)
    requires
        keys_increase(s),
        keys_increase(t),
        as_map(s) == as_map(t),
    ensures
        s == t,
    decreases s.len(),
{
    if s.len() == 0 {
        if t.len() > 0 {
            lemma_entry_found(t, 0);
            assert(has_key(s, t[0].0));
        }
    } else {
        let n = s.len() - 1;
        lemma_entry_found(s, n);
        assert(has_key(t, s[n].0));
        let m = t.len() - 1;
        lemma_entry_found(t, m);
        assert(has_key(s, t[m].0));
        let a = index_of(t, s[n].0);
        let b = index_of(s, t[m].0);
        if a < m {
            assert(t[a].0 < t[m].0);
            if b < n {
                assert(s[b].0 < s[n].0);
            }
        }
        assert(a == m);
        assert(s[n] == t[m]);
        lemma_without(s, s[n].0);
        lemma_without(t, s[n].0);
        assert(without(s, s[n].0) == s.drop_last());
        assert(without(t, s[n].0) == t.drop_last());
        lemma_entries_determined(s.drop_last(), t.drop_last());
        assert(s == s.drop_last().push(s[n]));
        assert(t == t.drop_last().push(t[m]));
    }
}

/// A map from state symbols to values, whose entries stand in strictly
/// increasing key order.
#[derive(Debug)]
pub struct StateMap<T> {
    entries: Vec<(char, T)>,
}

impl<T> View for StateMap<T> {
    type V = Map<char, T>;

    /// The map that the entries hold.
    open spec fn view(&self) -> Map<char, T> {
        as_map(self.entries())
    }
}

impl<T> StateMap<T> {
    /// The entries, in key order.
    pub closed spec fn entries(&self) -> Seq<(char, T)> {
        self.entries@
    }

    /// The keys of the entries strictly increase.
    #[verifier::type_invariant]
    pub open spec fn wf(&self) -> bool {
        keys_increase(self.entries())
    }

    /// A map without entries.
    pub fn new() -> (map: Self)
        ensures
            map.entries() == Seq::<(char, T)>::empty(),
            map@ == Map::<char, T>::empty(),
    {
        let map = StateMap { entries: Vec::new() };
        assert(map@ =~= Map::<char, T>::empty());
        map
    }

    /// The number of entries.
    pub fn len(&self) -> (n: usize)
        ensures
            n == self.entries().len(),
    {
        self.entries.len()
    }

    /// The entries, in key order.
    pub fn as_slice(&self) -> (slice: &[(char, T)])
        ensures
            slice@ == self.entries(),
            keys_increase(slice@),
    {
        proof {
            use_type_invariant(self);
        }
        self.entries.as_slice()
    }

    /// The rank of `key` among the keys.
    fn locate(&self, key: char) -> (i: usize)
        ensures
            i == rank(self.entries(), key),
            i <= self.entries().len(),
            self@.contains_key(key) <==> (i < self.entries().len() && self.entries()[i as int].0
                == key),
    {
        proof {
            use_type_invariant(self);
        }
        let mut i: usize = 0;
        while i < self.entries.len() && self.entries[i].0 < key
            invariant
                i <= self.entries@.len(),
                forall|j: int| 0 <= j < i ==> (#[trigger] self.entries@[j]).0 < key,
            decreases self.entries@.len() - i,
        {
            i += 1;
        }
        proof {
            assert forall|j: int| i <= j < self.entries@.len() implies (
            #[trigger] self.entries@[j]).0 >= key by {
                if i < j {
                    assert(self.entries@[i as int].0 < self.entries@[j].0);
                }
            }
            lemma_rank_splits(self.entries@, key, i as int);
            lemma_rank_bounds(self.entries@, key);
        }
        i
    }

    /// Whether `key` has an entry.
    pub fn contains_key(&self, key: &char) -> (found: bool)
        ensures
            found == self@.contains_key(*key),
    {
        let i = self.locate(*key);
        i < self.entries.len() && self.entries[i].0 == *key
    }

    /// The value bound to `key`, if it has an entry.
    pub fn get(&self, key: &char) -> (value: Option<&T>)
        ensures
            value == (if self@.contains_key(*key) {
                Some(&self@[*key])
            } else {
                None
            }),
    {
        proof {
            use_type_invariant(self);
        }
        let i = self.locate(*key);
        if i < self.entries.len() && self.entries[i].0 == *key {
            proof {
                lemma_entry_found(self.entries@, i as int);
            }
            Some(&self.entries[i].1)
        } else {
            None
        }
    }

    /// Binds `key` to `value`, in place of the value it had, if any.
    pub fn insert(&mut self, key: char, value: T)
        ensures
            final(self).entries() == put(old(self).entries(), key, value),
            final(self)@ == old(self)@.insert(key, value),
    {
        proof {
            use_type_invariant(&*self);
            lemma_put(self.entries@, key, value);
        }
        let i = self.locate(key);
        // The entries leave the map while they change.
        let mut entries: Vec<(char, T)> = Vec::new();
        core::mem::swap(&mut self.entries, &mut entries);
        if i < entries.len() && entries[i].0 == key {
            entries[i] = (key, value);
        } else {
            entries.insert(i, (key, value));
        }
        core::mem::swap(&mut self.entries, &mut entries);
    }

    /// Takes the entry of `key` out and returns its value, if it has one.
    pub fn remove(&mut self, key: &char) -> (value: Option<T>)
        ensures
            final(self).entries() == without(old(self).entries(), *key),
            final(self)@ == old(self)@.remove(*key),
            value == (if old(self)@.contains_key(*key) {
                Some(old(self)@[*key])
            } else {
                None
            }),
    {
        proof {
            use_type_invariant(&*self);
            lemma_without(self.entries@, *key);
        }
        let i = self.locate(*key);
        if i < self.entries.len() && self.entries[i].0 == *key {
            proof {
                lemma_entry_found(self.entries@, i as int);
            }
            // The entries leave the map while they change.
            let mut entries: Vec<(char, T)> = Vec::new();
            core::mem::swap(&mut self.entries, &mut entries);
            let entry = entries.remove(i);
            core::mem::swap(&mut self.entries, &mut entries);
            Some(entry.1)
        } else {
            None
        }
    }
}

} // verus!
