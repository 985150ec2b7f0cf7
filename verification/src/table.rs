//! Keyed entry tables: the shared core of the two component-table
//! strategies.
//!
//! Both strategies store their entries as a vector of `(key, value)` pairs
//! with pairwise-distinct keys and are viewed as the finite map
//! [`as_map`] of that vector. The vector-indexed strategy finds a key by a
//! linear scan; the hash-indexed strategy keeps a hash index from key to
//! position beside the vector. Their observable contracts coincide.

use vstd::prelude::*;

use std::collections::HashMap;

verus! {

broadcast use vstd::std_specs::hash::group_hash_axioms;

/// Whether some entry of `s` carries `key`.
pub open spec fn has_key<V>(s: Seq<(u64, V)>, key: u64) -> bool {
    exists|i: int| 0 <= i < s.len() && s[i].0 == key
}

/// Whether the keys of `s` are pairwise distinct.
pub open spec fn distinct_keys<V>(s: Seq<(u64, V)>) -> bool {
    forall|i: int, j: int| 0 <= i < j < s.len() ==> s[i].0 != s[j].0
}

/// The finite map an entry sequence denotes; a later entry for the same key
/// wins, though under [`distinct_keys`] no two entries share a key.
pub open spec fn as_map<V>(s: Seq<(u64, V)>) -> Map<u64, V>
    decreases s.len(),
{
    if s.len() == 0 {
        Map::empty()
    } else {
        as_map(s.drop_last()).insert(s.last().0, s.last().1)
    }
}

/// Dropping the last entry keeps the keys distinct.
pub proof fn lemma_distinct_drop_last<V>(s: Seq<(u64, V)>)
    requires
        distinct_keys(s),
        s.len() > 0,
    ensures
        distinct_keys(s.drop_last()),
{
    assert forall|i: int, j: int| 0 <= i < j < s.drop_last().len() implies s.drop_last()[i].0
        != s.drop_last()[j].0 by {
        assert(s[i].0 != s[j].0);
    }
}

/// The map's domain holds exactly the keys of the entries.
pub proof fn lemma_as_map_dom<V>(s: Seq<(u64, V)>, key: u64)
    ensures
        as_map(s).contains_key(key) <==> has_key(s, key),
    decreases s.len(),
{
    if s.len() == 0 {
    } else {
        lemma_as_map_dom(s.drop_last(), key);
        if s.last().0 == key {
            assert(s[s.len() - 1].0 == key);
        } else {
            if has_key(s, key) {
                let i = choose|i: int| 0 <= i < s.len() && s[i].0 == key;
                assert(s.drop_last()[i].0 == key);
            }
            if has_key(s.drop_last(), key) {
                let i = choose|i: int| 0 <= i < s.drop_last().len() && s.drop_last()[i].0 == key;
                assert(s[i].0 == key);
            }
        }
    }
}

/// With distinct keys, the map sends each entry's key to that entry's value.
pub proof fn lemma_as_map_index<V>(s: Seq<(u64, V)>, i: int)
    requires
        distinct_keys(s),
        0 <= i < s.len(),
    ensures
        as_map(s).contains_key(s[i].0),
        as_map(s)[s[i].0] == s[i].1,
    decreases s.len(),
{
    if i == s.len() - 1 {
    } else {
        lemma_distinct_drop_last(s);
        lemma_as_map_index(s.drop_last(), i);
        assert(s.drop_last()[i] == s[i]);
        assert(s[i].0 != s[s.len() - 1].0);
    }
}

/// Appending an entry with a fresh key inserts it into the map.
pub proof fn lemma_as_map_push<V>(s: Seq<(u64, V)>, key: u64, value: V)
    requires
        distinct_keys(s),
        !has_key(s, key),
    ensures
        as_map(s.push((key, value))) == as_map(s).insert(key, value),
        distinct_keys(s.push((key, value))),
{
    let t = s.push((key, value));
    assert(t.drop_last() =~= s);
    assert(t.last() == (key, value));
    assert forall|i: int, j: int| 0 <= i < j < t.len() implies t[i].0 != t[j].0 by {
        if j == t.len() - 1 {
            assert(t[i] == s[i]);
        } else {
            assert(t[i] == s[i] && t[j] == s[j]);
        }
    }
}

/// Overwriting the value at position `i`, keeping that position's key,
/// updates the map at that key.
pub proof fn lemma_as_map_update<V>(s: Seq<(u64, V)>, i: int, value: V)
    requires
        distinct_keys(s),
        0 <= i < s.len(),
    ensures
        as_map(s.update(i, (s[i].0, value))) == as_map(s).insert(s[i].0, value),
        distinct_keys(s.update(i, (s[i].0, value))),
    decreases s.len(),
{
    let key = s[i].0;
    let t = s.update(i, (key, value));
    assert forall|x: int, y: int| 0 <= x < y < t.len() implies t[x].0 != t[y].0 by {
        assert(t[x].0 == s[x].0 && t[y].0 == s[y].0);
    }
    if i == s.len() - 1 {
        assert(t.drop_last() =~= s.drop_last());
        assert(t.last() == (key, value));
        assert(as_map(s.drop_last()).insert(key, s[i].1).insert(key, value) =~= as_map(
            s.drop_last(),
        ).insert(key, value));
        assert(s.last() == (key, s[i].1));
    } else {
        lemma_distinct_drop_last(s);
        assert(t.drop_last() =~= s.drop_last().update(i, (key, value)));
        assert(s.drop_last()[i] == s[i]);
        lemma_as_map_update(s.drop_last(), i, value);
        assert(t.last() == s.last());
        assert(key != s.last().0);
        assert(as_map(s.drop_last()).insert(key, value).insert(s.last().0, s.last().1) =~= as_map(
            s.drop_last(),
        ).insert(s.last().0, s.last().1).insert(key, value));
    }
}

/// Removing the entry at position `i` removes its key from the map.
pub proof fn lemma_as_map_remove<V>(s: Seq<(u64, V)>, i: int)
    requires
        distinct_keys(s),
        0 <= i < s.len(),
    ensures
        as_map(s.remove(i)) == as_map(s).remove(s[i].0),
        distinct_keys(s.remove(i)),
    decreases s.len(),
{
    let key = s[i].0;
    let t = s.remove(i);
    assert forall|x: int, y: int| 0 <= x < y < t.len() implies t[x].0 != t[y].0 by {
        let x0: int = if x < i {
            x
        } else {
            x + 1
        };
        let y0: int = if y < i {
            y
        } else {
            y + 1
        };
        assert(t[x] == s[x0] && t[y] == s[y0]);
        assert(s[x0].0 != s[y0].0);
    }
    lemma_distinct_drop_last(s);
    if i == s.len() - 1 {
        assert(t =~= s.drop_last());
        lemma_as_map_dom(s.drop_last(), key);
        assert(!has_key(s.drop_last(), key)) by {
            if has_key(s.drop_last(), key) {
                let j = choose|j: int|
                    0 <= j < s.drop_last().len() && s.drop_last()[j].0 == key;
                assert(s[j].0 == s[i].0);
            }
        }
        assert(as_map(s.drop_last()).insert(key, s.last().1).remove(key) =~= as_map(
            s.drop_last(),
        ));
        assert(s.last() == (key, s.last().1));
    } else {
        assert(t.drop_last() =~= s.drop_last().remove(i));
        assert(t.last() == s.last());
        assert(s.drop_last()[i] == s[i]);
        lemma_as_map_remove(s.drop_last(), i);
        assert(key != s.last().0);
        assert(as_map(s.drop_last()).remove(key).insert(s.last().0, s.last().1) =~= as_map(
            s.drop_last(),
        ).insert(s.last().0, s.last().1).remove(key));
    }
}

/// Replacing the entry at position `i` by one with a key the table does not
/// hold removes the old key and inserts the fresh one.
pub proof fn lemma_as_map_update_fresh<V>(s: Seq<(u64, V)>, i: int, entry: (u64, V))
    requires
        distinct_keys(s),
        0 <= i < s.len(),
        !has_key(s, entry.0),
    ensures
        as_map(s.update(i, entry)) == as_map(s).remove(s[i].0).insert(entry.0, entry.1),
        distinct_keys(s.update(i, entry)),
    decreases s.len(),
{
    let key = s[i].0;
    let t = s.update(i, entry);
    assert forall|x: int, y: int| 0 <= x < y < t.len() implies t[x].0 != t[y].0 by {
        if x != i && y != i {
            assert(t[x].0 == s[x].0 && t[y].0 == s[y].0);
        } else if x == i {
            assert(t[y].0 == s[y].0);
            assert(s[y].0 != entry.0);
        } else {
            assert(t[x].0 == s[x].0);
            assert(s[x].0 != entry.0);
        }
    }
    lemma_distinct_drop_last(s);
    if i == s.len() - 1 {
        assert(t.drop_last() =~= s.drop_last());
        assert(t.last() == entry);
        lemma_as_map_dom(s.drop_last(), key);
        assert(!has_key(s.drop_last(), key)) by {
            if has_key(s.drop_last(), key) {
                let j = choose|j: int|
                    0 <= j < s.drop_last().len() && s.drop_last()[j].0 == key;
                assert(s[j].0 == s[i].0);
            }
        }
        assert(s.last() == (key, s.last().1));
        assert(as_map(s.drop_last()).insert(entry.0, entry.1) =~= as_map(s.drop_last()).insert(
            key,
            s.last().1,
        ).remove(key).insert(entry.0, entry.1));
    } else {
        assert(t.drop_last() =~= s.drop_last().update(i, entry));
        assert(t.last() == s.last());
        assert(s.drop_last()[i] == s[i]);
        assert(!has_key(s.drop_last(), entry.0)) by {
            if has_key(s.drop_last(), entry.0) {
                let j = choose|j: int|
                    0 <= j < s.drop_last().len() && s.drop_last()[j].0 == entry.0;
                assert(s[j].0 == entry.0);
            }
        }
        lemma_as_map_update_fresh(s.drop_last(), i, entry);
        assert(key != s.last().0);
        assert(entry.0 != s.last().0) by {
            assert(s[s.len() - 1].0 == s.last().0);
        }
        assert(as_map(s.drop_last()).remove(key).insert(entry.0, entry.1).insert(
            s.last().0,
            s.last().1,
        ) =~= as_map(s.drop_last()).insert(s.last().0, s.last().1).remove(key).insert(
            entry.0,
            entry.1,
        ));
    }
}

/// Swap-removal — overwrite position `i` with the last entry, then drop the
/// last — removes exactly the key that stood at position `i`.
pub proof fn lemma_as_map_swap_remove<V>(s: Seq<(u64, V)>, i: int)
    requires
        distinct_keys(s),
        0 <= i < s.len(),
    ensures
        as_map(s.update(i, s.last()).drop_last()) == as_map(s).remove(s[i].0),
        distinct_keys(s.update(i, s.last()).drop_last()),
    decreases s.len(),
{
    let key = s[i].0;
    if i == s.len() - 1 {
        assert(s.update(i, s.last()) =~= s);
        lemma_as_map_remove(s, i);
        assert(s.remove(i) =~= s.drop_last());
    } else {
        let u = s.drop_last();
        let p = s.last();
        lemma_distinct_drop_last(s);
        assert(u[i] == s[i]);
        assert(!has_key(u, p.0)) by {
            if has_key(u, p.0) {
                let j = choose|j: int| 0 <= j < u.len() && u[j].0 == p.0;
                assert(s[j].0 == s[s.len() - 1].0);
            }
        }
        lemma_as_map_update_fresh(u, i, p);
        assert(s.update(i, p).drop_last() =~= u.update(i, p));
        assert(key != p.0) by {
            assert(s[s.len() - 1].0 == p.0);
        }
        lemma_as_map_dom(u, key);
        assert(as_map(u).remove(key).insert(p.0, p.1) =~= as_map(u).insert(p.0, p.1).remove(key));
    }
}

/// With distinct keys the map has exactly one member per entry.
pub proof fn lemma_as_map_dom_len<V>(s: Seq<(u64, V)>)
    requires
        distinct_keys(s),
    ensures
        as_map(s).dom().finite(),
        as_map(s).dom().len() == s.len(),
    decreases s.len(),
{
    if s.len() == 0 {
        assert(as_map(s).dom() =~= Set::<u64>::empty());
    } else {
        lemma_distinct_drop_last(s);
        lemma_as_map_dom_len(s.drop_last());
        lemma_as_map_dom(s.drop_last(), s.last().0);
        assert(!has_key(s.drop_last(), s.last().0)) by {
            if has_key(s.drop_last(), s.last().0) {
                let j = choose|j: int|
                    0 <= j < s.drop_last().len() && s.drop_last()[j].0 == s.last().0;
                assert(s[j].0 == s[s.len() - 1].0);
            }
        }
        assert(as_map(s).dom() =~= as_map(s.drop_last()).dom().insert(s.last().0));
    }
}

/// One step of a table script: the operations whose effect both strategies
/// promise as the same map transformation.
pub enum TableOp<V> {
    /// Store a value under a key, replacing any present one.
    Insert(u64, V),
    /// Drop the entry under a key, if any.
    Remove(u64),
    /// Drop every entry.
    Clear,
}

/// The map transformation a table operation performs; `insert`, `remove`
/// and `clear` of both strategies promise exactly this in their contracts.
pub open spec fn apply_table_op<V>(m: Map<u64, V>, op: TableOp<V>) -> Map<u64, V> {
    match op {
        TableOp::Insert(key, value) => m.insert(key, value),
        TableOp::Remove(key) => m.remove(key),
        TableOp::Clear => Map::empty(),
    }
}

/// A whole table script, applied in order.
pub open spec fn apply_table_ops<V>(m: Map<u64, V>, ops: Seq<TableOp<V>>) -> Map<u64, V>
    decreases ops.len(),
{
    if ops.len() == 0 {
        m
    } else {
        apply_table_ops(apply_table_op(m, ops[0]), ops.drop_first())
    }
}

/// The two strategies are behaviorally indistinguishable: each operation's
/// contract pins the result and the new contents down as the same function
/// of the old contents for both, so any script of operations takes equal
/// contents to equal contents — and with them, by `get`/`contains`'s
/// contracts, equal answers at every step.
pub proof fn lemma_strategies_indistinguishable<V>(
    m1: Map<u64, V>,
    m2: Map<u64, V>,
    ops: Seq<TableOp<V>>,
)
    requires
        m1 == m2,
    ensures
        apply_table_ops(m1, ops) == apply_table_ops(m2, ops),
    decreases ops.len(),
{
    if ops.len() > 0 {
        lemma_strategies_indistinguishable(
            apply_table_op(m1, ops[0]),
            apply_table_op(m2, ops[0]),
            ops.drop_first(),
        );
    }
}

/// The map an entry sequence denotes has a finite domain.
pub proof fn lemma_as_map_finite<V>(s: Seq<(u64, V)>)
    ensures
        as_map(s).dom().finite(),
    decreases s.len(),
{
    if s.len() > 0 {
        lemma_as_map_finite(s.drop_last());
    }
}

/// Two entry sequences with the same keys at the same positions denote maps
/// over the same domain, each sending a position's key to that position's
/// value. The workhorse behind whole-table passes that rewrite values in
/// place.
pub proof fn lemma_as_map_pointwise<V>(s0: Seq<(u64, V)>, s1: Seq<(u64, V)>)
    requires
        distinct_keys(s0),
        s0.len() == s1.len(),
        forall|j: int| 0 <= j < s0.len() ==> s1[j].0 == s0[j].0,
    ensures
        distinct_keys(s1),
        as_map(s1).dom() == as_map(s0).dom(),
        forall|j: int| #![trigger s0[j]]
            0 <= j < s0.len() ==> as_map(s0)[s0[j].0] == s0[j].1 && as_map(s1)[s0[j].0] == s1[j].1,
        forall|k: u64| #![trigger as_map(s0).contains_key(k)]
            as_map(s0).contains_key(k) ==> exists|j: int| 0 <= j < s0.len() && s0[j].0 == k,
{
    assert forall|i: int, j: int| 0 <= i < j < s1.len() implies s1[i].0 != s1[j].0 by {
        assert(s1[i].0 == s0[i].0 && s1[j].0 == s0[j].0);
    }
    assert forall|j: int| #![trigger s0[j]]
        0 <= j < s0.len() implies as_map(s0)[s0[j].0] == s0[j].1 && as_map(s1)[s0[j].0]
        == s1[j].1 by {
        lemma_as_map_index(s0, j);
        lemma_as_map_index(s1, j);
    }
    assert forall|k: u64| #![trigger as_map(s0).contains_key(k)]
        as_map(s0).contains_key(k) implies exists|j: int| 0 <= j < s0.len() && s0[j].0 == k by {
        lemma_as_map_dom(s0, k);
    }
    assert forall|k: u64|
        as_map(s0).contains_key(k) == as_map(s1).contains_key(k) by {
        lemma_as_map_dom(s0, k);
        lemma_as_map_dom(s1, k);
        if has_key(s0, k) {
            let j = choose|j: int| 0 <= j < s0.len() && s0[j].0 == k;
            assert(s1[j].0 == k);
        }
        if has_key(s1, k) {
            let j = choose|j: int| 0 <= j < s1.len() && s1[j].0 == k;
            assert(s0[j].0 == k);
        }
    }
    assert(as_map(s1).dom() =~= as_map(s0).dom());
}

/// The vector-indexed strategy: entries in a plain vector, every lookup a
/// linear scan by key equality. Better cache locality and lower overhead for
/// small, densely-iterated tables.
pub struct VecTable<V> {
    entries: Vec<(u64, V)>,
}

impl<V> VecTable<V> {
    /// The entry sequence, in storage order.
    pub closed spec fn spec_entries(&self) -> Seq<(u64, V)> {
        self.entries@
    }

    /// Well-formed: no two entries share a key.
    pub open spec fn wf(&self) -> bool {
        distinct_keys(self.spec_entries())
    }

    /// The finite map this table stores.
    pub open spec fn contents(&self) -> Map<u64, V> {
        as_map(self.spec_entries())
    }

    /// An empty table.
    pub fn new() -> (table: VecTable<V>)
        ensures
            table.wf(),
            table.contents() == Map::<u64, V>::empty(),
            table.spec_entries().len() == 0,
    {
        VecTable { entries: Vec::new() }
    }

    /// How many entries the table holds.
    pub fn len(&self) -> (n: usize)
        ensures
            n == self.spec_entries().len(),
    {
        self.entries.len()
    }

    /// Drops every entry.
    pub fn clear(&mut self)
        ensures
            final(self).wf(),
            final(self).contents() == Map::<u64, V>::empty(),
            final(self).spec_entries().len() == 0,
    {
        self.entries.clear();
    }

    /// The storage position of `key`, by linear scan.
    fn find(&self, key: u64) -> (position: Option<usize>)
        ensures
            match position {
                Some(i) => i < self.spec_entries().len() && self.spec_entries()[i as int].0 == key,
                None => !has_key(self.spec_entries(), key),
            },
    {
        let n = self.entries.len();
        let mut i: usize = 0;
        while i < n
            invariant
                n == self.spec_entries().len(),
                i <= n,
                forall|j: int| 0 <= j < i ==> self.spec_entries()[j].0 != key,
            decreases n - i,
        {
            if self.entries[i].0 == key {
                return Some(i);
            }
            i += 1;
        }
        None
    }

    /// The value stored under `key`, if any.
    pub fn get(&self, key: u64) -> (value: Option<&V>)
        requires
            self.wf(),
        ensures
            match value {
                Some(v) => self.contents().contains_key(key) && *v == self.contents()[key],
                None => !self.contents().contains_key(key),
            },
    {
        proof {
            lemma_as_map_dom(self.spec_entries(), key);
        }
        match self.find(key) {
            Some(i) => {
                proof {
                    lemma_as_map_index(self.spec_entries(), i as int);
                }
                Some(&self.entries[i].1)
            },
            None => None,
        }
    }

    /// Whether the table holds `key`.
    pub fn contains(&self, key: u64) -> (present: bool)
        requires
            self.wf(),
        ensures
            present == self.contents().contains_key(key),
    {
        proof {
            lemma_as_map_dom(self.spec_entries(), key);
        }
        self.find(key).is_some()
    }

    /// Mutable access to the value stored under `key`, if any; the keys and
    /// their order are untouched, whatever the caller writes through it.
    pub fn get_mut(&mut self, key: u64) -> (value: Option<&mut V>)
        requires
            old(self).wf(),
        ensures
            match value {
                Some(v) => {
                    &&& old(self).contents().contains_key(key)
                    &&& *v == old(self).contents()[key]
                    &&& final(self).wf()
                    &&& final(self).contents() == old(self).contents().insert(key, *final(v))
                    &&& final(self).spec_entries().len() == old(self).spec_entries().len()
                    &&& forall|j: int|
                        0 <= j < final(self).spec_entries().len()
                            ==> final(self).spec_entries()[j].0 == old(self).spec_entries()[j].0
                },
                None => {
                    &&& !old(self).contents().contains_key(key)
                    &&& final(self).wf()
                    &&& final(self).spec_entries() == old(self).spec_entries()
                    &&& final(self).contents() == old(self).contents()
                },
            },
    {
        proof {
            lemma_as_map_dom(self.spec_entries(), key);
        }
        match self.find(key) {
            Some(i) => {
                proof {
                    lemma_as_map_index(self.spec_entries(), i as int);
                }
                let entry = &mut self.entries[i];
                let v = &mut entry.1;
                proof {
                    lemma_as_map_update(old(self).spec_entries(), i as int, *final(v));
                }
                Some(v)
            },
            None => None,
        }
    }

    /// Mutable access to the value at storage position `i`; the keys and
    /// their order are untouched.
    pub fn value_at_mut(&mut self, i: usize) -> (value: &mut V)
        requires
            old(self).wf(),
            i < old(self).spec_entries().len(),
        ensures
            *value == old(self).spec_entries()[i as int].1,
            final(self).wf(),
            final(self).spec_entries() == old(self).spec_entries().update(
                i as int,
                (old(self).spec_entries()[i as int].0, *final(value)),
            ),
            final(self).contents() == old(self).contents().insert(
                old(self).spec_entries()[i as int].0,
                *final(value),
            ),
    {
        let entry = &mut self.entries[i];
        let v = &mut entry.1;
        proof {
            lemma_as_map_update(old(self).spec_entries(), i as int, *final(v));
        }
        v
    }

    /// The key at storage position `i`.
    pub fn key_at(&self, i: usize) -> (key: u64)
        requires
            i < self.spec_entries().len(),
        ensures
            key == self.spec_entries()[i as int].0,
    {
        self.entries[i].0
    }

    /// The value at storage position `i`.
    pub fn value_at(&self, i: usize) -> (value: &V)
        requires
            i < self.spec_entries().len(),
        ensures
            *value == self.spec_entries()[i as int].1,
    {
        &self.entries[i].1
    }

    /// Stores `value` under `key`; an entry already carrying `key` is
    /// silently replaced — last write wins.
    pub fn insert(&mut self, key: u64, value: V)
        requires
            old(self).wf(),
        ensures
            final(self).wf(),
            final(self).contents() == old(self).contents().insert(key, value),
    {
        match self.find(key) {
            Some(i) => {
                proof {
                    lemma_as_map_update(self.spec_entries(), i as int, value);
                }
                self.entries[i] = (key, value);
            },
            None => {
                proof {
                    lemma_as_map_push(self.spec_entries(), key, value);
                }
                self.entries.push((key, value));
            },
        }
    }

    /// Removes and returns the value stored under `key`; on a missing key,
    /// `None`, never an error.
    pub fn remove(&mut self, key: u64) -> (value: Option<V>)
        requires
            old(self).wf(),
        ensures
            final(self).wf(),
            final(self).contents() == old(self).contents().remove(key),
            match value {
                Some(v) => old(self).contents().contains_key(key) && v == old(self).contents()[key],
                None => !old(self).contents().contains_key(key),
            },
    {
        proof {
            lemma_as_map_dom(self.spec_entries(), key);
        }
        match self.find(key) {
            Some(i) => {
                proof {
                    lemma_as_map_index(self.spec_entries(), i as int);
                    lemma_as_map_remove(self.spec_entries(), i as int);
                }
                let (_, v) = self.entries.remove(i);
                Some(v)
            },
            None => {
                proof {
                    assert(old(self).contents().remove(key) =~= old(self).contents());
                }
                None
            },
        }
    }
}

/// The hash-indexed strategy: the same entry vector, plus a hash index from
/// key to storage position, so get/insert/remove run in O(1) on average.
/// The preferred default for tables with unpredictable entity churn.
pub struct HashTable<V> {
    index: HashMap<u64, usize>,
    entries: Vec<(u64, V)>,
}

impl<V> HashTable<V> {
    /// The entry sequence, in storage order.
    pub closed spec fn spec_entries(&self) -> Seq<(u64, V)> {
        self.entries@
    }

    /// The hash index, from key to storage position.
    pub closed spec fn spec_index(&self) -> Map<u64, usize> {
        self.index@
    }

    /// Well-formed: the index and the entry vector list exactly the same
    /// keys, and the index sends each key to its entry's position.
    pub open spec fn wf(&self) -> bool {
        &&& forall|i: int| #![trigger self.spec_entries()[i]]
            0 <= i < self.spec_entries().len() ==> self.spec_index().contains_key(
                self.spec_entries()[i].0,
            ) && self.spec_index()[self.spec_entries()[i].0] as int == i
        &&& forall|k: u64| #![trigger self.spec_index().contains_key(k)]
            self.spec_index().contains_key(k) ==> (self.spec_index()[k] as int)
                < self.spec_entries().len() && self.spec_entries()[self.spec_index()[k] as int].0
                == k
    }

    /// The finite map this table stores.
    pub open spec fn contents(&self) -> Map<u64, V> {
        as_map(self.spec_entries())
    }

    /// A well-formed table has pairwise-distinct entry keys, and its index
    /// holds a key exactly when some entry carries it.
    pub proof fn lemma_wf_distinct(&self)
        requires
            self.wf(),
        ensures
            distinct_keys(self.spec_entries()),
            forall|k: u64| #[trigger]
                self.spec_index().contains_key(k) == has_key(self.spec_entries(), k),
    {
        let s = self.spec_entries();
        assert forall|i: int, j: int| 0 <= i < j < s.len() implies s[i].0 != s[j].0 by {
            if s[i].0 == s[j].0 {
                assert(self.spec_index()[s[i].0] as int == i);
                assert(self.spec_index()[s[j].0] as int == j);
            }
        }
        assert forall|k: u64| #[trigger]
            self.spec_index().contains_key(k) == has_key(s, k) by {
            if self.spec_index().contains_key(k) {
                assert(s[self.spec_index()[k] as int].0 == k);
            }
            if has_key(s, k) {
                let i = choose|i: int| 0 <= i < s.len() && s[i].0 == k;
                assert(self.spec_index().contains_key(s[i].0));
            }
        }
    }

    /// An empty table.
    pub fn new() -> (table: HashTable<V>)
        ensures
            table.wf(),
            table.contents() == Map::<u64, V>::empty(),
            table.spec_entries().len() == 0,
    {
        HashTable { index: HashMap::new(), entries: Vec::new() }
    }

    /// How many entries the table holds.
    pub fn len(&self) -> (n: usize)
        ensures
            n == self.spec_entries().len(),
    {
        self.entries.len()
    }

    /// Drops every entry.
    pub fn clear(&mut self)
        ensures
            final(self).wf(),
            final(self).contents() == Map::<u64, V>::empty(),
            final(self).spec_entries().len() == 0,
    {
        self.index.clear();
        self.entries.clear();
    }

    /// The value stored under `key`, if any, found through the hash index.
    pub fn get(&self, key: u64) -> (value: Option<&V>)
        requires
            self.wf(),
        ensures
            match value {
                Some(v) => self.contents().contains_key(key) && *v == self.contents()[key],
                None => !self.contents().contains_key(key),
            },
    {
        proof {
            self.lemma_wf_distinct();
            lemma_as_map_dom(self.spec_entries(), key);
        }
        match self.index.get(&key) {
            Some(i) => {
                let i = *i;
                proof {
                    lemma_as_map_index(self.spec_entries(), i as int);
                }
                Some(&self.entries[i].1)
            },
            None => None,
        }
    }

    /// Whether the table holds `key`.
    pub fn contains(&self, key: u64) -> (present: bool)
        requires
            self.wf(),
        ensures
            present == self.contents().contains_key(key),
    {
        proof {
            self.lemma_wf_distinct();
            lemma_as_map_dom(self.spec_entries(), key);
        }
        self.index.contains_key(&key)
    }

    /// Mutable access to the value stored under `key`, if any; the keys, the
    /// index and the storage order are untouched.
    pub fn get_mut(&mut self, key: u64) -> (value: Option<&mut V>)
        requires
            old(self).wf(),
        ensures
            match value {
                Some(v) => {
                    &&& old(self).contents().contains_key(key)
                    &&& *v == old(self).contents()[key]
                    &&& final(self).wf()
                    &&& final(self).contents() == old(self).contents().insert(key, *final(v))
                    &&& final(self).spec_entries().len() == old(self).spec_entries().len()
                    &&& forall|j: int|
                        0 <= j < final(self).spec_entries().len()
                            ==> final(self).spec_entries()[j].0 == old(self).spec_entries()[j].0
                },
                None => {
                    &&& !old(self).contents().contains_key(key)
                    &&& final(self).wf()
                    &&& final(self).spec_entries() == old(self).spec_entries()
                    &&& final(self).contents() == old(self).contents()
                },
            },
    {
        proof {
            self.lemma_wf_distinct();
            lemma_as_map_dom(self.spec_entries(), key);
        }
        match self.index.get(&key) {
            Some(i) => {
                let i = *i;
                proof {
                    lemma_as_map_index(self.spec_entries(), i as int);
                }
                let entry = &mut self.entries[i];
                let v = &mut entry.1;
                proof {
                    lemma_as_map_update(old(self).spec_entries(), i as int, *final(v));
                }
                Some(v)
            },
            None => None,
        }
    }

    /// Mutable access to the value at storage position `i`; the keys, the
    /// index and the storage order are untouched.
    pub fn value_at_mut(&mut self, i: usize) -> (value: &mut V)
        requires
            old(self).wf(),
            i < old(self).spec_entries().len(),
        ensures
            *value == old(self).spec_entries()[i as int].1,
            final(self).wf(),
            final(self).spec_entries() == old(self).spec_entries().update(
                i as int,
                (old(self).spec_entries()[i as int].0, *final(value)),
            ),
            final(self).contents() == old(self).contents().insert(
                old(self).spec_entries()[i as int].0,
                *final(value),
            ),
    {
        proof {
            self.lemma_wf_distinct();
        }
        let entry = &mut self.entries[i];
        let v = &mut entry.1;
        proof {
            lemma_as_map_update(old(self).spec_entries(), i as int, *final(v));
        }
        v
    }

    /// The key at storage position `i`.
    pub fn key_at(&self, i: usize) -> (key: u64)
        requires
            i < self.spec_entries().len(),
        ensures
            key == self.spec_entries()[i as int].0,
    {
        self.entries[i].0
    }

    /// The value at storage position `i`.
    pub fn value_at(&self, i: usize) -> (value: &V)
        requires
            i < self.spec_entries().len(),
        ensures
            *value == self.spec_entries()[i as int].1,
    {
        &self.entries[i].1
    }

    /// Stores `value` under `key`; an entry already carrying `key` is
    /// silently replaced — last write wins.
    pub fn insert(&mut self, key: u64, value: V)
        requires
            old(self).wf(),
        ensures
            final(self).wf(),
            final(self).contents() == old(self).contents().insert(key, value),
    {
        proof {
            self.lemma_wf_distinct();
        }
        let present = match self.index.get(&key) {
            Some(i) => Some(*i),
            None => None,
        };
        match present {
            Some(i) => {
                proof {
                    assert(self.spec_index().contains_key(key));
                    assert(self.spec_index()[key] == i);
                    assert(self.spec_entries()[i as int].0 == key);
                    lemma_as_map_update(self.spec_entries(), i as int, value);
                }
                self.entries[i] = (key, value);
            },
            None => {
                proof {
                    lemma_as_map_push(self.spec_entries(), key, value);
                }
                let n = self.entries.len();
                self.index.insert(key, n);
                self.entries.push((key, value));
                assert forall|i: int|
                    0 <= i < self.spec_entries().len() implies #[trigger] self.spec_index()
                    .contains_key(self.spec_entries()[i].0) && self.spec_index()[self.spec_entries()[i].0]
                    as int == i by {
                    if i < n {
                        assert(old(self).spec_index().contains_key(old(self).spec_entries()[i].0));
                        assert(self.spec_entries()[i] == old(self).spec_entries()[i]);
                        assert(old(self).spec_entries()[i].0 != key);
                    }
                }
            },
        }
    }

    /// Removes and returns the value stored under `key`, swapping the last
    /// entry into the vacated position; on a missing key, `None`, never an
    /// error.
    pub fn remove(&mut self, key: u64) -> (value: Option<V>)
        requires
            old(self).wf(),
        ensures
            final(self).wf(),
            final(self).contents() == old(self).contents().remove(key),
            match value {
                Some(v) => old(self).contents().contains_key(key) && v == old(self).contents()[key],
                None => !old(self).contents().contains_key(key),
            },
    {
        proof {
            self.lemma_wf_distinct();
            lemma_as_map_dom(self.spec_entries(), key);
        }
        let present = match self.index.get(&key) {
            Some(i) => Some(*i),
            None => None,
        };
        match present {
            Some(i) => {
                proof {
                    lemma_as_map_index(self.spec_entries(), i as int);
                    lemma_as_map_swap_remove(self.spec_entries(), i as int);
                }
                let ghost s0 = self.spec_entries();
                let (_, v) = self.entries.swap_remove(i);
                if i < self.entries.len() {
                    let moved = self.entries[i].0;
                    proof {
                        assert(s0[s0.len() - 1].0 == moved);
                    }
                    self.index.insert(moved, i);
                }
                self.index.remove(&key);
                proof {
                    let s1 = self.spec_entries();
                    assert(s1 =~= s0.update(i as int, s0.last()).drop_last());
                    assert forall|j: int|
                        0 <= j < s1.len() implies #[trigger] self.spec_index().contains_key(s1[j].0)
                        && self.spec_index()[s1[j].0] as int == j by {
                        if j != i {
                            assert(s1[j] == s0[j]);
                            assert(old(self).spec_index()[s0[j].0] as int == j);
                            assert(s0[j].0 != key);
                            assert(s0[j].0 != s0.last().0 || j == s0.len() - 1);
                        } else {
                            assert(s1[j].0 == s0.last().0);
                        }
                    }
                    assert forall|k: u64| #[trigger]
                        self.spec_index().contains_key(k) implies (self.spec_index()[k] as int)
                        < s1.len() && s1[self.spec_index()[k] as int].0 == k by {
                        if i < s1.len() && k == s0.last().0 {
                        } else {
                            assert(old(self).spec_index().contains_key(k));
                            let j = old(self).spec_index()[k] as int;
                            assert(s0[j].0 == k);
                            assert(j != i);
                            assert(j != s0.len() - 1);
                            assert(s1[j] == s0[j]);
                        }
                    }
                }
                Some(v)
            },
            None => {
                proof {
                    assert(old(self).contents().remove(key) =~= old(self).contents());
                }
                None
            },
        }
    }
}

} // verus!
