//! The ordered process registry and its priority sort.

use vstd::prelude::*;

use crate::entity_manager::EntityManager;
use crate::error::UsageError;
use crate::process::Process;
use crate::table::as_map;
use crate::table::distinct_keys;
use crate::table::has_key;
use crate::table::lemma_as_map_dom;
use crate::table::lemma_as_map_index;
use crate::table::lemma_as_map_push;
use crate::table::lemma_as_map_remove;
use crate::table::lemma_distinct_drop_last;

verus! {

/// Inserting an entry into a sequence after every entry whose priority does
/// not exceed its own: the single step of the stable insertion sort.
pub open spec fn insert_sorted<P>(s: Seq<(u64, (usize, P))>, e: (u64, (usize, P))) -> Seq<(u64, (usize, P))>
    decreases s.len(),
{
    if s.len() == 0 {
        seq![e]
    } else if s[0].1.0 <= e.1.0 {
        seq![s[0]] + insert_sorted(s.drop_first(), e)
    } else {
        seq![e] + s
    }
}

/// The stable sort by priority: each entry, in registration order, is
/// inserted after every already-placed entry of equal or lower priority.
pub open spec fn sort_spec<P>(s: Seq<(u64, (usize, P))>) -> Seq<(u64, (usize, P))>
    decreases s.len(),
{
    if s.len() == 0 {
        s
    } else {
        insert_sorted(sort_spec(s.drop_last()), s.last())
    }
}

/// Whether the entries are in nondecreasing priority order.
pub open spec fn sorted_by_priority<P>(s: Seq<(u64, (usize, P))>) -> bool {
    forall|i: int, j: int|
        0 <= i <= j < s.len() ==> s[i].1.0 <= s[j].1.0
}

/// The entries carrying exactly priority `p`.
pub open spec fn at_priority<P>(p: usize) -> spec_fn((u64, (usize, P))) -> bool {
    |e: (u64, (usize, P))| e.1.0 == p
}

/// The position of the first entry whose priority exceeds `p`, or the
/// length if there is none.
pub open spec fn first_gt<P>(s: Seq<(u64, (usize, P))>, p: usize) -> int
    decreases s.len(),
{
    if s.len() == 0 {
        0
    } else if s[0].1.0 <= p {
        1 + first_gt(s.drop_first(), p)
    } else {
        0
    }
}

/// `first_gt` finds a position whose prefix holds priorities at most `p`
/// and which, if inside the sequence, holds a priority above `p`.
pub proof fn lemma_first_gt_props<P>(s: Seq<(u64, (usize, P))>, p: usize)
    ensures
        0 <= first_gt(s, p) <= s.len(),
        forall|j: int| 0 <= j < first_gt(s, p) ==> s[j].1.0 <= p,
        first_gt(s, p) < s.len() ==> s[first_gt(s, p)].1.0 > p,
    decreases s.len(),
{
    if s.len() == 0 {
    } else if s[0].1.0 <= p {
        lemma_first_gt_props(s.drop_first(), p);
        assert forall|j: int| 0 <= j < first_gt(s, p) implies s[j].1.0 <= p by {
            if j > 0 {
                assert(s.drop_first()[j - 1] == s[j]);
            }
        }
        if first_gt(s, p) < s.len() {
            assert(s.drop_first()[first_gt(s, p) - 1] == s[first_gt(s, p)]);
        }
    } else {
    }
}

/// Inserting at a position whose prefix holds priorities at most the
/// entry's and whose suffix starts above it is exactly `insert_sorted`.
pub proof fn lemma_insert_sorted_at<P>(s: Seq<(u64, (usize, P))>, e: (u64, (usize, P)), pos: int)
    requires
        0 <= pos <= s.len(),
        forall|j: int| 0 <= j < pos ==> s[j].1.0 <= e.1.0,
        pos < s.len() ==> s[pos].1.0 > e.1.0,
    ensures
        insert_sorted(s, e) == s.subrange(0, pos) + seq![e] + s.subrange(pos, s.len() as int),
    decreases s.len(),
{
    if s.len() == 0 {
        assert(insert_sorted(s, e) =~= s.subrange(0, 0) + seq![e] + s.subrange(0, 0));
    } else if pos == 0 {
        assert(s[0].1.0 > e.1.0);
        assert(insert_sorted(s, e) =~= s.subrange(0, 0) + seq![e] + s.subrange(0, s.len() as int));
    } else {
        assert(s[0].1.0 <= e.1.0);
        let t = s.drop_first();
        assert forall|j: int| 0 <= j < pos - 1 implies t[j].1.0
            <= e.1.0 by {
            assert(t[j] == s[j + 1]);
        }
        if pos - 1 < t.len() {
            assert(t[pos - 1] == s[pos]);
        }
        lemma_insert_sorted_at(t, e, pos - 1);
        assert(insert_sorted(s, e) =~= s.subrange(0, pos) + seq![e] + s.subrange(
            pos,
            s.len() as int,
        ));
    }
}

/// `insert_sorted` of a fresh key keeps the keys distinct and adds exactly
/// that key.
pub proof fn lemma_insert_sorted_keys<P>(s: Seq<(u64, (usize, P))>, e: (u64, (usize, P)))
    requires
        distinct_keys(s),
        !has_key(s, e.0),
    ensures
        insert_sorted(s, e).len() == s.len() + 1,
        distinct_keys(insert_sorted(s, e)),
        forall|k: u64| has_key(insert_sorted(s, e), k) <==> (has_key(s, k) || k == e.0),
{
    let pos = first_gt(s, e.1.0);
    lemma_first_gt_props(s, e.1.0);
    lemma_insert_sorted_at(s, e, pos);
    let r = insert_sorted(s, e);
    assert forall|x: int, y: int| 0 <= x < y < r.len() implies r[x].0 != r[y].0 by {
        let x0: int = if x < pos {
            x
        } else {
            x - 1
        };
        let y0: int = if y < pos {
            y
        } else {
            y - 1
        };
        if x == pos {
            assert(r[y] == s[y0]);
            assert(!has_key(s, e.0));
            if r[x].0 == r[y].0 {
                assert(s[y0].0 == e.0);
            }
        } else if y == pos {
            assert(r[x] == s[x0]);
            if r[x].0 == r[y].0 {
                assert(s[x0].0 == e.0);
            }
        } else {
            assert(r[x] == s[x0] && r[y] == s[y0]);
            assert(s[x0].0 != s[y0].0);
        }
    }
    assert forall|k: u64| has_key(r, k) <==> (has_key(s, k) || k == e.0) by {
        if has_key(r, k) {
            let i = choose|i: int| 0 <= i < r.len() && r[i].0 == k;
            if i < pos {
                assert(s[i].0 == k);
            } else if i == pos {
            } else {
                assert(s[i - 1].0 == k);
            }
        }
        if has_key(s, k) {
            let i = choose|i: int| 0 <= i < s.len() && s[i].0 == k;
            if i < pos {
                assert(r[i].0 == k);
            } else {
                assert(r[i + 1].0 == k);
            }
        }
        if k == e.0 {
            assert(r[pos].0 == k);
        }
    }
}

/// `insert_sorted` into a priority-sorted sequence yields a priority-sorted
/// sequence.
pub proof fn lemma_insert_sorted_sorted<P>(s: Seq<(u64, (usize, P))>, e: (u64, (usize, P)))
    requires
        sorted_by_priority(s),
    ensures
        sorted_by_priority(insert_sorted(s, e)),
{
    let pos = first_gt(s, e.1.0);
    lemma_first_gt_props(s, e.1.0);
    lemma_insert_sorted_at(s, e, pos);
    let r = insert_sorted(s, e);
    assert forall|x: int, y: int| 0 <= x <= y < r.len() implies r[x].1.0
        <= r[y].1.0 by {
        let x0: int = if x < pos {
            x
        } else {
            x - 1
        };
        let y0: int = if y < pos {
            y
        } else {
            y - 1
        };
        if x != pos && y != pos {
            assert(r[x] == s[x0] && r[y] == s[y0]);
        } else if x == pos && y == pos {
        } else if x == pos {
            assert(r[y] == s[y0]);
            assert(s[y0].1.0 > e.1.0);
        } else {
            assert(r[x] == s[x0]);
            assert(s[x0].1.0 <= e.1.0);
        }
    }
}

/// The entries of one priority level, in order: `insert_sorted` appends the
/// new entry to the end of its own level and leaves every other level
/// untouched.
pub proof fn lemma_insert_sorted_filter<P>(s: Seq<(u64, (usize, P))>, e: (u64, (usize, P)), p: usize)
    requires
        sorted_by_priority(s),
    ensures
        e.1.0 == p ==> insert_sorted(s, e).filter(at_priority(p)) == s.filter(
            at_priority(p),
        ).push(e),
        e.1.0 != p ==> insert_sorted(s, e).filter(at_priority(p)) == s.filter(
            at_priority(p),
        ),
{
    broadcast use vstd::seq_lib::group_seq_lib_default;

    reveal(Seq::filter);
    let pred = at_priority::<P>(p);
    let pos = first_gt(s, e.1.0);
    lemma_first_gt_props(s, e.1.0);
    lemma_insert_sorted_at(s, e, pos);
    let pre = s.subrange(0, pos);
    let suf = s.subrange(pos, s.len() as int);
    let single = seq![e];
    assert(insert_sorted(s, e) == pre + single + suf);
    assert(s =~= pre + suf);
    Seq::filter_distributes_over_add(pre + single, suf, pred);
    Seq::filter_distributes_over_add(pre, single, pred);
    Seq::filter_distributes_over_add(pre, suf, pred);
    assert(single.len() == 1);
    assert(single.last() == e);
    assert(single.drop_last() =~= Seq::<(u64, (usize, P))>::empty());
    assert(Seq::<(u64, (usize, P))>::empty().filter(pred) =~= Seq::<(u64, (usize, P))>::empty());
    assert(single.filter(pred) == if pred(single.last()) {
        single.drop_last().filter(pred).push(single.last())
    } else {
        single.drop_last().filter(pred)
    });
    assert(single.filter(pred) == if pred(e) {
        Seq::<(u64, (usize, P))>::empty().push(e)
    } else {
        Seq::<(u64, (usize, P))>::empty()
    });
    if e.1.0 == p {
        // every suffix entry sits strictly above `p`, so none survives the
        // filter
        assert forall|j: int| 0 <= j < suf.len() implies !pred(suf[j]) by {
            assert(suf[j] == s[pos + j]);
            assert(s[pos].1.0 > e.1.0);
        }
        suf.lemma_all_neg_filter_empty(pred);
        assert(insert_sorted(s, e).filter(pred) =~= s.filter(pred).push(e));
    } else {
        assert(!pred(e));
        assert(insert_sorted(s, e).filter(pred) =~= s.filter(pred));
    }
}

/// The sort yields nondecreasing priorities.
pub proof fn lemma_sort_spec_sorted<P>(s: Seq<(u64, (usize, P))>)
    ensures
        sorted_by_priority(sort_spec(s)),
    decreases s.len(),
{
    if s.len() == 0 {
    } else {
        lemma_sort_spec_sorted(s.drop_last());
        lemma_insert_sorted_sorted(sort_spec(s.drop_last()), s.last());
    }
}

/// The sort keeps the length and the set of keys, and keeps distinct keys
/// distinct.
pub proof fn lemma_sort_spec_keys<P>(s: Seq<(u64, (usize, P))>)
    requires
        distinct_keys(s),
    ensures
        sort_spec(s).len() == s.len(),
        distinct_keys(sort_spec(s)),
        forall|k: u64| has_key(sort_spec(s), k) <==> has_key(s, k),
    decreases s.len(),
{
    if s.len() == 0 {
    } else {
        let t = s.drop_last();
        let e = s.last();
        lemma_distinct_drop_last(s);
        lemma_sort_spec_keys(t);
        assert(!has_key(t, e.0)) by {
            if has_key(t, e.0) {
                let j = choose|j: int| 0 <= j < t.len() && t[j].0 == e.0;
                assert(s[j].0 == s[s.len() - 1].0);
            }
        }
        lemma_insert_sorted_keys(sort_spec(t), e);
        assert forall|k: u64| has_key(sort_spec(s), k) <==> has_key(s, k) by {
            if has_key(s, k) {
                let j = choose|j: int| 0 <= j < s.len() && s[j].0 == k;
                if j < s.len() - 1 {
                    assert(t[j].0 == k);
                } else {
                    assert(k == e.0);
                }
            }
            if has_key(t, k) {
                let j = choose|j: int| 0 <= j < t.len() && t[j].0 == k;
                assert(s[j].0 == k);
            }
            if k == e.0 {
                assert(s[s.len() - 1].0 == k);
            }
        }
    }
}

/// The sort is stable: within each priority level, the entries keep their
/// registration order — the filtered subsequence at any priority is exactly
/// the input's.
pub proof fn lemma_sort_spec_stable<P>(s: Seq<(u64, (usize, P))>, p: usize)
    ensures
        sort_spec(s).filter(at_priority(p)) == s.filter(at_priority(p)),
    decreases s.len(),
{
    reveal(Seq::filter);
    if s.len() == 0 {
    } else {
        let t = s.drop_last();
        let e = s.last();
        lemma_sort_spec_stable(t, p);
        lemma_sort_spec_sorted(t);
        lemma_insert_sorted_filter(sort_spec(t), e, p);
        assert(s.len() != 0);
        assert(s.last() == e && s.drop_last() == t);
        assert(s.filter(at_priority(p)) == if at_priority::<P>(p)(s.last()) {
            s.drop_last().filter(at_priority(p)).push(s.last())
        } else {
            s.drop_last().filter(at_priority(p))
        });
    }
}

/// The ordered collection of registered processes, keyed by a caller-chosen
/// process-type key: at most one process per key. Insertion order is
/// preserved until `sort` stable-sorts the entries by priority; the entry
/// order is the dispatch order of a tick.
pub struct Processes<P: Process> {
    processes: Vec<(u64, (usize, P))>,
}

impl<P: Process> Processes<P> {
    /// The entries, in dispatch order.
    pub closed spec fn spec_processes(&self) -> Seq<(u64, (usize, P))> {
        self.processes@
    }

    /// The finite map from process-type key to cached priority and process.
    pub open spec fn contents(&self) -> Map<u64, (usize, P)> {
        as_map(self.spec_processes())
    }

    /// Well-formed: at most one process per key.
    pub open spec fn wf(&self) -> bool {
        distinct_keys(self.spec_processes())
    }

    /// An empty registry.
    pub fn new() -> (processes: Processes<P>)
        ensures
            processes.wf(),
            processes.spec_processes().len() == 0,
    {
        Processes { processes: Vec::new() }
    }

    /// How many processes are registered.
    pub fn len(&self) -> (n: usize)
        ensures
            n == self.spec_processes().len(),
    {
        self.processes.len()
    }

    /// The entry position of `key`, by linear scan.
    fn index_of(&self, key: u64) -> (position: Option<usize>)
        ensures
            match position {
                Some(i) => i < self.spec_processes().len() && self.spec_processes()[i as int].0
                    == key,
                None => !has_key(self.spec_processes(), key),
            },
    {
        let n = self.processes.len();
        let mut i: usize = 0;
        while i < n
            invariant
                n == self.spec_processes().len(),
                i <= n,
                forall|j: int| 0 <= j < i ==> self.spec_processes()[j].0 != key,
            decreases n - i,
        {
            if self.processes[i].0 == key {
                return Some(i);
            }
            i += 1;
        }
        None
    }

    /// The process-type key at dispatch position `i`: the dispatch order,
    /// made observable.
    pub fn key_at(&self, i: usize) -> (key: u64)
        requires
            i < self.spec_processes().len(),
        ensures
            key == self.spec_processes()[i as int].0,
    {
        self.processes[i].0
    }

    /// Whether a process is registered under `key`.
    pub fn contains(&self, key: u64) -> (present: bool)
        requires
            self.wf(),
        ensures
            present == self.contents().contains_key(key),
    {
        proof {
            lemma_as_map_dom(self.spec_processes(), key);
        }
        self.index_of(key).is_some()
    }

    /// The process registered under `key`, if any.
    pub fn process(&self, key: u64) -> (process: Option<&P>)
        requires
            self.wf(),
        ensures
            match process {
                Some(p) => self.contents().contains_key(key) && *p == self.contents()[key].1,
                None => !self.contents().contains_key(key),
            },
    {
        proof {
            lemma_as_map_dom(self.spec_processes(), key);
        }
        match self.index_of(key) {
            Some(i) => {
                proof {
                    lemma_as_map_index(self.spec_processes(), i as int);
                }
                Some(&self.processes[i].1.1)
            },
            None => None,
        }
    }

    /// Registers `process` under `key`, at the end of the dispatch order,
    /// caching its declared priority as the entry's sort key. Registering a
    /// key twice is a fatal usage error: the registry is unchanged and the
    /// error surfaced.
    pub fn insert(&mut self, key: u64, process: P) -> (outcome: Result<(), UsageError>)
        requires
            old(self).wf(),
        ensures
            final(self).wf(),
            match outcome {
                Ok(()) => {
                    &&& !old(self).contents().contains_key(key)
                    &&& final(self).spec_processes().len() == old(self).spec_processes().len() + 1
                    &&& final(self).spec_processes().last().0 == key
                    &&& final(self).spec_processes().last().1.1 == process
                    &&& forall|j: int|
                        0 <= j < old(self).spec_processes().len() ==> #[trigger] final(self).spec_processes()[j] == old(self).spec_processes()[j]
                    &&& final(self).contents() == old(self).contents().insert(
                        key,
                        final(self).spec_processes().last().1,
                    )
                },
                Err(e) => {
                    &&& e == UsageError::DuplicateProcess
                    &&& old(self).contents().contains_key(key)
                    &&& final(self).spec_processes() == old(self).spec_processes()
                },
            },
    {
        proof {
            lemma_as_map_dom(self.spec_processes(), key);
        }
        match self.index_of(key) {
            Some(_) => Err(UsageError::DuplicateProcess),
            None => {
                let priority = process.priority();
                proof {
                    lemma_as_map_push(self.spec_processes(), key, (priority, process));
                }
                self.processes.push((key, (priority, process)));
                Ok(())
            },
        }
    }

    /// Removes and returns the process registered under `key`, closing the
    /// gap in the dispatch order; on a missing key, `None`, never an error.
    pub fn remove(&mut self, key: u64) -> (process: Option<P>)
        requires
            old(self).wf(),
        ensures
            final(self).wf(),
            final(self).contents() == old(self).contents().remove(key),
            match process {
                Some(p) => {
                    &&& old(self).contents().contains_key(key)
                    &&& p == old(self).contents()[key].1
                    &&& exists|i: int|
                        0 <= i < old(self).spec_processes().len()
                            && old(self).spec_processes()[i].0 == key
                            && old(self).spec_processes()[i].1.1 == p
                            && final(self).spec_processes() == old(self).spec_processes().remove(i)
                },
                None => {
                    &&& !old(self).contents().contains_key(key)
                    &&& final(self).spec_processes() == old(self).spec_processes()
                },
            },
    {
        proof {
            lemma_as_map_dom(self.spec_processes(), key);
        }
        match self.index_of(key) {
            Some(i) => {
                proof {
                    lemma_as_map_index(self.spec_processes(), i as int);
                    lemma_as_map_remove(self.spec_processes(), i as int);
                }
                let (_, entry) = self.processes.remove(i);
                proof {
                    assert(old(self).spec_processes()[i as int].0 == key);
                }
                Some(entry.1)
            },
            None => {
                proof {
                    assert(old(self).contents().remove(key) =~= old(self).contents());
                }
                None
            },
        }
    }

    /// Stable-sorts the entries by priority: afterwards the dispatch order
    /// is by nondecreasing priority, entries of equal priority keeping
    /// their registration order (see [`lemma_sort_spec_sorted`] and
    /// [`lemma_sort_spec_stable`]).
    pub fn sort(&mut self)
        requires
            old(self).wf(),
        ensures
            final(self).wf(),
            final(self).spec_processes() == sort_spec(old(self).spec_processes()),
    {
        let ghost s_orig = self.processes@;
        let n = self.processes.len();
        let mut sorted: Vec<(u64, (usize, P))> = Vec::new();
        proof {
            assert(s_orig.take(0) =~= Seq::<(u64, (usize, P))>::empty());
            assert(s_orig.skip(0) =~= s_orig);
        }
        let mut taken: usize = 0;
        while taken < n
            invariant
                taken <= n,
                n == s_orig.len(),
                self.processes@ == s_orig.skip(taken as int),
                sorted@ == sort_spec(s_orig.take(taken as int)),
            decreases n - taken,
        {
            let e = self.processes.remove(0);
            proof {
                assert(s_orig.skip(taken as int).remove(0) =~= s_orig.skip(taken as int + 1));
                assert(e == s_orig[taken as int]);
            }
            let mut pos: usize = 0;
            let m = sorted.len();
            let e_priority = e.1.0;
            while pos < m && sorted[pos].1.0 <= e_priority
                invariant
                    pos <= m,
                    m == sorted@.len(),
                    e_priority == e.1.0,
                    forall|j: int|
                        0 <= j < pos ==> sorted@[j].1.0 <= e.1.0,
                decreases m - pos,
            {
                pos += 1;
            }
            proof {
                lemma_insert_sorted_at(sorted@, e, pos as int);
                assert(sorted@.insert(pos as int, e) =~= sorted@.subrange(0, pos as int) + seq![e]
                    + sorted@.subrange(pos as int, sorted@.len() as int));
                assert(s_orig.take(taken as int + 1).drop_last() =~= s_orig.take(taken as int));
                assert(s_orig.take(taken as int + 1).last() == s_orig[taken as int]);
            }
            sorted.insert(pos, e);
            taken += 1;
        }
        proof {
            assert(s_orig.take(n as int) =~= s_orig);
            lemma_sort_spec_keys(s_orig);
        }
        self.processes = sorted;
    }

    /// Runs the process at entry position `i` over the registries. Only
    /// that process's own state may change; the keys and the dispatch order
    /// stay as they are.
    pub fn run_at(&mut self, i: usize, entity_manager: &mut EntityManager<P::C>)
        requires
            old(self).wf(),
            i < old(self).spec_processes().len(),
            old(entity_manager).wf(),
        ensures
            final(self).wf(),
            final(entity_manager).wf(),
            final(self).spec_processes().len() == old(self).spec_processes().len(),
            final(self).spec_processes()[i as int].0 == old(self).spec_processes()[i as int].0,
            final(self).spec_processes()[i as int].1.0 == old(self).spec_processes()[i as int].1.0,
            forall|j: int|
                0 <= j < old(self).spec_processes().len() && j != i ==> final(self).spec_processes()[j] == old(self).spec_processes()[j],
    {
        let entry = &mut self.processes[i];
        let p = &mut entry.1.1;
        p.run(entity_manager);
        proof {
            assert forall|x: int, y: int|
                0 <= x < y < final(self).spec_processes().len() implies final(self).spec_processes()[x].0 != final(self).spec_processes()[y].0 by {
                assert(final(self).spec_processes()[x].0 == old(self).spec_processes()[x].0);
                assert(final(self).spec_processes()[y].0 == old(self).spec_processes()[y].0);
            }
        }
    }
}

} // verus!
