//! A tree-structured component: the illustrative consumer of the stores.
//!
//! `add_child` and `remove_child` mutate the invoking entity's own node in
//! place and reach, through the same store, into the child's and
//! transitively all descendants' nodes to update parents and depths. The
//! whole walk works on one exclusively-borrowed store, so it is atomic with
//! respect to concurrent structural edits; unlike a blind recursive
//! descent, the walk carries a visited set, so it terminates even on
//! degenerate child graphs that form cycles.

use vstd::prelude::*;

use std::collections::HashSet;

use crate::cell::DoubleBufferedCell;
use crate::component::Component;
use crate::component_manager::ComponentManager;
use crate::component_manager::HashMapComponentManager;
use crate::component_manager::WrappedComponentManager;
use crate::entity::Entity;
use crate::manager::HashMapManager;

verus! {

broadcast use vstd::std_specs::hash::group_hash_axioms;

/// A node of the hierarchy: its own entity, its depth below the root, its
/// parent, and its children in insertion order.
pub struct Hierarchy {
    entity: Entity,
    depth: usize,
    parent: Option<Entity>,
    children: Vec<Entity>,
}

impl Component for Hierarchy {
    type Manager = HashMapManager<Hierarchy>;

    type ComponentManager = HashMapComponentManager<Hierarchy>;
}

/// The depth one level below `depth`; the last representable depth is its
/// own successor, so the walk never overflows.
pub open spec fn next_depth(depth: usize) -> usize {
    if depth == usize::MAX {
        depth
    } else {
        (depth + 1) as usize
    }
}

/// Whether `after` is `before` with at most depths rewritten: the same
/// entities, every node keeping its entity, its staged value and — outside
/// `except` — its parent and children.
pub open spec fn hierarchy_shape_preserved(
    before: Map<u64, DoubleBufferedCell<Hierarchy>>,
    after: Map<u64, DoubleBufferedCell<Hierarchy>>,
    except: Set<u64>,
) -> bool {
    &&& after.dom() == before.dom()
    &&& forall|k: u64| #![trigger after[k]]
        before.contains_key(k) ==> after[k].pending == before[k].pending
            && after[k].current.spec_entity() == before[k].current.spec_entity()
    &&& forall|k: u64| #![trigger after[k].current]
        before.contains_key(k) && !except.contains(k) ==> after[k].current.spec_parent()
            == before[k].current.spec_parent() && after[k].current.spec_children()
            == before[k].current.spec_children()
}

/// Whether the descendant walk seeded at `seeds` with depth `start`
/// reaches the node `target` carrying depth `depth` after exactly `steps`
/// child-list hops over `cells`, never entering a node of `blocked`. At
/// step zero a seed itself is reached, carrying `start`; each further step
/// follows one stored, unblocked node's child list, one level deeper.
pub open spec fn cascade_reaches(
    cells: Map<u64, DoubleBufferedCell<Hierarchy>>,
    blocked: Set<u64>,
    seeds: Seq<Entity>,
    start: usize,
    target: u64,
    depth: usize,
    steps: nat,
) -> bool
    decreases steps,
{
    &&& !blocked.contains(target)
    &&& if steps == 0 {
        (exists|i: int| 0 <= i < seeds.len() && seeds[i].id == target) && depth == start
    } else {
        exists|j: u64, dj: usize|
            {
                &&& cascade_reaches(cells, blocked, seeds, start, j, dj, (steps - 1) as nat)
                &&& cells.contains_key(j)
                &&& exists|ci: int|
                    0 <= ci < cells[j].current.spec_children().len()
                        && cells[j].current.spec_children()[ci].id == target
                &&& depth == next_depth(dj)
            }
    }
}

/// Whether the descendant walk reaches `target` at all.
pub open spec fn cascade_reachable(
    cells: Map<u64, DoubleBufferedCell<Hierarchy>>,
    blocked: Set<u64>,
    seeds: Seq<Entity>,
    start: usize,
    target: u64,
) -> bool {
    exists|depth: usize, steps: nat|
        cascade_reaches(cells, blocked, seeds, start, target, depth, steps)
}

/// With no seeds there is no step zero, so nothing is reachable: a walk
/// seeded at an empty child list rewrites no depth at all.
pub proof fn lemma_cascade_needs_seeds(
    cells: Map<u64, DoubleBufferedCell<Hierarchy>>,
    blocked: Set<u64>,
    seeds: Seq<Entity>,
    start: usize,
)
    requires
        seeds.len() == 0,
    ensures
        forall|target: u64| !cascade_reachable(cells, blocked, seeds, start, target),
{
    assert forall|target: u64| !cascade_reachable(cells, blocked, seeds, start, target) by {
        assert forall|depth: usize, steps: nat|
            !cascade_reaches(cells, blocked, seeds, start, target, depth, steps) by {
            lemma_cascade_reaches_needs_seeds(cells, blocked, seeds, start, target, depth, steps);
        }
    }
}

proof fn lemma_cascade_reaches_needs_seeds(
    cells: Map<u64, DoubleBufferedCell<Hierarchy>>,
    blocked: Set<u64>,
    seeds: Seq<Entity>,
    start: usize,
    target: u64,
    depth: usize,
    steps: nat,
)
    requires
        seeds.len() == 0,
    ensures
        !cascade_reaches(cells, blocked, seeds, start, target, depth, steps),
    decreases steps,
{
    if steps > 0 {
        if cascade_reaches(cells, blocked, seeds, start, target, depth, steps) {
            let (j, dj) = choose|j: u64, dj: usize|
                {
                    &&& cascade_reaches(cells, blocked, seeds, start, j, dj, (steps - 1) as nat)
                    &&& cells.contains_key(j)
                    &&& exists|ci: int|
                        0 <= ci < cells[j].current.spec_children().len()
                            && cells[j].current.spec_children()[ci].id == target
                    &&& depth == next_depth(dj)
                };
            lemma_cascade_reaches_needs_seeds(cells, blocked, seeds, start, j, dj, (steps - 1) as nat);
        }
    }
}

/// A node no stored, unblocked node lists among its children can be
/// reached only as a seed: in step zero, carrying exactly `start`. This
/// pins the rewritten depth of a direct seed whose only parents are the
/// blocked, reanchored nodes.
pub proof fn lemma_cascade_only_seed(
    cells: Map<u64, DoubleBufferedCell<Hierarchy>>,
    blocked: Set<u64>,
    seeds: Seq<Entity>,
    start: usize,
    target: u64,
    depth: usize,
    steps: nat,
)
    requires
        cascade_reaches(cells, blocked, seeds, start, target, depth, steps),
        forall|j: u64, ci: int|
            #![trigger cells[j].current.spec_children()[ci]]
            cells.contains_key(j) && !blocked.contains(j) && 0 <= ci
                < cells[j].current.spec_children().len()
                ==> cells[j].current.spec_children()[ci].id != target,
    ensures
        steps == 0,
        depth == start,
{
    if steps > 0 {
        let (j, dj) = choose|j: u64, dj: usize|
            {
                &&& cascade_reaches(cells, blocked, seeds, start, j, dj, (steps - 1) as nat)
                &&& cells.contains_key(j)
                &&& exists|ci: int|
                    0 <= ci < cells[j].current.spec_children().len()
                        && cells[j].current.spec_children()[ci].id == target
                &&& depth == next_depth(dj)
            };
        assert(!blocked.contains(j));
        let ci = choose|ci: int|
            0 <= ci < cells[j].current.spec_children().len()
                && cells[j].current.spec_children()[ci].id == target;
        assert(cells[j].current.spec_children()[ci].id != target);
    }
}

/// Reachability reads only the domain and the unblocked nodes' child
/// lists: two stores agreeing on those have the same walk.
pub proof fn lemma_cascade_same_children(
    cells_a: Map<u64, DoubleBufferedCell<Hierarchy>>,
    cells_b: Map<u64, DoubleBufferedCell<Hierarchy>>,
    blocked: Set<u64>,
    seeds: Seq<Entity>,
    start: usize,
    target: u64,
    depth: usize,
    steps: nat,
)
    requires
        cells_a.dom() == cells_b.dom(),
        forall|j: u64| #![trigger cells_b[j]]
            cells_a.contains_key(j) && !blocked.contains(j) ==> cells_b[j].current.spec_children()
                == cells_a[j].current.spec_children(),
        cascade_reaches(cells_a, blocked, seeds, start, target, depth, steps),
    ensures
        cascade_reaches(cells_b, blocked, seeds, start, target, depth, steps),
    decreases steps,
{
    if steps > 0 {
        let (j, dj) = choose|j: u64, dj: usize|
            {
                &&& cascade_reaches(cells_a, blocked, seeds, start, j, dj, (steps - 1) as nat)
                &&& cells_a.contains_key(j)
                &&& exists|ci: int|
                    0 <= ci < cells_a[j].current.spec_children().len()
                        && cells_a[j].current.spec_children()[ci].id == target
                &&& depth == next_depth(dj)
            };
        lemma_cascade_same_children(cells_a, cells_b, blocked, seeds, start, j, dj, (steps - 1) as nat);
        assert(!blocked.contains(j));
        assert(cells_b[j].current.spec_children() == cells_a[j].current.spec_children());
        assert(cells_b.contains_key(j));
    }
}

/// The walk's completeness argument: once every stored seed is visited and
/// every stored child of a visited, unblocked node is visited, every
/// stored node the walk can reach is visited.
proof fn lemma_walk_complete(
    cells: Map<u64, DoubleBufferedCell<Hierarchy>>,
    blocked: Set<u64>,
    seeds: Seq<Entity>,
    start: usize,
    visited: Set<u64>,
    target: u64,
    depth: usize,
    steps: nat,
)
    requires
        cascade_reaches(cells, blocked, seeds, start, target, depth, steps),
        cells.contains_key(target),
        forall|i: int|
            0 <= i < seeds.len() && cells.contains_key(#[trigger] seeds[i].id)
                ==> visited.contains(seeds[i].id),
        forall|u: u64, ci: int|
            #![trigger visited.contains(u), cells[u].current.spec_children()[ci]]
            visited.contains(u) && !blocked.contains(u) && cells.contains_key(u) && 0 <= ci
                < cells[u].current.spec_children().len() && cells.contains_key(
                cells[u].current.spec_children()[ci].id,
            ) ==> visited.contains(cells[u].current.spec_children()[ci].id),
    ensures
        visited.contains(target),
    decreases steps,
{
    if steps == 0 {
        let i = choose|i: int| 0 <= i < seeds.len() && seeds[i].id == target;
        assert(cells.contains_key(seeds[i].id));
    } else {
        let (j, dj) = choose|j: u64, dj: usize|
            {
                &&& cascade_reaches(cells, blocked, seeds, start, j, dj, (steps - 1) as nat)
                &&& cells.contains_key(j)
                &&& exists|ci: int|
                    0 <= ci < cells[j].current.spec_children().len()
                        && cells[j].current.spec_children()[ci].id == target
                &&& depth == next_depth(dj)
            };
        lemma_walk_complete(cells, blocked, seeds, start, visited, j, dj, (steps - 1) as nat);
        assert(!blocked.contains(j));
        let ci = choose|ci: int|
            0 <= ci < cells[j].current.spec_children().len()
                && cells[j].current.spec_children()[ci].id == target;
        assert(visited.contains(cells[j].current.spec_children()[ci].id));
    }
}

/// Whether `id` is already visited or still waiting on the worklist.
spec fn covered(id: u64, visited: Set<u64>, worklist: Seq<(Entity, usize)>) -> bool {
    visited.contains(id) || exists|t: int| 0 <= t < worklist.len() && worklist[t].0.id == id
}

/// Popping the last worklist item keeps an id covered, as long as the
/// popped id is visited or is another id.
proof fn reestablish_cover(
    id: u64,
    visited: Set<u64>,
    before: Seq<(Entity, usize)>,
    after: Seq<(Entity, usize)>,
    popped: u64,
)
    requires
        covered(id, visited, before),
        before.len() > 0,
        after == before.drop_last(),
        before.last().0.id == popped,
        visited.contains(popped) || id != popped,
    ensures
        covered(id, visited, after),
{
    if !visited.contains(id) {
        let t = choose|t: int| 0 <= t < before.len() && before[t].0.id == id;
        if t < before.len() - 1 {
            assert(after[t].0.id == id);
        } else {
            assert(id == popped);
        }
    }
}

/// Coverage survives growing the visited set and appending worklist items.
proof fn cover_grows(
    id: u64,
    visited_small: Set<u64>,
    visited_big: Set<u64>,
    small: Seq<(Entity, usize)>,
    big: Seq<(Entity, usize)>,
)
    requires
        covered(id, visited_small, small),
        visited_small.subset_of(visited_big),
        small.len() <= big.len(),
        forall|t: int| 0 <= t < small.len() ==> big[t] == small[t],
    ensures
        covered(id, visited_big, big),
{
    if !visited_small.contains(id) {
        let t = choose|t: int| 0 <= t < small.len() && small[t].0.id == id;
        assert(big[t].0.id == id);
    }
}

impl Hierarchy {
    /// The node's own entity.
    pub closed spec fn spec_entity(&self) -> Entity {
        self.entity
    }

    /// The node's depth below its root; a root sits at depth 0.
    pub closed spec fn spec_depth(&self) -> usize {
        self.depth
    }

    /// The node's parent, if it has one.
    pub closed spec fn spec_parent(&self) -> Option<Entity> {
        self.parent
    }

    /// The node's children, in insertion order.
    pub closed spec fn spec_children(&self) -> Seq<Entity> {
        self.children@
    }

    /// A fresh root node for `entity`: depth 0, no parent, no children.
    pub fn new(entity: Entity) -> (hierarchy: Hierarchy)
        ensures
            hierarchy.spec_entity() == entity,
            hierarchy.spec_depth() == 0,
            hierarchy.spec_parent() is None,
            hierarchy.spec_children() == Seq::<Entity>::empty(),
    {
        Hierarchy { entity, depth: 0, parent: None, children: Vec::new() }
    }

    /// The node's own entity.
    pub fn entity(&self) -> (entity: Entity)
        ensures
            entity == self.spec_entity(),
    {
        self.entity
    }

    /// The node's depth below its root.
    pub fn depth(&self) -> (depth: usize)
        ensures
            depth == self.spec_depth(),
    {
        self.depth
    }

    /// The node's parent, if it has one.
    pub fn parent(&self) -> (parent: Option<Entity>)
        ensures
            parent == self.spec_parent(),
    {
        self.parent
    }

    /// The node's children, in insertion order.
    pub fn children(&self) -> (children: &Vec<Entity>)
        ensures
            children@ == self.spec_children(),
    {
        &self.children
    }

    /// Makes `child` a child of `parent`: appends it to `parent`'s
    /// children, reparents `child`'s node one level below `parent`, and
    /// rewrites the depths of `child`'s descendants to follow, leaving the
    /// two reanchored nodes themselves alone. A child that is the parent
    /// itself, already among `parent`'s children, or whose parent has no
    /// node, leaves the store untouched. Beyond the two named nodes, a node
    /// the walk reaches gets a depth at which it is reached — one level per
    /// hop below the child — and every other node is left entirely alone;
    /// entities, staged values and the set of stored nodes never change.
    pub fn add_child(
        component_manager: &mut WrappedComponentManager<Hierarchy>,
        parent: &Entity,
        child: &Entity,
    )
        requires
            old(component_manager).wf(),
        ensures
            final(component_manager).wf(),
            ({
                let before = old(component_manager).cells();
                let after = final(component_manager).cells();
                let skip = parent.id == child.id || !before.contains_key(parent.id)
                    || before[parent.id].current.spec_children().contains(*child);
                &&& skip ==> after == before
                &&& !skip ==> {
                    &&& hierarchy_shape_preserved(before, after, set![parent.id, child.id])
                    &&& after[parent.id].current.spec_children() == before[parent.id].current
                        .spec_children().push(*child)
                    &&& after[parent.id].current.spec_parent() == before[parent.id].current
                        .spec_parent()
                    &&& after[parent.id].current.spec_depth() == before[parent.id].current
                        .spec_depth()
                    &&& before.contains_key(child.id) ==> {
                        &&& after[child.id].current.spec_parent() == Some(
                            before[parent.id].current.spec_entity(),
                        )
                        &&& after[child.id].current.spec_depth() == next_depth(
                            before[parent.id].current.spec_depth(),
                        )
                        &&& after[child.id].current.spec_children() == before[child.id].current
                            .spec_children()
                        &&& forall|k: u64| #![trigger after[k]]
                            before.contains_key(k) && k != parent.id && k != child.id
                                && !cascade_reachable(
                                before,
                                set![parent.id, child.id],
                                before[child.id].current.spec_children(),
                                next_depth(next_depth(before[parent.id].current.spec_depth())),
                                k,
                            ) ==> after[k] == before[k]
                        &&& forall|k: u64| #![trigger after[k].current]
                            before.contains_key(k) && cascade_reachable(
                                before,
                                set![parent.id, child.id],
                                before[child.id].current.spec_children(),
                                next_depth(next_depth(before[parent.id].current.spec_depth())),
                                k,
                            ) ==> exists|d: usize, st: nat|
                                cascade_reaches(
                                    before,
                                    set![parent.id, child.id],
                                    before[child.id].current.spec_children(),
                                    next_depth(next_depth(before[parent.id].current.spec_depth())),
                                    k,
                                    d,
                                    st,
                                ) && after[k].current.spec_depth() == d
                        &&& before[child.id].current.spec_children().len() == 0 ==> forall|
                            k: u64,
                        | #![trigger after[k]]
                            before.contains_key(k) && k != parent.id && k != child.id ==> after[k]
                                == before[k]
                    }
                    &&& !before.contains_key(child.id) ==> forall|k: u64| #![trigger after[k]]
                        before.contains_key(k) && k != parent.id ==> after[k] == before[k]
                }
            }),
    {
        if parent.id == child.id {
            return ;
        }
        let (parent_entity, parent_depth) = match component_manager.get(parent) {
            Some(cell) => {
                let h = cell.read();
                if contains_entity(&h.children, child) {
                    return ;
                }
                (h.entity, h.depth)
            },
            None => {
                return ;
            },
        };
        match component_manager.get_mut(parent) {
            Some(h) => {
                h.children.push(*child);
            },
            None => {
                proof {
                    assert(false);
                }
                return ;
            },
        }
        let child_depth = if parent_depth == usize::MAX {
            parent_depth
        } else {
            parent_depth + 1
        };
        let grandchildren = match component_manager.get_mut(child) {
            Some(h) => {
                h.parent = Some(parent_entity);
                h.depth = child_depth;
                Some(copy_entities(&h.children))
            },
            None => None,
        };
        let ghost mid2 = component_manager.cells();
        match grandchildren {
            Some(list) => {
                let start = if child_depth == usize::MAX {
                    child_depth
                } else {
                    child_depth + 1
                };
                Self::reanchor_descendants(component_manager, parent, child, &list, start);
                proof {
                    let blocked = set![parent.id, child.id];
                    let before = old(component_manager).cells();
                    let now = component_manager.cells();
                    let seedsb = before[child.id].current.spec_children();
                    let startd = next_depth(next_depth(before[parent.id].current.spec_depth()));
                    assert(list@ == seedsb);
                    assert(start == startd);
                    assert(mid2.dom() =~= before.dom());
                    assert forall|j: u64| #![trigger mid2[j]]
                        before.contains_key(j) && !blocked.contains(j) implies mid2[j].current
                        .spec_children() == before[j].current.spec_children() by {
                        assert(mid2[j] == before[j]);
                    }
                    assert forall|k: u64|
                        before.contains_key(k) && k != parent.id && k != child.id
                            && !cascade_reachable(before, blocked, seedsb, startd, k) implies (
                    #[trigger] now[k]) == before[k] by {
                        if cascade_reachable(mid2, blocked, list@, start, k) {
                            let (dd, ss) = choose|dd: usize, ss: nat|
                                cascade_reaches(mid2, blocked, list@, start, k, dd, ss);
                            lemma_cascade_same_children(
                                mid2,
                                before,
                                blocked,
                                list@,
                                start,
                                k,
                                dd,
                                ss,
                            );
                            assert(cascade_reachable(before, blocked, seedsb, startd, k));
                        }
                        assert(now[k] == mid2[k]);
                        assert(mid2[k] == before[k]);
                    }
                    assert forall|k: u64|
                        before.contains_key(k) && cascade_reachable(
                            before,
                            blocked,
                            seedsb,
                            startd,
                            k,
                        ) implies exists|d: usize, st: nat|
                        cascade_reaches(before, blocked, seedsb, startd, k, d, st) && (#[trigger] now[k].current).spec_depth()
                            == d by {
                        let (dd, ss) = choose|dd: usize, ss: nat|
                            cascade_reaches(before, blocked, seedsb, startd, k, dd, ss);
                        lemma_cascade_same_children(before, mid2, blocked, seedsb, startd, k, dd, ss);
                        assert(cascade_reachable(mid2, blocked, list@, start, k));
                        let (d2, s2) = choose|d2: usize, s2: nat|
                            cascade_reaches(mid2, blocked, list@, start, k, d2, s2) && now[k].current.spec_depth() == d2;
                        lemma_cascade_same_children(mid2, before, blocked, list@, start, k, d2, s2);
                        assert(cascade_reaches(before, blocked, seedsb, startd, k, d2, s2)
                            && now[k].current.spec_depth() == d2);
                    }
                    if seedsb.len() == 0 {
                        lemma_cascade_needs_seeds(before, blocked, seedsb, startd);
                    }
                }
            },
            None => {
                proof {
                    let before = old(component_manager).cells();
                    let now = component_manager.cells();
                    assert forall|k: u64|
                        before.contains_key(k) && k != parent.id implies (#[trigger] now[k])
                        == before[k] by {
                        assert(now[k] == mid2[k]);
                    }
                }
            },
        }
        proof {
            let before = old(component_manager).cells();
            let after = final(component_manager).cells();
            assert(after.dom() =~= before.dom());
            assert forall|k: u64|
                before.contains_key(k) implies (#[trigger] after[k]).pending == before[k].pending
                && after[k].current.spec_entity() == before[k].current.spec_entity() by {
                if k != parent.id && k != child.id {
                    assert(mid2[k] == before[k]);
                    assert(after[k].pending == mid2[k].pending);
                    assert(after[k].current.spec_entity() == mid2[k].current.spec_entity());
                }
            }
            assert forall|k: u64|
                before.contains_key(k) && !set![parent.id, child.id].contains(k) implies (
            #[trigger] after[k].current).spec_parent() == before[k].current.spec_parent()
                && after[k].current.spec_children() == before[k].current.spec_children() by {
                assert(mid2[k] == before[k]);
                assert(after[k].current.spec_parent() == mid2[k].current.spec_parent());
                assert(after[k].current.spec_children() == mid2[k].current.spec_children());
            }
            assert(after[parent.id] == mid2[parent.id]);
            if before.contains_key(child.id) {
                assert(after[child.id] == mid2[child.id]);
            }
        }
    }

    /// Detaches `child` from `parent`: removes it from `parent`'s children,
    /// resets `child`'s node to a root — no parent, depth 0 — and rewrites
    /// the depths of `child`'s descendants to cascade from the reset node,
    /// leaving the two reanchored nodes themselves alone. A child not among
    /// `parent`'s children, or a parent without a node, leaves the store
    /// untouched. Beyond the two named nodes, a node the walk reaches gets
    /// a depth at which it is reached — one level per hop below the reset
    /// child — and every other node is left entirely alone; entities,
    /// staged values and the set of stored nodes never change.
    pub fn remove_child(
        component_manager: &mut WrappedComponentManager<Hierarchy>,
        parent: &Entity,
        child: &Entity,
    )
        requires
            old(component_manager).wf(),
        ensures
            final(component_manager).wf(),
            ({
                let before = old(component_manager).cells();
                let after = final(component_manager).cells();
                let skip = !before.contains_key(parent.id) || !before[parent.id].current
                    .spec_children().contains(*child);
                &&& skip ==> after == before
                &&& !skip ==> {
                    &&& hierarchy_shape_preserved(before, after, set![parent.id, child.id])
                    &&& (exists|i: int|
                        0 <= i < before[parent.id].current.spec_children().len()
                            && before[parent.id].current.spec_children()[i] == *child
                            && after[parent.id].current.spec_children()
                            == before[parent.id].current.spec_children().remove(i))
                    &&& after[parent.id].current.spec_parent() == before[parent.id].current
                        .spec_parent()
                    &&& after[parent.id].current.spec_depth() == before[parent.id].current
                        .spec_depth()
                    &&& before.contains_key(child.id) && child.id != parent.id ==> {
                        &&& after[child.id].current.spec_parent() is None
                        &&& after[child.id].current.spec_depth() == 0
                        &&& after[child.id].current.spec_children() == before[child.id].current
                            .spec_children()
                        &&& forall|k: u64| #![trigger after[k]]
                            before.contains_key(k) && k != parent.id && k != child.id
                                && !cascade_reachable(
                                before,
                                set![parent.id, child.id],
                                before[child.id].current.spec_children(),
                                1,
                                k,
                            ) ==> after[k] == before[k]
                        &&& forall|k: u64| #![trigger after[k].current]
                            before.contains_key(k) && cascade_reachable(
                                before,
                                set![parent.id, child.id],
                                before[child.id].current.spec_children(),
                                1,
                                k,
                            ) ==> exists|d: usize, st: nat|
                                cascade_reaches(
                                    before,
                                    set![parent.id, child.id],
                                    before[child.id].current.spec_children(),
                                    1,
                                    k,
                                    d,
                                    st,
                                ) && after[k].current.spec_depth() == d
                        &&& before[child.id].current.spec_children().len() == 0 ==> forall|
                            k: u64,
                        | #![trigger after[k]]
                            before.contains_key(k) && k != parent.id && k != child.id ==> after[k]
                                == before[k]
                    }
                    &&& (!before.contains_key(child.id) || child.id == parent.id) ==> forall|
                        k: u64,
                    | #![trigger after[k]]
                        before.contains_key(k) && k != parent.id ==> after[k] == before[k]
                }
            }),
    {
        let position = match component_manager.get(parent) {
            Some(cell) => {
                let h = cell.read();
                match position_of(&h.children, child) {
                    Some(i) => i,
                    None => {
                        return ;
                    },
                }
            },
            None => {
                return ;
            },
        };
        match component_manager.get_mut(parent) {
            Some(h) => {
                let _ = h.children.remove(position);
            },
            None => {
                proof {
                    assert(false);
                }
                return ;
            },
        }
        if child.id == parent.id {
            proof {
                let before = old(component_manager).cells();
                let after = final(component_manager).cells();
                assert(after.dom() =~= before.dom());
                assert forall|k: u64|
                    before.contains_key(k) implies (#[trigger] after[k]).pending
                    == before[k].pending && after[k].current.spec_entity()
                    == before[k].current.spec_entity() by {
                    if k != parent.id {
                        assert(after[k] == before[k]);
                    }
                }
                assert forall|k: u64|
                    before.contains_key(k) && k != parent.id implies (#[trigger] after[k])
                    == before[k] by {
                }
            }
            return ;
        }
        let grandchildren = match component_manager.get_mut(child) {
            Some(h) => {
                h.parent = None;
                h.depth = 0;
                Some(copy_entities(&h.children))
            },
            None => None,
        };
        let ghost mid2 = component_manager.cells();
        match grandchildren {
            Some(list) => {
                Self::reanchor_descendants(component_manager, parent, child, &list, 1);
                proof {
                    let blocked = set![parent.id, child.id];
                    let before = old(component_manager).cells();
                    let now = component_manager.cells();
                    let seedsb = before[child.id].current.spec_children();
                    let startd: usize = 1;
                    assert(list@ == seedsb);
                    assert(mid2.dom() =~= before.dom());
                    assert forall|j: u64| #![trigger mid2[j]]
                        before.contains_key(j) && !blocked.contains(j) implies mid2[j].current
                        .spec_children() == before[j].current.spec_children() by {
                        assert(mid2[j] == before[j]);
                    }
                    assert forall|k: u64|
                        before.contains_key(k) && k != parent.id && k != child.id
                            && !cascade_reachable(before, blocked, seedsb, startd, k) implies (
                    #[trigger] now[k]) == before[k] by {
                        if cascade_reachable(mid2, blocked, list@, startd, k) {
                            let (dd, ss) = choose|dd: usize, ss: nat|
                                cascade_reaches(mid2, blocked, list@, startd, k, dd, ss);
                            lemma_cascade_same_children(
                                mid2,
                                before,
                                blocked,
                                list@,
                                startd,
                                k,
                                dd,
                                ss,
                            );
                            assert(cascade_reachable(before, blocked, seedsb, startd, k));
                        }
                        assert(now[k] == mid2[k]);
                        assert(mid2[k] == before[k]);
                    }
                    assert forall|k: u64|
                        before.contains_key(k) && cascade_reachable(
                            before,
                            blocked,
                            seedsb,
                            startd,
                            k,
                        ) implies exists|d: usize, st: nat|
                        cascade_reaches(before, blocked, seedsb, startd, k, d, st) && (#[trigger] now[k].current).spec_depth()
                            == d by {
                        let (dd, ss) = choose|dd: usize, ss: nat|
                            cascade_reaches(before, blocked, seedsb, startd, k, dd, ss);
                        lemma_cascade_same_children(before, mid2, blocked, seedsb, startd, k, dd, ss);
                        assert(cascade_reachable(mid2, blocked, list@, startd, k));
                        let (d2, s2) = choose|d2: usize, s2: nat|
                            cascade_reaches(mid2, blocked, list@, startd, k, d2, s2) && now[k].current.spec_depth() == d2;
                        lemma_cascade_same_children(mid2, before, blocked, list@, startd, k, d2, s2);
                        assert(cascade_reaches(before, blocked, seedsb, startd, k, d2, s2)
                            && now[k].current.spec_depth() == d2);
                    }
                    if seedsb.len() == 0 {
                        lemma_cascade_needs_seeds(before, blocked, seedsb, startd);
                    }
                }
            },
            None => {
                proof {
                    let before = old(component_manager).cells();
                    let now = component_manager.cells();
                    assert forall|k: u64|
                        before.contains_key(k) && k != parent.id implies (#[trigger] now[k])
                        == before[k] by {
                        assert(now[k] == mid2[k]);
                    }
                }
            },
        }
        proof {
            let before = old(component_manager).cells();
            let after = final(component_manager).cells();
            assert(after.dom() =~= before.dom());
            assert forall|k: u64|
                before.contains_key(k) implies (#[trigger] after[k]).pending == before[k].pending
                && after[k].current.spec_entity() == before[k].current.spec_entity() by {
                if k != parent.id && k != child.id {
                    assert(mid2[k] == before[k]);
                    assert(after[k].pending == mid2[k].pending);
                    assert(after[k].current.spec_entity() == mid2[k].current.spec_entity());
                }
            }
            assert forall|k: u64|
                before.contains_key(k) && !set![parent.id, child.id].contains(k) implies (
            #[trigger] after[k].current).spec_parent() == before[k].current.spec_parent()
                && after[k].current.spec_children() == before[k].current.spec_children() by {
                assert(mid2[k] == before[k]);
                assert(after[k].current.spec_parent() == mid2[k].current.spec_parent());
                assert(after[k].current.spec_children() == mid2[k].current.spec_children());
            }
            assert(after[parent.id] == mid2[parent.id]);
            if before.contains_key(child.id) {
                assert(after[child.id] == mid2[child.id]);
            }
        }
    }

    /// Rewrites the depths of `children` to `depth` and walks on into their
    /// descendants, one level deeper each step. The walk visits each stored
    /// node at most once, so it terminates even if the child lists form a
    /// cycle. A reached node gets a depth at which the walk reaches it; a
    /// node the walk cannot reach is left entirely alone; entities,
    /// parents, children and staged values are everywhere untouched.
    pub fn set_children_depth(
        component_manager: &mut WrappedComponentManager<Hierarchy>,
        children: &Vec<Entity>,
        depth: usize,
    )
        requires
            old(component_manager).wf(),
        ensures
            final(component_manager).wf(),
            hierarchy_shape_preserved(
                old(component_manager).cells(),
                final(component_manager).cells(),
                Set::<u64>::empty(),
            ),
            forall|k: u64| #![trigger final(component_manager).cells()[k]]
                old(component_manager).cells().contains_key(k) && !cascade_reachable(
                    old(component_manager).cells(),
                    Set::<u64>::empty(),
                    children@,
                    depth,
                    k,
                ) ==> final(component_manager).cells()[k] == old(component_manager).cells()[k],
            forall|k: u64| #![trigger final(component_manager).cells()[k]]
                old(component_manager).cells().contains_key(k) && cascade_reachable(
                    old(component_manager).cells(),
                    Set::<u64>::empty(),
                    children@,
                    depth,
                    k,
                ) ==> exists|d: usize, s: nat|
                    cascade_reaches(
                        old(component_manager).cells(),
                        Set::<u64>::empty(),
                        children@,
                        depth,
                        k,
                        d,
                        s,
                    ) && final(component_manager).cells()[k].current.spec_depth() == d,
    {
        let visited: HashSet<u64> = HashSet::new();
        proof {
            assert(visited@ =~= Set::<u64>::empty());
        }
        Self::depth_walk(component_manager, visited, children, depth);
    }

    /// The descendant walk of `add_child` and `remove_child`: as
    /// [`Self::set_children_depth`], but leaving the two just-reanchored
    /// nodes alone.
    fn reanchor_descendants(
        component_manager: &mut WrappedComponentManager<Hierarchy>,
        parent: &Entity,
        child: &Entity,
        children: &Vec<Entity>,
        depth: usize,
    )
        requires
            old(component_manager).wf(),
        ensures
            final(component_manager).wf(),
            hierarchy_shape_preserved(
                old(component_manager).cells(),
                final(component_manager).cells(),
                Set::<u64>::empty(),
            ),
            old(component_manager).cells().contains_key(parent.id) ==> final(component_manager).cells()[parent.id] == old(component_manager).cells()[parent.id],
            old(component_manager).cells().contains_key(child.id) ==> final(component_manager).cells()[child.id] == old(component_manager).cells()[child.id],
            forall|k: u64| #![trigger final(component_manager).cells()[k]]
                old(component_manager).cells().contains_key(k) && !cascade_reachable(
                    old(component_manager).cells(),
                    set![parent.id, child.id],
                    children@,
                    depth,
                    k,
                ) ==> final(component_manager).cells()[k] == old(component_manager).cells()[k],
            forall|k: u64| #![trigger final(component_manager).cells()[k]]
                old(component_manager).cells().contains_key(k) && cascade_reachable(
                    old(component_manager).cells(),
                    set![parent.id, child.id],
                    children@,
                    depth,
                    k,
                ) ==> exists|d: usize, s: nat|
                    cascade_reaches(
                        old(component_manager).cells(),
                        set![parent.id, child.id],
                        children@,
                        depth,
                        k,
                        d,
                        s,
                    ) && final(component_manager).cells()[k].current.spec_depth() == d,
    {
        let mut visited: HashSet<u64> = HashSet::new();
        visited.insert(parent.id);
        visited.insert(child.id);
        proof {
            assert(visited@ =~= set![parent.id, child.id]);
        }
        Self::depth_walk(component_manager, visited, children, depth);
    }

    /// The worklist walk behind the depth rewrites. Nodes already in
    /// `visited` are never touched; each other stored node is rewritten at
    /// most once, receiving a depth at which the walk reaches it, and every
    /// stored node the walk cannot reach keeps its depth.
    fn depth_walk(
        component_manager: &mut WrappedComponentManager<Hierarchy>,
        visited: HashSet<u64>,
        children: &Vec<Entity>,
        depth: usize,
    )
        requires
            old(component_manager).wf(),
        ensures
            final(component_manager).wf(),
            hierarchy_shape_preserved(
                old(component_manager).cells(),
                final(component_manager).cells(),
                Set::<u64>::empty(),
            ),
            forall|k: u64| #![trigger final(component_manager).cells()[k]]
                visited@.contains(k) && old(component_manager).cells().contains_key(k) ==> final(component_manager).cells()[k] == old(component_manager).cells()[k],
            forall|k: u64| #![trigger final(component_manager).cells()[k]]
                old(component_manager).cells().contains_key(k) && !cascade_reachable(
                    old(component_manager).cells(),
                    visited@,
                    children@,
                    depth,
                    k,
                ) ==> final(component_manager).cells()[k] == old(component_manager).cells()[k],
            forall|k: u64| #![trigger final(component_manager).cells()[k]]
                old(component_manager).cells().contains_key(k) && cascade_reachable(
                    old(component_manager).cells(),
                    visited@,
                    children@,
                    depth,
                    k,
                ) ==> exists|d: usize, s: nat|
                    cascade_reaches(old(component_manager).cells(), visited@, children@, depth, k, d, s)
                        && final(component_manager).cells()[k].current.spec_depth() == d,
    {
        let ghost cells0 = old(component_manager).cells();
        let ghost dom0 = cells0.dom();
        let ghost protected = visited@;
        proof {
            component_manager.lemma_cells_finite();
        }
        let mut visited = visited;
        let mut worklist: Vec<(Entity, usize)> = Vec::new();
        let mut i: usize = 0;
        let n = children.len();
        while i < n
            invariant
                i <= n,
                n == children@.len(),
                worklist@.len() == i,
                forall|t: int| 0 <= t < i ==> worklist@[t] == (children@[t], depth),
            decreases n - i,
        {
            worklist.push((children[i], depth));
            i += 1;
        }
        proof {
            assert(visited@.intersect(dom0).subset_of(dom0));
            vstd::set_lib::lemma_len_subset(visited@.intersect(dom0), dom0);
            assert forall|t: int|
                0 <= t < worklist@.len() && !protected.contains(worklist@[t].0.id) implies exists|s: nat|
                cascade_reaches(cells0, protected, children@, depth, worklist@[t].0.id, worklist@[t].1, s) by {
                assert(children@[t].id == worklist@[t].0.id);
                assert(cascade_reaches(cells0, protected, children@, depth, worklist@[t].0.id, worklist@[t].1, 0));
            }
            assert forall|i2: int|
                0 <= i2 < children@.len() && cells0.contains_key(children@[i2].id) implies covered(
                children@[i2].id,
                visited@,
                worklist@,
            ) by {
                assert(worklist@[i2].0.id == children@[i2].id);
            }
        }
        while worklist.len() > 0
            invariant
                component_manager.wf(),
                component_manager.cells().dom() == dom0,
                cells0.dom() == dom0,
                dom0.finite(),
                visited@.intersect(dom0).finite(),
                visited@.intersect(dom0).len() <= dom0.len(),
                protected.subset_of(visited@),
                hierarchy_shape_preserved(cells0, component_manager.cells(), Set::<u64>::empty()),
                forall|k: u64| #![trigger component_manager.cells()[k]]
                    protected.contains(k) && cells0.contains_key(k)
                        ==> component_manager.cells()[k] == cells0[k],
                forall|k: u64| #![trigger component_manager.cells()[k]]
                    cells0.contains_key(k) && !visited@.contains(k)
                        ==> component_manager.cells()[k] == cells0[k],
                forall|k: u64| #![trigger visited@.contains(k)]
                    visited@.contains(k) && !protected.contains(k) ==> cells0.contains_key(k)
                        && exists|d: usize, s: nat|
                        cascade_reaches(cells0, protected, children@, depth, k, d, s)
                            && component_manager.cells()[k].current.spec_depth() == d,
                forall|t: int| #![trigger worklist@[t]]
                    0 <= t < worklist@.len() && !protected.contains(worklist@[t].0.id)
                        ==> exists|s: nat|
                        cascade_reaches(cells0, protected, children@, depth, worklist@[t].0.id, worklist@[t].1, s),
                forall|i2: int| #![trigger children@[i2]]
                    0 <= i2 < children@.len() && cells0.contains_key(children@[i2].id)
                        ==> covered(children@[i2].id, visited@, worklist@),
                forall|u: u64, ci: int|
                    #![trigger visited@.contains(u), cells0[u].current.spec_children()[ci]]
                    visited@.contains(u) && !protected.contains(u) && cells0.contains_key(u) && 0
                        <= ci < cells0[u].current.spec_children().len() && cells0.contains_key(
                        cells0[u].current.spec_children()[ci].id,
                    ) ==> covered(cells0[u].current.spec_children()[ci].id, visited@, worklist@),
            decreases dom0.len() - visited@.intersect(dom0).len(), worklist.len(),
        {
            let ghost worklist_prev = worklist@;
            let (entity, d) = match worklist.pop() {
                Some(item) => item,
                None => {
                    proof {
                        assert(false);
                    }
                    return ;
                },
            };
            proof {
                assert(worklist@ =~= worklist_prev.drop_last());
                assert((entity, d) == worklist_prev.last());
            }
            if visited.contains(&entity.id) {
                proof {
                    assert forall|i2: int|
                        0 <= i2 < children@.len() && cells0.contains_key(children@[i2].id) implies covered(
                        children@[i2].id,
                        visited@,
                        worklist@,
                    ) by {
                        reestablish_cover(children@[i2].id, visited@, worklist_prev, worklist@, entity.id);
                    }
                    assert forall|u: u64, ci: int|
                        #![trigger visited@.contains(u), cells0[u].current.spec_children()[ci]]
                        visited@.contains(u) && !protected.contains(u) && cells0.contains_key(u)
                            && 0 <= ci < cells0[u].current.spec_children().len()
                            && cells0.contains_key(cells0[u].current.spec_children()[ci].id) implies covered(
                        cells0[u].current.spec_children()[ci].id,
                        visited@,
                        worklist@,
                    ) by {
                        reestablish_cover(
                            cells0[u].current.spec_children()[ci].id,
                            visited@,
                            worklist_prev,
                            worklist@,
                            entity.id,
                        );
                    }
                }
                continue ;
            }
            let ghost cells_here = component_manager.cells();
            let ghost visited_here = visited@;
            let next = match component_manager.get_mut(&entity) {
                Some(h) => {
                    h.depth = d;
                    Some(copy_entities(&h.children))
                },
                None => None,
            };
            proof {
                let now = component_manager.cells();
                assert(now.dom() =~= dom0);
                assert forall|k: u64|
                    cells0.contains_key(k) implies (#[trigger] now[k]).pending == cells0[k].pending
                    && now[k].current.spec_entity() == cells0[k].current.spec_entity()
                    && now[k].current.spec_parent() == cells0[k].current.spec_parent()
                    && now[k].current.spec_children() == cells0[k].current.spec_children() by {
                    if k != entity.id {
                        assert(now[k] == cells_here[k]);
                    }
                    assert(cells_here[k].pending == cells0[k].pending);
                    assert(cells_here[k].current.spec_parent() == cells0[k].current.spec_parent());
                    assert(cells_here[k].current.spec_children() == cells0[k].current.spec_children());
                    assert(cells_here[k].current.spec_entity() == cells0[k].current.spec_entity());
                }
                assert forall|k: u64|
                    protected.contains(k) && cells0.contains_key(k) implies (#[trigger] now[k])
                    == cells0[k] by {
                    assert(!visited_here.contains(entity.id));
                    assert(k != entity.id);
                    assert(now[k] == cells_here[k]);
                }
            }
            match next {
                Some(grandchildren) => {
                    proof {
                        assert(dom0.contains(entity.id));
                        assert(visited_here.insert(entity.id).intersect(dom0) =~= visited_here
                            .intersect(dom0).insert(entity.id));
                        vstd::set_lib::lemma_len_subset(
                            visited_here.insert(entity.id).intersect(dom0),
                            dom0,
                        );
                    }
                    visited.insert(entity.id);
                    let deeper = if d == usize::MAX {
                        d
                    } else {
                        d + 1
                    };
                    let ghost base = worklist@;
                    proof {
                        assert(!protected.contains(entity.id));
                        assert(worklist_prev[worklist_prev.len() - 1] == (entity, d));
                        assert(exists|s: nat|
                            cascade_reaches(cells0, protected, children@, depth, entity.id, d, s));
                    }
                    let ghost item_steps: nat = choose|s: nat|
                        cascade_reaches(cells0, protected, children@, depth, entity.id, d, s);
                    let m = grandchildren.len();
                    let mut j: usize = 0;
                    while j < m
                        invariant
                            j <= m,
                            m == grandchildren@.len(),
                            worklist@.len() == base.len() + j,
                            forall|t: int| 0 <= t < base.len() ==> worklist@[t] == base[t],
                            forall|t: int|
                                base.len() <= t < worklist@.len() ==> worklist@[t] == (
                                grandchildren@[t - base.len()],
                                deeper,
                            ),
                        decreases m - j,
                    {
                        worklist.push((grandchildren[j], deeper));
                        j += 1;
                    }
                    proof {
                        let now = component_manager.cells();
                        assert(grandchildren@ == cells0[entity.id].current.spec_children());
                        assert(deeper == next_depth(d));
                        // each pushed item is reached one step beyond its parent
                        assert forall|t: int|
                            0 <= t < worklist@.len() && !protected.contains(worklist@[t].0.id) implies exists|s: nat|
                            cascade_reaches(
                                cells0,
                                protected,
                                children@,
                                depth,
                                worklist@[t].0.id,
                                worklist@[t].1,
                                s,
                            ) by {
                            if t >= base.len() {
                                let c = worklist@[t].0;
                                let ci = t - base.len();
                                assert(cells0[entity.id].current.spec_children()[ci].id == c.id);
                                assert(cells0.contains_key(entity.id));
                                assert(cascade_reaches(cells0, protected, children@, depth, entity.id, d, item_steps));
                                assert(cascade_reaches(
                                    cells0,
                                    protected,
                                    children@,
                                    depth,
                                    c.id,
                                    deeper,
                                    item_steps + 1,
                                ));
                                assert(worklist@[t].1 == deeper);
                                assert(exists|s: nat|
                                    cascade_reaches(
                                        cells0,
                                        protected,
                                        children@,
                                        depth,
                                        worklist@[t].0.id,
                                        worklist@[t].1,
                                        s,
                                    ));
                            } else {
                                assert(worklist@[t] == base[t]);
                                assert(base =~= worklist_prev.drop_last());
                                assert(base[t] == worklist_prev.drop_last()[t]);
                                assert(worklist_prev.drop_last()[t] == worklist_prev[t]);
                                assert(worklist@[t] == worklist_prev[t]);
                                assert(exists|s: nat|
                                    cascade_reaches(
                                        cells0,
                                        protected,
                                        children@,
                                        depth,
                                        worklist_prev[t].0.id,
                                        worklist_prev[t].1,
                                        s,
                                    ));
                                assert(exists|s: nat|
                                    cascade_reaches(
                                        cells0,
                                        protected,
                                        children@,
                                        depth,
                                        worklist@[t].0.id,
                                        worklist@[t].1,
                                        s,
                                    ));
                            }
                        }
                        // the newly visited node was written with its item's depth
                        assert forall|k: u64|
                            visited@.contains(k) && !protected.contains(k) implies cells0.contains_key(k)
                            && exists|dd: usize, s: nat|
                            cascade_reaches(cells0, protected, children@, depth, k, dd, s)
                                && now[k].current.spec_depth() == dd by {
                            if k == entity.id {
                                assert(cascade_reaches(cells0, protected, children@, depth, k, d, item_steps));
                                assert(now[k].current.spec_depth() == d);
                            } else {
                                assert(visited_here.contains(k));
                                assert(now[k] == cells_here[k]);
                            }
                        }
                        // seeds and children of visited nodes stay covered
                        assert forall|i2: int|
                            0 <= i2 < children@.len() && cells0.contains_key(children@[i2].id) implies covered(
                            children@[i2].id,
                            visited@,
                            worklist@,
                        ) by {
                            if children@[i2].id == entity.id {
                            } else {
                                reestablish_cover(
                                    children@[i2].id,
                                    visited_here,
                                    worklist_prev,
                                    worklist_prev.drop_last(),
                                    entity.id,
                                );
                                cover_grows(children@[i2].id, visited_here, visited@, worklist_prev.drop_last(), worklist@);
                            }
                        }
                        assert forall|u: u64, ci: int|
                            #![trigger visited@.contains(u), cells0[u].current.spec_children()[ci]]
                            visited@.contains(u) && !protected.contains(u) && cells0.contains_key(u)
                                && 0 <= ci < cells0[u].current.spec_children().len()
                                && cells0.contains_key(cells0[u].current.spec_children()[ci].id) implies covered(
                            cells0[u].current.spec_children()[ci].id,
                            visited@,
                            worklist@,
                        ) by {
                            let cid = cells0[u].current.spec_children()[ci].id;
                            if u == entity.id {
                                assert(worklist@[base.len() + ci].0.id == cid);
                            } else {
                                assert(visited_here.contains(u));
                                if cid == entity.id {
                                } else {
                                    reestablish_cover(cid, visited_here, worklist_prev, worklist_prev.drop_last(), entity.id);
                                    cover_grows(cid, visited_here, visited@, worklist_prev.drop_last(), worklist@);
                                }
                            }
                        }
                    }
                },
                None => {
                    proof {
                        assert(!dom0.contains(entity.id));
                        assert forall|i2: int|
                            0 <= i2 < children@.len() && cells0.contains_key(children@[i2].id) implies covered(
                            children@[i2].id,
                            visited@,
                            worklist@,
                        ) by {
                            assert(children@[i2].id != entity.id);
                            reestablish_cover(children@[i2].id, visited@, worklist_prev, worklist@, entity.id);
                        }
                        assert forall|u: u64, ci: int|
                            #![trigger visited@.contains(u), cells0[u].current.spec_children()[ci]]
                            visited@.contains(u) && !protected.contains(u) && cells0.contains_key(u)
                                && 0 <= ci < cells0[u].current.spec_children().len()
                                && cells0.contains_key(cells0[u].current.spec_children()[ci].id) implies covered(
                            cells0[u].current.spec_children()[ci].id,
                            visited@,
                            worklist@,
                        ) by {
                            assert(cells0[u].current.spec_children()[ci].id != entity.id);
                            reestablish_cover(
                                cells0[u].current.spec_children()[ci].id,
                                visited@,
                                worklist_prev,
                                worklist@,
                                entity.id,
                            );
                        }
                    }
                },
            }
        }
        proof {
            let now = component_manager.cells();
            // with the worklist drained, coverage means visited
            assert forall|k: u64|
                cells0.contains_key(k) && cascade_reachable(cells0, protected, children@, depth, k) implies exists|dd: usize, s: nat|
                cascade_reaches(cells0, protected, children@, depth, k, dd, s)
                    && now[k].current.spec_depth() == dd by {
                let (dd, s) = choose|dd: usize, s: nat|
                    cascade_reaches(cells0, protected, children@, depth, k, dd, s);
                assert forall|i2: int|
                    0 <= i2 < children@.len() && cells0.contains_key(#[trigger] children@[i2].id) implies visited@.contains(
                    children@[i2].id,
                ) by {
                    assert(covered(children@[i2].id, visited@, worklist@));
                }
                assert forall|u: u64, ci: int|
                    #![trigger visited@.contains(u), cells0[u].current.spec_children()[ci]]
                    visited@.contains(u) && !protected.contains(u) && cells0.contains_key(u) && 0
                        <= ci < cells0[u].current.spec_children().len() && cells0.contains_key(
                        cells0[u].current.spec_children()[ci].id,
                    ) implies visited@.contains(cells0[u].current.spec_children()[ci].id) by {
                    assert(covered(cells0[u].current.spec_children()[ci].id, visited@, worklist@));
                }
                lemma_walk_complete(cells0, protected, children@, depth, visited@, k, dd, s);
                assert(!protected.contains(k));
                assert(visited@.contains(k));
            }
            assert forall|k: u64|
                cells0.contains_key(k) && !cascade_reachable(cells0, protected, children@, depth, k) implies (
            #[trigger] now[k]) == cells0[k] by {
                if visited@.contains(k) {
                    if !protected.contains(k) {
                        let (dd, s) = choose|dd: usize, s: nat|
                            cascade_reaches(cells0, protected, children@, depth, k, dd, s)
                                && now[k].current.spec_depth() == dd;
                        assert(cascade_reachable(cells0, protected, children@, depth, k));
                    }
                }
            }
        }
    }
}

/// Whether `entities` holds `entity`, by linear scan.
fn contains_entity(entities: &Vec<Entity>, entity: &Entity) -> (present: bool)
    ensures
        present == entities@.contains(*entity),
{
    let n = entities.len();
    let mut i: usize = 0;
    while i < n
        invariant
            i <= n,
            n == entities@.len(),
            forall|j: int| 0 <= j < i ==> entities@[j] != *entity,
        decreases n - i,
    {
        if entities[i] == *entity {
            proof {
                assert(entities@[i as int] == *entity);
            }
            return true;
        }
        i += 1;
    }
    false
}

/// The position of the first occurrence of `entity`, if any.
fn position_of(entities: &Vec<Entity>, entity: &Entity) -> (position: Option<usize>)
    ensures
        match position {
            Some(i) => i < entities@.len() && entities@[i as int] == *entity,
            None => !entities@.contains(*entity),
        },
{
    let n = entities.len();
    let mut i: usize = 0;
    while i < n
        invariant
            i <= n,
            n == entities@.len(),
            forall|j: int| 0 <= j < i ==> entities@[j] != *entity,
        decreases n - i,
    {
        if entities[i] == *entity {
            return Some(i);
        }
        i += 1;
    }
    None
}

/// A copy of an entity list, element for element.
fn copy_entities(entities: &Vec<Entity>) -> (copy: Vec<Entity>)
    ensures
        copy@ == entities@,
{
    let n = entities.len();
    let mut out: Vec<Entity> = Vec::new();
    let mut i: usize = 0;
    proof {
        assert(entities@.take(0) =~= Seq::<Entity>::empty());
    }
    while i < n
        invariant
            i <= n,
            n == entities@.len(),
            out@ == entities@.take(i as int),
        decreases n - i,
    {
        out.push(entities[i]);
        proof {
            assert(entities@.take(i as int).push(entities@[i as int]) =~= entities@.take(
                i as int + 1,
            ));
        }
        i += 1;
    }
    proof {
        assert(entities@.take(n as int) =~= entities@);
    }
    out
}


} // verus!
