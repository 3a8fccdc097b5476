//! The state of a shortest-path search, what holds of it while the search
//! runs, and why each step keeps it so.
use vstd::prelude::*;
use std::collections::HashMap;
use vstd::std_specs::hash::spec_hash_map_len;
use crate::algorithms::pathfinding::{
    heuristic, is_walk, key, key_of, lemma_key_injective, lemma_step_weight_nonnegative,
    lemma_walk_weight_step, may_exclude, may_pass, models, passable_walk, step_weight,
    walk_weight,
};
use crate::direction::Direction;
use crate::hex::Hex;

verus! {

broadcast use vstd::std_specs::hash::group_hash_axioms;

/// An entry of the open set: a coordinate and the priority it was entered
/// with. The entry with the lowest priority leaves first.
pub(crate) struct Node {
    /// The coordinate that was reached
    pub(crate) coord: Hex,
    /// The priority at which it was reached when the entry was made
    pub(crate) cost: u128,
}

/// Sum of the priorities that `costs` holds for the hexagons of `order`.
pub(crate) open spec fn total(order: Seq<Hex>, costs: Map<u64, u128>) -> int
    decreases order.len(),
{
    if order.len() == 0 {
        0
    } else {
        total(order.drop_last(), costs) + costs[key_of(order.last())]
    }
}

/// A priority set for a hexagon outside `order` leaves the sum as it is.
pub(crate) proof fn lemma_total_unchanged(order: Seq<Hex>, costs: Map<u64, u128>, h: Hex, v: u128)
    requires
        !order.contains(h),
    ensures
        total(order, costs.insert(key_of(h), v)) == total(order, costs),
    decreases order.len(),
{
    if order.len() > 0 {
        let rest = order.drop_last();
        assert forall|x: Hex| rest.contains(x) implies order.contains(x) by {
            let i = choose|i: int| 0 <= i < rest.len() && rest[i] == x;
            assert(order[i] == x);
        }
        lemma_total_unchanged(rest, costs, h, v);
        assert(order.contains(order.last()));
        lemma_key_injective(order.last(), h);
    }
}

/// A new priority for a hexagon of `order` changes the sum by the
/// difference to the old one.
pub(crate) proof fn lemma_total_update(order: Seq<Hex>, costs: Map<u64, u128>, h: Hex, v: u128)
    requires
        order.no_duplicates(),
        order.contains(h),
    ensures
        total(order, costs.insert(key_of(h), v)) == total(order, costs) - costs[key_of(h)] + v,
    decreases order.len(),
{
    let rest = order.drop_last();
    if order.last() == h {
        assert(!rest.contains(h)) by {
            if rest.contains(h) {
                let i = choose|i: int| 0 <= i < rest.len() && rest[i] == h;
                assert(order[i] == order[order.len() - 1]);
            }
        }
        lemma_total_unchanged(rest, costs, h, v);
    } else {
        let i = choose|i: int| 0 <= i < order.len() && order[i] == h;
        assert(rest[i] == h);
        lemma_total_update(rest, costs, h, v);
        lemma_key_injective(order.last(), h);
    }
}

/// The sum of priorities is never negative.
pub(crate) proof fn lemma_total_nonnegative(order: Seq<Hex>, costs: Map<u64, u128>)
    ensures
        total(order, costs) >= 0,
    decreases order.len(),
{
    if order.len() > 0 {
        lemma_total_nonnegative(order.drop_last(), costs);
    }
}

/// Takes an entry with the lowest priority out of `open`.
pub(crate) fn pop_cheapest(open: &mut Vec<Node>) -> (node: Node)
    requires
        old(open).len() > 0,
    ensures
        final(open).len() == old(open).len() - 1,
        exists|i: int|
            0 <= i < old(open).len() && node == old(open)[i] && final(open)@ == old(open)@.update(
                i,
                old(open)@.last(),
            ).drop_last(),
        forall|i: int| 0 <= i < old(open).len() ==> node.cost <= (#[trigger] old(open)[i]).cost,
{
    let mut best: usize = 0;
    let mut i: usize = 1;
    while i < open.len()
        invariant
            0 <= best < i <= open.len(),
            forall|j: int| 0 <= j < i ==> open[best as int].cost <= (#[trigger] open[j]).cost,
        decreases open.len() - i,
    {
        if open[i].cost < open[best].cost {
            best = i;
        }
        i = i + 1;
    }
    open.swap_remove(best)
}

/// Largest amount by which one step can raise a priority: a step cost and
/// a distance to the start.
pub(crate) open spec fn step_max() -> int {
    0x3_0000_0000
}

/// A bound that no priority reaches.
pub(crate) open spec fn cost_limit() -> int {
    0x1_0000_0000_0000_0000_0000_0000_0000_0000int
}

/// The state of a search: the open set, the best priority known for each
/// coordinate that was reached, and the coordinate from which each was
/// reached at that priority.
pub(crate) struct Search {
    /// The entries that wait to be looked at
    pub(crate) open: Vec<Node>,
    /// The best priority known for each coordinate that was reached, by key
    pub(crate) costs: HashMap<u64, u128>,
    /// The coordinate from which each was reached at that priority, by key
    pub(crate) came_from: HashMap<u64, Hex>,
    /// The coordinates that were reached, in order of discovery
    pub(crate) order: Ghost<Seq<Hex>>,
    /// The coordinates all of whose neighbors were looked at
    pub(crate) closed: Ghost<Set<Hex>>,
}

impl Search {
    /// Whether `h` was reached.
    pub(crate) open spec fn found(&self, h: Hex) -> bool {
        self.costs@.contains_key(key_of(h))
    }

    /// The best priority known for `h`.
    pub(crate) open spec fn cost_of(&self, h: Hex) -> int {
        self.costs@[key_of(h)] as int
    }

    /// Whether the open set holds an entry for `h`.
    pub(crate) open spec fn in_open(&self, h: Hex) -> bool {
        exists|i: int| 0 <= i < self.open@.len() && (#[trigger] self.open@[i]).coord == h
    }

    /// Whether each neighbor of `h` was reached or may be left out.
    pub(crate) open spec fn expanded<F: Fn(Hex) -> Option<u32>>(&self, cost: F, h: Hex) -> bool {
        forall|m: Hex| #[trigger] h@.is_neighbor(m@) ==> self.found(m) || may_exclude(cost, m)
    }

    /// Whether the neighbor of `h` at position `e` of the six directions, if
    /// there is one, was reached or may be left out.
    pub(crate) open spec fn looked_at<F: Fn(Hex) -> Option<u32>>(
        &self,
        cost: F,
        h: Hex,
        e: int,
    ) -> bool {
        forall|m: Hex|
            #[trigger] m@ == h@.neighbor(Direction::spec_from_index(e)) ==> self.found(m)
                || may_exclude(cost, m)
    }

    /// Whether `h` was reached from a neighbor of lower priority, over a
    /// step that `cost` may allow.
    pub(crate) open spec fn linked<F: Fn(Hex) -> Option<u32>>(&self, cost: F, h: Hex) -> bool {
        &&& self.came_from@.contains_key(key_of(h))
        &&& self.found(self.came_from@[key_of(h)])
        &&& self.came_from@[key_of(h)]@.is_neighbor(h@)
        &&& self.cost_of(self.came_from@[key_of(h)]) < self.cost_of(h)
        &&& may_pass(cost, h)
    }

    /// What decreases with every entry that joins the open set.
    pub(crate) open spec fn potential(&self) -> int {
        cost_limit() * (usize::MAX - self.order@.len()) + total(self.order@, self.costs@)
    }

    /// What holds of a search from `start` for `end` while the neighbors of
    /// `pending`, if any, are being looked at.
    #[verifier::opaque]
    pub(crate) open spec fn inv<F: Fn(Hex) -> Option<u32>>(
        &self,
        cost: F,
        start: Hex,
        end: Hex,
        pending: Option<Hex>,
    ) -> bool {
        &&& self.order@.no_duplicates()
        &&& self.order@.len() <= usize::MAX
        &&& self.order@.len() == self.costs@.dom().len()
        &&& forall|h: Hex| self.order@.contains(h) <==> #[trigger] self.found(h)
        &&& self.found(start)
        &&& self.cost_of(start) == 0
        &&& !self.came_from@.contains_key(key_of(start))
        &&& forall|h: Hex| #[trigger] self.found(h) && h != start ==> self.linked(cost, h)
        &&& forall|h: Hex| #[trigger]
            self.found(h) ==> self.cost_of(h) <= step_max() * self.order@.len()
        &&& forall|i: int|
            0 <= i < self.open@.len() ==> self.found((#[trigger] self.open@[i]).coord)
        &&& forall|h: Hex| #[trigger]
            self.found(h) ==> self.closed@.contains(h) || self.in_open(h) || pending == Some(h)
        &&& forall|h: Hex| #[trigger]
            self.closed@.contains(h) ==> self.found(h) && h != end && self.expanded(cost, h)
    }

    /// Looks at the step from `from` to its neighbor `m`, for which `cost`
    /// gave the step cost `c`: where `m` was not reached before, or only at
    /// a higher priority, it is recorded as reached from `from` and joins
    /// the open set.
    pub(crate) fn relax<F: Fn(Hex) -> Option<u32>>(
        &mut self,
        cost: &F,
        start: Hex,
        end: Hex,
        from: Hex,
        m: Hex,
        c: u32,
    )
        requires
            old(self).inv(*cost, start, end, Some(from)),
            old(self).found(from),
            from@.is_neighbor(m@),
            call_ensures(*cost, (m,), Some(c)),
            forall|model: spec_fn(Hex) -> Option<u32>| #[trigger]
                models(*cost, model) ==> old(self).opt_inv(model, start, Some(from)),
        ensures
            final(self).inv(*cost, start, end, Some(from)),
            final(self).found(m),
            forall|h: Hex|
                old(self).found(h) ==> #[trigger] final(self).found(h) && final(self).cost_of(h)
                    <= old(self).cost_of(h),
            final(self).cost_of(from) == old(self).cost_of(from),
            final(self).potential() < old(self).potential() || (final(self).potential() == old(
                self,
            ).potential() && final(self).open@ == old(self).open@),
            forall|model: spec_fn(Hex) -> Option<u32>| #[trigger]
                models(*cost, model) ==> final(self).opt_inv(model, start, Some(from))
                    && final(self).cost_of(m) <= final(self).cost_of(from) + step_weight(
                    model,
                    start,
                    m,
                ),
    {
        proof {
            reveal(Search::inv);
            lemma_total_nonnegative(self.order@, self.costs@);
            assert(spec_hash_map_len(&self.costs) == self.costs@.len());
        }
        let base: u128 = *self.costs.get(&key(from)).unwrap();
        assert(base == self.cost_of(from));
        assert(base <= 0x3_0000_0000 * 0x1_0000_0000_0000_0000) by (nonlinear_arith)
            requires
                base <= step_max() * self.order@.len(),
                self.order@.len() <= usize::MAX,
                usize::MAX <= 0xffff_ffff_ffff_ffff,
        ;
        let priority: u128 = base + c as u128 + heuristic(m, start);
        proof {
            from@.lemma_distance_basics(m@);
        }
        let k = key(m);
        let better = match self.costs.get(&k) {
            None => true,
            Some(known) => *known > priority,
        };
        if better {
            let ghost before = *self;
            let ghost was_found = self.found(m);
            proof {
                assert(m != start) by {
                    if m == start {
                        assert(self.found(start));
                    }
                }
                m@.lemma_distance_basics(start@);
                assert(priority > base);
                assert(may_pass(*cost, m));
            }
            self.came_from.insert(k, from);
            self.costs.insert(k, priority);
            self.open.push(Node { coord: m, cost: priority });
            proof {
                if !was_found {
                    self.order@ = before.order@.push(m);
                }
                self.closed@ = before.closed@.remove(m);
                assert(spec_hash_map_len(&self.costs) == self.costs@.len());
                Self::lemma_relaxed(before, *self, *cost, start, end, from, m, priority);
                assert forall|model: spec_fn(Hex) -> Option<u32>| #[trigger]
                    models(*cost, model) implies self.opt_inv(model, start, Some(from)) by {
                    Self::lemma_opt_relaxed(
                        before,
                        *self,
                        *cost,
                        model,
                        start,
                        end,
                        from,
                        m,
                        priority,
                    );
                }
            }
        }
    }

    /// The facts that [`Search::relax`] rests on, once `m` was entered at
    /// the priority `priority`.
    pub(crate) proof fn lemma_relaxed<F: Fn(Hex) -> Option<u32>>(
        before: Search,
        after: Search,
        cost: F,
        start: Hex,
        end: Hex,
        from: Hex,
        m: Hex,
        priority: u128,
    )
        requires
            before.inv(cost, start, end, Some(from)),
            before.found(from),
            from@.is_neighbor(m@),
            may_pass(cost, m),
            m != start,
            m != from,
            before.found(m) ==> before.cost_of(m) > priority,
            priority > before.cost_of(from),
            priority <= before.cost_of(from) + step_max(),
            after.costs@ == before.costs@.insert(key_of(m), priority),
            after.came_from@ == before.came_from@.insert(key_of(m), from),
            after.open@ == before.open@.push(Node { coord: m, cost: priority }),
            after.closed@ == before.closed@.remove(m),
            after.order@ == if before.found(m) {
                before.order@
            } else {
                before.order@.push(m)
            },
            after.costs@.dom().len() <= usize::MAX,
        ensures
            after.inv(cost, start, end, Some(from)),
            after.found(m),
            after.cost_of(m) == priority,
            forall|h: Hex|
                before.found(h) ==> #[trigger] after.found(h) && after.cost_of(h) <= before.cost_of(
                    h,
                ),
            after.cost_of(from) == before.cost_of(from),
            after.potential() < before.potential(),
    {
        reveal(Search::inv);
        assert forall|h: Hex| h != m implies key_of(h) != key_of(m) by {
            lemma_key_injective(h, m);
        }
        assert forall|h: Hex| after.found(h) <==> (before.found(h) || h == m) by {
            lemma_key_injective(h, m);
        }
        assert forall|h: Hex| h != m && before.found(h) implies after.cost_of(h) == before.cost_of(
            h,
        ) by {
            lemma_key_injective(h, m);
        }
        assert(after.cost_of(m) == priority);
        // the order and the potential
        if before.found(m) {
            assert(before.order@.contains(m));
            lemma_total_update(before.order@, before.costs@, m, priority);
            assert(after.costs@.dom() =~= before.costs@.dom());
        } else {
            assert(!before.order@.contains(m));
            lemma_total_unchanged(before.order@, before.costs@, m, priority);
            assert(after.order@.drop_last() =~= before.order@);
            assert(after.order@.last() == m);
            assert(after.costs@.dom() =~= before.costs@.dom().insert(key_of(m)));
            assert(after.order@.no_duplicates()) by {
                assert forall|i: int, j: int|
                    0 <= i < after.order@.len() && 0 <= j < after.order@.len() && i
                        != j implies after.order@[i] != after.order@[j] by {
                    if i < before.order@.len() {
                        assert(before.order@.contains(before.order@[i]));
                    }
                    if j < before.order@.len() {
                        assert(before.order@.contains(before.order@[j]));
                    }
                }
            }
            assert(cost_limit() * (usize::MAX - after.order@.len()) == cost_limit() * (usize::MAX
                - before.order@.len()) - cost_limit()) by (nonlinear_arith)
                requires
                    after.order@.len() == before.order@.len() + 1,
            ;
        }
        assert forall|h: Hex| after.order@.contains(h) <==> #[trigger] after.found(h) by {
            if before.found(m) {
            } else {
                if after.order@.contains(h) {
                    let i = choose|i: int| 0 <= i < after.order@.len() && after.order@[i] == h;
                    if i < before.order@.len() {
                        assert(before.order@.contains(before.order@[i]));
                    }
                }
                if after.found(h) {
                    if h == m {
                        assert(after.order@[after.order@.len() - 1] == m);
                    } else {
                        assert(before.order@.contains(h));
                        let i = choose|i: int|
                            0 <= i < before.order@.len() && before.order@[i] == h;
                        assert(after.order@[i] == h);
                    }
                }
            }
        }
        // the links
        assert forall|h: Hex| #[trigger] after.found(h) && h != start implies after.linked(
            cost,
            h,
        ) by {
            if h == m {
                assert(after.came_from@[key_of(m)] == from);
                assert(after.found(from));
                assert(after.cost_of(from) == before.cost_of(from));
            } else {
                assert(before.found(h));
                assert(before.linked(cost, h));
                let parent = before.came_from@[key_of(h)];
                assert(after.came_from@[key_of(h)] == parent);
                assert(after.found(parent));
                if parent == m {
                    assert(after.cost_of(parent) <= before.cost_of(parent));
                } else {
                    assert(after.cost_of(parent) == before.cost_of(parent));
                }
            }
        }
        // the bound on the priorities
        assert forall|h: Hex| #[trigger] after.found(h) implies after.cost_of(h) <= step_max()
            * after.order@.len() by {
            let n = before.order@.len();
            assert(step_max() * (n + 1) == step_max() * n + step_max()) by (nonlinear_arith);
            assert(before.cost_of(from) <= step_max() * n);
            if h == m {
                if before.found(m) {
                    assert(before.cost_of(m) <= step_max() * n);
                }
            } else {
                assert(before.found(h));
                assert(before.cost_of(h) <= step_max() * n);
            }
        }
        // the open set
        assert forall|i: int| 0 <= i < after.open@.len() implies after.found(
            (#[trigger] after.open@[i]).coord,
        ) by {
            if i < before.open@.len() {
                assert(before.found(before.open@[i].coord));
            }
        }
        assert forall|h: Hex| #[trigger]
            after.found(h) implies after.closed@.contains(h) || after.in_open(h) || Some(from)
            == Some(h) by {
            if h == m {
                assert(after.open@[after.open@.len() - 1].coord == m);
            } else {
                assert(before.found(h));
                if before.in_open(h) {
                    let i = choose|i: int|
                        0 <= i < before.open@.len() && (#[trigger] before.open@[i]).coord == h;
                    assert(after.open@[i].coord == h);
                }
            }
        }
        assert forall|h: Hex| #[trigger]
            after.closed@.contains(h) implies after.found(h) && h != end && after.expanded(
            cost,
            h,
        ) by {
            assert(before.closed@.contains(h));
            assert(before.expanded(cost, h));
            assert forall|x: Hex| #[trigger] h@.is_neighbor(x@) implies after.found(x)
                || may_exclude(cost, x) by {
                assert(before.found(x) || may_exclude(cost, x));
            }
        }
    }
}

impl Search {
    /// A coordinate that was reached and is not the start was reached from
    /// a neighbor of lower priority, which was reached too.
    pub(crate) proof fn lemma_link<F: Fn(Hex) -> Option<u32>>(
        &self,
        cost: F,
        start: Hex,
        end: Hex,
        pending: Option<Hex>,
        h: Hex,
    )
        requires
            self.inv(cost, start, end, pending),
            self.found(h),
        ensures
            self.came_from@.contains_key(key_of(h)) <==> h != start,
            h != start ==> self.linked(cost, h),
            self.cost_of(start) == 0,
    {
        reveal(Search::inv);
    }

    /// With a cost function that `model` describes, the priority of a
    /// coordinate
    /// covers that of the coordinate it was reached from and the step.
    pub(crate) proof fn lemma_chained(
        &self,
        model: spec_fn(Hex) -> Option<u32>,
        start: Hex,
        pending: Option<Hex>,
        h: Hex,
    )
        requires
            self.opt_inv(model, start, pending),
            self.found(h),
            h != start,
        ensures
            self.chained(model, start, h),
    {
        reveal(Search::opt_inv);
    }

    /// A walk along which each priority covers the one before and the step
    /// weighs no more than the priority of its last coordinate.
    pub(crate) proof fn lemma_chain_weight(
        &self,
        model: spec_fn(Hex) -> Option<u32>,
        start: Hex,
        p: Seq<Hex>,
        j: int,
    )
        requires
            0 <= j < p.len(),
            self.cost_of(p[0]) >= 0,
            forall|i: int|
                1 <= i < p.len() ==> self.cost_of(#[trigger] p[i]) >= self.cost_of(p[i - 1])
                    + step_weight(model, start, p[i]),
        ensures
            walk_weight(model, start, p.take(j + 1)) <= self.cost_of(p[j]),
        decreases j,
    {
        if j > 0 {
            self.lemma_chain_weight(model, start, p, j - 1);
            lemma_walk_weight_step(model, start, p, j - 1);
        }
    }
}

impl Search {
    /// Whether the open set holds an entry for `h` at its best known
    /// priority.
    pub(crate) open spec fn entry_for(&self, h: Hex) -> bool {
        exists|i: int|
            0 <= i < self.open@.len() && (#[trigger] self.open@[i]).coord == h
                && self.open@[i].cost == self.cost_of(h)
    }

    /// Whether no passable walk from `start` reaches `h` at a lower
    /// priority than the best known one.
    pub(crate) open spec fn settled(
        &self,
        model: spec_fn(Hex) -> Option<u32>,
        start: Hex,
        h: Hex,
    ) -> bool {
        forall|q: Seq<Hex>| #[trigger]
            passable_walk(model, q, start, h) ==> self.cost_of(h) <= walk_weight(model, start, q)
    }

    /// Whether each passable neighbor of `h` was reached at no higher a
    /// priority than the step from `h` gives.
    pub(crate) open spec fn relaxed(
        &self,
        model: spec_fn(Hex) -> Option<u32>,
        start: Hex,
        h: Hex,
    ) -> bool {
        forall|v: Hex| #[trigger]
            h@.is_neighbor(v@) && model(v) is Some ==> self.found(v) && self.cost_of(v)
                <= self.cost_of(h) + step_weight(model, start, v)
    }

    /// Whether the neighbor of `h` at position `e` of the six directions,
    /// if there is one and it is passable, was reached at no higher a
    /// priority than the step from `h` gives.
    pub(crate) open spec fn relaxed_at(
        &self,
        model: spec_fn(Hex) -> Option<u32>,
        start: Hex,
        h: Hex,
        e: int,
    ) -> bool {
        forall|m: Hex|
            #[trigger] m@ == h@.neighbor(Direction::spec_from_index(e)) && model(m) is Some
                ==> self.found(m) && self.cost_of(m) <= self.cost_of(h) + step_weight(model,
                start,
                m,
            )
    }

    /// Whether [`Search::relaxed_at`] holds of the first `d` of the six
    /// directions.
    pub(crate) open spec fn relaxed_upto(
        &self,
        model: spec_fn(Hex) -> Option<u32>,
        start: Hex,
        h: Hex,
        d: int,
    ) -> bool {
        forall|e: int| 0 <= e < d ==> #[trigger] self.relaxed_at(model, start, h, e)
    }

    /// Whether the priority of `h` covers that of the coordinate it was
    /// reached from and the step.
    pub(crate) open spec fn chained(
        &self,
        model: spec_fn(Hex) -> Option<u32>,
        start: Hex,
        h: Hex,
    ) -> bool {
        self.cost_of(h) >= self.cost_of(self.came_from@[key_of(h)]) + step_weight(model, start, h)
    }

    /// What holds, beyond [`Search::inv`], of a search with a cost function
    /// whose every answer is that of `model`.
    #[verifier::opaque]
    pub(crate) open spec fn opt_inv(
        &self,
        model: spec_fn(Hex) -> Option<u32>,
        start: Hex,
        pending: Option<Hex>,
    ) -> bool {
        &&& forall|i: int|
            0 <= i < self.open@.len() ==> self.cost_of((#[trigger] self.open@[i]).coord)
                <= self.open@[i].cost
        &&& forall|h: Hex| #[trigger]
            self.found(h) ==> self.closed@.contains(h) || self.entry_for(h) || pending == Some(h)
        &&& forall|h: Hex| #[trigger]
            self.closed@.contains(h) ==> self.settled(model, start, h) && self.relaxed(model,
                start,
                h,
            )
        &&& forall|h: Hex| #[trigger] self.found(h) && h != start ==> self.chained(model, start, h)
    }

    /// Along a passable walk from `start`, as long as the coordinates are
    /// closed their priorities stay below the weight of the walk so far;
    /// and from the first one on that is not, that weight is at least the
    /// lowest priority in the open set.
    pub(crate) proof fn lemma_walk_bound<F: Fn(Hex) -> Option<u32>>(
        &self,
        cost: F,
        model: spec_fn(Hex) -> Option<u32>,
        start: Hex,
        end: Hex,
        q: Seq<Hex>,
        target: Hex,
        j: int,
        lowest: int,
    )
        requires
            self.inv(cost, start, end, None),
            self.opt_inv(model, start, None),
            passable_walk(model, q, start, target),
            0 <= j < q.len(),
            forall|i: int| 0 <= i < self.open@.len() ==> lowest <= (#[trigger] self.open@[i]).cost,
        ensures
            walk_weight(model, start, q.take(j + 1)) >= lowest || (self.closed@.contains(q[j])
                && self.cost_of(q[j]) <= walk_weight(model, start, q.take(j + 1))),
        decreases j,
    {
        reveal(Search::inv);
        reveal(Search::opt_inv);
        if j == 0 {
            assert(q[0] == start);
            assert(self.found(start));
            if !self.closed@.contains(start) {
                assert(self.entry_for(start));
            }
        } else {
            self.lemma_walk_bound(cost, model, start, end, q, target, j - 1, lowest);
            lemma_walk_weight_step(model, start, q, j - 1);
            lemma_step_weight_nonnegative(model, start, q[j]);
            if walk_weight(model, start, q.take(j)) >= lowest {
            } else {
                let x = q[j - 1];
                let y = q[j];
                assert(self.closed@.contains(x));
                assert(self.relaxed(model, start, x));
                assert(x@.is_neighbor(y@));
                assert(model(y) is Some);
                assert(self.found(y));
                if !self.closed@.contains(y) {
                    assert(self.entry_for(y));
                }
            }
        }
    }

    /// Once an entry of lowest priority has left the open set, no passable
    /// walk reaches its coordinate at a lower priority than the best known
    /// one.
    pub(crate) proof fn lemma_opt_popped<F: Fn(Hex) -> Option<u32>>(
        before: Search,
        after: Search,
        cost: F,
        model: spec_fn(Hex) -> Option<u32>,
        start: Hex,
        end: Hex,
        node: Node,
    )
        requires
            before.inv(cost, start, end, None),
            before.opt_inv(model, start, None),
            after.costs@ == before.costs@,
            after.came_from@ == before.came_from@,
            after.order@ == before.order@,
            after.closed@ == before.closed@,
            exists|i: int|
                0 <= i < before.open@.len() && node == before.open@[i] && after.open@
                    == before.open@.update(i, before.open@.last()).drop_last(),
            forall|i: int|
                0 <= i < before.open@.len() ==> node.cost <= (#[trigger] before.open@[i]).cost,
        ensures
            after.opt_inv(model, start, Some(node.coord)),
            after.settled(model, start, node.coord),
    {
        let current = node.coord;
        let idx = choose|i: int|
            0 <= i < before.open@.len() && node == before.open@[i] && after.open@
                == before.open@.update(i, before.open@.last()).drop_last();
        assert forall|q: Seq<Hex>| #[trigger]
            passable_walk(model, q, start, current) implies after.cost_of(current) <= walk_weight(model,
            start,
            q,
        ) by {
            before.lemma_walk_bound(cost, model, start, end, q, current, q.len() - 1, node.cost as int);
            assert(q.take(q.len() as int) =~= q);
            reveal(Search::opt_inv);
            assert(before.cost_of(before.open@[idx].coord) <= before.open@[idx].cost);
        }
        reveal(Search::opt_inv);
        assert forall|i: int| 0 <= i < after.open@.len() implies after.cost_of(
            (#[trigger] after.open@[i]).coord,
        ) <= after.open@[i].cost by {
            if i == idx {
                assert(before.cost_of(before.open@[before.open@.len() - 1].coord)
                    <= before.open@[before.open@.len() - 1].cost);
            } else {
                assert(before.cost_of(before.open@[i].coord) <= before.open@[i].cost);
            }
        }
        assert forall|h: Hex| #[trigger] after.found(h) implies after.closed@.contains(h)
            || after.entry_for(h) || Some(current) == Some(h) by {
            assert(before.found(h));
            if before.entry_for(h) && h != current {
                let i = choose|i: int|
                    0 <= i < before.open@.len() && (#[trigger] before.open@[i]).coord == h
                        && before.open@[i].cost == before.cost_of(h);
                assert(i != idx);
                if i == before.open@.len() - 1 {
                    assert(after.open@[idx].coord == h);
                } else {
                    assert(after.open@[i].coord == h);
                }
                assert(after.entry_for(h));
            }
        }
        assert forall|h: Hex| #[trigger] after.closed@.contains(h) implies after.settled(model,
            start,
            h,
        ) && after.relaxed(model, start, h) by {
            assert(before.settled(model, start, h) && before.relaxed(model, start, h));
            assert forall|v: Hex| #[trigger] h@.is_neighbor(v@) && model(v) is Some implies after.found(v) && after.cost_of(v) <= after.cost_of(h) + step_weight(model,
                start,
                v,
            ) by {
                assert(before.found(v));
            }
        }
        assert forall|h: Hex| #[trigger] after.found(h) && h != start implies after.chained(model,
            start,
            h,
        ) by {
            assert(before.found(h));
            assert(before.chained(model, start, h));
        }
    }

    /// Once every neighbor of the pending coordinate was looked at, the
    /// stronger invariant holds with that coordinate closed.
    pub(crate) proof fn lemma_opt_closed(
        before: Search,
        after: Search,
        model: spec_fn(Hex) -> Option<u32>,
        start: Hex,
        current: Hex,
    )
        requires
            before.opt_inv(model, start, Some(current)),
            before.settled(model, start, current),
            before.relaxed(model, start, current),
            after.costs@ == before.costs@,
            after.came_from@ == before.came_from@,
            after.open@ == before.open@,
            after.closed@ == before.closed@.insert(current),
        ensures
            after.opt_inv(model, start, None),
    {
        reveal(Search::opt_inv);
        assert forall|i: int| 0 <= i < after.open@.len() implies after.cost_of(
            (#[trigger] after.open@[i]).coord,
        ) <= after.open@[i].cost by {
            assert(before.cost_of(before.open@[i].coord) <= before.open@[i].cost);
        }
        assert forall|h: Hex| #[trigger] after.found(h) implies after.closed@.contains(h)
            || after.entry_for(h) || None::<Hex> == Some(h) by {
            assert(before.found(h));
            if before.entry_for(h) {
                let i = choose|i: int|
                    0 <= i < before.open@.len() && (#[trigger] before.open@[i]).coord == h
                        && before.open@[i].cost == before.cost_of(h);
                assert(after.open@[i].coord == h);
            }
        }
        assert forall|h: Hex| #[trigger] after.closed@.contains(h) implies after.settled(model,
            start,
            h,
        ) && after.relaxed(model, start, h) by {
            assert(before.settled(model, start, h) && before.relaxed(model, start, h)) by {
                if h != current {
                    assert(before.closed@.contains(h));
                }
            }
            assert forall|v: Hex| #[trigger] h@.is_neighbor(v@) && model(v) is Some implies after.found(v) && after.cost_of(v) <= after.cost_of(h) + step_weight(model,
                start,
                v,
            ) by {
                assert(before.found(v));
            }
        }
        assert forall|h: Hex| #[trigger] after.found(h) && h != start implies after.chained(model,
            start,
            h,
        ) by {
            assert(before.found(h));
            assert(before.chained(model, start, h));
        }
    }

    /// The stronger invariant after `m` was entered at the priority that
    /// the step from `from` gives.
    pub(crate) proof fn lemma_opt_relaxed<F: Fn(Hex) -> Option<u32>>(
        before: Search,
        after: Search,
        cost: F,
        model: spec_fn(Hex) -> Option<u32>,
        start: Hex,
        end: Hex,
        from: Hex,
        m: Hex,
        priority: u128,
    )
        requires
            before.inv(cost, start, end, Some(from)),
            before.opt_inv(model, start, Some(from)),
            before.found(from),
            m != start,
            m != from,
            before.found(m) ==> before.cost_of(m) > priority,
            priority == before.cost_of(from) + step_weight(model, start, m),
            after.costs@ == before.costs@.insert(key_of(m), priority),
            after.came_from@ == before.came_from@.insert(key_of(m), from),
            after.open@ == before.open@.push(Node { coord: m, cost: priority }),
            after.closed@ == before.closed@.remove(m),
        ensures
            after.opt_inv(model, start, Some(from)),
    {
        reveal(Search::inv);
        reveal(Search::opt_inv);
        assert forall|h: Hex| h != m implies key_of(h) != key_of(m) by {
            lemma_key_injective(h, m);
        }
        assert forall|h: Hex| after.found(h) <==> (before.found(h) || h == m) by {
            lemma_key_injective(h, m);
        }
        assert forall|h: Hex| h != m && before.found(h) implies after.cost_of(h) == before.cost_of(
            h,
        ) by {
            lemma_key_injective(h, m);
        }
        assert(after.cost_of(m) == priority);
        assert forall|i: int| 0 <= i < after.open@.len() implies after.cost_of(
            (#[trigger] after.open@[i]).coord,
        ) <= after.open@[i].cost by {
            if i < before.open@.len() {
                assert(before.found(before.open@[i].coord));
                assert(before.cost_of(before.open@[i].coord) <= before.open@[i].cost);
                assert(after.open@[i] == before.open@[i]);
            }
        }
        assert forall|h: Hex| #[trigger] after.found(h) implies after.closed@.contains(h)
            || after.entry_for(h) || Some(from) == Some(h) by {
            if h == m {
                assert(after.open@[after.open@.len() - 1].coord == m);
            } else {
                assert(before.found(h));
                if before.entry_for(h) {
                    let i = choose|i: int|
                        0 <= i < before.open@.len() && (#[trigger] before.open@[i]).coord == h
                            && before.open@[i].cost == before.cost_of(h);
                    assert(after.open@[i].coord == h);
                    assert(after.entry_for(h));
                }
            }
        }
        assert forall|h: Hex| #[trigger] after.closed@.contains(h) implies after.settled(model,
            start,
            h,
        ) && after.relaxed(model, start, h) by {
            assert(before.closed@.contains(h));
            assert(h != m);
            assert(before.found(h));
            assert(before.settled(model, start, h) && before.relaxed(model, start, h));
            assert forall|v: Hex| #[trigger] h@.is_neighbor(v@) && model(v) is Some implies after.found(v) && after.cost_of(v) <= after.cost_of(h) + step_weight(model,
                start,
                v,
            ) by {
                assert(before.found(v));
            }
        }
        assert forall|h: Hex| #[trigger] after.found(h) && h != start implies after.chained(model,
            start,
            h,
        ) by {
            if h == m {
                assert(after.came_from@[key_of(m)] == from);
            } else {
                assert(before.found(h));
                assert(before.chained(model, start, h));
                assert(after.came_from@[key_of(h)] == before.came_from@[key_of(h)]);
            }
        }
    }
}

impl Search {
    /// The invariant for another pending coordinate, where every reached
    /// coordinate is closed, in the open set or the new pending one.
    pub(crate) proof fn lemma_inv_moves<F: Fn(Hex) -> Option<u32>>(
        before: Search,
        after: Search,
        cost: F,
        start: Hex,
        end: Hex,
        was: Option<Hex>,
        now: Option<Hex>,
    )
        requires
            before.inv(cost, start, end, was),
            after.costs@ == before.costs@,
            after.came_from@ == before.came_from@,
            after.order@ == before.order@,
            forall|i: int|
                0 <= i < after.open@.len() ==> after.found((#[trigger] after.open@[i]).coord),
            forall|h: Hex| #[trigger]
                after.found(h) ==> after.closed@.contains(h) || after.in_open(h) || now == Some(h),
            forall|h: Hex| #[trigger]
                after.closed@.contains(h) ==> before.closed@.contains(h) || (after.found(h) && h
                    != end && after.expanded(cost, h)),
        ensures
            after.inv(cost, start, end, now),
            after.potential() == before.potential(),
    {
        reveal(Search::inv);
        assert forall|h: Hex| #[trigger] after.found(h) && h != start implies after.linked(
            cost,
            h,
        ) by {
            assert(before.found(h));
            assert(before.linked(cost, h));
        }
        assert forall|h: Hex| #[trigger] after.found(h) implies after.cost_of(h) <= step_max()
            * after.order@.len() by {
            assert(before.found(h));
        }
        assert forall|h: Hex| after.order@.contains(h) <==> #[trigger] after.found(h) by {
            assert(before.order@.contains(h) <==> before.found(h));
        }
        assert forall|h: Hex| #[trigger]
            after.closed@.contains(h) implies after.found(h) && h != end && after.expanded(
            cost,
            h,
        ) by {
            if before.closed@.contains(h) {
                assert(before.found(h) && before.expanded(cost, h));
                assert forall|x: Hex| #[trigger] h@.is_neighbor(x@) implies after.found(x)
                    || may_exclude(cost, x) by {
                    assert(before.found(x) || may_exclude(cost, x));
                }
            }
        }
    }

    /// The potential never falls below zero.
    pub(crate) proof fn lemma_potential_nonnegative<F: Fn(Hex) -> Option<u32>>(
        &self,
        cost: F,
        start: Hex,
        end: Hex,
        pending: Option<Hex>,
    )
        requires
            self.inv(cost, start, end, pending),
        ensures
            self.potential() >= 0,
    {
        reveal(Search::inv);
        lemma_total_nonnegative(self.order@, self.costs@);
        assert(cost_limit() * (usize::MAX - self.order@.len()) >= 0) by (nonlinear_arith)
            requires
                self.order@.len() <= usize::MAX,
                cost_limit() >= 0,
        ;
    }

    /// Once the entry `node` has left the open set, the invariant holds with
    /// its coordinate pending.
    pub(crate) proof fn lemma_popped<F: Fn(Hex) -> Option<u32>>(
        before: Search,
        after: Search,
        cost: F,
        start: Hex,
        end: Hex,
        node: Node,
    )
        requires
            before.inv(cost, start, end, None),
            after.costs@ == before.costs@,
            after.came_from@ == before.came_from@,
            after.order@ == before.order@,
            after.closed@ == before.closed@,
            exists|i: int|
                0 <= i < before.open@.len() && node == before.open@[i] && after.open@
                    == before.open@.update(i, before.open@.last()).drop_last(),
        ensures
            after.inv(cost, start, end, Some(node.coord)),
            after.found(node.coord),
            after.potential() == before.potential(),
    {
        reveal(Search::inv);
        let current = node.coord;
        let idx = choose|i: int|
            0 <= i < before.open@.len() && node == before.open@[i] && after.open@
                == before.open@.update(i, before.open@.last()).drop_last();
        assert(before.found(before.open@[idx].coord));
        assert forall|h: Hex| #[trigger] after.found(h) implies after.closed@.contains(h)
            || after.in_open(h) || Some(current) == Some(h) by {
            assert(before.found(h));
            assert(before.closed@.contains(h) || before.in_open(h));
            if before.in_open(h) && h != current {
                let i = choose|i: int|
                    0 <= i < before.open@.len() && (#[trigger] before.open@[i]).coord == h;
                assert(i != idx);
                if i == before.open@.len() - 1 {
                    assert(after.open@[idx].coord == h);
                } else {
                    assert(after.open@[i].coord == h);
                }
                assert(after.in_open(h));
            }
        }
        assert forall|i: int| 0 <= i < after.open@.len() implies after.found(
            (#[trigger] after.open@[i]).coord,
        ) by {
            if i == idx {
                assert(before.found(before.open@[before.open@.len() - 1].coord));
            } else {
                assert(before.found(before.open@[i].coord));
            }
        }
        Search::lemma_inv_moves(before, after, cost, start, end, None, Some(current));
    }

    /// Once every neighbor of the pending coordinate was looked at, the
    /// invariant holds with that coordinate closed and none pending.
    pub(crate) proof fn lemma_closed<F: Fn(Hex) -> Option<u32>>(
        before: Search,
        after: Search,
        cost: F,
        start: Hex,
        end: Hex,
        current: Hex,
    )
        requires
            before.inv(cost, start, end, Some(current)),
            before.found(current),
            current != end,
            after.costs@ == before.costs@,
            after.came_from@ == before.came_from@,
            after.order@ == before.order@,
            after.open@ == before.open@,
            after.closed@ == before.closed@.insert(current),
            after.expanded(cost, current),
        ensures
            after.inv(cost, start, end, None),
            after.potential() == before.potential(),
    {
        reveal(Search::inv);
        assert forall|h: Hex| #[trigger] after.found(h) implies after.closed@.contains(h)
            || after.in_open(h) || None::<Hex> == Some(h) by {
            assert(before.found(h));
            if before.in_open(h) {
                let i = choose|i: int|
                    0 <= i < before.open@.len() && (#[trigger] before.open@[i]).coord == h;
                assert(after.open@[i].coord == h);
            }
        }
        assert forall|i: int| 0 <= i < after.open@.len() implies after.found(
            (#[trigger] after.open@[i]).coord,
        ) by {
            assert(before.found(before.open@[i].coord));
        }
        Search::lemma_inv_moves(before, after, cost, start, end, Some(current), None);
    }

    /// A search whose open set is empty has closed every coordinate it
    /// reached, and `end` is not among them: every walk from `start` to
    /// `end` then passes a coordinate that `cost` may leave out.
    pub(crate) proof fn lemma_exhausted<F: Fn(Hex) -> Option<u32>>(
        &self,
        cost: F,
        start: Hex,
        end: Hex,
        p: Seq<Hex>,
        upto: int,
    )
        requires
            self.inv(cost, start, end, None),
            self.open@.len() == 0,
            is_walk(p, start, end),
            0 <= upto < p.len(),
            forall|i: int| 1 <= i <= upto ==> !may_exclude(cost, #[trigger] p[i]),
        ensures
            self.closed@.contains(p[upto]),
        decreases upto,
    {
        reveal(Search::inv);
        if upto == 0 {
            assert(self.found(start));
            assert(!self.in_open(start));
        } else {
            self.lemma_exhausted(cost, start, end, p, upto - 1);
            let h = p[upto - 1];
            assert(self.closed@.contains(h));
            assert(self.expanded(cost, h));
            assert(h@.is_neighbor(p[upto]@));
            assert(self.found(p[upto]));
            assert(!self.in_open(p[upto]));
        }
    }
}

} // verus!
