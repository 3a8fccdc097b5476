//! Shortest-path search between two hexagons.
use vstd::prelude::*;
use std::collections::HashMap;
use crate::algorithms::search::{pop_cheapest, Node, Search};
use crate::direction::Direction;
use crate::hex::{hex_of, Hex};
use crate::line::{
    lemma_line_ends, lemma_line_point_between, lemma_line_point_distance, lemma_line_step,
    line_point, line_seq,
};

verus! {

broadcast use vstd::std_specs::hash::group_hash_axioms;

/// Whether `cost` may give a step cost for `h`, so that `h` can be walked
/// on.
pub open spec fn may_pass<F: Fn(Hex) -> Option<u32>>(cost: F, h: Hex) -> bool {
    exists|c: u32| call_ensures(cost, (h,), Some(c))
}

/// Whether `cost` may leave `h` out of the search.
pub open spec fn may_exclude<F: Fn(Hex) -> Option<u32>>(cost: F, h: Hex) -> bool {
    call_ensures(cost, (h,), None)
}

/// Whether `p` leads from `start` to `end` by steps between neighbors.
pub open spec fn is_walk(p: Seq<Hex>, start: Hex, end: Hex) -> bool {
    &&& p.len() >= 1
    &&& p.first() == start
    &&& p.last() == end
    &&& forall|i: int| 0 <= i < p.len() - 1 ==> (#[trigger] p[i])@.is_neighbor(p[i + 1]@)
}

/// Whether every answer that `cost` can give is the one that `model`
/// gives: `model` then says what the cost function is.
pub open spec fn models<F: Fn(Hex) -> Option<u32>>(
    cost: F,
    model: spec_fn(Hex) -> Option<u32>,
) -> bool {
    forall|h: Hex, r: Option<u32>| call_ensures(cost, (h,), r) ==> r == model(h)
}

/// Whether `p` leads from `start` to `end` by steps between neighbors, each
/// onto a coordinate that `model` gives a step cost for.
pub open spec fn passable_walk(
    model: spec_fn(Hex) -> Option<u32>,
    p: Seq<Hex>,
    start: Hex,
    end: Hex,
) -> bool {
    &&& is_walk(p, start, end)
    &&& forall|i: int| 1 <= i < p.len() ==> model(#[trigger] p[i]) is Some
}

/// What a step onto `h` adds to the priority: the step cost that `model`
/// gives for `h`, and the distance of `h` to `start`.
pub open spec fn step_weight(model: spec_fn(Hex) -> Option<u32>, start: Hex, h: Hex) -> int {
    (match model(h) {
        Some(c) => c as int,
        None => 0,
    }) + h@.distance(start@)
}

/// The priority at which the walk `p` from `start` reaches its last
/// coordinate: the sum of the weights of its steps.
pub open spec fn walk_weight(model: spec_fn(Hex) -> Option<u32>, start: Hex, p: Seq<Hex>) -> int
    decreases p.len(),
{
    if p.len() <= 1 {
        0
    } else {
        walk_weight(model, start, p.drop_last()) + step_weight(model, start, p.last())
    }
}

/// The weight of a step is never negative.
pub(crate) proof fn lemma_step_weight_nonnegative(
    model: spec_fn(Hex) -> Option<u32>,
    start: Hex,
    h: Hex,
)
    ensures
        step_weight(model, start, h) >= 0,
{
    h@.lemma_distance_basics(start@);
}

/// One more step adds its weight to the weight of a walk.
pub(crate) proof fn lemma_walk_weight_step(
    model: spec_fn(Hex) -> Option<u32>,
    start: Hex,
    p: Seq<Hex>,
    j: int,
)
    requires
        0 <= j < p.len() - 1,
    ensures
        walk_weight(model, start, p.take(j + 2)) == walk_weight(model, start, p.take(j + 1))
            + step_weight(model, start, p[j + 1]),
{
    assert(p.take(j + 2).drop_last() =~= p.take(j + 1));
}

/// Whether `p` is a passable walk from `start` to `end` that weighs no
/// more than any other.
pub open spec fn least_walk(
    model: spec_fn(Hex) -> Option<u32>,
    p: Seq<Hex>,
    start: Hex,
    end: Hex,
) -> bool {
    &&& passable_walk(model, p, start, end)
    &&& forall|q: Seq<Hex>| #[trigger]
        passable_walk(model, q, start, end) ==> walk_weight(model, start, p) <= walk_weight(
            model,
            start,
            q,
        )
}

/// The number that stands for `h` as a key of the search's maps: each
/// hexagon has its own.
pub open spec fn key_of(h: Hex) -> u64 {
    ((h.x - i32::MIN) * 0x1_0000_0000 + (h.y - i32::MIN)) as u64
}

/// Different hexagons have different keys.
pub(crate) proof fn lemma_key_injective(a: Hex, b: Hex)
    ensures
        key_of(a) == key_of(b) ==> a == b,
{
}

/// The key of `h`.
pub(crate) fn key(h: Hex) -> (k: u64)
    ensures
        k == key_of(h),
{
    let x: u64 = (h.x as i64 - i32::MIN as i64) as u64;
    let y: u64 = (h.y as i64 - i32::MIN as i64) as u64;
    x * 0x1_0000_0000 + y
}

/// Number of steps between neighbors from `h` to `start`.
pub(crate) fn heuristic(h: Hex, start: Hex) -> (r: u128)
    ensures
        r == h@.distance(start@),
        r <= 0x2_0000_0000,
{
    let x: i64 = h.x as i64 - start.x as i64;
    let y: i64 = h.y as i64 - start.y as i64;
    let ax: i64 = if x < 0 { -x } else { x };
    let ay: i64 = if y < 0 { -y } else { y };
    let az: i64 = if x + y < 0 { -(x + y) } else { x + y };
    let m: i64 = if ay >= az { ay } else { az };
    let l: i64 = if ax >= m { ax } else { m };
    l as u128
}

/// The way from `start` to `end` that the search has recorded: from `end`
/// back along the coordinates from which each was reached, then turned
/// round.
fn reconstruct_path<F: Fn(Hex) -> Option<u32>>(
    search: &Search,
    cost: &F,
    start: Hex,
    end: Hex,
    pending: Ghost<Option<Hex>>,
) -> (path: Vec<Hex>)
    requires
        search.inv(*cost, start, end, pending@),
        search.found(end),
        forall|model: spec_fn(Hex) -> Option<u32>| #[trigger]
            models(*cost, model) ==> search.opt_inv(model, start, pending@),
    ensures
        is_walk(path@, start, end),
        path@.no_duplicates(),
        forall|i: int| 1 <= i < path@.len() ==> may_pass(*cost, #[trigger] path@[i]),
        forall|model: spec_fn(Hex) -> Option<u32>| #[trigger]
            models(*cost, model) ==> walk_weight(model, start, path@) <= search.cost_of(end),
{
    let mut back: Vec<Hex> = Vec::new();
    let mut current = end;
    back.push(end);
    loop
        invariant_except_break
            search.inv(*cost, start, end, pending@),
            back@.len() >= 1,
            back@.first() == end,
            back@.last() == current,
            forall|i: int| 0 <= i < back@.len() ==> search.found(#[trigger] back@[i]),
            forall|i: int|
                0 <= i < back@.len() - 1 ==> back@[i + 1]@.is_neighbor((#[trigger] back@[i])@)
                    && may_pass(*cost, back@[i]),
            forall|i: int, j: int|
                0 <= i < j < back@.len() ==> search.cost_of(#[trigger] back@[i]) > search.cost_of(
                    #[trigger] back@[j],
                ),
            forall|model: spec_fn(Hex) -> Option<u32>| #[trigger]
                models(*cost, model) ==> search.opt_inv(model, start, pending@),
            forall|i: int|
                0 <= i < back@.len() - 1 ==> #[trigger] search.came_from@[key_of(back@[i])]
                    == back@[i + 1],
        ensures
            back@.len() >= 1,
            back@.first() == end,
            back@.last() == start,
            search.cost_of(start) == 0,
            forall|i: int| 0 <= i < back@.len() ==> search.found(#[trigger] back@[i]),
            forall|i: int|
                0 <= i < back@.len() - 1 ==> #[trigger] search.came_from@[key_of(back@[i])]
                    == back@[i + 1],
            forall|i: int|
                0 <= i < back@.len() - 1 ==> back@[i + 1]@.is_neighbor((#[trigger] back@[i])@)
                    && may_pass(*cost, back@[i]),
            forall|i: int, j: int|
                0 <= i < j < back@.len() ==> search.cost_of(#[trigger] back@[i]) > search.cost_of(
                    #[trigger] back@[j],
                ),
        decreases search.cost_of(current),
    {
        let previous = match search.came_from.get(&key(current)) {
            Some(previous) => *previous,
            None => {
                proof {
                    search.lemma_link(*cost, start, end, pending@, current);
                }
                break ;
            },
        };
        proof {
            search.lemma_link(*cost, start, end, pending@, current);
        }
        current = previous;
        back.push(previous);
    }
    let mut path: Vec<Hex> = Vec::new();
    let mut i: usize = back.len();
    while i > 0
        invariant
            0 <= i <= back@.len(),
            path@.len() == back@.len() - i,
            forall|j: int|
                0 <= j < path@.len() ==> #[trigger] path@[j] == back@[back@.len() - 1 - j],
        decreases i,
    {
        i = i - 1;
        path.push(back[i]);
    }
    proof {
        let n = back@.len() as int;
        assert forall|j: int| 0 <= j < path@.len() - 1 implies (#[trigger] path@[j])@.is_neighbor(
            path@[j + 1]@,
        ) by {
            assert(path@[j + 1] == back@[n - 2 - j]);
            assert(back@[(n - 2 - j) + 1]@.is_neighbor(back@[n - 2 - j]@));
        }
        assert forall|j: int| 1 <= j < path@.len() implies may_pass(*cost, #[trigger] path@[j]) by {
            assert(may_pass(*cost, back@[n - 1 - j]));
        }
        assert forall|model: spec_fn(Hex) -> Option<u32>| #[trigger]
            models(*cost, model) implies walk_weight(model, start, path@) <= search.cost_of(
            end,
        ) by {
            assert forall|j: int| 1 <= j < path@.len() implies search.cost_of(#[trigger] path@[j])
                >= search.cost_of(path@[j - 1]) + step_weight(model, start, path@[j]) by {
                let h = back@[n - 1 - j];
                assert(search.found(h));
                assert(search.came_from@[key_of(h)] == back@[(n - 1 - j) + 1]);
                assert(h != start) by {
                    if h == start {
                        assert(search.cost_of(back@[n - 1 - j]) > search.cost_of(back@[n - 1]));
                    }
                }
                search.lemma_chained(model, start, pending@, h);
            }
            search.lemma_chain_weight(model, start, path@, path@.len() - 1);
            assert(path@.take(path@.len() as int) =~= path@);
        }
        assert forall|a: int, b: int| 0 <= a < path@.len() && 0 <= b < path@.len() && a
            != b implies path@[a] != path@[b] by {
            if a < b {
                assert(search.cost_of(back@[n - 1 - b]) > search.cost_of(back@[n - 1 - a]));
            } else {
                assert(search.cost_of(back@[n - 1 - a]) > search.cost_of(back@[n - 1 - b]));
            }
        }
    }
    path
}

/// Searches for a way of least total priority from `start` to `end` over
/// steps between neighbors.
///
/// `cost` gives the cost of a step onto a coordinate, or `None` for a
/// coordinate that is left out of the search. The priority of a coordinate
/// is the priority of the one it is reached from, plus its step cost, plus
/// its distance to `start`; the coordinate of lowest priority is looked at
/// next. The search ends with the way to `end` once `end` is the
/// coordinate of lowest priority, and with `None` once nothing is left to
/// look at. The coordinates are those of `i32`; a search that `cost` does
/// not confine walks all of them before it gives up.
///
/// Whatever `cost` answers, a way that is returned is a walk without
/// repetition over coordinates for which `cost` gave a step cost, and
/// `None` is returned only where every walk leads over a coordinate that
/// `cost` left out. Where `cost` is a function, described by a `model`, the
/// result is a passable walk of least weight if there is a passable walk,
/// and `None` if there is none.
pub fn a_star<F: Fn(Hex) -> Option<u32>>(start: Hex, end: Hex, cost: F) -> (res: Option<Vec<Hex>>)
    requires
        forall|h: Hex| call_requires(cost, (h,)),
    ensures
        res matches Some(path) ==> {
            &&& is_walk(path@, start, end)
            &&& path@.no_duplicates()
            &&& forall|i: int| 1 <= i < path@.len() ==> may_pass(cost, #[trigger] path@[i])
        },
        res is None ==> forall|p: Seq<Hex>| #[trigger]
            is_walk(p, start, end) ==> exists|i: int|
                1 <= i < p.len() && may_exclude(cost, #[trigger] p[i]),
        start == end ==> res is Some,
        start != end && !may_pass(cost, end) ==> res is None,
        forall|model: spec_fn(Hex) -> Option<u32>| #[trigger]
            models(cost, model) ==> match res {
                Some(path) => least_walk(model, path@, start, end),
                None => forall|q: Seq<Hex>| !passable_walk(model, q, start, end),
            },
{
    let mut search = Search {
        open: Vec::new(),
        costs: HashMap::new(),
        came_from: HashMap::new(),
        order: Ghost(Seq::empty()),
        closed: Ghost(Set::empty()),
    };
    search.costs.insert(key(start), 0);
    search.open.push(Node { coord: start, cost: 0 });
    proof {
        search.order@ = seq![start];
        reveal(Search::inv);
        assert(search.costs@.dom() =~= set![key_of(start)]);
        assert forall|h: Hex| search.order@.contains(h) <==> #[trigger] search.found(h) by {
            lemma_key_injective(h, start);
            if h == start {
                assert(search.order@[0] == start);
            }
        }
        assert forall|h: Hex| #[trigger] search.found(h) implies search.closed@.contains(h)
            || search.in_open(h) || None::<Hex> == Some(h) by {
            lemma_key_injective(h, start);
            assert(search.open@[0].coord == start);
        }
        assert forall|h: Hex| #[trigger] search.found(h) && h != start implies search.linked(
            cost,
            h,
        ) by {
            lemma_key_injective(h, start);
        }
        assert(search.inv(cost, start, end, None));
        assert forall|model: spec_fn(Hex) -> Option<u32>| #[trigger]
            models(cost, model) implies search.opt_inv(model, start, None) by {
            reveal(Search::opt_inv);
            assert forall|h: Hex| #[trigger] search.found(h) implies search.closed@.contains(h)
                || search.entry_for(h) || None::<Hex> == Some(h) by {
                lemma_key_injective(h, start);
                assert(search.open@[0].coord == start);
            }
            assert forall|h: Hex| #[trigger] search.found(h) && h != start implies search.chained(
                model,
                start,
                h,
            ) by {
                lemma_key_injective(h, start);
            }
        }
    }
    while search.open.len() > 0
        invariant
            search.inv(cost, start, end, None),
            forall|model: spec_fn(Hex) -> Option<u32>| #[trigger]
                models(cost, model) ==> search.opt_inv(model, start, None),
            forall|h: Hex| call_requires(cost, (h,)),
        decreases search.potential(), search.open@.len(),
    {
        let ghost before = search;
        let node = pop_cheapest(&mut search.open);
        let current = node.coord;
        proof {
            Search::lemma_popped(before, search, cost, start, end, node);
            assert forall|model: spec_fn(Hex) -> Option<u32>| #[trigger]
                models(cost, model) implies search.opt_inv(model, start, Some(current))
                && search.settled(model, start, current) by {
                Search::lemma_opt_popped(before, search, cost, model, start, end, node);
            }
        }
        if current == end {
            let path = reconstruct_path(&search, &cost, start, end, Ghost(Some(current)));
            proof {
                if start != end {
                    assert(path@.len() >= 2);
                    assert(may_pass(cost, path@[path@.len() - 1]));
                }
                assert forall|model: spec_fn(Hex) -> Option<u32>| #[trigger]
                    models(cost, model) implies least_walk(model, path@, start, end) by {
                    assert(search.settled(model, start, end));
                    assert forall|i: int| 1 <= i < path@.len() implies model(
                        #[trigger] path@[i],
                    ) is Some by {
                        assert(may_pass(cost, path@[i]));
                    }
                }
            }
            return Some(path);
        }
        let ghost popped = search;
        let mut d: u8 = 0;
        while d < 6
            invariant
                0 <= d <= 6,
                current != end,
                forall|h: Hex| call_requires(cost, (h,)),
                search.inv(cost, start, end, Some(current)),
                search.found(current),
                search.potential() < popped.potential() || (search.potential()
                    == popped.potential() && search.open@ == popped.open@),
                forall|e: int| 0 <= e < d ==> #[trigger] search.looked_at(cost, current, e),
                forall|model: spec_fn(Hex) -> Option<u32>| #[trigger]
                    models(cost, model) ==> search.opt_inv(model, start, Some(current))
                        && search.settled(model, start, current) && search.relaxed_upto(
                        model,
                        start,
                        current,
                        d as int,
                    ),
            decreases 6 - d,
        {
            let step = Hex::neighbor_coord(Direction::from_index(d));
            let x: i64 = current.x as i64 + step.x as i64;
            let y: i64 = current.y as i64 + step.y as i64;
            let ghost entered = search;
            if -0x8000_0000 <= x && x <= 0x7fff_ffff && -0x8000_0000 <= y && y <= 0x7fff_ffff {
                let m = Hex { x: x as i32, y: y as i32 };
                assert(m@ == current@.neighbor(Direction::spec_from_index(d as int)));
                proof {
                    current@.lemma_neighbors_at_distance_one(m@);
                }
                match cost(m) {
                    Some(c) => {
                        search.relax(&cost, start, end, current, m, c);
                    },
                    None => {},
                }
            }
            proof {
                assert forall|e: int| 0 <= e < d + 1 implies #[trigger] search.looked_at(
                    cost,
                    current,
                    e,
                ) by {
                    if e < d {
                        assert(entered.looked_at(cost, current, e));
                    }
                }
                assert forall|model: spec_fn(Hex) -> Option<u32>| #[trigger]
                    models(cost, model) implies search.opt_inv(model, start, Some(current))
                    && search.settled(model, start, current) && search.relaxed_upto(
                    model,
                    start,
                    current,
                    d + 1,
                ) by {
                    assert(entered.settled(model, start, current));
                    assert(entered.relaxed_upto(model, start, current, d as int));
                    assert forall|e: int| 0 <= e < d + 1 implies #[trigger] search.relaxed_at(
                        model,
                        start,
                        current,
                        e,
                    ) by {
                        if e < d {
                            assert(entered.relaxed_at(model, start, current, e));
                        }
                    }
                }
            }
            d = d + 1;
        }
        let ghost expanded = search;
        proof {
            assert(expanded.expanded(cost, current)) by {
                assert forall|m: Hex| #[trigger] current@.is_neighbor(m@) implies expanded.found(m)
                    || may_exclude(cost, m) by {
                    current@.lemma_neighbors_at_distance_one(m@);
                    let dir = choose|dir: Direction| m@ == #[trigger] current@.neighbor(dir);
                    assert(Direction::spec_from_index(dir.spec_index()) == dir);
                    assert(expanded.looked_at(cost, current, dir.spec_index()));
                }
            }
            search.closed@ = search.closed@.insert(current);
            assert(search.expanded(cost, current)) by {
                assert forall|m: Hex| #[trigger] current@.is_neighbor(m@) implies search.found(m)
                    || may_exclude(cost, m) by {
                    assert(expanded.found(m) || may_exclude(cost, m));
                }
            }
            Search::lemma_closed(expanded, search, cost, start, end, current);
            search.lemma_potential_nonnegative(cost, start, end, None);
            assert forall|model: spec_fn(Hex) -> Option<u32>| #[trigger]
                models(cost, model) implies search.opt_inv(model, start, None) by {
                assert(expanded.relaxed_upto(model, start, current, 6));
                assert(expanded.relaxed(model, start, current)) by {
                    assert forall|v: Hex| #[trigger]
                        current@.is_neighbor(v@) && model(v) is Some implies expanded.found(v)
                        && expanded.cost_of(v) <= expanded.cost_of(current) + step_weight(
                        model,
                        start,
                        v,
                    ) by {
                        current@.lemma_neighbors_at_distance_one(v@);
                        let dir = choose|dir: Direction| v@ == #[trigger] current@.neighbor(dir);
                        assert(Direction::spec_from_index(dir.spec_index()) == dir);
                        assert(expanded.relaxed_at(model, start, current, dir.spec_index()));
                    }
                }
                Search::lemma_opt_closed(expanded, search, model, start, current);
            }
        }
    }
    proof {
        assert forall|p: Seq<Hex>| #[trigger] is_walk(p, start, end) implies exists|i: int|
            1 <= i < p.len() && may_exclude(cost, #[trigger] p[i]) by {
            if forall|i: int| 1 <= i < p.len() ==> !may_exclude(cost, #[trigger] p[i]) {
                search.lemma_exhausted(cost, start, end, p, p.len() - 1);
                reveal(Search::inv);
                assert(false);
            }
        }
        if start == end {
            reveal(Search::inv);
            assert(search.found(start));
            assert(search.closed@.contains(start) || search.in_open(start));
            assert(false);
        }
        assert forall|model: spec_fn(Hex) -> Option<u32>| #[trigger]
            models(cost, model) implies forall|q: Seq<Hex>| !passable_walk(
            model,
            q,
            start,
            end,
        ) by {
            assert forall|q: Seq<Hex>| !passable_walk(model, q, start, end) by {
                if passable_walk(model, q, start, end) {
                    assert(is_walk(q, start, end));
                    let i = choose|i: int| 1 <= i < q.len() && may_exclude(cost, #[trigger] q[i]);
                    assert(model(q[i]) is Some);
                }
            }
        }
    }
    None
}

/// The sum of the whole numbers up to `m`.
pub open spec fn triangle(m: nat) -> nat
    decreases m,
{
    if m == 0 {
        0
    } else {
        m + triangle((m - 1) as nat)
    }
}

/// The line from `a` to `b` as a walk of hexagons.
pub open spec fn line_walk(a: Hex, b: Hex) -> Seq<Hex> {
    Seq::new(line_seq(a@, b@).len(), |i: int| hex_of(line_point(a@, b@, i)))
}

/// The line between two hexagons is a walk from one to the other of as
/// many steps as they are apart, each step one further from the first.
pub proof fn lemma_line_is_walk(a: Hex, b: Hex)
    ensures
        is_walk(line_walk(a, b), a, b),
        line_walk(a, b).len() == a@.distance(b@) + 1,
        forall|i: int|
            0 <= i < line_walk(a, b).len() ==> (#[trigger] line_walk(a, b)[i])@.distance(a@) == i,
{
    let p = line_walk(a, b);
    let n = a@.distance(b@);
    lemma_line_ends(a@, b@);
    a@.lemma_distance_basics(b@);
    assert forall|i: int| 0 <= i < p.len() implies (#[trigger] p[i])@ == line_point(a@, b@, i)
        && p[i]@.distance(a@) == i by {
        lemma_line_point_between(a@, b@, i);
        lemma_line_point_distance(a@, b@, i);
        a@.lemma_distance_basics(line_point(a@, b@, i));
    }
    assert(line_seq(a@, b@)[0] == line_point(a@, b@, 0));
    assert(line_seq(a@, b@)[n] == line_point(a@, b@, n));
    assert(p[0]@ == a@ && p[n]@ == b@);
    assert forall|i: int| 0 <= i < p.len() - 1 implies (#[trigger] p[i])@.is_neighbor(p[i + 1]@) by {
        lemma_line_step(a@, b@, i);
        assert(p[i + 1]@ == line_point(a@, b@, i + 1));
    }
}

/// A walk that never comes back to its start weighs at least the sum of
/// the distances that lie between its start and its last coordinate, and
/// one more for each step that did not lead further away; and its last
/// coordinate is no further from the start than it has steps.
proof fn lemma_walk_weight_lower(
    model: spec_fn(Hex) -> Option<u32>,
    start: Hex,
    end: Hex,
    p: Seq<Hex>,
    j: int,
)
    requires
        is_walk(p, start, end),
        0 <= j < p.len(),
        forall|i: int| 1 <= i < p.len() ==> #[trigger] p[i] != start,
    ensures
        0 <= p[j]@.distance(start@) <= j,
        walk_weight(model, start, p.take(j + 1)) >= triangle(p[j]@.distance(start@) as nat) + (j
            - p[j]@.distance(start@)),
    decreases j,
{
    if j > 0 {
        lemma_walk_weight_lower(model, start, end, p, j - 1);
        lemma_walk_weight_step(model, start, p, j - 1);
        let before = p[j - 1];
        let here = p[j];
        let m0 = before@.distance(start@);
        let m = here@.distance(start@);
        assert(m0 - 1 <= m <= m0 + 1) by {
            before@.lemma_neighbors_at_distance_one(here@);
            let d = choose|d: Direction| here@ == #[trigger] before@.neighbor(d);
            before@.lemma_step_changes_distance_by_one(d, start@);
        }
        assert(m >= 1) by {
            here@.lemma_distance_basics(start@);
        }
        let w0 = walk_weight(model, start, p.take(j));
        let w = walk_weight(model, start, p.take(j + 1));
        assert(w >= w0 + m) by {
            lemma_step_weight_nonnegative(model, start, here);
        }
        lemma_lower_step(m0, m, j, w0, w);
    } else {
        assert(p[0] == start);
        assert(walk_weight(model, start, p.take(1)) == 0);
        start@.lemma_distance_basics(start@);
    }
}

/// One step of the bound on the weight of a walk.
proof fn lemma_lower_step(m0: int, m: int, j: int, w0: int, w: int)
    requires
        0 <= m0 <= j - 1,
        1 <= m,
        m0 - 1 <= m <= m0 + 1,
        w0 >= triangle(m0 as nat) + (j - 1 - m0),
        w >= w0 + m,
    ensures
        m <= j,
        w >= triangle(m as nat) + (j - m),
{
    assert(triangle(m as nat) == m + triangle((m - 1) as nat));
    if m == m0 + 1 {
    } else if m == m0 {
    } else {
        assert(triangle(m0 as nat) == m0 + triangle((m0 - 1) as nat));
    }
}

/// Where every step is free, the line weighs the sum of the distances up
/// to that of its end.
proof fn lemma_free_line_weight(
    model: spec_fn(Hex) -> Option<u32>,
    a: Hex,
    b: Hex,
    j: int,
)
    requires
        forall|h: Hex| #[trigger] model(h) == Some(0u32),
        0 <= j <= a@.distance(b@),
    ensures
        walk_weight(model, a, line_walk(a, b).take(j + 1)) == triangle(j as nat),
    decreases j,
{
    lemma_line_is_walk(a, b);
    let p = line_walk(a, b);
    if j > 0 {
        lemma_free_line_weight(model, a, b, j - 1);
        lemma_walk_weight_step(model, a, p, j - 1);
        assert(p[j]@.distance(a@) == j);
    } else {
        assert(walk_weight(model, a, p.take(1)) == 0);
    }
}

/// Where every step is free and no coordinate is left out, a way of least
/// total priority takes as many steps as its two ends are apart: it has
/// one coordinate more than the distance.
pub proof fn lemma_free_path_length(
    model: spec_fn(Hex) -> Option<u32>,
    start: Hex,
    end: Hex,
    path: Seq<Hex>,
)
    requires
        forall|h: Hex| #[trigger] model(h) == Some(0u32),
        least_walk(model, path, start, end),
        path.no_duplicates(),
    ensures
        path.len() == start@.distance(end@) + 1,
{
    let n = start@.distance(end@);
    let k = path.len() - 1;
    let line = line_walk(start, end);
    lemma_line_is_walk(start, end);
    assert(passable_walk(model, line, start, end));
    lemma_free_line_weight(model, start, end, n);
    assert(line.take(n + 1) =~= line);
    assert(path.take(k + 1) =~= path);
    lemma_walk_weight_lower(model, start, end, path, k);
    end@.lemma_distance_basics(start@);
}

} // verus!
