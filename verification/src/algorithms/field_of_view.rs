//! What can be seen from a hexagon within a range.
use vstd::prelude::*;
use std::collections::HashSet;
use crate::algorithms::pathfinding::{key, key_of, lemma_key_injective};
use crate::hex::{hex_of, views, Axial, Hex};
use crate::line::{
    lemma_line_ends, lemma_line_point_distance, lemma_ray_through, line_point, line_seq, ray_target,
};
use crate::ring::{
    lemma_ring_complete, lemma_ring_membership, lemma_spiral_membership, ring_fits, ring_seq,
    spiral_seq,
};

verus! {

broadcast use vstd::std_specs::hash::group_hash_axioms;

/// Whether `blocking` may say of `h` that it blocks the view.
pub open spec fn may_block<F: Fn(Hex) -> bool>(blocking: F, h: Hex) -> bool {
    call_ensures(blocking, (h,), true)
}

/// Whether `blocking` may say of `h` that it lets the view pass.
pub open spec fn may_clear<F: Fn(Hex) -> bool>(blocking: F, h: Hex) -> bool {
    call_ensures(blocking, (h,), false)
}

/// Whether `blocking` may let the view pass on the line from `c` to `t` at
/// each position up to `i`.
pub open spec fn ray_clear<F: Fn(Hex) -> bool>(blocking: F, c: Axial, t: Axial, i: int) -> bool {
    forall|j: int| 0 <= j <= i ==> may_clear(blocking, hex_of(#[trigger] line_point(c, t, j)))
}

/// Whether `blocking` cannot block the view on the line from `c` to `t` at
/// any position up to `i`.
pub open spec fn ray_open<F: Fn(Hex) -> bool>(blocking: F, c: Axial, t: Axial, i: int) -> bool {
    forall|j: int| 0 <= j <= i ==> !may_block(blocking, hex_of(#[trigger] line_point(c, t, j)))
}

/// Whether `h` lies on the line from `c` to a hexagon of the ring of radius
/// `r` around `c`, with the view possibly passing up to and at `h`.
pub open spec fn lit<F: Fn(Hex) -> bool>(blocking: F, c: Axial, r: nat, h: Hex) -> bool {
    exists|t: Axial, i: int|
        ring_seq(c, r).contains(t) && 0 <= i <= r && #[trigger] line_point(c, t, i) == h@
            && ray_clear(blocking, c, t, i)
}

/// Whether `h` lies on the line from `c` to a hexagon of the ring of radius
/// `r` around `c`, with nothing that can block the view up to and at `h`.
pub open spec fn in_plain_view<F: Fn(Hex) -> bool>(blocking: F, c: Axial, r: nat, h: Hex) -> bool {
    exists|t: Axial, i: int|
        ring_seq(c, r).contains(t) && 0 <= i <= r && #[trigger] line_point(c, t, i) == h@
            && ray_open(blocking, c, t, i)
}

/// Whether every answer that `blocking` can give is the one that `model`
/// gives: `model` then says what blocks the view.
pub open spec fn describes<F: Fn(Hex) -> bool>(blocking: F, model: spec_fn(Hex) -> bool) -> bool {
    forall|h: Hex, r: bool| call_ensures(blocking, (h,), r) ==> r == model(h)
}

/// Whether `h` lies on the line from `c` to a hexagon of the ring of radius
/// `r` around `c`, and nothing on that line up to and at `h` blocks the
/// view.
pub open spec fn visible(model: spec_fn(Hex) -> bool, c: Axial, r: nat, h: Hex) -> bool {
    exists|t: Axial, i: int|
        ring_seq(c, r).contains(t) && 0 <= i <= r && #[trigger] line_point(c, t, i) == h@
            && forall|j: int| 0 <= j <= i ==> !model(hex_of(#[trigger] line_point(c, t, j)))
}

/// Whatever is seen lies within the range.
pub proof fn lemma_lit_within_range<F: Fn(Hex) -> bool>(blocking: F, c: Axial, r: nat, h: Hex)
    requires
        lit(blocking, c, r, h),
    ensures
        c.distance(h@) <= r,
{
    let (t, i) = choose|t: Axial, i: int|
        ring_seq(c, r).contains(t) && 0 <= i <= r && #[trigger] line_point(c, t, i) == h@
            && ray_clear(blocking, c, t, i);
    lemma_ring_membership(c, r, t);
    lemma_line_point_distance(c, t, i);
}

/// Where nothing can block the view, exactly the hexagons within the range
/// are in plain view: each of them lies on the line to some hexagon of the
/// ring.
pub proof fn lemma_plain_view_without_blockers<F: Fn(Hex) -> bool>(
    blocking: F,
    c: Axial,
    r: nat,
    h: Hex,
)
    requires
        forall|g: Hex| !may_block(blocking, g),
    ensures
        in_plain_view(blocking, c, r, h) <==> c.distance(h@) <= r,
{
    let k = c.distance(h@);
    if in_plain_view(blocking, c, r, h) {
        let (t, i) = choose|t: Axial, i: int|
            ring_seq(c, r).contains(t) && 0 <= i <= r && #[trigger] line_point(c, t, i) == h@
                && ray_open(blocking, c, t, i);
        lemma_ring_membership(c, r, t);
        lemma_line_point_distance(c, t, i);
    }
    if k <= r {
        c.lemma_distance_basics(h@);
        if k == 0 {
            let t = ring_seq(c, r)[0];
            assert(ring_seq(c, r).contains(t));
            lemma_line_ends(c, t);
            assert(line_seq(c, t)[0] == line_point(c, t, 0));
            assert(line_point(c, t, 0) == h@);
            assert(ray_open(blocking, c, t, 0));
        } else {
            let t = ray_target(c, h@, r as int);
            lemma_ray_through(c, h@, r as int);
            lemma_ring_complete(c, r, t);
            assert(line_point(c, t, k) == h@);
            assert(ray_open(blocking, c, t, k));
        }
    }
}

/// The hexagons that can be seen from `coord` within `range`: one line is
/// drawn from `coord` to each hexagon of the ring of radius `range`, and
/// walked from `coord` up to, and without, the first hexagon that
/// `blocking` reports. Each hexagon seen is listed once, in the order in
/// which the lines reach it.
pub fn range_fov<F: Fn(Hex) -> bool>(coord: Hex, range: u32, blocking: F) -> (res: Vec<Hex>)
    requires
        ring_fits(coord@, range as int),
        forall|h: Hex| call_requires(blocking, (h,)),
    ensures
        res@.no_duplicates(),
        forall|k: int|
            0 <= k < res@.len() ==> lit(blocking, coord@, range as nat, #[trigger] res@[k]),
        forall|h: Hex| #[trigger]
            in_plain_view(blocking, coord@, range as nat, h) ==> res@.contains(h),
        (forall|g: Hex| !may_block(blocking, g)) ==> forall|h: Hex| #[trigger]
            res@.contains(h) <==> spiral_seq(coord@, 0, range as nat).contains(h@),
        forall|model: spec_fn(Hex) -> bool| #[trigger]
            describes(blocking, model) ==> forall|h: Hex| #[trigger]
                res@.contains(h) <==> visible(model, coord@, range as nat, h),
{
    let ghost c = coord@;
    let ghost r = range as nat;
    let targets = coord.ring(range);
    let mut res: Vec<Hex> = Vec::new();
    let mut seen: HashSet<u64> = HashSet::new();
    let mut ti: usize = 0;
    while ti < targets.len()
        invariant
            0 <= ti <= targets@.len(),
            c == coord@,
            r == range as nat,
            views(targets@) == ring_seq(c, r),
            forall|h: Hex| call_requires(blocking, (h,)),
            res@.no_duplicates(),
            forall|h: Hex| seen@.contains(key_of(h)) <==> #[trigger] res@.contains(h),
            forall|k: int| 0 <= k < res@.len() ==> lit(blocking, c, r, #[trigger] res@[k]),
            forall|tj: int, i: int|
                0 <= tj < ti && 0 <= i <= r && ray_open(blocking, c, targets@[tj]@, i)
                    ==> res@.contains(hex_of(#[trigger] line_point(c, targets@[tj]@, i))),
        decreases targets@.len() - ti,
    {
        let target = targets[ti];
        let ghost t = target@;
        proof {
            assert(views(targets@)[ti as int] == t);
            assert(ring_seq(c, r).contains(t));
            crate::ring::lemma_ring_distance(c, r, ti as int);
        }
        let line = coord.line_to(target);
        proof {
            assert(ring_seq(c, r)[ti as int] == t);
            assert(c.distance(t) == r);
            assert(views(line@).len() == line@.len());
            assert(line_seq(c, t).len() == r + 1);
        }
        let mut i: usize = 0;
        let mut blocked = false;
        while i < line.len() && !blocked
            invariant
                0 <= i <= line@.len(),
                line@.len() == r + 1,
                c == coord@,
                t == target@,
                ti < targets@.len(),
                target == targets@[ti as int],
                ring_seq(c, r).contains(t),
                views(line@) == line_seq(c, t),
                forall|h: Hex| call_requires(blocking, (h,)),
                res@.no_duplicates(),
                forall|h: Hex| seen@.contains(key_of(h)) <==> #[trigger] res@.contains(h),
                forall|k: int| 0 <= k < res@.len() ==> lit(blocking, c, r, #[trigger] res@[k]),
                forall|tj: int, i: int|
                    0 <= tj < ti && 0 <= i <= r && ray_open(blocking, c, targets@[tj]@, i)
                        ==> res@.contains(hex_of(#[trigger] line_point(c, targets@[tj]@, i))),
                !blocked ==> ray_clear(blocking, c, t, i - 1),
                !blocked ==> forall|j: int|
                    0 <= j < i ==> res@.contains(hex_of(#[trigger] line_point(c, t, j))),
                blocked ==> forall|j: int|
                    0 <= j <= r && ray_open(blocking, c, t, j) ==> res@.contains(
                        hex_of(#[trigger] line_point(c, t, j)),
                    ),
            decreases line@.len() - i + (if blocked {
                0int
            } else {
                1
            }),
        {
            let h = line[i];
            proof {
                assert(views(line@)[i as int] == h@);
                assert(line_point(c, t, i as int) == h@);
                assert(hex_of(h@) == h);
            }
            let ghost before = res@;
            if blocking(h) {
                blocked = true;
                proof {
                    assert forall|j: int|
                        0 <= j <= r && ray_open(blocking, c, t, j) implies res@.contains(
                        hex_of(#[trigger] line_point(c, t, j)),
                    ) by {
                        if j >= i {
                            assert(may_block(blocking, hex_of(line_point(c, t, i as int))));
                        }
                    }
                }
            } else {
                if seen.insert(key(h)) {
                    res.push(h);
                    proof {
                        assert(!before.contains(h));
                        assert(res@[res@.len() - 1] == h);
                        assert forall|x: Hex|
                            seen@.contains(key_of(x)) <==> #[trigger] res@.contains(x) by {
                            lemma_key_injective(x, h);
                            if before.contains(x) {
                                let k = choose|k: int| 0 <= k < before.len() && before[k] == x;
                                assert(res@[k] == x);
                            }
                            if res@.contains(x) && x != h {
                                let k = choose|k: int| 0 <= k < res@.len() && res@[k] == x;
                                assert(before[k] == x);
                            }
                        }
                    }
                }
                proof {
                    assert(ray_clear(blocking, c, t, i as int)) by {
                        assert forall|j: int| 0 <= j <= i implies may_clear(
                            blocking,
                            hex_of(#[trigger] line_point(c, t, j)),
                        ) by {
                            if j < i {
                                assert(ray_clear(blocking, c, t, i - 1));
                            }
                        }
                    }
                    assert(res@.contains(h));
                    assert(lit(blocking, c, r, h));
                    assert forall|x: Hex| before.contains(x) implies res@.contains(x) by {
                        let k = choose|k: int| 0 <= k < before.len() && before[k] == x;
                        assert(res@[k] == x);
                    }
                }
                i = i + 1;
            }
        }
        ti = ti + 1;
    }
    proof {
        assert forall|h: Hex| #[trigger] in_plain_view(blocking, c, r, h) implies res@.contains(
            h,
        ) by {
            let (t, i) = choose|t: Axial, i: int|
                ring_seq(c, r).contains(t) && 0 <= i <= r && #[trigger] line_point(c, t, i) == h@
                    && ray_open(blocking, c, t, i);
            let tj = choose|tj: int| 0 <= tj < ring_seq(c, r).len() && ring_seq(c, r)[tj] == t;
            assert(views(targets@)[tj] == targets@[tj]@);
            assert(hex_of(h@) == h);
        }
        assert forall|model: spec_fn(Hex) -> bool| #[trigger]
            describes(blocking, model) implies forall|h: Hex| #[trigger]
            res@.contains(h) <==> visible(model, c, r, h) by {
            assert forall|h: Hex| #[trigger] res@.contains(h) <==> visible(model, c, r, h) by {
                if res@.contains(h) {
                    let k = choose|k: int| 0 <= k < res@.len() && res@[k] == h;
                    assert(lit(blocking, c, r, res@[k]));
                    let (t, i) = choose|t: Axial, i: int|
                        ring_seq(c, r).contains(t) && 0 <= i <= r && #[trigger] line_point(c, t, i)
                            == h@ && ray_clear(blocking, c, t, i);
                    assert forall|j: int| 0 <= j <= i implies !model(
                        hex_of(#[trigger] line_point(c, t, j)),
                    ) by {
                        assert(may_clear(blocking, hex_of(line_point(c, t, j))));
                    }
                }
                if visible(model, c, r, h) {
                    let (t, i) = choose|t: Axial, i: int|
                        ring_seq(c, r).contains(t) && 0 <= i <= r && #[trigger] line_point(c, t, i)
                            == h@ && forall|j: int|
                            0 <= j <= i ==> !model(hex_of(#[trigger] line_point(c, t, j)));
                    assert(ray_open(blocking, c, t, i));
                    assert(in_plain_view(blocking, c, r, h));
                }
            }
        }
        if forall|g: Hex| !may_block(blocking, g) {
            assert forall|h: Hex| #[trigger]
                res@.contains(h) <==> spiral_seq(c, 0, r).contains(h@) by {
                lemma_spiral_membership(c, 0, r, h@);
                lemma_plain_view_without_blockers(blocking, c, r, h);
                c.lemma_distance_basics(h@);
                if res@.contains(h) {
                    let k = choose|k: int| 0 <= k < res@.len() && res@[k] == h;
                    lemma_lit_within_range(blocking, c, r, res@[k]);
                }
            }
        }
    }
    res
}

} // verus!
