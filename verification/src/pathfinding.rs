use vstd::prelude::*;

use crate::direction::{is_planar, Direction};
use crate::grid::Grid;
use crate::location::{lemma_dir_between_of_neighbor, lemma_neighbor_ne, loc_step, Location};

verus! {

broadcast use vstd::seq_lib::lemma_seq_contains_after_push;

/// An entry of the search frontier: an accumulated cost and the location
/// it was reached at.
#[derive(Copy, Clone, Eq, PartialEq, Ord, PartialOrd)]
pub struct BHeapState<T: Eq>(pub usize, pub T);

impl<T: Eq> BHeapState<T> {
    pub fn new(weight: usize, item: T) -> (r: Self)
        ensures
            r.0 == weight,
            r.1 == item,
    {
        BHeapState::<T>(weight, item)
    }
}

/// One admissible planar move from `a` to `b`.
pub open spec fn step_ok(g: Grid, a: Location, b: Location) -> bool {
    exists|d: Direction| is_planar(d) && #[trigger] g.passable_toward(a, d) && b == loc_step(a, d)
}

/// The cost of the move from `a` to its neighbor `b`.
pub open spec fn step_cost(g: Grid, a: Location, b: Location) -> nat {
    g.move_cost_between(a, b)
}

/// A walk through the grid: at least its starting location, every
/// consecutive pair an admissible planar move.
pub open spec fn is_path(g: Grid, p: Seq<Location>) -> bool {
    p.len() >= 1 && forall|i: int| 0 <= i < p.len() - 1 ==> #[trigger] step_ok(g, p[i], p[i + 1])
}

/// The accumulated cost of a walk: the sum of its step costs.
pub open spec fn path_cost(g: Grid, p: Seq<Location>) -> nat
    decreases p.len(),
{
    if p.len() <= 1 {
        0
    } else {
        path_cost(g, p.drop_last()) + step_cost(g, p[p.len() - 2], p[p.len() - 1])
    }
}

/// Some admissible walk leads from `s` to `t` for a total cost within
/// `budget`.
pub open spec fn reachable_within(g: Grid, s: Location, t: Location, budget: nat) -> bool {
    exists|p: Seq<Location>| #[trigger] is_path(g, p) && p.first() == s && p.last() == t
        && path_cost(g, p) <= budget
}

/// Some admissible walk leads from `s` to `t` for a total cost of exactly
/// `c`.
pub open spec fn has_path_cost(g: Grid, s: Location, t: Location, c: nat) -> bool {
    exists|p: Seq<Location>| #[trigger] is_path(g, p) && p.first() == s && p.last() == t
        && path_cost(g, p) == c
}

/// `c` is the least cost of any admissible walk from `s` to `t`, and it
/// fits the budget `b`.
pub open spec fn min_cost_within(g: Grid, s: Location, t: Location, c: nat, b: nat) -> bool {
    &&& has_path_cost(g, s, t, c)
    &&& c <= b
    &&& forall|q: Seq<Location>|
        #[trigger] is_path(g, q) && q.first() == s && q.last() == t ==> path_cost(g, q) >= c
}

/// Every step of an admissible walk costs 1 or 2.
proof fn lemma_step_cost_bounds(g: Grid, a: Location, b: Location)
    ensures
        1 <= step_cost(g, a, b) <= 2,
{
}

/// Extending a walk by one admissible move keeps it a walk and adds that
/// move's cost.
proof fn lemma_path_extend(g: Grid, p: Seq<Location>, d: Direction)
    requires
        is_path(g, p),
        is_planar(d),
        g.passable_toward(p.last(), d),
    ensures
        is_path(g, p.push(loc_step(p.last(), d))),
        path_cost(g, p.push(loc_step(p.last(), d))) == path_cost(g, p) + g.move_cost(p.last(), d),
        p.push(loc_step(p.last(), d)).first() == p.first(),
        p.push(loc_step(p.last(), d)).last() == loc_step(p.last(), d),
{
    let b = loc_step(p.last(), d);
    let q = p.push(b);
    g.lemma_passable_facts(p.last(), d);
    lemma_dir_between_of_neighbor(p.last(), b, d);
    assert(q.drop_last() =~= p);
    assert(q[q.len() - 2] == p.last());
    assert(q[q.len() - 1] == b);
    assert forall|i: int| 0 <= i < q.len() - 1 implies #[trigger] step_ok(g, q[i], q[i + 1]) by {
        if i < p.len() - 1 {
            assert(step_ok(g, p[i], p[i + 1]));
            assert(q[i] == p[i] && q[i + 1] == p[i + 1]);
        } else {
            assert(q[i] == p.last() && q[i + 1] == b);
            assert(g.passable_toward(p.last(), d) && b == loc_step(p.last(), d));
        }
    }
    assert(step_cost(g, p.last(), b) == g.move_cost(p.last(), d));
}

/// A walk between two distinct locations takes at least one step, so its
/// cost is at least 1: with a budget of 0 nothing but the start itself is
/// reachable.
pub proof fn lemma_zero_budget(g: Grid, s: Location, t: Location)
    requires
        t != s,
    ensures
        !reachable_within(g, s, t, 0),
{
    if reachable_within(g, s, t, 0) {
        let p = choose|p: Seq<Location>|
            #[trigger] is_path(g, p) && p.first() == s && p.last() == t && path_cost(g, p) <= 0;
        assert(p.len() >= 2);
        lemma_step_cost_bounds(g, p[p.len() - 2], p[p.len() - 1]);
        assert(path_cost(g, p) >= 1);
    }
}

/// Raising the budget never shrinks what is reachable.
pub proof fn lemma_reachable_monotone(g: Grid, s: Location, t: Location, b1: nat, b2: nat)
    requires
        reachable_within(g, s, t, b1),
        b1 <= b2,
    ensures
        reachable_within(g, s, t, b2),
{
    let p = choose|p: Seq<Location>|
        #[trigger] is_path(g, p) && p.first() == s && p.last() == t && path_cost(g, p) <= b1;
    assert(is_path(g, p) && p.first() == s && p.last() == t && path_cost(g, p) <= b2);
}

/// The cost recorded for location `l` in the dense cost table.
spec fn tbl_at(g: Grid, t: Seq<Option<usize>>, l: Location) -> Option<usize> {
    t[g.idx_of(l)]
}

/// Every recorded cost is within budget and achieved by some actual walk
/// from the start, and the start itself is recorded at cost 0.
spec fn tbl_inv(g: Grid, s: Location, b: nat, t: Seq<Option<usize>>) -> bool {
    &&& t.len() == g.volume()
    &&& tbl_at(g, t, s) == Some(0usize)
    &&& forall|l: Location|
        g.loc_in_bounds(l) && (#[trigger] tbl_at(g, t, l)) is Some ==> tbl_at(g, t, l).unwrap()
            <= b && has_path_cost(g, s, l, tbl_at(g, t, l).unwrap() as nat)
}

/// Every budget-admissible move out of `l` has already been relaxed: the
/// neighbor is recorded at no more than `l`'s cost plus the move's cost.
spec fn relaxed_at(g: Grid, b: nat, t: Seq<Option<usize>>, l: Location) -> bool {
    forall|d: Direction|
        is_planar(d) && #[trigger] g.passable_toward(l, d) && tbl_at(g, t, l).unwrap()
            + g.move_cost(l, d) <= b ==> (tbl_at(g, t, loc_step(l, d)) is Some && tbl_at(
            g,
            t,
            loc_step(l, d),
        ).unwrap() <= tbl_at(g, t, l).unwrap() + g.move_cost(l, d))
}

/// `l` occurs as the location of some frontier entry.
spec fn in_heap(heap: Seq<BHeapState<Location>>, l: Location) -> bool {
    exists|k: int| 0 <= k < heap.len() && (#[trigger] heap[k]).1 == l
}

/// Every frontier entry names an in-bounds location with a recorded cost.
spec fn heap_inv(g: Grid, t: Seq<Option<usize>>, heap: Seq<BHeapState<Location>>) -> bool {
    forall|k: int|
        0 <= k < heap.len() ==> g.loc_in_bounds((#[trigger] heap[k]).1) && tbl_at(
            g,
            t,
            heap[k].1,
        ) is Some
}

/// Every recorded location still waits on the frontier or is fully
/// relaxed.
spec fn frontier_inv(
    g: Grid,
    b: nat,
    t: Seq<Option<usize>>,
    heap: Seq<BHeapState<Location>>,
) -> bool {
    forall|l: Location|
        g.loc_in_bounds(l) && (#[trigger] tbl_at(g, t, l)) is Some ==> in_heap(heap, l)
            || relaxed_at(g, b, t, l)
}

/// The visited list holds exactly the recorded locations other than the
/// start.
spec fn visited_inv(
    g: Grid,
    s: Location,
    t: Seq<Option<usize>>,
    visited: Seq<Location>,
) -> bool {
    forall|l: Location|
        #![trigger visited.contains(l)]
        #![trigger tbl_at(g, t, l)]
        visited.contains(l) <==> (g.loc_in_bounds(l) && l != s && tbl_at(g, t, l) is Some)
}

/// Every recorded location other than the start carries a predecessor: an
/// admissible step leads from it, it is itself recorded, and the recorded
/// cost is at least the predecessor's cost plus the step's cost.
spec fn pred_inv(
    g: Grid,
    s: Location,
    t: Seq<Option<usize>>,
    preds: Seq<Option<Location>>,
) -> bool {
    &&& preds.len() == g.volume()
    &&& forall|l: Location|
        g.loc_in_bounds(l) && l != s && (#[trigger] tbl_at(g, t, l)) is Some ==> {
            let po = preds[g.idx_of(l)];
            &&& po is Some
            &&& step_ok(g, po.unwrap(), l)
            &&& g.loc_in_bounds(po.unwrap())
            &&& tbl_at(g, t, po.unwrap()) is Some
            &&& tbl_at(g, t, l).unwrap() >= tbl_at(g, t, po.unwrap()).unwrap() + step_cost(
                g,
                po.unwrap(),
                l,
            )
        }
}

/// At a relaxation fixpoint every recorded cost is the least cost of any
/// admissible walk to its location.
proof fn lemma_fixpoint_minimal(g: Grid, s: Location, b: nat, t: Seq<Option<usize>>, l: Location)
    requires
        g.wf(),
        g.loc_in_bounds(s),
        t.len() == g.volume(),
        tbl_at(g, t, s) == Some(0usize),
        forall|l2: Location|
            g.loc_in_bounds(l2) && (#[trigger] tbl_at(g, t, l2)) is Some ==> tbl_at(
                g,
                t,
                l2,
            ).unwrap() <= b && relaxed_at(g, b, t, l2),
        g.loc_in_bounds(l),
        tbl_at(g, t, l) is Some,
        has_path_cost(g, s, l, tbl_at(g, t, l).unwrap() as nat),
    ensures
        min_cost_within(g, s, l, tbl_at(g, t, l).unwrap() as nat, b),
{
    let c = tbl_at(g, t, l).unwrap() as nat;
    assert forall|q: Seq<Location>|
        #[trigger] is_path(g, q) && q.first() == s && q.last() == l implies path_cost(g, q) >= c
        by {
        if path_cost(g, q) < c {
            lemma_fixpoint_complete(g, s, b, t, q);
        }
    }
}

/// Termination potential of one table entry: strictly drops whenever the
/// entry first appears or improves within budget.
spec fn pot(o: Option<usize>, b: nat) -> nat {
    match o {
        None => b + 2,
        Some(c) => (c + 1) as nat,
    }
}

/// Termination potential of the whole table.
spec fn phi(t: Seq<Option<usize>>, b: nat) -> nat
    decreases t.len(),
{
    if t.len() == 0 {
        0
    } else {
        phi(t.drop_last(), b) + pot(t.last(), b)
    }
}

/// Updating one entry moves the table potential by exactly the entry's
/// potential difference.
proof fn lemma_phi_update(t: Seq<Option<usize>>, i: int, v: Option<usize>, b: nat)
    requires
        0 <= i < t.len(),
    ensures
        phi(t.update(i, v), b) + pot(t[i], b) == phi(t, b) + pot(v, b),
    decreases t.len(),
{
    let tu = t.update(i, v);
    assert(tu.len() == t.len());
    if i == t.len() - 1 {
        assert(tu.drop_last() =~= t.drop_last());
        assert(tu.last() == v);
    } else {
        lemma_phi_update(t.drop_last(), i, v, b);
        assert(tu.drop_last() =~= t.drop_last().update(i, v));
        assert(tu.last() == t.last());
    }
}

/// At a relaxation fixpoint the table is complete: the endpoint of every
/// within-budget walk from the start is recorded, at no more than the
/// walk's cost.
proof fn lemma_fixpoint_complete(
    g: Grid,
    s: Location,
    b: nat,
    t: Seq<Option<usize>>,
    p: Seq<Location>,
)
    requires
        g.wf(),
        g.loc_in_bounds(s),
        t.len() == g.volume(),
        tbl_at(g, t, s) == Some(0usize),
        forall|l: Location|
            g.loc_in_bounds(l) && (#[trigger] tbl_at(g, t, l)) is Some ==> tbl_at(g, t, l).unwrap()
                <= b && relaxed_at(g, b, t, l),
        is_path(g, p),
        p.first() == s,
        path_cost(g, p) <= b,
    ensures
        g.loc_in_bounds(p.last()),
        tbl_at(g, t, p.last()) is Some,
        tbl_at(g, t, p.last()).unwrap() <= path_cost(g, p),
    decreases p.len(),
{
    if p.len() == 1 {
        assert(p.last() == s);
    } else {
        let q = p.drop_last();
        let u = q.last();
        let v = p.last();
        assert(q.len() == p.len() - 1);
        assert forall|i: int| 0 <= i < q.len() - 1 implies #[trigger] step_ok(g, q[i], q[i + 1]) by {
            assert(step_ok(g, p[i], p[i + 1]));
        }
        assert(is_path(g, q));
        assert(q.first() == s);
        assert(u == p[p.len() - 2]);
        assert(path_cost(g, p) == path_cost(g, q) + step_cost(g, u, v));
        lemma_fixpoint_complete(g, s, b, t, q);
        assert(step_ok(g, p[p.len() - 2], p[p.len() - 2 + 1]));
        let d = choose|d: Direction|
            is_planar(d) && #[trigger] g.passable_toward(u, d) && v == loc_step(u, d);
        g.lemma_passable_facts(u, d);
        lemma_dir_between_of_neighbor(u, v, d);
        assert(step_cost(g, u, v) == g.move_cost(u, d));
        let cu = tbl_at(g, t, u).unwrap();
        assert(cu + g.move_cost(u, d) <= b);
        assert(relaxed_at(g, b, t, u));
        assert(tbl_at(g, t, v) is Some && tbl_at(g, t, v).unwrap() <= cu + g.move_cost(u, d));
    }
}

/// Removes and returns a frontier entry of minimal weight.
fn pop_min(heap: &mut Vec<BHeapState<Location>>) -> (r: BHeapState<Location>)
    requires
        old(heap)@.len() > 0,
    ensures
        exists|i: int|
            0 <= i < old(heap)@.len() && old(heap)@[i] == r && final(heap)@ == old(heap)@.update(
                i,
                old(heap)@.last(),
            ).drop_last(),
        forall|j: int| 0 <= j < old(heap)@.len() ==> r.0 <= (#[trigger] old(heap)@[j]).0,
{
    let mut mi: usize = 0;
    let mut k: usize = 1;
    while k < heap.len()
        invariant
            heap@ == old(heap)@,
            heap@.len() > 0,
            0 <= mi < k,
            k <= heap@.len(),
            forall|j: int| 0 <= j < k ==> heap@[mi as int].0 <= (#[trigger] heap@[j]).0,
        decreases heap@.len() - k,
    {
        if heap[k].0 < heap[mi].0 {
            mi = k;
        }
        k = k + 1;
    }
    let r = heap.swap_remove(mi);
    proof {
        assert(0 <= mi < old(heap)@.len() && old(heap)@[mi as int] == r && heap@ == old(
            heap,
        )@.update(mi as int, old(heap)@.last()).drop_last());
    }
    r
}

/// `l` occurs as a key of the predecessor list `r`.
pub open spec fn maps_key(r: Seq<(Location, Location)>, l: Location) -> bool {
    exists|k: int| 0 <= k < r.len() && (#[trigger] r[k]).0 == l
}

/// A well-formed predecessor entry: `p` is one admissible step before
/// `l`, and the minimum costs of reaching `p` and `l` within budget `b`
/// differ by exactly that step's cost.
pub open spec fn pred_entry_ok(g: Grid, s: Location, b: nat, l: Location, p: Location) -> bool {
    &&& step_ok(g, p, l)
    &&& exists|c: nat, cp: nat|
        #[trigger] min_cost_within(g, s, l, c, b) && #[trigger] min_cost_within(g, s, p, cp, b)
            && cp + step_cost(g, p, l) == c
}

/// The predecessor map of the bounded search: one entry per location
/// (other than `start`) reachable within `max_move`, pairing it with a
/// location it was most cheaply reached from. Each recorded predecessor
/// is one admissible step away, and the minimum costs of the pair differ
/// by exactly that step's cost; ties between equally cheap predecessors
/// may resolve either way.
pub fn predecessors_2d(grid: &Grid, start: &Location, max_move: usize) -> (r: Vec<
    (Location, Location),
>)
    requires
        grid.wf(),
    ensures
        forall|k1: int, k2: int|
            0 <= k1 < k2 < r@.len() ==> (#[trigger] r@[k1]).0 != (#[trigger] r@[k2]).0,
        forall|l: Location| #[trigger] maps_key(r@, l) <==> (l != *start && reachable_within(
            *grid,
            *start,
            l,
            max_move as nat,
        )),
        forall|k: int|
            0 <= k < r@.len() ==> pred_entry_ok(
                *grid,
                *start,
                max_move as nat,
                (#[trigger] r@[k]).0,
                r@[k].1,
            ),
{
    let ghost g = *grid;
    let ghost b = max_move as nat;
    let mut visited: Vec<Location> = Vec::new();
    if !grid.in_bounds(start) {
        let out: Vec<(Location, Location)> = Vec::new();
        proof {
            assert forall|l: Location| !(l != *start && reachable_within(g, *start, l, b)) by {
                if l != *start && reachable_within(g, *start, l, b) {
                    let p = choose|p: Seq<Location>|
                        #[trigger] is_path(g, p) && p.first() == *start && p.last() == l
                            && path_cost(g, p) <= b;
                    assert(p.len() >= 2);
                    assert(step_ok(g, p[0int], p[0int + 1]));
                    let d = choose|d: Direction|
                        is_planar(d) && #[trigger] grid.passable_toward(p[0], d) && p[1]
                            == loc_step(p[0], d);
                    grid.lemma_passable_facts(p[0], d);
                }
            }
            assert forall|l: Location| !maps_key(out@, l) by {}
        }
        return out;
    }
    let n = grid.cells.len();
    let mut table: Vec<Option<usize>> = Vec::new();
    let mut preds: Vec<Option<Location>> = Vec::new();
    let mut f: usize = 0;
    while f < n
        invariant
            table@.len() == f,
            preds@.len() == f,
            f <= n,
            forall|e: int| 0 <= e < f ==> table@[e] is None,
        decreases n - f,
    {
        table.push(None);
        preds.push(None);
        f = f + 1;
    }
    proof {
        grid.lemma_idx_in_range(*start);
    }
    let si = grid.cell_index(start);
    table[si] = Some(0usize);
    let mut heap: Vec<BHeapState<Location>> = Vec::new();
    heap.push(BHeapState::new(0, *start));
    proof {
        let t = table@;
        assert(tbl_at(g, t, *start) == Some(0usize));
        let p0: Seq<Location> = seq![*start];
        assert(p0.len() == 1 && p0.first() == *start && p0.last() == *start);
        assert(is_path(g, p0));
        assert(path_cost(g, p0) == 0);
        assert(has_path_cost(g, *start, *start, 0));
        assert forall|l: Location|
            grid.loc_in_bounds(l) && (#[trigger] tbl_at(g, t, l)) is Some implies l == *start by {
            if l != *start {
                grid.lemma_idx_in_range(l);
                if grid.idx_of(l) == grid.idx_of(*start) {
                    grid.lemma_idx_injective(l, *start);
                }
            }
        }
        assert(heap@[0].1 == *start);
        assert(in_heap(heap@, *start));
    }
    while heap.len() > 0
        invariant
            g == *grid,
            grid.wf(),
            grid.loc_in_bounds(*start),
            b == max_move as nat,
            tbl_inv(g, *start, b, table@),
            heap_inv(g, table@, heap@),
            frontier_inv(g, b, table@, heap@),
            visited_inv(g, *start, table@, visited@),
            visited@.no_duplicates(),
            pred_inv(g, *start, table@, preds@),
        decreases phi(table@, b) + heap@.len(),
    {
        let ghost t0 = table@;
        let ghost h0 = heap@;
        let st = pop_min(&mut heap);
        let ghost h1 = heap@;
        let item = st.1;
        proof {
            let i = choose|i: int|
                0 <= i < h0.len() && h0[i] == st && h1 == h0.update(i, h0.last()).drop_last();
            assert(grid.loc_in_bounds(item) && tbl_at(g, t0, item) is Some);
            assert forall|k: int|
                0 <= k < h1.len() implies grid.loc_in_bounds((#[trigger] h1[k]).1) && tbl_at(
                g,
                t0,
                h1[k].1,
            ) is Some by {
                if k == i {
                    assert(h1[k] == h0[h0.len() - 1]);
                } else {
                    assert(h1[k] == h0[k]);
                }
            }
            assert forall|l: Location|
                grid.loc_in_bounds(l) && (#[trigger] tbl_at(g, t0, l)) is Some implies in_heap(
                h1,
                l,
            ) || relaxed_at(g, b, t0, l) || l == item by {
                if l != item && !relaxed_at(g, b, t0, l) {
                    assert(in_heap(h0, l));
                    let kk = choose|kk: int| 0 <= kk < h0.len() && (#[trigger] h0[kk]).1 == l;
                    assert(h0[i].1 == item);
                    assert(kk != i);
                    if kk == h0.len() - 1 {
                        assert(h1[i] == h0[kk]);
                        assert(in_heap(h1, l));
                    } else {
                        assert(h1[kk] == h0[kk]);
                        assert(in_heap(h1, l));
                    }
                }
            }
        }
        let ci = grid.cell_index(&item);
        let c_item = match table[ci] {
            Some(c) => c,
            None => 0,
        };
        let nbrs = grid.visitable_neighbors_2d_iter(item);
        let mut k: usize = 0;
        while k < nbrs.len()
            invariant
                g == *grid,
                grid.wf(),
                grid.loc_in_bounds(*start),
                b == max_move as nat,
                grid.loc_in_bounds(item),
                c_item <= max_move,
                tbl_at(g, table@, item) == Some(c_item),
                tbl_inv(g, *start, b, table@),
                heap_inv(g, table@, heap@),
                visited_inv(g, *start, table@, visited@),
                visited@.no_duplicates(),
                pred_inv(g, *start, table@, preds@),
                forall|l: Location|
                    grid.loc_in_bounds(l) && (#[trigger] tbl_at(g, table@, l)) is Some ==>
                        in_heap(heap@, l) || relaxed_at(g, b, table@, l) || l == item,
                forall|j: int|
                    0 <= j < k && c_item + step_cost(g, item, #[trigger] nbrs@[j]) <= b ==> (
                    tbl_at(g, table@, nbrs@[j]) is Some && tbl_at(g, table@, nbrs@[j]).unwrap()
                        <= c_item + step_cost(g, item, nbrs@[j])),
                forall|l: Location| #[trigger] nbrs@.contains(l) <==> exists|d: Direction|
                    is_planar(d) && #[trigger] grid.passable_toward(item, d) && l == loc_step(
                        item,
                        d,
                    ),
                phi(table@, b) + heap@.len() <= phi(t0, b) + h1.len(),
            decreases nbrs@.len() - k,
        {
            let next = nbrs[k];
            proof {
                assert(nbrs@.contains(next));
                let d = choose|d: Direction|
                    is_planar(d) && #[trigger] grid.passable_toward(item, d) && next == loc_step(
                        item,
                        d,
                    );
                grid.lemma_passable_facts(item, d);
                lemma_dir_between_of_neighbor(item, next, d);
                lemma_neighbor_ne(item, next, d);
                grid.lemma_idx_in_range(next);
                grid.lemma_idx_in_range(item);
                if grid.idx_of(item) == grid.idx_of(next) {
                    grid.lemma_idx_injective(item, next);
                }
            }
            let mc = grid.cost_2d(&item, &next);
            if mc <= max_move - c_item {
                let new_cost = c_item + mc;
                let ni = grid.cell_index(&next);
                let cur = table[ni];
                let was_none = match cur {
                    None => true,
                    Some(_) => false,
                };
                let do_update = match cur {
                    None => true,
                    Some(v) => new_cost < v,
                };
                if do_update {
                    let ghost tpre = table@;
                    let ghost hpre = heap@;
                    let ghost vpre = visited@;
                    let ghost ppre = preds@;
                    table[ni] = Some(new_cost);
                    preds[ni] = Some(item);
                    heap.push(BHeapState::new(new_cost, next));
                    if was_none {
                        visited.push(next);
                    }
                    proof {
                        let t = table@;
                        let ghost d = choose|d: Direction|
                            is_planar(d) && #[trigger] grid.passable_toward(item, d) && next
                                == loc_step(item, d);
                        assert(next != *start) by {
                            if next == *start {
                                assert(cur == Some(0usize));
                            }
                        }
                        assert(step_cost(g, item, next) == grid.move_cost(item, d));
                        assert(tbl_at(g, t, next) == Some(new_cost));
                        assert forall|l: Location|
                            grid.loc_in_bounds(l) && l != next implies #[trigger] tbl_at(g, t, l)
                                == tbl_at(g, tpre, l) by {
                            grid.lemma_idx_in_range(l);
                            if grid.idx_of(l) == grid.idx_of(next) {
                                grid.lemma_idx_injective(l, next);
                            }
                        }
                        assert(tbl_at(g, t, item) == Some(c_item));
                        assert(tbl_at(g, t, *start) == Some(0usize));
                        // achievability of the new entry
                        assert(has_path_cost(g, *start, item, c_item as nat));
                        let pw = choose|pw: Seq<Location>|
                            #[trigger] is_path(g, pw) && pw.first() == *start && pw.last()
                                == item && path_cost(g, pw) == c_item as nat;
                        lemma_path_extend(g, pw, d);
                        assert(has_path_cost(g, *start, next, new_cost as nat));
                        assert(tbl_inv(g, *start, b, t));
                        // frontier entries still valid
                        assert forall|kk: int|
                            0 <= kk < heap@.len() implies grid.loc_in_bounds((
                        #[trigger] heap@[kk]).1) && tbl_at(g, t, heap@[kk].1) is Some by {
                            if kk < hpre.len() {
                                assert(heap@[kk] == hpre[kk]);
                                if hpre[kk].1 != next {
                                    assert(tbl_at(g, t, hpre[kk].1) == tbl_at(
                                        g,
                                        tpre,
                                        hpre[kk].1,
                                    ));
                                }
                            } else {
                                assert(heap@[kk].1 == next);
                            }
                        }
                        // frontier coverage with the item exemption
                        assert forall|l: Location|
                            grid.loc_in_bounds(l) && (#[trigger] tbl_at(g, t, l)) is Some
                                implies in_heap(heap@, l) || relaxed_at(g, b, t, l) || l == item
                            by {
                            if l == next {
                                assert(heap@[heap@.len() - 1].1 == next);
                                assert(in_heap(heap@, l));
                            } else if l != item {
                                assert(tbl_at(g, t, l) == tbl_at(g, tpre, l));
                                if in_heap(hpre, l) {
                                    let kk = choose|kk: int|
                                        0 <= kk < hpre.len() && (#[trigger] hpre[kk]).1 == l;
                                    assert(heap@[kk].1 == l);
                                    assert(in_heap(heap@, l));
                                } else {
                                    assert(relaxed_at(g, b, tpre, l));
                                    assert forall|d2: Direction|
                                        is_planar(d2) && #[trigger] grid.passable_toward(l, d2)
                                            && tbl_at(g, t, l).unwrap() + grid.move_cost(l, d2)
                                            <= b implies (tbl_at(g, t, loc_step(l, d2)) is Some
                                            && tbl_at(g, t, loc_step(l, d2)).unwrap() <= tbl_at(
                                        g,
                                        t,
                                        l,
                                    ).unwrap() + grid.move_cost(l, d2)) by {
                                        let nb2 = loc_step(l, d2);
                                        grid.lemma_passable_facts(l, d2);
                                        assert(tbl_at(g, tpre, nb2) is Some && tbl_at(
                                            g,
                                            tpre,
                                            nb2,
                                        ).unwrap() <= tbl_at(g, tpre, l).unwrap()
                                            + grid.move_cost(l, d2));
                                        if nb2 == next {
                                            assert(new_cost < tbl_at(g, tpre, next).unwrap()
                                                || cur is None);
                                        }
                                    }
                                    assert(relaxed_at(g, b, t, l));
                                }
                            }
                        }
                        // visited bookkeeping
                        if was_none {
                            assert(!vpre.contains(next));
                            assert forall|l: Location| #[trigger] visited@.contains(l) implies (
                            grid.loc_in_bounds(l) && l != *start && tbl_at(g, t, l) is Some) by {
                                if l != next {
                                    assert(vpre.contains(l));
                                    assert(tbl_at(g, t, l) == tbl_at(g, tpre, l));
                                }
                            }
                            assert forall|l: Location|
                                (grid.loc_in_bounds(l) && l != *start && (#[trigger] tbl_at(
                                    g,
                                    t,
                                    l,
                                )) is Some) implies visited@.contains(l) by {
                                if l != next {
                                    assert(tbl_at(g, tpre, l) == tbl_at(g, t, l));
                                    assert(vpre.contains(l));
                                }
                            }
                        } else {
                            assert(vpre.contains(next));
                            assert forall|l: Location|
                                #![trigger visited@.contains(l)]
                                #![trigger tbl_at(g, t, l)]
                                visited@.contains(l) <==> (grid.loc_in_bounds(l) && l != *start
                                    && tbl_at(g, t, l) is Some) by {
                                if grid.loc_in_bounds(l) && l != next {
                                    assert(tbl_at(g, t, l) == tbl_at(g, tpre, l));
                                }
                            }
                        }
                        // processed prefix
                        assert forall|j: int|
                            0 <= j < k + 1 && c_item + step_cost(g, item, #[trigger] nbrs@[j])
                                <= b implies (tbl_at(g, t, nbrs@[j]) is Some && tbl_at(
                            g,
                            t,
                            nbrs@[j],
                        ).unwrap() <= c_item + step_cost(g, item, nbrs@[j])) by {
                            if j == k {
                                assert(nbrs@[j] == next);
                            } else {
                                if nbrs@[j] == next {
                                    assert(new_cost < tbl_at(g, tpre, next).unwrap()
                                        || cur is None);
                                } else {
                                    assert(nbrs@.contains(nbrs@[j]));
                                    let dj = choose|dj: Direction|
                                        is_planar(dj) && #[trigger] grid.passable_toward(item, dj)
                                            && nbrs@[j] == loc_step(item, dj);
                                    grid.lemma_passable_facts(item, dj);
                                    assert(tbl_at(g, t, nbrs@[j]) == tbl_at(
                                        g,
                                        tpre,
                                        nbrs@[j],
                                    ));
                                }
                            }
                        }
                        // the new entry's predecessor relation
                        assert forall|l: Location|
                            g.loc_in_bounds(l) && l != *start && (#[trigger] tbl_at(
                                g,
                                t,
                                l,
                            )) is Some implies {
                            let po = preds@[g.idx_of(l)];
                            &&& po is Some
                            &&& step_ok(g, po.unwrap(), l)
                            &&& g.loc_in_bounds(po.unwrap())
                            &&& tbl_at(g, t, po.unwrap()) is Some
                            &&& tbl_at(g, t, l).unwrap() >= tbl_at(g, t, po.unwrap()).unwrap()
                                + step_cost(g, po.unwrap(), l)
                        } by {
                            grid.lemma_idx_in_range(l);
                            if l == next {
                                assert(preds@[g.idx_of(next)] == Some(item));
                                assert(g.passable_toward(item, d) && next == loc_step(item, d));
                                assert(step_ok(g, item, next));
                                assert(step_cost(g, item, next) == g.move_cost(item, d));
                            } else {
                                if g.idx_of(l) == g.idx_of(next) {
                                    grid.lemma_idx_injective(l, next);
                                }
                                assert(preds@[g.idx_of(l)] == ppre[g.idx_of(l)]);
                                assert(tbl_at(g, t, l) == tbl_at(g, tpre, l));
                                let po = ppre[g.idx_of(l)];
                                assert(po is Some && step_ok(g, po.unwrap(), l));
                                if po.unwrap() != next {
                                    assert(tbl_at(g, t, po.unwrap()) == tbl_at(
                                        g,
                                        tpre,
                                        po.unwrap(),
                                    ));
                                }
                            }
                        }
                        // termination potential strictly dropped
                        lemma_phi_update(tpre, grid.idx_of(next), Some(new_cost), b);
                        assert(pot(Some(new_cost), b) < pot(tbl_at(g, tpre, next), b));
                        assert(phi(table@, b) + heap@.len() <= phi(t0, b) + h1.len());
                    }
                } else {
                    proof {
                        assert forall|j: int|
                            0 <= j < k + 1 && c_item + step_cost(g, item, #[trigger] nbrs@[j])
                                <= b implies (tbl_at(g, table@, nbrs@[j]) is Some && tbl_at(
                            g,
                            table@,
                            nbrs@[j],
                        ).unwrap() <= c_item + step_cost(g, item, nbrs@[j])) by {
                            if j == k {
                                assert(tbl_at(g, table@, next) == cur);
                            }
                        }
                    }
                }
            } else {
                proof {
                    assert(c_item + step_cost(g, item, next) > b);
                    assert forall|j: int|
                        0 <= j < k + 1 && c_item + step_cost(g, item, #[trigger] nbrs@[j]) <= b
                            implies (tbl_at(g, table@, nbrs@[j]) is Some && tbl_at(
                        g,
                        table@,
                        nbrs@[j],
                    ).unwrap() <= c_item + step_cost(g, item, nbrs@[j])) by {}
                }
            }
            k = k + 1;
        }
        proof {
            // the popped location is now fully relaxed
            assert forall|d: Direction|
                is_planar(d) && #[trigger] grid.passable_toward(item, d) && tbl_at(
                    g,
                    table@,
                    item,
                ).unwrap() + grid.move_cost(item, d) <= b implies (tbl_at(
                g,
                table@,
                loc_step(item, d),
            ) is Some && tbl_at(g, table@, loc_step(item, d)).unwrap() <= tbl_at(
                g,
                table@,
                item,
            ).unwrap() + grid.move_cost(item, d)) by {
                let nb = loc_step(item, d);
                assert(nbrs@.contains(nb));
                let j = choose|j: int| 0 <= j < nbrs@.len() && nbrs@[j] == nb;
                grid.lemma_passable_facts(item, d);
                lemma_dir_between_of_neighbor(item, nb, d);
                assert(step_cost(g, item, nb) == grid.move_cost(item, d));
                assert(c_item + step_cost(g, item, #[trigger] nbrs@[j]) <= b);
            }
            assert(relaxed_at(g, b, table@, item));
            assert forall|l: Location|
                grid.loc_in_bounds(l) && (#[trigger] tbl_at(g, table@, l)) is Some implies
                in_heap(heap@, l) || relaxed_at(g, b, table@, l) by {}
            assert(phi(table@, b) + heap@.len() < phi(t0, b) + h0.len());
        }
    }
    proof {
        assert forall|l: Location| #[trigger] visited@.contains(l) <==> (l != *start
            && reachable_within(g, *start, l, b)) by {
            if visited@.contains(l) {
                assert(tbl_at(g, table@, l) is Some);
                let c = tbl_at(g, table@, l).unwrap();
                assert(has_path_cost(g, *start, l, c as nat));
                let p = choose|p: Seq<Location>|
                    #[trigger] is_path(g, p) && p.first() == *start && p.last() == l
                        && path_cost(g, p) == c as nat;
                assert(is_path(g, p) && p.first() == *start && p.last() == l && path_cost(
                    g,
                    p,
                ) <= b);
            }
            if l != *start && reachable_within(g, *start, l, b) {
                let p = choose|p: Seq<Location>|
                    #[trigger] is_path(g, p) && p.first() == *start && p.last() == l
                        && path_cost(g, p) <= b;
                assert forall|l2: Location|
                    grid.loc_in_bounds(l2) && (#[trigger] tbl_at(g, table@, l2)) is Some
                        implies tbl_at(g, table@, l2).unwrap() <= b && relaxed_at(
                    g,
                    b,
                    table@,
                    l2,
                ) by {
                    assert(!in_heap(heap@, l2));
                }
                lemma_fixpoint_complete(g, *start, b, table@, p);
                assert(tbl_at(g, table@, l) is Some);
            }
        }
    }
    let mut out: Vec<(Location, Location)> = Vec::new();
    let mut vi: usize = 0;
    while vi < visited.len()
        invariant
            g == *grid,
            grid.wf(),
            g.loc_in_bounds(*start),
            b == max_move as nat,
            out@.len() == vi,
            vi <= visited@.len(),
            table@.len() == g.volume(),
            tbl_inv(g, *start, b, table@),
            pred_inv(g, *start, table@, preds@),
            visited_inv(g, *start, table@, visited@),
            visited@.no_duplicates(),
            forall|l: Location| #[trigger] visited@.contains(l) <==> (l != *start
                && reachable_within(g, *start, l, b)),
            forall|l2: Location|
                g.loc_in_bounds(l2) && (#[trigger] tbl_at(g, table@, l2)) is Some ==> tbl_at(
                    g,
                    table@,
                    l2,
                ).unwrap() <= b && relaxed_at(g, b, table@, l2),
            forall|k: int|
                0 <= k < vi ==> (#[trigger] out@[k]).0 == visited@[k] && out@[k].1 == preds@[
                    g.idx_of(visited@[k])
                ].unwrap(),
        decreases visited@.len() - vi,
    {
        let v = visited[vi];
        proof {
            assert(visited@.contains(v));
            grid.lemma_idx_in_range(v);
        }
        let pi = grid.cell_index(&v);
        let pred = match preds[pi] {
            Some(pl) => pl,
            None => v,
        };
        out.push((v, pred));
        vi = vi + 1;
    }
    proof {
        assert forall|k1: int, k2: int|
            0 <= k1 < k2 < out@.len() implies (#[trigger] out@[k1]).0 != (#[trigger] out@[k2]).0
            by {
            assert(out@[k1].0 == visited@[k1] && out@[k2].0 == visited@[k2]);
        }
        assert forall|l: Location| #[trigger] maps_key(out@, l) <==> (l != *start
            && reachable_within(g, *start, l, b)) by {
            if maps_key(out@, l) {
                let k = choose|k: int| 0 <= k < out@.len() && (#[trigger] out@[k]).0 == l;
                assert(visited@[k] == l);
                assert(visited@.contains(l));
            }
            if l != *start && reachable_within(g, *start, l, b) {
                assert(visited@.contains(l));
                let k = choose|k: int| 0 <= k < visited@.len() && visited@[k] == l;
                assert((out@[k]).0 == l);
                assert(maps_key(out@, l));
            }
        }
        assert forall|k: int| 0 <= k < out@.len() implies pred_entry_ok(
            g,
            *start,
            b,
            (#[trigger] out@[k]).0,
            out@[k].1,
        ) by {
            let l = out@[k].0;
            let pl = out@[k].1;
            assert(visited@.contains(l));
            assert(g.loc_in_bounds(l) && l != *start && tbl_at(g, table@, l) is Some);
            assert(pl == preds@[g.idx_of(l)].unwrap());
            assert(step_ok(g, pl, l));
            let c = tbl_at(g, table@, l).unwrap() as nat;
            let cp = tbl_at(g, table@, pl).unwrap() as nat;
            lemma_fixpoint_minimal(g, *start, b, table@, l);
            lemma_fixpoint_minimal(g, *start, b, table@, pl);
            assert(c >= cp + step_cost(g, pl, l));
            let d = choose|d: Direction|
                is_planar(d) && #[trigger] g.passable_toward(pl, d) && l == loc_step(pl, d);
            g.lemma_passable_facts(pl, d);
            lemma_dir_between_of_neighbor(pl, l, d);
            assert(step_cost(g, pl, l) == g.move_cost(pl, d));
            assert(cp + g.move_cost(pl, d) <= b);
            assert(relaxed_at(g, b, table@, pl));
            assert(tbl_at(g, table@, l).unwrap() <= cp + g.move_cost(pl, d));
            assert(cp + step_cost(g, pl, l) == c);
        }
    }
    out
}

/// All locations other than `start` reachable from it with accumulated
/// move cost at most `max_move`, in some order without duplicates. The
/// start itself is never part of the result, a grid with an out-of-bounds
/// start has none, and with a budget of 0 the result is always empty.
pub fn path_2d(grid: Grid, start: &Location, max_move: usize) -> (r: Vec<Location>)
    requires
        grid.wf(),
    ensures
        r@.no_duplicates(),
        forall|l: Location| #[trigger] r@.contains(l) <==> (l != *start && reachable_within(
            grid,
            *start,
            l,
            max_move as nat,
        )),
{
    let pairs = predecessors_2d(&grid, start, max_move);
    let mut out: Vec<Location> = Vec::new();
    let mut i: usize = 0;
    while i < pairs.len()
        invariant
            out@.len() == i,
            i <= pairs@.len(),
            forall|k1: int, k2: int|
                0 <= k1 < k2 < pairs@.len() ==> (#[trigger] pairs@[k1]).0 != (
                #[trigger] pairs@[k2]).0,
            forall|k: int| 0 <= k < i ==> (#[trigger] out@[k]) == pairs@[k].0,
        decreases pairs@.len() - i,
    {
        let pair = pairs[i];
        out.push(pair.0);
        i = i + 1;
    }
    proof {
        assert forall|k1: int, k2: int|
            0 <= k1 < out@.len() && 0 <= k2 < out@.len() && k1 != k2 implies out@[k1] != out@[k2]
            by {
            if k1 < k2 {
                assert(out@[k1] == pairs@[k1].0 && out@[k2] == pairs@[k2].0);
            } else {
                assert(out@[k1] == pairs@[k1].0 && out@[k2] == pairs@[k2].0);
            }
        }
        assert forall|l: Location| #[trigger] out@.contains(l) <==> (l != *start
            && reachable_within(grid, *start, l, max_move as nat)) by {
            if out@.contains(l) {
                let k = choose|k: int| 0 <= k < out@.len() && out@[k] == l;
                assert((pairs@[k]).0 == l);
                assert(maps_key(pairs@, l));
            }
            if l != *start && reachable_within(grid, *start, l, max_move as nat) {
                assert(maps_key(pairs@, l));
                let k = choose|k: int| 0 <= k < pairs@.len() && (#[trigger] pairs@[k]).0 == l;
                assert(out@[k] == l);
                assert(out@.contains(l));
            }
        }
    }
    out
}

} // verus!
