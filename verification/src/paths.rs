use std::collections::VecDeque;

use vstd::prelude::*;

use crate::maze::{Maze, TilePos};

verus! {

/// The walkable layout of a maze: `tiles` is row-major, `1` is walkable.
pub struct Floorplan {
    pub width: int,
    pub height: int,
    pub tiles: Seq<u8>,
}

/// Row-major position of the tile `(x, y)` in a grid `width` tiles wide.
pub open spec fn slot(width: int, x: int, y: int) -> int {
    y * width + x
}

impl Floorplan {
    pub open spec fn contains(self, x: int, y: int) -> bool {
        0 <= x < self.width && 0 <= y < self.height
    }

    pub open spec fn is_open(self, x: int, y: int) -> bool {
        self.contains(x, y) && self.tiles[slot(self.width, x, y)] == 1
    }

    /// How many of the four orthogonal neighbours of `(x, y)` are walkable.
    pub open spec fn open_neighbors(self, x: int, y: int) -> nat {
        (if self.is_open(x + 1, y) { 1nat } else { 0nat })
        + (if self.is_open(x - 1, y) { 1nat } else { 0nat })
        + (if self.is_open(x, y + 1) { 1nat } else { 0nat })
        + (if self.is_open(x, y - 1) { 1nat } else { 0nat })
    }

    /// `(x, y)` can be reached from `(sx, sy)` in at most `k` steps, each step
    /// going to an orthogonal neighbour that is walkable. The start itself need
    /// not be walkable.
    pub open spec fn within(self, sx: int, sy: int, x: int, y: int, k: nat) -> bool
        decreases k,
    {
        (x == sx && y == sy) || (k > 0 && self.is_open(x, y) && (self.within(
            sx,
            sy,
            x - 1,
            y,
            (k - 1) as nat,
        ) || self.within(sx, sy, x + 1, y, (k - 1) as nat) || self.within(
            sx,
            sy,
            x,
            y - 1,
            (k - 1) as nat,
        ) || self.within(sx, sy, x, y + 1, (k - 1) as nat)))
    }

    pub open spec fn reachable(self, sx: int, sy: int, x: int, y: int) -> bool {
        exists|k: nat| #[trigger] self.within(sx, sy, x, y, k)
    }

    /// The shortest walk from `(sx, sy)` to `(x, y)` takes exactly `k` steps.
    pub open spec fn is_distance(self, sx: int, sy: int, x: int, y: int, k: nat) -> bool {
        &&& self.within(sx, sy, x, y, k)
        &&& forall|j: nat| j < k ==> !#[trigger] self.within(sx, sy, x, y, j)
    }
}

/// The entry that a row-major table `d` holds for the tile `(x, y)`.
pub open spec fn dist_at(d: Seq<usize>, width: int, x: int, y: int) -> usize {
    d[slot(width, x, y)]
}

/// The table `d` answers the breadth-first search of `plan` from `(sx, sy)`:
/// `usize::MAX` where no walk reaches a tile, the shortest walk's length elsewhere.
pub open spec fn answers_search(plan: Floorplan, sx: int, sy: int, d: Seq<usize>) -> bool {
    &&& d.len() == plan.width * plan.height
    &&& forall|x: int, y: int|
        plan.contains(x, y) ==> ((#[trigger] dist_at(d, plan.width, x, y) == usize::MAX)
            == !plan.reachable(sx, sy, x, y))
    &&& forall|x: int, y: int|
        plan.contains(x, y) && #[trigger] dist_at(d, plan.width, x, y) != usize::MAX
            ==> plan.is_distance(sx, sy, x, y, dist_at(d, plan.width, x, y) as nat)
}

} // verus!

verus! {

spec fn found(d: Seq<usize>, width: int, x: int, y: int) -> bool {
    dist_at(d, width, x, y) != usize::MAX
}

spec fn pos(x: int, y: int) -> TilePos {
    TilePos { x: x as usize, y: y as usize }
}

/// The step from `(x, y)` to `(nx, ny)`, where it is walkable, has been explored.
spec fn edge_done(plan: Floorplan, d: Seq<usize>, x: int, y: int, nx: int, ny: int) -> bool {
    plan.is_open(nx, ny) ==> found(d, plan.width, nx, ny) && dist_at(d, plan.width, nx, ny)
        <= dist_at(d, plan.width, x, y) + 1
}

spec fn closed_at(plan: Floorplan, d: Seq<usize>, x: int, y: int) -> bool {
    &&& edge_done(plan, d, x, y, x + 1, y)
    &&& edge_done(plan, d, x, y, x - 1, y)
    &&& edge_done(plan, d, x, y, x, y + 1)
    &&& edge_done(plan, d, x, y, x, y - 1)
}

/// What holds of the search at every point: found tiles are tracked in `seen`,
/// their entries are walk lengths, and the queue holds distinct found tiles in
/// order of distance.
spec fn search_core(
    plan: Floorplan,
    sx: int,
    sy: int,
    d: Seq<usize>,
    q: Seq<TilePos>,
    seen: Set<int>,
) -> bool {
    let w = plan.width;
    &&& 0 <= w <= usize::MAX
    &&& 0 <= plan.height <= usize::MAX
    &&& d.len() == w * plan.height
    &&& d.len() <= usize::MAX
    &&& plan.contains(sx, sy)
    &&& seen.finite()
    &&& seen.len() <= d.len()
    &&& forall|i: int| #[trigger] seen.contains(i) == (0 <= i < d.len() && d[i] != usize::MAX)
    &&& forall|i: int| 0 <= i < d.len() && d[i] != usize::MAX ==> #[trigger] d[i] < seen.len()
    &&& dist_at(d, w, sx, sy) == 0
    &&& forall|j: int|
        0 <= j < q.len() ==> plan.contains(q[j].x as int, q[j].y as int) && found(
            d,
            w,
            #[trigger] q[j].x as int,
            q[j].y as int,
        )
    &&& forall|j: int, k: int| 0 <= j < k < q.len() ==> #[trigger] q[j] != #[trigger] q[k]
    &&& forall|j: int, k: int|
        0 <= j <= k < q.len() ==> dist_at(d, w, #[trigger] q[j].x as int, q[j].y as int) <= dist_at(
            d,
            w,
            #[trigger] q[k].x as int,
            q[k].y as int,
        )
    &&& forall|x: int, y: int|
        plan.contains(x, y) && #[trigger] found(d, w, x, y) ==> plan.within(
            sx,
            sy,
            x,
            y,
            dist_at(d, w, x, y) as nat,
        )
}

/// Between iterations: every found tile that has left the queue is closed, and
/// no found tile is more than one step farther than the queue's head.
spec fn search_settled(
    plan: Floorplan,
    sx: int,
    sy: int,
    d: Seq<usize>,
    q: Seq<TilePos>,
    seen: Set<int>,
) -> bool {
    let w = plan.width;
    &&& search_core(plan, sx, sy, d, q, seen)
    &&& forall|x: int, y: int|
        plan.contains(x, y) && #[trigger] found(d, w, x, y) && !q.contains(pos(x, y))
            ==> closed_at(plan, d, x, y)
    &&& q.len() > 0 ==> forall|x: int, y: int|
        plan.contains(x, y) && #[trigger] found(d, w, x, y) ==> dist_at(d, w, x, y) <= dist_at(
            d,
            w,
            q[0].x as int,
            q[0].y as int,
        ) + 1
}

/// While the neighbours of `p`, just taken from the queue, are explored.
spec fn search_at(
    plan: Floorplan,
    sx: int,
    sy: int,
    d: Seq<usize>,
    q: Seq<TilePos>,
    seen: Set<int>,
    p: TilePos,
) -> bool {
    let w = plan.width;
    let dp = dist_at(d, w, p.x as int, p.y as int);
    &&& search_core(plan, sx, sy, d, q, seen)
    &&& plan.contains(p.x as int, p.y as int)
    &&& found(d, w, p.x as int, p.y as int)
    &&& !q.contains(p)
    &&& forall|x: int, y: int|
        plan.contains(x, y) && #[trigger] found(d, w, x, y) && !q.contains(pos(x, y)) && pos(x, y)
            != p ==> closed_at(plan, d, x, y)
    &&& forall|x: int, y: int|
        plan.contains(x, y) && #[trigger] found(d, w, x, y) ==> dist_at(d, w, x, y) <= dp + 1
    &&& forall|j: int| 0 <= j < q.len() ==> dp <= dist_at(d, w, #[trigger] q[j].x as int, q[j].y as int)
}

/// Two tiles of one grid with the same row-major position are the same tile.
pub proof fn lemma_slot_injective(width: int, x1: int, y1: int, x2: int, y2: int)
    requires
        0 <= x1 < width,
        0 <= x2 < width,
        0 <= y1,
        0 <= y2,
        slot(width, x1, y1) == slot(width, x2, y2),
    ensures
        x1 == x2 && y1 == y2,
{
    if y1 < y2 {
        assert(y1 * width + x1 < y2 * width + x2) by (nonlinear_arith)
            requires
                0 <= x1 < width,
                0 <= x2 < width,
                0 <= y1 < y2,
        ;
    } else if y2 < y1 {
        assert(y2 * width + x2 < y1 * width + x1) by (nonlinear_arith)
            requires
                0 <= x1 < width,
                0 <= x2 < width,
                0 <= y2 < y1,
        ;
    }
}

/// A walk of at most `j` steps is one of at most `k` steps, for `j <= k`.
pub proof fn lemma_within_monotone(
    plan: Floorplan,
    sx: int,
    sy: int,
    x: int,
    y: int,
    j: nat,
    k: nat,
)
    requires
        j <= k,
        plan.within(sx, sy, x, y, j),
    ensures
        plan.within(sx, sy, x, y, k),
    decreases j,
{
    if x == sx && y == sy {
    } else {
        let j1 = (j - 1) as nat;
        let k1 = (k - 1) as nat;
        if plan.within(sx, sy, x - 1, y, j1) {
            lemma_within_monotone(plan, sx, sy, x - 1, y, j1, k1);
        } else if plan.within(sx, sy, x + 1, y, j1) {
            lemma_within_monotone(plan, sx, sy, x + 1, y, j1, k1);
        } else if plan.within(sx, sy, x, y - 1, j1) {
            lemma_within_monotone(plan, sx, sy, x, y - 1, j1, k1);
        } else {
            lemma_within_monotone(plan, sx, sy, x, y + 1, j1, k1);
        }
    }
}

/// A walk ends at the start or on a walkable tile.
pub proof fn lemma_within_ends_open(plan: Floorplan, sx: int, sy: int, x: int, y: int, k: nat)
    requires
        plan.within(sx, sy, x, y, k),
    ensures
        (x == sx && y == sy) || plan.is_open(x, y),
{
}

/// A tile inside a `width` x `height` grid has a row-major position inside it.
pub proof fn lemma_slot_bounds(width: int, height: int, x: int, y: int)
    requires
        0 <= x < width,
        0 <= y < height,
    ensures
        0 <= y * width <= slot(width, x, y) < width * height,
{
    assert(0 <= y * width <= y * width + x < width * height) by (nonlinear_arith)
        requires
            0 <= x < width,
            0 <= y < height,
    ;
}

} // verus!

verus! {

/// Taking the head `p` off a settled queue starts exploring `p`.
proof fn lemma_search_enter(
    plan: Floorplan,
    sx: int,
    sy: int,
    d: Seq<usize>,
    q: Seq<TilePos>,
    seen: Set<int>,
)
    requires
        search_settled(plan, sx, sy, d, q, seen),
        q.len() > 0,
    ensures
        search_at(plan, sx, sy, d, q.subrange(1, q.len() as int), seen, q[0]),
{
    let w = plan.width;
    let p = q[0];
    let q1 = q.subrange(1, q.len() as int);
    assert(plan.contains(p.x as int, p.y as int) && found(d, w, p.x as int, p.y as int));
    assert(!q1.contains(p)) by {
        if q1.contains(p) {
            let j = choose|j: int| 0 <= j < q1.len() && q1[j] == p;
            assert(q[0] != q[j + 1]);
        }
    }
    assert forall|x: int, y: int|
        plan.contains(x, y) && #[trigger] found(d, w, x, y) && !q1.contains(pos(x, y)) && pos(x, y)
            != p implies closed_at(plan, d, x, y) by {
        if q.contains(pos(x, y)) {
            let j = choose|j: int| 0 <= j < q.len() && q[j] == pos(x, y);
            assert(j != 0);
            assert(q1[j - 1] == pos(x, y));
        }
    }
    assert forall|j: int| 0 <= j < q1.len() implies dist_at(
        d,
        w,
        p.x as int,
        p.y as int,
    ) <= dist_at(d, w, #[trigger] q1[j].x as int, q1[j].y as int) by {
        assert(q1[j] == q[j + 1]);
    }
    assert(search_core(plan, sx, sy, d, q1, seen)) by {
        assert forall|j: int, k: int| 0 <= j < k < q1.len() implies #[trigger] q1[j] != #[trigger] q1[k] by {
            assert(q1[j] == q[j + 1] && q1[k] == q[k + 1]);
        }
        assert forall|j: int, k: int| 0 <= j <= k < q1.len() implies dist_at(
            d,
            w,
            #[trigger] q1[j].x as int,
            q1[j].y as int,
        ) <= dist_at(d, w, #[trigger] q1[k].x as int, q1[k].y as int) by {
            assert(q1[j] == q[j + 1] && q1[k] == q[k + 1]);
        }
        assert forall|j: int| 0 <= j < q1.len() implies plan.contains(
            q1[j].x as int,
            q1[j].y as int,
        ) && found(d, w, #[trigger] q1[j].x as int, q1[j].y as int) by {
            assert(q1[j] == q[j + 1]);
        }
    }
}

/// Exploring the step from `p` to its neighbour `(x, y)` keeps the search
/// consistent, keeps every found entry, and leaves `(x, y)` found if walkable.
#[verifier::spinoff_prover]
proof fn lemma_search_relax(
    plan: Floorplan,
    sx: int,
    sy: int,
    p: TilePos,
    d: Seq<usize>,
    q: Seq<TilePos>,
    seen: Set<int>,
    d2: Seq<usize>,
    q2: Seq<TilePos>,
    seen2: Set<int>,
    x: int,
    y: int,
    fresh: bool,
)
    requires
        search_at(plan, sx, sy, d, q, seen, p),
        plan.contains(x, y),
        (x == p.x + 1 && y == p.y) || (x == p.x - 1 && y == p.y) || (x == p.x && y == p.y + 1) || (
        x == p.x && y == p.y - 1),
        fresh == (plan.is_open(x, y) && dist_at(d, plan.width, x, y) == usize::MAX),
        fresh ==> d2 == d.update(
            slot(plan.width, x, y),
            (dist_at(d, plan.width, p.x as int, p.y as int) + 1) as usize,
        ) && q2 == q.push(pos(x, y)) && seen2 == seen.insert(slot(plan.width, x, y)),
        !fresh ==> d2 == d && q2 == q && seen2 == seen,
    ensures
        search_at(plan, sx, sy, d2, q2, seen2, p),
        forall|a: int, b: int|
            plan.contains(a, b) && #[trigger] found(d, plan.width, a, b) ==> found(
                d2,
                plan.width,
                a,
                b,
            ) && dist_at(d2, plan.width, a, b) == dist_at(d, plan.width, a, b),
        plan.is_open(x, y) ==> found(d2, plan.width, x, y),
{
    if !fresh {
        return;
    }
    let w = plan.width;
    let at = slot(w, x, y);
    let dp = dist_at(d, w, p.x as int, p.y as int);
    let v = (dp + 1) as usize;
    lemma_slot_bounds(w, plan.height, x, y);
    // the new entry is in range and fresh
    assert(!seen.contains(at));
    vstd::set_lib::lemma_int_range(0, d.len() as int);
    assert(seen2.subset_of(vstd::set_lib::set_int_range(0, d.len() as int)));
    vstd::set_lib::lemma_len_subset(seen2, vstd::set_lib::set_int_range(0, d.len() as int));
    assert(seen2.len() == seen.len() + 1);
    lemma_slot_bounds(w, plan.height, p.x as int, p.y as int);
    assert(d[slot(w, p.x as int, p.y as int)] == dp);
    assert(dp < seen.len());
    // found entries keep their value
    assert forall|a: int, b: int|
        plan.contains(a, b) && #[trigger] found(d, w, a, b) implies found(d2, w, a, b) && dist_at(
            d2,
            w,
            a,
            b,
        ) == dist_at(d, w, a, b) by {
        lemma_slot_bounds(w, plan.height, a, b);
        assert(slot(w, a, b) != at);
    }
    // tiles that are found only now are the tile (x, y)
    assert forall|a: int, b: int|
        plan.contains(a, b) && #[trigger] found(d2, w, a, b) && !found(d, w, a, b) implies a == x
        && b == y && dist_at(d2, w, a, b) == v by {
        lemma_slot_bounds(w, plan.height, a, b);
        assert(slot(w, a, b) == at);
        lemma_slot_injective(w, a, b, x, y);
    }
    assert(plan.within(sx, sy, x, y, v as nat)) by {
        assert(plan.within(sx, sy, p.x as int, p.y as int, dp as nat));
    }
    assert(d2[at] == v);
    assert(dist_at(d2, w, x, y) == v);
    assert(q2.len() == q.len() + 1 && q2[q.len() as int] == pos(x, y));
    assert forall|j: int| 0 <= j < q.len() implies #[trigger] q2[j] == q[j] && found(
        d,
        w,
        q[j].x as int,
        q[j].y as int,
    ) by {}
    assert(search_core(plan, sx, sy, d2, q2, seen2)) by {
        assert forall|i: int| #[trigger] seen2.contains(i) == (0 <= i < d2.len() && d2[i]
            != usize::MAX) by {
            if i == at {
            } else {
                assert(seen2.contains(i) == seen.contains(i));
            }
        }
        assert forall|i: int| 0 <= i < d2.len() && d2[i] != usize::MAX implies #[trigger] d2[i]
            < seen2.len() by {
            if i != at {
                assert(d2[i] == d[i]);
            }
        }
        assert forall|j: int|
            0 <= j < q2.len() implies plan.contains(q2[j].x as int, q2[j].y as int) && found(
            d2,
            w,
            #[trigger] q2[j].x as int,
            q2[j].y as int,
        ) by {
            if j < q.len() {
                assert(q2[j] == q[j]);
            }
        }
        assert forall|j: int, k: int| 0 <= j < k < q2.len() implies #[trigger] q2[j]
            != #[trigger] q2[k] by {
            if k == q.len() {
                assert(q2[j] == q[j]);
                assert(found(d, w, q[j].x as int, q[j].y as int));
            } else {
                assert(q2[j] == q[j] && q2[k] == q[k]);
            }
        }
        assert forall|j: int, k: int| 0 <= j <= k < q2.len() implies dist_at(
            d2,
            w,
            #[trigger] q2[j].x as int,
            q2[j].y as int,
        ) <= dist_at(d2, w, #[trigger] q2[k].x as int, q2[k].y as int) by {
            if k == q.len() {
                if j < q.len() {
                    assert(q2[j] == q[j]);
                    assert(found(d, w, q[j].x as int, q[j].y as int));
                }
            } else {
                assert(q2[j] == q[j] && q2[k] == q[k]);
                assert(found(d, w, q[j].x as int, q[j].y as int));
                assert(found(d, w, q[k].x as int, q[k].y as int));
            }
        }
        assert forall|a: int, b: int|
            plan.contains(a, b) && #[trigger] found(d2, w, a, b) implies plan.within(
            sx,
            sy,
            a,
            b,
            dist_at(d2, w, a, b) as nat,
        ) by {
            if !found(d, w, a, b) {
                assert(a == x && b == y);
            }
        }
        assert(found(d, w, sx, sy));
    }
    assert(!q2.contains(p)) by {
        if q2.contains(p) {
            let j = choose|j: int| 0 <= j < q2.len() && q2[j] == p;
            if j < q.len() {
                assert(q2[j] == q[j]);
            }
        }
    }
    assert forall|a: int, b: int|
        plan.contains(a, b) && #[trigger] found(d2, w, a, b) && !q2.contains(pos(a, b)) && pos(a, b)
            != p implies closed_at(plan, d2, a, b) by {
        if !found(d, w, a, b) {
            assert(a == x && b == y);
            assert(q2[q.len() as int] == pos(a, b));
        } else {
            assert(!q.contains(pos(a, b))) by {
                if q.contains(pos(a, b)) {
                    let j = choose|j: int| 0 <= j < q.len() && q[j] == pos(a, b);
                    assert(q2[j] == q[j]);
                }
            }
            assert(closed_at(plan, d, a, b));
            assert(plan.contains(a + 1, b) && found(d, w, a + 1, b) ==> found(d2, w, a + 1, b));
            assert(plan.contains(a - 1, b) && found(d, w, a - 1, b) ==> found(d2, w, a - 1, b));
            assert(plan.contains(a, b + 1) && found(d, w, a, b + 1) ==> found(d2, w, a, b + 1));
            assert(plan.contains(a, b - 1) && found(d, w, a, b - 1) ==> found(d2, w, a, b - 1));
        }
    }
    assert forall|a: int, b: int|
        plan.contains(a, b) && #[trigger] found(d2, w, a, b) implies dist_at(d2, w, a, b) <= dist_at(
        d2,
        w,
        p.x as int,
        p.y as int,
    ) + 1 by {}
    assert forall|j: int| 0 <= j < q2.len() implies dist_at(
        d2,
        w,
        p.x as int,
        p.y as int,
    ) <= dist_at(d2, w, #[trigger] q2[j].x as int, q2[j].y as int) by {
        if j < q.len() {
            assert(q2[j] == q[j]);
        }
    }
}

} // verus!

verus! {

/// Once every neighbour of `p` is explored, the search is settled again.
proof fn lemma_search_leave(
    plan: Floorplan,
    sx: int,
    sy: int,
    d: Seq<usize>,
    q: Seq<TilePos>,
    seen: Set<int>,
    p: TilePos,
)
    requires
        search_at(plan, sx, sy, d, q, seen, p),
        closed_at(plan, d, p.x as int, p.y as int),
    ensures
        search_settled(plan, sx, sy, d, q, seen),
{
    let w = plan.width;
    assert forall|x: int, y: int|
        plan.contains(x, y) && #[trigger] found(d, w, x, y) && !q.contains(pos(x, y)) implies closed_at(
        plan,
        d,
        x,
        y,
    ) by {
        if pos(x, y) == p {
            assert(x == p.x as int && y == p.y as int);
        }
    }
    if q.len() > 0 {
        assert(dist_at(d, w, p.x as int, p.y as int) <= dist_at(d, w, q[0].x as int, q[0].y as int));
    }
}

/// When no tile waits in the queue, every walk from the start ends on a found
/// tile whose entry is at most the walk's length.
proof fn lemma_search_complete(
    plan: Floorplan,
    sx: int,
    sy: int,
    d: Seq<usize>,
    seen: Set<int>,
    x: int,
    y: int,
    k: nat,
)
    requires
        search_settled(plan, sx, sy, d, Seq::empty(), seen),
        plan.within(sx, sy, x, y, k),
    ensures
        plan.contains(x, y),
        found(d, plan.width, x, y),
        dist_at(d, plan.width, x, y) <= k,
    decreases k,
{
    let w = plan.width;
    let q = Seq::<TilePos>::empty();
    if x == sx && y == sy {
        assert(found(d, w, sx, sy));
    } else {
        let k1 = (k - 1) as nat;
        let (rx, ry) = if plan.within(sx, sy, x - 1, y, k1) {
            (x - 1, y)
        } else if plan.within(sx, sy, x + 1, y, k1) {
            (x + 1, y)
        } else if plan.within(sx, sy, x, y - 1, k1) {
            (x, y - 1)
        } else {
            (x, y + 1)
        };
        lemma_search_complete(plan, sx, sy, d, seen, rx, ry, k1);
        assert(!q.contains(pos(rx, ry)));
        assert(closed_at(plan, d, rx, ry));
    }
}

/// Settles the tile `(x, y)` as reachable in `value` steps if it is walkable
/// and not yet found; answers whether it did.
fn relax(
    maze: &Maze,
    dist: &mut Vec<usize>,
    queue: &mut VecDeque<TilePos>,
    x: usize,
    y: usize,
    value: usize,
) -> (fresh: bool)
    requires
        maze.well_formed(),
        x < maze.width,
        y < maze.height,
        old(dist)@.len() == maze.width * maze.height,
    ensures
        fresh == (maze.plan().is_open(x as int, y as int) && dist_at(
            old(dist)@,
            maze.width as int,
            x as int,
            y as int,
        ) == usize::MAX),
        fresh ==> final(dist)@ == old(dist)@.update(slot(maze.width as int, x as int, y as int), value)
            && final(queue)@ == old(queue)@.push(TilePos { x, y }),
        !fresh ==> final(dist)@ == old(dist)@ && final(queue)@ == old(queue)@,
{
    let len: usize = dist.len();
    proof {
        maze.lemma_sides_fit(x as int, y as int);
    }
    if maze.is_floor(x as isize, y as isize) {
        proof {
            lemma_slot_bounds(maze.width as int, maze.height as int, x as int, y as int);
            assert(len == old(dist)@.len());
        }
        let at: usize = y * maze.width + x;
        if dist[at] == usize::MAX {
            dist.set(at, value);
            queue.push_back(TilePos { x, y });
            return true;
        }
    }
    false
}

/// Breadth-first search over the walkable tiles from `start`: the row-major
/// table of shortest walk lengths, `usize::MAX` where no walk leads.
#[verifier::spinoff_prover]
#[verifier::rlimit(40)]
pub fn distances_from(maze: &Maze, start: TilePos) -> (dist: Vec<usize>)
    requires
        maze.well_formed(),
        start.x < maze.width,
        start.y < maze.height,
    ensures
        answers_search(maze.plan(), start.x as int, start.y as int, dist@),
{
    let w: usize = maze.width;
    let h: usize = maze.height;
    let ghost plan = maze.plan();
    let ghost sx = start.x as int;
    let ghost sy = start.y as int;
    proof {
        lemma_slot_bounds(w as int, h as int, start.x as int, start.y as int);
        let total = maze.tiles.len();
        assert(maze.tiles@.len() == total);
    }
    let n: usize = w * h;
    let mut dist: Vec<usize> = vec![usize::MAX; n];
    let mut queue: VecDeque<TilePos> = VecDeque::new();
    let origin: usize = start.y * w + start.x;
    dist.set(origin, 0);
    queue.push_back(start);
    let ghost mut seen: Set<int> = Set::empty().insert(origin as int);
    proof {
        let d = dist@;
        assert(queue@ == seq![start]);
        assert forall|i: int| #[trigger] seen.contains(i) == (0 <= i < d.len() && d[i] != usize::MAX) by {
            if 0 <= i < d.len() && i != origin {
                assert(d[i] == usize::MAX);
            }
        }
        assert forall|x: int, y: int|
            plan.contains(x, y) && #[trigger] found(d, w as int, x, y) implies x == sx && y == sy by {
            lemma_slot_bounds(w as int, h as int, x, y);
            assert(slot(w as int, x, y) == origin);
            lemma_slot_injective(w as int, x, y, sx, sy);
        }
        assert(pos(sx, sy) == start);
        assert(plan.within(sx, sy, sx, sy, 0));
        assert(seen.len() == 1);
        assert(d[origin as int] == 0);
        assert(dist_at(d, w as int, sx, sy) == 0);
        assert(queue@[0] == start);
        assert(found(d, w as int, sx, sy));
        assert(d.len() <= usize::MAX);
        assert(search_core(plan, sx, sy, d, queue@, seen));
        assert forall|x: int, y: int|
            plan.contains(x, y) && #[trigger] found(d, w as int, x, y) && !queue@.contains(pos(x, y))
                implies closed_at(plan, d, x, y) by {
            assert(queue@[0] == pos(x, y));
        }
        assert(search_settled(plan, sx, sy, d, queue@, seen));
    }
    loop
        invariant
            maze.well_formed(),
            w == maze.width,
            h == maze.height,
            plan == maze.plan(),
            sx == start.x,
            sy == start.y,
            dist@.len() == n,
            n == w * h,
            search_settled(plan, sx, sy, dist@, queue@, seen),
        ensures
            search_settled(plan, sx, sy, dist@, queue@, seen),
            queue@.len() == 0,
        decreases 2 * (dist@.len() - seen.len()) + queue@.len(),
    {
        let ghost q0 = queue@;
        let popped = queue.pop_front();
        let p = match popped {
            Some(p) => p,
            None => {
                break;
            },
        };
        proof {
            lemma_search_enter(plan, sx, sy, dist@, q0, seen);
            lemma_slot_bounds(w as int, h as int, p.x as int, p.y as int);
        }
        let here: usize = p.y * w + p.x;
        let next: usize = dist[here] + 1;
        let ghost px = p.x as int;
        let ghost py = p.y as int;
        if p.x + 1 < w {
            let ghost (d0, qq0, s0) = (dist@, queue@, seen);
            let fresh = relax(maze, &mut dist, &mut queue, p.x + 1, p.y, next);
            proof {
                if fresh {
                    seen = seen.insert(slot(w as int, px + 1, py));
                }
                lemma_search_relax(plan, sx, sy, p, d0, qq0, s0, dist@, queue@, seen, px + 1, py, fresh);
            }
        }
        let ghost d1 = dist@;
        if p.x > 0 {
            let ghost (d0, qq0, s0) = (dist@, queue@, seen);
            let fresh = relax(maze, &mut dist, &mut queue, p.x - 1, p.y, next);
            proof {
                if fresh {
                    seen = seen.insert(slot(w as int, px - 1, py));
                }
                lemma_search_relax(plan, sx, sy, p, d0, qq0, s0, dist@, queue@, seen, px - 1, py, fresh);
            }
        }
        let ghost d2 = dist@;
        if p.y + 1 < h {
            let ghost (d0, qq0, s0) = (dist@, queue@, seen);
            let fresh = relax(maze, &mut dist, &mut queue, p.x, p.y + 1, next);
            proof {
                if fresh {
                    seen = seen.insert(slot(w as int, px, py + 1));
                }
                lemma_search_relax(plan, sx, sy, p, d0, qq0, s0, dist@, queue@, seen, px, py + 1, fresh);
            }
        }
        let ghost d3 = dist@;
        if p.y > 0 {
            let ghost (d0, qq0, s0) = (dist@, queue@, seen);
            let fresh = relax(maze, &mut dist, &mut queue, p.x, p.y - 1, next);
            proof {
                if fresh {
                    seen = seen.insert(slot(w as int, px, py - 1));
                }
                lemma_search_relax(plan, sx, sy, p, d0, qq0, s0, dist@, queue@, seen, px, py - 1, fresh);
            }
        }
        proof {
            let d = dist@;
            assert(plan.is_open(px + 1, py) ==> found(d1, w as int, px + 1, py));
            assert(plan.is_open(px - 1, py) ==> found(d2, w as int, px - 1, py));
            assert(plan.is_open(px, py + 1) ==> found(d3, w as int, px, py + 1));
            assert(closed_at(plan, d, px, py));
            lemma_search_leave(plan, sx, sy, d, queue@, seen, p);
        }
    }
    proof {
        let d = dist@;
        assert(queue@ == Seq::<TilePos>::empty());
        assert forall|x: int, y: int| plan.contains(x, y) implies ((#[trigger] dist_at(d, w as int, x, y)
            == usize::MAX) == !plan.reachable(sx, sy, x, y)) && (dist_at(d, w as int, x, y)
            != usize::MAX ==> plan.is_distance(sx, sy, x, y, dist_at(d, w as int, x, y) as nat)) by {
            if found(d, w as int, x, y) {
                let v = dist_at(d, w as int, x, y) as nat;
                assert(plan.within(sx, sy, x, y, v));
                assert forall|j: nat| j < v implies !#[trigger] plan.within(sx, sy, x, y, j) by {
                    if plan.within(sx, sy, x, y, j) {
                        lemma_search_complete(plan, sx, sy, d, seen, x, y, j);
                    }
                }
            } else {
                if plan.reachable(sx, sy, x, y) {
                    let k = choose|k: nat| plan.within(sx, sy, x, y, k);
                    lemma_search_complete(plan, sx, sy, d, seen, x, y, k);
                }
            }
        }
    }
    dist
}

} // verus!

verus! {

/// `i` is the last position of `d` holding the largest entry other than `usize::MAX`.
pub open spec fn is_last_farthest(d: Seq<usize>, i: int) -> bool {
    &&& 0 <= i < d.len()
    &&& d[i] != usize::MAX
    &&& forall|j: int| 0 <= j < d.len() && d[j] != usize::MAX ==> #[trigger] d[j] <= d[i]
    &&& forall|j: int| i < j < d.len() && d[j] != usize::MAX ==> #[trigger] d[j] < d[i]
}

/// The tile, in a grid `maze.width` tiles wide, of the last entry of
/// `distances` that holds the largest distance (`usize::MAX` marks no entry).
pub fn farthest(maze: &Maze, distances: &[usize]) -> (p: TilePos)
    requires
        maze.width > 0,
        exists|i: int| 0 <= i < distances@.len() && distances@[i] != usize::MAX,
    ensures
        exists|i: int|
            is_last_farthest(distances@, i) && p.x == i % (maze.width as int) && p.y == i / (
            maze.width as int),
{
    let d = distances;
    let mut best: usize = 0;
    let mut any: bool = false;
    let mut i: usize = 0;
    while i < d.len()
        invariant
            0 <= i <= d@.len(),
            any ==> best < i && d@[best as int] != usize::MAX,
            any ==> forall|j: int| 0 <= j < i && d@[j] != usize::MAX ==> #[trigger] d@[j] <= d@[best as int],
            any ==> forall|j: int| best < j < i && d@[j] != usize::MAX ==> #[trigger] d@[j] < d@[best as int],
            !any ==> forall|j: int| 0 <= j < i ==> #[trigger] d@[j] == usize::MAX,
        decreases d@.len() - i,
    {
        if d[i] != usize::MAX && (!any || d[i] >= d[best]) {
            best = i;
            any = true;
        }
        i = i + 1;
    }
    proof {
        let k = choose|k: int| 0 <= k < distances@.len() && distances@[k] != usize::MAX;
        assert(d@[k] != usize::MAX);
        assert(is_last_farthest(d@, best as int));
    }
    TilePos { x: best % maze.width, y: best / maze.width }
}

/// How many of the first `n` tiles are walkable.
pub open spec fn open_count(tiles: Seq<u8>, n: nat) -> nat
    decreases n,
{
    if n == 0 {
        0
    } else {
        open_count(tiles, (n - 1) as nat) + if tiles[n - 1] == 1 {
            1nat
        } else {
            0nat
        }
    }
}

/// How many of the first `n` entries of a search table are found.
pub open spec fn found_count(d: Seq<usize>, n: nat) -> nat
    decreases n,
{
    if n == 0 {
        0
    } else {
        found_count(d, (n - 1) as nat) + if d[n - 1] != usize::MAX {
            1nat
        } else {
            0nat
        }
    }
}

/// How many of the first `n` tiles, in row-major order, a walk from `(sx, sy)` reaches.
pub open spec fn reach_count(plan: Floorplan, sx: int, sy: int, n: nat) -> nat
    decreases n,
{
    if n == 0 {
        0
    } else {
        reach_count(plan, sx, sy, (n - 1) as nat) + if plan.reachable(
            sx,
            sy,
            (n - 1) % plan.width,
            (n - 1) / plan.width,
        ) {
            1nat
        } else {
            0nat
        }
    }
}

/// A row-major position inside a grid names the tile `(i % width, i / width)`.
pub proof fn lemma_slot_decompose(width: int, height: int, i: int)
    requires
        0 < width,
        0 <= i < width * height,
    ensures
        0 <= i % width < width,
        0 <= i / width < height,
        slot(width, i % width, i / width) == i,
{
    vstd::arithmetic::div_mod::lemma_fundamental_div_mod(i, width);
    vstd::arithmetic::div_mod::lemma_mod_bound(i, width);
    vstd::arithmetic::div_mod::lemma_div_pos_is_pos(i, width);
    let q = i / width;
    let r = i % width;
    assert(q * width == width * q) by (nonlinear_arith);
    assert(q < height) by (nonlinear_arith)
        requires
            i == width * q + r,
            0 <= r,
            i < width * height,
            0 < width,
    ;
}

/// Counting found entries of a search table counts the tiles that the search reaches.
pub proof fn lemma_found_count_is_reach_count(plan: Floorplan, sx: int, sy: int, d: Seq<usize>, n: nat)
    requires
        answers_search(plan, sx, sy, d),
        n <= d.len(),
        plan.width > 0 || d.len() == 0,
    ensures
        found_count(d, n) == reach_count(plan, sx, sy, n),
    decreases n,
{
    if n > 0 {
        lemma_found_count_is_reach_count(plan, sx, sy, d, (n - 1) as nat);
        let i = n - 1;
        lemma_slot_decompose(plan.width, plan.height, i);
        assert(dist_at(d, plan.width, i % plan.width, i / plan.width) == d[i]);
    }
}

} // verus!

verus! {

/// Opening more tiles keeps every walk: a walk in `a` is a walk in `b` when
/// every walkable tile of `a` is walkable in `b`.
pub proof fn lemma_within_grow(
    a: Floorplan,
    b: Floorplan,
    sx: int,
    sy: int,
    x: int,
    y: int,
    k: nat,
)
    requires
        a.width == b.width,
        a.height == b.height,
        forall|i: int, j: int| #[trigger] a.is_open(i, j) ==> b.is_open(i, j),
        a.within(sx, sy, x, y, k),
    ensures
        b.within(sx, sy, x, y, k),
    decreases k,
{
    if x == sx && y == sy {
    } else {
        let k1 = (k - 1) as nat;
        assert(a.is_open(x, y));
        if a.within(sx, sy, x - 1, y, k1) {
            lemma_within_grow(a, b, sx, sy, x - 1, y, k1);
        } else if a.within(sx, sy, x + 1, y, k1) {
            lemma_within_grow(a, b, sx, sy, x + 1, y, k1);
        } else if a.within(sx, sy, x, y - 1, k1) {
            lemma_within_grow(a, b, sx, sy, x, y - 1, k1);
        } else {
            lemma_within_grow(a, b, sx, sy, x, y + 1, k1);
        }
    }
}

} // verus!

verus! {

/// Walks join end to end: `a` to `b` in `j` steps and `b` to `c` in `k` steps
/// make `a` to `c` in `j + k` steps.
pub proof fn lemma_walk_concat(
    plan: Floorplan,
    ax: int,
    ay: int,
    bx: int,
    by: int,
    cx: int,
    cy: int,
    j: nat,
    k: nat,
)
    requires
        plan.within(ax, ay, bx, by, j),
        plan.within(bx, by, cx, cy, k),
    ensures
        plan.within(ax, ay, cx, cy, j + k),
    decreases k,
{
    if cx == bx && cy == by {
        lemma_within_monotone(plan, ax, ay, bx, by, j, j + k);
    } else {
        let k1 = (k - 1) as nat;
        if plan.within(bx, by, cx - 1, cy, k1) {
            lemma_walk_concat(plan, ax, ay, bx, by, cx - 1, cy, j, k1);
        } else if plan.within(bx, by, cx + 1, cy, k1) {
            lemma_walk_concat(plan, ax, ay, bx, by, cx + 1, cy, j, k1);
        } else if plan.within(bx, by, cx, cy - 1, k1) {
            lemma_walk_concat(plan, ax, ay, bx, by, cx, cy - 1, j, k1);
        } else {
            lemma_walk_concat(plan, ax, ay, bx, by, cx, cy + 1, j, k1);
        }
        assert(plan.within(ax, ay, cx, cy, (j + k1 + 1) as nat));
    }
}

/// A walk from a walkable tile can be walked back.
pub proof fn lemma_walk_reverse(plan: Floorplan, ax: int, ay: int, bx: int, by: int, k: nat)
    requires
        plan.within(ax, ay, bx, by, k),
        plan.is_open(ax, ay),
    ensures
        plan.within(bx, by, ax, ay, k),
    decreases k,
{
    if bx == ax && by == ay {
    } else {
        let k1 = (k - 1) as nat;
        let (rx, ry) = if plan.within(ax, ay, bx - 1, by, k1) {
            (bx - 1, by)
        } else if plan.within(ax, ay, bx + 1, by, k1) {
            (bx + 1, by)
        } else if plan.within(ax, ay, bx, by - 1, k1) {
            (bx, by - 1)
        } else {
            (bx, by + 1)
        };
        lemma_walk_reverse(plan, ax, ay, rx, ry, k1);
        lemma_within_ends_open(plan, ax, ay, rx, ry, k1);
        assert(plan.within(bx, by, bx, by, 0));
        assert(plan.within(bx, by, rx, ry, 1));
        lemma_walk_concat(plan, bx, by, rx, ry, ax, ay, 1, k1);
    }
}

/// `reachable` joins end to end.
pub proof fn lemma_reach_concat(
    plan: Floorplan,
    ax: int,
    ay: int,
    bx: int,
    by: int,
    cx: int,
    cy: int,
)
    requires
        plan.reachable(ax, ay, bx, by),
        plan.reachable(bx, by, cx, cy),
    ensures
        plan.reachable(ax, ay, cx, cy),
{
    let j = choose|j: nat| plan.within(ax, ay, bx, by, j);
    let k = choose|k: nat| plan.within(bx, by, cx, cy, k);
    lemma_walk_concat(plan, ax, ay, bx, by, cx, cy, j, k);
}

/// `reachable` from a walkable tile goes both ways.
pub proof fn lemma_reach_reverse(plan: Floorplan, ax: int, ay: int, bx: int, by: int)
    requires
        plan.reachable(ax, ay, bx, by),
        plan.is_open(ax, ay),
    ensures
        plan.reachable(bx, by, ax, ay),
{
    let k = choose|k: nat| plan.within(ax, ay, bx, by, k);
    lemma_walk_reverse(plan, ax, ay, bx, by, k);
}

/// If no more tiles are reached than are walkable, with the start walkable and
/// `tiles` holding exactly the grid, every walkable tile is reached.
pub proof fn lemma_counts_match_all_reached(plan: Floorplan, sx: int, sy: int, n: nat)
    requires
        plan.width > 0,
        plan.tiles.len() == plan.width * plan.height,
        n <= plan.tiles.len(),
        plan.is_open(sx, sy),
        reach_count(plan, sx, sy, n) == open_count(plan.tiles, n),
    ensures
        forall|i: int|
            0 <= i < n && #[trigger] plan.tiles[i] == 1 ==> plan.reachable(
                sx,
                sy,
                i % plan.width,
                i / plan.width,
            ),
    decreases n,
{
    if n > 0 {
        let i = n - 1;
        lemma_slot_decompose(plan.width, plan.height, i);
        let (x, y) = (i % plan.width, i / plan.width);
        lemma_reach_count_le(plan, sx, sy, (n - 1) as nat);
        if plan.reachable(sx, sy, x, y) {
            let k = choose|k: nat| plan.within(sx, sy, x, y, k);
            lemma_within_ends_open(plan, sx, sy, x, y, k);
        }
        lemma_counts_match_all_reached(plan, sx, sy, (n - 1) as nat);
    }
}

/// Reached tiles are walkable when the start is, so they are no more than the
/// walkable ones.
proof fn lemma_reach_count_le(plan: Floorplan, sx: int, sy: int, n: nat)
    requires
        plan.width > 0,
        plan.tiles.len() == plan.width * plan.height,
        n <= plan.tiles.len(),
        plan.is_open(sx, sy),
    ensures
        reach_count(plan, sx, sy, n) <= open_count(plan.tiles, n),
    decreases n,
{
    if n > 0 {
        let i = n - 1;
        lemma_slot_decompose(plan.width, plan.height, i);
        let (x, y) = (i % plan.width, i / plan.width);
        if plan.reachable(sx, sy, x, y) {
            let k = choose|k: nat| plan.within(sx, sy, x, y, k);
            lemma_within_ends_open(plan, sx, sy, x, y, k);
        }
        lemma_reach_count_le(plan, sx, sy, (n - 1) as nat);
    }
}

} // verus!
