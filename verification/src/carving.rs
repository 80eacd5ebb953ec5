use vstd::prelude::*;

use crate::maze::{Difficulty, Layout, Maze, TilePos};
use crate::rng::{reordered, seeded_word, shuffle_outcome, SeededRng};
use crate::paths::{
    distances_from, farthest, lemma_slot_bounds, lemma_slot_injective, lemma_within_grow, slot,
    Floorplan,
};

verus! {

/// `(x, y)` lies off the outer ring of the grid.
pub open spec fn interior(plan: Floorplan, x: int, y: int) -> bool {
    1 <= x < plan.width - 1 && 1 <= y < plan.height - 1
}

/// No wall stands strictly between `a` and `b` on a shared row or column.
pub open spec fn clear_line(plan: Floorplan, a: TilePos, b: TilePos) -> bool {
    if a.x == b.x {
        forall|y: int|
            #![trigger plan.is_open(a.x as int, y)]
            (a.y < y < b.y || b.y < y < a.y) ==> plan.is_open(a.x as int, y)
    } else if a.y == b.y {
        forall|x: int|
            #![trigger plan.is_open(x, a.y as int)]
            (a.x < x < b.x || b.x < x < a.x) ==> plan.is_open(x, a.y as int)
    } else {
        false
    }
}

/// A line of fire is clear exactly when the two tiles share a column, or a
/// row, and every tile strictly between them on it is walkable; tiles on
/// different rows and columns never have one.
pub proof fn lemma_clear_line_means(plan: Floorplan, a: TilePos, b: TilePos)
    ensures
        a.x == b.x ==> (clear_line(plan, a, b) <==> forall|y: int|
            (a.y < y < b.y || b.y < y < a.y) ==> #[trigger] plan.is_open(a.x as int, y)),
        a.y == b.y ==> (clear_line(plan, a, b) <==> forall|x: int|
            (a.x < x < b.x || b.x < x < a.x) ==> #[trigger] plan.is_open(x, a.y as int)),
        a.x != b.x && a.y != b.y ==> !clear_line(plan, a, b),
{
}

/// A line of fire is clear from `a` to `b` exactly when it is clear from `b` to `a`.
pub proof fn lemma_clear_line_symmetric(plan: Floorplan, a: TilePos, b: TilePos)
    ensures
        clear_line(plan, a, b) == clear_line(plan, b, a),
{
}

/// Whether a shot from `a` could fly straight to `b`: they share a row or a
/// column and every tile strictly between them is walkable.
fn clear_firing_line(maze: &Maze, a: TilePos, b: TilePos) -> (r: bool)
    requires
        maze.well_formed(),
        a.x < isize::MAX,
        a.y < isize::MAX,
        b.x < isize::MAX,
        b.y < isize::MAX,
    ensures
        r == clear_line(maze.plan(), a, b),
{
    let ghost plan = maze.plan();
    if a.x == b.x {
        let (start, end) = if a.y < b.y {
            (a.y, b.y)
        } else {
            (b.y, a.y)
        };
        let mut y: usize = start + 1;
        while y < end
            invariant
                maze.well_formed(),
                plan == maze.plan(),
                start < y <= end || (start == end && y == start + 1),
                end < isize::MAX,
                a.x < isize::MAX,
                a.x == b.x,
                (start == a.y && end == b.y) || (start == b.y && end == a.y),
                start <= end,
                forall|t: int| start < t < y ==> plan.is_open(a.x as int, t),
            decreases end - y,
        {
            if !maze.is_floor(a.x as isize, y as isize) {
                return false;
            }
            y = y + 1;
        }
        true
    } else if a.y == b.y {
        let (start, end) = if a.x < b.x {
            (a.x, b.x)
        } else {
            (b.x, a.x)
        };
        let mut x: usize = start + 1;
        while x < end
            invariant
                maze.well_formed(),
                plan == maze.plan(),
                start < x <= end || (start == end && x == start + 1),
                end < isize::MAX,
                a.y < isize::MAX,
                a.y == b.y,
                a.x != b.x,
                (start == a.x && end == b.x) || (start == b.x && end == a.x),
                start <= end,
                forall|t: int| start < t < x ==> plan.is_open(t, a.y as int),
            decreases end - x,
        {
            if !maze.is_floor(x as isize, a.y as isize) {
                return false;
            }
            x = x + 1;
        }
        true
    } else {
        false
    }
}

} // verus!

verus! {

/// A `width` x `height` grid of the given tiles.
pub open spec fn grid(width: usize, height: usize, tiles: Seq<u8>) -> Floorplan {
    Floorplan { width: width as int, height: height as int, tiles }
}

/// A carved layout: every tile is a wall (0) or walkable (1), the outer ring is
/// wall, `(1, 1)` is walkable and a walk from it reaches every walkable tile.
pub open spec fn passages(plan: Floorplan) -> bool {
    &&& forall|i: int| 0 <= i < plan.tiles.len() ==> #[trigger] plan.tiles[i] == 0 || plan.tiles[i] == 1
    &&& forall|x: int, y: int| #[trigger] plan.is_open(x, y) ==> interior(plan, x, y)
    &&& plan.is_open(1, 1)
    &&& forall|x: int, y: int| #[trigger] plan.is_open(x, y) ==> plan.reachable(1, 1, x, y)
}

/// How many of the first `n` tiles are walls.
pub open spec fn wall_count(tiles: Seq<u8>, n: nat) -> nat
    decreases n,
{
    if n == 0 {
        0
    } else {
        wall_count(tiles, (n - 1) as nat) + if tiles[n - 1] == 0 {
            1nat
        } else {
            0nat
        }
    }
}

/// Opening a tile never adds a wall, and opening a wall removes one.
proof fn lemma_wall_count_open(tiles: Seq<u8>, i: int, n: nat)
    requires
        0 <= i < tiles.len(),
        n <= tiles.len(),
    ensures
        wall_count(tiles.update(i, 1), n) <= wall_count(tiles, n),
        i < n && tiles[i] == 0 ==> wall_count(tiles.update(i, 1), n) < wall_count(tiles, n),
    decreases n,
{
    if n > 0 {
        lemma_wall_count_open(tiles, i, (n - 1) as nat);
    }
}

/// Opening an interior tile next to a walkable tile keeps the layout carved.
proof fn lemma_open_beside(plan: Floorplan, ax: int, ay: int, bx: int, by: int)
    requires
        plan.tiles.len() == plan.width * plan.height,
        passages(plan),
        plan.is_open(ax, ay),
        interior(plan, bx, by),
        (bx == ax + 1 && by == ay) || (bx == ax - 1 && by == ay) || (bx == ax && by == ay + 1) || (bx
            == ax && by == ay - 1),
    ensures
        passages(Floorplan { tiles: plan.tiles.update(slot(plan.width, bx, by), 1), ..plan }),
{
    let w = plan.width;
    let at = slot(w, bx, by);
    let next = Floorplan { tiles: plan.tiles.update(at, 1), ..plan };
    lemma_slot_bounds(w, plan.height, bx, by);
    assert forall|x: int, y: int| #[trigger] plan.is_open(x, y) implies next.is_open(x, y) by {
        lemma_slot_bounds(w, plan.height, x, y);
    }
    assert forall|x: int, y: int| #[trigger] next.is_open(x, y) && !plan.is_open(x, y) implies x == bx
        && y == by by {
        lemma_slot_bounds(w, plan.height, x, y);
        lemma_slot_injective(w, x, y, bx, by);
    }
    assert forall|i: int| 0 <= i < next.tiles.len() implies #[trigger] next.tiles[i] == 0
        || next.tiles[i] == 1 by {
        if i != at {
            assert(next.tiles[i] == plan.tiles[i]);
        }
    }
    assert forall|x: int, y: int| #[trigger] next.is_open(x, y) implies next.reachable(1, 1, x, y) by {
        if plan.is_open(x, y) {
            let k = choose|k: nat| plan.within(1, 1, x, y, k);
            lemma_within_grow(plan, next, 1, 1, x, y, k);
        } else {
            let k = choose|k: nat| plan.within(1, 1, ax, ay, k);
            lemma_within_grow(plan, next, 1, 1, ax, ay, k);
            assert(next.within(1, 1, x, y, k + 1));
        }
    }
}

/// The four jumps of the passage carver: two tiles along an axis.
pub open spec fn jump_steps() -> Seq<(isize, isize)> {
    seq![(2isize, 0isize), (-2isize, 0isize), (0isize, 2isize), (0isize, -2isize)]
}

/// Where the jump `step` from `(x, y)` lands, when that is a wall inside the
/// outer ring of a `width` x `height` grid.
pub open spec fn jump_target(
    tiles: Seq<u8>,
    width: usize,
    height: usize,
    x: usize,
    y: usize,
    step: (isize, isize),
) -> Option<(usize, usize)> {
    let nx = x + step.0;
    let ny = y + step.1;
    if 0 < nx < width - 1 && 0 < ny < height - 1 && tiles[slot(width as int, nx, ny)] == 0 {
        Some((nx as usize, ny as usize))
    } else {
        None
    }
}

/// Where the first of `steps`, from index `j` on, lands that lands on a wall
/// inside the outer ring.
pub open spec fn first_jump(
    tiles: Seq<u8>,
    width: usize,
    height: usize,
    x: usize,
    y: usize,
    steps: Seq<(isize, isize)>,
    j: int,
) -> Option<(usize, usize)>
    decreases steps.len() - j,
{
    if 0 <= j < steps.len() {
        match jump_target(tiles, width, height, x, y, steps[j]) {
            Some(t) => Some(t),
            None => first_jump(tiles, width, height, x, y, steps, j + 1),
        }
    } else {
        None
    }
}

/// The passage carver between two steps: the tiles, the cells still being
/// explored (the last on top), and how far along the stream it has read.
pub struct Carving {
    pub tiles: Seq<u8>,
    pub stack: Seq<(usize, usize)>,
    pub drawn: nat,
}

/// One step of the carver on the stream of `seed`: from the cell on top of
/// the stack it shuffles the four jumps and takes the first that lands on a
/// wall inside the outer ring, opening the tile jumped over and the landing
/// cell, which it pushes; where none does, it pops the cell.
pub open spec fn carve_step(seed: u64, width: usize, height: usize, c: Carving) -> Carving {
    if c.stack.len() == 0 {
        c
    } else {
        let (x, y) = c.stack.last();
        let outcome = shuffle_outcome(seed, c.drawn, 4);
        let steps = reordered(jump_steps(), outcome.0);
        let drawn = (c.drawn + outcome.1) as nat;
        match first_jump(c.tiles, width, height, x, y, steps, 0) {
            Some((nx, ny)) => Carving {
                tiles: c.tiles.update(slot(width as int, (x + nx) / 2, (y + ny) / 2), 1).update(
                    slot(width as int, nx as int, ny as int),
                    1,
                ),
                stack: c.stack.push((nx, ny)),
                drawn,
            },
            None => Carving { tiles: c.tiles, stack: c.stack.drop_last(), drawn },
        }
    }
}

/// A `width` x `height` grid of walls but for `(1, 1)`.
pub open spec fn corner_only(width: usize, height: usize) -> Seq<u8> {
    Seq::new((width * height) as nat, |i: int| if i == width + 1 { 1u8 } else { 0u8 })
}

/// The carver after `k` steps, having started at `(1, 1)` with word `start`
/// of the stream next.
pub open spec fn carving_after(seed: u64, width: usize, height: usize, start: nat, k: nat) -> Carving
    decreases k,
{
    if k == 0 {
        Carving { tiles: corner_only(width, height), stack: seq![(1usize, 1usize)], drawn: start }
    } else {
        carve_step(seed, width, height, carving_after(seed, width, height, start, (k - 1) as nat))
    }
}

/// The carver once its stack has run empty.
pub open spec fn carving_done(seed: u64, width: usize, height: usize, start: nat) -> Carving {
    carving_after(
        seed,
        width,
        height,
        start,
        choose|k: nat| #[trigger] carving_after(seed, width, height, start, k).stack.len() == 0,
    )
}

/// Once its stack is empty the carver stays as it is.
proof fn lemma_carving_rests(seed: u64, width: usize, height: usize, start: nat, k: nat, m: nat)
    requires
        carving_after(seed, width, height, start, k).stack.len() == 0,
    ensures
        carving_after(seed, width, height, start, k + m) == carving_after(seed, width, height, start, k),
    decreases m,
{
    if m > 0 {
        lemma_carving_rests(seed, width, height, start, k, (m - 1) as nat);
        assert(carving_after(seed, width, height, start, k + m) == carve_step(
            seed,
            width,
            height,
            carving_after(seed, width, height, start, (k + m - 1) as nat),
        ));
    }
}

/// Every step count that empties the stack gives `carving_done`.
proof fn lemma_carving_done(seed: u64, width: usize, height: usize, start: nat, k: nat)
    requires
        carving_after(seed, width, height, start, k).stack.len() == 0,
    ensures
        carving_done(seed, width, height, start) == carving_after(seed, width, height, start, k),
{
    let j = choose|j: nat| #[trigger] carving_after(seed, width, height, start, j).stack.len() == 0;
    assert(carving_after(seed, width, height, start, j).stack.len() == 0);
    if j <= k {
        lemma_carving_rests(seed, width, height, start, j, (k - j) as nat);
    } else {
        lemma_carving_rests(seed, width, height, start, k, (j - k) as nat);
    }
}

/// `(x, y)` is a cell of the carver: inside the outer ring, both coordinates odd.
pub open spec fn odd_cell(plan: Floorplan, x: int, y: int) -> bool {
    interior(plan, x, y) && x % 2 == 1 && y % 2 == 1
}

/// The jump `step` from `(x, y)` lands outside the outer ring or on a walkable tile.
pub open spec fn lands_open(plan: Floorplan, x: int, y: int, step: (isize, isize)) -> bool {
    let nx = x + step.0;
    let ny = y + step.1;
    !(0 < nx < plan.width - 1 && 0 < ny < plan.height - 1) || plan.is_open(nx, ny)
}

/// Every jump from `(x, y)` lands outside the outer ring or on a walkable tile.
pub open spec fn jumps_open(plan: Floorplan, x: int, y: int) -> bool {
    forall|i: int| 0 <= i < 4 ==> #[trigger] lands_open(plan, x, y, jump_steps()[i])
}

/// Every walkable cell is still on the stack or has all its jumps open.
spec fn cells_tracked(plan: Floorplan, stack: Seq<(usize, usize)>) -> bool {
    forall|cx: int, cy: int|
        #[trigger] plan.is_open(cx, cy) && odd_cell(plan, cx, cy) ==> stack.contains(
            (cx as usize, cy as usize),
        ) || jumps_open(plan, cx, cy)
}

/// Where no jump from index `j` on is taken, none of those jumps lands on a
/// wall inside the ring.
proof fn lemma_no_jump(
    tiles: Seq<u8>,
    width: usize,
    height: usize,
    x: usize,
    y: usize,
    steps: Seq<(isize, isize)>,
    j: int,
    i: int,
)
    requires
        0 <= j <= i < steps.len(),
        first_jump(tiles, width, height, x, y, steps, j) is None,
    ensures
        jump_target(tiles, width, height, x, y, steps[i]) is None,
    decreases i - j,
{
    if j < i {
        lemma_no_jump(tiles, width, height, x, y, steps, j + 1, i);
    }
}

/// Opening a tile with an even coordinate and pushing a newly opened cell
/// keeps every walkable cell tracked.
proof fn lemma_push_keeps_cells(
    width: usize,
    height: usize,
    before: Seq<u8>,
    after: Seq<u8>,
    stack: Seq<(usize, usize)>,
    mx: int,
    my: int,
    nx: int,
    ny: int,
)
    requires
        before.len() == width * height,
        width > 0,
        0 <= mx < width,
        0 <= my < height,
        0 <= nx < width,
        0 <= ny < height,
        mx % 2 == 0 || my % 2 == 0,
        after == before.update(slot(width as int, mx, my), 1).update(slot(width as int, nx, ny), 1),
        cells_tracked(grid(width, height, before), stack),
    ensures
        cells_tracked(grid(width, height, after), stack.push((nx as usize, ny as usize))),
{
    let old_plan = grid(width, height, before);
    let plan = grid(width, height, after);
    let pushed = stack.push((nx as usize, ny as usize));
    lemma_slot_bounds(width as int, height as int, mx, my);
    lemma_slot_bounds(width as int, height as int, nx, ny);
    assert forall|cx: int, cy: int| #[trigger] old_plan.is_open(cx, cy) implies plan.is_open(cx, cy) by {
        lemma_slot_bounds(width as int, height as int, cx, cy);
    }
    assert forall|cx: int, cy: int|
        #[trigger] plan.is_open(cx, cy) && odd_cell(plan, cx, cy) implies pushed.contains(
        (cx as usize, cy as usize),
    ) || jumps_open(plan, cx, cy) by {
        lemma_slot_bounds(width as int, height as int, cx, cy);
        if old_plan.is_open(cx, cy) {
            if stack.contains((cx as usize, cy as usize)) {
                let k = choose|k: int| 0 <= k < stack.len() && stack[k] == (cx as usize, cy as usize);
                assert(pushed[k] == stack[k]);
            } else {
                assert(jumps_open(old_plan, cx, cy));
                assert forall|i: int| 0 <= i < 4 implies #[trigger] lands_open(
                    plan,
                    cx,
                    cy,
                    jump_steps()[i],
                ) by {
                    assert(lands_open(old_plan, cx, cy, jump_steps()[i]));
                    let s = jump_steps()[i];
                    if old_plan.is_open(cx + s.0, cy + s.1) {
                        assert(plan.is_open(cx + s.0, cy + s.1));
                    }
                }
            }
        } else {
            if slot(width as int, cx, cy) == slot(width as int, mx, my) {
                lemma_slot_injective(width as int, cx, cy, mx, my);
            } else {
                assert(slot(width as int, cx, cy) == slot(width as int, nx, ny));
                lemma_slot_injective(width as int, cx, cy, nx, ny);
                assert(pushed[stack.len() as int] == (cx as usize, cy as usize));
            }
        }
    }
}

/// Popping a cell none of whose jumps lands on a wall inside the ring keeps
/// every walkable cell tracked.
proof fn lemma_pop_keeps_cells(
    width: usize,
    height: usize,
    tiles: Seq<u8>,
    stack: Seq<(usize, usize)>,
    order: Seq<int>,
)
    requires
        tiles.len() == width * height,
        width > 0,
        forall|i: int| 0 <= i < tiles.len() ==> #[trigger] tiles[i] == 0 || tiles[i] == 1,
        stack.len() > 0,
        order.len() == 4,
        forall|i: int| 0 <= i < 4 ==> 0 <= #[trigger] order[i] < 4,
        forall|i: int, j: int| 0 <= i < j < 4 ==> #[trigger] order[i] != #[trigger] order[j],
        first_jump(
            tiles,
            width,
            height,
            stack.last().0,
            stack.last().1,
            reordered(jump_steps(), order),
            0,
        ) is None,
        cells_tracked(grid(width, height, tiles), stack),
    ensures
        cells_tracked(grid(width, height, tiles), stack.drop_last()),
{
    let plan = grid(width, height, tiles);
    let (x, y) = stack.last();
    let steps = reordered(jump_steps(), order);
    assert forall|i: int| 0 <= i < 4 implies #[trigger] lands_open(plan, x as int, y as int, jump_steps()[i]) by {
        lemma_order_onto(order, i);
        let j = choose|j: int| 0 <= j < order.len() && order[j] == i;
        lemma_no_jump(tiles, width, height, x, y, steps, 0, j);
        assert(steps[j] == jump_steps()[i]);
        let s = jump_steps()[i];
        let (nx, ny) = (x + s.0, y + s.1);
        if 0 < nx < width - 1 && 0 < ny < height - 1 {
            lemma_slot_bounds(width as int, height as int, nx, ny);
        }
    }
    let rest = stack.drop_last();
    assert forall|cx: int, cy: int|
        #[trigger] plan.is_open(cx, cy) && odd_cell(plan, cx, cy) implies rest.contains(
        (cx as usize, cy as usize),
    ) || jumps_open(plan, cx, cy) by {
        if stack.contains((cx as usize, cy as usize)) {
            let k = choose|k: int| 0 <= k < stack.len() && stack[k] == (cx as usize, cy as usize);
            if k < rest.len() {
                assert(rest[k] == stack[k]);
            } else {
                assert(cx == x && cy == y);
            }
        }
    }
}

/// Once no cell is left on the stack, every cell is walkable.
proof fn lemma_all_cells_open(plan: Floorplan, x: int, y: int)
    requires
        plan.width >= 3,
        plan.height >= 3,
        cells_tracked(plan, seq![]),
        plan.is_open(1, 1),
        odd_cell(plan, x, y),
    ensures
        plan.is_open(x, y),
    decreases x + y,
{
    if x > 1 {
        lemma_all_cells_open(plan, x - 2, y);
        assert(jumps_open(plan, x - 2, y));
        assert(lands_open(plan, x - 2, y, jump_steps()[0]));
    } else if y > 1 {
        lemma_all_cells_open(plan, x, y - 2);
        assert(jumps_open(plan, x, y - 2));
        assert(lands_open(plan, x, y - 2, jump_steps()[2]));
    }
}

/// Where the first of `steps` from `(x, y)` lands that lands on a wall
/// inside the outer ring, if any does.
pub fn first_open_jump(
    tiles: &Vec<u8>,
    width: usize,
    height: usize,
    x: usize,
    y: usize,
    steps: &Vec<(isize, isize)>,
) -> (target: Option<(usize, usize)>)
    requires
        3 <= width <= 1000,
        3 <= height <= 1000,
        tiles@.len() == width * height,
        interior(grid(width, height, tiles@), x as int, y as int),
        forall|i: int| 0 <= i < steps@.len() ==> jump_steps().contains(#[trigger] steps@[i]),
    ensures
        target == first_jump(tiles@, width, height, x, y, steps@, 0),
        target matches Some(t) ==> {
            &&& interior(grid(width, height, tiles@), t.0 as int, t.1 as int)
            &&& tiles@[slot(width as int, t.0 as int, t.1 as int)] == 0
            &&& ((t.0 == x + 2 && t.1 == y) || (t.0 + 2 == x && t.1 == y) || (t.0 == x && t.1 == y
                + 2) || (t.0 == x && t.1 + 2 == y))
        },
{
    proof {
        assert(width * height <= 1_000_000) by (nonlinear_arith)
            requires
                3 <= width <= 1000,
                3 <= height <= 1000,
        ;
    }
    let mut target: Option<(usize, usize)> = None;
    let mut j: usize = 0;
    while j < steps.len() && target.is_none()
        invariant
            0 <= j <= steps@.len(),
            forall|i: int| 0 <= i < steps@.len() ==> jump_steps().contains(#[trigger] steps@[i]),
            tiles@.len() == width * height,
            3 <= width <= 1000,
            3 <= height <= 1000,
            width * height <= 1_000_000,
            interior(grid(width, height, tiles@), x as int, y as int),
            target is None ==> first_jump(tiles@, width, height, x, y, steps@, 0) == first_jump(
                tiles@,
                width,
                height,
                x,
                y,
                steps@,
                j as int,
            ),
            target matches Some(t) ==> {
                &&& first_jump(tiles@, width, height, x, y, steps@, 0) == Some(t)
                &&& interior(grid(width, height, tiles@), t.0 as int, t.1 as int)
                &&& tiles@[slot(width as int, t.0 as int, t.1 as int)] == 0
                &&& ((t.0 == x + 2 && t.1 == y) || (t.0 + 2 == x && t.1 == y) || (t.0 == x && t.1
                    == y + 2) || (t.0 == x && t.1 + 2 == y))
            },
        decreases steps@.len() - j,
    {
        let (dx, dy) = steps[j];
        proof {
            assert(jump_steps().contains(steps@[j as int]));
            let k = choose|k: int| 0 <= k < 4 && jump_steps()[k] == steps@[j as int];
        }
        let nx: isize = x as isize + dx;
        let ny: isize = y as isize + dy;
        if nx > 0 && ny > 0 && nx < width as isize - 1 && ny < height as isize - 1 {
            proof {
                lemma_slot_bounds(width as int, height as int, nx as int, ny as int);
            }
            let at: usize = (ny as usize) * width + (nx as usize);
            if tiles[at] == 0 {
                target = Some((nx as usize, ny as usize));
            }
        }
        j = j + 1;
    }
    target
}

/// Randomized depth-first carving of passages: from `(1, 1)`, jumps two tiles
/// at a time to walls inside the outer ring, opening the tile jumped over.
#[verifier::spinoff_prover]
fn carve_passages(rng: &mut SeededRng, width: usize, height: usize) -> (tiles: Vec<u8>)
    requires
        3 <= width <= 1000,
        3 <= height <= 1000,
    ensures
        tiles@ == carving_done(old(rng).seed(), width, height, old(rng).drawn()).tiles,
        final(rng).drawn() == carving_done(old(rng).seed(), width, height, old(rng).drawn()).drawn,
        final(rng).seed() == old(rng).seed(),
        tiles@.len() == width * height,
        passages(grid(width, height, tiles@)),
        forall|x: int, y: int|
            odd_cell(grid(width, height, tiles@), x, y) ==> #[trigger] grid(width, height, tiles@).is_open(
                x,
                y,
            ),
{
    proof {
        assert(width + 1 < width * height <= 1_000_000) by (nonlinear_arith)
            requires
                3 <= width <= 1000,
                3 <= height <= 1000,
        ;
    }
    let ghost seed = rng.seed();
    let ghost start = rng.drawn();
    let n: usize = width * height;
    let mut tiles: Vec<u8> = vec![0; n];
    let ghost blank = tiles@;
    proof {
        assert forall|i: int| 0 <= i < n implies blank[i] == 0 by {
            assert(cloned(0u8, blank[i]));
        }
    }
    let mut stack: Vec<(usize, usize)> = Vec::new();
    stack.push((1, 1));
    tiles.set(width + 1, 1);
    let ghost mut k: nat = 0;
    proof {
        let plan = grid(width, height, tiles@);
        assert(tiles@ == blank.update(width + 1, 1));
        assert(tiles@ =~= corner_only(width, height));
        assert(stack@ =~= seq![(1usize, 1usize)]);
        assert(slot(width as int, 1, 1) == width + 1);
        assert forall|x: int, y: int| #[trigger] plan.is_open(x, y) implies x == 1 && y == 1 by {
            lemma_slot_bounds(width as int, height as int, x, y);
            assert(slot(width as int, x, y) == width + 1);
            lemma_slot_injective(width as int, x, y, 1, 1);
        }
        assert(plan.within(1, 1, 1, 1, 0));
        assert forall|i: int| 0 <= i < plan.tiles.len() implies #[trigger] plan.tiles[i] == 0
            || plan.tiles[i] == 1 by {
            if i != width + 1 {
                assert(plan.tiles[i] == 0);
            }
        }
        assert(stack@[0] == (1usize, 1usize));
    }
    loop
        invariant
            3 <= width <= 1000,
            3 <= height <= 1000,
            n == width * height,
            n <= 1_000_000,
            tiles@.len() == n,
            passages(grid(width, height, tiles@)),
            forall|j: int|
                0 <= j < stack@.len() ==> interior(
                    grid(width, height, tiles@),
                    (#[trigger] stack@[j]).0 as int,
                    stack@[j].1 as int,
                ) && grid(width, height, tiles@).is_open(stack@[j].0 as int, stack@[j].1 as int)
                    && stack@[j].0 % 2 == 1 && stack@[j].1 % 2 == 1,
            cells_tracked(grid(width, height, tiles@), stack@),
            rng.seed() == seed,
            carving_after(seed, width, height, start, k) == (Carving {
                tiles: tiles@,
                stack: stack@,
                drawn: rng.drawn(),
            }),
        ensures
            stack@.len() == 0,
        decreases wall_count(tiles@, n as nat), stack@.len(),
    {
        if stack.len() == 0 {
            break;
        }
        let (x, y) = stack[stack.len() - 1];
        let ghost plan = grid(width, height, tiles@);
        let ghost before = Carving { tiles: tiles@, stack: stack@, drawn: rng.drawn() };
        proof {
            assert(interior(plan, x as int, y as int));
            assert(before.stack.last() == (x, y));
        }
        let mut steps: Vec<(isize, isize)> = Vec::new();
        steps.push((2, 0));
        steps.push((-2, 0));
        steps.push((0, 2));
        steps.push((0, -2));
        proof {
            assert(steps@ =~= jump_steps());
        }
        rng.shuffle(&mut steps);
        let ghost order = shuffle_outcome(seed, before.drawn, 4).0;
        proof {
            assert(steps@ == reordered(jump_steps(), order));
        }
        proof {
            assert forall|i: int| 0 <= i < steps@.len() implies jump_steps().contains(
                #[trigger] steps@[i],
            ) by {
                assert(steps@[i] == jump_steps()[order[i]]);
            }
        }
        let target = first_open_jump(&tiles, width, height, x, y, &steps);
        match target {
            Some((nx, ny)) => {
                let mx: usize = (x + nx) / 2;
                let my: usize = (y + ny) / 2;
                proof {
                    lemma_slot_bounds(width as int, height as int, mx as int, my as int);
                    lemma_slot_bounds(width as int, height as int, nx as int, ny as int);
                    lemma_open_beside(plan, x as int, y as int, mx as int, my as int);
                }
                let ghost before_tiles = tiles@;
                tiles.set(my * width + mx, 1);
                let ghost middle = tiles@;
                proof {
                    lemma_open_beside(
                        grid(width, height, middle),
                        mx as int,
                        my as int,
                        nx as int,
                        ny as int,
                    );
                    if slot(width as int, mx as int, my as int) == slot(
                        width as int,
                        nx as int,
                        ny as int,
                    ) {
                        lemma_slot_injective(width as int, mx as int, my as int, nx as int, ny as int);
                    }
                    lemma_wall_count_open(
                        before_tiles,
                        slot(width as int, mx as int, my as int),
                        n as nat,
                    );
                }
                tiles.set(ny * width + nx, 1);
                proof {
                    lemma_push_keeps_cells(
                        width,
                        height,
                        before_tiles,
                        tiles@,
                        stack@,
                        mx as int,
                        my as int,
                        nx as int,
                        ny as int,
                    );
                    lemma_wall_count_open(middle, slot(width as int, nx as int, ny as int), n as nat);
                    let after = grid(width, height, tiles@);
                    assert forall|q: int|
                        0 <= q < stack@.len() implies interior(
                        after,
                        (#[trigger] stack@[q]).0 as int,
                        stack@[q].1 as int,
                    ) && after.is_open(stack@[q].0 as int, stack@[q].1 as int) by {
                        let (sx, sy) = stack@[q];
                        lemma_slot_bounds(width as int, height as int, sx as int, sy as int);
                    }
                }
                stack.push((nx, ny));
            },
            None => {
                proof {
                    lemma_pop_keeps_cells(width, height, tiles@, stack@, order);
                }
                stack.pop();
            },
        }
        proof {
            assert(Carving { tiles: tiles@, stack: stack@, drawn: rng.drawn() } == carve_step(
                seed,
                width,
                height,
                before,
            ));
            k = k + 1;
        }
    }
    proof {
        lemma_carving_done(seed, width, height, start, k);
        let plan = grid(width, height, tiles@);
        assert(stack@ =~= seq![]);
        assert forall|x: int, y: int| odd_cell(plan, x, y) implies #[trigger] plan.is_open(x, y) by {
            lemma_all_cells_open(plan, x, y);
        }
    }
    tiles
}

} // verus!

verus! {

/// Whether the sweep of `open_loops` may open tile `i` of a grid `width`
/// tiles wide and `height` high, taking `before` to `after`: the tile lies
/// inside the outer ring, was a wall, and joins walkable tiles across exactly
/// one axis. Its left and upper neighbours count as they stand in `after` (the
/// row-major sweep has settled them), its right and lower ones as in `before`.
pub open spec fn loop_opened(before: Seq<u8>, after: Seq<u8>, width: int, height: int, i: int) -> bool {
    &&& 1 <= i % width < width - 1
    &&& 1 <= i / width < height - 1
    &&& before[i] == 0
    &&& ((after[i - 1] == 1 && before[i + 1] == 1) != (after[i - width] == 1 && before[i + width]
        == 1))
}

/// The sweep of `open_loops` at tile `(x, y)` of a grid `width` tiles wide,
/// with the stream of `seed` at word `s.1`: a wall draws the next word, and
/// opens when the word's top 24 bits fall below `chance` and its walkable
/// neighbours line up across exactly one axis.
pub open spec fn sweep_tile(seed: u64, width: int, chance: u32, s: (Seq<u8>, nat), x: int, y: int) -> (
    Seq<u8>,
    nat,
) {
    let tiles = s.0;
    let at = slot(width, x, y);
    if tiles[at] != 0 {
        s
    } else {
        let word = seeded_word(seed, s.1);
        let horizontal = tiles[at - 1] == 1 && tiles[at + 1] == 1;
        let vertical = tiles[at - width] == 1 && tiles[at + width] == 1;
        let drawn = (s.1 + 1) as nat;
        if (word >> 8u32) < chance && horizontal != vertical {
            (tiles.update(at, 1), drawn)
        } else {
            (tiles, drawn)
        }
    }
}

/// The sweep over the tiles `1 .. x` of row `y`.
pub open spec fn sweep_row(seed: u64, width: int, chance: u32, s: (Seq<u8>, nat), y: int, x: int) -> (
    Seq<u8>,
    nat,
)
    decreases x,
{
    if x <= 1 {
        s
    } else {
        sweep_tile(seed, width, chance, sweep_row(seed, width, chance, s, y, x - 1), x - 1, y)
    }
}

/// The sweep over the inner tiles of the rows `1 .. y`, row by row.
pub open spec fn sweep_rows(seed: u64, width: int, chance: u32, s: (Seq<u8>, nat), y: int) -> (
    Seq<u8>,
    nat,
)
    decreases y,
{
    if y <= 1 {
        s
    } else {
        sweep_row(seed, width, chance, sweep_rows(seed, width, chance, s, y - 1), y - 1, width - 1)
    }
}

/// The tiles after `open_loops` on a `width` x `height` grid, and how far
/// along the stream of `seed` it has read, having started at word `start`.
pub open spec fn swept(seed: u64, width: usize, height: usize, chance: u32, tiles: Seq<u8>, start: nat) -> (
    Seq<u8>,
    nat,
) {
    sweep_rows(seed, width as int, chance, (tiles, start), height - 1)
}

/// Whether the wall at row-major position `at` of a grid `width` tiles wide
/// opens for the drawn `word`: the word's top 24 bits fall below `chance` and
/// the walkable neighbours line up across exactly one axis.
pub fn opens_loop(tiles: &Vec<u8>, width: usize, at: usize, word: u32, chance: u32) -> (r: bool)
    requires
        1 <= width <= at,
        at + width < tiles@.len(),
    ensures
        r == ((word >> 8u32) < chance && (tiles@[at - 1] == 1 && tiles@[at + 1] == 1) != (tiles@[at
            - width] == 1 && tiles@[at + width] == 1)),
{
    let total: usize = tiles.len();
    if (word >> 8) < chance {
        let horizontal: bool = tiles[at - 1] == 1 && tiles[at + 1] == 1;
        let vertical: bool = tiles[at - width] == 1 && tiles[at + width] == 1;
        horizontal ^ vertical
    } else {
        false
    }
}

/// Opens some inner walls that join two walkable tiles across one axis only,
/// so that corridors gain alternate exits: row by row, each inner wall draws a
/// word and opens when its top 24 bits fall below `chance` (a chance in units
/// of 2^-24) and its walkable neighbours line up across one axis.
#[verifier::spinoff_prover]
fn open_loops(rng: &mut SeededRng, tiles: &mut Vec<u8>, width: usize, height: usize, chance: u32)
    requires
        3 <= width <= 1000,
        3 <= height <= 1000,
        old(tiles)@.len() == width * height,
        passages(grid(width, height, old(tiles)@)),
    ensures
        final(tiles)@ == swept(old(rng).seed(), width, height, chance, old(tiles)@, old(rng).drawn()).0,
        final(rng).drawn() == swept(
            old(rng).seed(),
            width,
            height,
            chance,
            old(tiles)@,
            old(rng).drawn(),
        ).1,
        final(rng).seed() == old(rng).seed(),
        final(tiles)@.len() == width * height,
        passages(grid(width, height, final(tiles)@)),
        forall|i: int|
            0 <= i < width * height ==> #[trigger] final(tiles)@[i] == old(tiles)@[i]
                || (final(tiles)@[i] == 1 && loop_opened(
                old(tiles)@,
                final(tiles)@,
                width as int,
                height as int,
                i,
            )),
{
    proof {
        assert(width * height <= 1_000_000) by (nonlinear_arith)
            requires
                3 <= width <= 1000,
                3 <= height <= 1000,
        ;
    }
    let ghost before = tiles@;
    let ghost seed = rng.seed();
    let ghost start = rng.drawn();
    let ghost w = width as int;
    let mut y: usize = 1;
    while y < height - 1
        invariant
            rng.seed() == seed,
            (tiles@, rng.drawn()) == sweep_rows(seed, w, chance, (before, start), y as int),
            w == width,
            3 <= width <= 1000,
            3 <= height <= 1000,
            width * height <= 1_000_000,
            1 <= y <= height - 1,
            tiles@.len() == width * height,
            passages(grid(width, height, tiles@)),
            before.len() == width * height,
            forall|i: int|
                0 <= i < width * height ==> #[trigger] tiles@[i] == before[i] || (tiles@[i] == 1 && i
                    < y * width && loop_opened(before, tiles@, width as int, height as int, i)),
        decreases height - y,
    {
        let mut x: usize = 1;
        while x < width - 1
            invariant
                rng.seed() == seed,
                (tiles@, rng.drawn()) == sweep_row(
                    seed,
                    w,
                    chance,
                    sweep_rows(seed, w, chance, (before, start), y as int),
                    y as int,
                    x as int,
                ),
                w == width,
                3 <= width <= 1000,
                3 <= height <= 1000,
                width * height <= 1_000_000,
                1 <= y < height - 1,
                1 <= x <= width - 1,
                tiles@.len() == width * height,
                passages(grid(width, height, tiles@)),
                before.len() == width * height,
                forall|i: int|
                    0 <= i < width * height ==> #[trigger] tiles@[i] == before[i] || (tiles@[i] == 1
                        && i < y * width + x && loop_opened(
                        before,
                        tiles@,
                        width as int,
                        height as int,
                        i,
                    )),
            decreases width - x,
        {
            proof {
                lemma_slot_bounds(width as int, height as int, x as int, y as int);
                lemma_slot_bounds(width as int, height as int, x as int, (y + 1) as int);
                assert(slot(width as int, x as int, (y - 1) as int) == y * width + x - width) by (
                nonlinear_arith);
                assert(slot(width as int, x as int, (y + 1) as int) == y * width + x + width) by (
                nonlinear_arith);
                vstd::arithmetic::div_mod::lemma_fundamental_div_mod_converse(
                    y * width + x,
                    width as int,
                    y as int,
                    x as int,
                );
            }
            let at: usize = y * width + x;
            let ghost now = tiles@;
            let ghost state = (tiles@, rng.drawn());
            // A uniform float in [0, 1) is the word's 24 high bits over 2^24;
            // these bits fall below `chance` exactly when that float falls
            // below the chance that `chance` counts in units of 2^-24.
            let wall: bool = tiles[at] == 0;
            let mut opens: bool = false;
            if wall {
                let word: u32 = rng.next_word();
                opens = opens_loop(&tiles, width, at, word, chance);
            }
            if opens {
                let ghost horizontal: bool = tiles@[at - 1] == 1 && tiles@[at + 1] == 1;
                {
                    proof {
                        let plan = grid(width, height, tiles@);
                        if horizontal {
                            assert(plan.is_open(x - 1, y as int));
                            lemma_open_beside(plan, x - 1, y as int, x as int, y as int);
                        } else {
                            assert(plan.is_open(x as int, y - 1));
                            lemma_open_beside(plan, x as int, y - 1, x as int, y as int);
                        }
                    }
                    tiles.set(at, 1);
                    proof {
                        assert(now[at as int] == before[at as int]);
                        assert(now[at as int + 1] == before[at as int + 1]);
                        assert(now[at as int + width] == before[at as int + width]);
                        assert(loop_opened(before, tiles@, width as int, height as int, at as int));
                        assert forall|i: int|
                            0 <= i < width * height implies #[trigger] tiles@[i] == before[i] || (
                            tiles@[i] == 1 && i < y * width + x + 1 && loop_opened(
                                before,
                                tiles@,
                                width as int,
                                height as int,
                                i,
                            )) by {
                            if i != at && tiles@[i] != before[i] {
                                assert(now[i] != before[i]);
                                assert(loop_opened(before, now, width as int, height as int, i));
                                assert(tiles@[i - 1] == now[i - 1]);
                                vstd::arithmetic::div_mod::lemma_fundamental_div_mod(
                                    i,
                                    width as int,
                                );
                                assert(i >= width) by (nonlinear_arith)
                                    requires
                                        i == (width as int) * (i / (width as int)) + i % (
                                        width as int),
                                        i / (width as int) >= 1,
                                        i % (width as int) >= 0,
                                        width >= 3,
                                ;
                                assert(tiles@[i - width] == now[i - width]);
                            }
                        }
                    }
                }
            }
            proof {
                assert(slot(w, x as int, y as int) == at);
                assert((tiles@, rng.drawn()) == sweep_tile(seed, w, chance, state, x as int, y as int));
            }
            x = x + 1;
        }
        proof {
            assert((y + 1) * width == y * width + width) by (nonlinear_arith);
        }
        y = y + 1;
    }
}

} // verus!

verus! {

/// An inner walkable tile with at least two walkable neighbours: a place
/// where a player may spawn.
pub open spec fn spawn_candidate(plan: Floorplan, p: TilePos) -> bool {
    &&& interior(plan, p.x as int, p.y as int)
    &&& plan.is_open(p.x as int, p.y as int)
    &&& plan.open_neighbors(p.x as int, p.y as int) >= 2
}

/// Every walk from `p` to `q` takes at least `gap` steps, and some walk exists.
pub open spec fn far_apart(plan: Floorplan, p: TilePos, q: TilePos, gap: nat) -> bool {
    &&& plan.reachable(p.x as int, p.y as int, q.x as int, q.y as int)
    &&& forall|k: nat| k < gap ==> !#[trigger] plan.within(p.x as int, p.y as int, q.x as int, q.y as int, k)
}

/// `p` may spawn beside `q`: far enough by walking, and with no straight
/// line of fire between them.
pub open spec fn compatible(plan: Floorplan, p: TilePos, q: TilePos, gap: nat) -> bool {
    far_apart(plan, p, q, gap) && !clear_line(plan, p, q)
}

/// Spawns chosen greedily: at most sixteen, each a candidate, each compatible
/// with those chosen before it, and, unless all sixteen are taken, every
/// candidate left out clashes with one of them.
pub open spec fn spawns_spread(plan: Floorplan, spawns: Seq<TilePos>, gap: nat) -> bool {
    &&& spawns.len() <= 16
    &&& forall|i: int| 0 <= i < spawns.len() ==> spawn_candidate(plan, #[trigger] spawns[i])
    &&& forall|i: int, j: int|
        0 <= i < j < spawns.len() ==> compatible(plan, #[trigger] spawns[j], #[trigger] spawns[i], gap)
    &&& spawns.len() == 16 || forall|t: TilePos|
        #[trigger] spawn_candidate(plan, t) ==> spawns.contains(t) || exists|j: int|
            0 <= j < spawns.len() && !compatible(plan, t, #[trigger] spawns[j], gap)
}

/// The spawn candidates among the tiles `1 .. x` of row `y`, left to right.
pub open spec fn row_candidates(plan: Floorplan, y: int, x: int) -> Seq<TilePos>
    decreases x,
{
    if x <= 1 {
        seq![]
    } else {
        let p = TilePos { x: (x - 1) as usize, y: y as usize };
        row_candidates(plan, y, x - 1) + if spawn_candidate(plan, p) {
            seq![p]
        } else {
            seq![]
        }
    }
}

/// The spawn candidates of the rows `1 .. y`, row by row.
pub open spec fn candidates_above(plan: Floorplan, y: int) -> Seq<TilePos>
    decreases y,
{
    if y <= 1 {
        seq![]
    } else {
        candidates_above(plan, y - 1) + row_candidates(plan, y - 1, plan.width - 1)
    }
}

/// Every spawn candidate of the plan, in row-major order.
pub open spec fn candidate_list(plan: Floorplan) -> Seq<TilePos> {
    candidates_above(plan, plan.height - 1)
}

/// The spawns kept from the first `n` of `candidates`: each in turn joins
/// while fewer than sixteen are kept and it is compatible with all of them.
pub open spec fn greedy_spawns(plan: Floorplan, candidates: Seq<TilePos>, gap: nat, n: int) -> Seq<
    TilePos,
>
    decreases n,
{
    if n <= 0 {
        seq![]
    } else {
        let kept = greedy_spawns(plan, candidates, gap, n - 1);
        let p = candidates[n - 1];
        if kept.len() < 16 && forall|j: int|
            0 <= j < kept.len() ==> compatible(plan, p, #[trigger] kept[j], gap) {
            kept.push(p)
        } else {
            kept
        }
    }
}

/// Once sixteen spawns are kept, later candidates change nothing.
proof fn lemma_greedy_full(plan: Floorplan, candidates: Seq<TilePos>, gap: nat, n: int, m: int)
    requires
        0 <= n <= m,
        greedy_spawns(plan, candidates, gap, n).len() >= 16,
    ensures
        greedy_spawns(plan, candidates, gap, m) == greedy_spawns(plan, candidates, gap, n),
    decreases m - n,
{
    if m > n {
        lemma_greedy_full(plan, candidates, gap, n, m - 1);
    }
}

/// Every spawn candidate of the maze, row by row.
pub fn spawn_candidates(maze: &Maze) -> (found: Vec<TilePos>)
    requires
        maze.well_formed(),
        3 <= maze.width <= 1000,
        3 <= maze.height <= 1000,
    ensures
        forall|i: int| 0 <= i < found@.len() ==> spawn_candidate(maze.plan(), #[trigger] found@[i]),
        forall|t: TilePos| #[trigger] spawn_candidate(maze.plan(), t) ==> found@.contains(t),
        found@ == candidate_list(maze.plan()),
{
    let ghost plan = maze.plan();
    let mut found: Vec<TilePos> = Vec::new();
    let mut y: usize = 1;
    while y < maze.height - 1
        invariant
            maze.well_formed(),
            plan == maze.plan(),
            3 <= maze.width <= 1000,
            3 <= maze.height <= 1000,
            1 <= y <= maze.height - 1,
            forall|i: int| 0 <= i < found@.len() ==> spawn_candidate(plan, #[trigger] found@[i]),
            forall|t: TilePos| #[trigger] spawn_candidate(plan, t) && t.y < y ==> found@.contains(t),
            found@ == candidates_above(plan, y as int),
        decreases maze.height - y,
    {
        let mut x: usize = 1;
        while x < maze.width - 1
            invariant
                maze.well_formed(),
                plan == maze.plan(),
                3 <= maze.width <= 1000,
                3 <= maze.height <= 1000,
                1 <= y < maze.height - 1,
                1 <= x <= maze.width - 1,
                forall|i: int| 0 <= i < found@.len() ==> spawn_candidate(plan, #[trigger] found@[i]),
                forall|t: TilePos|
                    #[trigger] spawn_candidate(plan, t) && (t.y < y || (t.y == y && t.x < x))
                        ==> found@.contains(t),
                found@ == candidates_above(plan, y as int) + row_candidates(plan, y as int, x as int),
            decreases maze.width - x,
        {
            let p = TilePos { x, y };
            let ghost before = found@;
            proof {
                assert(p == TilePos { x: ((x + 1) - 1) as usize, y: (y as int) as usize });
                assert(row_candidates(plan, y as int, x + 1) == row_candidates(plan, y as int, x as int)
                    + if spawn_candidate(plan, p) {
                    seq![p]
                } else {
                    seq![]
                });
            }
            if maze.is_floor(x as isize, y as isize) && maze.floor_neighbors(p) >= 2 {
                found.push(p);
                proof {
                    assert(spawn_candidate(plan, p));
                    assert(found@ =~= candidates_above(plan, y as int) + row_candidates(
                        plan,
                        y as int,
                        x + 1,
                    ));
                    assert(found@[before.len() as int] == p);
                    assert forall|t: TilePos|
                        #[trigger] spawn_candidate(plan, t) && (t.y < y || (t.y == y && t.x < x + 1))
                            implies found@.contains(t) by {
                        if t != p {
                            assert(before.contains(t));
                            let i = choose|i: int| 0 <= i < before.len() && before[i] == t;
                            assert(found@[i] == t);
                        }
                    }
                }
            } else {
                proof {
                    assert(!spawn_candidate(plan, p));
                    assert(found@ =~= candidates_above(plan, y as int) + row_candidates(
                        plan,
                        y as int,
                        x + 1,
                    ));
                    assert forall|t: TilePos|
                        #[trigger] spawn_candidate(plan, t) && (t.y < y || (t.y == y && t.x < x + 1))
                            implies found@.contains(t) by {
                        if t.y == y && t.x == x {
                            assert(t == p);
                        }
                    }
                }
            }
            x = x + 1;
        }
        proof {
            assert(found@ =~= candidates_above(plan, y + 1));
            assert forall|t: TilePos| #[trigger] spawn_candidate(plan, t) && t.y < y + 1 implies found@.contains(
                t,
            ) by {
                if t.y == y {
                    assert(t.x < x);
                }
            }
        }
        y = y + 1;
    }
    found
}

/// The shortest walk from `p` to `other`, read off the search table `dist`
/// from `p`, is at least `gap`, and no straight line of fire joins them.
fn may_spawn_beside(
    maze: &Maze,
    dist: &Vec<usize>,
    p: TilePos,
    other: TilePos,
    gap: usize,
) -> (ok: bool)
    requires
        maze.well_formed(),
        maze.width <= 1000,
        maze.height <= 1000,
        crate::paths::answers_search(maze.plan(), p.x as int, p.y as int, dist@),
        p.x < maze.width,
        p.y < maze.height,
        other.x < maze.width,
        other.y < maze.height,
    ensures
        ok == compatible(maze.plan(), p, other, gap as nat),
{
    let ghost plan = maze.plan();
    proof {
        lemma_slot_bounds(maze.width as int, maze.height as int, other.x as int, other.y as int);
        // the table's length is a `usize`
        assert(dist@.len() == dist.len());
    }
    let at: usize = other.y * maze.width + other.x;
    let d: usize = dist[at];
    proof {
        let v = crate::paths::dist_at(dist@, maze.width as int, other.x as int, other.y as int);
        assert(d == v);
        if d != usize::MAX {
            assert(plan.is_distance(p.x as int, p.y as int, other.x as int, other.y as int, d as nat));
            if d < gap {
                assert(plan.within(p.x as int, p.y as int, other.x as int, other.y as int, d as nat));
            }
        }
    }
    d != usize::MAX && d >= gap && !clear_firing_line(maze, p, other)
}

/// Takes candidates in the given order while fewer than sixteen spawns are
/// chosen, keeping each that is compatible with all chosen before it.
#[verifier::spinoff_prover]
pub fn choose_spawns(maze: &Maze, candidates: &Vec<TilePos>, gap: usize) -> (spawns: Vec<TilePos>)
    requires
        maze.well_formed(),
        3 <= maze.width <= 1000,
        3 <= maze.height <= 1000,
        forall|i: int|
            0 <= i < candidates@.len() ==> spawn_candidate(maze.plan(), #[trigger] candidates@[i]),
    ensures
        spawns@ == greedy_spawns(maze.plan(), candidates@, gap as nat, candidates@.len() as int),
        forall|i: int, j: int|
            0 <= i < j < spawns@.len() ==> {
                let (p, q) = (#[trigger] spawns@[i], #[trigger] spawns@[j]);
                &&& !(p.x == q.x && forall|y: int|
                    (p.y < y < q.y || q.y < y < p.y) ==> #[trigger] maze.plan().is_open(
                        p.x as int,
                        y,
                    ))
                &&& !(p.y == q.y && forall|x: int|
                    (p.x < x < q.x || q.x < x < p.x) ==> #[trigger] maze.plan().is_open(
                        x,
                        p.y as int,
                    ))
            },
        spawns@.len() <= 16,
        forall|i: int| 0 <= i < spawns@.len() ==> candidates@.contains(#[trigger] spawns@[i]),
        forall|i: int, j: int|
            0 <= i < j < spawns@.len() ==> compatible(
                maze.plan(),
                #[trigger] spawns@[j],
                #[trigger] spawns@[i],
                gap as nat,
            ),
        spawns@.len() == 16 || forall|c: int|
            0 <= c < candidates@.len() ==> spawns@.contains(#[trigger] candidates@[c]) || exists|j: int|
                0 <= j < spawns@.len() && !compatible(
                    maze.plan(),
                    candidates@[c],
                    #[trigger] spawns@[j],
                    gap as nat,
                ),
{
    let ghost plan = maze.plan();
    let mut spawns: Vec<TilePos> = Vec::new();
    let mut c: usize = 0;
    while c < candidates.len()
        invariant
            maze.well_formed(),
            plan == maze.plan(),
            3 <= maze.width <= 1000,
            3 <= maze.height <= 1000,
            forall|i: int|
                0 <= i < candidates@.len() ==> spawn_candidate(plan, #[trigger] candidates@[i]),
            0 <= c <= candidates@.len(),
            spawns@.len() <= 16,
            spawns@ == greedy_spawns(plan, candidates@, gap as nat, c as int),
            forall|i: int| 0 <= i < spawns@.len() ==> candidates@.contains(#[trigger] spawns@[i]),
            forall|i: int, j: int|
                0 <= i < j < spawns@.len() ==> compatible(
                    plan,
                    #[trigger] spawns@[j],
                    #[trigger] spawns@[i],
                    gap as nat,
                ),
            forall|t: int|
                0 <= t < c ==> spawns@.contains(#[trigger] candidates@[t]) || exists|j: int|
                    0 <= j < spawns@.len() && !compatible(
                        plan,
                        candidates@[t],
                        #[trigger] spawns@[j],
                        gap as nat,
                    ),
        ensures
            spawns@.len() == 16 || c == candidates@.len(),
        decreases candidates@.len() - c,
    {
        if spawns.len() >= 16 {
            break;
        }
        let p = candidates[c];
        proof {
            assert(spawn_candidate(plan, candidates@[c as int]));
        }
        let mut acceptable: bool = true;
        if spawns.len() > 0 {
            let dist = distances_from(maze, p);
            let mut k: usize = 0;
            while k < spawns.len() && acceptable
                invariant
                    maze.well_formed(),
                    plan == maze.plan(),
                    3 <= maze.width <= 1000,
                    3 <= maze.height <= 1000,
                    spawn_candidate(plan, p),
                    crate::paths::answers_search(plan, p.x as int, p.y as int, dist@),
                    forall|i: int|
                        0 <= i < candidates@.len() ==> spawn_candidate(plan, #[trigger] candidates@[i]),
                    forall|i: int| 0 <= i < spawns@.len() ==> candidates@.contains(#[trigger] spawns@[i]),
                    0 <= k <= spawns@.len(),
                    acceptable ==> forall|j: int|
                        0 <= j < k ==> compatible(plan, p, #[trigger] spawns@[j], gap as nat),
                    !acceptable ==> exists|j: int|
                        0 <= j < k && !compatible(plan, p, #[trigger] spawns@[j], gap as nat),
                decreases spawns@.len() - k,
            {
                let other = spawns[k];
                proof {
                    assert(candidates@.contains(spawns@[k as int]));
                    let i = choose|i: int| 0 <= i < candidates@.len() && candidates@[i] == other;
                    assert(spawn_candidate(plan, candidates@[i]));
                }
                if !may_spawn_beside(maze, &dist, p, other, gap) {
                    acceptable = false;
                }
                k = k + 1;
            }
        }
        proof {
            assert(acceptable == forall|j: int|
                0 <= j < spawns@.len() ==> compatible(plan, p, #[trigger] spawns@[j], gap as nat));
        }
        let ghost before = spawns@;
        if acceptable {
            spawns.push(p);
        }
        proof {
            assert(spawns@ == greedy_spawns(plan, candidates@, gap as nat, c + 1));
            assert forall|i: int| 0 <= i < before.len() implies #[trigger] spawns@[i] == before[i] by {}
            assert forall|i: int| 0 <= i < spawns@.len() implies candidates@.contains(
                #[trigger] spawns@[i],
            ) by {
                if i == before.len() {
                    assert(candidates@[c as int] == p);
                } else {
                    assert(spawns@[i] == before[i]);
                }
            }
            assert forall|t: int|
                0 <= t < c + 1 implies spawns@.contains(#[trigger] candidates@[t]) || exists|j: int|
                0 <= j < spawns@.len() && !compatible(
                    plan,
                    candidates@[t],
                    #[trigger] spawns@[j],
                    gap as nat,
                ) by {
                if t == c {
                    if acceptable {
                        assert(spawns@[before.len() as int] == p);
                    } else {
                        let j = choose|j: int|
                            0 <= j < before.len() && !compatible(plan, p, #[trigger] before[j], gap as nat);
                        assert(spawns@[j] == before[j]);
                    }
                } else {
                    if before.contains(candidates@[t]) {
                        let i = choose|i: int| 0 <= i < before.len() && before[i] == candidates@[t];
                        assert(spawns@[i] == before[i]);
                    } else {
                        let j = choose|j: int|
                            0 <= j < before.len() && !compatible(
                                plan,
                                candidates@[t],
                                #[trigger] before[j],
                                gap as nat,
                            );
                        assert(spawns@[j] == before[j]);
                    }
                }
            }
        }
        c = c + 1;
    }
    proof {
        if c < candidates@.len() {
            lemma_greedy_full(plan, candidates@, gap as nat, c as int, candidates@.len() as int);
        }
        assert forall|i: int, j: int| 0 <= i < j < spawns@.len() implies !clear_line(
            plan,
            #[trigger] spawns@[i],
            #[trigger] spawns@[j],
        ) by {
            assert(compatible(plan, spawns@[j], spawns@[i], gap as nat));
            lemma_clear_line_symmetric(plan, spawns@[j], spawns@[i]);
        }
        assert forall|i: int, j: int|
            0 <= i < j < spawns@.len() implies {
            let (p, q) = (#[trigger] spawns@[i], #[trigger] spawns@[j]);
            &&& !(p.x == q.x && forall|y: int|
                (p.y < y < q.y || q.y < y < p.y) ==> #[trigger] plan.is_open(p.x as int, y))
            &&& !(p.y == q.y && forall|x: int|
                (p.x < x < q.x || q.x < x < p.x) ==> #[trigger] plan.is_open(x, p.y as int))
        } by {
            assert(!clear_line(plan, spawns@[i], spawns@[j]));
            lemma_clear_line_means(plan, spawns@[i], spawns@[j]);
        }
    }
    spawns
}

} // verus!

verus! {

/// Every tile reached from `(1, 1)` lies within `k` steps of it, and every
/// such tile after `(ox, oy)` in row-major order within `k - 1` steps.
pub open spec fn corner_bound(plan: Floorplan, ox: int, oy: int, k: nat) -> bool {
    &&& forall|x: int, y: int|
        plan.contains(x, y) && #[trigger] plan.reachable(1, 1, x, y) ==> plan.within(1, 1, x, y, k)
    &&& forall|x: int, y: int|
        plan.contains(x, y) && #[trigger] plan.reachable(1, 1, x, y) && slot(plan.width, x, y) > slot(
            plan.width,
            ox,
            oy,
        ) ==> k > 0 && plan.within(1, 1, x, y, (k - 1) as nat)
}

/// `o` is a tile that a walk from `(1, 1)` reaches, as far from it as any
/// reached tile, and the last such tile in row-major order.
pub open spec fn farthest_from_corner(plan: Floorplan, o: TilePos) -> bool {
    &&& plan.contains(o.x as int, o.y as int)
    &&& exists|k: nat|
        #[trigger] plan.is_distance(1, 1, o.x as int, o.y as int, k) && corner_bound(
            plan,
            o.x as int,
            o.y as int,
            k,
        )
}

/// A maze as `carve` lays it out for a difficulty: its size, carved
/// passages with every cell open, the objective farthest from `(1, 1)`, and
/// spread-out spawns.
pub open spec fn carved(m: Maze, difficulty: Difficulty) -> bool {
    let (w, h, chance, gap) = difficulty.spec_settings();
    &&& m.width == w
    &&& m.height == h
    &&& m.tiles@.len() == w * h
    &&& passages(m.plan())
    &&& forall|x: int, y: int| odd_cell(m.plan(), x, y) ==> #[trigger] m.plan().is_open(x, y)
    &&& farthest_from_corner(m.plan(), m.objective)
    &&& spawns_spread(m.plan(), m.spawns@, gap as nat)
}

/// The last tile holding the largest entry of the search from `(1, 1)` is
/// the farthest tile from the corner.
#[verifier::spinoff_prover]
proof fn lemma_farthest_from_corner(plan: Floorplan, d: Seq<usize>, i: int)
    requires
        crate::paths::answers_search(plan, 1, 1, d),
        crate::paths::is_last_farthest(d, i),
        plan.width > 0,
        plan.width <= usize::MAX,
        plan.height <= usize::MAX,
    ensures
        farthest_from_corner(
            plan,
            TilePos { x: (i % plan.width) as usize, y: (i / plan.width) as usize },
        ),
{
    let w = plan.width;
    crate::paths::lemma_slot_decompose(w, plan.height, i);
    let ox = i % w;
    let oy = i / w;
    let o = TilePos { x: ox as usize, y: oy as usize };
    let k = d[i] as nat;
    assert(crate::paths::dist_at(d, w, ox, oy) == d[i]);
    assert(plan.is_distance(1, 1, ox, oy, k));
    assert forall|x: int, y: int|
        plan.contains(x, y) && #[trigger] plan.reachable(1, 1, x, y) implies plan.within(1, 1, x, y, k) by {
        lemma_slot_bounds(w, plan.height, x, y);
        let v = crate::paths::dist_at(d, w, x, y);
        assert(d[slot(w, x, y)] == v);
        crate::paths::lemma_within_monotone(plan, 1, 1, x, y, v as nat, k);
    }
    assert forall|x: int, y: int|
        plan.contains(x, y) && #[trigger] plan.reachable(1, 1, x, y) && slot(w, x, y) > slot(w, ox, oy)
            implies k > 0 && plan.within(1, 1, x, y, (k - 1) as nat) by {
        lemma_slot_bounds(w, plan.height, x, y);
        let v = crate::paths::dist_at(d, w, x, y);
        assert(d[slot(w, x, y)] == v);
        crate::paths::lemma_within_monotone(plan, 1, 1, x, y, v as nat, (k - 1) as nat);
    }
    assert(corner_bound(plan, ox, oy, k));
    assert(o.x as int == ox && o.y as int == oy);
    assert(plan.contains(o.x as int, o.y as int));
    assert(plan.is_distance(1, 1, o.x as int, o.y as int, k) && corner_bound(
        plan,
        o.x as int,
        o.y as int,
        k,
    ));
}

/// An order that lists each of its positions once lists every position.
proof fn lemma_order_onto(order: Seq<int>, i: int)
    requires
        0 <= i < order.len(),
        forall|k: int| 0 <= k < order.len() ==> 0 <= #[trigger] order[k] < order.len(),
        forall|k: int, l: int| 0 <= k < l < order.len() ==> #[trigger] order[k] != #[trigger] order[l],
    ensures
        exists|j: int| 0 <= j < order.len() && order[j] == i,
{
    let hit = order.to_set();
    let all = vstd::set_lib::set_int_range(0, order.len() as int);
    assert(order.no_duplicates()) by {
        assert forall|k: int, l: int|
            0 <= k < order.len() && 0 <= l < order.len() && k != l implies order[k] != order[l] by {
            if k < l {
                assert(order[k] != order[l]);
            } else {
                assert(order[l] != order[k]);
            }
        }
    }
    order.unique_seq_to_set();
    vstd::set_lib::lemma_int_range(0, order.len() as int);
    if !hit.contains(i) {
        assert(hit.subset_of(all.remove(i))) by {
            assert forall|v: int| hit.contains(v) implies all.remove(i).contains(v) by {
                let k = choose|k: int| 0 <= k < order.len() && order[k] == v;
            }
        }
        assert(all.contains(i));
        vstd::set_lib::lemma_len_subset(hit, all.remove(i));
    }
}

/// The tile farthest from `(1, 1)`, the last in row-major order among equals.
pub open spec fn corner_objective(plan: Floorplan) -> TilePos {
    choose|o: TilePos| farthest_from_corner(plan, o)
}

/// Only one tile is farthest from the corner.
proof fn lemma_farthest_unique(plan: Floorplan, a: TilePos, b: TilePos)
    requires
        plan.width > 0,
        farthest_from_corner(plan, a),
        farthest_from_corner(plan, b),
    ensures
        a == b,
{
    let (ax, ay, bx, by) = (a.x as int, a.y as int, b.x as int, b.y as int);
    let ka = choose|k: nat| #[trigger] plan.is_distance(1, 1, ax, ay, k) && corner_bound(plan, ax, ay, k);
    let kb = choose|k: nat| #[trigger] plan.is_distance(1, 1, bx, by, k) && corner_bound(plan, bx, by, k);
    assert(plan.reachable(1, 1, ax, ay));
    assert(plan.reachable(1, 1, bx, by));
    assert(plan.within(1, 1, ax, ay, kb));
    assert(plan.within(1, 1, bx, by, ka));
    if ka < kb {
        assert(!plan.within(1, 1, bx, by, ka));
    }
    if kb < ka {
        assert(!plan.within(1, 1, ax, ay, kb));
    }
    assert(ka == kb);
    if slot(plan.width, ax, ay) > slot(plan.width, bx, by) {
        assert(plan.within(1, 1, ax, ay, (kb - 1) as nat));
        assert(!plan.within(1, 1, ax, ay, (ka - 1) as nat));
    }
    if slot(plan.width, ax, ay) < slot(plan.width, bx, by) {
        assert(plan.within(1, 1, bx, by, (ka - 1) as nat));
        assert(!plan.within(1, 1, bx, by, (kb - 1) as nat));
    }
    lemma_slot_injective(plan.width, ax, ay, bx, by);
}

/// The maze that `carve` lays out from `seed` at `difficulty`: the passages
/// of the depth-first carver on the stream of `seed`, then the loops its
/// sweep opens, the objective farthest from `(1, 1)`, and the spawns kept from
/// the row-major candidates in the order of the shuffle that follows.
#[verifier::opaque]
pub open spec fn carved_layout(seed: u64, difficulty: Difficulty) -> Layout {
    let (w, h, chance, gap) = difficulty.spec_settings();
    let dug = carving_done(seed, w, h, 0);
    let looped = swept(seed, w, h, chance, dug.tiles, dug.drawn);
    let plan = grid(w, h, looped.0);
    let listed = candidate_list(plan);
    let order = shuffle_outcome(seed, looped.1, listed.len()).0;
    Layout {
        width: w,
        height: h,
        tiles: looped.0,
        spawns: greedy_spawns(plan, reordered(listed, order), gap as nat, listed.len() as int),
        objective: corner_objective(plan),
    }
}

/// Lays out a maze from `seed`: carves passages, opens some loops, puts the
/// objective on the tile farthest from `(1, 1)`, and spreads up to sixteen
/// spawns over a shuffled list of candidates.
pub(crate) fn carve(seed: u64, difficulty: Difficulty) -> (maze: Maze)
    ensures
        maze@ == carved_layout(seed, difficulty),
        carved(maze, difficulty),
{
    let (width, height, chance, gap) = difficulty.settings();
    let mut rng = SeededRng::new(seed);
    let mut tiles = carve_passages(&mut rng, width, height);
    let ghost dug = carving_done(seed, width, height, 0);
    let ghost cells = tiles@;
    open_loops(&mut rng, &mut tiles, width, height, chance);
    proof {
        let plan = grid(width, height, tiles@);
        assert forall|x: int, y: int| odd_cell(plan, x, y) implies #[trigger] plan.is_open(x, y) by {
            assert(grid(width, height, cells).is_open(x, y));
            lemma_slot_bounds(width as int, height as int, x, y);
            assert(tiles@[slot(width as int, x, y)] == cells[slot(width as int, x, y)] || tiles@[slot(
                width as int,
                x,
                y,
            )] == 1);
        }
    }
    let ghost looped = swept(seed, width, height, chance, dug.tiles, dug.drawn);
    let corner = TilePos { x: 1, y: 1 };
    let mut maze = Maze { width, height, tiles, spawns: Vec::new(), objective: corner };
    let ghost plan = maze.plan();
    proof {
        assert(plan == grid(width, height, looped.0));
        assert(width * height <= 1_000_000) by (nonlinear_arith)
            requires
                width <= 1000,
                height <= 1000,
        ;
    }
    let distances = distances_from(&maze, corner);
    proof {
        assert(plan.within(1, 1, 1, 1, 0));
        lemma_slot_bounds(width as int, height as int, 1, 1);
        assert(crate::paths::dist_at(distances@, width as int, 1, 1) != usize::MAX);
    }
    let objective = farthest(&maze, distances.as_slice());
    proof {
        let i = choose|i: int|
            crate::paths::is_last_farthest(distances@, i) && objective.x == i % (width as int)
                && objective.y == i / (width as int);
        lemma_farthest_from_corner(plan, distances@, i);
        lemma_farthest_unique(plan, objective, corner_objective(plan));
    }
    maze.objective = objective;
    let mut candidates = spawn_candidates(&maze);
    let ghost listed = candidates@;
    rng.shuffle(&mut candidates);
    proof {
        let order = shuffle_outcome(seed, looped.1, listed.len()).0;
        assert(candidates@ == reordered(listed, order));
        assert forall|i: int| 0 <= i < candidates@.len() implies spawn_candidate(
            plan,
            #[trigger] candidates@[i],
        ) by {
            assert(candidates@[i] == listed[order[i]]);
            assert(listed.contains(listed[order[i]]));
        }
        assert forall|t: TilePos| #[trigger] spawn_candidate(plan, t) implies candidates@.contains(t) by {
            assert(listed.contains(t));
            let i = choose|i: int| 0 <= i < listed.len() && listed[i] == t;
            lemma_order_onto(order, i);
            let j = choose|j: int| 0 <= j < order.len() && order[j] == i;
            assert(candidates@[j] == t);
        }
    }
    let spawns = choose_spawns(&maze, &candidates, gap);
    proof {
        let s = spawns@;
        assert forall|i: int| 0 <= i < s.len() implies spawn_candidate(plan, #[trigger] s[i]) by {
            let c = choose|c: int| 0 <= c < candidates@.len() && candidates@[c] == s[i];
        }
        if s.len() != 16 {
            assert forall|t: TilePos| #[trigger] spawn_candidate(plan, t) implies s.contains(t) || exists|j: int|
                0 <= j < s.len() && !compatible(plan, t, #[trigger] s[j], gap as nat) by {
                let c = choose|c: int| 0 <= c < candidates@.len() && candidates@[c] == t;
                assert(s.contains(candidates@[c]) || exists|j: int|
                    0 <= j < s.len() && !compatible(plan, candidates@[c], #[trigger] s[j], gap as nat));
            }
        }
    }
    maze.spawns = spawns;
    proof {
        reveal(carved_layout);
        assert(maze@ == carved_layout(seed, difficulty));
    }
    maze
}

} // verus!
