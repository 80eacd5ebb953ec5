use vstd::prelude::*;

use crate::carving::{
    carve, carved, carved_layout, compatible, grid, interior, passages, spawn_candidate,
    spawns_spread,
};
use crate::paths::{
    answers_search, distances_from, found_count, lemma_found_count_is_reach_count, open_count,
    reach_count, slot, Floorplan,
};

verus! {

/// How hard a generated maze is: larger grids, fewer loops and wider spawn
/// spacing as the level rises.
#[derive(Debug, Clone, Copy, PartialEq, Eq, Structural)]
pub enum Difficulty {
    Easy,
    Medium,
    Hard,
}

/// The lower-case form of an ASCII letter; every other char is kept.
pub open spec fn ascii_lower(c: char) -> char {
    if 65 <= (c as u32) && (c as u32) <= 90 {
        ((c as u32) + 32) as char
    } else {
        c
    }
}

pub open spec fn lowercase_ascii(s: Seq<char>) -> Seq<char> {
    s.map_values(|c: char| ascii_lower(c))
}

/// `str::to_ascii_lowercase` from std: maps 'A'..='Z' to 'a'..='z' and keeps
/// every other char.
#[verifier::external_body]
fn ascii_lowercase(value: &str) -> (lower: String)
    ensures
        lower@ == lowercase_ascii(value@),
{
    value.to_ascii_lowercase()
}

impl Difficulty {
    /// The level named by `value`: its name or number, in any ASCII case.
    pub open spec fn named(value: Seq<char>) -> Option<Difficulty> {
        let l = lowercase_ascii(value);
        if l == "easy"@ || l == "1"@ {
            Some(Difficulty::Easy)
        } else if l == "medium"@ || l == "2"@ {
            Some(Difficulty::Medium)
        } else if l == "hard"@ || l == "3"@ {
            Some(Difficulty::Hard)
        } else {
            None
        }
    }

    /// Reads a difficulty from its name (`easy`, `medium`, `hard`) or its
    /// number (`1`, `2`, `3`), ignoring ASCII case.
    pub fn parse(value: &str) -> (r: Option<Self>)
        ensures
            r == Self::named(value@),
    {
        let lower = ascii_lowercase(value);
        if lower == String::from_str("easy") || lower == String::from_str("1") {
            Some(Difficulty::Easy)
        } else if lower == String::from_str("medium") || lower == String::from_str("2") {
            Some(Difficulty::Medium)
        } else if lower == String::from_str("hard") || lower == String::from_str("3") {
            Some(Difficulty::Hard)
        } else {
            None
        }
    }

    /// Width, height, chance of opening a loop, and the least walking distance
    /// between two spawns. The chance is counted in units of 2^-24: a wall is
    /// a candidate for opening when a uniform 24-bit draw lies below it. The
    /// bounds are the least integers above 0.16, 0.08 and 0.025 (as `f32`)
    /// times 2^24.
    pub open spec fn spec_settings(self) -> (usize, usize, u32, usize) {
        match self {
            Difficulty::Easy => (31, 23, 2_684_355, 10),
            Difficulty::Medium => (37, 27, 1_342_178, 14),
            Difficulty::Hard => (45, 33, 419_431, 18),
        }
    }

    /// Width, height, loop chance and spawn spacing of this level (see `spec_settings`).
    pub fn settings(self) -> (r: (usize, usize, u32, usize))
        ensures
            r == self.spec_settings(),
    {
        match self {
            Difficulty::Easy => (31, 23, 2_684_355, 10),
            Difficulty::Medium => (37, 27, 1_342_178, 14),
            Difficulty::Hard => (45, 33, 419_431, 18),
        }
    }

    /// The rank of the level: 0 for easy, 2 for hard.
    pub open spec fn rank(self) -> int {
        match self {
            Difficulty::Easy => 0,
            Difficulty::Medium => 1,
            Difficulty::Hard => 2,
        }
    }
}

/// The upper-case form of an ASCII letter; every other char is kept.
pub open spec fn ascii_upper(c: char) -> char {
    if 97 <= (c as u32) && (c as u32) <= 122 {
        ((c as u32) - 32) as char
    } else {
        c
    }
}

pub open spec fn uppercase_ascii(s: Seq<char>) -> Seq<char> {
    s.map_values(|c: char| ascii_upper(c))
}

/// ASCII case never changes which level a text names.
pub proof fn lemma_parse_ignores_case(s: Seq<char>)
    ensures
        Difficulty::named(lowercase_ascii(s)) == Difficulty::named(s),
        Difficulty::named(uppercase_ascii(s)) == Difficulty::named(s),
{
    assert forall|i: int| 0 <= i < s.len() implies ascii_lower(ascii_lower(#[trigger] s[i])) == ascii_lower(
        s[i],
    ) && ascii_lower(ascii_upper(s[i])) == ascii_lower(s[i]) by {
        let v = s[i] as u32;
        if 65 <= v <= 90 {
            assert((((v + 32) as u32) as char) as u32 == v + 32);
        }
        if 97 <= v <= 122 {
            let u = ((v - 32) as u32) as char;
            assert(u as u32 == v - 32);
            assert(((u as u32) + 32) as u32 == v);
            vstd::utf8::char_u32_cast(s[i], v);
            assert(ascii_lower(u) == s[i]);
        }
    }
    assert(lowercase_ascii(lowercase_ascii(s)) =~= lowercase_ascii(s));
    assert(lowercase_ascii(uppercase_ascii(s)) =~= lowercase_ascii(s));
}

/// The name of each level as its `Debug` form writes it.
pub open spec fn level_name(d: Difficulty) -> Seq<char> {
    match d {
        Difficulty::Easy => "Easy"@,
        Difficulty::Medium => "Medium"@,
        Difficulty::Hard => "Hard"@,
    }
}

/// The name of every level reads back as that level.
pub proof fn lemma_level_names_parse_back(d: Difficulty)
    ensures
        Difficulty::named(level_name(d)) == Some(d),
{
    reveal_strlit("Easy");
    reveal_strlit("easy");
    reveal_strlit("Medium");
    reveal_strlit("medium");
    reveal_strlit("Hard");
    reveal_strlit("hard");
    reveal_strlit("1");
    reveal_strlit("2");
    reveal_strlit("3");
    let n = level_name(d);
    assert forall|i: int| 0 <= i < n.len() implies #[trigger] ascii_lower(n[i]) == if i == 0 {
        ((n[i] as u32) + 32) as char
    } else {
        n[i]
    } by {}
    match d {
        Difficulty::Easy => {
            assert(((('E' as u32) + 32) as u32) as char == 'e');
            assert(lowercase_ascii(n) =~= "easy"@);
            assert(lowercase_ascii(n) == "easy"@);
            assert(Difficulty::named(n) == Some(Difficulty::Easy));
        },
        Difficulty::Medium => {
            assert(((('M' as u32) + 32) as u32) as char == 'm');
            assert(lowercase_ascii(n) =~= "medium"@);
            assert(lowercase_ascii(n) == "medium"@);
            assert(Difficulty::named(n) == Some(Difficulty::Medium));
        },
        Difficulty::Hard => {
            assert(((('H' as u32) + 32) as u32) as char == 'h');
            assert(lowercase_ascii(n) =~= "hard"@);
            assert(lowercase_ascii(n) == "hard"@);
            assert("hard"@[0] != "easy"@[0]);
            assert("hard"@ != "easy"@);
            assert(Difficulty::named(n) == Some(Difficulty::Hard));
        },
    }
}

/// Each level's loop chance, counted in units of 2^-24, is the least count
/// that reaches the level's chance of opening a loop: 16 in 100 for easy, 8
/// in 100 for medium and 25 in 1000 for hard. A wall opens when the top 24
/// bits of its word fall below that count, so exactly as often as a uniform
/// draw from [0, 1) in steps of 2^-24 falls below the chance. The sizes and
/// spacings are 31 x 23 and 10, 37 x 27 and 14, 45 x 33 and 18.
pub proof fn lemma_level_settings()
    ensures
        ({
            let (w, h, c, gap) = Difficulty::Easy.spec_settings();
            &&& w == 31 && h == 23 && gap == 10
            &&& (c - 1) * 100 < 16 * 0x100_0000 <= c * 100
        }),
        ({
            let (w, h, c, gap) = Difficulty::Medium.spec_settings();
            &&& w == 37 && h == 27 && gap == 14
            &&& (c - 1) * 100 < 8 * 0x100_0000 <= c * 100
        }),
        ({
            let (w, h, c, gap) = Difficulty::Hard.spec_settings();
            &&& w == 45 && h == 33 && gap == 18
            &&& (c - 1) * 1000 < 25 * 0x100_0000 <= c * 1000
        }),
{
}

/// Harder levels have larger grids, fewer loops and wider spawn spacing.
pub proof fn lemma_difficulty_progression(a: Difficulty, b: Difficulty)
    requires
        a.rank() < b.rank(),
    ensures
        a.spec_settings().0 < b.spec_settings().0,
        a.spec_settings().1 < b.spec_settings().1,
        a.spec_settings().2 > b.spec_settings().2,
        a.spec_settings().3 < b.spec_settings().3,
{
}

/// A tile coordinate: `x` counts columns, `y` counts rows.
#[derive(Debug, Clone, Copy, PartialEq, Eq, Structural)]
pub struct TilePos {
    pub x: usize,
    pub y: usize,
}

/// A rectangular maze.
#[derive(Debug, Clone)]
pub struct Maze {
    pub width: usize,
    pub height: usize,
    /// Row-major: 0 is wall, 1 is walkable.
    pub tiles: Vec<u8>,
    pub spawns: Vec<TilePos>,
    pub objective: TilePos,
}

/// What a maze holds, as plain values.
pub struct Layout {
    pub width: usize,
    pub height: usize,
    pub tiles: Seq<u8>,
    pub spawns: Seq<TilePos>,
    pub objective: TilePos,
}

impl Layout {
    /// The walkable layout of these tiles.
    pub open spec fn plan(self) -> Floorplan {
        Floorplan { width: self.width as int, height: self.height as int, tiles: self.tiles }
    }
}

impl View for Maze {
    type V = Layout;

    open spec fn view(&self) -> Layout {
        Layout {
            width: self.width,
            height: self.height,
            tiles: self.tiles@,
            spawns: self.spawns@,
            objective: self.objective,
        }
    }
}

impl Maze {
    /// The walkable layout that this maze describes.
    pub open spec fn plan(&self) -> Floorplan {
        Floorplan { width: self.width as int, height: self.height as int, tiles: self.tiles@ }
    }

    /// Every tile of the grid has an entry in `tiles`, and the sides of a grid
    /// with tiles fit an `isize`, as the length of a `Vec` does.
    pub open spec fn well_formed(&self) -> bool {
        &&& self.tiles@.len() >= self.width * self.height
        &&& self.width * self.height > 0 ==> self.width <= isize::MAX && self.height <= isize::MAX
    }

    /// A grid with a tile `(x, y)` has tiles, so its sides fit an `isize`.
    pub proof fn lemma_sides_fit(&self, x: int, y: int)
        requires
            self.well_formed(),
            0 <= x < self.width,
            0 <= y < self.height,
        ensures
            self.width <= isize::MAX,
            self.height <= isize::MAX,
    {
        assert(self.width * self.height > 0) by (nonlinear_arith)
            requires
                0 <= x < self.width,
                0 <= y < self.height,
        ;
    }

    /// Whether `(x, y)` lies inside the grid on a walkable tile.
    pub fn is_floor(&self, x: isize, y: isize) -> (r: bool)
        requires
            self.well_formed(),
        ensures
            r == self.plan().is_open(x as int, y as int),
    {
        if x >= 0 && y >= 0 && (x as usize) < self.width && (y as usize) < self.height {
            let total: usize = self.tiles.len();
            let col: usize = x as usize;
            let row: usize = y as usize;
            proof {
                crate::paths::lemma_slot_bounds(
                    self.width as int,
                    self.height as int,
                    col as int,
                    row as int,
                );
                assert(self.tiles@.len() == total);
            }
            let at: usize = row * self.width + col;
            self.tiles[at] == 1
        } else {
            false
        }
    }

    /// How many of the four orthogonal neighbours of `p` are walkable.
    pub fn floor_neighbors(&self, p: TilePos) -> (r: usize)
        requires
            self.well_formed(),
            p.x < isize::MAX,
            p.y < isize::MAX,
        ensures
            r == self.plan().open_neighbors(p.x as int, p.y as int),
    {
        let x: isize = p.x as isize;
        let y: isize = p.y as isize;
        let mut count: usize = 0;
        if self.is_floor(x + 1, y) {
            count = count + 1;
        }
        if self.is_floor(x - 1, y) {
            count = count + 1;
        }
        if self.is_floor(x, y + 1) {
            count = count + 1;
        }
        if self.is_floor(x, y - 1) {
            count = count + 1;
        }
        count
    }
}

} // verus!

verus! {

/// The first check that a maze fails, in the order `validate` makes them.
#[derive(Debug, Clone, Copy, PartialEq, Eq, Structural)]
pub enum MazeFault {
    TooFewSpawns,
    ObjectiveBlocked,
    Disconnected,
    UnsafeSpawn,
    ObjectiveUnreachable,
}

impl MazeFault {
    /// The text that `validate` reports for this fault.
    pub open spec fn message(self) -> Seq<char> {
        match self {
            MazeFault::TooFewSpawns => "fewer than ten safe spawns"@,
            MazeFault::ObjectiveBlocked => "objective is blocked"@,
            MazeFault::Disconnected => "walkable region is disconnected"@,
            MazeFault::UnsafeSpawn => "unsafe or unreachable spawn"@,
            MazeFault::ObjectiveUnreachable => "objective is unreachable"@,
        }
    }
}

/// A spawn is safe when it stands on a walkable tile with at least two
/// walkable neighbours, and it counts when a walk from the first spawn reaches it.
pub open spec fn spawn_is_safe(m: Layout, p: TilePos) -> bool {
    let s = m.spawns[0];
    &&& m.plan().is_open(p.x as int, p.y as int)
    &&& m.plan().open_neighbors(p.x as int, p.y as int) >= 2
    &&& m.plan().reachable(s.x as int, s.y as int, p.x as int, p.y as int)
}

/// The first rule of a playable maze that `m` breaks, if any: at least ten
/// spawns, a walkable objective, as many tiles reached from the first spawn as
/// there are walkable tiles, every spawn walkable, safe and reached, the
/// objective reached.
pub open spec fn maze_fault(m: Layout) -> Option<MazeFault> {
    let plan = m.plan();
    let s = m.spawns[0];
    let o = m.objective;
    if m.spawns.len() < 10 {
        Some(MazeFault::TooFewSpawns)
    } else if !plan.is_open(o.x as int, o.y as int) {
        Some(MazeFault::ObjectiveBlocked)
    } else if reach_count(plan, s.x as int, s.y as int, (m.width * m.height) as nat) != open_count(
        m.tiles,
        m.tiles.len(),
    ) {
        Some(MazeFault::Disconnected)
    } else if exists|i: int| 0 <= i < m.spawns.len() && !spawn_is_safe(m, #[trigger] m.spawns[i]) {
        Some(MazeFault::UnsafeSpawn)
    } else if !plan.reachable(s.x as int, s.y as int, o.x as int, o.y as int) {
        Some(MazeFault::ObjectiveUnreachable)
    } else {
        None
    }
}

/// What `validate` needs to run without failing: a well-formed grid, and,
/// once the spawn count and the objective have passed, a first spawn whose
/// row-major position falls inside the grid's table.
pub open spec fn validate_requires(m: Maze) -> bool {
    &&& m.well_formed()
    &&& (m.spawns@.len() >= 10 && m.plan().is_open(m.objective.x as int, m.objective.y as int))
        ==> m.spawns@[0].y * m.width + m.spawns@[0].x < m.width * m.height
}

/// A walk from a tile off the grid whose only walkable neighbour is
/// `(nx, ny)` goes on from that neighbour.
proof fn lemma_walk_from_outside(
    plan: Floorplan,
    sx: int,
    sy: int,
    nx: int,
    ny: int,
    x: int,
    y: int,
    k: nat,
)
    requires
        !plan.contains(sx, sy),
        plan.is_open(sx + 1, sy) ==> sx + 1 == nx && sy == ny,
        plan.is_open(sx - 1, sy) ==> sx - 1 == nx && sy == ny,
        plan.is_open(sx, sy + 1) ==> sx == nx && sy + 1 == ny,
        plan.is_open(sx, sy - 1) ==> sx == nx && sy - 1 == ny,
        plan.within(sx, sy, x, y, k),
        !(x == sx && y == sy),
    ensures
        plan.is_open(nx, ny),
        plan.within(nx, ny, x, y, k),
    decreases k,
{
    let j = (k - 1) as nat;
    if plan.within(sx, sy, x - 1, y, j) && !(x - 1 == sx && y == sy) {
        lemma_walk_from_outside(plan, sx, sy, nx, ny, x - 1, y, j);
    } else if plan.within(sx, sy, x + 1, y, j) && !(x + 1 == sx && y == sy) {
        lemma_walk_from_outside(plan, sx, sy, nx, ny, x + 1, y, j);
    } else if plan.within(sx, sy, x, y - 1, j) && !(x == sx && y - 1 == sy) {
        lemma_walk_from_outside(plan, sx, sy, nx, ny, x, y - 1, j);
    } else if plan.within(sx, sy, x, y + 1, j) && !(x == sx && y + 1 == sy) {
        lemma_walk_from_outside(plan, sx, sy, nx, ny, x, y + 1, j);
    }
}

/// A walk from a walkable neighbour of `(sx, sy)` is a walk from `(sx, sy)`
/// one step longer.
proof fn lemma_walk_from_neighbor(
    plan: Floorplan,
    sx: int,
    sy: int,
    nx: int,
    ny: int,
    x: int,
    y: int,
    k: nat,
)
    requires
        plan.is_open(nx, ny),
        vstd::math::abs(nx - sx) + vstd::math::abs(ny - sy) == 1,
        plan.within(nx, ny, x, y, k),
    ensures
        plan.within(sx, sy, x, y, k + 1),
    decreases k,
{
    if x == nx && y == ny {
        assert(plan.within(sx, sy, sx, sy, 0));
        assert(plan.within(sx, sy, x, y, 1));
        crate::paths::lemma_within_monotone(plan, sx, sy, x, y, 1, k + 1);
    } else {
        let j = (k - 1) as nat;
        if plan.within(nx, ny, x - 1, y, j) {
            lemma_walk_from_neighbor(plan, sx, sy, nx, ny, x - 1, y, j);
        } else if plan.within(nx, ny, x + 1, y, j) {
            lemma_walk_from_neighbor(plan, sx, sy, nx, ny, x + 1, y, j);
        } else if plan.within(nx, ny, x, y - 1, j) {
            lemma_walk_from_neighbor(plan, sx, sy, nx, ny, x, y - 1, j);
        } else {
            lemma_walk_from_neighbor(plan, sx, sy, nx, ny, x, y + 1, j);
        }
    }
}

/// Two starts that reach the same tiles of the grid reach as many of them.
proof fn lemma_reach_count_same(plan: Floorplan, ax: int, ay: int, bx: int, by: int, n: nat)
    requires
        plan.width > 0,
        n <= plan.width * plan.height,
        forall|x: int, y: int|
            plan.contains(x, y) ==> (plan.reachable(ax, ay, x, y) <==> #[trigger] plan.reachable(
                bx,
                by,
                x,
                y,
            )),
    ensures
        reach_count(plan, ax, ay, n) == reach_count(plan, bx, by, n),
    decreases n,
{
    if n > 0 {
        lemma_reach_count_same(plan, ax, ay, bx, by, (n - 1) as nat);
        crate::paths::lemma_slot_decompose(plan.width, plan.height, n - 1);
        assert(plan.reachable(ax, ay, (n - 1) % plan.width, (n - 1) / plan.width)
            <==> plan.reachable(bx, by, (n - 1) % plan.width, (n - 1) / plan.width));
    }
}

/// A start that reaches no tile of the grid counts none.
proof fn lemma_reach_count_none(plan: Floorplan, sx: int, sy: int, n: nat)
    requires
        plan.width > 0,
        n <= plan.width * plan.height,
        forall|x: int, y: int| plan.contains(x, y) ==> !#[trigger] plan.reachable(sx, sy, x, y),
    ensures
        reach_count(plan, sx, sy, n) == 0,
    decreases n,
{
    if n > 0 {
        lemma_reach_count_none(plan, sx, sy, (n - 1) as nat);
        crate::paths::lemma_slot_decompose(plan.width, plan.height, n - 1);
        assert(!plan.reachable(sx, sy, (n - 1) % plan.width, (n - 1) / plan.width));
    }
}

/// How many tiles of the maze are walkable.
fn count_floor(maze: &Maze) -> (c: usize)
    ensures
        c == open_count(maze.tiles@, maze.tiles@.len()),
{
    let mut floor_count: usize = 0;
    let mut i: usize = 0;
    while i < maze.tiles.len()
        invariant
            0 <= i <= maze.tiles@.len(),
            floor_count == open_count(maze.tiles@, i as nat),
            floor_count <= i,
        decreases maze.tiles@.len() - i,
    {
        if maze.tiles[i] == 1 {
            floor_count = floor_count + 1;
        }
        i = i + 1;
    }
    floor_count
}

/// How many entries of a search table hold a walk length.
fn count_found(distances: &Vec<usize>) -> (c: usize)
    ensures
        c == found_count(distances@, distances@.len()),
{
    let mut reached: usize = 0;
    let mut i: usize = 0;
    while i < distances.len()
        invariant
            0 <= i <= distances@.len(),
            reached == found_count(distances@, i as nat),
            reached <= i,
        decreases distances@.len() - i,
    {
        if distances[i] != usize::MAX {
            reached = reached + 1;
        }
        i = i + 1;
    }
    reached
}

/// `validate` for a maze whose first spawn lies off the grid: the first
/// spawn is not walkable, so the maze fails, for a disconnected region where
/// the tiles that a walk from the first spawn reaches are not all walkable
/// tiles, and for that spawn otherwise.
fn validate_off_grid(maze: &Maze) -> (r: Result<(), String>)
    requires
        validate_requires(*maze),
        maze.spawns@.len() >= 10,
        maze.plan().is_open(maze.objective.x as int, maze.objective.y as int),
        !(maze.spawns@[0].x < maze.width && maze.spawns@[0].y < maze.height),
    ensures
        r is Err,
        r matches Err(e) ==> maze_fault(maze@) matches Some(f) && e@ == f.message(),
{
    let ghost plan = maze.plan();
    let w: usize = maze.width;
    let h: usize = maze.height;
    let start = maze.spawns[0];
    let ghost (sx, sy) = (start.x as int, start.y as int);
    proof {
        maze.lemma_sides_fit(maze.objective.x as int, maze.objective.y as int);
        assert(start.y + 1 < h && start.x >= w) by (nonlinear_arith)
            requires
                start.y * w + start.x < w * h,
                !(start.x < w && start.y < h),
                w > 0,
        ;
    }
    let floor_count = count_floor(maze);
    let mut reached: usize = 0;
    if start.x == w && maze.is_floor((w - 1) as isize, start.y as isize) {
        let next = TilePos { x: w - 1, y: start.y };
        let distances = distances_from(maze, next);
        reached = count_found(&distances);
        proof {
            let (nx, ny) = (next.x as int, next.y as int);
            crate::paths::lemma_found_count_is_reach_count(plan, nx, ny, distances@, distances@.len());
            assert forall|x: int, y: int| plan.contains(x, y) implies (plan.reachable(sx, sy, x, y)
                <==> #[trigger] plan.reachable(nx, ny, x, y)) by {
                if plan.reachable(sx, sy, x, y) {
                    let k = choose|k: nat| plan.within(sx, sy, x, y, k);
                    lemma_walk_from_outside(plan, sx, sy, nx, ny, x, y, k);
                }
                if plan.reachable(nx, ny, x, y) {
                    let k = choose|k: nat| plan.within(nx, ny, x, y, k);
                    lemma_walk_from_neighbor(plan, sx, sy, nx, ny, x, y, k);
                }
            }
            lemma_reach_count_same(plan, sx, sy, nx, ny, (w * h) as nat);
        }
    } else {
        proof {
            assert forall|x: int, y: int| plan.contains(x, y) implies !#[trigger] plan.reachable(
                sx,
                sy,
                x,
                y,
            ) by {
                if plan.reachable(sx, sy, x, y) {
                    let k = choose|k: nat| plan.within(sx, sy, x, y, k);
                    lemma_walk_from_outside(plan, sx, sy, sx - 1, sy, x, y, k);
                }
            }
            lemma_reach_count_none(plan, sx, sy, (w * h) as nat);
            assert(found_count(Seq::<usize>::empty(), 0) == 0);
        }
    }
    if reached != floor_count {
        Err(String::from_str("walkable region is disconnected"))
    } else {
        proof {
            assert(!spawn_is_safe(maze@, maze.spawns@[0]));
        }
        Err(String::from_str("unsafe or unreachable spawn"))
    }
}

/// A maze that passes every check has at least ten spawns and a walkable
/// objective, and each spawn stands on a walkable tile with at least two
/// walkable neighbours, so that no spawn is a dead end.
pub proof fn lemma_passing_maze_is_safe(m: Layout)
    ensures
        maze_fault(m) is None ==> m.spawns.len() >= 10 && m.plan().is_open(
            m.objective.x as int,
            m.objective.y as int,
        ) && forall|i: int|
            0 <= i < m.spawns.len() ==> m.plan().is_open(
                (#[trigger] m.spawns[i]).x as int,
                m.spawns[i].y as int,
            ) && m.plan().open_neighbors(m.spawns[i].x as int, m.spawns[i].y as int) >= 2,
{
    if maze_fault(m) is None {
        assert forall|i: int| 0 <= i < m.spawns.len() implies m.plan().is_open(
            (#[trigger] m.spawns[i]).x as int,
            m.spawns[i].y as int,
        ) && m.plan().open_neighbors(m.spawns[i].x as int, m.spawns[i].y as int) >= 2 by {
            assert(spawn_is_safe(m, m.spawns[i]));
        }
    }
}

/// Checks that a maze is playable; the error names the first rule it breaks.
#[verifier::spinoff_prover]
pub fn validate(maze: &Maze) -> (r: Result<(), String>)
    requires
        validate_requires(*maze),
    ensures
        r is Ok <==> maze_fault(maze@) is None,
        r matches Err(e) ==> maze_fault(maze@) matches Some(f) && e@ == f.message(),
        r is Ok ==> maze.spawns@.len() >= 10 && maze.plan().is_open(
            maze.objective.x as int,
            maze.objective.y as int,
        ) && forall|i: int|
            0 <= i < maze.spawns@.len() ==> maze.plan().is_open(
                (#[trigger] maze.spawns@[i]).x as int,
                maze.spawns@[i].y as int,
            ) && maze.plan().open_neighbors(maze.spawns@[i].x as int, maze.spawns@[i].y as int) >= 2,
{
    proof {
        lemma_passing_maze_is_safe(maze@);
    }
    let ghost plan = maze.plan();
    let w: usize = maze.width;
    let h: usize = maze.height;
    if maze.spawns.len() < 10 {
        return Err(String::from_str("fewer than ten safe spawns"));
    }
    let objective = maze.objective;
    let mut blocked: bool = true;
    if objective.x < w && objective.y < h {
        proof {
            maze.lemma_sides_fit(objective.x as int, objective.y as int);
        }
        blocked = !maze.is_floor(objective.x as isize, objective.y as isize);
    }
    if blocked {
        return Err(String::from_str("objective is blocked"));
    }
    let start = maze.spawns[0];
    if !(start.x < w && start.y < h) {
        return validate_off_grid(maze);
    }
    proof {
        maze.lemma_sides_fit(start.x as int, start.y as int);
    }
    let distances = distances_from(maze, start);
    let ghost d = distances@;
    let floor_count = count_floor(maze);
    let reached = count_found(&distances);
    proof {
        lemma_found_count_is_reach_count(
            plan,
            start.x as int,
            start.y as int,
            d,
            d.len(),
        );
    }
    if reached != floor_count {
        return Err(String::from_str("walkable region is disconnected"));
    }
    let n: usize = distances.len();
    let mut k: usize = 0;
    while k < maze.spawns.len()
        invariant
            validate_requires(*maze),
            plan == maze.plan(),
            start == maze.spawns@[0],
            w == maze.width,
            h == maze.height,
            answers_search(plan, start.x as int, start.y as int, distances@),
            n == distances@.len(),
            maze.spawns@.len() >= 10,
            plan.is_open(objective.x as int, objective.y as int),
            objective == maze.objective,
            reach_count(plan, start.x as int, start.y as int, (w * h) as nat) == open_count(
                maze.tiles@,
                maze.tiles@.len(),
            ),
            0 <= k <= maze.spawns@.len(),
            forall|j: int| 0 <= j < k ==> spawn_is_safe(maze@, #[trigger] maze.spawns@[j]),
        decreases maze.spawns@.len() - k,
    {
        let p = maze.spawns[k];
        proof {
            assert(maze.spawns@[k as int] == p);
        }
        if !(p.x < w && p.y < h) {
            proof {
                assert(!spawn_is_safe(maze@, maze.spawns@[k as int]));
            }
            return Err(String::from_str("unsafe or unreachable spawn"));
        }
        proof {
            maze.lemma_sides_fit(p.x as int, p.y as int);
        }
        if maze.floor_neighbors(p) < 2 {
            return Err(String::from_str("unsafe or unreachable spawn"));
        }
        proof {
            crate::paths::lemma_slot_bounds(w as int, h as int, p.x as int, p.y as int);
        }
        let at: usize = p.y * w + p.x;
        proof {
            assert(distances@[at as int] == crate::paths::dist_at(
                distances@,
                w as int,
                p.x as int,
                p.y as int,
            ));
        }
        if distances[at] == usize::MAX || maze.tiles[at] != 1 {
            return Err(String::from_str("unsafe or unreachable spawn"));
        }
        k = k + 1;
    }
    proof {
        crate::paths::lemma_slot_bounds(w as int, h as int, objective.x as int, objective.y as int);
    }
    let at: usize = objective.y * w + objective.x;
    proof {
        assert(distances@[at as int] == crate::paths::dist_at(
            distances@,
            w as int,
            objective.x as int,
            objective.y as int,
        ));
    }
    if distances[at] == usize::MAX {
        return Err(String::from_str("objective is unreachable"));
    }
    Ok(())
}

} // verus!

verus! {

/// A maze together with the seed that produced it, and whether generation
/// fell back to the built-in seed.
pub struct GeneratedMaze {
    pub maze: Maze,
    pub effective_seed: u64,
    pub used_fallback: bool,
}

/// The seed of the maze that generation falls back on once every attempt
/// fails; it is carved at the easy level.
pub const FALLBACK_SEED: u64 = 0x4D41_5A45_5741_5253;

/// The seed of the attempt numbered `attempt` (from 0) of generation from `seed`.
pub open spec fn derived_seed(seed: u64, attempt: u64) -> u64 {
    seed.wrapping_add(attempt.wrapping_mul(0x9E37_79B9_7F4A_7C15))
}

/// Spawn `i` (from 0 to 9) of the open field of `difficulty`: two tiles or
/// more in from the edge, no two on one row or column, and every two at
/// least the level's spawn spacing apart.
pub open spec fn open_field_spawn(difficulty: Difficulty, i: int) -> TilePos {
    match difficulty {
        Difficulty::Easy => {
            if i == 0 {
                TilePos { x: 2, y: 2 }
            } else if i == 1 {
                TilePos { x: 3, y: 11 }
            } else if i == 2 {
                TilePos { x: 4, y: 20 }
            } else if i == 3 {
                TilePos { x: 8, y: 6 }
            } else if i == 4 {
                TilePos { x: 9, y: 15 }
            } else if i == 5 {
                TilePos { x: 14, y: 10 }
            } else if i == 6 {
                TilePos { x: 15, y: 19 }
            } else if i == 7 {
                TilePos { x: 17, y: 3 }
            } else if i == 8 {
                TilePos { x: 20, y: 14 }
            } else {
                TilePos { x: 23, y: 7 }
            }
        },
        Difficulty::Medium => {
            if i == 0 {
                TilePos { x: 2, y: 2 }
            } else if i == 1 {
                TilePos { x: 3, y: 15 }
            } else if i == 2 {
                TilePos { x: 8, y: 24 }
            } else if i == 3 {
                TilePos { x: 10, y: 8 }
            } else if i == 4 {
                TilePos { x: 15, y: 17 }
            } else if i == 5 {
                TilePos { x: 19, y: 3 }
            } else if i == 6 {
                TilePos { x: 23, y: 23 }
            } else if i == 7 {
                TilePos { x: 25, y: 11 }
            } else if i == 8 {
                TilePos { x: 32, y: 4 }
            } else {
                TilePos { x: 33, y: 18 }
            }
        },
        Difficulty::Hard => {
            if i == 0 {
                TilePos { x: 2, y: 2 }
            } else if i == 1 {
                TilePos { x: 3, y: 19 }
            } else if i == 2 {
                TilePos { x: 10, y: 30 }
            } else if i == 3 {
                TilePos { x: 12, y: 10 }
            } else if i == 4 {
                TilePos { x: 19, y: 21 }
            } else if i == 5 {
                TilePos { x: 23, y: 3 }
            } else if i == 6 {
                TilePos { x: 29, y: 29 }
            } else if i == 7 {
                TilePos { x: 31, y: 13 }
            } else if i == 8 {
                TilePos { x: 40, y: 4 }
            } else {
                TilePos { x: 41, y: 22 }
            }
        },
    }
}

/// The ten spawns of the open field of `difficulty`.
pub open spec fn open_field_spawns(difficulty: Difficulty) -> Seq<TilePos> {
    Seq::new(10, |i: int| open_field_spawn(difficulty, i))
}

/// `p` and `q` lie on different rows and columns, at least `gap` steps apart
/// counted along the axes.
pub open spec fn set_apart(p: TilePos, q: TilePos, gap: int) -> bool {
    &&& p.x != q.x
    &&& p.y != q.y
    &&& vstd::math::abs(p.x - q.x) + vstd::math::abs(p.y - q.y) >= gap
}

/// A walk of `k` steps covers at most `k` tiles along the axes.
proof fn lemma_walk_covers_distance(plan: Floorplan, sx: int, sy: int, x: int, y: int, k: nat)
    requires
        plan.within(sx, sy, x, y, k),
    ensures
        vstd::math::abs(x - sx) + vstd::math::abs(y - sy) <= k,
    decreases k,
{
    if !(x == sx && y == sy) {
        let j = (k - 1) as nat;
        if plan.within(sx, sy, x - 1, y, j) {
            lemma_walk_covers_distance(plan, sx, sy, x - 1, y, j);
        } else if plan.within(sx, sy, x + 1, y, j) {
            lemma_walk_covers_distance(plan, sx, sy, x + 1, y, j);
        } else if plan.within(sx, sy, x, y - 1, j) {
            lemma_walk_covers_distance(plan, sx, sy, x, y - 1, j);
        } else {
            lemma_walk_covers_distance(plan, sx, sy, x, y + 1, j);
        }
    }
}

/// The spawns of each open field lie in its inner part, each two set apart
/// by the level's spawn spacing.
proof fn lemma_open_field_spawns_apart(difficulty: Difficulty)
    ensures
        forall|i: int|
            0 <= i < 10 ==> {
                let p = #[trigger] open_field_spawn(difficulty, i);
                2 <= p.x <= difficulty.spec_settings().0 - 3 && 2 <= p.y
                    <= difficulty.spec_settings().1 - 3
            },
        forall|i: int, j: int|
            0 <= i < 10 && 0 <= j < 10 && i != j ==> set_apart(
                #[trigger] open_field_spawn(difficulty, i),
                #[trigger] open_field_spawn(difficulty, j),
                difficulty.spec_settings().3 as int,
            ),
{
}

/// On a grid with no walls, spawns set apart by `gap` are compatible.
proof fn lemma_spread_on_open_field(plan: Floorplan, spawns: Seq<TilePos>, gap: nat)
    requires
        forall|a: int, b: int| plan.contains(a, b) ==> #[trigger] plan.is_open(a, b),
        forall|i: int|
            0 <= i < spawns.len() ==> plan.contains(
                (#[trigger] spawns[i]).x as int,
                spawns[i].y as int,
            ),
        forall|i: int, j: int|
            0 <= i < spawns.len() && 0 <= j < spawns.len() && i != j ==> set_apart(
                #[trigger] spawns[i],
                #[trigger] spawns[j],
                gap as int,
            ),
    ensures
        forall|i: int, j: int|
            0 <= i < spawns.len() && 0 <= j < spawns.len() && i != j ==> compatible(
                plan,
                #[trigger] spawns[i],
                #[trigger] spawns[j],
                gap,
            ),
{
    assert forall|i: int, j: int|
        0 <= i < spawns.len() && 0 <= j < spawns.len() && i != j implies compatible(
        plan,
        #[trigger] spawns[i],
        #[trigger] spawns[j],
        gap,
    ) by {
        let p = spawns[i];
        let q = spawns[j];
        assert(set_apart(p, q, gap as int));
        lemma_open_walk(plan, p.x as int, p.y as int, q.x as int, q.y as int);
        assert forall|k: nat| k < gap implies !#[trigger] plan.within(
            p.x as int,
            p.y as int,
            q.x as int,
            q.y as int,
            k,
        ) by {
            if plan.within(p.x as int, p.y as int, q.x as int, q.y as int, k) {
                lemma_walk_covers_distance(plan, p.x as int, p.y as int, q.x as int, q.y as int, k);
            }
        }
    }
}

/// A maze with no inner walls at all, of the size set by `difficulty`.
pub open spec fn open_field(m: Maze, difficulty: Difficulty) -> bool {
    let (w, h, chance, gap) = difficulty.spec_settings();
    &&& m.width == w
    &&& m.height == h
    &&& m.tiles@.len() == w * h
    &&& forall|i: int| 0 <= i < m.tiles@.len() ==> #[trigger] m.tiles@[i] == 1
    &&& m.spawns@ == open_field_spawns(difficulty)
    &&& m.objective == (TilePos { x: w / 2, y: h / 2 })
    &&& forall|i: int, j: int|
        0 <= i < m.spawns@.len() && 0 <= j < m.spawns@.len() && i != j ==> compatible(
            m.plan(),
            #[trigger] m.spawns@[i],
            #[trigger] m.spawns@[j],
            gap as nat,
        )
}

/// A maze without walls, of the size set by `difficulty`, with ten fixed spawns
/// spread out as the spawn rules ask and the objective in the middle; `seed`
/// is reported unchanged.
pub fn empty(seed: u64, difficulty: Difficulty) -> (r: GeneratedMaze)
    ensures
        open_field(r.maze, difficulty),
        r.effective_seed == seed,
        !r.used_fallback,
{
    let (width, height, _chance, gap) = difficulty.settings();
    let spawns: Vec<TilePos> = match difficulty {
        Difficulty::Easy => vec![
            TilePos { x: 2, y: 2 },
            TilePos { x: 3, y: 11 },
            TilePos { x: 4, y: 20 },
            TilePos { x: 8, y: 6 },
            TilePos { x: 9, y: 15 },
            TilePos { x: 14, y: 10 },
            TilePos { x: 15, y: 19 },
            TilePos { x: 17, y: 3 },
            TilePos { x: 20, y: 14 },
            TilePos { x: 23, y: 7 },
        ],
        Difficulty::Medium => vec![
            TilePos { x: 2, y: 2 },
            TilePos { x: 3, y: 15 },
            TilePos { x: 8, y: 24 },
            TilePos { x: 10, y: 8 },
            TilePos { x: 15, y: 17 },
            TilePos { x: 19, y: 3 },
            TilePos { x: 23, y: 23 },
            TilePos { x: 25, y: 11 },
            TilePos { x: 32, y: 4 },
            TilePos { x: 33, y: 18 },
        ],
        Difficulty::Hard => vec![
            TilePos { x: 2, y: 2 },
            TilePos { x: 3, y: 19 },
            TilePos { x: 10, y: 30 },
            TilePos { x: 12, y: 10 },
            TilePos { x: 19, y: 21 },
            TilePos { x: 23, y: 3 },
            TilePos { x: 29, y: 29 },
            TilePos { x: 31, y: 13 },
            TilePos { x: 40, y: 4 },
            TilePos { x: 41, y: 22 },
        ],
    };
    let tiles: Vec<u8> = vec![1; width * height];
    proof {
        assert(spawns@ =~= open_field_spawns(difficulty));
        assert forall|i: int| 0 <= i < tiles@.len() implies #[trigger] tiles@[i] == 1 by {
            assert(cloned(1u8, tiles@[i]));
        }
        let plan = grid(width, height, tiles@);
        assert forall|a: int, b: int| plan.contains(a, b) implies #[trigger] plan.is_open(a, b) by {
            crate::paths::lemma_slot_bounds(width as int, height as int, a, b);
        }
        lemma_open_field_spawns_apart(difficulty);
        assert forall|i: int, j: int|
            0 <= i < spawns@.len() && 0 <= j < spawns@.len() && i != j implies set_apart(
            #[trigger] spawns@[i],
            #[trigger] spawns@[j],
            gap as int,
        ) by {
            assert(spawns@[i] == open_field_spawn(difficulty, i));
            assert(spawns@[j] == open_field_spawn(difficulty, j));
        }
        assert forall|i: int| 0 <= i < spawns@.len() implies plan.contains(
            (#[trigger] spawns@[i]).x as int,
            spawns@[i].y as int,
        ) by {
            assert(spawns@[i] == open_field_spawn(difficulty, i));
        }
        lemma_spread_on_open_field(plan, spawns@, gap as nat);
    }
    GeneratedMaze {
        maze: Maze {
            width,
            height,
            tiles,
            spawns,
            objective: TilePos { x: width / 2, y: height / 2 },
        },
        effective_seed: seed,
        used_fallback: false,
    }
}

} // verus!

verus! {

/// In a grid whose tiles are all walkable, a walk joins any two tiles with as
/// many steps as their distance along the axes.
proof fn lemma_open_walk(plan: Floorplan, sx: int, sy: int, x: int, y: int)
    requires
        plan.contains(sx, sy),
        plan.contains(x, y),
        forall|a: int, b: int| plan.contains(a, b) ==> #[trigger] plan.is_open(a, b),
    ensures
        plan.within(sx, sy, x, y, (vstd::math::abs(x - sx) + vstd::math::abs(y - sy)) as nat),
    decreases vstd::math::abs(x - sx) + vstd::math::abs(y - sy),
{
    let k = (vstd::math::abs(x - sx) + vstd::math::abs(y - sy)) as nat;
    if x > sx {
        lemma_open_walk(plan, sx, sy, x - 1, y);
        assert(plan.is_open(x, y));
    } else if x < sx {
        lemma_open_walk(plan, sx, sy, x + 1, y);
        assert(plan.is_open(x, y));
    } else if y > sy {
        lemma_open_walk(plan, sx, sy, x, y - 1);
        assert(plan.is_open(x, y));
    } else if y < sy {
        lemma_open_walk(plan, sx, sy, x, y + 1);
        assert(plan.is_open(x, y));
    }
}

/// A row of walkable tiles counts all of them.
proof fn lemma_open_count_full(tiles: Seq<u8>, n: nat)
    requires
        n <= tiles.len(),
        forall|i: int| 0 <= i < n ==> #[trigger] tiles[i] == 1,
    ensures
        open_count(tiles, n) == n,
    decreases n,
{
    if n > 0 {
        lemma_open_count_full(tiles, (n - 1) as nat);
    }
}

/// Where every tile is reached, every tile counts as reached.
proof fn lemma_reach_count_full(plan: Floorplan, sx: int, sy: int, n: nat)
    requires
        plan.width > 0,
        n <= plan.width * plan.height,
        forall|x: int, y: int| plan.contains(x, y) ==> #[trigger] plan.reachable(sx, sy, x, y),
    ensures
        reach_count(plan, sx, sy, n) == n,
    decreases n,
{
    if n > 0 {
        lemma_reach_count_full(plan, sx, sy, (n - 1) as nat);
        crate::paths::lemma_slot_decompose(plan.width, plan.height, n - 1);
        assert(plan.reachable(sx, sy, (n - 1) % plan.width, (n - 1) / plan.width));
    }
}

/// An open field passes every check of `validate`.
pub proof fn lemma_open_field_valid(m: Maze, difficulty: Difficulty)
    requires
        open_field(m, difficulty),
    ensures
        validate_requires(m),
        maze_fault(m@) is None,
{
    let plan = m.plan();
    let (w, h, chance, gap) = difficulty.spec_settings();
    assert forall|a: int, b: int| plan.contains(a, b) implies #[trigger] plan.is_open(a, b) by {
        crate::paths::lemma_slot_bounds(w as int, h as int, a, b);
    }
    let s = m.spawns@[0];
    assert(s == open_field_spawn(difficulty, 0));
    assert(s == TilePos { x: 2, y: 2 });
    assert forall|x: int, y: int| plan.contains(x, y) implies #[trigger] plan.reachable(2, 2, x, y) by {
        lemma_open_walk(plan, 2, 2, x, y);
    }
    assert(plan.reachable(2, 2, (w / 2) as int, (h / 2) as int));
    lemma_open_field_spawns_apart(difficulty);
    assert forall|i: int| 0 <= i < m.spawns@.len() implies spawn_is_safe(m@, #[trigger] m.spawns@[i]) by {
        let p = m.spawns@[i];
        assert(p == open_field_spawn(difficulty, i));
        assert(2 <= p.x <= w - 3 && 2 <= p.y <= h - 3);
        assert(plan.is_open(p.x + 1, p.y as int));
        assert(plan.is_open(p.x - 1, p.y as int));
        assert(plan.is_open(p.x as int, p.y + 1));
        assert(plan.is_open(p.x as int, p.y - 1));
        assert(plan.reachable(2, 2, p.x as int, p.y as int));
    }
    crate::paths::lemma_slot_bounds(w as int, h as int, 2, 2);
    lemma_open_count_full(m.tiles@, m.tiles@.len());
    lemma_reach_count_full(plan, 2, 2, (w * h) as nat);
}

} // verus!

verus! {

/// A carved maze meets what `validate` needs to run.
proof fn lemma_carved_can_be_validated(m: Maze, difficulty: Difficulty)
    requires
        carved(m, difficulty),
    ensures
        validate_requires(m),
{
    let plan = m.plan();
    if m.spawns@.len() > 0 {
        let s = m.spawns@[0];
        assert(spawn_candidate(plan, s));
        crate::paths::lemma_slot_bounds(m.width as int, m.height as int, s.x as int, s.y as int);
    }
}

/// The first of the attempts `0 .. tries` from `seed` whose carved maze
/// passes every check of `validate`, if any does.
pub open spec fn first_passing(seed: u64, difficulty: Difficulty, tries: nat) -> Option<nat>
    decreases tries,
{
    if tries == 0 {
        None
    } else {
        match first_passing(seed, difficulty, (tries - 1) as nat) {
            Some(a) => Some(a),
            None => if maze_fault(carved_layout(derived_seed(seed, (tries - 1) as u64), difficulty))
                is None {
                Some((tries - 1) as nat)
            } else {
                None
            },
        }
    }
}

/// The maze carved from the built-in seed at the easy level passes `validate`.
pub open spec fn fallback_passes() -> bool {
    maze_fault(carved_layout(FALLBACK_SEED, Difficulty::Easy)) is None
}

/// What generation from `seed` with `tries` attempts gives: the maze, the seed
/// it was carved from, and whether that is the built-in seed. The first
/// attempt whose maze passes wins; with none, the maze of the built-in seed
/// at the easy level stands in.
pub open spec fn generation(seed: u64, difficulty: Difficulty, tries: nat) -> (Layout, u64, bool) {
    match first_passing(seed, difficulty, tries) {
        Some(a) => (
            carved_layout(derived_seed(seed, a as u64), difficulty),
            derived_seed(seed, a as u64),
            false,
        ),
        None => (carved_layout(FALLBACK_SEED, Difficulty::Easy), FALLBACK_SEED, true),
    }
}

/// An attempt that passes stays the first that passes however many more follow.
proof fn lemma_first_passing_stays(seed: u64, difficulty: Difficulty, n: nat, m: nat)
    requires
        n <= m,
        first_passing(seed, difficulty, n) is Some,
    ensures
        first_passing(seed, difficulty, m) == first_passing(seed, difficulty, n),
    decreases m - n,
{
    if m > n {
        lemma_first_passing_stays(seed, difficulty, n, (m - 1) as nat);
    }
}

/// Generates a playable maze from `seed`: tries up to `max_retries` seeds
/// derived from it in turn, keeping the first carved maze that passes
/// `validate`, and otherwise falls back on the maze of the built-in seed at
/// the easy level, which then has to pass.
pub fn generate(seed: u64, difficulty: Difficulty, max_retries: usize) -> (r: GeneratedMaze)
    requires
        first_passing(seed, difficulty, max_retries as nat) is None ==> fallback_passes(),
    ensures
        (r.maze@, r.effective_seed, r.used_fallback) == generation(
            seed,
            difficulty,
            max_retries as nat,
        ),
        maze_fault(r.maze@) is None,
        carved(r.maze, if r.used_fallback {
            Difficulty::Easy
        } else {
            difficulty
        }),
{
    let mut attempt: usize = 0;
    while attempt < max_retries
        invariant
            attempt <= max_retries,
            first_passing(seed, difficulty, attempt as nat) is None,
        decreases max_retries - attempt,
    {
        let derived: u64 = seed.wrapping_add((attempt as u64).wrapping_mul(0x9E37_79B9_7F4A_7C15));
        let candidate = carve(derived, difficulty);
        proof {
            lemma_carved_can_be_validated(candidate, difficulty);
            assert(derived == derived_seed(seed, attempt as u64));
        }
        if validate(&candidate).is_ok() {
            proof {
                assert(first_passing(seed, difficulty, (attempt + 1) as nat) == Some(attempt as nat));
                lemma_first_passing_stays(
                    seed,
                    difficulty,
                    (attempt + 1) as nat,
                    max_retries as nat,
                );
            }
            return GeneratedMaze { maze: candidate, effective_seed: derived, used_fallback: false };
        }
        attempt = attempt + 1;
    }
    let maze = carve(FALLBACK_SEED, Difficulty::Easy);
    GeneratedMaze { maze, effective_seed: FALLBACK_SEED, used_fallback: true }
}

/// Generation that first makes sure that the maze of the built-in seed
/// passes: `None` where it does not, and otherwise what `generate` gives.
pub fn generate_checked(seed: u64, difficulty: Difficulty, max_retries: usize) -> (r: Option<
    GeneratedMaze,
>)
    ensures
        r is None <==> !fallback_passes(),
        r matches Some(g) ==> (g.maze@, g.effective_seed, g.used_fallback) == generation(
            seed,
            difficulty,
            max_retries as nat,
        ) && maze_fault(g.maze@) is None && carved(g.maze, if g.used_fallback {
            Difficulty::Easy
        } else {
            difficulty
        }),
{
    let fallback = carve(FALLBACK_SEED, Difficulty::Easy);
    proof {
        lemma_carved_can_be_validated(fallback, Difficulty::Easy);
    }
    if validate(&fallback).is_ok() {
        Some(generate(seed, difficulty, max_retries))
    } else {
        None
    }
}

/// Allowing more attempts never changes a maze found within fewer.
pub proof fn lemma_more_retries_same_maze(seed: u64, difficulty: Difficulty, fewer: nat, more: nat)
    requires
        fewer <= more,
        !generation(seed, difficulty, fewer).2,
    ensures
        generation(seed, difficulty, more) == generation(seed, difficulty, fewer),
{
    lemma_first_passing_stays(seed, difficulty, fewer, more);
}

/// Attempt `0` from a seed is that seed itself.
proof fn lemma_first_attempt(seed: u64)
    ensures
        derived_seed(seed, 0) == seed,
{
    assert(0u64.wrapping_mul(0x9E37_79B9_7F4A_7C15) == 0);
    assert(seed.wrapping_add(0) == seed);
}

/// The attempt that `first_passing` names lies below `tries` and passes.
proof fn lemma_first_passing_passes(seed: u64, difficulty: Difficulty, tries: nat)
    requires
        first_passing(seed, difficulty, tries) is Some,
    ensures
        ({
            let a = first_passing(seed, difficulty, tries)->Some_0;
            a < tries && maze_fault(carved_layout(derived_seed(seed, a as u64), difficulty)) is None
        }),
    decreases tries,
{
    if first_passing(seed, difficulty, (tries - 1) as nat) is Some {
        lemma_first_passing_passes(seed, difficulty, (tries - 1) as nat);
    }
}

/// The seed that generation reports for a maze it did not fall back on
/// reproduces that maze with a single attempt.
pub proof fn lemma_logged_seed_reproduces(seed: u64, difficulty: Difficulty, tries: nat)
    requires
        !generation(seed, difficulty, tries).2,
    ensures
        generation(generation(seed, difficulty, tries).1, difficulty, 1) == generation(
            seed,
            difficulty,
            tries,
        ),
{
    lemma_first_passing_passes(seed, difficulty, tries);
    let a = first_passing(seed, difficulty, tries)->Some_0;
    let logged = derived_seed(seed, a as u64);
    lemma_first_attempt(logged);
    assert(first_passing(logged, difficulty, 0) is None);
    assert(derived_seed(logged, (1 - 1) as u64) == logged);
    assert(first_passing(logged, difficulty, 1) == Some(0nat));
}

} // verus!

verus! {

/// A maze that passes validation is one region for play: every spawn reaches
/// every other spawn and the objective, and, when `tiles` holds exactly the
/// grid, every walkable tile.
pub proof fn lemma_valid_maze_is_connected(m: Maze)
    requires
        m.well_formed(),
        maze_fault(m@) is None,
    ensures
        forall|i: int, j: int|
            0 <= i < m.spawns@.len() && 0 <= j < m.spawns@.len() ==> m.plan().reachable(
                (#[trigger] m.spawns@[i]).x as int,
                m.spawns@[i].y as int,
                (#[trigger] m.spawns@[j]).x as int,
                m.spawns@[j].y as int,
            ),
        forall|i: int|
            0 <= i < m.spawns@.len() ==> m.plan().reachable(
                (#[trigger] m.spawns@[i]).x as int,
                m.spawns@[i].y as int,
                m.objective.x as int,
                m.objective.y as int,
            ),
        m.tiles@.len() == m.width * m.height ==> forall|i: int, x: int, y: int|
            0 <= i < m.spawns@.len() && #[trigger] m.plan().is_open(x, y) ==> m.plan().reachable(
                (#[trigger] m.spawns@[i]).x as int,
                m.spawns@[i].y as int,
                x,
                y,
            ),
{
    let plan = m.plan();
    let s = m.spawns@[0];
    let (sx, sy) = (s.x as int, s.y as int);
    assert(spawn_is_safe(m@, m.spawns@[0]));
    assert forall|i: int| 0 <= i < m.spawns@.len() implies plan.reachable(
        (#[trigger] m.spawns@[i]).x as int,
        m.spawns@[i].y as int,
        sx,
        sy,
    ) by {
        assert(spawn_is_safe(m@, m.spawns@[i]));
        crate::paths::lemma_reach_reverse(
            plan,
            sx,
            sy,
            m.spawns@[i].x as int,
            m.spawns@[i].y as int,
        );
    }
    assert forall|i: int, j: int|
        0 <= i < m.spawns@.len() && 0 <= j < m.spawns@.len() implies plan.reachable(
        (#[trigger] m.spawns@[i]).x as int,
        m.spawns@[i].y as int,
        (#[trigger] m.spawns@[j]).x as int,
        m.spawns@[j].y as int,
    ) by {
        assert(spawn_is_safe(m@, m.spawns@[j]));
        crate::paths::lemma_reach_concat(
            plan,
            m.spawns@[i].x as int,
            m.spawns@[i].y as int,
            sx,
            sy,
            m.spawns@[j].x as int,
            m.spawns@[j].y as int,
        );
    }
    assert forall|i: int| 0 <= i < m.spawns@.len() implies plan.reachable(
        (#[trigger] m.spawns@[i]).x as int,
        m.spawns@[i].y as int,
        m.objective.x as int,
        m.objective.y as int,
    ) by {
        crate::paths::lemma_reach_concat(
            plan,
            m.spawns@[i].x as int,
            m.spawns@[i].y as int,
            sx,
            sy,
            m.objective.x as int,
            m.objective.y as int,
        );
    }
    if m.tiles@.len() == m.width * m.height {
        let w = m.width as int;
        crate::paths::lemma_counts_match_all_reached(plan, sx, sy, m.tiles@.len());
        assert forall|i: int, x: int, y: int|
            0 <= i < m.spawns@.len() && #[trigger] plan.is_open(x, y) implies plan.reachable(
            (#[trigger] m.spawns@[i]).x as int,
            m.spawns@[i].y as int,
            x,
            y,
        ) by {
            let k = slot(w, x, y);
            crate::paths::lemma_slot_bounds(w, m.height as int, x, y);
            crate::paths::lemma_slot_decompose(w, m.height as int, k);
            crate::paths::lemma_slot_injective(w, x, y, k % w, k / w);
            assert(plan.tiles[k] == 1);
            crate::paths::lemma_reach_concat(
                plan,
                m.spawns@[i].x as int,
                m.spawns@[i].y as int,
                sx,
                sy,
                x,
                y,
            );
        }
    }
}

} // verus!
