use vstd::prelude::*;

verus! {

/// Columns of a fixed level.
pub const MAP_W: usize = 16;

/// Rows of a fixed level.
pub const MAP_H: usize = 16;

/// Row `y` of the first fixed level: 1 is wall, 0 is open.
pub open spec fn first_level_row(y: int) -> Seq<u8> {
    if y == 0 {
        // ################
        seq![1, 1, 1, 1, 1, 1, 1, 1, 1, 1, 1, 1, 1, 1, 1, 1]
    } else if y == 1 {
        // #......#.......#
        seq![1, 0, 0, 0, 0, 0, 0, 1, 0, 0, 0, 0, 0, 0, 0, 1]
    } else if y == 2 {
        // #.####.#.#####.#
        seq![1, 0, 1, 1, 1, 1, 0, 1, 0, 1, 1, 1, 1, 1, 0, 1]
    } else if y == 3 {
        // #.#....#.....#.#
        seq![1, 0, 1, 0, 0, 0, 0, 1, 0, 0, 0, 0, 0, 1, 0, 1]
    } else if y == 4 {
        // #.#.########.#.#
        seq![1, 0, 1, 0, 1, 1, 1, 1, 1, 1, 1, 1, 0, 1, 0, 1]
    } else if y == 5 {
        // #.#..........#.#
        seq![1, 0, 1, 0, 0, 0, 0, 0, 0, 0, 0, 0, 0, 1, 0, 1]
    } else if y == 6 {
        // #.##########.#.#
        seq![1, 0, 1, 1, 1, 1, 1, 1, 1, 1, 1, 1, 0, 1, 0, 1]
    } else if y == 7 {
        // #......#.....#.#
        seq![1, 0, 0, 0, 0, 0, 0, 1, 0, 0, 0, 0, 0, 1, 0, 1]
    } else if y == 8 {
        // ###.##.#.#####.#
        seq![1, 1, 1, 0, 1, 1, 0, 1, 0, 1, 1, 1, 1, 1, 0, 1]
    } else if y == 9 {
        // #...#...#......#
        seq![1, 0, 0, 0, 1, 0, 0, 0, 1, 0, 0, 0, 0, 0, 0, 1]
    } else if y == 10 {
        // #.###.#######..#
        seq![1, 0, 1, 1, 1, 0, 1, 1, 1, 1, 1, 1, 1, 0, 0, 1]
    } else if y == 11 {
        // #.....#.....#..#
        seq![1, 0, 0, 0, 0, 0, 1, 0, 0, 0, 0, 0, 1, 0, 0, 1]
    } else if y == 12 {
        // #####.#.###.#.##
        seq![1, 1, 1, 1, 1, 0, 1, 0, 1, 1, 1, 0, 1, 0, 1, 1]
    } else if y == 13 {
        // #.....#...#....#
        seq![1, 0, 0, 0, 0, 0, 1, 0, 0, 0, 1, 0, 0, 0, 0, 1]
    } else if y == 14 {
        // #.########.#####
        seq![1, 0, 1, 1, 1, 1, 1, 1, 1, 1, 0, 1, 1, 1, 1, 1]
    } else {
        // ################
        seq![1, 1, 1, 1, 1, 1, 1, 1, 1, 1, 1, 1, 1, 1, 1, 1]
    }
}

fn first_level_tiles(y: usize) -> (row: [u8; 16])
    requires
        y < MAP_H,
    ensures
        row@ == first_level_row(y as int),
{
    let row: [u8; 16] = match y {
        0 => [1, 1, 1, 1, 1, 1, 1, 1, 1, 1, 1, 1, 1, 1, 1, 1],
        1 => [1, 0, 0, 0, 0, 0, 0, 1, 0, 0, 0, 0, 0, 0, 0, 1],
        2 => [1, 0, 1, 1, 1, 1, 0, 1, 0, 1, 1, 1, 1, 1, 0, 1],
        3 => [1, 0, 1, 0, 0, 0, 0, 1, 0, 0, 0, 0, 0, 1, 0, 1],
        4 => [1, 0, 1, 0, 1, 1, 1, 1, 1, 1, 1, 1, 0, 1, 0, 1],
        5 => [1, 0, 1, 0, 0, 0, 0, 0, 0, 0, 0, 0, 0, 1, 0, 1],
        6 => [1, 0, 1, 1, 1, 1, 1, 1, 1, 1, 1, 1, 0, 1, 0, 1],
        7 => [1, 0, 0, 0, 0, 0, 0, 1, 0, 0, 0, 0, 0, 1, 0, 1],
        8 => [1, 1, 1, 0, 1, 1, 0, 1, 0, 1, 1, 1, 1, 1, 0, 1],
        9 => [1, 0, 0, 0, 1, 0, 0, 0, 1, 0, 0, 0, 0, 0, 0, 1],
        10 => [1, 0, 1, 1, 1, 0, 1, 1, 1, 1, 1, 1, 1, 0, 0, 1],
        11 => [1, 0, 0, 0, 0, 0, 1, 0, 0, 0, 0, 0, 1, 0, 0, 1],
        12 => [1, 1, 1, 1, 1, 0, 1, 0, 1, 1, 1, 0, 1, 0, 1, 1],
        13 => [1, 0, 0, 0, 0, 0, 1, 0, 0, 0, 1, 0, 0, 0, 0, 1],
        14 => [1, 0, 1, 1, 1, 1, 1, 1, 1, 1, 0, 1, 1, 1, 1, 1],
        _ => [1, 1, 1, 1, 1, 1, 1, 1, 1, 1, 1, 1, 1, 1, 1, 1],
    };
    proof {
        assert(row@ =~= first_level_row(y as int));
    }
    row
}

/// Row `y` of the second fixed level: 1 is wall, 0 is open.
pub open spec fn second_level_row(y: int) -> Seq<u8> {
    if y == 0 {
        // ################
        seq![1, 1, 1, 1, 1, 1, 1, 1, 1, 1, 1, 1, 1, 1, 1, 1]
    } else if y == 1 {
        // #.......#.....##
        seq![1, 0, 0, 0, 0, 0, 0, 0, 1, 0, 0, 0, 0, 0, 1, 1]
    } else if y == 2 {
        // #######.###.####
        seq![1, 1, 1, 1, 1, 1, 1, 0, 1, 1, 1, 0, 1, 1, 1, 1]
    } else if y == 3 {
        // #.....#...#...##
        seq![1, 0, 0, 0, 0, 0, 1, 0, 0, 0, 1, 0, 0, 0, 1, 1]
    } else if y == 4 {
        // #.##..###.###.##
        seq![1, 0, 1, 1, 0, 0, 1, 1, 1, 0, 1, 1, 1, 0, 1, 1]
    } else if y == 5 {
        // #.#.....#.....##
        seq![1, 0, 1, 0, 0, 0, 0, 0, 1, 0, 0, 0, 0, 0, 1, 1]
    } else if y == 6 {
        // #.###.#######.##
        seq![1, 0, 1, 1, 1, 0, 1, 1, 1, 1, 1, 1, 1, 0, 1, 1]
    } else if y == 7 {
        // #...#.#.......##
        seq![1, 0, 0, 0, 1, 0, 1, 0, 0, 0, 0, 0, 0, 0, 1, 1]
    } else if y == 8 {
        // #.#.#.#.########
        seq![1, 0, 1, 0, 1, 0, 1, 0, 1, 1, 1, 1, 1, 1, 1, 1]
    } else if y == 9 {
        // #.#.#...#.....##
        seq![1, 0, 1, 0, 1, 0, 0, 0, 1, 0, 0, 0, 0, 0, 1, 1]
    } else if y == 10 {
        // #.#.#.#.#####.##
        seq![1, 0, 1, 0, 1, 0, 1, 0, 1, 1, 1, 1, 1, 0, 1, 1]
    } else if y == 11 {
        // #.#.#.#...#...##
        seq![1, 0, 1, 0, 1, 0, 1, 0, 0, 0, 1, 0, 0, 0, 1, 1]
    } else if y == 12 {
        // #.#.#.###...#.##
        seq![1, 0, 1, 0, 1, 0, 1, 1, 1, 0, 0, 0, 1, 0, 1, 1]
    } else if y == 13 {
        // #.#.........#.##
        seq![1, 0, 1, 0, 0, 0, 0, 0, 0, 0, 0, 0, 1, 0, 1, 1]
    } else if y == 14 {
        // ################
        seq![1, 1, 1, 1, 1, 1, 1, 1, 1, 1, 1, 1, 1, 1, 1, 1]
    } else {
        // ################
        seq![1, 1, 1, 1, 1, 1, 1, 1, 1, 1, 1, 1, 1, 1, 1, 1]
    }
}

fn second_level_tiles(y: usize) -> (row: [u8; 16])
    requires
        y < MAP_H,
    ensures
        row@ == second_level_row(y as int),
{
    let row: [u8; 16] = match y {
        0 => [1, 1, 1, 1, 1, 1, 1, 1, 1, 1, 1, 1, 1, 1, 1, 1],
        1 => [1, 0, 0, 0, 0, 0, 0, 0, 1, 0, 0, 0, 0, 0, 1, 1],
        2 => [1, 1, 1, 1, 1, 1, 1, 0, 1, 1, 1, 0, 1, 1, 1, 1],
        3 => [1, 0, 0, 0, 0, 0, 1, 0, 0, 0, 1, 0, 0, 0, 1, 1],
        4 => [1, 0, 1, 1, 0, 0, 1, 1, 1, 0, 1, 1, 1, 0, 1, 1],
        5 => [1, 0, 1, 0, 0, 0, 0, 0, 1, 0, 0, 0, 0, 0, 1, 1],
        6 => [1, 0, 1, 1, 1, 0, 1, 1, 1, 1, 1, 1, 1, 0, 1, 1],
        7 => [1, 0, 0, 0, 1, 0, 1, 0, 0, 0, 0, 0, 0, 0, 1, 1],
        8 => [1, 0, 1, 0, 1, 0, 1, 0, 1, 1, 1, 1, 1, 1, 1, 1],
        9 => [1, 0, 1, 0, 1, 0, 0, 0, 1, 0, 0, 0, 0, 0, 1, 1],
        10 => [1, 0, 1, 0, 1, 0, 1, 0, 1, 1, 1, 1, 1, 0, 1, 1],
        11 => [1, 0, 1, 0, 1, 0, 1, 0, 0, 0, 1, 0, 0, 0, 1, 1],
        12 => [1, 0, 1, 0, 1, 0, 1, 1, 1, 0, 0, 0, 1, 0, 1, 1],
        13 => [1, 0, 1, 0, 0, 0, 0, 0, 0, 0, 0, 0, 1, 0, 1, 1],
        14 => [1, 1, 1, 1, 1, 1, 1, 1, 1, 1, 1, 1, 1, 1, 1, 1],
        _ => [1, 1, 1, 1, 1, 1, 1, 1, 1, 1, 1, 1, 1, 1, 1, 1],
    };
    proof {
        assert(row@ =~= second_level_row(y as int));
    }
    row
}

/// Row `y` of the third fixed level: 1 is wall, 0 is open.
pub open spec fn third_level_row(y: int) -> Seq<u8> {
    if y == 0 {
        // ################
        seq![1, 1, 1, 1, 1, 1, 1, 1, 1, 1, 1, 1, 1, 1, 1, 1]
    } else if y == 1 {
        // #...#.......#.##
        seq![1, 0, 0, 0, 1, 0, 0, 0, 0, 0, 0, 0, 1, 0, 1, 1]
    } else if y == 2 {
        // ###.#.#####.#.##
        seq![1, 1, 1, 0, 1, 0, 1, 1, 1, 1, 1, 0, 1, 0, 1, 1]
    } else if y == 3 {
        // #.#.#...#.....##
        seq![1, 0, 1, 0, 1, 0, 0, 0, 1, 0, 0, 0, 0, 0, 1, 1]
    } else if y == 4 {
        // #.#.###.#####.##
        seq![1, 0, 1, 0, 1, 1, 1, 0, 1, 1, 1, 1, 1, 0, 1, 1]
    } else if y == 5 {
        // #.#...#.....#.##
        seq![1, 0, 1, 0, 0, 0, 1, 0, 0, 0, 0, 0, 1, 0, 1, 1]
    } else if y == 6 {
        // #.###.#.###.####
        seq![1, 0, 1, 1, 1, 0, 1, 0, 1, 1, 1, 0, 1, 1, 1, 1]
    } else if y == 7 {
        // #...#.#...#...##
        seq![1, 0, 0, 0, 1, 0, 1, 0, 0, 0, 1, 0, 0, 0, 1, 1]
    } else if y == 8 {
        // #.#.#.###.###.##
        seq![1, 0, 1, 0, 1, 0, 1, 1, 1, 0, 1, 1, 1, 0, 1, 1]
    } else if y == 9 {
        // #.#.#...#...#.##
        seq![1, 0, 1, 0, 1, 0, 0, 0, 1, 0, 0, 0, 1, 0, 1, 1]
    } else if y == 10 {
        // #.#####.#.###.##
        seq![1, 0, 1, 1, 1, 1, 1, 0, 1, 0, 1, 1, 1, 0, 1, 1]
    } else if y == 11 {
        // #.....#.#.#...##
        seq![1, 0, 0, 0, 0, 0, 1, 0, 1, 0, 1, 0, 0, 0, 1, 1]
    } else if y == 12 {
        // #.###.#.###.#.##
        seq![1, 0, 1, 1, 1, 0, 1, 0, 1, 1, 1, 0, 1, 0, 1, 1]
    } else if y == 13 {
        // #...#.......#.##
        seq![1, 0, 0, 0, 1, 0, 0, 0, 0, 0, 0, 0, 1, 0, 1, 1]
    } else if y == 14 {
        // ################
        seq![1, 1, 1, 1, 1, 1, 1, 1, 1, 1, 1, 1, 1, 1, 1, 1]
    } else {
        // ################
        seq![1, 1, 1, 1, 1, 1, 1, 1, 1, 1, 1, 1, 1, 1, 1, 1]
    }
}

fn third_level_tiles(y: usize) -> (row: [u8; 16])
    requires
        y < MAP_H,
    ensures
        row@ == third_level_row(y as int),
{
    let row: [u8; 16] = match y {
        0 => [1, 1, 1, 1, 1, 1, 1, 1, 1, 1, 1, 1, 1, 1, 1, 1],
        1 => [1, 0, 0, 0, 1, 0, 0, 0, 0, 0, 0, 0, 1, 0, 1, 1],
        2 => [1, 1, 1, 0, 1, 0, 1, 1, 1, 1, 1, 0, 1, 0, 1, 1],
        3 => [1, 0, 1, 0, 1, 0, 0, 0, 1, 0, 0, 0, 0, 0, 1, 1],
        4 => [1, 0, 1, 0, 1, 1, 1, 0, 1, 1, 1, 1, 1, 0, 1, 1],
        5 => [1, 0, 1, 0, 0, 0, 1, 0, 0, 0, 0, 0, 1, 0, 1, 1],
        6 => [1, 0, 1, 1, 1, 0, 1, 0, 1, 1, 1, 0, 1, 1, 1, 1],
        7 => [1, 0, 0, 0, 1, 0, 1, 0, 0, 0, 1, 0, 0, 0, 1, 1],
        8 => [1, 0, 1, 0, 1, 0, 1, 1, 1, 0, 1, 1, 1, 0, 1, 1],
        9 => [1, 0, 1, 0, 1, 0, 0, 0, 1, 0, 0, 0, 1, 0, 1, 1],
        10 => [1, 0, 1, 1, 1, 1, 1, 0, 1, 0, 1, 1, 1, 0, 1, 1],
        11 => [1, 0, 0, 0, 0, 0, 1, 0, 1, 0, 1, 0, 0, 0, 1, 1],
        12 => [1, 0, 1, 1, 1, 0, 1, 0, 1, 1, 1, 0, 1, 0, 1, 1],
        13 => [1, 0, 0, 0, 1, 0, 0, 0, 0, 0, 0, 0, 1, 0, 1, 1],
        14 => [1, 1, 1, 1, 1, 1, 1, 1, 1, 1, 1, 1, 1, 1, 1, 1],
        _ => [1, 1, 1, 1, 1, 1, 1, 1, 1, 1, 1, 1, 1, 1, 1, 1],
    };
    proof {
        assert(row@ =~= third_level_row(y as int));
    }
    row
}

/// Row `y` of fixed level `level` (0, 1 or 2).
pub open spec fn level_row(level: u8, y: int) -> Seq<u8> {
    if level == 0 {
        first_level_row(y)
    } else if level == 1 {
        second_level_row(y)
    } else {
        third_level_row(y)
    }
}

/// Whether the tile `(x, y)` of fixed level `level` is a wall: every tile off
/// the 16 x 16 map is, and inside it the level's table says. The three levels
/// hold ever more dead ends.
pub open spec fn wall_at(level: u8, x: int, y: int) -> bool {
    if !(0 <= x < MAP_W && 0 <= y < MAP_H) {
        true
    } else {
        level_row(level, y)[x] != 0
    }
}

/// Whether the tile `(x, y)` of fixed level `level` (0, 1 or 2) is a wall.
pub fn is_wall(level: u8, x: i32, y: i32) -> (r: bool)
    requires
        (0 <= x < MAP_W && 0 <= y < MAP_H) ==> level < 3,
    ensures
        r == wall_at(level, x as int, y as int),
{
    if x < 0 || y < 0 || x as usize >= MAP_W || y as usize >= MAP_H {
        return true;
    }
    let row = if level == 0 {
        first_level_tiles(y as usize)
    } else if level == 1 {
        second_level_tiles(y as usize)
    } else {
        third_level_tiles(y as usize)
    };
    row[x as usize] != 0
}

/// Whether `(x, y)` is walkable on fixed level `level`, as a count.
pub open spec fn open_at(level: u8, x: int, y: int) -> int {
    if wall_at(level, x, y) {
        0
    } else {
        1
    }
}

/// `(x, y)` is a walkable tile of level `level` with exactly one walkable
/// neighbour: the end of a blind corridor.
pub open spec fn dead_end(level: u8, x: int, y: int) -> bool {
    &&& !wall_at(level, x, y)
    &&& open_at(level, x + 1, y) + open_at(level, x - 1, y) + open_at(level, x, y + 1) + open_at(
        level,
        x,
        y - 1,
    ) == 1
}

/// How many of the tiles `0 .. x` of row `y` of level `level` are dead ends.
pub open spec fn row_dead_ends(level: u8, y: int, x: nat) -> nat
    decreases x,
{
    if x == 0 {
        0
    } else {
        row_dead_ends(level, y, (x - 1) as nat) + if dead_end(level, x - 1, y) {
            1nat
        } else {
            0nat
        }
    }
}

/// How many dead ends the rows `0 .. y` of level `level` hold.
pub open spec fn dead_ends_above(level: u8, y: nat) -> nat
    decreases y,
{
    if y == 0 {
        0
    } else {
        dead_ends_above(level, (y - 1) as nat) + row_dead_ends(level, y - 1, MAP_W as nat)
    }
}

/// How many dead ends level `level` holds.
pub open spec fn dead_ends(level: u8) -> nat {
    dead_ends_above(level, MAP_H as nat)
}

/// The dead ends of level 0, row by row.
#[verifier::rlimit(100)]
proof fn lemma_dead_ends_of_level_0()
    ensures
        dead_ends(0) == 6,
{
    reveal_with_fuel(row_dead_ends, 17);
    reveal_with_fuel(dead_ends_above, 17);
    assert(row_dead_ends(0, 0, 16) == 0);
    assert(row_dead_ends(0, 1, 16) == 0);
    assert(row_dead_ends(0, 2, 16) == 0);
    assert(row_dead_ends(0, 3, 16) == 0);
    assert(row_dead_ends(0, 4, 16) == 0);
    assert(row_dead_ends(0, 5, 16) == 0);
    assert(row_dead_ends(0, 6, 16) == 0);
    assert(row_dead_ends(0, 7, 16) == 0);
    assert(row_dead_ends(0, 8, 16) == 1);
    assert(row_dead_ends(0, 9, 16) == 2);
    assert(row_dead_ends(0, 10, 16) == 0);
    assert(row_dead_ends(0, 11, 16) == 0);
    assert(row_dead_ends(0, 12, 16) == 0);
    assert(row_dead_ends(0, 13, 16) == 2);
    assert(row_dead_ends(0, 14, 16) == 1);
    assert(row_dead_ends(0, 15, 16) == 0);
}

/// The dead ends of level 1, row by row.
#[verifier::rlimit(100)]
proof fn lemma_dead_ends_of_level_1()
    ensures
        dead_ends(1) == 8,
{
    reveal_with_fuel(row_dead_ends, 17);
    reveal_with_fuel(dead_ends_above, 17);
    assert(row_dead_ends(1, 0, 16) == 0);
    assert(row_dead_ends(1, 1, 16) == 3);
    assert(row_dead_ends(1, 2, 16) == 0);
    assert(row_dead_ends(1, 3, 16) == 0);
    assert(row_dead_ends(1, 4, 16) == 0);
    assert(row_dead_ends(1, 5, 16) == 2);
    assert(row_dead_ends(1, 6, 16) == 0);
    assert(row_dead_ends(1, 7, 16) == 0);
    assert(row_dead_ends(1, 8, 16) == 0);
    assert(row_dead_ends(1, 9, 16) == 1);
    assert(row_dead_ends(1, 10, 16) == 0);
    assert(row_dead_ends(1, 11, 16) == 0);
    assert(row_dead_ends(1, 12, 16) == 0);
    assert(row_dead_ends(1, 13, 16) == 2);
    assert(row_dead_ends(1, 14, 16) == 0);
    assert(row_dead_ends(1, 15, 16) == 0);
}

/// The dead ends of level 2, row by row.
#[verifier::rlimit(100)]
proof fn lemma_dead_ends_of_level_2()
    ensures
        dead_ends(2) == 10,
{
    reveal_with_fuel(row_dead_ends, 17);
    reveal_with_fuel(dead_ends_above, 17);
    assert(row_dead_ends(2, 0, 16) == 0);
    assert(row_dead_ends(2, 1, 16) == 2);
    assert(row_dead_ends(2, 2, 16) == 0);
    assert(row_dead_ends(2, 3, 16) == 2);
    assert(row_dead_ends(2, 4, 16) == 0);
    assert(row_dead_ends(2, 5, 16) == 1);
    assert(row_dead_ends(2, 6, 16) == 0);
    assert(row_dead_ends(2, 7, 16) == 0);
    assert(row_dead_ends(2, 8, 16) == 0);
    assert(row_dead_ends(2, 9, 16) == 2);
    assert(row_dead_ends(2, 10, 16) == 0);
    assert(row_dead_ends(2, 11, 16) == 1);
    assert(row_dead_ends(2, 12, 16) == 0);
    assert(row_dead_ends(2, 13, 16) == 2);
    assert(row_dead_ends(2, 14, 16) == 0);
    assert(row_dead_ends(2, 15, 16) == 0);
}

/// Each fixed level holds more dead ends than the one before it.
pub proof fn lemma_levels_gain_dead_ends()
    ensures
        dead_ends(0) < dead_ends(1),
        dead_ends(1) < dead_ends(2),
{
    lemma_dead_ends_of_level_0();
    lemma_dead_ends_of_level_1();
    lemma_dead_ends_of_level_2();
}

/// The tiles of a drawn row: `#` is wall (1), anything else is open (0).
pub open spec fn drawn_row(text: Seq<char>) -> Seq<u8> {
    text.map_values(|c: char| if c == '#' { 1u8 } else { 0u8 })
}

/// The first fixed level as drawn, row `y` from the top: `#` is wall, `.` is open.
pub open spec fn first_level_map(y: int) -> Seq<char> {
    if y == 0 {
        "################"@
    } else if y == 1 {
        "#......#.......#"@
    } else if y == 2 {
        "#.####.#.#####.#"@
    } else if y == 3 {
        "#.#....#.....#.#"@
    } else if y == 4 {
        "#.#.########.#.#"@
    } else if y == 5 {
        "#.#..........#.#"@
    } else if y == 6 {
        "#.##########.#.#"@
    } else if y == 7 {
        "#......#.....#.#"@
    } else if y == 8 {
        "###.##.#.#####.#"@
    } else if y == 9 {
        "#...#...#......#"@
    } else if y == 10 {
        "#.###.#######..#"@
    } else if y == 11 {
        "#.....#.....#..#"@
    } else if y == 12 {
        "#####.#.###.#.##"@
    } else if y == 13 {
        "#.....#...#....#"@
    } else if y == 14 {
        "#.########.#####"@
    } else {
        "################"@
    }
}

/// Every tile of the first fixed level is a wall exactly where its drawn map
/// shows `#`.
pub proof fn lemma_first_level_follows_its_map(x: int, y: int)
    requires
        0 <= x < MAP_W,
        0 <= y < MAP_H,
    ensures
        wall_at(0, x, y) <==> first_level_map(y)[x] == '#',
{
    if y == 0 {
        reveal_strlit("################");
        assert(first_level_row(0) =~= drawn_row(first_level_map(0)));
    } else if y == 1 {
        reveal_strlit("#......#.......#");
        assert(first_level_row(1) =~= drawn_row(first_level_map(1)));
    } else if y == 2 {
        reveal_strlit("#.####.#.#####.#");
        assert(first_level_row(2) =~= drawn_row(first_level_map(2)));
    } else if y == 3 {
        reveal_strlit("#.#....#.....#.#");
        assert(first_level_row(3) =~= drawn_row(first_level_map(3)));
    } else if y == 4 {
        reveal_strlit("#.#.########.#.#");
        assert(first_level_row(4) =~= drawn_row(first_level_map(4)));
    } else if y == 5 {
        reveal_strlit("#.#..........#.#");
        assert(first_level_row(5) =~= drawn_row(first_level_map(5)));
    } else if y == 6 {
        reveal_strlit("#.##########.#.#");
        assert(first_level_row(6) =~= drawn_row(first_level_map(6)));
    } else if y == 7 {
        reveal_strlit("#......#.....#.#");
        assert(first_level_row(7) =~= drawn_row(first_level_map(7)));
    } else if y == 8 {
        reveal_strlit("###.##.#.#####.#");
        assert(first_level_row(8) =~= drawn_row(first_level_map(8)));
    } else if y == 9 {
        reveal_strlit("#...#...#......#");
        assert(first_level_row(9) =~= drawn_row(first_level_map(9)));
    } else if y == 10 {
        reveal_strlit("#.###.#######..#");
        assert(first_level_row(10) =~= drawn_row(first_level_map(10)));
    } else if y == 11 {
        reveal_strlit("#.....#.....#..#");
        assert(first_level_row(11) =~= drawn_row(first_level_map(11)));
    } else if y == 12 {
        reveal_strlit("#####.#.###.#.##");
        assert(first_level_row(12) =~= drawn_row(first_level_map(12)));
    } else if y == 13 {
        reveal_strlit("#.....#...#....#");
        assert(first_level_row(13) =~= drawn_row(first_level_map(13)));
    } else if y == 14 {
        reveal_strlit("#.########.#####");
        assert(first_level_row(14) =~= drawn_row(first_level_map(14)));
    } else {
        reveal_strlit("################");
        assert(first_level_row(15) =~= drawn_row(first_level_map(15)));
    }
    assert(level_row(0, y) == drawn_row(first_level_map(y)));
    assert(level_row(0, y)[x] == drawn_row(first_level_map(y))[x]);
}

/// The second fixed level as drawn, row `y` from the top: `#` is wall, `.` is open.
pub open spec fn second_level_map(y: int) -> Seq<char> {
    if y == 0 {
        "################"@
    } else if y == 1 {
        "#.......#.....##"@
    } else if y == 2 {
        "#######.###.####"@
    } else if y == 3 {
        "#.....#...#...##"@
    } else if y == 4 {
        "#.##..###.###.##"@
    } else if y == 5 {
        "#.#.....#.....##"@
    } else if y == 6 {
        "#.###.#######.##"@
    } else if y == 7 {
        "#...#.#.......##"@
    } else if y == 8 {
        "#.#.#.#.########"@
    } else if y == 9 {
        "#.#.#...#.....##"@
    } else if y == 10 {
        "#.#.#.#.#####.##"@
    } else if y == 11 {
        "#.#.#.#...#...##"@
    } else if y == 12 {
        "#.#.#.###...#.##"@
    } else if y == 13 {
        "#.#.........#.##"@
    } else if y == 14 {
        "################"@
    } else {
        "################"@
    }
}

/// Every tile of the second fixed level is a wall exactly where its drawn map
/// shows `#`.
pub proof fn lemma_second_level_follows_its_map(x: int, y: int)
    requires
        0 <= x < MAP_W,
        0 <= y < MAP_H,
    ensures
        wall_at(1, x, y) <==> second_level_map(y)[x] == '#',
{
    if y == 0 {
        reveal_strlit("################");
        assert(second_level_row(0) =~= drawn_row(second_level_map(0)));
    } else if y == 1 {
        reveal_strlit("#.......#.....##");
        assert(second_level_row(1) =~= drawn_row(second_level_map(1)));
    } else if y == 2 {
        reveal_strlit("#######.###.####");
        assert(second_level_row(2) =~= drawn_row(second_level_map(2)));
    } else if y == 3 {
        reveal_strlit("#.....#...#...##");
        assert(second_level_row(3) =~= drawn_row(second_level_map(3)));
    } else if y == 4 {
        reveal_strlit("#.##..###.###.##");
        assert(second_level_row(4) =~= drawn_row(second_level_map(4)));
    } else if y == 5 {
        reveal_strlit("#.#.....#.....##");
        assert(second_level_row(5) =~= drawn_row(second_level_map(5)));
    } else if y == 6 {
        reveal_strlit("#.###.#######.##");
        assert(second_level_row(6) =~= drawn_row(second_level_map(6)));
    } else if y == 7 {
        reveal_strlit("#...#.#.......##");
        assert(second_level_row(7) =~= drawn_row(second_level_map(7)));
    } else if y == 8 {
        reveal_strlit("#.#.#.#.########");
        assert(second_level_row(8) =~= drawn_row(second_level_map(8)));
    } else if y == 9 {
        reveal_strlit("#.#.#...#.....##");
        assert(second_level_row(9) =~= drawn_row(second_level_map(9)));
    } else if y == 10 {
        reveal_strlit("#.#.#.#.#####.##");
        assert(second_level_row(10) =~= drawn_row(second_level_map(10)));
    } else if y == 11 {
        reveal_strlit("#.#.#.#...#...##");
        assert(second_level_row(11) =~= drawn_row(second_level_map(11)));
    } else if y == 12 {
        reveal_strlit("#.#.#.###...#.##");
        assert(second_level_row(12) =~= drawn_row(second_level_map(12)));
    } else if y == 13 {
        reveal_strlit("#.#.........#.##");
        assert(second_level_row(13) =~= drawn_row(second_level_map(13)));
    } else if y == 14 {
        reveal_strlit("################");
        assert(second_level_row(14) =~= drawn_row(second_level_map(14)));
    } else {
        reveal_strlit("################");
        assert(second_level_row(15) =~= drawn_row(second_level_map(15)));
    }
    assert(level_row(1, y) == drawn_row(second_level_map(y)));
    assert(level_row(1, y)[x] == drawn_row(second_level_map(y))[x]);
}

/// The third fixed level as drawn, row `y` from the top: `#` is wall, `.` is open.
pub open spec fn third_level_map(y: int) -> Seq<char> {
    if y == 0 {
        "################"@
    } else if y == 1 {
        "#...#.......#.##"@
    } else if y == 2 {
        "###.#.#####.#.##"@
    } else if y == 3 {
        "#.#.#...#.....##"@
    } else if y == 4 {
        "#.#.###.#####.##"@
    } else if y == 5 {
        "#.#...#.....#.##"@
    } else if y == 6 {
        "#.###.#.###.####"@
    } else if y == 7 {
        "#...#.#...#...##"@
    } else if y == 8 {
        "#.#.#.###.###.##"@
    } else if y == 9 {
        "#.#.#...#...#.##"@
    } else if y == 10 {
        "#.#####.#.###.##"@
    } else if y == 11 {
        "#.....#.#.#...##"@
    } else if y == 12 {
        "#.###.#.###.#.##"@
    } else if y == 13 {
        "#...#.......#.##"@
    } else if y == 14 {
        "################"@
    } else {
        "################"@
    }
}

/// Every tile of the third fixed level is a wall exactly where its drawn map
/// shows `#`.
pub proof fn lemma_third_level_follows_its_map(x: int, y: int)
    requires
        0 <= x < MAP_W,
        0 <= y < MAP_H,
    ensures
        wall_at(2, x, y) <==> third_level_map(y)[x] == '#',
{
    if y == 0 {
        reveal_strlit("################");
        assert(third_level_row(0) =~= drawn_row(third_level_map(0)));
    } else if y == 1 {
        reveal_strlit("#...#.......#.##");
        assert(third_level_row(1) =~= drawn_row(third_level_map(1)));
    } else if y == 2 {
        reveal_strlit("###.#.#####.#.##");
        assert(third_level_row(2) =~= drawn_row(third_level_map(2)));
    } else if y == 3 {
        reveal_strlit("#.#.#...#.....##");
        assert(third_level_row(3) =~= drawn_row(third_level_map(3)));
    } else if y == 4 {
        reveal_strlit("#.#.###.#####.##");
        assert(third_level_row(4) =~= drawn_row(third_level_map(4)));
    } else if y == 5 {
        reveal_strlit("#.#...#.....#.##");
        assert(third_level_row(5) =~= drawn_row(third_level_map(5)));
    } else if y == 6 {
        reveal_strlit("#.###.#.###.####");
        assert(third_level_row(6) =~= drawn_row(third_level_map(6)));
    } else if y == 7 {
        reveal_strlit("#...#.#...#...##");
        assert(third_level_row(7) =~= drawn_row(third_level_map(7)));
    } else if y == 8 {
        reveal_strlit("#.#.#.###.###.##");
        assert(third_level_row(8) =~= drawn_row(third_level_map(8)));
    } else if y == 9 {
        reveal_strlit("#.#.#...#...#.##");
        assert(third_level_row(9) =~= drawn_row(third_level_map(9)));
    } else if y == 10 {
        reveal_strlit("#.#####.#.###.##");
        assert(third_level_row(10) =~= drawn_row(third_level_map(10)));
    } else if y == 11 {
        reveal_strlit("#.....#.#.#...##");
        assert(third_level_row(11) =~= drawn_row(third_level_map(11)));
    } else if y == 12 {
        reveal_strlit("#.###.#.###.#.##");
        assert(third_level_row(12) =~= drawn_row(third_level_map(12)));
    } else if y == 13 {
        reveal_strlit("#...#.......#.##");
        assert(third_level_row(13) =~= drawn_row(third_level_map(13)));
    } else if y == 14 {
        reveal_strlit("################");
        assert(third_level_row(14) =~= drawn_row(third_level_map(14)));
    } else {
        reveal_strlit("################");
        assert(third_level_row(15) =~= drawn_row(third_level_map(15)));
    }
    assert(level_row(2, y) == drawn_row(third_level_map(y)));
    assert(level_row(2, y)[x] == drawn_row(third_level_map(y))[x]);
}

} // verus!
