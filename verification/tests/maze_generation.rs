use maze_runner::maze::{
    empty, generate, generate_checked, validate, Difficulty, GeneratedMaze, Maze, TilePos,
    FALLBACK_SEED,
};
use maze_runner::carving::{choose_spawns, first_open_jump, opens_loop, spawn_candidates};
use maze_runner::paths::{distances_from, farthest};

#[test]
fn generated_maps_satisfy_invariants_across_difficulties_and_seeds() {
    for difficulty in [Difficulty::Easy, Difficulty::Medium, Difficulty::Hard] {
        for seed in 0..20 {
            let generated = generate(seed, difficulty, 8);
            validate(&generated.maze).unwrap();
            assert!(generated.maze.spawns.len() >= 10);
        }
    }
}

#[test]
fn zero_retries_uses_known_valid_fallback() {
    let generated = generate(123, Difficulty::Hard, 0);
    assert!(generated.used_fallback);
    validate(&generated.maze).unwrap();
}

fn settings(difficulty: Difficulty) -> (usize, usize, usize) {
    match difficulty {
        Difficulty::Easy => (31, 23, 10),
        Difficulty::Medium => (37, 27, 14),
        Difficulty::Hard => (45, 33, 18),
    }
}

fn maze_from_rows(rows: &[&str], spawns: Vec<TilePos>, objective: TilePos) -> Maze {
    let height = rows.len();
    let width = rows[0].len();
    let mut tiles = Vec::new();
    for row in rows {
        for c in row.chars() {
            tiles.push(if c == '#' { 0 } else { 1 });
        }
    }
    Maze { width, height, tiles, spawns, objective }
}

fn clear_line(maze: &Maze, a: TilePos, b: TilePos) -> bool {
    if a.x == b.x {
        let (s, e) = if a.y < b.y { (a.y, b.y) } else { (b.y, a.y) };
        (s + 1..e).all(|y| maze.is_floor(a.x as isize, y as isize))
    } else if a.y == b.y {
        let (s, e) = if a.x < b.x { (a.x, b.x) } else { (b.x, a.x) };
        (s + 1..e).all(|x| maze.is_floor(x as isize, a.y as isize))
    } else {
        false
    }
}

#[test]
fn fallback_maze_is_carved_easy_maze_with_the_built_in_seed() {
    let generated = generate(7, Difficulty::Medium, 0);
    assert!(generated.used_fallback);
    assert_eq!(generated.effective_seed, FALLBACK_SEED);
    assert_eq!(generated.effective_seed, 0x4D41_5A45_5741_5253);
    assert_eq!((generated.maze.width, generated.maze.height), (31, 23));
    assert!(generated.maze.tiles.iter().any(|&t| t == 0));
}

#[test]
fn accepted_seed_is_derived_from_the_requested_seed() {
    for seed in [0u64, 5, u64::MAX] {
        let generated = generate(seed, Difficulty::Easy, 8);
        assert!(!generated.used_fallback);
        let derived: Vec<u64> = (0..8u64)
            .map(|a| seed.wrapping_add(a.wrapping_mul(0x9E37_79B9_7F4A_7C15)))
            .collect();
        assert!(derived.contains(&generated.effective_seed));
    }
}

#[test]
fn same_seed_reproduces_the_same_maze() {
    for difficulty in [Difficulty::Easy, Difficulty::Hard] {
        let a = generate(12345, difficulty, 8);
        let b = generate(12345, difficulty, 8);
        assert_eq!(a.effective_seed, b.effective_seed);
        assert_eq!(a.maze.tiles, b.maze.tiles);
        assert_eq!(a.maze.spawns, b.maze.spawns);
        assert_eq!(a.maze.objective, b.maze.objective);
    }
    let c = generate(12346, Difficulty::Easy, 8);
    let d = generate(12345, Difficulty::Easy, 8);
    assert_ne!(c.maze.tiles, d.maze.tiles);
}

#[test]
fn carved_maps_keep_spawns_apart_and_out_of_each_others_line_of_fire() {
    for difficulty in [Difficulty::Easy, Difficulty::Medium, Difficulty::Hard] {
        let (width, height, gap) = settings(difficulty);
        for seed in [1u64, 2, 3] {
            let maze = generate(seed, difficulty, 8).maze;
            assert_eq!((maze.width, maze.height), (width, height));
            assert_eq!(maze.tiles.len(), width * height);
            assert!(maze.spawns.len() <= 16);
            for x in 0..width {
                assert_eq!(maze.tiles[x], 0);
                assert_eq!(maze.tiles[(height - 1) * width + x], 0);
            }
            for y in 0..height {
                assert_eq!(maze.tiles[y * width], 0);
                assert_eq!(maze.tiles[y * width + width - 1], 0);
            }
            for (i, &p) in maze.spawns.iter().enumerate() {
                assert!(maze.is_floor(p.x as isize, p.y as isize));
                assert!(maze.floor_neighbors(p) >= 2);
                let distances = distances_from(&maze, p);
                for &q in &maze.spawns[..i] {
                    let d = distances[q.y * width + q.x];
                    assert!(d != usize::MAX && d >= gap);
                    assert!(!clear_line(&maze, p, q));
                }
            }
        }
    }
}

#[test]
fn spawns_follow_the_shuffled_candidates_not_the_row_order() {
    let maze = generate(1, Difficulty::Medium, 8).maze;
    let row_major = maze
        .spawns
        .windows(2)
        .all(|w| (w[0].y, w[0].x) < (w[1].y, w[1].x));
    assert!(!row_major);
}

#[test]
fn every_spawn_reaches_every_other_spawn_and_the_objective() {
    let maze = generate(99, Difficulty::Hard, 8).maze;
    let width = maze.width;
    let floor: usize = maze.tiles.iter().filter(|&&t| t == 1).count();
    for &p in &maze.spawns {
        let distances = distances_from(&maze, p);
        for &q in &maze.spawns {
            assert_ne!(distances[q.y * width + q.x], usize::MAX);
        }
        assert_ne!(distances[maze.objective.y * width + maze.objective.x], usize::MAX);
        assert_eq!(distances.iter().filter(|&&d| d != usize::MAX).count(), floor);
    }
}

#[test]
fn objective_is_the_last_farthest_tile_from_the_corner() {
    let maze = generate(4, Difficulty::Easy, 8).maze;
    let distances = distances_from(&maze, TilePos { x: 1, y: 1 });
    let best = distances.iter().filter(|&&d| d != usize::MAX).max().copied().unwrap();
    let index = maze.objective.y * maze.width + maze.objective.x;
    assert_eq!(distances[index], best);
    assert!(distances[index + 1..].iter().all(|&d| d == usize::MAX || d < best));
}

#[test]
fn empty_maze_is_an_open_field_with_ten_spawns() {
    let generated = empty(42, Difficulty::Easy);
    assert_eq!(generated.effective_seed, 42);
    assert!(!generated.used_fallback);
    let maze = &generated.maze;
    assert_eq!((maze.width, maze.height), (31, 23));
    assert!(maze.tiles.iter().all(|&t| t == 1));
    assert_eq!(maze.tiles.len(), 31 * 23);
    let expected = [
        (2, 2),
        (3, 11),
        (4, 20),
        (8, 6),
        (9, 15),
        (14, 10),
        (15, 19),
        (17, 3),
        (20, 14),
        (23, 7),
    ];
    let got: Vec<(usize, usize)> = maze.spawns.iter().map(|p| (p.x, p.y)).collect();
    assert_eq!(got, expected.to_vec());
    assert_eq!(maze.objective, TilePos { x: 15, y: 11 });
    validate(maze).unwrap();
    let hard = empty(1, Difficulty::Hard).maze;
    assert_eq!((hard.width, hard.height), (45, 33));
    assert_eq!(hard.spawns[9], TilePos { x: 41, y: 22 });
}

#[test]
fn parse_accepts_names_and_numbers_in_any_case() {
    assert_eq!(Difficulty::parse("easy"), Some(Difficulty::Easy));
    assert_eq!(Difficulty::parse("EASY"), Some(Difficulty::Easy));
    assert_eq!(Difficulty::parse("1"), Some(Difficulty::Easy));
    assert_eq!(Difficulty::parse("Medium"), Some(Difficulty::Medium));
    assert_eq!(Difficulty::parse("2"), Some(Difficulty::Medium));
    assert_eq!(Difficulty::parse("hArD"), Some(Difficulty::Hard));
    assert_eq!(Difficulty::parse("3"), Some(Difficulty::Hard));
    assert_eq!(Difficulty::parse(""), None);
    assert_eq!(Difficulty::parse("4"), None);
    assert_eq!(Difficulty::parse(" easy"), None);
    assert_eq!(Difficulty::parse("EASİ"), None);
}

#[test]
fn is_floor_rejects_tiles_outside_the_grid() {
    let maze = maze_from_rows(&["#..", "..#"], vec![], TilePos { x: 0, y: 0 });
    assert!(!maze.is_floor(0, 0));
    assert!(maze.is_floor(1, 0));
    assert!(maze.is_floor(0, 1));
    assert!(!maze.is_floor(2, 1));
    assert!(!maze.is_floor(-1, 0));
    assert!(!maze.is_floor(0, -1));
    assert!(!maze.is_floor(3, 0));
    assert!(!maze.is_floor(0, 2));
    assert_eq!(maze.floor_neighbors(TilePos { x: 1, y: 1 }), 2);
    assert_eq!(maze.floor_neighbors(TilePos { x: 0, y: 0 }), 2);
    assert_eq!(maze.floor_neighbors(TilePos { x: 2, y: 0 }), 1);
    assert_eq!(maze.floor_neighbors(TilePos { x: 5, y: 5 }), 0);
}

#[test]
fn distances_are_shortest_walks_over_floor() {
    let maze = maze_from_rows(
        &["#####", "#...#", "#.#.#", "#...#", "##.##"],
        vec![],
        TilePos { x: 1, y: 1 },
    );
    let d = distances_from(&maze, TilePos { x: 1, y: 1 });
    let m = usize::MAX;
    assert_eq!(
        d,
        vec![
            m, m, m, m, m, //
            m, 0, 1, 2, m, //
            m, 1, m, 3, m, //
            m, 2, 3, 4, m, //
            m, m, 4, m, m,
        ]
    );
    assert_eq!(farthest(&maze, &d), TilePos { x: 2, y: 4 });
    let from_wall = distances_from(&maze, TilePos { x: 0, y: 0 });
    assert_eq!(from_wall[0], 0);
    assert!(from_wall[1..].iter().all(|&x| x == usize::MAX));
}

#[test]
fn farthest_takes_the_last_of_equal_distances() {
    let maze = maze_from_rows(&["...", "..."], vec![], TilePos { x: 0, y: 0 });
    let d = vec![0, 3, usize::MAX, 3, 1, usize::MAX];
    assert_eq!(farthest(&maze, &d), TilePos { x: 0, y: 1 });
}

fn ten_spawns() -> Vec<TilePos> {
    (1..=10).map(|x| TilePos { x, y: 1 }).collect()
}

#[test]
fn validate_reports_too_few_spawns() {
    let mut maze = empty(0, Difficulty::Easy).maze;
    maze.spawns.truncate(9);
    assert_eq!(validate(&maze), Err("fewer than ten safe spawns".to_string()));
}

#[test]
fn validate_reports_blocked_objective() {
    let mut maze = empty(0, Difficulty::Easy).maze;
    maze.objective = TilePos { x: 31, y: 0 };
    assert_eq!(validate(&maze), Err("objective is blocked".to_string()));
    maze.objective = TilePos { x: 3, y: 3 };
    maze.tiles[3 * 31 + 3] = 0;
    assert_eq!(validate(&maze), Err("objective is blocked".to_string()));
}

#[test]
fn validate_reports_disconnected_region() {
    let rows = [
        "############",
        "#..........#",
        "############",
        "#.#........#",
        "############",
    ];
    let maze = maze_from_rows(&rows, ten_spawns(), TilePos { x: 5, y: 1 });
    assert_eq!(validate(&maze), Err("walkable region is disconnected".to_string()));
}

#[test]
fn validate_reports_unsafe_or_unreachable_spawn() {
    let rows = ["############", "#..........#", "#..........#", "############"];
    let mut spawns = ten_spawns();
    spawns[4] = TilePos { x: 5, y: 0 };
    let maze = maze_from_rows(&rows, spawns, TilePos { x: 5, y: 2 });
    assert_eq!(validate(&maze), Err("unsafe or unreachable spawn".to_string()));
    let mut spawns = ten_spawns();
    spawns[9] = TilePos { x: 200, y: 1 };
    let maze = maze_from_rows(&rows, spawns, TilePos { x: 5, y: 2 });
    assert_eq!(validate(&maze), Err("unsafe or unreachable spawn".to_string()));
}

#[test]
fn a_first_spawn_inside_a_wall_is_unsafe() {
    // The first spawn stands in a wall: however the floor around it lies, the
    // maze is refused.
    let rows = [
        "############",
        "#..........#",
        "#..........#",
        "#.#.########",
        "############",
        "#.##########",
        "############",
    ];
    let mut spawns = ten_spawns();
    spawns[0] = TilePos { x: 2, y: 3 };
    let maze = maze_from_rows(&rows, spawns.clone(), TilePos { x: 1, y: 5 });
    assert_eq!(validate(&maze), Err("unsafe or unreachable spawn".to_string()));
    let maze = maze_from_rows(&rows, spawns, TilePos { x: 5, y: 2 });
    assert_eq!(validate(&maze), Err("unsafe or unreachable spawn".to_string()));
}

#[test]
fn a_wall_spawn_cannot_hide_a_cut_off_tile() {
    // (1, 1) is a wall and the floor tile (4, 0) is cut off from the rest.
    let rows = ["...#.", ".#.##", "...##"];
    let mut spawns = vec![TilePos { x: 1, y: 1 }];
    spawns.extend(std::iter::repeat(TilePos { x: 0, y: 0 }).take(9));
    let maze = maze_from_rows(&rows, spawns, TilePos { x: 0, y: 0 });
    assert!(validate(&maze).is_err());
    assert_eq!(validate(&maze), Err("unsafe or unreachable spawn".to_string()));
}

#[test]
fn validate_accepts_a_connected_maze() {
    let rows = ["############", "#..........#", "#..........#", "############"];
    let maze = maze_from_rows(&rows, ten_spawns(), TilePos { x: 5, y: 2 });
    assert_eq!(validate(&maze), Ok(()));
}

fn same_generation(a: &GeneratedMaze, b: &GeneratedMaze) -> bool {
    a.effective_seed == b.effective_seed
        && a.used_fallback == b.used_fallback
        && a.maze.width == b.maze.width
        && a.maze.height == b.maze.height
        && a.maze.tiles == b.maze.tiles
        && a.maze.spawns == b.maze.spawns
        && a.maze.objective == b.maze.objective
}

#[test]
fn the_logged_seed_reproduces_the_level() {
    for difficulty in [Difficulty::Easy, Difficulty::Medium, Difficulty::Hard] {
        for seed in [1u64, 77, 9000, u64::MAX] {
            let first = generate(seed, difficulty, 8);
            assert!(!first.used_fallback);
            let again = generate(first.effective_seed, difficulty, 1);
            assert!(same_generation(&first, &again));
        }
    }
}

#[test]
fn more_retries_keep_the_maze_already_found() {
    for seed in [5u64, 31, 4242] {
        let fewer = generate(seed, Difficulty::Hard, 8);
        assert!(!fewer.used_fallback);
        let more = generate(seed, Difficulty::Hard, 20);
        assert!(same_generation(&fewer, &more));
    }
}

#[test]
fn checked_generation_gives_what_generate_gives() {
    let checked = generate_checked(3, Difficulty::Medium, 8).unwrap();
    assert!(same_generation(&checked, &generate(3, Difficulty::Medium, 8)));
    let fallback = generate_checked(3, Difficulty::Medium, 0).unwrap();
    assert!(fallback.used_fallback);
    assert!(same_generation(&fallback, &generate(9, Difficulty::Hard, 0)));
}

#[test]
fn carved_cells_with_odd_coordinates_are_all_open() {
    for difficulty in [Difficulty::Easy, Difficulty::Medium, Difficulty::Hard] {
        let maze = generate(17, difficulty, 8).maze;
        for y in (1..maze.height - 1).step_by(2) {
            for x in (1..maze.width - 1).step_by(2) {
                assert_eq!(maze.tiles[y * maze.width + x], 1);
            }
        }
    }
}

#[test]
fn ascii_case_never_changes_the_level() {
    for text in ["easy", "EaSy", "medium", "MEDIUM", "hArD", "1", "2", "3", "x", "", "Hard!"] {
        let level = Difficulty::parse(text);
        assert_eq!(Difficulty::parse(&text.to_ascii_uppercase()), level);
        assert_eq!(Difficulty::parse(&text.to_ascii_lowercase()), level);
    }
}

#[test]
fn logged_level_names_parse_back() {
    for level in [Difficulty::Easy, Difficulty::Medium, Difficulty::Hard] {
        assert_eq!(Difficulty::parse(&format!("{:?}", level)), Some(level));
    }
}

#[test]
fn a_jump_lands_on_the_first_wall_inside_the_ring() {
    // A 5 x 5 grid of walls but for (1, 1).
    let mut tiles = vec![0u8; 25];
    tiles[6] = 1;
    assert_eq!(first_open_jump(&tiles, 5, 5, 1, 1, &vec![(-2, 0), (2, 0), (0, 2)]), Some((3, 1)));
    assert_eq!(first_open_jump(&tiles, 5, 5, 1, 1, &vec![(0, -2), (0, 2)]), Some((1, 3)));
    assert_eq!(first_open_jump(&tiles, 5, 5, 1, 1, &vec![(-2, 0), (0, -2)]), None);
    tiles[8] = 1;
    assert_eq!(first_open_jump(&tiles, 5, 5, 1, 1, &vec![(2, 0), (0, 2)]), Some((1, 3)));
    assert_eq!(first_open_jump(&tiles, 5, 5, 1, 1, &vec![]), None);
}

#[test]
fn a_loop_opens_on_a_low_word_across_one_axis() {
    // Centre of a 3 x 3 grid, walkable to its left and right only.
    let tiles = vec![0u8, 1, 0, 1, 0, 1, 0, 0, 0];
    assert!(opens_loop(&tiles, 3, 4, 0, 5));
    assert!(opens_loop(&tiles, 3, 4, 4 << 8, 5));
    assert!(!opens_loop(&tiles, 3, 4, 5 << 8, 5));
    assert!(!opens_loop(&tiles, 3, 4, u32::MAX, 2_684_355));
    // Walkable on both axes: no loop.
    let crossing = vec![0u8, 1, 0, 1, 0, 1, 0, 1, 0];
    assert!(!opens_loop(&crossing, 3, 4, 0, 5));
    // Walkable on neither axis in full: no loop.
    let corner = vec![0u8, 1, 0, 1, 0, 0, 0, 0, 0];
    assert!(!opens_loop(&corner, 3, 4, 0, 5));
}

#[test]
fn spawns_are_taken_greedily_in_candidate_order() {
    let maze = generate(4, Difficulty::Easy, 8).maze;
    let candidates = spawn_candidates(&maze);
    assert!(candidates.len() > 16);
    for pair in candidates.windows(2) {
        assert!((pair[0].y, pair[0].x) < (pair[1].y, pair[1].x));
    }
    let spawns = choose_spawns(&maze, &candidates, 10);
    assert!(spawns.len() <= 16);
    assert_eq!(spawns[0], candidates[0]);
    assert!(spawns.iter().all(|s| candidates.contains(s)));
    let mut reversed = candidates.clone();
    reversed.reverse();
    let other = choose_spawns(&maze, &reversed, 10);
    assert_eq!(other[0], *candidates.last().unwrap());
}

#[test]
fn a_spawn_far_off_the_grid_is_unsafe() {
    let rows = ["############", "#..........#", "#..........#", "############"];
    let mut spawns = ten_spawns();
    spawns[3] = TilePos { x: usize::MAX, y: 1 };
    let maze = maze_from_rows(&rows, spawns, TilePos { x: 5, y: 2 });
    assert_eq!(validate(&maze), Err("unsafe or unreachable spawn".to_string()));
    let mut spawns = ten_spawns();
    spawns[7] = TilePos { x: 3, y: usize::MAX / 2 };
    let maze = maze_from_rows(&rows, spawns, TilePos { x: 5, y: 2 });
    assert_eq!(validate(&maze), Err("unsafe or unreachable spawn".to_string()));
}

#[test]
fn open_field_spawns_keep_the_spawn_rules() {
    for difficulty in [Difficulty::Easy, Difficulty::Medium, Difficulty::Hard] {
        let (_, _, gap) = settings(difficulty);
        let maze = empty(5, difficulty).maze;
        validate(&maze).unwrap();
        assert_eq!(maze.spawns.len(), 10);
        for &p in &maze.spawns {
            let distances = distances_from(&maze, p);
            for &q in &maze.spawns {
                if p != q {
                    assert!(distances[q.y * maze.width + q.x] >= gap);
                    assert!(!clear_line(&maze, p, q));
                    assert!(p.x != q.x && p.y != q.y);
                }
            }
        }
    }
}

#[test]
fn a_first_spawn_just_off_the_grid_is_judged_by_what_it_reaches() {
    let open = ["............", "............", "............", "............"];
    let mut spawns = ten_spawns();
    // Beside the last column: a walk from it enters the grid at (11, 0).
    spawns[0] = TilePos { x: 12, y: 0 };
    let maze = maze_from_rows(&open, spawns.clone(), TilePos { x: 5, y: 2 });
    assert_eq!(validate(&maze), Err("unsafe or unreachable spawn".to_string()));
    // With (11, 0) a wall nothing is reached.
    let walled = ["...........#", "............", "............", "............"];
    let maze = maze_from_rows(&walled, spawns, TilePos { x: 5, y: 2 });
    assert_eq!(validate(&maze), Err("walkable region is disconnected".to_string()));
    // Farther off the grid nothing is reached either.
    let mut spawns = ten_spawns();
    spawns[0] = TilePos { x: 15, y: 0 };
    let maze = maze_from_rows(&open, spawns, TilePos { x: 5, y: 2 });
    assert_eq!(validate(&maze), Err("walkable region is disconnected".to_string()));
}
