use rand::rngs::StdRng;
use rand::SeedableRng;
use tilemerge::board::{Direction, Game};
use tilemerge::input::{command_for_key, Command, Key};

fn grid(g: &Game) -> Vec<Option<usize>> {
    let n = g.size();
    let mut out = Vec::new();
    for r in 0..n {
        for c in 0..n {
            out.push(g.cell(r, c));
        }
    }
    out
}

fn tiles(g: &Game) -> usize {
    grid(g).iter().filter(|c| c.is_some()).count()
}

#[test]
fn new_game_is_empty() {
    let g = Game::new(4);
    assert_eq!(g.size(), 4);
    assert_eq!(g.score(), 0);
    assert_eq!(grid(&g), vec![None; 16]);
    assert_eq!(g.empty_cells(), (0..16).collect::<Vec<usize>>());
}

#[test]
fn shift_on_empty_grid_changes_nothing() {
    for d in [Direction::Up, Direction::Down, Direction::Left, Direction::Right] {
        let mut g = Game::new(4);
        g.shift(d);
        assert_eq!(grid(&g), vec![None; 16]);
        assert_eq!(g.score(), 0);
    }
}

#[test]
fn place_tile_fills_only_empty_cells() {
    let mut g = Game::new(3);
    g.place_tile(1, 2, true);
    assert_eq!(g.cell(1, 2), Some(2));
    assert_eq!(g.score(), 2);
    g.place_tile(1, 2, false);
    assert_eq!(g.cell(1, 2), Some(2));
    assert_eq!(g.score(), 2);
    g.place_tile(2, 0, false);
    assert_eq!(g.cell(2, 0), Some(4));
    assert_eq!(g.score(), 6);
    assert_eq!(g.empty_cells(), vec![0, 1, 2, 3, 4, 7, 8]);
}

#[test]
fn up_pass_merges_in_cascade() {
    let mut g = Game::new(4);
    g.place_tile(0, 0, true);
    g.place_tile(0, 1, true);
    g.place_tile(0, 2, false);
    g.place_tile(0, 3, false);
    assert_eq!(g.score(), 12);
    g.shift(Direction::Up);
    assert_eq!(g.cell(0, 0), None);
    assert_eq!(g.cell(0, 1), None);
    assert_eq!(g.cell(0, 2), Some(8));
    assert_eq!(g.cell(0, 3), Some(4));
    assert_eq!(g.score(), 24);
}

#[test]
fn down_pass_merges_with_next_column() {
    let mut g = Game::new(4);
    g.place_tile(0, 0, true);
    g.place_tile(0, 1, true);
    g.shift(Direction::Down);
    assert_eq!(g.cell(0, 0), Some(4));
    assert_eq!(tiles(&g), 1);
    assert_eq!(g.score(), 8);
}

#[test]
fn right_pass_moves_a_tile_one_row() {
    let mut g = Game::new(4);
    g.place_tile(3, 0, true);
    g.shift(Direction::Right);
    assert_eq!(g.cell(2, 0), Some(2));
    assert_eq!(tiles(&g), 1);
    g.shift(Direction::Right);
    g.shift(Direction::Right);
    assert_eq!(g.cell(0, 0), Some(2));
    assert_eq!(g.score(), 2);
}

#[test]
fn left_pass_carries_a_tile_across_the_grid() {
    let mut g = Game::new(4);
    g.place_tile(0, 0, true);
    g.shift(Direction::Left);
    assert_eq!(g.cell(3, 0), Some(2));
    assert_eq!(tiles(&g), 1);
}

#[test]
fn unequal_neighbors_do_not_merge() {
    let mut g = Game::new(2);
    g.place_tile(0, 0, true);
    g.place_tile(0, 1, false);
    g.shift(Direction::Up);
    g.shift(Direction::Down);
    assert_eq!(g.cell(0, 0), Some(2));
    assert_eq!(g.cell(0, 1), Some(4));
    assert_eq!(g.score(), 6);
}

#[test]
fn shift_values_are_present_or_doubled() {
    let mut g = Game::new(4);
    let picks = [(0, 0, true), (0, 1, true), (1, 1, false), (2, 1, false), (3, 3, true), (3, 2, true)];
    for (r, c, two) in picks {
        g.place_tile(r, c, two);
    }
    for d in [Direction::Up, Direction::Left, Direction::Down, Direction::Right] {
        let before = grid(&g);
        g.shift(d);
        for v in grid(&g).into_iter().flatten() {
            assert!(before.iter().flatten().any(|&w| v == w || v == 2 * w));
            assert!(v.is_power_of_two() && v >= 2);
        }
    }
}

#[test]
fn score_is_spawned_plus_merged() {
    let mut g = Game::new(4);
    let mut rng = StdRng::seed_from_u64(11);
    let mut spawned = 0;
    for step in 0..30 {
        let before = g.score();
        g.spawn_random_tile(&mut rng);
        spawned += g.score() - before;
        let d = [Direction::Up, Direction::Left, Direction::Down, Direction::Right][step % 4];
        g.shift(d);
    }
    let on_board: usize = grid(&g).into_iter().flatten().sum();
    assert_eq!(on_board, spawned);
    assert!(g.score() >= spawned);
}

#[test]
fn spawn_on_full_grid_is_noop() {
    let mut g = Game::new(2);
    g.place_tile(0, 0, true);
    g.place_tile(0, 1, false);
    g.place_tile(1, 0, false);
    g.place_tile(1, 1, true);
    let before = grid(&g);
    let mut rng = StdRng::seed_from_u64(3);
    g.spawn_random_tile(&mut rng);
    assert_eq!(grid(&g), before);
    assert_eq!(g.score(), 12);
}

#[test]
fn spawn_fills_single_empty_cell() {
    for seed in 0..20 {
        let mut g = Game::new(2);
        g.place_tile(0, 0, true);
        g.place_tile(1, 0, false);
        g.place_tile(1, 1, true);
        let mut rng = StdRng::seed_from_u64(seed);
        g.spawn_random_tile(&mut rng);
        let v = g.cell(0, 1).expect("the empty cell is filled");
        assert!(v == 2 || v == 4);
        assert_eq!(g.score(), 8 + v);
        assert_eq!(g.cell(0, 0), Some(2));
        assert_eq!(g.cell(1, 0), Some(4));
        assert_eq!(g.cell(1, 1), Some(2));
    }
}

#[test]
fn spawn_gives_both_values_and_various_cells() {
    let mut twos = 0;
    let mut fours = 0;
    let mut cells = std::collections::BTreeSet::new();
    for seed in 0..200 {
        let mut g = Game::new(4);
        let mut rng = StdRng::seed_from_u64(seed);
        g.spawn_random_tile(&mut rng);
        assert_eq!(tiles(&g), 1);
        let k = grid(&g).iter().position(|c| c.is_some()).unwrap();
        cells.insert(k);
        match g.score() {
            2 => twos += 1,
            4 => fours += 1,
            s => panic!("unexpected score {}", s),
        }
    }
    assert!(twos > fours && fours > 0);
    assert!(cells.len() > 8);
}

#[test]
fn end_to_end_single_tile_move() {
    let mut g = Game::new(4);
    g.place_tile(0, 0, true);
    assert_eq!(g.score(), 2);
    for _ in 0..3 {
        g.shift(Direction::Right);
    }
    let mut expected = vec![None; 16];
    expected[0] = Some(2);
    assert_eq!(grid(&g), expected);
    assert_eq!(g.score(), 2);
    let mut rng = StdRng::seed_from_u64(5);
    g.spawn_random_tile(&mut rng);
    assert_eq!(tiles(&g), 2);
    assert_eq!(g.cell(0, 0), Some(2));
    assert_eq!(command_for_key(Key::ArrowLeft), Command::Move(Direction::Down));
}

#[test]
fn play_move_shifts_then_spawns() {
    let mut g = Game::new(4);
    g.place_tile(0, 0, true);
    assert!(g.can_move());
    let mut rng = StdRng::seed_from_u64(9);
    g.play_move(Direction::Up, &mut rng);
    assert_eq!(g.cell(0, 3), Some(2));
    assert_eq!(tiles(&g), 2);
    assert!(g.score() == 4 || g.score() == 6);
}

#[test]
fn can_move_on_a_new_game() {
    let g = Game::new(4);
    assert!(g.can_move());
}
