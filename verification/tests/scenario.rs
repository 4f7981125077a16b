use rand::rngs::SmallRng;
use rand::SeedableRng;
use wfc_engine::adjacency::{compute_adjacencies, Adjacency};
use wfc_engine::tiles::extract_tiles;
use wfc_engine::{Color, WfcEngine};

const A: Color = Color { r: 200, g: 10, b: 10 };
const B: Color = Color { r: 10, g: 10, b: 200 };

fn example() -> Vec<Vec<Color>> {
    vec![vec![A, B, A, A], vec![B, B, A, B], vec![A, A, B, B], vec![B, A, A, B]]
}

fn engine(size: usize) -> WfcEngine {
    match WfcEngine::new(&example(), size, 2, SmallRng::seed_from_u64(11)) {
        Ok(engine) => engine,
        Err(e) => panic!("construction failed: {}", e.message()),
    }
}

/// Checks that the board is open everywhere but at the listed cells.
fn assert_board(engine: &WfcEngine, narrowed: &[(usize, u128)]) {
    let cells = engine.output_size() * engine.output_size();
    let mut collapsed = 0;
    for i in 0..cells {
        let expected = match narrowed.iter().find(|(cell, _)| *cell == i) {
            Some((_, mask)) => *mask,
            None => 16383,
        };
        assert_eq!(engine.domain_at(i), expected, "cell {}", i);
        if expected.count_ones() == 1 {
            collapsed += 1;
        }
    }
    assert_eq!(engine.get_collapsed_count(), collapsed);
}

#[test]
fn example_tiles_and_weights() {
    let (tiles, weights) = extract_tiles(&example(), 2);
    assert_eq!(tiles.len(), 14);
    assert_eq!(weights, vec![3, 3, 3, 3, 2, 2, 2, 2, 3, 3, 3, 3, 2, 2]);
    assert_eq!(tiles[0], vec![vec![A, B], vec![B, B]]);
    assert_eq!(tiles[1], vec![vec![B, A], vec![B, B]]);
    assert_eq!(tiles[2], vec![vec![B, B], vec![B, A]]);
    assert_eq!(tiles[3], vec![vec![B, B], vec![A, B]]);
    assert_eq!(tiles[4], vec![vec![B, A], vec![B, A]]);
    assert_eq!(tiles[5], vec![vec![B, B], vec![A, A]]);
    assert_eq!(tiles[6], vec![vec![A, B], vec![A, B]]);
    assert_eq!(tiles[7], vec![vec![A, A], vec![B, B]]);
    assert_eq!(tiles[8], vec![vec![A, A], vec![A, B]]);
    assert_eq!(tiles[9], vec![vec![A, A], vec![B, A]]);
    assert_eq!(tiles[10], vec![vec![B, A], vec![A, A]]);
    assert_eq!(tiles[11], vec![vec![A, B], vec![A, A]]);
    assert_eq!(tiles[12], vec![vec![B, A], vec![A, B]]);
    assert_eq!(tiles[13], vec![vec![A, B], vec![B, A]]);
}

#[test]
fn example_adjacency_table() {
    let (tiles, _) = extract_tiles(&example(), 2);
    let table = compute_adjacencies(&tiles, 2);
    let expected: [[u128; 4]; 14] = [[44, 4424, 22, 4482], [44, 8724, 8833, 73], [5138, 131, 5160, 73], [10305, 131, 22, 10276], [5138, 8724, 2368, 73], [896, 131, 5160, 10276], [10305, 4424, 22, 1552], [44, 3104, 8833, 4482], [10305, 3104, 8833, 1552], [5138, 3104, 2368, 4482], [896, 8724, 2368, 10276], [896, 4424, 5160, 1552], [10305, 8724, 8833, 10276], [5138, 4424, 5160, 4482]];
    assert_eq!(table.len(), expected.len());
    for i in 0..expected.len() {
        let [up, down, left, right] = expected[i];
        assert_eq!(table[i], Adjacency { up, down, left, right }, "tile {}", i);
    }
}

#[test]
fn collapse_narrows_the_neighbourhood() {
    let mut engine = engine(12);
    engine.collapse(143, 0);
    assert_board(&engine, &[(119, 16339), (130, 5182), (131, 44), (141, 16361), (142, 22), (143, 1)]);
    engine.collapse(65, 0);
    assert_board(&engine, &[(41, 16339), (52, 5182), (53, 44), (54, 10349), (63, 16361), (64, 22), (65, 1), (66, 4482), (76, 8855), (77, 4424), (78, 11828), (119, 16339), (130, 5182), (131, 44), (141, 16361), (142, 22), (143, 1)]);
    assert_eq!(engine.attempt_count(), 0);
    assert_eq!(engine.reset_radius(), 8);
}

#[test]
fn contradiction_resets_the_square_around_the_cell() {
    let mut engine = engine(12);
    engine.collapse(143, 0);
    engine.collapse(65, 0);
    // Tile 2 at (3, 5) leaves the cell above (4, 5) without a tile: the square
    // of side 8 around (3, 5) is opened again, the corner stays as it was.
    engine.collapse(41, 2);
    assert_eq!(engine.attempt_count(), 1);
    assert_eq!(engine.reset_radius(), 8);
    assert_board(&engine, &[(119, 16339), (130, 5182), (131, 44), (141, 16361), (142, 22), (143, 1)]);
    assert_eq!(engine.get_collapsed_count(), 1);
    assert!(engine.step());
}
