use wfc_engine::adjacency::{allowed_neighbors, can_overlap, compute_adjacencies, Adjacency, Direction};
use wfc_engine::domain::contains_tile;
use wfc_engine::tiles::extract_tiles;
use wfc_engine::Color;

fn grid(rows: &[&[u8]]) -> Vec<Vec<Color>> {
    rows.iter().map(|row| row.iter().map(|v| Color { r: *v, g: 0, b: 0 }).collect()).collect()
}

const DIRECTIONS: [Direction; 4] = [Direction::Up, Direction::Down, Direction::Left, Direction::Right];

fn opposite(d: Direction) -> Direction {
    match d {
        Direction::Up => Direction::Down,
        Direction::Down => Direction::Up,
        Direction::Left => Direction::Right,
        Direction::Right => Direction::Left,
    }
}

#[test]
fn single_cell_tiles_never_overlap_so_all_are_compatible() {
    let a = grid(&[&[1]]);
    let b = grid(&[&[2]]);
    for d in DIRECTIONS {
        assert!(can_overlap(&a, &a, d));
        assert!(can_overlap(&a, &b, d));
        assert!(can_overlap(&b, &a, d));
        assert!(can_overlap(&b, &b, d));
    }
}

#[test]
fn overlap_compares_the_shared_cells() {
    let a = grid(&[&[1, 2], &[3, 4]]);
    // Down: a[r][c] against b[r + 1][c], so the top row of a meets the bottom row of b.
    let below = grid(&[&[9, 9], &[1, 2]]);
    assert!(can_overlap(&a, &below, Direction::Down));
    assert!(!can_overlap(&a, &below, Direction::Up));
    // Up: a[r][c] against b[r - 1][c], so the bottom row of a meets the top row of b.
    let above = grid(&[&[3, 4], &[9, 9]]);
    assert!(can_overlap(&a, &above, Direction::Up));
    assert!(!can_overlap(&a, &above, Direction::Down));
    // Right: a[r][c] against b[r][c + 1], so the left column of a meets the right column of b.
    let right = grid(&[&[9, 1], &[9, 3]]);
    assert!(can_overlap(&a, &right, Direction::Right));
    assert!(!can_overlap(&a, &right, Direction::Left));
    // Left: a[r][c] against b[r][c - 1], so the right column of a meets the left column of b.
    let left = grid(&[&[2, 9], &[4, 9]]);
    assert!(can_overlap(&a, &left, Direction::Left));
    assert!(!can_overlap(&a, &left, Direction::Right));
}

#[test]
fn checkerboard_tiles_only_neighbour_each_other() {
    let img = grid(&[&[1, 2, 1], &[2, 1, 2], &[1, 2, 1]]);
    let (tiles, _) = extract_tiles(&img, 2);
    let table = compute_adjacencies(&tiles, 2);
    assert_eq!(table.len(), 2);
    assert_eq!(table[0], Adjacency { up: 0b10, down: 0b10, left: 0b10, right: 0b10 });
    assert_eq!(table[1], Adjacency { up: 0b01, down: 0b01, left: 0b01, right: 0b01 });
}

#[test]
fn single_cell_checkerboard_table_allows_everything() {
    let img = grid(&[&[1, 2], &[2, 1]]);
    let (tiles, _) = extract_tiles(&img, 1);
    let table = compute_adjacencies(&tiles, 1);
    assert_eq!(table.len(), 2);
    for entry in &table {
        assert_eq!(*entry, Adjacency { up: 0b11, down: 0b11, left: 0b11, right: 0b11 });
    }
}

#[test]
fn adjacency_is_symmetric() {
    let img = grid(&[&[1, 2, 3, 1], &[2, 2, 1, 3], &[1, 3, 3, 2], &[1, 1, 2, 2]]);
    let (tiles, _) = extract_tiles(&img, 2);
    assert!(tiles.len() <= 128);
    let table = compute_adjacencies(&tiles, 2);
    assert_eq!(table.len(), tiles.len());
    for i in 0..tiles.len() {
        for j in 0..tiles.len() {
            for d in DIRECTIONS {
                let forth = contains_tile(table[i].get(d), j);
                let back = contains_tile(table[j].get(opposite(d)), i);
                assert_eq!(forth, back);
                assert_eq!(forth, can_overlap(&tiles[i], &tiles[j], d));
            }
        }
        for d in DIRECTIONS {
            for j in tiles.len()..128 {
                assert!(!contains_tile(table[i].get(d), j));
            }
        }
    }
}

#[test]
fn allowed_neighbors_is_the_union_over_the_domain() {
    let table = vec![
        Adjacency { up: 0b001, down: 0b010, left: 0b100, right: 0b000 },
        Adjacency { up: 0b010, down: 0b010, left: 0b001, right: 0b000 },
        Adjacency { up: 0b100, down: 0b001, left: 0b001, right: 0b111 },
    ];
    assert_eq!(allowed_neighbors(&table, 0b000, Direction::Up), 0);
    assert_eq!(allowed_neighbors(&table, 0b001, Direction::Up), 0b001);
    assert_eq!(allowed_neighbors(&table, 0b011, Direction::Up), 0b011);
    assert_eq!(allowed_neighbors(&table, 0b111, Direction::Up), 0b111);
    assert_eq!(allowed_neighbors(&table, 0b110, Direction::Down), 0b011);
    assert_eq!(allowed_neighbors(&table, 0b011, Direction::Left), 0b101);
    assert_eq!(allowed_neighbors(&table, 0b011, Direction::Right), 0b000);
    assert_eq!(allowed_neighbors(&table, 0b100, Direction::Right), 0b111);
    // tiles beyond the table are not looked at
    assert_eq!(allowed_neighbors(&table, 0b1000, Direction::Right), 0);
}

#[test]
fn shifts_stay_on_the_board() {
    assert_eq!(Direction::Up.shift_row(0, 3), None);
    assert_eq!(Direction::Up.shift_row(2, 3), Some(1));
    assert_eq!(Direction::Down.shift_row(2, 3), None);
    assert_eq!(Direction::Down.shift_row(1, 3), Some(2));
    assert_eq!(Direction::Left.shift_row(1, 3), Some(1));
    assert_eq!(Direction::Right.shift_row(1, 3), Some(1));
    assert_eq!(Direction::Left.shift_col(0, 3), None);
    assert_eq!(Direction::Left.shift_col(1, 3), Some(0));
    assert_eq!(Direction::Right.shift_col(2, 3), None);
    assert_eq!(Direction::Right.shift_col(0, 3), Some(1));
    assert_eq!(Direction::Up.shift_col(2, 3), Some(2));
    assert_eq!(Direction::Down.shift_col(0, 3), Some(0));
}
