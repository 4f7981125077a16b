use rand::rngs::SmallRng;
use rand::SeedableRng;
use wfc_engine::domain::{contains_tile, count_tiles, full_domain, single_domain};
use wfc_engine::engine::example_fits;
use wfc_engine::{Color, EngineError, WfcEngine};

const A: Color = Color { r: 10, g: 20, b: 30 };
const B: Color = Color { r: 50, g: 61, b: 70 };

fn build(input: &Vec<Vec<Color>>, output_size: usize, tile_size: usize) -> WfcEngine {
    match WfcEngine::new(input, output_size, tile_size, SmallRng::seed_from_u64(2024)) {
        Ok(engine) => engine,
        Err(e) => panic!("construction failed: {}", e.message()),
    }
}

fn single_cell_checkerboard() -> Vec<Vec<Color>> {
    vec![vec![A, B], vec![B, A]]
}

fn checkerboard() -> Vec<Vec<Color>> {
    vec![vec![A, B, A], vec![B, A, B], vec![A, B, A]]
}

fn stripes() -> Vec<Vec<Color>> {
    // A A B: tile A weighs 8, tile B weighs 4
    vec![vec![A, A, B]]
}

fn distinct_colors(n: usize) -> Vec<Vec<Color>> {
    vec![(0..n).map(|i| Color { r: (i % 256) as u8, g: (i / 256) as u8, b: 7 }).collect()]
}

fn assert_sound(engine: &WfcEngine) {
    let cells = engine.output_size() * engine.output_size();
    let image = engine.get_image_data();
    assert_eq!(image.len(), cells * 4);
    let mut collapsed = 0;
    for i in 0..cells {
        let mask = engine.domain_at(i);
        assert_ne!(mask, 0);
        assert_eq!(mask & full_domain(engine.tile_count()), mask);
        assert_eq!(engine.entropy_at(i), count_tiles(mask));
        if count_tiles(mask) == 1 {
            collapsed += 1;
        }
        assert_eq!(image[4 * i + 3], 255);
    }
    // the cached entropies agree with the domains
    assert_eq!(engine.get_collapsed_count(), collapsed);
}

#[test]
fn new_engine_is_fully_undetermined() {
    let engine = build(&single_cell_checkerboard(), 5, 1);
    assert_eq!(engine.output_size(), 5);
    assert_eq!(engine.tile_count(), 2);
    assert_eq!(engine.reset_radius(), 8);
    assert_eq!(engine.attempt_count(), 0);
    assert_eq!(engine.get_collapsed_count(), 0);
    for i in 0..25 {
        assert_eq!(engine.domain_at(i), 0b11);
        assert_eq!(engine.entropy_at(i), 2);
    }
    assert_sound(&engine);
}

#[test]
fn empty_board_is_done_at_once() {
    let mut engine = build(&single_cell_checkerboard(), 0, 1);
    assert_eq!(engine.get_collapsed_count(), 0);
    assert_eq!(engine.get_image_data(), Vec::<u8>::new());
    assert!(!engine.step());
}

#[test]
fn oversized_tile_set_is_refused() {
    match WfcEngine::new(&distinct_colors(129), 4, 1, SmallRng::seed_from_u64(1)) {
        Ok(_) => panic!("129 tiles were accepted"),
        Err(e) => {
            assert_eq!(e, EngineError::TooManyPatterns);
            assert_eq!(e.message(), "Too many unique patterns. Max 128.");
        },
    }
    match WfcEngine::new(&distinct_colors(300), 4, 1, SmallRng::seed_from_u64(1)) {
        Ok(_) => panic!("300 tiles were accepted"),
        Err(e) => assert_eq!(e, EngineError::TooManyPatterns),
    }
}

#[test]
fn largest_tile_set_fills_the_domain() {
    let engine = build(&distinct_colors(128), 3, 1);
    assert_eq!(engine.tile_count(), 128);
    for i in 0..9 {
        assert_eq!(engine.domain_at(i), u128::MAX);
    }
    assert_eq!(engine.get_collapsed_count(), 0);
    assert_sound(&engine);
}

#[test]
fn single_cell_checkerboard_runs_to_the_end() {
    for size in [1usize, 2, 3, 6] {
        let mut engine = build(&single_cell_checkerboard(), size, 1);
        let mut steps = 0;
        while engine.step() {
            steps += 1;
            assert_sound(&engine);
            assert_eq!(engine.get_collapsed_count(), steps);
            assert!(steps <= size * size);
        }
        assert_eq!(steps, size * size);
        assert_eq!(engine.get_collapsed_count(), size * size);
        // no contradiction was met
        assert_eq!(engine.attempt_count(), 0);
        assert_eq!(engine.reset_radius(), 8);
        assert!(!engine.step());
    }
}

#[test]
fn checkerboard_collapses_in_one_step() {
    for size in [1usize, 2, 5, 8] {
        let mut engine = build(&checkerboard(), size, 2);
        assert_eq!(engine.tile_count(), 2);
        assert!(engine.step());
        assert_eq!(engine.get_collapsed_count(), size * size);
        assert_eq!(engine.attempt_count(), 0);
        assert_eq!(engine.reset_radius(), 8);
        let first = engine.domain_at(0);
        for r in 0..size {
            for c in 0..size {
                let mask = engine.domain_at(r * size + c);
                if (r + c) % 2 == 0 {
                    assert_eq!(mask, first);
                } else {
                    assert_eq!(mask, first ^ 0b11);
                }
            }
        }
        assert_sound(&engine);
        assert!(!engine.step());
    }
}

#[test]
fn collapse_propagates_to_the_whole_checkerboard() {
    let mut engine = build(&checkerboard(), 4, 2);
    engine.collapse(5, 1);
    assert_eq!(engine.get_collapsed_count(), 16);
    for r in 0..4usize {
        for c in 0..4usize {
            // cell (1, 1) holds tile 1, so cells of equal parity do too
            let expected = if (r + c) % 2 == 0 { single_domain(1) } else { single_domain(0) };
            assert_eq!(engine.domain_at(r * 4 + c), expected);
        }
    }
    assert_eq!(engine.attempt_count(), 0);
}

#[test]
fn collapse_without_constraints_touches_one_cell() {
    let mut engine = build(&single_cell_checkerboard(), 4, 1);
    engine.collapse(6, 1);
    assert_eq!(engine.get_collapsed_count(), 1);
    for i in 0..16 {
        let expected = if i == 6 { 0b10 } else { 0b11 };
        assert_eq!(engine.domain_at(i), expected);
    }
}

#[test]
fn local_reset_opens_the_square_around_the_cell() {
    let size = 12usize;
    let mut engine = build(&single_cell_checkerboard(), size, 1);
    for i in 0..size * size {
        engine.collapse(i, i % 2);
    }
    assert_eq!(engine.get_collapsed_count(), size * size);
    engine.handle_contradiction(6, 5);
    assert_eq!(engine.attempt_count(), 1);
    assert_eq!(engine.reset_radius(), 8);
    // side 8: rows 2..10 and columns 1..9
    let mut open = 0;
    for r in 0..size {
        for c in 0..size {
            let inside = (2..10).contains(&r) && (1..9).contains(&c);
            let idx = r * size + c;
            let expected = if inside { 0b11 } else { single_domain(idx % 2) };
            assert_eq!(engine.domain_at(idx), expected);
            if inside {
                open += 1;
            }
        }
    }
    assert_eq!(open, 64);
    assert_eq!(engine.get_collapsed_count(), size * size - 64);
    assert_sound(&engine);
}

#[test]
fn local_reset_is_clipped_at_the_border() {
    let size = 12usize;
    let mut engine = build(&single_cell_checkerboard(), size, 1);
    for i in 0..size * size {
        engine.collapse(i, 0);
    }
    engine.handle_contradiction(0, 11);
    // rows -4..4 and columns 7..15, clipped: rows 0..4, columns 7..12
    for r in 0..size {
        for c in 0..size {
            let inside = r < 4 && c >= 7;
            let expected = if inside { 0b11 } else { 0b01 };
            assert_eq!(engine.domain_at(r * size + c), expected);
        }
    }
    assert_eq!(engine.get_collapsed_count(), size * size - 20);
}

#[test]
fn ninth_contradiction_widens_the_square() {
    let size = 20usize;
    let mut engine = build(&single_cell_checkerboard(), size, 1);
    engine.collapse(0, 0);
    for k in 1..=8usize {
        engine.handle_contradiction(19, 19);
        assert_eq!(engine.attempt_count(), k);
        assert_eq!(engine.reset_radius(), 8);
    }
    engine.handle_contradiction(19, 19);
    assert_eq!(engine.attempt_count(), 0);
    assert_eq!(engine.reset_radius(), 12);
    // the far corner was out of reach of every local reset
    assert_eq!(engine.domain_at(0), 0b01);
    assert_eq!(engine.get_collapsed_count(), 1);
    for _ in 0..9 {
        engine.handle_contradiction(19, 19);
    }
    assert_eq!(engine.reset_radius(), 16);
    for _ in 0..9 {
        engine.handle_contradiction(19, 19);
    }
    assert_eq!(engine.reset_radius(), 20);
    assert_eq!(engine.get_collapsed_count(), 1);
    // the square outgrows the board: everything is reset, the counters too
    for k in 1..=8usize {
        engine.handle_contradiction(19, 19);
        assert_eq!(engine.attempt_count(), k);
        assert_eq!(engine.get_collapsed_count(), 1);
    }
    engine.handle_contradiction(19, 19);
    assert_eq!(engine.get_collapsed_count(), 0);
    assert_eq!(engine.reset_radius(), 8);
    assert_eq!(engine.attempt_count(), 0);
    for i in 0..size * size {
        assert_eq!(engine.domain_at(i), 0b11);
    }
}

#[test]
fn small_board_is_reset_whole_on_the_ninth_contradiction() {
    let size = 10usize;
    let mut engine = build(&single_cell_checkerboard(), size, 1);
    engine.collapse(0, 1);
    for _ in 0..8 {
        engine.handle_contradiction(9, 9);
    }
    assert_eq!(engine.get_collapsed_count(), 1);
    assert_eq!(engine.attempt_count(), 8);
    engine.handle_contradiction(9, 9);
    assert_eq!(engine.get_collapsed_count(), 0);
    assert_eq!(engine.reset_radius(), 8);
    assert_eq!(engine.attempt_count(), 0);
}

#[test]
fn board_smaller_than_the_first_square_is_reset_whole() {
    let mut engine = build(&single_cell_checkerboard(), 4, 1);
    engine.collapse(0, 1);
    engine.collapse(15, 0);
    assert_eq!(engine.get_collapsed_count(), 2);
    engine.handle_contradiction(3, 3);
    assert_eq!(engine.get_collapsed_count(), 0);
    assert_eq!(engine.attempt_count(), 0);
    assert_eq!(engine.reset_radius(), 8);
}

#[test]
fn reset_restores_the_initial_board() {
    let mut engine = build(&single_cell_checkerboard(), 6, 1);
    for _ in 0..10 {
        assert!(engine.step());
    }
    assert_eq!(engine.get_collapsed_count(), 10);
    engine.handle_contradiction(0, 0);
    engine.reset();
    assert_eq!(engine.get_collapsed_count(), 0);
    assert_eq!(engine.reset_radius(), 8);
    assert_eq!(engine.attempt_count(), 0);
    for i in 0..36 {
        assert_eq!(engine.domain_at(i), 0b11);
    }
    engine.reset();
    assert_eq!(engine.get_collapsed_count(), 0);
    for i in 0..36 {
        assert_eq!(engine.domain_at(i), 0b11);
    }
    assert_eq!(engine.tile_count(), 2);
}

#[test]
fn reset_with_a_single_tile_leaves_every_cell_collapsed() {
    let input = vec![vec![A, A], vec![A, A]];
    let mut engine = build(&input, 3, 1);
    assert_eq!(engine.tile_count(), 1);
    assert_eq!(engine.get_collapsed_count(), 9);
    assert!(!engine.step());
    engine.reset();
    assert_eq!(engine.get_collapsed_count(), 9);
    for i in 0..9 {
        assert_eq!(engine.domain_at(i), 1);
    }
}

#[test]
fn display_color_is_the_mean_of_the_first_pixels() {
    let engine = build(&single_cell_checkerboard(), 2, 1);
    assert_eq!(engine.get_display_color(0b01), A);
    assert_eq!(engine.get_display_color(0b10), B);
    // (10 + 50) / 2, (20 + 61) / 2 rounded down, (30 + 70) / 2
    assert_eq!(engine.get_display_color(0b11), Color { r: 30, g: 40, b: 50 });
    // no tile left: the sentinel
    assert_eq!(engine.get_display_color(0), Color { r: 255, g: 0, b: 255 });
    // tiles beyond the tile set do not count
    assert_eq!(engine.get_display_color(0b100), Color { r: 255, g: 0, b: 255 });
    assert_eq!(engine.get_display_color(0b101), A);
}

#[test]
fn display_color_uses_the_top_left_pixel_of_each_tile() {
    let engine = build(&checkerboard(), 2, 2);
    assert_eq!(engine.get_display_color(0b01), A);
    assert_eq!(engine.get_display_color(0b10), B);
}

#[test]
fn image_data_is_rgba_row_by_row() {
    let mut engine = build(&single_cell_checkerboard(), 2, 1);
    assert_eq!(engine.get_image_data(), vec![30, 40, 50, 255, 30, 40, 50, 255, 30, 40, 50, 255, 30, 40, 50, 255]);
    engine.collapse(1, 0);
    engine.collapse(2, 1);
    assert_eq!(engine.get_image_data(), vec![30, 40, 50, 255, 10, 20, 30, 255, 50, 61, 70, 255, 30, 40, 50, 255]);
}

#[test]
fn find_lowest_entropy_picks_among_the_least() {
    let img = vec![vec![A, B, Color { r: 1, g: 1, b: 1 }]];
    let mut engine = build(&img, 3, 1);
    assert_eq!(engine.tile_count(), 3);
    // all tiles are compatible: collapsing narrows nothing else
    engine.collapse(4, 2);
    for _ in 0..50 {
        match engine.find_lowest_entropy() {
            Some(i) => assert!(i < 9 && i != 4),
            None => panic!("undetermined cells were not found"),
        }
    }
    for i in 0..9 {
        engine.collapse(i, 0);
    }
    assert_eq!(engine.find_lowest_entropy(), None);
}

#[test]
fn find_lowest_entropy_reaches_every_candidate() {
    let mut engine = build(&single_cell_checkerboard(), 2, 1);
    let mut seen = [false; 4];
    for _ in 0..400 {
        match engine.find_lowest_entropy() {
            Some(i) => seen[i] = true,
            None => panic!("undetermined cells were not found"),
        }
    }
    assert_eq!(seen, [true; 4]);
}

#[test]
fn observe_stays_inside_the_domain() {
    let mut engine = build(&distinct_colors(100), 2, 1);
    let masks: [u128; 4] = [1 << 99, 0b1010, (1 << 50) | (1 << 7), full_domain(100)];
    for mask in masks {
        for _ in 0..200 {
            let tile = engine.observe(mask);
            assert!(tile < 100);
            assert!(contains_tile(mask, tile));
        }
    }
    assert_eq!(engine.observe(0), 0);
    // tiles beyond the tile set are never chosen
    assert_eq!(engine.observe(1 << 100), 0);
}

#[test]
fn observe_follows_the_weights() {
    let mut engine = build(&stripes(), 2, 1);
    assert_eq!(engine.tile_count(), 2);
    let runs = 30000;
    let mut first = 0;
    for _ in 0..runs {
        let tile = engine.observe(0b11);
        assert!(tile < 2);
        if tile == 0 {
            first += 1;
        }
    }
    let share = first as f64 / runs as f64;
    assert!((share - 2.0 / 3.0).abs() < 0.03, "share of the heavier tile: {}", share);
}

#[test]
fn step_keeps_the_board_sound() {
    let img = vec![
        vec![A, B, A, A],
        vec![B, B, A, B],
        vec![A, A, B, B],
        vec![B, A, A, B],
    ];
    let mut engine = build(&img, 9, 2);
    let mut steps = 0;
    while steps < 300 && engine.step() {
        steps += 1;
        assert_sound(&engine);
    }
    assert!(steps > 0);
}

#[test]
fn every_seed_runs_to_the_end() {
    for seed in 0..20u64 {
        let rng = SmallRng::seed_from_u64(seed);
        let mut engine = match WfcEngine::new(&single_cell_checkerboard(), 5, 1, rng) {
            Ok(engine) => engine,
            Err(e) => panic!("construction failed: {}", e.message()),
        };
        let mut steps = 0;
        while engine.step() {
            steps += 1;
            assert!(steps <= 25);
        }
        assert_eq!(steps, 25);
        assert_eq!(engine.get_collapsed_count(), 25);
    }
}

#[test]
fn generator_from_the_system_works_too() {
    let mut engine = match WfcEngine::new(&checkerboard(), 4, 2, SmallRng::from_entropy()) {
        Ok(engine) => engine,
        Err(e) => panic!("construction failed: {}", e.message()),
    };
    assert!(engine.step());
    assert_eq!(engine.get_collapsed_count(), 16);
    assert!(!engine.step());
}

#[test]
fn example_fits_tests_the_shape_of_the_image() {
    let img = checkerboard();
    assert!(example_fits(&img, 10, 1));
    assert!(example_fits(&img, 0, 3));
    assert!(!example_fits(&img, 10, 0));
    assert!(!example_fits(&img, 10, 4));
    assert!(!example_fits(&Vec::new(), 10, 1));
    assert!(!example_fits(&vec![Vec::new()], 10, 1));
    // a tile must fit both ways
    assert!(example_fits(&stripes(), 10, 1));
    assert!(!example_fits(&stripes(), 10, 2));
    // rows of unequal length
    assert!(!example_fits(&vec![vec![A, B], vec![A]], 10, 1));
    assert!(!example_fits(&vec![vec![A], vec![A, B]], 10, 1));
}

#[test]
fn example_fits_tests_the_size_of_the_board() {
    let img = checkerboard();
    assert!(example_fits(&img, 1 << 16, 1));
    assert!(!example_fits(&img, usize::MAX, 1));
    assert!(!example_fits(&img, 1 << (usize::BITS / 2), 1));
    assert!(example_fits(&img, (1 << (usize::BITS / 2)) - 1, 1));
}
