use std::collections::HashSet;

use crossgrid::{generate, word_slots, Direction, GenerateError, UNIT};

/// The density `ratio` in the generator's units of 2^-53.
fn units(ratio: f64) -> u64 {
    (ratio * UNIT as f64).ceil() as u64
}

#[test]
fn generator_rejects_zero_dimensions() {
    assert_eq!(generate(0, 5, units(0.2), 1).unwrap_err(), GenerateError::InvalidDimensions);
    assert_eq!(generate(5, 0, units(0.2), 1).unwrap_err(), GenerateError::InvalidDimensions);
}

#[test]
fn rejects_out_of_range_ratio() {
    assert_eq!(generate(5, 5, UNIT + 1, 1).unwrap_err(), GenerateError::InvalidRatio);
    assert_eq!(generate(5, 5, u64::MAX, 1).unwrap_err(), GenerateError::InvalidRatio);
}

#[test]
fn zero_dimensions_are_reported_before_the_ratio() {
    assert_eq!(generate(0, 0, u64::MAX, 1).unwrap_err(), GenerateError::InvalidDimensions);
}

#[test]
fn same_seed_produces_same_layout() {
    let a = generate(9, 9, units(0.2), 42).unwrap();
    let b = generate(9, 9, units(0.2), 42).unwrap();
    assert_eq!(a, b);
}

#[test]
fn different_seeds_can_differ() {
    let a = generate(11, 11, units(0.25), 1).unwrap();
    let b = generate(11, 11, units(0.25), 2).unwrap();
    assert_ne!(a, b);
}

#[test]
fn generated_layouts_are_symmetric() {
    for seed in 0..5 {
        let grid = generate(13, 11, units(0.18), seed).unwrap();
        assert!(grid.has_180_symmetry());
    }
}

#[test]
fn zero_ratio_yields_no_black_squares() {
    let grid = generate(6, 6, units(0.0), 7).unwrap();
    assert_eq!(grid.black_count(), 0);
}

#[test]
fn full_ratio_yields_all_black_squares() {
    let grid = generate(6, 6, units(1.0), 7).unwrap();
    assert_eq!(grid.black_count(), 36);
}

#[test]
fn single_cell_at_zero_ratio_is_boxed_in_and_black() {
    let grid = generate(1, 1, 0, 3).unwrap();
    assert_eq!(grid.black_count(), 1);
}

#[test]
fn every_white_cell_belongs_to_a_word() {
    for seed in 0..8 {
        let grid = generate(15, 15, units(0.22), seed).unwrap();
        let mut covered = HashSet::new();
        for slot in word_slots(&grid) {
            for i in 0..slot.length {
                let cell = match slot.direction {
                    Direction::Across => (slot.row, slot.col + i),
                    Direction::Down => (slot.row + i, slot.col),
                };
                covered.insert(cell);
            }
        }
        for row in 0..grid.height() {
            for col in 0..grid.width() {
                if !grid.is_black(row, col) {
                    assert!(covered.contains(&(row, col)), "cell ({row}, {col}) is not part of any word");
                }
            }
        }
    }
}

#[test]
fn first_coin_matches_splitmix64() {
    // SplitMix64 from seed 0: the first output is 0xE220A8397B1DCDAF, whose
    // top 53 bits are the first coin. A 1x2 grid draws exactly one coin,
    // for the pair of its two cells.
    let first = 0xE220_A839_7B1D_CDAFu64 >> 11;
    assert_eq!(generate(1, 2, first + 1, 0).unwrap().black_count(), 2);
    assert_eq!(generate(1, 2, first, 0).unwrap().black_count(), 0);
}

#[test]
fn generate_error_messages() {
    assert_eq!(GenerateError::InvalidDimensions.message(), "width and height must both be at least 1");
    assert_eq!(GenerateError::InvalidRatio.message(), "black_ratio must be between 0.0 and 1.0");
}

#[test]
fn higher_density_only_adds_black_squares() {
    let low = generate(13, 13, units(0.1), 5).unwrap();
    let high = generate(13, 13, units(0.3), 5).unwrap();
    for row in 0..13 {
        for col in 0..13 {
            if low.is_black(row, col) {
                assert!(high.is_black(row, col));
            }
        }
    }
    assert!(low.black_count() <= high.black_count());
}
