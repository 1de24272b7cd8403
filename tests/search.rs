use tango_invariance_proof::generator::{AmbiguousGridGenerator, sorted_col_optimized};
use tango_invariance_proof::grid::Grid;
use tango_invariance_proof::line::LineError;
use tango_invariance_proof::remap::{
    col_optimized_color, col_optimized_sign, col_optimized_to_line_mask,
    line_to_col_optimized_mask,
};
use tango_invariance_proof::trie::LineMaskTrie;

#[test]
fn test_basic_trie() {
    let mut trie = LineMaskTrie::new();
    assert_eq!(trie.contains(0), false);
    assert_eq!(trie.has_prefix(0, 1), false);
    trie.insert(0);
    assert_eq!(trie.contains(0), true);
    assert_eq!(trie.has_prefix(0, 1), true);
}

#[test]
fn trie_prefixes_follow_inserted_values() {
    let mut trie = LineMaskTrie::new();
    // Highest chunk first: 0b10_01 followed by nine zero chunks.
    let value: u32 = 0b10_01 << 18;
    trie.insert(value);
    assert!(trie.contains(value));
    assert!(!trie.contains(0));
    assert!(trie.has_prefix(0b10, 1));
    assert!(trie.has_prefix(0b10_01, 2));
    assert!(!trie.has_prefix(0b01, 1));
    assert!(!trie.has_prefix(0b10_10, 2));
}

#[test]
fn generate_grid() {
    let grid = Grid::try_from(([1, 1, 2, 0, 0, 0], [1, 0, 0, 0, 0, 0]));
    println!("{}", grid.unwrap().to_string());
    let grid = Grid::try_from(([1, 2, 1, 0, 0, 0], [10, 0, 0, 0, 0, 0]));
    println!("{}", grid.unwrap().to_string());
}

#[test]
fn grid_text_shows_cells_and_signs() {
    let grid = Grid::try_from(([1, 1, 2, 0, 0, 0], [1, 0, 0, 0, 0, 0])).unwrap();
    let expected = "Grid { \n  =========================\n  \
| S | . | . | . | . | . |\n  | = + - + - + - + - + - |\n  \
| S | . | . | . | . | . |\n  | - + - + - + - + - + - |\n  \
| M | . | . | . | . | . |\n  | - + - + - + - + - + - |\n  \
| . | . | . | . | . | . |\n  | - + - + - + - + - + - |\n  \
| . | . | . | . | . | . |\n  | - + - + - + - + - + - |\n  \
| . | . | . | . | . | . |\n  =========================\n}";
    assert_eq!(grid.to_string(), expected);
}

#[test]
fn grid_rejects_bad_row_then_bad_column() {
    // Row 2 has three suns in a row.
    let r = Grid::try_from(([0, 0, 0b01_01_01, 0, 0, 0], [0, 0, 0, 0, 0, 0]));
    assert_eq!(r.err(), Some(LineError::TooManyConsecutives(0)));
    // Rows 0..3 color cell 0 with a sun: column 0 breaks the run rule.
    let r = Grid::try_from(([1, 1, 1, 0, 0, 0], [0, 0, 0, 0, 0, 0]));
    assert_eq!(r.err(), Some(LineError::TooManyConsecutives(0)));
    // Rows 0 and 1 color cell 0 with a sun and a moon; column 0 asks them equal.
    let r = Grid::try_from(([1, 2, 0, 0, 0, 0], [1, 0, 0, 0, 0, 0]));
    assert_eq!(r.err(), Some(LineError::EqualSignViolation(0)));
}

#[test]
fn remap_reverses_fields() {
    assert_eq!(line_to_col_optimized_mask(1), 1 << 20);
    assert_eq!(line_to_col_optimized_mask(0b10 << 20), 0b10);
    let m = (0b10_01 << 12) | 0b10_00_01;
    let r = line_to_col_optimized_mask(m);
    assert_ne!(r, m);
    assert_eq!(col_optimized_to_line_mask(r), m);
    assert_eq!(col_optimized_color(r, 0), 1);
    assert_eq!(col_optimized_color(r, 2), 2);
    assert_eq!(col_optimized_sign(r, 0), 1);
    assert_eq!(col_optimized_sign(r, 1), 2);
}

#[test]
fn remap_is_an_involution() {
    let mut m: i32 = 0;
    while m < (1 << 22) {
        assert_eq!(line_to_col_optimized_mask(line_to_col_optimized_mask(m)), m);
        m += 4099;
    }
}

#[test]
fn generator_keeps_only_fitting_rows() {
    // One line only: cells alternate sun and moon.
    let line: i32 = 0b10_01_10_01_10_01;
    let fixed = vec![line_to_col_optimized_mask(line)];
    let ambiguous: Vec<i32> = Vec::new();
    let mut generator = AmbiguousGridGenerator::new(&ambiguous, &fixed);
    generator.backtrack_rows();
    // Every column of six equal rows repeats one color six times.
    assert!(generator.grids.is_empty());
}

#[test]
fn generator_collects_grid_when_columns_fit() {
    let a: i32 = 0b10_01_10_01_10_01;
    let b: i32 = 0b01_10_01_10_01_10;
    let mut fixed = vec![line_to_col_optimized_mask(a), line_to_col_optimized_mask(b)];
    fixed.sort();
    let ambiguous: Vec<i32> = Vec::new();
    let mut generator = AmbiguousGridGenerator::new(&ambiguous, &fixed);
    generator.backtrack_rows();
    assert_eq!(generator.grids.len(), 2);
    assert_ne!(generator.grids[0], generator.grids[1]);
    assert_eq!(generator.rows, [0; 6]);
    assert_eq!(generator.row_depth, 0);
    for g in generator.grids.iter() {
        for r in 0..6 {
            assert!(g[r] == a || g[r] == b);
        }
    }
}

#[test]
fn catalog_remapped_and_sorted() {
    let masks = vec![1, 0b10, 1 << 20, 0b01_01 << 12];
    let r = sorted_col_optimized(&masks);
    assert_eq!(r, vec![1, 0b01_01 << 6, 1 << 20, 1 << 21]);
}
