use tango_invariance_proof::catalog::{
    consolidate_mask, generate_ambiguous_and_fixed_line_masks, generate_ambiguous_line_masks,
    ternary_to_encoded_binary,
};
use tango_invariance_proof::line::{Line, LineError};
use tango_invariance_proof::solver::{solve_line, solve_mask};

#[test]
fn instantiate_blank_lines() {
    for i in 0..(3 as i32).pow(5) {
        let line = Line::try_from(ternary_to_encoded_binary(i) << 12).unwrap();
        assert_eq!(line.colored_cell_count(), 0);
    }
}

#[test]
fn colorize_sign_free_line() {
    let mut line = Line::try_from(1).unwrap();
    assert_eq!(line.set_color(0, Line::YELLOW), false);
    assert_eq!(line.set_color(0, Line::BLUE), false);
    assert_eq!(line.set_color(1, Line::YELLOW), true);
    assert_eq!(line.set_color(1, Line::BLUE), false);
    assert_eq!(line.set_color(2, Line::YELLOW), false);
    assert_eq!(line.set_color(2, Line::BLUE), true);
    assert_eq!(line.set_color(3, Line::YELLOW), true);
    assert_eq!(line.set_color(4, Line::YELLOW), false);
    assert_eq!(line.set_color(5, Line::YELLOW), false);
    assert_eq!(line.set_color(4, Line::BLUE), true);
    assert_eq!(line.set_color(4, Line::BLUE), false);
    assert_eq!(line.set_color(5, Line::BLUE), true);
}

#[test]
fn colorize_signed_line() {
    let mut line = Line::try_from((0b101001 << 12) | 1).unwrap();
    assert_eq!(line.set_color(0, Line::YELLOW), false);
    assert_eq!(line.set_color(0, Line::BLUE), false);
    assert_eq!(line.set_color(1, Line::YELLOW), true);
    assert_eq!(line.set_color(1, Line::BLUE), false);
    assert_eq!(line.set_color(2, Line::YELLOW), false);
    assert_eq!(line.set_color(2, Line::BLUE), true);
    assert_eq!(line.set_color(3, Line::BLUE), false);
    assert_eq!(line.set_color(3, Line::YELLOW), true);
    assert_eq!(line.set_color(4, Line::YELLOW), false);
    assert_eq!(line.set_color(5, Line::YELLOW), false);
    assert_eq!(line.set_color(4, Line::BLUE), true);
    assert_eq!(line.set_color(4, Line::BLUE), false);
    assert_eq!(line.set_color(5, Line::BLUE), true);
}

#[test]
fn solve_blank_line() {
    let solutions = solve_mask(0);
    assert_eq!(solutions.unwrap().len(), 14);
}

#[test]
fn solve_one_mark_line() {
    let solutions = solve_mask(1);
    assert_eq!(solutions.unwrap().len(), 7);
}

#[test]
fn solve_some_equals_line() {
    let solutions = solve_mask(0b00_00_01_00_01_00_00_00_00_00_00);
    assert_eq!(solutions.unwrap().len(), 2);
}

#[test]
fn solve_some_crosses_line() {
    let solutions = solve_mask(0b00_00_10_00_10_00_00_00_00_00_00);
    assert_eq!(solutions.unwrap().len(), 8);
}

#[test]
fn consolidate_lines() {
    assert_eq!(consolidate_mask(0).unwrap(), 0);
    assert_eq!(consolidate_mask(0b01_01).unwrap(), 0b_10_00_00_10_00_00);
    assert_eq!(consolidate_mask(0b01_01_01), Err(LineError::TooManyConsecutives(0)));
    assert_eq!(
        consolidate_mask(0b00_00_00_01_00_00_10_00_00_00_00).unwrap(),
        0b01_00_00_00_00_00
    );
}

#[test]
fn generate_ambiguities() {
    let ambiguities = generate_ambiguous_line_masks();
    assert_eq!(ambiguities.len(), 858);
}

#[test]
fn rejected_color_leaves_line_unchanged() {
    let mut line = Line::try_from(0b01_01).unwrap();
    let before = line.full_mask();
    assert_eq!(line.set_color(2, Line::YELLOW), false);
    assert_eq!(line.full_mask(), before);
    assert_eq!(line.colored_cell_count(), 2);
    assert_eq!(line.set_color(2, Line::BLUE), true);
    assert_eq!(line.full_mask(), 0b10_01_01);
}

#[test]
fn uncolor_restores_mask() {
    let mut line = Line::try_from(0b10_01).unwrap();
    assert_eq!(line.set_color(3, Line::YELLOW), true);
    line.uncolor(3, Line::YELLOW);
    assert_eq!(line.full_mask(), 0b10_01);
    assert_eq!(line.colored_cell_count(), 2);
}

#[test]
fn construction_errors() {
    assert_eq!(Line::try_from(0b11).err(), Some(LineError::InvalidColor(3)));
    assert_eq!(Line::try_from(0b11 << 14).err(), Some(LineError::InvalidSign(3)));
    assert_eq!(Line::try_from(0b00_01_01_00_01_01).err(), Some(LineError::TooManyYellows));
    assert_eq!(Line::try_from(0b00_10_10_00_10_10).err(), Some(LineError::TooManyBlues));
    assert_eq!(Line::try_from((0b01 << 14) | 0b10_01_00).err(), Some(LineError::EqualSignViolation(1)));
    assert_eq!(Line::try_from((0b10 << 12) | 0b01_01).err(), Some(LineError::CrossSignViolation(0)));
    assert_eq!(Line::try_from(0b10_10_10_00).err(), Some(LineError::TooManyConsecutives(1)));
}

#[test]
fn accessors_read_fields() {
    let line = Line::try_from((0b10_01 << 16) | 0b10_01).unwrap();
    assert_eq!(line.color(0), Line::YELLOW);
    assert_eq!(line.color(1), Line::BLUE);
    assert_eq!(line.color(2), Line::EMPTY);
    assert_eq!(line.sign(0), 0);
    assert_eq!(line.sign(2), Line::EQUAL);
    assert_eq!(line.sign(3), Line::CROSS);
    assert_eq!(line.color_mask(), 0b10_01);
    assert_eq!(Line::mask_color_mask((0b10_01 << 16) | 0b10_01), 0b10_01);
}

#[test]
fn solutions_are_full_and_distinct() {
    let solutions = solve_mask(0).unwrap();
    for (i, s) in solutions.iter().enumerate() {
        let line = Line::try_from(*s).unwrap();
        assert_eq!(line.colored_cell_count(), 6);
        for t in solutions.iter().skip(i + 1) {
            assert_ne!(s, t);
        }
    }
}

#[test]
fn unsatisfiable_and_full_lines_classify() {
    assert_eq!(consolidate_mask(0b10_01_10_01_10_01).unwrap(), -1);
    // Suns at cells 0, 1 and 5 leave three moons in a row for cells 2..5.
    assert_eq!(consolidate_mask((0b01 << 10) | 0b01_01).unwrap(), -2);
}

#[test]
fn ternary_encoding_values() {
    assert_eq!(ternary_to_encoded_binary(0), 0);
    assert_eq!(ternary_to_encoded_binary(5), 0b01_10);
    assert_eq!(ternary_to_encoded_binary(177146), 0x2AAAAA);
}

#[test]
fn fixed_catalog_is_full_and_valid() {
    let (ambiguous, fixed) = generate_ambiguous_and_fixed_line_masks();
    assert_eq!(ambiguous.len(), 858);
    assert!(!fixed.is_empty());
    for m in fixed.iter() {
        assert_eq!(Line::try_from(*m).unwrap().colored_cell_count(), 6);
    }
}

#[test]
fn line_text_shows_cells_and_signs() {
    let line = Line::try_from((0b10_01 << 16) | 0b10_01).unwrap();
    assert_eq!(line.to_string(), "Line { S|M|.=.x.|. }");
}

#[test]
fn blank_lines_with_signs_have_no_colored_cell() {
    let line = Line::try_from(0b10_01_00_10_01 << 12).unwrap();
    assert_eq!(line.colored_cell_count(), 0);
}

#[test]
fn solutions_in_depth_first_order() {
    let solutions = solve_mask(0).unwrap();
    // Sun before moon at each empty cell: S S M S M M comes first,
    // M M S M S S last.
    assert_eq!(solutions[0], 0b10_10_01_10_01_01);
    assert_eq!(solutions[solutions.len() - 1], 0b01_01_10_01_10_10);
    let mut line = Line::try_from(1).unwrap();
    assert_eq!(solve_line(&mut line).unwrap(), solve_mask(1).unwrap());
    assert_eq!(line.full_mask(), 1);
}
