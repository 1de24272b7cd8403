use vstd::prelude::*;

verus! {

/// The two-bit field `k` of a packed line mask: fields 0..6 hold the cell
/// colors, fields 6..11 the gap signs.
pub open spec fn field(m: i32, k: u32) -> i32 {
    (m >> (k + k)) & 3
}

/// Color of cell `i` (0 = empty, 1 = sun, 2 = moon).
pub open spec fn cell(m: i32, i: int) -> i32 {
    field(m, i as u32)
}

/// Sign of gap `i`, between cells `i` and `i + 1` (0 = none, 1 = equal, 2 = cross).
pub open spec fn gap(m: i32, i: int) -> i32 {
    field(m, (6 + i) as u32)
}

/// The mask with cell `i` set to color `c`, assuming the cell was empty.
pub open spec fn with_cell(m: i32, i: int, c: i32) -> i32 {
    m | (c << ((i + i) as u32))
}

/// The mask with cell `i` cleared.
pub open spec fn without_cell(m: i32, i: int) -> i32 {
    m & !(3i32 << ((i + i) as u32))
}

/// Number of cells among the first `n` that hold color `c`.
pub open spec fn count_in(m: i32, c: i32, n: int) -> nat
    decreases n,
{
    if n <= 0 {
        0
    } else {
        count_in(m, c, n - 1) + if cell(m, n - 1) == c { 1nat } else { 0nat }
    }
}

pub open spec fn count(m: i32, c: i32) -> nat {
    count_in(m, c, 6)
}

pub open spec fn colored_count(m: i32) -> nat {
    count(m, 1) + count(m, 2)
}

pub open spec fn colors_in_range(m: i32) -> bool {
    forall|i: int| 0 <= i < 6 ==> #[trigger] cell(m, i) != 3
}

pub open spec fn signs_in_range(m: i32) -> bool {
    forall|i: int| 0 <= i < 5 ==> #[trigger] gap(m, i) != 3
}

pub open spec fn triple_at(m: i32, i: int) -> bool {
    cell(m, i) != 0 && cell(m, i) == cell(m, i + 1) && cell(m, i) == cell(m, i + 2)
}

/// An equal sign between two colored cells of different colors.
pub open spec fn equal_violated(m: i32, i: int) -> bool {
    gap(m, i) == 1 && cell(m, i) != 0 && cell(m, i + 1) != 0 && cell(m, i) != cell(m, i + 1)
}

/// A cross sign between two colored cells of the same color.
pub open spec fn cross_violated(m: i32, i: int) -> bool {
    gap(m, i) == 2 && cell(m, i) != 0 && cell(m, i) == cell(m, i + 1)
}

/// The run rule at cell `i` and the sign rule at gap `i` hold.
pub open spec fn rules_hold_at(m: i32, i: int) -> bool {
    &&& i < 4 ==> !triple_at(m, i)
    &&& !equal_violated(m, i)
    &&& !cross_violated(m, i)
}

/// Every rule of a line holds of the mask.
pub open spec fn valid_line(m: i32) -> bool {
    &&& colors_in_range(m)
    &&& signs_in_range(m)
    &&& count(m, 1) <= 3
    &&& count(m, 2) <= 3
    &&& forall|i: int| 0 <= i < 5 ==> #[trigger] rules_hold_at(m, i)
}

/// The first run or sign rule broken at gap `i` or later.
pub open spec fn run_error_from(m: i32, i: int) -> Option<LineError>
    decreases 5 - i,
{
    if i < 0 || i >= 5 {
        None
    } else if i < 4 && triple_at(m, i) {
        Some(LineError::TooManyConsecutives(i as usize))
    } else if equal_violated(m, i) {
        Some(LineError::EqualSignViolation(i as usize))
    } else if cross_violated(m, i) {
        Some(LineError::CrossSignViolation(i as usize))
    } else {
        run_error_from(m, i + 1)
    }
}

/// The rule that a mask with codes in range breaks first, if any.
pub open spec fn rule_error(m: i32) -> Option<LineError> {
    if count(m, 1) > 3 {
        Some(LineError::TooManyYellows)
    } else if count(m, 2) > 3 {
        Some(LineError::TooManyBlues)
    } else {
        run_error_from(m, 0)
    }
}

/// The error that constructing a line from `m` reports, if any.
pub open spec fn line_error(m: i32) -> Option<LineError> {
    if !colors_in_range(m) {
        Some(LineError::InvalidColor(3))
    } else if !signs_in_range(m) {
        Some(LineError::InvalidSign(3))
    } else {
        rule_error(m)
    }
}

/// `f` agrees with `p` on the signs, on every bit above them, and on every
/// cell that `p` colors.
pub open spec fn extends(f: i32, p: i32) -> bool {
    &&& f >> 12u32 == p >> 12u32
    &&& forall|i: int| 0 <= i < 6 ==> #[trigger] cell(p, i) == 0 || cell(f, i) == cell(p, i)
}

pub proof fn lemma_field_range(m: i32, k: u32)
    ensures
        0 <= field(m, k) <= 3,
{
    assert(0 <= (m >> (k + k)) & 3 <= 3) by (bit_vector);
}

pub proof fn lemma_field_set(m: i32, i: u32, k: u32, c: i32)
    requires
        i < 11,
        k < 11,
        0 <= c < 4,
        field(m, i) == 0,
    ensures
        field(m | (c << (i + i)), k) == if k == i { c } else { field(m, k) },
        m | (c << (i + i)) >= m,
{
    assert(((m | (c << (i + i))) >> (k + k)) & 3 == if k == i { c } else { (m >> (k + k)) & 3 })
        by (bit_vector)
        requires
            i < 11,
            k < 11,
            0 <= c < 4,
            (m >> (i + i)) & 3 == 0,
    ;
    assert(m | (c << (i + i)) >= m) by (bit_vector)
        requires
            i < 11,
            0 <= c < 4,
    ;
}

pub proof fn lemma_field_clear(m: i32, i: u32, k: u32)
    requires
        i < 11,
        k < 11,
    ensures
        field(m & !(3i32 << (i + i)), k) == if k == i { 0 } else { field(m, k) },
{
    assert(((m & !(3i32 << (i + i))) >> (k + k)) & 3 == if k == i { 0 } else { (m >> (k + k)) & 3 })
        by (bit_vector)
        requires
            i < 11,
            k < 11,
    ;
}

pub proof fn lemma_clear_keeps_high(m: i32, i: u32)
    requires
        i < 6,
    ensures
        (m & !(3i32 << (i + i))) >> 12u32 == m >> 12u32,
{
    assert((m & !(3i32 << (i + i))) >> 12u32 == m >> 12u32) by (bit_vector)
        requires
            i < 6,
    ;
}

pub proof fn lemma_set_then_clear(m: i32, i: u32, c: i32)
    requires
        i < 11,
        0 <= c < 4,
        field(m, i) == 0,
    ensures
        (m | (c << (i + i))) & !(3i32 << (i + i)) == m,
        i < 6 ==> (m | (c << (i + i))) >> 12u32 == m >> 12u32,
{
    assert((m | (c << (i + i))) & !(3i32 << (i + i)) == m) by (bit_vector)
        requires
            i < 11,
            0 <= c < 4,
            (m >> (i + i)) & 3 == 0,
    ;
    assert(i < 6 ==> (m | (c << (i + i))) >> 12u32 == m >> 12u32) by (bit_vector)
        requires
            0 <= c < 4,
    ;
}

/// Gap fields are the fields above bit 12.
pub proof fn lemma_gap_high(m: i32, k: u32)
    requires
        6 <= k < 11,
    ensures
        field(m, k) == field(m >> 12u32, (k - 6) as u32),
{
    let j: u32 = (k - 6) as u32;
    assert((m >> (k + k)) & 3 == ((m >> 12u32) >> (j + j)) & 3) by (bit_vector)
        requires
            6 <= k < 11,
            j == k - 6,
    ;
}

/// Setting an empty field keeps a mask within the eleven fields.
pub proof fn lemma_set_in_range(m: i32, i: u32, c: i32)
    requires
        0 <= m < 0x400000,
        i < 11,
        0 <= c < 4,
    ensures
        0 <= m | (c << (i + i)) < 0x400000,
        0 <= m & !(3i32 << (i + i)) <= m,
{
    assert(0 <= m | (c << (i + i)) < 0x400000 && 0 <= m & !(3i32 << (i + i)) <= m) by (bit_vector)
        requires
            0 <= m < 0x400000,
            i < 11,
            0 <= c < 4,
    ;
}

/// A mask within the eleven fields is determined by them.
pub proof fn lemma_fields_determine(a: i32, b: i32)
    requires
        0 <= a < 0x400000,
        0 <= b < 0x400000,
        forall|k: u32| k < 11 ==> #[trigger] field(a, k) == field(b, k),
    ensures
        a == b,
{
    assert(field(a, 0) == field(b, 0) && field(a, 1) == field(b, 1) && field(a, 2) == field(b, 2));
    assert(field(a, 3) == field(b, 3) && field(a, 4) == field(b, 4) && field(a, 5) == field(b, 5));
    assert(field(a, 6) == field(b, 6) && field(a, 7) == field(b, 7) && field(a, 8) == field(b, 8));
    assert(field(a, 9) == field(b, 9) && field(a, 10) == field(b, 10));
    assert(a == b) by (bit_vector)
        requires
            0 <= a < 0x400000,
            0 <= b < 0x400000,
            (a >> 0u32) & 3 == (b >> 0u32) & 3,
            (a >> 2u32) & 3 == (b >> 2u32) & 3,
            (a >> 4u32) & 3 == (b >> 4u32) & 3,
            (a >> 6u32) & 3 == (b >> 6u32) & 3,
            (a >> 8u32) & 3 == (b >> 8u32) & 3,
            (a >> 10u32) & 3 == (b >> 10u32) & 3,
            (a >> 12u32) & 3 == (b >> 12u32) & 3,
            (a >> 14u32) & 3 == (b >> 14u32) & 3,
            (a >> 16u32) & 3 == (b >> 16u32) & 3,
            (a >> 18u32) & 3 == (b >> 18u32) & 3,
            (a >> 20u32) & 3 == (b >> 20u32) & 3,
    ;
}

/// A mask is determined by its six cells and the bits above them.
pub proof fn lemma_cells_determine(a: i32, b: i32)
    requires
        a >> 12u32 == b >> 12u32,
        forall|i: int| 0 <= i < 6 ==> #[trigger] cell(a, i) == cell(b, i),
    ensures
        a == b,
{
    assert(cell(a, 0) == cell(b, 0));
    assert(cell(a, 1) == cell(b, 1));
    assert(cell(a, 2) == cell(b, 2));
    assert(cell(a, 3) == cell(b, 3));
    assert(cell(a, 4) == cell(b, 4));
    assert(cell(a, 5) == cell(b, 5));
    assert(a == b) by (bit_vector)
        requires
            a >> 12u32 == b >> 12u32,
            (a >> 0u32) & 3 == (b >> 0u32) & 3,
            (a >> 2u32) & 3 == (b >> 2u32) & 3,
            (a >> 4u32) & 3 == (b >> 4u32) & 3,
            (a >> 6u32) & 3 == (b >> 6u32) & 3,
            (a >> 8u32) & 3 == (b >> 8u32) & 3,
            (a >> 10u32) & 3 == (b >> 10u32) & 3,
    ;
}

/// A line whose six cells are all empty has no colored cell, whatever its signs.
pub proof fn lemma_blank_line_uncolored(m: i32)
    requires
        forall|i: int| 0 <= i < 6 ==> #[trigger] cell(m, i) == 0,
    ensures
        colored_count(m) == 0,
{
    assert(count_in(m, 1, 6) == 0 && count_in(m, 2, 6) == 0) by {
        reveal_with_fuel(count_in, 7);
    }
}

/// Cells that only one of two masks changes shift its counts by one.
pub proof fn lemma_count_update(a: i32, b: i32, c: i32, j: int, n: int)
    requires
        0 <= j < 6,
        0 <= n <= 6,
        forall|i: int| 0 <= i < 6 && i != j ==> #[trigger] cell(a, i) == cell(b, i),
    ensures
        count_in(b, c, n) + (if j < n && cell(a, j) == c { 1int } else { 0int })
            == count_in(a, c, n) + (if j < n && cell(b, j) == c { 1int } else { 0int }),
    decreases n,
{
    if n > 0 {
        lemma_count_update(a, b, c, j, n - 1);
    }
}

/// Counts only grow along an extension.
pub proof fn lemma_count_mono(p: i32, f: i32, c: i32, n: int)
    requires
        c != 0,
        0 <= n <= 6,
        extends(f, p),
    ensures
        count_in(p, c, n) <= count_in(f, c, n),
    decreases n,
{
    if n > 0 {
        lemma_count_mono(p, f, c, n - 1);
        assert(cell(p, n - 1) == 0 || cell(f, n - 1) == cell(p, n - 1));
    }
}

/// Extending a mask never repairs a broken rule.
pub proof fn lemma_valid_of_extension(p: i32, f: i32)
    requires
        valid_line(f),
        extends(f, p),
    ensures
        valid_line(p),
{
    lemma_count_mono(p, f, 1, 6);
    lemma_count_mono(p, f, 2, 6);
    assert forall|i: int| 0 <= i < 5 implies #[trigger] gap(p, i) == gap(f, i) by {
        lemma_gap_high(p, (6 + i) as u32);
        lemma_gap_high(f, (6 + i) as u32);
    }
    assert forall|i: int| 0 <= i < 6 implies #[trigger] cell(p, i) != 3 by {
        assert(cell(p, i) == 0 || cell(f, i) == cell(p, i));
    }
    assert forall|i: int| 0 <= i < 5 implies #[trigger] rules_hold_at(p, i) by {
        assert(gap(p, i) == gap(f, i));
        assert(cell(p, i) == 0 || cell(f, i) == cell(p, i));
        assert(cell(p, i + 1) == 0 || cell(f, i + 1) == cell(p, i + 1));
        if i < 4 {
            assert(cell(p, i + 2) == 0 || cell(f, i + 2) == cell(p, i + 2));
        }
        assert(rules_hold_at(f, i));
    }
}

pub proof fn lemma_run_error_none(m: i32, i: int)
    requires
        0 <= i <= 5,
    ensures
        run_error_from(m, i) is None <==> (forall|j: int| i <= j < 5 ==> #[trigger] rules_hold_at(m, j)),
    decreases 5 - i,
{
    if i < 5 {
        lemma_run_error_none(m, i + 1);
        assert(run_error_from(m, i) is None <==> rules_hold_at(m, i) && run_error_from(m, i + 1) is None);
    }
}

/// Construction succeeds exactly on the masks that keep every rule.
pub proof fn lemma_line_error_none(m: i32)
    ensures
        line_error(m) is None <==> valid_line(m),
{
    lemma_run_error_none(m, 0);
}

/// Glyph of a cell color: sun, moon or empty.
pub open spec fn color_text(c: i32) -> Seq<char> {
    if c == 1 {
        "S"@
    } else if c == 2 {
        "M"@
    } else {
        "."@
    }
}

/// Glyph of a sign: equal, cross, or `none` for no sign.
pub open spec fn sign_text(s: i32, none: Seq<char>) -> Seq<char> {
    if s == 1 {
        "="@
    } else if s == 2 {
        "x"@
    } else {
        none
    }
}

/// The first `n` cells of a line, each followed by its gap's sign.
pub open spec fn line_cells_text(m: i32, n: int) -> Seq<char>
    decreases n,
{
    if n <= 0 {
        Seq::empty()
    } else {
        line_cells_text(m, n - 1) + color_text(cell(m, n - 1)) + sign_text(gap(m, n - 1), "|"@)
    }
}

/// The text of a line: `Line { S=M|.x...M }`.
pub open spec fn line_text(m: i32) -> Seq<char> {
    "Line { "@ + line_cells_text(m, 5) + color_text(cell(m, 5)) + " }"@
}

pub(crate) fn color_str(c: u8) -> (r: &'static str)
    ensures
        r@ == color_text(c as i32),
{
    if c == 1 {
        "S"
    } else if c == 2 {
        "M"
    } else {
        "."
    }
}

pub(crate) fn sign_str(s: u8, none: &'static str) -> (r: &'static str)
    ensures
        r@ == sign_text(s as i32, none@),
{
    if s == 1 {
        "="
    } else if s == 2 {
        "x"
    } else {
        none
    }
}

/// What a line reports when a rule is broken.
#[derive(Debug, Clone, Copy, PartialEq, Eq, Structural)]
pub enum LineError {
    TooManyYellows,
    TooManyBlues,
    TooManyConsecutives(usize),
    InvalidColor(u8),
    InvalidSign(u8),
    EqualSignViolation(usize),
    CrossSignViolation(usize),
}

/// One row or column: six cells and the five signs between them, packed as
/// in `field`, with the number of suns and moons kept beside the mask.
#[derive(Debug)]
pub struct Line {
    data: i32,
    yellow_count: u8,
    blue_count: u8,
}

impl View for Line {
    type V = i32;

    closed spec fn view(&self) -> i32 {
        self.data
    }
}

impl Line {
    pub const EMPTY: u8 = 0;

    pub const YELLOW: u8 = 1;

    pub const BLUE: u8 = 2;

    pub const EQUAL: u8 = 1;

    pub const CROSS: u8 = 2;

    pub const DIM: u8 = 6;

    #[verifier::type_invariant]
    closed spec fn inv(&self) -> bool {
        &&& valid_line(self.data)
        &&& self.yellow_count == count(self.data, 1)
        &&& self.blue_count == count(self.data, 2)
    }

    /// Builds the line packed in `value`, or reports the first rule it breaks.
    pub fn try_from(value: i32) -> (r: Result<Line, LineError>)
        ensures
            r matches Ok(l) ==> line_error(value) is None && l@ == value,
            r matches Err(e) ==> line_error(value) == Some(e),
    {
        let mut yellow_count: u8 = 0;
        let mut blue_count: u8 = 0;
        let mut i: usize = 0;
        while i < 6
            invariant
                0 <= i <= 6,
                yellow_count == count_in(value, 1, i as int),
                blue_count == count_in(value, 2, i as int),
                yellow_count + blue_count <= i,
                forall|j: int| 0 <= j < i ==> #[trigger] cell(value, j) != 3,
            decreases 6 - i,
        {
            let color = Self::mask_color(value, i);
            if color == Self::YELLOW {
                yellow_count += 1;
            } else if color == Self::BLUE {
                blue_count += 1;
            } else if color != Self::EMPTY {
                proof {
                    lemma_field_range(value, i as u32);
                }
                return Err(LineError::InvalidColor(color));
            }
            i += 1;
        }
        let mut g: usize = 0;
        while g < 5
            invariant
                0 <= g <= 5,
                colors_in_range(value),
                forall|j: int| 0 <= j < g ==> #[trigger] gap(value, j) != 3,
            decreases 5 - g,
        {
            let sign = Self::mask_field(value, g + 6);
            if sign != Self::EQUAL && sign != Self::CROSS && sign != Self::EMPTY {
                proof {
                    lemma_field_range(value, (g + 6) as u32);
                    assert(gap(value, g as int) == 3);
                }
                return Err(LineError::InvalidSign(sign));
            }
            g += 1;
        }
        match Self::validate(value, yellow_count, blue_count) {
            Ok(_) => {
                proof {
                    lemma_line_error_none(value);
                }
                Ok(Line { data: value, yellow_count, blue_count })
            },
            Err(e) => Err(e),
        }
    }

    /// Checks the count, run and sign rules of a mask whose codes are in range.
    pub fn validate(data: i32, yellow_count: u8, blue_count: u8) -> (r: Result<(), LineError>)
        requires
            colors_in_range(data),
            signs_in_range(data),
            yellow_count == count(data, 1),
            blue_count == count(data, 2),
        ensures
            r is Ok <==> rule_error(data) is None,
            r matches Err(e) ==> rule_error(data) == Some(e),
    {
        if yellow_count > 3 {
            return Err(LineError::TooManyYellows);
        }
        if blue_count > 3 {
            return Err(LineError::TooManyBlues);
        }
        let mut i: usize = 0;
        while i < 4
            invariant
                0 <= i <= 4,
                colors_in_range(data),
                count(data, 1) <= 3,
                count(data, 2) <= 3,
                run_error_from(data, 0) == run_error_from(data, i as int),
            decreases 4 - i,
        {
            let c = Self::mask_color(data, i);
            if c != Self::EMPTY && c == Self::mask_color(data, i + 1) && c == Self::mask_color(
                data,
                i + 2,
            ) {
                return Err(LineError::TooManyConsecutives(i));
            }
            Self::validate_sign(data, i)?;
            i += 1;
        }
        Self::validate_sign(data, 4)?;
        assert(run_error_from(data, 5) is None);
        Ok(())
    }

    /// Checks the sign of gap `i` against its two cells.
    pub fn validate_sign(data: i32, i: usize) -> (r: Result<(), LineError>)
        requires
            i < 5,
            colors_in_range(data),
        ensures
            r is Ok <==> !equal_violated(data, i as int) && !cross_violated(data, i as int),
            r matches Err(e) ==> (equal_violated(data, i as int) && e
                == LineError::EqualSignViolation(i)) || (!equal_violated(data, i as int)
                && cross_violated(data, i as int) && e == LineError::CrossSignViolation(i)),
    {
        let sign = Self::mask_field(data, i + 6);
        let before = Self::mask_color(data, i);
        let after = Self::mask_color(data, i + 1);
        let both_colored = before != Self::EMPTY && after != Self::EMPTY;
        if sign == Self::EQUAL && both_colored && before != after {
            Err(LineError::EqualSignViolation(i))
        } else if sign == Self::CROSS && both_colored && before == after {
            Err(LineError::CrossSignViolation(i))
        } else {
            Ok(())
        }
    }

    /// Reads field `k` of a mask.
    fn mask_field(mask: i32, k: usize) -> (r: u8)
        requires
            k < 11,
        ensures
            r as i32 == field(mask, k as u32),
            r <= 3,
    {
        let s: u32 = (k as u32) * 2;
        proof {
            lemma_field_range(mask, k as u32);
        }
        ((mask >> s) & 3) as u8
    }

    pub fn color(&self, i: usize) -> (r: u8)
        requires
            i < 6,
        ensures
            r as i32 == cell(self@, i as int),
    {
        Self::mask_color(self.data, i)
    }

    pub fn mask_color(mask: i32, i: usize) -> (r: u8)
        requires
            i < 6,
        ensures
            r as i32 == cell(mask, i as int),
            r <= 3,
    {
        Self::mask_field(mask, i)
    }

    /// Colors cell `i` if it is empty and the line still keeps every rule;
    /// otherwise leaves the line as it was.
    pub fn set_color(&mut self, i: usize, color: u8) -> (r: bool)
        requires
            i < 6,
            color == Self::YELLOW || color == Self::BLUE,
        ensures
            r == (cell(old(self)@, i as int) == 0 && valid_line(
                with_cell(old(self)@, i as int, color as i32),
            )),
            final(self)@ == if r {
                with_cell(old(self)@, i as int, color as i32)
            } else {
                old(self)@
            },
            valid_line(final(self)@),
    {
        proof {
            use_type_invariant(&*self);
        }
        let new_data = Self::mask_set_color(self.data, i, color);
        if new_data != self.data {
            let m = self.data;
            proof {
                assert forall|k: int| 0 <= k < 6 && k != i implies #[trigger] cell(new_data, k)
                    == cell(m, k) by {
                    lemma_field_set(m, i as u32, k as u32, color as i32);
                }
                lemma_field_set(m, i as u32, i as u32, color as i32);
                lemma_count_update(m, new_data, 1, i as int, 6);
                lemma_count_update(m, new_data, 2, i as int, 6);
                assert forall|k: int| 0 <= k < 5 implies #[trigger] gap(new_data, k) == gap(
                    m,
                    k,
                ) by {
                    lemma_field_set(m, i as u32, (6 + k) as u32, color as i32);
                }
                assert forall|k: int| 0 <= k < 6 implies #[trigger] cell(new_data, k) != 3 by {
                    lemma_field_set(m, i as u32, k as u32, color as i32);
                }
            }
            let (yellow_count, blue_count) = if color == Self::YELLOW {
                (self.yellow_count + 1, self.blue_count)
            } else {
                (self.yellow_count, self.blue_count + 1)
            };
            match Self::validate(new_data, yellow_count, blue_count) {
                Ok(_) => {
                    proof {
                        lemma_line_error_none(new_data);
                    }
                    *self = Line { data: new_data, yellow_count, blue_count };
                    true
                },
                Err(_) => {
                    proof {
                        lemma_line_error_none(new_data);
                    }
                    false
                },
            }
        } else {
            proof {
                if cell(self.data, i as int) == 0 {
                    lemma_field_set(self.data, i as u32, i as u32, color as i32);
                }
            }
            false
        }
    }

    /// The mask with cell `i` colored, if that cell is empty; else the mask.
    pub fn mask_set_color(mask: i32, i: usize, color: u8) -> (r: i32)
        requires
            i < 6,
            color == Self::YELLOW || color == Self::BLUE,
        ensures
            r == if cell(mask, i as int) == 0 {
                with_cell(mask, i as int, color as i32)
            } else {
                mask
            },
    {
        let offset: u32 = (i as u32) * 2;
        let old_color_mask = mask & (3i32 << offset);
        assert(old_color_mask == 0 <==> (mask >> offset) & 3 == 0) by (bit_vector)
            requires
                old_color_mask == mask & (3i32 << offset),
                offset < 12,
        ;
        if old_color_mask == 0 {
            mask | ((color as i32) << offset)
        } else {
            mask
        }
    }

    /// Clears cell `i`, which holds `color`.
    pub fn uncolor(&mut self, i: usize, color: u8)
        requires
            i < 6,
            color == Self::YELLOW || color == Self::BLUE,
            cell(old(self)@, i as int) == color as i32,
        ensures
            final(self)@ == without_cell(old(self)@, i as int),
    {
        proof {
            use_type_invariant(&*self);
        }
        let m = self.data;
        let offset: u32 = (i as u32) * 2;
        let new_data = m & !(3i32 << offset);
        proof {
            assert forall|k: int| 0 <= k < 6 && k != i implies #[trigger] cell(new_data, k)
                == cell(m, k) by {
                lemma_field_clear(m, i as u32, k as u32);
            }
            lemma_field_clear(m, i as u32, i as u32);
            lemma_count_update(m, new_data, 1, i as int, 6);
            lemma_count_update(m, new_data, 2, i as int, 6);
            lemma_clear_keeps_high(m, i as u32);
            lemma_valid_of_extension(new_data, m);
        }
        let (yellow_count, blue_count) = if color == Self::YELLOW {
            (self.yellow_count - 1, self.blue_count)
        } else {
            (self.yellow_count, self.blue_count - 1)
        };
        *self = Line { data: new_data, yellow_count, blue_count };
    }

    pub fn sign(&self, i: usize) -> (r: u8)
        requires
            i < 5,
        ensures
            r as i32 == gap(self@, i as int),
    {
        Self::mask_field(self.data, i + 6)
    }

    pub fn full_mask(&self) -> (r: i32)
        ensures
            r == self@,
            valid_line(r),
    {
        proof {
            use_type_invariant(self);
        }
        self.data
    }

    pub fn color_mask(&self) -> (r: i32)
        ensures
            r == self@ & 0xFFF,
    {
        Self::mask_color_mask(self.data)
    }

    pub fn mask_color_mask(mask: i32) -> (r: i32)
        ensures
            r == mask & 0xFFF,
    {
        mask & 0xFFF
    }

    /// The line as text, for diagnostics.
    pub fn to_string(&self) -> (r: String)
        ensures
            r@ == line_text(self@),
    {
        let mut s = String::new();
        s.append("Line { ");
        let mut i: usize = 0;
        while i < 5
            invariant
                0 <= i <= 5,
                s@ == "Line { "@ + line_cells_text(self@, i as int),
            decreases 5 - i,
        {
            s.append(color_str(self.color(i)));
            s.append(sign_str(self.sign(i), "|"));
            proof {
                assert(s@ =~= "Line { "@ + line_cells_text(self@, i + 1));
            }
            i += 1;
        }
        s.append(color_str(self.color(5)));
        s.append(" }");
        s
    }

    pub fn colored_cell_count(&self) -> (r: u8)
        ensures
            r == colored_count(self@),
    {
        proof {
            use_type_invariant(self);
        }
        self.yellow_count + self.blue_count
    }
}

} // verus!
