use vstd::prelude::*;

use crate::line::{Line, LineError, cell, color_str, color_text, gap, line_error, sign_str, sign_text};

verus! {

/// The colors of column `c` over the first `n` rows, cell `j` taken from row `j`.
pub open spec fn column_colors(rows: Seq<i32>, c: int, n: int) -> i32
    decreases n,
{
    if n <= 0 {
        0
    } else {
        column_colors(rows, c, n - 1) | (cell(rows[n - 1], c) << ((2 * (n - 1)) as u32))
    }
}

/// The line mask of column `c`: its signs from `signs`, its colors from the rows.
pub open spec fn column_mask(rows: Seq<i32>, signs: i32, c: int) -> i32 {
    (signs << 12u32) | column_colors(rows, c, 6)
}

/// The first of the six masks that does not make a line, if any.
pub open spec fn first_error(masks: Seq<i32>, from: int) -> Option<LineError>
    decreases 6 - from,
{
    if from < 0 || from >= 6 {
        None
    } else if line_error(masks[from]) is Some {
        line_error(masks[from])
    } else {
        first_error(masks, from + 1)
    }
}

/// The six column masks of a grid.
pub open spec fn column_masks(rows: Seq<i32>, signs: Seq<i32>) -> Seq<i32> {
    Seq::new(6, |c: int| column_mask(rows, signs[c], c))
}

/// The first `n` cells of a row, each followed by its gap's sign.
pub open spec fn row_cells_text(m: i32, n: int) -> Seq<char>
    decreases n,
{
    if n <= 0 {
        Seq::empty()
    } else {
        row_cells_text(m, n - 1) + " "@ + color_text(cell(m, n - 1)) + " "@ + sign_text(
            gap(m, n - 1),
            "|"@,
        )
    }
}

/// One board row: `  | S = M x . | ... M |`.
pub open spec fn row_text(m: i32) -> Seq<char> {
    "  |"@ + row_cells_text(m, 5) + " "@ + color_text(cell(m, 5)) + " |\n"@
}

/// The signs of gap `i` of the first `n` columns.
pub open spec fn col_signs_cells_text(cols: Seq<i32>, i: int, n: int) -> Seq<char>
    decreases n,
{
    if n <= 0 {
        Seq::empty()
    } else {
        col_signs_cells_text(cols, i, n - 1) + " "@ + sign_text(gap(cols[n - 1], i), "-"@) + " +"@
    }
}

/// The column signs between board rows `i` and `i + 1`.
pub open spec fn col_signs_text(cols: Seq<i32>, i: int) -> Seq<char> {
    "  |"@ + col_signs_cells_text(cols, i, 5) + " "@ + sign_text(gap(cols[5], i), "-"@) + " |\n"@
}

/// The first `n` board rows, each followed by the column signs below it.
pub open spec fn board_text(rows: Seq<i32>, cols: Seq<i32>, n: int) -> Seq<char>
    decreases n,
{
    if n <= 0 {
        Seq::empty()
    } else {
        board_text(rows, cols, n - 1) + row_text(rows[n - 1]) + col_signs_text(cols, n - 1)
    }
}

/// The text of a grid: rows with their signs, column signs between them.
pub open spec fn grid_text(rows: Seq<i32>, cols: Seq<i32>) -> Seq<char> {
    "Grid { \n"@ + "  =========================\n"@ + board_text(rows, cols, 5) + row_text(rows[5])
        + "  =========================\n"@ + "}"@
}

/// A 6 x 6 board: six row lines and the six column lines that their colors
/// and the column signs make.
pub struct Grid {
    rows: Vec<Line>,
    cols: Vec<Line>,
}

impl Grid {
    #[verifier::type_invariant]
    closed spec fn inv(&self) -> bool {
        self.rows@.len() == 6 && self.cols@.len() == 6
    }

    /// The masks of the six rows.
    pub closed spec fn row_masks(&self) -> Seq<i32> {
        Seq::new(6, |i: int| self.rows@[i]@)
    }

    /// The masks of the six columns.
    pub closed spec fn col_masks(&self) -> Seq<i32> {
        Seq::new(6, |i: int| self.cols@[i]@)
    }

    fn append_row(s: &mut String, line: &Line)
        ensures
            final(s)@ == old(s)@ + row_text(line@),
    {
        s.append("  |");
        let ghost start = s@;
        let mut j: usize = 0;
        while j < 5
            invariant
                0 <= j <= 5,
                start == old(s)@ + "  |"@,
                s@ == start + row_cells_text(line@, j as int),
            decreases 5 - j,
        {
            s.append(" ");
            s.append(color_str(line.color(j)));
            s.append(" ");
            s.append(sign_str(line.sign(j), "|"));
            proof {
                assert(s@ =~= start + row_cells_text(line@, j + 1));
            }
            j += 1;
        }
        s.append(" ");
        s.append(color_str(line.color(5)));
        s.append(" |\n");
        proof {
            assert(s@ =~= old(s)@ + row_text(line@));
        }
    }

    fn append_col_signs(&self, s: &mut String, i: usize)
        requires
            self.cols@.len() == 6,
            i < 5,
        ensures
            final(s)@ == old(s)@ + col_signs_text(self.col_masks(), i as int),
    {
        let ghost cols = self.col_masks();
        s.append("  |");
        let ghost start = s@;
        let mut j: usize = 0;
        while j < 5
            invariant
                0 <= j <= 5,
                i < 5,
                self.cols@.len() == 6,
                cols == self.col_masks(),
                start == old(s)@ + "  |"@,
                s@ == start + col_signs_cells_text(cols, i as int, j as int),
            decreases 5 - j,
        {
            s.append(" ");
            s.append(sign_str(self.cols[j].sign(i), "-"));
            s.append(" +");
            proof {
                assert(s@ =~= start + col_signs_cells_text(cols, i as int, j + 1));
            }
            j += 1;
        }
        s.append(" ");
        s.append(sign_str(self.cols[5].sign(i), "-"));
        s.append(" |\n");
        proof {
            assert(s@ =~= old(s)@ + col_signs_text(cols, i as int));
        }
    }

    /// The board as text, for diagnostics.
    pub fn to_string(&self) -> (r: String)
        ensures
            r@ == grid_text(self.row_masks(), self.col_masks()),
    {
        proof {
            use_type_invariant(self);
        }
        let ghost rows = self.row_masks();
        let ghost cols = self.col_masks();
        let mut s = String::new();
        s.append("Grid { \n");
        s.append("  =========================\n");
        let ghost start = s@;
        let mut i: usize = 0;
        while i < 5
            invariant
                0 <= i <= 5,
                self.rows@.len() == 6,
                self.cols@.len() == 6,
                rows == self.row_masks(),
                cols == self.col_masks(),
                start == "Grid { \n"@ + "  =========================\n"@,
                s@ == start + board_text(rows, cols, i as int),
            decreases 5 - i,
        {
            Self::append_row(&mut s, &self.rows[i]);
            self.append_col_signs(&mut s, i);
            proof {
                assert(s@ =~= start + board_text(rows, cols, i + 1));
            }
            i += 1;
        }
        Self::append_row(&mut s, &self.rows[5]);
        s.append("  =========================\n");
        s.append("}");
        proof {
            assert(s@ =~= grid_text(rows, cols));
        }
        s
    }

    /// Builds the grid whose rows are `values.0` and whose column `i` has the
    /// signs packed in `values.1[i]`. Fails with the error of the first row,
    /// then of the first column, that is not a line.
    pub fn try_from(values: ([i32; 6], [i32; 6])) -> (r: Result<Grid, LineError>)
        ensures
            r is Ok <==> first_error(values.0@, 0) is None && first_error(
                column_masks(values.0@, values.1@),
                0,
            ) is None,
            r matches Err(e) ==> (first_error(values.0@, 0) == Some(e) || (first_error(
                values.0@,
                0,
            ) is None && first_error(column_masks(values.0@, values.1@), 0) == Some(e))),
            r matches Ok(g) ==> g.row_masks() == values.0@ && g.col_masks() == column_masks(
                values.0@,
                values.1@,
            ),
    {
        let row_seeds = values.0;
        let col_signs = values.1;
        let mut rows: Vec<Line> = Vec::with_capacity(6);
        let mut i: usize = 0;
        while i < 6
            invariant
                0 <= i <= 6,
                row_seeds@ == values.0@,
                rows@.len() == i,
                forall|j: int| 0 <= j < i ==> #[trigger] rows@[j]@ == row_seeds@[j],
                first_error(row_seeds@, 0) == first_error(row_seeds@, i as int),
            decreases 6 - i,
        {
            match Line::try_from(row_seeds[i]) {
                Ok(line) => rows.push(line),
                Err(e) => {
                    return Err(e);
                },
            }
            i += 1;
        }
        let ghost cmasks = column_masks(row_seeds@, col_signs@);
        let mut cols: Vec<Line> = Vec::with_capacity(6);
        let mut i: usize = 0;
        while i < 6
            invariant
                0 <= i <= 6,
                row_seeds@ == values.0@,
                col_signs@ == values.1@,
                cmasks == column_masks(row_seeds@, col_signs@),
                first_error(row_seeds@, 0) is None,
                rows@.len() == 6,
                forall|j: int| 0 <= j < 6 ==> #[trigger] rows@[j]@ == row_seeds@[j],
                cols@.len() == i,
                forall|j: int| 0 <= j < i ==> #[trigger] cols@[j]@ == cmasks[j],
                first_error(cmasks, 0) == first_error(cmasks, i as int),
            decreases 6 - i,
        {
            let mut col_mask: i32 = col_signs[i] << 12u32;
            let ghost signs = col_mask;
            assert(col_mask == col_mask | 0i32) by (bit_vector);
            assert(column_colors(row_seeds@, i as int, 0) == 0);
            let mut j: usize = 0;
            while j < 6
                invariant
                    0 <= i < 6,
                    0 <= j <= 6,
                    rows@.len() == 6,
                    forall|k: int| 0 <= k < 6 ==> #[trigger] rows@[k]@ == row_seeds@[k],
                    col_mask == signs | column_colors(row_seeds@, i as int, j as int),
                    signs == col_signs@[i as int] << 12u32,
                decreases 6 - j,
            {
                let shift: u32 = (j as u32) * 2;
                let color = rows[j].color(i) as i32;
                let ghost cc = column_colors(row_seeds@, i as int, j as int);
                assert(signs | (cc | (color << shift)) == (signs | cc) | (color << shift))
                    by (bit_vector);
                col_mask |= color << shift;
                j += 1;
            }
            assert(col_mask == cmasks[i as int]);
            match Line::try_from(col_mask) {
                Ok(line) => cols.push(line),
                Err(e) => {
                    return Err(e);
                },
            }
            i += 1;
        }
        let g = Grid { rows, cols };
        proof {
            assert(g.row_masks() =~= values.0@);
            assert(g.col_masks() =~= column_masks(values.0@, values.1@));
        }
        Ok(g)
    }
}

} // verus!
