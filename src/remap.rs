use vstd::prelude::*;

use crate::line::{field, lemma_field_range, lemma_field_set, lemma_fields_determine, lemma_set_in_range};

verus! {

/// The first `n` fields of `m`, field `i` moved to position `10 - i`.
pub open spec fn reversed_fields(m: i32, n: int) -> i32
    decreases n,
{
    if n <= 0 {
        0
    } else {
        reversed_fields(m, n - 1) | (field(m, (n - 1) as u32) << ((20 - 2 * (n - 1)) as u32))
    }
}

/// The column-optimized form of a line mask: its eleven fields in reverse
/// order, so that the first cell occupies the highest bits.
pub open spec fn col_optimized(m: i32) -> i32 {
    reversed_fields(m, 11)
}

proof fn lemma_reversed_fields(m: i32, n: int)
    requires
        0 <= n <= 11,
    ensures
        0 <= reversed_fields(m, n) < 0x400000,
        forall|k: u32| k < 11 ==> #[trigger] field(reversed_fields(m, n), k) == if 10 - k < n {
            field(m, (10 - k) as u32)
        } else {
            0
        },
    decreases n,
{
    if n > 0 {
        let prev = reversed_fields(m, n - 1);
        lemma_reversed_fields(m, n - 1);
        let t = (10 - (n - 1)) as u32;
        let c = field(m, (n - 1) as u32);
        lemma_field_range(m, (n - 1) as u32);
        assert((20 - 2 * (n - 1)) as u32 == t + t);
        lemma_set_in_range(prev, t, c);
        assert forall|k: u32| k < 11 implies #[trigger] field(reversed_fields(m, n), k) == if 10 - k
            < n {
            field(m, (10 - k) as u32)
        } else {
            0
        } by {
            lemma_field_set(prev, t, k, c);
        }
    } else {
        assert forall|k: u32| k < 11 implies #[trigger] field(0i32, k) == 0 by {
            assert((0i32 >> (k + k)) & 3 == 0) by (bit_vector);
        }
    }
}

/// The fields of the column-optimized form, read from the top.
pub proof fn lemma_col_optimized_fields(m: i32)
    ensures
        0 <= col_optimized(m) < 0x400000,
        forall|k: u32| k < 11 ==> #[trigger] field(col_optimized(m), k) == field(m, (10 - k) as u32),
{
    lemma_reversed_fields(m, 11);
}

/// Remapping a 22-bit mask twice gives the mask back.
pub proof fn lemma_col_optimized_involution(m: i32)
    requires
        0 <= m < 0x400000,
    ensures
        col_optimized(col_optimized(m)) == m,
{
    lemma_col_optimized_fields(m);
    lemma_col_optimized_fields(col_optimized(m));
    lemma_fields_determine(col_optimized(col_optimized(m)), m);
}

/// Turns a column-optimized mask back into a line mask.
pub fn col_optimized_to_line_mask(col_optimized_mask: i32) -> (r: i32)
    ensures
        r == col_optimized(col_optimized_mask),
        0 <= col_optimized_mask < 0x400000 ==> col_optimized(r) == col_optimized_mask,
{
    proof {
        if 0 <= col_optimized_mask < 0x400000 {
            lemma_col_optimized_involution(col_optimized_mask);
        }
    }
    line_to_col_optimized_mask(col_optimized_mask)
}

/// Reverses the order of the eleven fields of a line mask.
pub fn line_to_col_optimized_mask(line_mask: i32) -> (r: i32)
    ensures
        r == col_optimized(line_mask),
        0 <= r < 0x400000,
        forall|k: u32| k < 11 ==> #[trigger] field(r, k) == field(line_mask, (10 - k) as u32),
{
    let chunks_mask: i32 = 0x3FFFFF;
    let chunks = line_mask & chunks_mask;
    let mut result_chunks: i32 = 0;
    let mut i: u32 = 0;
    while i < 11
        invariant
            0 <= i <= 11,
            chunks == line_mask & 0x3FFFFF,
            result_chunks == reversed_fields(line_mask, i as int),
        decreases 11 - i,
    {
        let chunk = (chunks >> (i * 2)) & 3;
        assert(chunk == field(line_mask, i)) by (bit_vector)
            requires
                chunks == line_mask & 0x3FFFFF,
                chunk == (chunks >> (i * 2)) & 3,
                i < 11,
        ;
        let target: u32 = 10 - i;
        assert((20 - 2 * i) as u32 == target * 2);
        result_chunks = result_chunks | (chunk << (target * 2));
        i += 1;
    }
    proof {
        lemma_col_optimized_fields(line_mask);
    }
    result_chunks
}

/// Color of cell `idx` of a column-optimized mask.
pub fn col_optimized_color(col_optimized_mask: i32, idx: usize) -> (r: u8)
    requires
        idx < 6,
    ensures
        r as i32 == field(col_optimized_mask, (10 - idx) as u32),
{
    let shift: u32 = 20 - (idx as u32) * 2;
    proof {
        lemma_field_range(col_optimized_mask, (10 - idx) as u32);
    }
    ((col_optimized_mask >> shift) & 3) as u8
}

/// Sign of gap `idx` of a column-optimized mask.
pub fn col_optimized_sign(col_optimized_mask: i32, idx: usize) -> (r: u8)
    requires
        idx < 5,
    ensures
        r as i32 == field(col_optimized_mask, (4 - idx) as u32),
{
    let shift: u32 = 8 - (idx as u32) * 2;
    proof {
        lemma_field_range(col_optimized_mask, (4 - idx) as u32);
    }
    ((col_optimized_mask >> shift) & 3) as u8
}

} // verus!
