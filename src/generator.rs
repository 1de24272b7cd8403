use vstd::prelude::*;

use crate::line::{field, lemma_field_range, lemma_field_set, lemma_set_in_range, lemma_set_then_clear};
use crate::catalog::{
    SKELETON_COUNT, generate_ambiguous_and_fixed_line_masks, is_ambiguous, is_fixed, skeletons,
};
use crate::remap::{
    col_optimized, col_optimized_color, col_optimized_to_line_mask, lemma_col_optimized_fields,
    lemma_col_optimized_involution, line_to_col_optimized_mask,
};

verus! {

pub open spec fn sorted(s: Seq<i32>) -> bool {
    forall|i: int, j: int| 0 <= i <= j < s.len() ==> s[i] <= s[j]
}

/// Every entry is a 22-bit mask.
pub open spec fn masks_in_range(s: Seq<i32>) -> bool {
    forall|i: int| 0 <= i < s.len() ==> 0 <= #[trigger] s[i] < 0x400000
}

/// The bits of a column-optimized mask below its first `n` cells.
pub open spec fn prefix_shift(n: int) -> u32 {
    (22 - 2 * n) as u32
}

/// Some entry of `s` begins with the first `n` cells of `p`.
pub open spec fn has_prefix(s: Seq<i32>, p: i32, n: int) -> bool {
    exists|j: int| 0 <= j < s.len() && #[trigger] s[j] >> prefix_shift(n) == p >> prefix_shift(n)
}

/// Column `c` of the first `d` column-optimized rows, as a column-optimized
/// mask whose cell `r` is the color of row `r` at that column.
pub open spec fn column_prefix(rows: Seq<i32>, c: int, d: int) -> i32
    decreases d,
{
    if d <= 0 {
        0
    } else {
        column_prefix(rows, c, d - 1) | (field(rows[d - 1], (10 - c) as u32) << ((20 - 2 * (d
            - 1)) as u32))
    }
}

/// A column whose first `d + 1` cells are known can still be read as an
/// ambiguous or a fixed line; with all six known, as a fixed line exactly.
pub open spec fn column_fits(ambiguous: Seq<i32>, fixed: Seq<i32>, p: i32, d: int) -> bool {
    if d == 5 {
        has_prefix(ambiguous, p, 6) || fixed.contains(p)
    } else {
        has_prefix(ambiguous, p, d + 1) || has_prefix(fixed, p, d + 1)
    }
}

/// Six column-optimized rows, each from a catalog, whose six columns fit.
pub open spec fn is_candidate(ambiguous: Seq<i32>, fixed: Seq<i32>, rows: Seq<i32>) -> bool {
    &&& rows.len() == 6
    &&& forall|r: int| 0 <= r < 6 ==> #[trigger] ambiguous.contains(rows[r]) || fixed.contains(rows[r])
    &&& forall|c: int| 0 <= c < 6 ==> #[trigger] column_fits(ambiguous, fixed, column_prefix(rows, c, 6), 5)
}

/// Six 22-bit line masks whose column-optimized forms are a candidate.
pub open spec fn is_grid(ambiguous: Seq<i32>, fixed: Seq<i32>, g: Seq<i32>) -> bool {
    &&& g.len() == 6
    &&& forall|r: int| 0 <= r < 6 ==> 0 <= #[trigger] g[r] < 0x400000
    &&& is_candidate(ambiguous, fixed, grid_rows(g))
}

/// `r` is a choice of six rows that agrees with `rows` on the first `d`.
pub open spec fn extends_rows(r: Seq<i32>, rows: Seq<i32>, d: int) -> bool {
    &&& r.len() == 6
    &&& forall|k: int| 0 <= k < d ==> r[k] == rows[k]
}

/// Row `k` of `r` is a catalog line, and once it is placed every column
/// prefix still fits.
pub open spec fn row_passes(ambiguous: Seq<i32>, fixed: Seq<i32>, r: Seq<i32>, k: int) -> bool {
    &&& ambiguous.contains(r[k]) || fixed.contains(r[k])
    &&& forall|c: int| 0 <= c < 6 ==> #[trigger] column_fits(ambiguous, fixed, column_prefix(r, c, k + 1), k)
}

/// Every row of `r` from `d` on passes.
pub open spec fn passes_from(ambiguous: Seq<i32>, fixed: Seq<i32>, r: Seq<i32>, d: int) -> bool {
    forall|k: int| d <= k < 6 ==> #[trigger] row_passes(ambiguous, fixed, r, k)
}

/// Some grid collected at position `from` or later has the rows `r`.
pub open spec fn collected(grids: Seq<[i32; 6]>, from: int, r: Seq<i32>) -> bool {
    exists|k: int| from <= k < grids.len() && #[trigger] grid_rows(grids[k]@) == r
}

proof fn lemma_collected_grows(g1: Seq<[i32; 6]>, g2: Seq<[i32; 6]>, from: int, r: Seq<i32>)
    requires
        0 <= from,
        collected(g1, from, r),
        g1.len() <= g2.len(),
        forall|k: int| 0 <= k < g1.len() ==> g2[k] == g1[k],
    ensures
        collected(g2, from, r),
{
    let k = choose|k: int| from <= k < g1.len() && #[trigger] grid_rows(g1[k]@) == r;
    assert(g2[k] == g1[k]);
}

/// Every grid collected at position `from` or later agrees with `rows` on
/// the first `d` rows.
pub open spec fn all_extend(grids: Seq<[i32; 6]>, from: int, rows: Seq<i32>, d: int) -> bool {
    forall|k: int| from <= k < grids.len() ==> extends_rows(#[trigger] grid_rows(grids[k]@), rows, d)
}

/// No two grids collected at position `from` or later have the same rows.
pub open spec fn distinct_from(grids: Seq<[i32; 6]>, from: int) -> bool {
    forall|i: int, j: int|
        from <= i < j < grids.len() ==> #[trigger] grid_rows(grids[i]@) != #[trigger] grid_rows(
            grids[j]@,
        )
}

/// `x` is an entry of `s` at position `lo` or later.
pub open spec fn entry_from(s: Seq<i32>, lo: int, x: i32) -> bool {
    exists|j: int| lo <= j < s.len() && s[j] == x
}

/// The column-optimized rows of a grid given as line masks.
pub open spec fn grid_rows(g: Seq<i32>) -> Seq<i32> {
    Seq::new(6, |r: int| col_optimized(g[r]))
}

proof fn lemma_column_prefix_fields(rows: Seq<i32>, c: int, d: int)
    requires
        0 <= c < 6,
        0 <= d <= 6,
        rows.len() == 6,
    ensures
        0 <= column_prefix(rows, c, d) < 0x400000,
        forall|k: u32| k < 11 ==> #[trigger] field(column_prefix(rows, c, d), k) == if 10 - k < d {
            field(rows[10 - k], (10 - c) as u32)
        } else {
            0
        },
    decreases d,
{
    if d > 0 {
        let prev = column_prefix(rows, c, d - 1);
        lemma_column_prefix_fields(rows, c, d - 1);
        let t = (10 - (d - 1)) as u32;
        let v = field(rows[d - 1], (10 - c) as u32);
        lemma_field_range(rows[d - 1], (10 - c) as u32);
        assert((20 - 2 * (d - 1)) as u32 == t + t);
        lemma_set_in_range(prev, t, v);
        assert forall|k: u32| k < 11 implies #[trigger] field(column_prefix(rows, c, d), k) == if 10
            - k < d {
            field(rows[10 - k], (10 - c) as u32)
        } else {
            0
        } by {
            lemma_field_set(prev, t, k, v);
        }
    } else {
        assert forall|k: u32| k < 11 implies #[trigger] field(0i32, k) == 0 by {
            assert((0i32 >> (k + k)) & 3 == 0) by (bit_vector);
        }
    }
}

/// A column prefix reads only the rows above it.
proof fn lemma_column_prefix_frame(a: Seq<i32>, b: Seq<i32>, c: int, d: int)
    requires
        0 <= d <= 6,
        a.len() == 6,
        b.len() == 6,
        forall|r: int| 0 <= r < d ==> a[r] == b[r],
    ensures
        column_prefix(a, c, d) == column_prefix(b, c, d),
    decreases d,
{
    if d > 0 {
        lemma_column_prefix_frame(a, b, c, d - 1);
    }
}

/// Facts about shifting that the prefix probe relies on.
proof fn lemma_shift_facts(x: i32, y: i32, key: i32, p: i32, s: u32)
    requires
        0 <= x,
        0 <= y,
        0 <= p < 0x400000,
        s <= 22,
        key == (p >> s) << s,
    ensures
        0 <= key <= p,
        key >> s == p >> s,
        x >> s == key >> s ==> x >= key,
        x <= y ==> x >> s <= y >> s,
{
    assert(0 <= key <= p && key >> s == p >> s) by (bit_vector)
        requires
            0 <= p < 0x400000,
            s <= 22,
            key == (p >> s) << s,
    ;
    assert(x >> s == key >> s ==> x >= key) by (bit_vector)
        requires
            0 <= x,
            0 <= p < 0x400000,
            s <= 22,
            key == (p >> s) << s,
    ;
    assert(x <= y ==> x >> s <= y >> s) by (bit_vector)
        requires
            0 <= x,
            0 <= y,
    ;
}

/// The first position whose entry is at least `target`.
fn lower_bound(masks: &Vec<i32>, target: i32) -> (r: usize)
    requires
        sorted(masks@),
    ensures
        r <= masks@.len(),
        forall|i: int| 0 <= i < r ==> masks@[i] < target,
        forall|i: int| r <= i < masks@.len() ==> masks@[i] >= target,
{
    let mut lo: usize = 0;
    let mut hi: usize = masks.len();
    while lo < hi
        invariant
            0 <= lo <= hi <= masks@.len(),
            sorted(masks@),
            forall|i: int| 0 <= i < lo ==> masks@[i] < target,
            forall|i: int| hi <= i < masks@.len() ==> masks@[i] >= target,
        decreases hi - lo,
    {
        let mid = lo + (hi - lo) / 2;
        if masks[mid] < target {
            lo = mid + 1;
        } else {
            hi = mid;
        }
    }
    lo
}

/// Whether an entry of a sorted catalog begins with the first `n` cells of
/// `prefix`, by probing the first entry not below the rounded-down prefix.
fn sorted_has_prefix(masks: &Vec<i32>, prefix: i32, n: u32) -> (r: bool)
    requires
        sorted(masks@),
        masks_in_range(masks@),
        0 <= prefix < 0x400000,
        1 <= n <= 6,
    ensures
        r == has_prefix(masks@, prefix, n as int),
{
    let s: u32 = 22 - 2 * n;
    let key = (prefix >> s) << s;
    let e = lower_bound(masks, key);
    proof {
        lemma_shift_facts(0, 0, key, prefix, s);
    }
    let r = e < masks.len() && (masks[e] >> s) == (key >> s);
    proof {
        if has_prefix(masks@, prefix, n as int) {
            let j = choose|j: int| 0 <= j < masks@.len() && #[trigger] masks@[j] >> prefix_shift(
                n as int,
            ) == prefix >> prefix_shift(n as int);
            lemma_shift_facts(masks@[j], masks@[j], key, prefix, s);
            assert(j >= e);
            lemma_shift_facts(key, masks@[e as int], key, prefix, s);
            lemma_shift_facts(masks@[e as int], masks@[j], key, prefix, s);
        }
    }
    r
}

/// Backtracks over rows drawn from the ambiguous and fixed catalogs (both
/// column-optimized and sorted), keeping each column's color prefix and
/// dropping a row as soon as some column can no longer be read as a
/// catalog line. Each complete grid is collected in line form.
pub struct AmbiguousGridGenerator<'a> {
    pub rows: [i32; 6],
    pub col_prefixes: [i32; 6],
    pub row_depth: u8,
    pub ambiguous_masks: &'a Vec<i32>,
    pub fixed_masks: &'a Vec<i32>,
    pub grids: Vec<[i32; 6]>,
}

impl<'a> AmbiguousGridGenerator<'a> {
    pub open spec fn catalogs_ok(&self) -> bool {
        &&& sorted(self.ambiguous_masks@)
        &&& sorted(self.fixed_masks@)
        &&& masks_in_range(self.ambiguous_masks@)
        &&& masks_in_range(self.fixed_masks@)
        &&& self.ambiguous_masks@.no_duplicates()
        &&& self.fixed_masks@.no_duplicates()
        &&& forall|x: i32| !(#[trigger] self.ambiguous_masks@.contains(x) && self.fixed_masks@.contains(x))
    }

    pub open spec fn prefixes_at(&self, d: int) -> bool {
        forall|c: int| 0 <= c < 6 ==> #[trigger] self.col_prefixes@[c] == column_prefix(self.rows@, c, d)
    }

    pub open spec fn wf(&self) -> bool {
        &&& self.catalogs_ok()
        &&& self.row_depth <= 6
        &&& self.prefixes_at(self.row_depth as int)
        &&& forall|r: int| 0 <= r < self.row_depth ==> #[trigger] self.ambiguous_masks@.contains(
            self.rows@[r],
        ) || self.fixed_masks@.contains(self.rows@[r])
        &&& forall|r: int| self.row_depth <= r < 6 ==> #[trigger] self.rows@[r] == 0
    }

    pub fn new(ambiguous_masks: &'a Vec<i32>, fixed_masks: &'a Vec<i32>) -> (r: AmbiguousGridGenerator<'a>)
        requires
            sorted(ambiguous_masks@),
            sorted(fixed_masks@),
            masks_in_range(ambiguous_masks@),
            masks_in_range(fixed_masks@),
            ambiguous_masks@.no_duplicates(),
            fixed_masks@.no_duplicates(),
            forall|x: i32| !(#[trigger] ambiguous_masks@.contains(x) && fixed_masks@.contains(x)),
        ensures
            r.wf(),
            r.row_depth == 0,
            r.rows@ == seq![0i32, 0, 0, 0, 0, 0],
            r.col_prefixes@ == seq![0i32, 0, 0, 0, 0, 0],
            r.ambiguous_masks == ambiguous_masks,
            r.fixed_masks == fixed_masks,
            r.grids@.len() == 0,
    {
        let r = AmbiguousGridGenerator {
            rows: [0, 0, 0, 0, 0, 0],
            col_prefixes: [0, 0, 0, 0, 0, 0],
            row_depth: 0,
            ambiguous_masks,
            fixed_masks,
            grids: Vec::new(),
        };
        proof {
            assert(r.rows@ =~= seq![0i32, 0, 0, 0, 0, 0]);
            assert(r.col_prefixes@ =~= seq![0i32, 0, 0, 0, 0, 0]);
        }
        r
    }

    /// Collects every grid that extends the rows placed so far.
    pub fn backtrack_rows(&mut self)
        requires
            old(self).wf(),
            old(self).row_depth == 6 ==> forall|c: int| 0 <= c < 6 ==> #[trigger] column_fits(
                old(self).ambiguous_masks@,
                old(self).fixed_masks@,
                column_prefix(old(self).rows@, c, 6),
                5,
            ),
        ensures
            final(self).wf(),
            final(self).row_depth == old(self).row_depth,
            final(self).ambiguous_masks == old(self).ambiguous_masks,
            final(self).fixed_masks == old(self).fixed_masks,
            final(self).col_prefixes@ == old(self).col_prefixes@,
            final(self).rows@ == old(self).rows@,
            final(self).grids@.len() >= old(self).grids@.len(),
            forall|k: int| 0 <= k < old(self).grids@.len() ==> final(self).grids@[k] == old(self).grids@[k],
            forall|k: int| old(self).grids@.len() <= k < final(self).grids@.len() ==> is_grid(
                old(self).ambiguous_masks@,
                old(self).fixed_masks@,
                #[trigger] final(self).grids@[k]@,
            ),
            forall|r: Seq<i32>| extends_rows(r, old(self).rows@, old(self).row_depth as int)
                && passes_from(old(self).ambiguous_masks@, old(self).fixed_masks@, r, old(self).row_depth as int)
                ==> #[trigger] collected(final(self).grids@, old(self).grids@.len() as int, r),
            all_extend(final(self).grids@, old(self).grids@.len() as int, old(self).rows@, old(self).row_depth as int),
            distinct_from(final(self).grids@, old(self).grids@.len() as int),
        decreases 6 - old(self).row_depth, 2int,
    {
        if self.row_depth == 6 {
            let grid = [
                col_optimized_to_line_mask(self.rows[0]),
                col_optimized_to_line_mask(self.rows[1]),
                col_optimized_to_line_mask(self.rows[2]),
                col_optimized_to_line_mask(self.rows[3]),
                col_optimized_to_line_mask(self.rows[4]),
                col_optimized_to_line_mask(self.rows[5]),
            ];
            proof {
                assert forall|r: int| 0 <= r < 6 implies 0 <= #[trigger] self.rows@[r] < 0x400000 by {
                    if self.ambiguous_masks@.contains(self.rows@[r]) {
                        let j = choose|j: int| 0 <= j < self.ambiguous_masks@.len() && self.ambiguous_masks@[j] == self.rows@[r];
                    } else {
                        let j = choose|j: int| 0 <= j < self.fixed_masks@.len() && self.fixed_masks@[j] == self.rows@[r];
                    }
                }
                assert(grid_rows(grid@) =~= self.rows@);
                assert forall|r: int| 0 <= r < 6 implies 0 <= #[trigger] grid@[r] < 0x400000 by {
                    lemma_col_optimized_fields(self.rows@[r]);
                }
            }
            let ghost before = self.grids@;
            self.grids.push(grid);
            proof {
                assert forall|r: Seq<i32>| extends_rows(r, old(self).rows@, 6) implies #[trigger] collected(
                    self.grids@,
                    old(self).grids@.len() as int,
                    r,
                ) by {
                    assert(r =~= self.rows@);
                    assert(grid_rows(self.grids@[before.len() as int]@) == r);
                }
            }
            return;
        }
        let fixed = self.fixed_masks;
        self.try_rows_from(fixed);
        let ghost g1 = self.grids@;
        let ambiguous = self.ambiguous_masks;
        self.try_rows_from(ambiguous);
        proof {
            let d = old(self).row_depth as int;
            let l0 = old(self).grids@.len() as int;
            assert forall|k: int| l0 <= k < self.grids@.len() implies is_grid(
                old(self).ambiguous_masks@,
                old(self).fixed_masks@,
                #[trigger] self.grids@[k]@,
            ) by {
                if k < g1.len() {
                    assert(self.grids@[k] == g1[k]);
                }
            }
            assert forall|kk: int| l0 <= kk < self.grids@.len() implies extends_rows(#[trigger] grid_rows(self.grids@[kk]@), old(self).rows@, d) by {
                if kk < g1.len() {
                    assert(self.grids@[kk] == g1[kk]);
                }
            }
            assert forall|a: int, b: int| l0 <= a < b < self.grids@.len() implies #[trigger] grid_rows(self.grids@[a]@) != #[trigger] grid_rows(self.grids@[b]@) by {
                if b < g1.len() {
                    assert(self.grids@[a] == g1[a]);
                    assert(self.grids@[b] == g1[b]);
                } else if a < g1.len() {
                    assert(self.grids@[a] == g1[a]);
                    let x = grid_rows(self.grids@[a]@)[d];
                    let y = grid_rows(self.grids@[b]@)[d];
                    assert(old(self).fixed_masks@.contains(x));
                    assert(old(self).ambiguous_masks@.contains(y));
                    assert(x != y);
                }
            }
            assert forall|r: Seq<i32>| extends_rows(r, old(self).rows@, d)
                && passes_from(old(self).ambiguous_masks@, old(self).fixed_masks@, r, d)
                implies #[trigger] collected(self.grids@, l0, r) by {
                assert(row_passes(old(self).ambiguous_masks@, old(self).fixed_masks@, r, d));
                if old(self).fixed_masks@.contains(r[d]) {
                    assert(collected(g1, l0, r));
                    lemma_collected_grows(g1, self.grids@, l0, r);
                } else {
                    assert(collected(self.grids@, g1.len() as int, r));
                    let kk = choose|kk: int| g1.len() <= kk < self.grids@.len() && #[trigger] grid_rows(self.grids@[kk]@) == r;
                    assert(l0 <= kk);
                }
            }
        }
    }

    /// Tries, as the row at the current depth, every entry of `masks`, one of
    /// the two catalogs, from the last to the first.
    fn try_rows_from(&mut self, masks: &Vec<i32>)
        requires
            old(self).wf(),
            old(self).row_depth < 6,
            masks@ == old(self).fixed_masks@ || masks@ == old(self).ambiguous_masks@,
        ensures
            final(self).wf(),
            final(self).row_depth == old(self).row_depth,
            final(self).ambiguous_masks == old(self).ambiguous_masks,
            final(self).fixed_masks == old(self).fixed_masks,
            final(self).col_prefixes@ == old(self).col_prefixes@,
            final(self).rows@ == old(self).rows@,
            final(self).grids@.len() >= old(self).grids@.len(),
            forall|k: int| 0 <= k < old(self).grids@.len() ==> final(self).grids@[k] == old(self).grids@[k],
            forall|k: int| old(self).grids@.len() <= k < final(self).grids@.len() ==> is_grid(
                old(self).ambiguous_masks@,
                old(self).fixed_masks@,
                #[trigger] final(self).grids@[k]@,
            ),
            all_extend(final(self).grids@, old(self).grids@.len() as int, old(self).rows@, old(self).row_depth as int),
            distinct_from(final(self).grids@, old(self).grids@.len() as int),
            forall|kk: int| old(self).grids@.len() as int <= kk < final(self).grids@.len() ==> masks@.contains(#[trigger] grid_rows(final(self).grids@[kk]@)[old(self).row_depth as int]),
            forall|r: Seq<i32>| extends_rows(r, old(self).rows@, old(self).row_depth as int)
                && passes_from(old(self).ambiguous_masks@, old(self).fixed_masks@, r, old(self).row_depth as int)
                && masks@.contains(r[old(self).row_depth as int])
                ==> #[trigger] collected(final(self).grids@, old(self).grids@.len() as int, r),
        decreases 6 - old(self).row_depth, 1int,
    {
        proof {
            if masks@ == old(self).fixed_masks@ {
                assert(masks@.no_duplicates());
            } else {
                assert(masks@.no_duplicates());
            }
        }
        let mut k: usize = masks.len();
        while k > 0
            invariant
                self.wf(),
                self.row_depth == old(self).row_depth,
                self.row_depth < 6,
                self.ambiguous_masks == old(self).ambiguous_masks,
                self.fixed_masks == old(self).fixed_masks,
                self.col_prefixes@ == old(self).col_prefixes@,
                self.rows@ == old(self).rows@,
                self.grids@.len() >= old(self).grids@.len(),
                forall|j: int| 0 <= j < old(self).grids@.len() ==> self.grids@[j] == old(self).grids@[j],
                forall|j: int| old(self).grids@.len() <= j < self.grids@.len() ==> is_grid(
                    old(self).ambiguous_masks@,
                    old(self).fixed_masks@,
                    #[trigger] self.grids@[j]@,
                ),
                k <= masks@.len(),
                masks@.no_duplicates(),
                masks@ == old(self).fixed_masks@ || masks@ == old(self).ambiguous_masks@,
                all_extend(self.grids@, old(self).grids@.len() as int, old(self).rows@, old(self).row_depth as int),
                distinct_from(self.grids@, old(self).grids@.len() as int),
                forall|kk: int| old(self).grids@.len() as int <= kk < self.grids@.len() ==> entry_from(masks@, k as int, #[trigger] grid_rows(self.grids@[kk]@)[old(self).row_depth as int]),
                forall|r: Seq<i32>| extends_rows(r, old(self).rows@, old(self).row_depth as int)
                    && passes_from(old(self).ambiguous_masks@, old(self).fixed_masks@, r, old(self).row_depth as int)
                    && (exists|j: int| k <= j < masks@.len() && masks@[j] == r[old(self).row_depth as int])
                    ==> #[trigger] collected(self.grids@, old(self).grids@.len() as int, r),
            decreases k,
        {
            k -= 1;
            let m = masks[k];
            proof {
                assert(masks@.contains(m));
            }
            let ghost g0 = self.grids@;
            let ghost k0 = k;
            let ghost rows_c = self.rows@;
            self.try_row(m);
            proof {
                let d = old(self).row_depth as int;
                assert forall|r: Seq<i32>| extends_rows(r, old(self).rows@, d)
                    && passes_from(old(self).ambiguous_masks@, old(self).fixed_masks@, r, d)
                    && (exists|j: int| k <= j < masks@.len() && masks@[j] == r[d])
                    implies #[trigger] collected(self.grids@, old(self).grids@.len() as int, r) by {
                    if r[d] != m {
                        let j = choose|j: int| k <= j < masks@.len() && masks@[j] == r[d];
                        assert(j != k0);
                        lemma_collected_grows(g0, self.grids@, old(self).grids@.len() as int, r);
                    } else {
                        assert(extends_rows(r, rows_c, d));
                        assert(collected(self.grids@, g0.len() as int, r));
                        let kk = choose|kk: int| g0.len() <= kk < self.grids@.len() && #[trigger] grid_rows(self.grids@[kk]@) == r;
                        assert(old(self).grids@.len() <= kk);
                    }
                }
            }
            proof {
                let d = old(self).row_depth as int;
                assert forall|kk: int| old(self).grids@.len() as int <= kk < self.grids@.len() implies extends_rows(#[trigger] grid_rows(self.grids@[kk]@), old(self).rows@, d) by {
                    if kk < g0.len() {
                        assert(self.grids@[kk] == g0[kk]);
                    }
                }
                assert forall|a: int, b: int| old(self).grids@.len() as int <= a < b < self.grids@.len() implies #[trigger] grid_rows(self.grids@[a]@) != #[trigger] grid_rows(self.grids@[b]@) by {
                    if b < g0.len() {
                        assert(self.grids@[a] == g0[a]);
                        assert(self.grids@[b] == g0[b]);
                    } else if a >= g0.len() {
                    } else {
                        assert(self.grids@[a] == g0[a]);
                        assert(grid_rows(self.grids@[b]@)[d] == m);
                        assert(entry_from(masks@, k + 1, grid_rows(g0[a]@)[d]));
                        let j = choose|j: int| k + 1 <= j < masks@.len() && masks@[j] == grid_rows(g0[a]@)[d];
                        assert(masks@[j] != masks@[k as int]);
                        assert(grid_rows(self.grids@[a]@)[d] != grid_rows(self.grids@[b]@)[d]);
                    }
                }
                assert forall|kk: int| old(self).grids@.len() as int <= kk < self.grids@.len() implies entry_from(masks@, k as int, #[trigger] grid_rows(self.grids@[kk]@)[old(self).row_depth as int]) by {
                    if kk < g0.len() {
                        assert(self.grids@[kk] == g0[kk]);
                        assert(entry_from(masks@, k + 1, grid_rows(g0[kk]@)[d]));
                        let j = choose|j: int| k + 1 <= j < masks@.len() && masks@[j] == grid_rows(g0[kk]@)[d];
                        assert(k <= j < masks@.len() && masks@[j] == grid_rows(self.grids@[kk]@)[old(self).row_depth as int]);
                    } else {
                        assert(grid_rows(self.grids@[kk]@)[old(self).row_depth as int] == m);
                        assert(masks@[k as int] == m);
                    }
                }
            }
        }
        proof {
            let d = old(self).row_depth as int;
            assert forall|kk: int| old(self).grids@.len() as int <= kk < self.grids@.len() implies masks@.contains(#[trigger] grid_rows(self.grids@[kk]@)[d]) by {
                assert(entry_from(masks@, 0, grid_rows(self.grids@[kk]@)[d]));
                let j = choose|j: int| 0 <= j < masks@.len() && masks@[j] == grid_rows(self.grids@[kk]@)[d];
                assert(masks@[j] == grid_rows(self.grids@[kk]@)[d]);
            }
            assert forall|r: Seq<i32>| extends_rows(r, old(self).rows@, d)
                && passes_from(old(self).ambiguous_masks@, old(self).fixed_masks@, r, d)
                && masks@.contains(r[d])
                implies #[trigger] collected(self.grids@, old(self).grids@.len() as int, r) by {
                let j = choose|j: int| 0 <= j < masks@.len() && masks@[j] == r[d];
                assert(0 <= j < masks@.len() && masks@[j] == r[d]);
            }
        }
    }

    /// Places `m` as the next row, recurses if every column still fits,
    /// then takes the row back.
    fn try_row(&mut self, m: i32)
        requires
            old(self).wf(),
            old(self).row_depth < 6,
            old(self).ambiguous_masks@.contains(m) || old(self).fixed_masks@.contains(m),
        ensures
            final(self).wf(),
            final(self).row_depth == old(self).row_depth,
            final(self).ambiguous_masks == old(self).ambiguous_masks,
            final(self).fixed_masks == old(self).fixed_masks,
            final(self).col_prefixes@ == old(self).col_prefixes@,
            final(self).rows@ == old(self).rows@,
            final(self).grids@.len() >= old(self).grids@.len(),
            forall|k: int| 0 <= k < old(self).grids@.len() ==> final(self).grids@[k] == old(self).grids@[k],
            forall|k: int| old(self).grids@.len() <= k < final(self).grids@.len() ==> is_grid(
                old(self).ambiguous_masks@,
                old(self).fixed_masks@,
                #[trigger] final(self).grids@[k]@,
            ),
            forall|r: Seq<i32>| extends_rows(r, old(self).rows@, old(self).row_depth as int) && r[old(self).row_depth as int] == m
                && passes_from(old(self).ambiguous_masks@, old(self).fixed_masks@, r, old(self).row_depth as int)
                ==> #[trigger] collected(final(self).grids@, old(self).grids@.len() as int, r),
            all_extend(final(self).grids@, old(self).grids@.len() as int, old(self).rows@, old(self).row_depth as int),
            distinct_from(final(self).grids@, old(self).grids@.len() as int),
            forall|k: int| old(self).grids@.len() <= k < final(self).grids@.len() ==> #[trigger] grid_rows(final(self).grids@[k]@)[old(self).row_depth as int] == m,
        decreases 6 - old(self).row_depth, 0int,
    {
        let ghost rows0 = self.rows@;
        let ghost prefixes0 = self.col_prefixes;
        let d = self.row_depth as usize;
        self.rows[d] = m;
        proof {
            assert forall|c: int| 0 <= c < 6 implies #[trigger] self.col_prefixes@[c] == column_prefix(self.rows@, c, d as int) by {
                lemma_column_prefix_frame(rows0, self.rows@, c, d as int);
            }
        }
        self.update_col_prefixes();
        let ghost rows_m = self.rows@;
        let ghost g0 = self.grids@;
        let fits = self.validate_col_prefixes();
        proof {
            let dd = d as int;
            assert forall|r: Seq<i32>| extends_rows(r, old(self).rows@, dd) && r[dd] == m implies #[trigger] extends_rows(r, rows_m, dd + 1) by {
            }
            assert forall|r: Seq<i32>| extends_rows(r, rows_m, dd + 1) && passes_from(old(self).ambiguous_masks@, old(self).fixed_masks@, r, dd) implies fits by {
                assert(row_passes(old(self).ambiguous_masks@, old(self).fixed_masks@, r, dd));
                assert forall|c: int| 0 <= c < 6 implies #[trigger] column_fits(
                    self.ambiguous_masks@,
                    self.fixed_masks@,
                    self.col_prefixes@[c],
                    dd,
                ) by {
                    lemma_column_prefix_frame(r, rows_m, c, dd + 1);
                    assert(self.col_prefixes@[c] == column_prefix(rows_m, c, dd + 1));
                    assert(column_fits(self.ambiguous_masks@, self.fixed_masks@, column_prefix(r, c, dd + 1), dd));
                }
            }
        }
        if fits {
            proof {
                assert forall|c: int| 0 <= c < 6 implies #[trigger] column_fits(
                    self.ambiguous_masks@,
                    self.fixed_masks@,
                    column_prefix(self.rows@, c, d + 1),
                    d as int,
                ) by {
                    assert(self.col_prefixes@[c] == column_prefix(self.rows@, c, d + 1));
                    assert(column_fits(self.ambiguous_masks@, self.fixed_masks@, self.col_prefixes@[c], d as int));
                }
            }
            self.row_depth += 1;
            self.backtrack_rows();
            self.row_depth -= 1;
            proof {
                let dd = d as int;
                assert forall|r: Seq<i32>| extends_rows(r, old(self).rows@, dd) && r[dd] == m
                    && passes_from(old(self).ambiguous_masks@, old(self).fixed_masks@, r, dd)
                    implies #[trigger] collected(self.grids@, g0.len() as int, r) by {
                    assert(extends_rows(r, rows_m, dd + 1));
                    assert(passes_from(old(self).ambiguous_masks@, old(self).fixed_masks@, r, dd + 1));
                }
            }
        }
        self.undo_col_prefixes();
        let ghost rows1 = self.rows@;
        self.rows[d] = 0;
        proof {
            assert forall|c: int| 0 <= c < 6 implies #[trigger] self.col_prefixes@[c] == column_prefix(self.rows@, c, d as int) by {
                lemma_column_prefix_frame(rows1, self.rows@, c, d as int);
                lemma_column_prefix_frame(rows0, self.rows@, c, d as int);
            }
            assert forall|c: int| 0 <= c < 6 implies #[trigger] self.col_prefixes@[c] == prefixes0@[c] by {
                lemma_column_prefix_frame(rows0, self.rows@, c, d as int);
            }
            assert(self.col_prefixes@ =~= prefixes0@);
        }
    }

    /// Adds the current row's color at each column to that column's prefix.
    pub fn update_col_prefixes(&mut self)
        requires
            old(self).row_depth < 6,
            old(self).prefixes_at(old(self).row_depth as int),
        ensures
            final(self).prefixes_at(old(self).row_depth as int + 1),
            final(self).rows == old(self).rows,
            final(self).row_depth == old(self).row_depth,
            final(self).ambiguous_masks == old(self).ambiguous_masks,
            final(self).fixed_masks == old(self).fixed_masks,
            final(self).grids == old(self).grids,
    {
        let d = self.row_depth as u32;
        let col_optimized_row_mask = self.rows[d as usize];
        let shift: u32 = 20 - d * 2;
        let mut i: usize = 0;
        while i < 6
            invariant
                0 <= i <= 6,
                d == self.row_depth,
                d < 6,
                shift == 20 - 2 * d,
                col_optimized_row_mask == self.rows@[d as int],
                self.rows == old(self).rows,
                self.row_depth == old(self).row_depth,
                self.ambiguous_masks == old(self).ambiguous_masks,
                self.fixed_masks == old(self).fixed_masks,
                self.grids == old(self).grids,
                forall|c: int| 0 <= c < i ==> #[trigger] self.col_prefixes@[c] == column_prefix(self.rows@, c, d + 1),
                forall|c: int| i <= c < 6 ==> #[trigger] self.col_prefixes@[c] == column_prefix(self.rows@, c, d as int),
            decreases 6 - i,
        {
            let color_to_add = col_optimized_color(col_optimized_row_mask, i) as i32;
            let updated = self.col_prefixes[i] | (color_to_add << shift);
            self.col_prefixes[i] = updated;
            i += 1;
        }
    }

    /// Whether every column prefix still fits a catalog line.
    pub fn validate_col_prefixes(&self) -> (r: bool)
        requires
            self.catalogs_ok(),
            self.row_depth < 6,
            self.prefixes_at(self.row_depth as int + 1),
        ensures
            r == forall|c: int| 0 <= c < 6 ==> #[trigger] column_fits(
                self.ambiguous_masks@,
                self.fixed_masks@,
                self.col_prefixes@[c],
                self.row_depth as int,
            ),
    {
        let mut i: usize = 0;
        while i < 6
            invariant
                0 <= i <= 6,
                self.catalogs_ok(),
                self.row_depth < 6,
                self.prefixes_at(self.row_depth as int + 1),
                forall|c: int| 0 <= c < i ==> #[trigger] column_fits(
                    self.ambiguous_masks@,
                    self.fixed_masks@,
                    self.col_prefixes@[c],
                    self.row_depth as int,
                ),
            decreases 6 - i,
        {
            let col_prefix = self.col_prefixes[i];
            proof {
                lemma_column_prefix_fields(self.rows@, i as int, self.row_depth + 1);
            }
            if self.row_depth == 5 {
                if !self.ambiguous_masks_has_prefix(col_prefix) && !self.fixed_masks_contains(col_prefix) {
                    assert(!column_fits(self.ambiguous_masks@, self.fixed_masks@, self.col_prefixes@[i as int], 5));
                    return false;
                }
            } else {
                if !self.ambiguous_masks_has_prefix(col_prefix) && !self.fixed_masks_has_prefix(col_prefix) {
                    assert(!column_fits(self.ambiguous_masks@, self.fixed_masks@, self.col_prefixes@[i as int], self.row_depth as int));
                    return false;
                }
            }
            i += 1;
        }
        true
    }

    /// Clears the current row's cell from each column prefix.
    pub fn undo_col_prefixes(&mut self)
        requires
            old(self).row_depth < 6,
            old(self).prefixes_at(old(self).row_depth as int + 1),
        ensures
            final(self).prefixes_at(old(self).row_depth as int),
            final(self).rows == old(self).rows,
            final(self).row_depth == old(self).row_depth,
            final(self).ambiguous_masks == old(self).ambiguous_masks,
            final(self).fixed_masks == old(self).fixed_masks,
            final(self).grids == old(self).grids,
    {
        let d = self.row_depth as u32;
        let shift: u32 = 20 - d * 2;
        let mut i: usize = 0;
        while i < 6
            invariant
                0 <= i <= 6,
                d == self.row_depth,
                d < 6,
                shift == 20 - 2 * d,
                self.rows == old(self).rows,
                self.row_depth == old(self).row_depth,
                self.ambiguous_masks == old(self).ambiguous_masks,
                self.fixed_masks == old(self).fixed_masks,
                self.grids == old(self).grids,
                forall|c: int| 0 <= c < i ==> #[trigger] self.col_prefixes@[c] == column_prefix(self.rows@, c, d as int),
                forall|c: int| i <= c < 6 ==> #[trigger] self.col_prefixes@[c] == column_prefix(self.rows@, c, d + 1),
            decreases 6 - i,
        {
            let delete_mask = !(3i32 << shift);
            proof {
                let prev = column_prefix(self.rows@, i as int, d as int);
                let t = (10 - d) as u32;
                lemma_column_prefix_fields(self.rows@, i as int, d as int);
                lemma_field_range(self.rows@[d as int], (10 - i) as u32);
                assert(shift == t + t);
                lemma_set_then_clear(prev, t, field(self.rows@[d as int], (10 - i) as u32));
            }
            let cleared = self.col_prefixes[i] & delete_mask;
            self.col_prefixes[i] = cleared;
            i += 1;
        }
    }

    /// Whether an ambiguous line begins with the current column prefix.
    pub fn ambiguous_masks_has_prefix(&self, prefix: i32) -> (r: bool)
        requires
            self.catalogs_ok(),
            self.row_depth < 6,
            0 <= prefix < 0x400000,
        ensures
            r == has_prefix(self.ambiguous_masks@, prefix, self.row_depth as int + 1),
    {
        sorted_has_prefix(self.ambiguous_masks, prefix, self.row_depth as u32 + 1)
    }

    /// Whether a fixed line begins with the current column prefix.
    pub fn fixed_masks_has_prefix(&self, target: i32) -> (r: bool)
        requires
            self.catalogs_ok(),
            self.row_depth < 6,
            0 <= target < 0x400000,
        ensures
            r == has_prefix(self.fixed_masks@, target, self.row_depth as int + 1),
    {
        sorted_has_prefix(self.fixed_masks, target, self.row_depth as u32 + 1)
    }

    /// Whether `target` is a fixed line.
    pub fn fixed_masks_contains(&self, target: i32) -> (r: bool)
        requires
            self.catalogs_ok(),
        ensures
            r == self.fixed_masks@.contains(target),
    {
        let e = lower_bound(self.fixed_masks, target);
        let r = e < self.fixed_masks.len() && self.fixed_masks[e] == target;
        proof {
            if self.fixed_masks@.contains(target) {
                let j = choose|j: int| 0 <= j < self.fixed_masks@.len() && self.fixed_masks@[j] == target;
                assert(j >= e);
            }
        }
        r
    }
}

/// Relies on `slice::sort`: the entries come out in ascending order, as a
/// permutation of those that went in.
#[verifier::external_body]
fn sort_masks(v: &mut Vec<i32>)
    ensures
        final(v)@.to_multiset() == old(v)@.to_multiset(),
        sorted(final(v)@),
{
    v.sort();
}

/// The column-optimized form of each mask, in the same order.
fn col_optimized_all(masks: &Vec<i32>) -> (r: Vec<i32>)
    ensures
        r@.len() == masks@.len(),
        forall|i: int| 0 <= i < masks@.len() ==> #[trigger] r@[i] == col_optimized(masks@[i]),
        masks_in_range(r@),
{
    let mut r: Vec<i32> = Vec::with_capacity(masks.len());
    let mut i: usize = 0;
    while i < masks.len()
        invariant
            0 <= i <= masks@.len(),
            r@.len() == i,
            forall|j: int| 0 <= j < i ==> #[trigger] r@[j] == col_optimized(masks@[j]),
            masks_in_range(r@),
        decreases masks@.len() - i,
    {
        r.push(line_to_col_optimized_mask(masks[i]));
        i += 1;
    }
    r
}

/// A catalog ready for prefix search: the column-optimized form of each
/// mask, sorted ascending.
pub fn sorted_col_optimized(masks: &Vec<i32>) -> (r: Vec<i32>)
    ensures
        sorted(r@),
        masks_in_range(r@),
        r@.to_multiset() == Seq::new(masks@.len(), |i: int| col_optimized(masks@[i])).to_multiset(),
        masks_in_range(masks@) && masks@.no_duplicates() ==> r@.no_duplicates(),
{
    let mut r = col_optimized_all(masks);
    let ghost remapped = r@;
    sort_masks(&mut r);
    proof {
        broadcast use vstd::seq_lib::group_to_multiset_ensures;
        assert(remapped =~= Seq::new(masks@.len(), |i: int| col_optimized(masks@[i])));
        assert forall|i: int| 0 <= i < r@.len() implies 0 <= #[trigger] r@[i] < 0x400000 by {
            let x = r@[i];
            assert(r@.contains(x));
            assert(r@.to_multiset().count(x) > 0);
            assert(remapped.to_multiset().count(x) > 0);
            assert(remapped.contains(x));
            let j = choose|j: int| 0 <= j < remapped.len() && remapped[j] == x;
        }
        if masks_in_range(masks@) && masks@.no_duplicates() {
            assert forall|i: int, j: int| 0 <= i < remapped.len() && 0 <= j < remapped.len() && i != j
                implies remapped[i] != remapped[j] by {
                lemma_col_optimized_involution(masks@[i]);
                lemma_col_optimized_involution(masks@[j]);
            }
            remapped.lemma_multiset_has_no_duplicates();
            assert forall|x: i32| r@.to_multiset().contains(x) implies r@.to_multiset().count(x) == 1 by {
                assert(remapped.to_multiset().contains(x));
            }
            r@.lemma_multiset_has_no_duplicates_conv();
        }
    }
    r
}

/// The column-optimized form of each mask of `s`, in order.
pub open spec fn col_optimized_seq(s: Seq<i32>) -> Seq<i32> {
    Seq::new(s.len(), |i: int| col_optimized(s[i]))
}

/// The ambiguous lines among the skeletons, in skeleton order.
pub open spec fn ambiguous_catalog() -> Seq<i32> {
    skeletons(SKELETON_COUNT as int).filter(|m: i32| is_ambiguous(m))
}

/// The fixed lines among the skeletons, in skeleton order.
pub open spec fn fixed_catalog() -> Seq<i32> {
    skeletons(SKELETON_COUNT as int).filter(|m: i32| is_fixed(m))
}

pub open spec fn same_members(s: Seq<i32>, t: Seq<i32>) -> bool {
    forall|x: i32| s.contains(x) <==> t.contains(x)
}

proof fn lemma_has_prefix_members(s: Seq<i32>, t: Seq<i32>, p: i32, n: int)
    requires
        same_members(s, t),
    ensures
        has_prefix(s, p, n) == has_prefix(t, p, n),
{
    if has_prefix(s, p, n) {
        let j = choose|j: int| 0 <= j < s.len() && #[trigger] s[j] >> prefix_shift(n) == p >> prefix_shift(n);
        assert(s.contains(s[j]));
        let i = choose|i: int| 0 <= i < t.len() && t[i] == s[j];
        assert(t[i] >> prefix_shift(n) == p >> prefix_shift(n));
    }
    if has_prefix(t, p, n) {
        let j = choose|j: int| 0 <= j < t.len() && #[trigger] t[j] >> prefix_shift(n) == p >> prefix_shift(n);
        assert(t.contains(t[j]));
        let i = choose|i: int| 0 <= i < s.len() && s[i] == t[j];
        assert(s[i] >> prefix_shift(n) == p >> prefix_shift(n));
    }
}

/// The prefix checks read the catalogs only through their members.
proof fn lemma_checks_by_members(a1: Seq<i32>, f1: Seq<i32>, a2: Seq<i32>, f2: Seq<i32>)
    requires
        same_members(a1, a2),
        same_members(f1, f2),
    ensures
        forall|p: i32, d: int| #[trigger] column_fits(a1, f1, p, d) == column_fits(a2, f2, p, d),
        forall|r: Seq<i32>, d: int| #[trigger] passes_from(a1, f1, r, d) == passes_from(a2, f2, r, d),
        forall|g: Seq<i32>| #[trigger] is_grid(a1, f1, g) == is_grid(a2, f2, g),
{
    assert forall|p: i32, d: int| #[trigger] column_fits(a1, f1, p, d) == column_fits(a2, f2, p, d) by {
        lemma_has_prefix_members(a1, a2, p, d + 1);
        lemma_has_prefix_members(f1, f2, p, d + 1);
        lemma_has_prefix_members(a1, a2, p, 6);
    }
    assert forall|r: Seq<i32>, k: int| #[trigger] row_passes(a1, f1, r, k) == row_passes(a2, f2, r, k) by {
        if row_passes(a1, f1, r, k) {
            assert forall|c: int| 0 <= c < 6 implies #[trigger] column_fits(a2, f2, column_prefix(r, c, k + 1), k) by {
                assert(column_fits(a1, f1, column_prefix(r, c, k + 1), k));
            }
        }
        if row_passes(a2, f2, r, k) {
            assert forall|c: int| 0 <= c < 6 implies #[trigger] column_fits(a1, f1, column_prefix(r, c, k + 1), k) by {
                assert(column_fits(a2, f2, column_prefix(r, c, k + 1), k));
            }
        }
    }
    assert forall|r: Seq<i32>, d: int| #[trigger] passes_from(a1, f1, r, d) == passes_from(a2, f2, r, d) by {
        if passes_from(a1, f1, r, d) {
            assert forall|k: int| d <= k < 6 implies #[trigger] row_passes(a2, f2, r, k) by {
                assert(row_passes(a1, f1, r, k));
            }
        }
        if passes_from(a2, f2, r, d) {
            assert forall|k: int| d <= k < 6 implies #[trigger] row_passes(a1, f1, r, k) by {
                assert(row_passes(a2, f2, r, k));
            }
        }
    }
    assert forall|g: Seq<i32>| #[trigger] is_grid(a1, f1, g) == is_grid(a2, f2, g) by {
        let rows = grid_rows(g);
        if is_grid(a1, f1, g) {
            assert forall|c: int| 0 <= c < 6 implies #[trigger] column_fits(a2, f2, column_prefix(rows, c, 6), 5) by {
                assert(column_fits(a1, f1, column_prefix(rows, c, 6), 5));
            }
            assert forall|r: int| 0 <= r < 6 implies #[trigger] a2.contains(rows[r]) || f2.contains(rows[r]) by {
                assert(a1.contains(rows[r]) || f1.contains(rows[r]));
            }
        }
        if is_grid(a2, f2, g) {
            assert forall|c: int| 0 <= c < 6 implies #[trigger] column_fits(a1, f1, column_prefix(rows, c, 6), 5) by {
                assert(column_fits(a2, f2, column_prefix(rows, c, 6), 5));
            }
            assert forall|r: int| 0 <= r < 6 implies #[trigger] a1.contains(rows[r]) || f1.contains(rows[r]) by {
                assert(a2.contains(rows[r]) || f2.contains(rows[r]));
            }
        }
    }
}

/// A row of a collected grid is a catalog line.
proof fn lemma_row_from_catalog(sorted_masks: Seq<i32>, remapped: Seq<i32>, lines: Seq<i32>, row: i32)
    requires
        sorted_masks.to_multiset() == remapped.to_multiset(),
        remapped.len() == lines.len(),
        forall|i: int| 0 <= i < lines.len() ==> #[trigger] remapped[i] == col_optimized(lines[i]),
        forall|i: int| 0 <= i < lines.len() ==> 0 <= #[trigger] lines[i] < 0x400000,
        sorted_masks.contains(col_optimized(row)),
        0 <= row < 0x400000,
    ensures
        lines.contains(row),
{
    broadcast use vstd::seq_lib::group_to_multiset_ensures;
    assert(sorted_masks.to_multiset().count(col_optimized(row)) > 0);
    assert(remapped.contains(col_optimized(row)));
    let i = choose|i: int| 0 <= i < remapped.len() && remapped[i] == col_optimized(row);
    lemma_col_optimized_involution(row);
    lemma_col_optimized_involution(lines[i]);
    assert(lines[i] == row);
}

/// Builds both catalogs, remaps and sorts them, and collects every grid
/// whose rows are ambiguous or fixed lines and whose columns can each still
/// be read as one.
pub fn run_proof() -> (r: Vec<[i32; 6]>)
    ensures
        forall|k: int| 0 <= k < r@.len() ==> is_grid(
            col_optimized_seq(ambiguous_catalog()),
            col_optimized_seq(fixed_catalog()),
            #[trigger] r@[k]@,
        ),
        forall|rows: Seq<i32>| rows.len() == 6 && passes_from(
            col_optimized_seq(ambiguous_catalog()),
            col_optimized_seq(fixed_catalog()),
            rows,
            0,
        ) ==> #[trigger] collected(r@, 0, rows),
        forall|k: int, row: int| 0 <= k < r@.len() && 0 <= row < 6 ==> is_ambiguous(#[trigger] r@[k]@[row])
            || is_fixed(r@[k]@[row]),
        r@.no_duplicates(),
{
    let (ambiguous_masks, fixed_masks) = generate_ambiguous_and_fixed_line_masks();
    let ambiguous_col_optimized_masks = sorted_col_optimized(&ambiguous_masks);
    let fixed_col_optimized_masks = sorted_col_optimized(&fixed_masks);
    let ghost ambiguous_remapped = Seq::new(
        ambiguous_masks@.len(),
        |i: int| col_optimized(ambiguous_masks@[i]),
    );
    let ghost fixed_remapped = Seq::new(fixed_masks@.len(), |i: int| col_optimized(fixed_masks@[i]));
    proof {
        broadcast use vstd::seq_lib::group_to_multiset_ensures;
        assert forall|x: i32| !(#[trigger] ambiguous_col_optimized_masks@.contains(x)
            && fixed_col_optimized_masks@.contains(x)) by {
            if ambiguous_col_optimized_masks@.contains(x) && fixed_col_optimized_masks@.contains(x) {
                assert(ambiguous_col_optimized_masks@.to_multiset().count(x) > 0);
                assert(fixed_col_optimized_masks@.to_multiset().count(x) > 0);
                assert(ambiguous_remapped.contains(x));
                assert(fixed_remapped.contains(x));
                let i = choose|i: int| 0 <= i < ambiguous_remapped.len() && ambiguous_remapped[i] == x;
                let j = choose|j: int| 0 <= j < fixed_remapped.len() && fixed_remapped[j] == x;
                lemma_col_optimized_involution(ambiguous_masks@[i]);
                lemma_col_optimized_involution(fixed_masks@[j]);
                assert(ambiguous_masks@[i] == fixed_masks@[j]);
                skeletons(SKELETON_COUNT as int).lemma_filter_pred(|m: i32| is_ambiguous(m), i);
                skeletons(SKELETON_COUNT as int).lemma_filter_pred(|m: i32| is_fixed(m), j);
            }
        }
    }
    let mut grid_generator = AmbiguousGridGenerator::new(
        &ambiguous_col_optimized_masks,
        &fixed_col_optimized_masks,
    );
    grid_generator.backtrack_rows();
    let grids = grid_generator.grids;
    proof {
        assert forall|a: int, b: int| 0 <= a < grids@.len() && 0 <= b < grids@.len() && a != b
            implies grids@[a] != grids@[b] by {
            if a < b {
                assert(grid_rows(grids@[a]@) != grid_rows(grids@[b]@));
            } else {
                assert(grid_rows(grids@[b]@) != grid_rows(grids@[a]@));
            }
        }
    }
    proof {
        broadcast use vstd::seq_lib::group_to_multiset_ensures;
        assert(ambiguous_remapped =~= col_optimized_seq(ambiguous_catalog()));
        assert(fixed_remapped =~= col_optimized_seq(fixed_catalog()));
        assert forall|x: i32| ambiguous_col_optimized_masks@.contains(x) <==> ambiguous_remapped.contains(x) by {
            assert(ambiguous_col_optimized_masks@.contains(x) <==> ambiguous_col_optimized_masks@.to_multiset().count(x) > 0);
            assert(ambiguous_remapped.contains(x) <==> ambiguous_remapped.to_multiset().count(x) > 0);
        }
        assert forall|x: i32| fixed_col_optimized_masks@.contains(x) <==> fixed_remapped.contains(x) by {
            assert(fixed_col_optimized_masks@.contains(x) <==> fixed_col_optimized_masks@.to_multiset().count(x) > 0);
            assert(fixed_remapped.contains(x) <==> fixed_remapped.to_multiset().count(x) > 0);
        }
        lemma_checks_by_members(
            ambiguous_col_optimized_masks@,
            fixed_col_optimized_masks@,
            ambiguous_remapped,
            fixed_remapped,
        );
        assert forall|rows: Seq<i32>| rows.len() == 6 && passes_from(ambiguous_remapped, fixed_remapped, rows, 0)
            implies #[trigger] collected(grids@, 0, rows) by {
            assert(passes_from(ambiguous_col_optimized_masks@, fixed_col_optimized_masks@, rows, 0));
            assert(extends_rows(rows, grid_generator.rows@, 0));
        }
        assert forall|k: int| 0 <= k < grids@.len() implies is_grid(ambiguous_remapped, fixed_remapped, #[trigger] grids@[k]@) by {
            assert(is_grid(ambiguous_col_optimized_masks@, fixed_col_optimized_masks@, grids@[k]@));
        }
    }
    proof {
        assert forall|k: int, row: int| 0 <= k < grids@.len() && 0 <= row < 6 implies is_ambiguous(
            #[trigger] grids@[k]@[row],
        ) || is_fixed(grids@[k]@[row]) by {
            let g = grids@[k]@;
            assert(is_grid(ambiguous_col_optimized_masks@, fixed_col_optimized_masks@, g));
            assert(grid_rows(g)[row] == col_optimized(g[row]));
            assert(ambiguous_col_optimized_masks@.contains(grid_rows(g)[row])
                || fixed_col_optimized_masks@.contains(grid_rows(g)[row]));
            if ambiguous_col_optimized_masks@.contains(col_optimized(g[row])) {
                lemma_row_from_catalog(ambiguous_col_optimized_masks@, ambiguous_remapped, ambiguous_masks@, g[row]);
                let i = choose|i: int| 0 <= i < ambiguous_masks@.len() && ambiguous_masks@[i] == g[row];
                skeletons(SKELETON_COUNT as int).lemma_filter_pred(|m: i32| is_ambiguous(m), i);
            } else {
                lemma_row_from_catalog(fixed_col_optimized_masks@, fixed_remapped, fixed_masks@, g[row]);
                let i = choose|i: int| 0 <= i < fixed_masks@.len() && fixed_masks@[i] == g[row];
                skeletons(SKELETON_COUNT as int).lemma_filter_pred(|m: i32| is_fixed(m), i);
            }
        }
    }
    grids
}

} // verus!
