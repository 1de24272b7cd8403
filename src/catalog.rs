use vstd::prelude::*;

use crate::line::{
    Line, LineError, cell, colored_count, field, lemma_field_range, lemma_line_error_none,
    line_error, valid_line,
};
use crate::solver::{is_completion, solve_mask};

verus! {

pub open spec fn pow3(k: nat) -> int
    decreases k,
{
    if k == 0 {
        1
    } else {
        3 * pow3((k - 1) as nat)
    }
}

pub open spec fn pow4(k: nat) -> int
    decreases k,
{
    if k == 0 {
        1
    } else {
        4 * pow4((k - 1) as nat)
    }
}

/// The base-3 digits of `n`, each written into a two-bit field.
pub open spec fn ternary_encoding(n: int) -> int
    decreases n,
{
    if n <= 0 {
        0
    } else {
        n % 3 + 4 * ternary_encoding(n / 3)
    }
}

/// Number of line skeletons: eleven fields, each 0, 1 or 2.
pub const SKELETON_COUNT: i32 = 177147;

/// The `i`-th line skeleton.
pub open spec fn skeleton(i: int) -> i32 {
    ternary_encoding(i) as i32
}

/// The first `n` skeletons, in order.
pub open spec fn skeletons(n: int) -> Seq<i32> {
    Seq::new(n as nat, |i: int| skeleton(i))
}

/// Bit `b` of `v` is set.
pub open spec fn bit(v: i32, b: u32) -> bool {
    (v >> b) & 1 == 1
}

pub open spec fn has_completion(m: i32) -> bool {
    exists|f: i32| is_completion(f, m)
}

/// Color bit `b` is clear in `m` and set in every completion of `m`: the
/// color of its cell is forced.
pub open spec fn forced_bit(m: i32, b: u32) -> bool {
    &&& !bit(m, b)
    &&& forall|f: i32| is_completion(f, m) ==> bit(f, b)
}

/// `v` holds exactly the forced color bits of `m`.
pub open spec fn is_sieve(m: i32, v: i32) -> bool {
    &&& 0 <= v < 4096
    &&& forall|b: u32| b < 12 ==> (bit(v, b) <==> #[trigger] forced_bit(m, b))
}

/// The classification of a valid line: -1 when every cell is colored, -2
/// when no completion exists, otherwise its sieve.
pub open spec fn is_consolidation(m: i32, v: i32) -> bool {
    if colored_count(m) == 6 {
        v == -1
    } else if !has_completion(m) {
        v == -2
    } else {
        is_sieve(m, v)
    }
}

/// A valid, incomplete line with a completion, none of whose color bits is
/// forced.
pub open spec fn is_ambiguous(m: i32) -> bool {
    &&& valid_line(m)
    &&& colored_count(m) < 6
    &&& has_completion(m)
    &&& forall|b: u32| b < 12 ==> !#[trigger] forced_bit(m, b)
}

/// A valid line with every cell colored.
pub open spec fn is_fixed(m: i32) -> bool {
    valid_line(m) && colored_count(m) == 6
}

proof fn lemma_pow3_4_11()
    ensures
        pow3(11) == 177147,
        pow4(11) == 4194304,
{
    reveal_with_fuel(pow3, 12);
    reveal_with_fuel(pow4, 12);
}

proof fn lemma_pow4_mono(k: nat)
    requires
        k <= 11,
    ensures
        1 <= pow4(k) <= pow4(11),
    decreases 11 - k,
{
    if k < 11 {
        lemma_pow4_mono(k + 1);
    } else {
        lemma_pow3_4_11();
    }
}

proof fn lemma_pow3_pos(k: nat)
    ensures
        pow3(k) >= 1,
    decreases k,
{
    if k > 0 {
        lemma_pow3_pos((k - 1) as nat);
    }
}

/// Writes the base-3 digits of `n` into two-bit fields, lowest first.
pub fn ternary_to_encoded_binary(n: i32) -> (r: i32)
    requires
        n < SKELETON_COUNT,
    ensures
        r == ternary_encoding(n as int),
        0 <= r < 4194304,
{
    let mut encoded: i32 = 0;
    let mut place: i32 = 1;
    let mut x: i32 = n;
    let ghost mut k: nat = 0;
    proof {
        lemma_pow3_4_11();
    }
    if n <= 0 {
        return 0;
    }
    while x > 0
        invariant
            0 < n < 177147,
            0 <= x,
            k <= 11,
            place == pow4(k),
            0 <= encoded < place,
            x * pow3(k) <= n,
            encoded + place * ternary_encoding(x as int) == ternary_encoding(n as int),
            pow3(11) == 177147,
            pow4(11) == 4194304,
        decreases x,
    {
        proof {
            lemma_pow3_pos(k);
            if k == 11 {
                assert(x * pow3(k) >= pow3(k)) by (nonlinear_arith)
                    requires
                        x >= 1,
                        pow3(k) >= 1,
                ;
            }
            lemma_pow4_mono(k + 1);
        }
        let trit = x % 3;
        let ghost e = ternary_encoding((x / 3) as int);
        assert(ternary_encoding(x as int) == trit + 4 * e);
        assert(encoded + trit * place < 4 * place) by (nonlinear_arith)
            requires
                0 <= encoded < place,
                0 <= trit < 3,
        ;
        assert(encoded + trit * place + (4 * place) * e == encoded + place * (trit + 4 * e))
            by (nonlinear_arith);
        assert((x / 3) * (3 * pow3(k)) <= x * pow3(k)) by (nonlinear_arith)
            requires
                x >= 0,
                pow3(k) >= 1,
        ;
        encoded = encoded + trit * place;
        place = place * 4;
        x = x / 3;
        proof {
            k = k + 1;
        }
    }
    proof {
        lemma_pow4_mono(k);
    }
    encoded
}

proof fn lemma_ternary_encoding_positive(n: int)
    requires
        n > 0,
    ensures
        ternary_encoding(n) > 0,
    decreases n,
{
    if n % 3 == 0 {
        lemma_ternary_encoding_positive(n / 3);
    } else {
        lemma_ternary_encoding_nonneg(n / 3);
    }
}

proof fn lemma_ternary_encoding_nonneg(n: int)
    ensures
        ternary_encoding(n) >= 0,
    decreases n,
{
    if n > 0 {
        lemma_ternary_encoding_nonneg(n / 3);
    }
}

/// Distinct indices give distinct skeletons.
proof fn lemma_ternary_encoding_injective(i: int, j: int)
    requires
        0 <= i,
        0 <= j,
        ternary_encoding(i) == ternary_encoding(j),
    ensures
        i == j,
    decreases i,
{
    if i == 0 || j == 0 {
        if i > 0 {
            lemma_ternary_encoding_positive(i);
        }
        if j > 0 {
            lemma_ternary_encoding_positive(j);
        }
    } else {
        let a = i % 3;
        let b = j % 3;
        let ei = ternary_encoding(i / 3);
        let ej = ternary_encoding(j / 3);
        lemma_ternary_encoding_nonneg(i / 3);
        lemma_ternary_encoding_nonneg(j / 3);
        assert(a + 4 * ei == b + 4 * ej);
        assert(a == b && ei == ej) by (nonlinear_arith)
            requires
                0 <= a < 3,
                0 <= b < 3,
                a + 4 * ei == b + 4 * ej,
        ;
        lemma_ternary_encoding_injective(i / 3, j / 3);
    }
}

proof fn lemma_bit_complement(m: i32, s: i32, b: u32)
    requires
        s == 4095 - (m & 0xFFF),
        b < 12,
    ensures
        0 <= s < 4096,
        bit(s, b) <==> !bit(m, b),
{
    assert(0 <= s < 4096 && ((s >> b) & 1 == 1 <==> !((m >> b) & 1 == 1))) by (bit_vector)
        requires
            s == 4095 - (m & 0xFFF),
            b < 12,
    ;
}

proof fn lemma_bit_meet(x: i32, y: i32, b: u32)
    requires
        0 <= x < 4096,
        b < 12,
    ensures
        0 <= x & (y & 0xFFF) < 4096,
        bit(x & (y & 0xFFF), b) <==> bit(x, b) && bit(y, b),
{
    assert(0 <= x & (y & 0xFFF) < 4096) by (bit_vector)
        requires
            0 <= x < 4096,
    ;
    assert(((x & (y & 0xFFF)) >> b) & 1 == 1 <==> (x >> b) & 1 == 1 && (y >> b) & 1 == 1)
        by (bit_vector)
        requires
            b < 12,
    ;
}

proof fn lemma_bits_zero(v: i32)
    requires
        0 <= v < 4096,
        forall|b: u32| b < 12 ==> !#[trigger] bit(v, b),
    ensures
        v == 0,
{
    assert(!bit(v, 0) && !bit(v, 1) && !bit(v, 2) && !bit(v, 3) && !bit(v, 4) && !bit(v, 5));
    assert(!bit(v, 6) && !bit(v, 7) && !bit(v, 8) && !bit(v, 9) && !bit(v, 10) && !bit(v, 11));
    assert(v == 0) by (bit_vector)
        requires
            0 <= v < 4096,
            (v >> 0u32) & 1 != 1,
            (v >> 1u32) & 1 != 1,
            (v >> 2u32) & 1 != 1,
            (v >> 3u32) & 1 != 1,
            (v >> 4u32) & 1 != 1,
            (v >> 5u32) & 1 != 1,
            (v >> 6u32) & 1 != 1,
            (v >> 7u32) & 1 != 1,
            (v >> 8u32) & 1 != 1,
            (v >> 9u32) & 1 != 1,
            (v >> 10u32) & 1 != 1,
            (v >> 11u32) & 1 != 1,
    ;
}

/// A consolidation is zero exactly when the line is ambiguous.
pub proof fn lemma_consolidation_zero(m: i32, v: i32)
    requires
        valid_line(m),
        is_consolidation(m, v),
    ensures
        v == 0 <==> is_ambiguous(m),
{
    if colored_count(m) < 6 && has_completion(m) {
        if is_ambiguous(m) {
            assert forall|b: u32| b < 12 implies !#[trigger] bit(v, b) by {
                assert(!forced_bit(m, b));
            }
            lemma_bits_zero(v);
        }
        if v == 0 {
            assert forall|b: u32| b < 12 implies !#[trigger] forced_bit(m, b) by {
                assert(!bit(0i32, b)) by (bit_vector);
            }
        }
    }
}

/// Two completions of `m` disagree on cell `i`.
pub open spec fn undecided_at(m: i32, i: int) -> bool {
    exists|f: i32, g: i32| is_completion(f, m) && is_completion(g, m) && #[trigger] cell(f, i) != #[trigger] cell(g, i)
}

/// The two color bits of a cell.
proof fn lemma_cell_bits(m: i32, i: u32)
    requires
        i < 6,
    ensures
        bit(m, (i + i) as u32) <==> (field(m, i) == 1 || field(m, i) == 3),
        bit(m, (i + i + 1) as u32) <==> field(m, i) >= 2,
{
    assert(((m >> (i + i)) & 1 == 1 <==> ((m >> (i + i)) & 3 == 1 || (m >> (i + i)) & 3 == 3))
        && ((m >> (i + i + 1)) & 1 == 1 <==> (m >> (i + i)) & 3 >= 2)) by (bit_vector)
        requires
            i < 6,
    ;
}

/// A line is ambiguous exactly when it is valid, not fully colored, has a
/// completion, and every empty cell is colored differently by two of its
/// completions.
pub proof fn lemma_ambiguous_iff_undecided(m: i32)
    requires
        valid_line(m),
    ensures
        is_ambiguous(m) <==> colored_count(m) < 6 && has_completion(m) && forall|i: int|
            0 <= i < 6 && cell(m, i) == 0 ==> #[trigger] undecided_at(m, i),
{
    if is_ambiguous(m) {
        assert forall|i: int| 0 <= i < 6 && cell(m, i) == 0 implies #[trigger] undecided_at(m, i) by {
            let iu = i as u32;
            lemma_cell_bits(m, iu);
            assert(!forced_bit(m, (iu + iu) as u32));
            assert(!forced_bit(m, (iu + iu + 1) as u32));
            let f = choose|f: i32| is_completion(f, m) && !bit(f, (iu + iu) as u32);
            let g = choose|g: i32| is_completion(g, m) && !bit(g, (iu + iu + 1) as u32);
            lemma_cell_bits(f, iu);
            lemma_cell_bits(g, iu);
            lemma_field_range(f, iu);
            lemma_field_range(g, iu);
            assert(cell(f, i) != 0 && cell(g, i) != 0);
            assert(cell(f, i) != cell(g, i));
        }
    }
    if colored_count(m) < 6 && has_completion(m) && forall|i: int|
        0 <= i < 6 && cell(m, i) == 0 ==> #[trigger] undecided_at(m, i) {
        let h = choose|h: i32| is_completion(h, m);
        assert forall|b: u32| b < 12 implies !#[trigger] forced_bit(m, b) by {
            let iu = b / 2;
            let i = iu as int;
            lemma_cell_bits(m, iu);
            lemma_cell_bits(h, iu);
            lemma_field_range(m, iu);
            lemma_field_range(h, iu);
            assert(b == iu + iu || b == iu + iu + 1);
            assert(cell(m, i) != 3);
            if cell(m, i) == 0 {
                assert(undecided_at(m, i));
                let (f, g) = choose|f: i32, g: i32| is_completion(f, m) && is_completion(g, m) && #[trigger] cell(f, i) != #[trigger] cell(g, i);
                lemma_cell_bits(f, iu);
                lemma_cell_bits(g, iu);
                lemma_field_range(f, iu);
                lemma_field_range(g, iu);
                assert(cell(f, i) != 0 && cell(g, i) != 0 && cell(f, i) != 3 && cell(g, i) != 3);
            } else {
                assert(cell(h, i) == cell(m, i));
            }
        }
    }
}

/// Classifies the line packed in `mask`: -1 when it is fully colored, -2
/// when it has no completion, otherwise the mask of its forced color bits,
/// which is zero exactly when the line is ambiguous.
pub fn consolidate_mask(mask: i32) -> (r: Result<i32, LineError>)
    ensures
        r is Ok <==> line_error(mask) is None,
        r matches Err(e) ==> line_error(mask) == Some(e),
        r matches Ok(v) ==> is_consolidation(mask, v),
{
    let line = Line::try_from(mask)?;
    if line.colored_cell_count() == 6 {
        return Ok(-1);
    }
    let solutions = solve_mask(mask)?;
    if solutions.len() == 0 {
        proof {
            assert forall|f: i32| !is_completion(f, mask) by {
                assert(!solutions@.contains(f));
            }
        }
        return Ok(-2);
    }
    proof {
        assert(solutions@.contains(solutions@[0]));
        assert(is_completion(solutions@[0], mask));
    }
    let mask_colors = Line::mask_color_mask(mask);
    assert(0 <= mask_colors <= 4095) by (bit_vector)
        requires
            mask_colors == mask & 0xFFF,
    ;
    let mut sieve: i32 = 4095;
    sieve -= mask_colors;
    proof {
        assert forall|b: u32| b < 12 implies (#[trigger] bit(sieve, b) <==> !bit(mask, b)) by {
            lemma_bit_complement(mask, sieve, b);
        }
        lemma_bit_complement(mask, sieve, 0);
    }
    let mut j: usize = 0;
    while j < solutions.len()
        invariant
            0 <= j <= solutions.len(),
            0 <= sieve < 4096,
            forall|b: u32| b < 12 ==> (#[trigger] bit(sieve, b) <==> !bit(mask, b) && forall|i: int|
                0 <= i < j ==> bit(#[trigger] solutions@[i], b)),
        decreases solutions.len() - j,
    {
        let solution = solutions[j];
        let solution_colors = Line::mask_color_mask(solution);
        let ghost old_sieve = sieve;
        sieve &= solution_colors;
        proof {
            assert forall|b: u32| b < 12 implies (#[trigger] bit(sieve, b) <==> bit(old_sieve, b)
                && bit(solution, b)) by {
                lemma_bit_meet(old_sieve, solution, b);
            }
            lemma_bit_meet(old_sieve, solution, 0);
        }
        j += 1;
    }
    proof {
        assert forall|b: u32| b < 12 implies (bit(sieve, b) <==> #[trigger] forced_bit(mask, b)) by {
            if bit(sieve, b) {
                assert forall|f: i32| is_completion(f, mask) implies bit(f, b) by {
                    assert(solutions@.contains(f));
                    let i = choose|i: int| 0 <= i < solutions@.len() && solutions@[i] == f;
                    assert(bit(solutions@[i], b));
                }
            }
            if forced_bit(mask, b) {
                assert forall|i: int| 0 <= i < j implies bit(#[trigger] solutions@[i], b) by {
                    assert(solutions@.contains(solutions@[i]));
                }
            }
        }
    }
    Ok(sieve)
}

/// Every ambiguous line among the skeletons, in skeleton order.
pub fn generate_ambiguous_line_masks() -> (r: Vec<i32>)
    ensures
        r@ == skeletons(SKELETON_COUNT as int).filter(|m: i32| is_ambiguous(m)),
{
    generate_ambiguous_and_fixed_line_masks().0
}

/// The ambiguous and the fixed lines among the skeletons, each in skeleton
/// order, found in one pass.
pub fn generate_ambiguous_and_fixed_line_masks() -> (r: (Vec<i32>, Vec<i32>))
    ensures
        r.0@ == skeletons(SKELETON_COUNT as int).filter(|m: i32| is_ambiguous(m)),
        r.1@ == skeletons(SKELETON_COUNT as int).filter(|m: i32| is_fixed(m)),
        forall|j: int| 0 <= j < r.0@.len() ==> 0 <= #[trigger] r.0@[j] < 0x400000,
        forall|j: int| 0 <= j < r.1@.len() ==> 0 <= #[trigger] r.1@[j] < 0x400000,
        r.0@.no_duplicates(),
        r.1@.no_duplicates(),
{
    let mut ambiguous: Vec<i32> = Vec::with_capacity(858);
    let mut fixed: Vec<i32> = Vec::new();
    let mut i: i32 = 0;
    while i < SKELETON_COUNT
        invariant
            0 <= i <= SKELETON_COUNT,
            ambiguous@ == skeletons(i as int).filter(|m: i32| is_ambiguous(m)),
            fixed@ == skeletons(i as int).filter(|m: i32| is_fixed(m)),
            forall|j: int| 0 <= j < ambiguous@.len() ==> 0 <= #[trigger] ambiguous@[j] < 0x400000,
            forall|j: int| 0 <= j < fixed@.len() ==> 0 <= #[trigger] fixed@[j] < 0x400000,
            ambiguous@.no_duplicates(),
            fixed@.no_duplicates(),
            forall|a: int| 0 <= a < ambiguous@.len() ==> exists|j: int| 0 <= j < i && #[trigger] ambiguous@[a] == ternary_encoding(j),
            forall|a: int| 0 <= a < fixed@.len() ==> exists|j: int| 0 <= j < i && #[trigger] fixed@[a] == ternary_encoding(j),
        decreases SKELETON_COUNT - i,
    {
        let mask = ternary_to_encoded_binary(i);
        proof {
            reveal(Seq::filter);
            assert(skeletons(i + 1).drop_last() =~= skeletons(i as int));
            assert(skeletons(i + 1).last() == mask);
            lemma_line_error_none(mask);
            assert forall|a: int| 0 <= a < ambiguous@.len() implies ambiguous@[a] != mask by {
                let j = choose|j: int| 0 <= j < i && #[trigger] ambiguous@[a] == ternary_encoding(j);
                if ambiguous@[a] == mask {
                    lemma_ternary_encoding_injective(j, i as int);
                }
            }
            assert forall|a: int| 0 <= a < fixed@.len() implies fixed@[a] != mask by {
                let j = choose|j: int| 0 <= j < i && #[trigger] fixed@[a] == ternary_encoding(j);
                if fixed@[a] == mask {
                    lemma_ternary_encoding_injective(j, i as int);
                }
            }
        }
        let ghost amb0 = ambiguous@;
        let ghost fixed0 = fixed@;
        match consolidate_mask(mask) {
            Ok(consolidation) => {
                proof {
                    lemma_consolidation_zero(mask, consolidation);
                }
                if consolidation == 0 {
                    ambiguous.push(mask);
                } else if consolidation == -1 {
                    fixed.push(mask);
                }
            },
            Err(_) => (),
        }
        proof {
            assert(ambiguous@ =~= skeletons(i + 1).filter(|m: i32| is_ambiguous(m)));
            assert(fixed@ =~= skeletons(i + 1).filter(|m: i32| is_fixed(m)));
            assert forall|a: int| 0 <= a < ambiguous@.len() implies exists|j: int| 0 <= j < i + 1 && #[trigger] ambiguous@[a] == ternary_encoding(j) by {
                if a < amb0.len() {
                    assert(ambiguous@[a] == amb0[a]);
                    let j = choose|j: int| 0 <= j < i && #[trigger] amb0[a] == ternary_encoding(j);
                    assert(ambiguous@[a] == ternary_encoding(j));
                } else {
                    assert(ambiguous@[a] == ternary_encoding(i as int));
                }
            }
            assert forall|a: int| 0 <= a < fixed@.len() implies exists|j: int| 0 <= j < i + 1 && #[trigger] fixed@[a] == ternary_encoding(j) by {
                if a < fixed0.len() {
                    assert(fixed@[a] == fixed0[a]);
                    let j = choose|j: int| 0 <= j < i && #[trigger] fixed0[a] == ternary_encoding(j);
                    assert(fixed@[a] == ternary_encoding(j));
                } else {
                    assert(fixed@[a] == ternary_encoding(i as int));
                }
            }
        }
        i += 1;
    }
    (ambiguous, fixed)
}

} // verus!
