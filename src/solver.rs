use vstd::prelude::*;

use crate::line::{
    Line, LineError, cell, colored_count, count_in, extends, lemma_cells_determine,
    lemma_count_update, lemma_field_range, lemma_field_set, lemma_set_then_clear,
    lemma_valid_of_extension, line_error, valid_line, with_cell,
};

verus! {

/// `f` is a complete, valid coloring of the partial line `p`.
pub open spec fn is_completion(f: i32, p: i32) -> bool {
    &&& extends(f, p)
    &&& forall|i: int| 0 <= i < 6 ==> #[trigger] cell(f, i) != 0
    &&& valid_line(f)
}

/// What was appended to `s` after its first `from` entries.
pub open spec fn appended(s: Seq<i32>, from: int) -> Seq<i32> {
    s.subrange(from, s.len() as int)
}

/// `s` lists every completion of `p` exactly once.
pub open spec fn lists_completions(s: Seq<i32>, p: i32) -> bool {
    &&& s.no_duplicates()
    &&& forall|f: i32| #[trigger] s.contains(f) <==> is_completion(f, p)
}

/// The completions of `p` in the order of a depth-first search over cells
/// `i` to 5: each empty cell is tried with a sun, then with a moon, and a
/// branch whose line breaks a rule is dropped.
pub open spec fn dfs_completions(p: i32, i: int) -> Seq<i32>
    decreases 6 - i,
{
    if i >= 6 {
        seq![p]
    } else if cell(p, i) != 0 {
        dfs_completions(p, i + 1)
    } else {
        (if valid_line(with_cell(p, i, 1)) {
            dfs_completions(with_cell(p, i, 1), i + 1)
        } else {
            Seq::empty()
        }) + (if valid_line(with_cell(p, i, 2)) {
            dfs_completions(with_cell(p, i, 2), i + 1)
        } else {
            Seq::empty()
        })
    }
}

proof fn lemma_dfs_full(p: i32, i: int)
    requires
        0 <= i <= 6,
        forall|j: int| i <= j < 6 ==> #[trigger] cell(p, j) != 0,
    ensures
        dfs_completions(p, i) == seq![p],
    decreases 6 - i,
{
    if i < 6 {
        lemma_dfs_full(p, i + 1);
    }
}

proof fn lemma_colored_count_bound(m: i32, n: int)
    requires
        0 <= n <= 6,
        forall|i: int| 0 <= i < 6 ==> #[trigger] cell(m, i) != 3,
    ensures
        count_in(m, 1, n) + count_in(m, 2, n) <= n,
        count_in(m, 1, n) + count_in(m, 2, n) == n <==> forall|i: int|
            0 <= i < n ==> #[trigger] cell(m, i) != 0,
    decreases n,
{
    if n > 0 {
        lemma_colored_count_bound(m, n - 1);
        lemma_field_range(m, (n - 1) as u32);
        assert(cell(m, n - 1) != 3);
        if count_in(m, 1, n) + count_in(m, 2, n) == n {
            assert forall|i: int| 0 <= i < n implies #[trigger] cell(m, i) != 0 by {
                if i < n - 1 {
                }
            }
        }
    }
}

/// Coloring an empty cell splits the completions by that cell's color.
proof fn lemma_completion_split(p: i32, x: i32, i: int, c: i32)
    requires
        0 <= i < 6,
        c == 1 || c == 2,
        cell(p, i) == 0,
    ensures
        (is_completion(x, p) && cell(x, i) == c) <==> is_completion(x, with_cell(p, i, c)),
{
    let q = with_cell(p, i, c);
    assert forall|k: int| 0 <= k < 6 implies #[trigger] cell(q, k) == if k == i {
        c
    } else {
        cell(p, k)
    } by {
        lemma_field_set(p, i as u32, k as u32, c);
    }
    lemma_set_then_clear(p, i as u32, c);
    if is_completion(x, q) {
        assert(cell(x, i) == cell(q, i));
        assert forall|k: int| 0 <= k < 6 implies #[trigger] cell(p, k) == 0 || cell(x, k) == cell(
            p,
            k,
        ) by {
            assert(cell(q, k) == 0 || cell(x, k) == cell(q, k));
        }
    }
    if is_completion(x, p) && cell(x, i) == c {
        assert forall|k: int| 0 <= k < 6 implies #[trigger] cell(q, k) == 0 || cell(x, k) == cell(
            q,
            k,
        ) by {
            assert(cell(p, k) == 0 || cell(x, k) == cell(p, k));
        }
    }
}

/// A line with a completion keeps every rule.
proof fn lemma_completion_valid(x: i32, p: i32)
    requires
        is_completion(x, p),
    ensures
        valid_line(p),
{
    lemma_valid_of_extension(p, x);
}

/// Appends every completion of `line` to `solutions`, each once, by coloring
/// the first empty cell after `last_colored_idx` with a sun, then a moon.
pub fn backtrack_line(line: &mut Line, last_colored_idx: i32, solutions: &mut Vec<i32>)
    requires
        -1 <= last_colored_idx < 6,
        forall|j: int| 0 <= j <= last_colored_idx ==> #[trigger] cell(old(line)@, j) != 0,
    ensures
        final(line)@ == old(line)@,
        final(solutions)@.len() >= old(solutions)@.len(),
        final(solutions)@.subrange(0, old(solutions)@.len() as int) == old(solutions)@,
        lists_completions(appended(final(solutions)@, old(solutions)@.len() as int), old(line)@),
        appended(final(solutions)@, old(solutions)@.len() as int) == dfs_completions(
            old(line)@,
            last_colored_idx + 1,
        ),
    decreases 6 - colored_count(old(line)@),
{
    let ghost p = line@;
    let ghost l0 = solutions@.len() as int;
    let full = line.full_mask();
    proof {
        lemma_colored_count_bound(p, 6);
    }
    if line.colored_cell_count() == 6 {
        solutions.push(full);
        proof {
            assert(extends(p, p));
            assert(is_completion(p, p));
            assert forall|f: i32| is_completion(f, p) implies f == p by {
                assert forall|k: int| 0 <= k < 6 implies #[trigger] cell(f, k) == cell(p, k) by {
                    assert(cell(p, k) != 0);
                }
                lemma_cells_determine(f, p);
            }
            let new = appended(solutions@, l0);
            assert(new =~= seq![p]);
            assert forall|f: i32| #[trigger] new.contains(f) <==> is_completion(f, p) by {
                if new.contains(f) {
                    let k = choose|k: int| 0 <= k < new.len() && new[k] == f;
                    assert(k == 0);
                }
                if is_completion(f, p) {
                    assert(new[0] == f);
                }
            }
            assert(solutions@.subrange(0, l0) =~= old(solutions)@);
            assert forall|j: int| last_colored_idx + 1 <= j < 6 implies #[trigger] cell(p, j) != 0 by {
            }
            lemma_dfs_full(p, last_colored_idx + 1);
        }
        return;
    }
    let mut i: i32 = last_colored_idx + 1;
    while i < 6
        invariant
            line@ == p,
            -1 <= last_colored_idx,
            last_colored_idx + 1 <= i <= 6,
            forall|j: int| 0 <= j < i ==> #[trigger] cell(p, j) != 0,
            dfs_completions(p, last_colored_idx + 1) == dfs_completions(p, i as int),
        ensures
            i < 6 ==> cell(p, i as int) == 0,
            forall|j: int| 0 <= j < i ==> #[trigger] cell(p, j) != 0,
            dfs_completions(p, last_colored_idx + 1) == dfs_completions(p, i as int),
        decreases 6 - i,
    {
        if line.color(i as usize) == 0 {
            break;
        }
        i += 1;
    }
    proof {
        if i == 6 {
            assert(false);
        }
    }
    let iu = i as usize;
    let ghost l1: int;
    let ghost l2: int;
    if line.set_color(iu, Line::YELLOW) {
        proof {
            assert forall|k: int| 0 <= k < 6 && k != i implies #[trigger] cell(line@, k) == cell(
                p,
                k,
            ) by {
                lemma_field_set(p, i as u32, k as u32, 1);
            }
            lemma_count_update(p, line@, 1, i as int, 6);
            lemma_count_update(p, line@, 2, i as int, 6);
            lemma_field_set(p, i as u32, i as u32, 1);
        }
        backtrack_line(line, i, solutions);
        line.uncolor(iu, Line::YELLOW);
        proof {
            lemma_set_then_clear(p, i as u32, 1);
        }
    }
    let ghost s1 = solutions@;
    proof {
        l1 = solutions@.len() as int;
        assert(l1 == l0 ==> s1.subrange(l0, l1) =~= Seq::<i32>::empty());
    }
    if line.set_color(iu, Line::BLUE) {
        proof {
            assert forall|k: int| 0 <= k < 6 && k != i implies #[trigger] cell(line@, k) == cell(
                p,
                k,
            ) by {
                lemma_field_set(p, i as u32, k as u32, 2);
            }
            lemma_count_update(p, line@, 1, i as int, 6);
            lemma_count_update(p, line@, 2, i as int, 6);
            lemma_field_set(p, i as u32, i as u32, 2);
        }
        backtrack_line(line, i, solutions);
        line.uncolor(iu, Line::BLUE);
        proof {
            lemma_set_then_clear(p, i as u32, 2);
        }
    }
    proof {
        l2 = solutions@.len() as int;
        let s = solutions@;
        let new1 = s.subrange(l0, l1);
        let new2 = s.subrange(l1, l2);
        assert(new1 =~= s1.subrange(l0, l1));
        assert(new1 == if valid_line(with_cell(p, i as int, 1)) {
            dfs_completions(with_cell(p, i as int, 1), i + 1)
        } else {
            Seq::<i32>::empty()
        });
        assert(new2 == if valid_line(with_cell(p, i as int, 2)) {
            dfs_completions(with_cell(p, i as int, 2), i + 1)
        } else {
            Seq::<i32>::empty()
        });
        assert(appended(s, l0) == dfs_completions(p, i as int));
        assert(s1.subrange(l0, l1) =~= appended(s1, l0));
        assert(new2 =~= appended(s, l1));

        assert(appended(s, l0) =~= new1 + new2);
        assert(s.subrange(0, l0) =~= old(solutions)@);
        assert forall|f: i32| #[trigger] new1.contains(f) <==> is_completion(f, p) && cell(f, i as int)
            == 1 by {
            lemma_completion_split(p, f, i as int, 1);
            if is_completion(f, with_cell(p, i as int, 1)) {
                lemma_completion_valid(f, with_cell(p, i as int, 1));
            }
        }
        assert forall|f: i32| #[trigger] new2.contains(f) <==> is_completion(f, p) && cell(f, i as int)
            == 2 by {
            lemma_completion_split(p, f, i as int, 2);
            if is_completion(f, with_cell(p, i as int, 2)) {
                lemma_completion_valid(f, with_cell(p, i as int, 2));
            }
        }
        let all = new1 + new2;
        assert forall|f: i32| #[trigger] all.contains(f) <==> is_completion(f, p) by {
            if is_completion(f, p) {
                lemma_field_range(f, i as u32);
                assert(cell(f, i as int) != 0);
                assert(cell(f, i as int) != 3);
                if cell(f, i as int) == 1 {
                    assert(new1.contains(f));
                    let k = choose|k: int| 0 <= k < new1.len() && new1[k] == f;
                    assert(all[k] == f);
                    assert(all.contains(f));
                } else {
                    assert(new2.contains(f));
                    let k = choose|k: int| 0 <= k < new2.len() && new2[k] == f;
                    assert(all[new1.len() + k] == f);
                    assert(all.contains(f));
                }
            }
            if all.contains(f) {
                let k = choose|k: int| 0 <= k < (new1 + new2).len() && (new1 + new2)[k] == f;
                if k < new1.len() {
                    assert(new1[k] == f);
                    assert(new1.contains(f));
                } else {
                    assert(new2[k - new1.len()] == f);
                    assert(new2.contains(f));
                }
            }
        }
        assert forall|a: int, b: int| 0 <= a < all.len() && 0 <= b < all.len() && a != b implies all[a]
            != all[b] by {
            if a < new1.len() && b >= new1.len() {
                assert(new1.contains(all[a]));
                assert(new2.contains(all[b]));
            } else if a >= new1.len() && b < new1.len() {
                assert(new2.contains(all[a]));
                assert(new1.contains(all[b]));
            } else if a < new1.len() {
                assert(new1[a] != new1[b]);
            } else {
                assert(new2[a - new1.len()] != new2[b - new1.len()]);
            }
        }
    }
}

/// Every completion of `line`, each once.
pub fn solve_line(line: &mut Line) -> (r: Result<Vec<i32>, LineError>)
    ensures
        final(line)@ == old(line)@,
        r matches Ok(v) && lists_completions(v@, old(line)@) && v@ == dfs_completions(old(line)@, 0),
{
    let mut results: Vec<i32> = Vec::with_capacity(16);
    backtrack_line(line, -1, &mut results);
    proof {
        assert(appended(results@, 0) =~= results@);
    }
    Ok(results)
}

/// Every completion of the line packed in `mask`, each once, or the error
/// that constructing the line reports.
pub fn solve_mask(mask: i32) -> (r: Result<Vec<i32>, LineError>)
    ensures
        r is Ok <==> line_error(mask) is None,
        r matches Err(e) ==> line_error(mask) == Some(e),
        r matches Ok(v) ==> lists_completions(v@, mask) && v@ == dfs_completions(mask, 0),
{
    let mut line = Line::try_from(mask)?;
    solve_line(&mut line)
}

} // verus!
