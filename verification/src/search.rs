//! Depth-first word search over a grid: decides, exactly, whether a word can
//! be traced along a self-avoiding 8-connected path.

use vstd::prelude::*;
use crate::grid::{
    adjacent, continues, found_at, grid_square, is_found, lemma_found_iff_start, lemma_path_step,
    mask_clear, mask_mark, mask_wf, pos_wf, path_spells, path_avoids, rows, set_cell,
};

verus! {

/// A fresh all-false visited mask for an `n` by `n` grid.
fn make_mask(n: usize) -> (r: Vec<Vec<bool>>)
    ensures
        rows(r@) == mask_clear(n as int),
{
    let mut m: Vec<Vec<bool>> = Vec::new();
    let mut y: usize = 0;
    while y < n
        invariant
            y <= n,
            m@.len() == y,
            forall|j: int| 0 <= j < y ==> (#[trigger] m@[j])@ =~= Seq::new(n as nat, |x: int| false),
        decreases n - y,
    {
        let mut row: Vec<bool> = Vec::new();
        let mut x: usize = 0;
        while x < n
            invariant
                x <= n,
                row@.len() == x,
                forall|k: int| 0 <= k < x ==> !(#[trigger] row@[k]),
            decreases n - x,
        {
            row.push(false);
            x = x + 1;
        }
        assert(row@ =~= Seq::new(n as nat, |x: int| false));
        m.push(row);
        y = y + 1;
    }
    assert(rows(m@) =~~= mask_clear(n as int));
    m
}

/// Attempt to place character `i` of `word` on cell `(ny, nx)` and trace the
/// rest of the word from there. Returns exactly whether a trace of
/// `word[i..]` starts at that cell while avoiding the current mask; on
/// failure the mask is left as it was.
fn try_cell(
    grid: &Vec<Vec<char>>,
    word: &Vec<char>,
    i: usize,
    ny: usize,
    nx: usize,
    visited: &mut Vec<Vec<bool>>,
) -> (r: bool)
    requires
        grid_square(rows(grid@)),
        i < word@.len(),
        pos_wf(grid@.len() as int, (ny as int, nx as int)),
        mask_wf(grid@.len() as int, rows(old(visited)@)),
    ensures
        mask_wf(grid@.len() as int, rows(final(visited)@)),
        r == found_at(
            rows(grid@),
            word@.subrange(i as int, word@.len() as int),
            (ny as int, nx as int),
            rows(old(visited)@),
        ),
        !r ==> rows(final(visited)@) == rows(old(visited)@),
    decreases word@.len() - i, 0nat,
{
    let ghost g = rows(grid@);
    let ghost m0 = rows(old(visited)@);
    let ghost rest = word@.subrange(i as int, word@.len() as int);
    let ghost q = (ny as int, nx as int);
    proof {
        lemma_path_step(g, rest, q, m0);
    }
    let _wl = word.len();
    if grid[ny][nx] == word[i] && !visited[ny][nx] {
        let r = search_rest(grid, word, i + 1, ny, nx, visited);
        proof {
            assert(rest.subrange(1, rest.len() as int) =~= word@.subrange(
                i + 1,
                word@.len() as int,
            ));
        }
        r
    } else {
        false
    }
}

/// Trace `word[i..]` onward from cell `(y, x)`, which has just matched
/// character `i - 1` and is still unmarked. The cell is marked for the
/// duration of the attempt; on failure the mask is restored exactly.
fn search_rest(
    grid: &Vec<Vec<char>>,
    word: &Vec<char>,
    i: usize,
    y: usize,
    x: usize,
    visited: &mut Vec<Vec<bool>>,
) -> (r: bool)
    requires
        grid_square(rows(grid@)),
        i <= word@.len(),
        pos_wf(grid@.len() as int, (y as int, x as int)),
        mask_wf(grid@.len() as int, rows(old(visited)@)),
        !rows(old(visited)@)[y as int][x as int],
    ensures
        mask_wf(grid@.len() as int, rows(final(visited)@)),
        r == continues(
            rows(grid@),
            word@.subrange(i as int, word@.len() as int),
            (y as int, x as int),
            mask_mark(rows(old(visited)@), y as int, x as int),
        ),
        !r ==> rows(final(visited)@) == rows(old(visited)@),
    decreases word@.len() - i, 1nat,
{
    let ghost g = rows(grid@);
    let ghost m0 = rows(old(visited)@);
    let ghost m1 = mask_mark(m0, y as int, x as int);
    let ghost rest = word@.subrange(i as int, word@.len() as int);
    let n = grid.len();
    proof {
        assert(rows(old(visited)@)[y as int] == old(visited)@[y as int]@);
    }
    set_cell(visited, y, x, true);
    proof {
        assert(rows(visited@) == m1);
        assert(mask_wf(grid@.len() as int, m1));
    }
    if i == word.len() {
        proof {
            let p = Seq::<(int, int)>::empty();
            assert(path_spells(g, rest, p) && path_avoids(m1, p) && (p.len() > 0 ==> adjacent(
                (y as int, x as int),
                p[0],
            )));
        }
        return true;
    }
    if y > 0 {
        if try_cell(grid, word, i, y - 1, x, visited) {
            return true;
        }
    }
    proof {
        assert(rows(visited@) == m1);
    }
    if y > 0 && x > 0 {
        if try_cell(grid, word, i, y - 1, x - 1, visited) {
            return true;
        }
    }
    proof {
        assert(rows(visited@) == m1);
    }
    if y > 0 && x + 1 < n {
        if try_cell(grid, word, i, y - 1, x + 1, visited) {
            return true;
        }
    }
    proof {
        assert(rows(visited@) == m1);
    }
    if y + 1 < n {
        if try_cell(grid, word, i, y + 1, x, visited) {
            return true;
        }
    }
    proof {
        assert(rows(visited@) == m1);
    }
    if y + 1 < n && x > 0 {
        if try_cell(grid, word, i, y + 1, x - 1, visited) {
            return true;
        }
    }
    proof {
        assert(rows(visited@) == m1);
    }
    if y + 1 < n && x + 1 < n {
        if try_cell(grid, word, i, y + 1, x + 1, visited) {
            return true;
        }
    }
    proof {
        assert(rows(visited@) == m1);
    }
    if x > 0 {
        if try_cell(grid, word, i, y, x - 1, visited) {
            return true;
        }
    }
    proof {
        assert(rows(visited@) == m1);
    }
    if x + 1 < n {
        if try_cell(grid, word, i, y, x + 1, visited) {
            return true;
        }
    }
    proof {
        assert(rows(visited@) == m1);
    }
    proof {
        assert(visited@.len() == rows(visited@).len());
        assert(visited@[y as int]@ == rows(visited@)[y as int]);
    }
    set_cell(visited, y, x, false);
    proof {
        assert(m1[y as int] == m0[y as int].update(x as int, true));
        assert(m1[y as int].update(x as int, false) =~= m0[y as int]);
        assert(rows(visited@) =~= m0);
        if continues(g, rest, (y as int, x as int), m1) {
            let p = choose|p: Seq<(int, int)>|
                path_spells(g, rest, p) && path_avoids(m1, p) && (p.len() > 0 ==> adjacent(
                    (y as int, x as int),
                    p[0],
                ));
            assert(p.len() == rest.len() >= 1);
            let q = p[0];
            assert(found_at(g, rest, q, m1));
            assert(pos_wf(n as int, q) && adjacent((y as int, x as int), q));
            assert(false);
        }
    }
    false
}

/// Decide, exactly, whether `word` can be traced on the grid along a
/// self-avoiding path of 8-connected cells.
pub fn word_is_found(grid: &Vec<Vec<char>>, word: &Vec<char>) -> (r: bool)
    requires
        grid_square(rows(grid@)),
        word@.len() >= 1,
    ensures
        r == is_found(rows(grid@), word@),
    decreases word@.len(),
{
    let ghost g = rows(grid@);
    let n = grid.len();
    proof {
        lemma_found_iff_start(g, word@);
    }
    let mut y: usize = 0;
    while y < n
        invariant
            grid_square(rows(grid@)),
            word@.len() >= 1,
            g == rows(grid@),
            n == grid@.len(),
            y <= n,
            forall|q: (int, int)|
                pos_wf(n as int, q) && q.0 < y ==> !found_at(g, word@, q, mask_clear(n as int)),
        decreases n - y,
    {
        let mut x: usize = 0;
        while x < n
            invariant
                grid_square(rows(grid@)),
                word@.len() >= 1,
                g == rows(grid@),
                n == grid@.len(),
                y < n,
                x <= n,
                forall|q: (int, int)|
                    pos_wf(n as int, q) && q.0 < y ==> !found_at(g, word@, q, mask_clear(n as int)),
                forall|q: (int, int)|
                    pos_wf(n as int, q) && q.0 == y && q.1 < x ==> !found_at(
                        g,
                        word@,
                        q,
                        mask_clear(n as int),
                    ),
            decreases n - x,
        {
            let mut visited = make_mask(n);
            if try_cell(grid, word, 0, y, x, &mut visited) {
                proof {
                    assert(word@.subrange(0, word@.len() as int) =~= word@);
                    assert(found_at(g, word@, (y as int, x as int), mask_clear(n as int)));
                }
                return true;
            }
            proof {
                assert(word@.subrange(0, word@.len() as int) =~= word@);
            }
            x = x + 1;
        }
        y = y + 1;
    }
    proof {
        if is_found(g, word@) {
            let q = choose|q: (int, int)| found_at(g, word@, q, mask_clear(n as int));
            let p = choose|p: Seq<(int, int)>|
                path_spells(g, word@, p) && path_avoids(mask_clear(n as int), p) && p.len() > 0
                    && p[0] == q;
            assert(pos_wf(n as int, q));
            assert(false);
        }
    }
    false
}

} // verus!
