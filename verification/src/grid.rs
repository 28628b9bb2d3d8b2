//! The grid model: square character grids, Moore (8-directional) adjacency,
//! self-avoiding paths, and what it means for a word to be findable.

use vstd::prelude::*;
use crate::chars::is_lower;

verus! {

/// The sequence of row views of a vector of vectors.
pub open spec fn rows<T>(v: Seq<Vec<T>>) -> Seq<Seq<T>> {
    v.map_values(|r: Vec<T>| r@)
}

/// A square grid: at least one row, and every row as long as there are rows.
pub open spec fn grid_square(g: Seq<Seq<char>>) -> bool {
    g.len() >= 1 && forall|y: int| 0 <= y < g.len() ==> (#[trigger] g[y]).len() == g.len()
}

/// Every cell of the grid holds a lower-case letter.
pub open spec fn grid_lower(g: Seq<Seq<char>>) -> bool {
    forall|y: int, x: int|
        0 <= y < g.len() && 0 <= x < g[y].len() ==> is_lower(#[trigger] g[y][x])
}

/// A position lies inside an `n` by `n` grid.
pub open spec fn pos_wf(n: int, p: (int, int)) -> bool {
    0 <= p.0 < n && 0 <= p.1 < n
}

/// Moore adjacency: the two cells differ by at most one in each coordinate
/// and are not the same cell. There is no wraparound.
pub open spec fn adjacent(a: (int, int), b: (int, int)) -> bool {
    a != b && -1 <= b.0 - a.0 <= 1 && -1 <= b.1 - a.1 <= 1
}

/// `p` is a legal trace of the word `w` on grid `g`: one in-bounds cell per
/// character, carrying that character, consecutive cells adjacent, and no
/// cell used twice.
pub open spec fn path_spells(g: Seq<Seq<char>>, w: Seq<char>, p: Seq<(int, int)>) -> bool {
    &&& p.len() == w.len()
    &&& forall|i: int|
        0 <= i < p.len() ==> pos_wf(g.len() as int, #[trigger] p[i]) && g[p[i].0][p[i].1] == w[i]
    &&& forall|i: int| 0 < i < p.len() ==> adjacent(p[i - 1], #[trigger] p[i])
    &&& forall|i: int, j: int| 0 <= i < j < p.len() ==> #[trigger] p[i] != #[trigger] p[j]
}

/// A visited mask of the same shape as an `n` by `n` grid.
pub open spec fn mask_wf(n: int, m: Seq<Seq<bool>>) -> bool {
    m.len() == n && forall|y: int| 0 <= y < m.len() ==> (#[trigger] m[y]).len() == n
}

/// The mask `m` with the cell at `(y, x)` marked.
pub open spec fn mask_mark(m: Seq<Seq<bool>>, y: int, x: int) -> Seq<Seq<bool>> {
    m.update(y, m[y].update(x, true))
}

/// The all-clear mask for an `n` by `n` grid.
pub open spec fn mask_clear(n: int) -> Seq<Seq<bool>> {
    Seq::new(n as nat, |y: int| Seq::new(n as nat, |x: int| false))
}

/// No cell of the path is marked in the mask.
pub open spec fn path_avoids(m: Seq<Seq<bool>>, p: Seq<(int, int)>) -> bool {
    forall|i: int| 0 <= i < p.len() ==> !m[(#[trigger] p[i]).0][p[i].1]
}

/// Some trace of `w` starts exactly at `q` and stays clear of `m`.
pub open spec fn found_at(g: Seq<Seq<char>>, w: Seq<char>, q: (int, int), m: Seq<Seq<bool>>) -> bool {
    exists|p: Seq<(int, int)>|
        path_spells(g, w, p) && path_avoids(m, p) && p.len() > 0 && p[0] == q
}

/// Some trace of `w` stays clear of `m` and begins next to `from` (an empty
/// `w` is continued trivially).
pub open spec fn continues(
    g: Seq<Seq<char>>,
    w: Seq<char>,
    from: (int, int),
    m: Seq<Seq<bool>>,
) -> bool {
    exists|p: Seq<(int, int)>|
        path_spells(g, w, p) && path_avoids(m, p) && (p.len() > 0 ==> adjacent(from, p[0]))
}

/// The word `w` can be traced somewhere on the grid.
pub open spec fn is_found(g: Seq<Seq<char>>, w: Seq<char>) -> bool {
    w.len() > 0 && exists|p: Seq<(int, int)>| path_spells(g, w, p)
}

/// The grid's cells as one sequence, row by row.
pub open spec fn flat_seq(g: Seq<Seq<char>>) -> Seq<char> {
    Seq::new((g.len() * g.len()) as nat, |k: int| g[k / (g.len() as int)][k % (g.len() as int)])
}

/// Flattened index arithmetic: cell `(y, x)` of an `n` by `n` grid sits at
/// offset `y * n + x`, and that offset decodes back to `(y, x)`.
pub proof fn lemma_flat_index(n: int, y: int, x: int)
    requires
        n >= 1,
        0 <= y < n,
        0 <= x < n,
    ensures
        0 <= y * n + x < n * n,
        (y * n + x) / n == y,
        (y * n + x) % n == x,
{
    assert(0 <= y * n + x < n * n) by (nonlinear_arith)
        requires
            n >= 1,
            0 <= y < n,
            0 <= x < n,
    ;
    vstd::arithmetic::div_mod::lemma_fundamental_div_mod_converse(y * n + x, n, y, x);
}

/// On a square grid of lower-case letters, the flattened sequence holds
/// lower-case letters only.
pub proof fn lemma_flat_lower(g: Seq<Seq<char>>)
    requires
        grid_square(g),
        grid_lower(g),
    ensures
        forall|k: int| 0 <= k < flat_seq(g).len() ==> is_lower(#[trigger] flat_seq(g)[k]),
{
    let n = g.len() as int;
    assert forall|k: int| 0 <= k < flat_seq(g).len() implies is_lower(#[trigger] flat_seq(g)[k]) by {
        assert(0 <= k / n < n && 0 <= k % n < n) by (nonlinear_arith)
            requires
                n >= 1,
                0 <= k < n * n,
        ;
        assert(is_lower(g[k / n][k % n]));
    }
}

/// Peeling the first cell off a trace: a trace of `w` starting at `q` clear
/// of `m` is the same thing as `q` carrying `w[0]`, unmarked, followed by a
/// trace of the rest clear of `m` with `q` marked.
pub proof fn lemma_path_step(g: Seq<Seq<char>>, w: Seq<char>, q: (int, int), m: Seq<Seq<bool>>)
    requires
        w.len() >= 1,
        grid_square(g),
        mask_wf(g.len() as int, m),
        pos_wf(g.len() as int, q),
    ensures
        found_at(g, w, q, m) <==> (g[q.0][q.1] == w[0] && !m[q.0][q.1] && continues(
            g,
            w.subrange(1, w.len() as int),
            q,
            mask_mark(m, q.0, q.1),
        )),
{
    let rest = w.subrange(1, w.len() as int);
    let m1 = mask_mark(m, q.0, q.1);
    if found_at(g, w, q, m) {
        let p = choose|p: Seq<(int, int)>|
            path_spells(g, w, p) && path_avoids(m, p) && p.len() > 0 && p[0] == q;
        assert(g[q.0][q.1] == w[0]);
        assert(!m[q.0][q.1]);
        let tail = p.subrange(1, p.len() as int);
        assert forall|i: int| 0 <= i < tail.len() implies !m1[(#[trigger] tail[i]).0][tail[i].1] by {
            assert(tail[i] == p[i + 1]);
            assert(p[i + 1] != p[0]);
            assert(!m[p[i + 1].0][p[i + 1].1]);
        }
        assert(path_spells(g, rest, tail) && path_avoids(m1, tail) && (tail.len() > 0
            ==> adjacent(q, tail[0])));
    }
    if g[q.0][q.1] == w[0] && !m[q.0][q.1] && continues(g, rest, q, m1) {
        let t = choose|t: Seq<(int, int)>|
            path_spells(g, rest, t) && path_avoids(m1, t) && (t.len() > 0 ==> adjacent(q, t[0]));
        let p = seq![q] + t;
        assert(p[0] == q);
        assert forall|i: int| 0 < i < p.len() implies p[i] == t[i - 1] by {}
        assert forall|i: int| 0 <= i < p.len() implies pos_wf(g.len() as int, #[trigger] p[i])
            && g[p[i].0][p[i].1] == w[i] by {
            if i > 0 {
                assert(p[i] == t[i - 1]);
                assert(g[t[i - 1].0][t[i - 1].1] == rest[i - 1]);
                assert(rest[i - 1] == w[i]);
            }
        }
        assert forall|i: int| 0 < i < p.len() implies adjacent(p[i - 1], #[trigger] p[i]) by {
            if i == 1 {
                assert(p[1] == t[0]);
            } else {
                assert(p[i] == t[i - 1] && p[i - 1] == t[i - 2]);
                assert(adjacent(t[i - 2], t[i - 1]));
            }
        }
        assert forall|i: int, j: int|
            0 <= i < j < p.len() implies #[trigger] p[i] != #[trigger] p[j] by {
            if i == 0 {
                assert(p[j] == t[j - 1]);
                assert(!m1[t[j - 1].0][t[j - 1].1]);
                assert(m1[q.0][q.1]);
            } else {
                assert(p[i] == t[i - 1] && p[j] == t[j - 1]);
            }
        }
        assert forall|i: int| 0 <= i < p.len() implies !m[(#[trigger] p[i]).0][p[i].1] by {
            if i > 0 {
                assert(p[i] == t[i - 1]);
                assert(!m1[t[i - 1].0][t[i - 1].1]);
                assert(pos_wf(g.len() as int, t[i - 1]));
                if t[i - 1] == q {
                    assert(m1[q.0][q.1]);
                    assert(false);
                }
                assert(m1[t[i - 1].0][t[i - 1].1] == m[t[i - 1].0][t[i - 1].1]);
            }
        }
        assert(path_spells(g, w, p) && path_avoids(m, p) && p.len() > 0 && p[0] == q);
    }
}

/// A word is findable exactly when some cell starts a trace of it that is
/// clear of the all-clear mask.
pub proof fn lemma_found_iff_start(g: Seq<Seq<char>>, w: Seq<char>)
    requires
        grid_square(g),
        w.len() >= 1,
    ensures
        is_found(g, w) <==> exists|q: (int, int)| found_at(g, w, q, mask_clear(g.len() as int)),
{
    let n = g.len() as int;
    if is_found(g, w) {
        let p = choose|p: Seq<(int, int)>| path_spells(g, w, p);
        assert(path_avoids(mask_clear(n), p));
        assert(found_at(g, w, p[0], mask_clear(n)));
    }
    if exists|q: (int, int)| found_at(g, w, q, mask_clear(n)) {
        let q = choose|q: (int, int)| found_at(g, w, q, mask_clear(n));
        let p = choose|p: Seq<(int, int)>|
            path_spells(g, w, p) && path_avoids(mask_clear(n), p) && p.len() > 0 && p[0] == q;
        assert(path_spells(g, w, p));
    }
}

/// Writes one cell of a grid-shaped vector of vectors.
pub(crate) fn set_cell<T>(m: &mut Vec<Vec<T>>, y: usize, x: usize, b: T)
    requires
        y < old(m)@.len(),
        x < old(m)@[y as int]@.len(),
    ensures
        rows(final(m)@) == rows(old(m)@).update(
            y as int,
            rows(old(m)@)[y as int].update(x as int, b),
        ),
{
    let ghost s0 = m@;
    m[y][x] = b;
    proof {
        let target = rows(s0).update(y as int, rows(s0)[y as int].update(x as int, b));
        assert forall|j: int| 0 <= j < m@.len() implies rows(m@)[j] == target[j] by {
            assert(rows(m@)[j] == m@[j]@);
            assert(rows(s0)[j] == s0[j]@);
            if j != y as int {
                assert(m@[j] == s0[j]);
            }
        }
        assert(rows(m@) =~= target);
    }
}

} // verus!
