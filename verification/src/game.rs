//! The puzzle itself: a square letter grid together with every dictionary
//! word that can be traced on it, plus membership testing and scoring.

use vstd::prelude::*;
use vstd::string::StrSliceExecFns;
use crate::chars::{is_lower, lower_seq, lower_word, to_char_vec};
use crate::grid::{
    adjacent, grid_lower, grid_square, is_found, path_spells, pos_wf, rows, set_cell,
};
use crate::seqs::{lemma_filter_all, lemma_filter_none, lemma_filter_push};
use crate::words::{
    dict_lower, generate_wordlist_from_game, get_random_letter, get_random_n_length_word,
    rand_below, word_lower, word_views,
};

verus! {

/// How a game could fail to be generated: the dictionary holds no word of
/// the drawn length, or every attempt to lay the word into the grid got
/// boxed in.
#[derive(Debug, Clone, Copy, PartialEq, Eq, Structural)]
pub enum GameError {
    NoWordOfLength(usize),
    EmbeddingFailed,
}

/// How many fresh self-avoiding walks are tried before generation gives up.
pub const MAX_EMBED_ATTEMPTS: usize = 1000;

/// The outcome of scoring a set of submitted words against a game.
pub struct GameResults {
    pub found_words: Vec<String>,
    pub missed_words: Vec<String>,
    pub score: usize,
}

/// Two to the power `n`.
pub open spec fn pow2(n: nat) -> nat
    decreases n,
{
    if n == 0 {
        1
    } else {
        2 * pow2((n - 1) as nat)
    }
}

/// The score of a list of words: each word is worth two to the power of its
/// length.
pub open spec fn words_score(ws: Seq<Seq<char>>) -> nat
    decreases ws.len(),
{
    if ws.len() == 0 {
        0
    } else {
        words_score(ws.drop_last()) + pow2(ws.last().len())
    }
}

/// The valid words that were submitted, in valid-word order.
pub open spec fn found_of(valid: Seq<Seq<char>>, submitted: Seq<Seq<char>>) -> Seq<Seq<char>> {
    valid.filter(|w: Seq<char>| submitted.contains(w))
}

/// The valid words that were not submitted, in valid-word order.
pub open spec fn missed_of(valid: Seq<Seq<char>>, submitted: Seq<Seq<char>>) -> Seq<Seq<char>> {
    valid.filter(|w: Seq<char>| !submitted.contains(w))
}

/// Doubling is monotone.
pub proof fn lemma_pow2_mono(a: nat, b: nat)
    requires
        a <= b,
    ensures
        pow2(a) <= pow2(b),
    decreases b,
{
    if a < b {
        lemma_pow2_mono(a, (b - 1) as nat);
    }
}

/// The score of a concatenation is the sum of the scores.
pub proof fn lemma_words_score_concat(a: Seq<Seq<char>>, b: Seq<Seq<char>>)
    ensures
        words_score(a + b) == words_score(a) + words_score(b),
    decreases b.len(),
{
    if b.len() == 0 {
        assert(a + b =~= a);
    } else {
        lemma_words_score_concat(a, b.drop_last());
        assert((a + b).drop_last() =~= a + b.drop_last());
        assert((a + b).last() == b.last());
    }
}

/// Submitting exactly the valid words finds every one of them: nothing is
/// missed, and the score is the full score of the valid-word list.
pub proof fn lemma_score_round_trip(valid: Seq<Seq<char>>)
    ensures
        found_of(valid, valid) == valid,
        missed_of(valid, valid) == Seq::<Seq<char>>::empty(),
        words_score(found_of(valid, valid)) == words_score(valid),
{
    lemma_filter_all(valid, |w: Seq<char>| valid.contains(w));
    lemma_filter_none(valid, |w: Seq<char>| !valid.contains(w));
}

/// An empty submission finds nothing: every valid word is missed and the
/// score is zero.
pub proof fn lemma_score_empty_submission(valid: Seq<Seq<char>>)
    ensures
        found_of(valid, Seq::<Seq<char>>::empty()) == Seq::<Seq<char>>::empty(),
        missed_of(valid, Seq::<Seq<char>>::empty()) == valid,
        words_score(found_of(valid, Seq::<Seq<char>>::empty())) == 0,
{
    lemma_filter_none(valid, |w: Seq<char>| Seq::<Seq<char>>::empty().contains(w));
    lemma_filter_all(valid, |w: Seq<char>| !Seq::<Seq<char>>::empty().contains(w));
}

/// A prefix never scores more than the whole list.
pub proof fn lemma_words_score_prefix(ws: Seq<Seq<char>>, i: int)
    requires
        0 <= i <= ws.len(),
    ensures
        words_score(ws.subrange(0, i)) <= words_score(ws),
{
    assert(ws =~= ws.subrange(0, i) + ws.subrange(i, ws.len() as int));
    lemma_words_score_concat(ws.subrange(0, i), ws.subrange(i, ws.len() as int));
}

/// Any submission scores at most the full valid-word list: the found words
/// are a selection from it, and every word's worth is positive.
pub proof fn lemma_words_score_filter_le(ws: Seq<Seq<char>>, pred: spec_fn(Seq<char>) -> bool)
    ensures
        words_score(ws.filter(pred)) <= words_score(ws),
    decreases ws.len(),
{
    reveal(Seq::filter);
    if ws.len() > 0 {
        let pre = ws.drop_last();
        lemma_words_score_filter_le(pre, pred);
        if pred(ws.last()) {
            assert(pre.filter(pred).push(ws.last()).drop_last() =~= pre.filter(pred));
        }
    }
}

/// Spellings that differ only in case validate identically: membership is
/// decided on the case-folded word alone.
pub proof fn lemma_validate_case_insensitive(game: Game, a: Seq<char>, b: Seq<char>)
    requires
        lower_seq(a) == lower_seq(b),
    ensures
        game.words_view().contains(lower_seq(a)) == game.words_view().contains(lower_seq(b)),
{
}

/// Re-running the search settles every listed word: on a well-formed game,
/// each word of the valid-word list can be traced on the game's own grid.
pub proof fn lemma_valid_words_findable(game: Game)
    requires
        game.wf(),
    ensures
        forall|i: int|
            0 <= i < game.words_view().len() ==> is_found(
                game.grid_view(),
                #[trigger] game.words_view()[i],
            ),
{
}

/// A finished puzzle: the letter grid and every dictionary word findable on
/// it.
pub struct Game {
    grid: Vec<Vec<char>>,
    valid_words: Vec<String>,
}

impl Game {
    /// The grid as a sequence of rows of characters.
    pub closed spec fn grid_view(self) -> Seq<Seq<char>> {
        rows(self.grid@)
    }

    /// The valid words as character sequences.
    pub closed spec fn words_view(self) -> Seq<Seq<char>> {
        word_views(self.valid_words@)
    }

    /// A well-formed game: a square grid of lower-case letters, every listed
    /// valid word actually traceable on it.
    pub open spec fn wf(self) -> bool {
        &&& grid_square(self.grid_view())
        &&& grid_lower(self.grid_view())
        &&& forall|i: int|
            0 <= i < self.words_view().len() ==> is_found(
                self.grid_view(),
                #[trigger] self.words_view()[i],
            )
    }

    /// Assembles a game from a given grid and word list, as they are.
    pub fn from_parts(grid: Vec<Vec<char>>, valid_words: Vec<String>) -> (r: Game)
        ensures
            r.grid_view() == rows(grid@),
            r.words_view() == word_views(valid_words@),
    {
        Game { grid, valid_words }
    }

    /// The side length of the grid.
    pub fn size(&self) -> (r: usize)
        ensures
            r == self.grid_view().len(),
    {
        self.grid.len()
    }

    /// The letter grid.
    pub fn grid(&self) -> (r: &Vec<Vec<char>>)
        ensures
            rows(r@) == self.grid_view(),
    {
        &self.grid
    }

    /// The words findable on the grid.
    pub fn valid_words(&self) -> (r: &Vec<String>)
        ensures
            word_views(r@) == self.words_view(),
    {
        &self.valid_words
    }

    /// Whether the submitted word, after case folding, is one of the game's
    /// valid words.
    pub fn validate(&self, word: &str) -> (r: bool)
        ensures
            r == self.words_view().contains(lower_seq(word@)),
    {
        let lw = lower_word(word);
        let mut i: usize = 0;
        while i < self.valid_words.len()
            invariant
                i <= self.valid_words@.len(),
                lw@ == lower_seq(word@),
                forall|j: int| 0 <= j < i ==> #[trigger] word_views(self.valid_words@)[j] != lw@,
            decreases self.valid_words@.len() - i,
        {
            proof {
                assert(word_views(self.valid_words@)[i as int] == self.valid_words@[i as int]@);
            }
            if self.valid_words[i].eq(&lw) {
                return true;
            }
            i = i + 1;
        }
        proof {
            if self.words_view().contains(lw@) {
                let j = choose|j: int|
                    0 <= j < self.words_view().len() && self.words_view()[j] == lw@;
                assert(false);
            }
        }
        false
    }

    /// Scores a submission: partitions the valid words into those present in
    /// the submitted list and those absent, and sums two to the power of the
    /// length over the found ones.
    pub fn score(&self, found_words: &Vec<String>) -> (r: GameResults)
        requires
            words_score(found_of(self.words_view(), word_views(found_words@))) <= usize::MAX,
        ensures
            word_views(r.found_words@) == found_of(self.words_view(), word_views(found_words@)),
            word_views(r.missed_words@) == missed_of(self.words_view(), word_views(found_words@)),
            r.score == words_score(found_of(self.words_view(), word_views(found_words@))),
    {
        let ghost valid = self.words_view();
        let ghost submitted = word_views(found_words@);
        let ghost fpred = |w: Seq<char>| submitted.contains(w);
        let ghost mpred = |w: Seq<char>| !submitted.contains(w);
        let mut found: Vec<String> = Vec::new();
        let mut missed: Vec<String> = Vec::new();
        let mut total: usize = 0;
        let mut i: usize = 0;
        while i < self.valid_words.len()
            invariant
                i <= self.valid_words@.len(),
                valid == self.words_view(),
                submitted == word_views(found_words@),
                fpred == (|w: Seq<char>| submitted.contains(w)),
                mpred == (|w: Seq<char>| !submitted.contains(w)),
                words_score(found_of(valid, submitted)) <= usize::MAX,
                word_views(found@) == valid.subrange(0, i as int).filter(fpred),
                word_views(missed@) == valid.subrange(0, i as int).filter(mpred),
                total == words_score(valid.subrange(0, i as int).filter(fpred)),
            decreases self.valid_words@.len() - i,
        {
            let w = &self.valid_words[i];
            proof {
                assert(valid[i as int] == w@);
            }
            let is_in = contains_word(found_words, w);
            let ghost prefix = valid.subrange(0, i as int);
            proof {
                assert(valid.subrange(0, i + 1) =~= prefix.push(w@));
                lemma_filter_push(prefix, w@, fpred);
                lemma_filter_push(prefix, w@, mpred);
            }
            if is_in {
                proof {
                    assert(valid =~= valid.subrange(0, i + 1) + valid.subrange(
                        i + 1,
                        valid.len() as int,
                    ));
                    Seq::<Seq<char>>::filter_distributes_over_add(
                        valid.subrange(0, i + 1),
                        valid.subrange(i + 1, valid.len() as int),
                        fpred,
                    );
                    lemma_words_score_concat(
                        valid.subrange(0, i + 1).filter(fpred),
                        valid.subrange(i + 1, valid.len() as int).filter(fpred),
                    );
                    lemma_words_score_concat(prefix.filter(fpred), seq![w@]);
                    assert(prefix.filter(fpred).push(w@) =~= prefix.filter(fpred) + seq![w@]);
                    assert(words_score(seq![w@]) == pow2(w@.len())) by {
                        reveal_with_fuel(words_score, 2);
                        assert(seq![w@].drop_last() =~= Seq::<Seq<char>>::empty());
                        assert(seq![w@].last() == w@);
                    }
                }
                let wlen = w.as_str().unicode_len();
                let points = pow2_exec(wlen);
                total = total + points;
                found.push(w.clone());
                proof {
                    assert(word_views(found@) =~= prefix.filter(fpred).push(w@));
                }
            } else {
                missed.push(w.clone());
                proof {
                    assert(word_views(missed@) =~= prefix.filter(mpred).push(w@));
                }
            }
            i = i + 1;
        }
        proof {
            assert(valid.subrange(0, valid.len() as int) =~= valid);
        }
        GameResults { found_words: found, missed_words: missed, score: total }
    }
}

/// A partially filled square grid of the given side length.
spec fn opt_square(g: Seq<Seq<Option<char>>>, n: int) -> bool {
    g.len() == n && forall|y: int| 0 <= y < g.len() ==> (#[trigger] g[y]).len() == n
}

/// Every filled cell of the partial grid holds a lower-case letter.
spec fn opt_lower(g: Seq<Seq<Option<char>>>) -> bool {
    forall|y: int, x: int|
        0 <= y < g.len() && 0 <= x < g[y].len() ==> (#[trigger] g[y][x] matches Some(c)
            ==> is_lower(c))
}

/// `p` is a legal trace of `w` over a partially filled grid: one in-bounds
/// cell per character, filled with exactly that character, consecutive cells
/// adjacent, no cell used twice.
spec fn opt_path_spells(g: Seq<Seq<Option<char>>>, w: Seq<char>, p: Seq<(int, int)>) -> bool {
    &&& p.len() == w.len()
    &&& forall|i: int|
        0 <= i < p.len() ==> pos_wf(g.len() as int, #[trigger] p[i]) && g[p[i].0][p[i].1]
            == Some(w[i])
    &&& forall|i: int| 0 < i < p.len() ==> adjacent(p[i - 1], #[trigger] p[i])
    &&& forall|i: int, j: int| 0 <= i < j < p.len() ==> #[trigger] p[i] != #[trigger] p[j]
}

/// A fresh `n` by `n` grid of empty cells.
fn make_empty_grid(n: usize) -> (r: Vec<Vec<Option<char>>>)
    ensures
        opt_square(rows(r@), n as int),
        forall|y: int, x: int| 0 <= y < n && 0 <= x < n ==> rows(r@)[y][x] is None,
{
    let mut g: Vec<Vec<Option<char>>> = Vec::new();
    let mut y: usize = 0;
    while y < n
        invariant
            y <= n,
            g@.len() == y,
            forall|j: int| 0 <= j < y ==> (#[trigger] g@[j])@.len() == n,
            forall|j: int, x: int| 0 <= j < y && 0 <= x < n ==> g@[j]@[x] is None,
        decreases n - y,
    {
        let mut row: Vec<Option<char>> = Vec::new();
        let mut x: usize = 0;
        while x < n
            invariant
                x <= n,
                row@.len() == x,
                forall|k: int| 0 <= k < x ==> (#[trigger] row@[k]) is None,
            decreases n - x,
        {
            row.push(None);
            x = x + 1;
        }
        g.push(row);
        y = y + 1;
    }
    g
}

/// The in-bounds neighbor cells of `(y, x)` that are still empty. Every
/// returned cell is adjacent to `(y, x)`, inside the grid, and unfilled.
#[verifier::rlimit(100)]
fn empty_neighbors(og: &Vec<Vec<Option<char>>>, y: usize, x: usize) -> (r: Vec<(usize, usize)>)
    requires
        opt_square(rows(og@), og@.len() as int),
        y < og@.len(),
        x < og@.len(),
    ensures
        forall|j: int|
            0 <= j < r@.len() ==> {
                let q = ((#[trigger] r@[j]).0 as int, r@[j].1 as int);
                &&& pos_wf(og@.len() as int, q)
                &&& rows(og@)[q.0][q.1] is None
                &&& adjacent((y as int, x as int), q)
            },
{
    let n = og.len();
    let mut out: Vec<(usize, usize)> = Vec::new();
    if y > 0 && cell_empty(og, y - 1, x) {
        out.push((y - 1, x));
    }
    if y > 0 && x > 0 && cell_empty(og, y - 1, x - 1) {
        out.push((y - 1, x - 1));
    }
    if y > 0 && x + 1 < n && cell_empty(og, y - 1, x + 1) {
        out.push((y - 1, x + 1));
    }
    if y + 1 < n && cell_empty(og, y + 1, x) {
        out.push((y + 1, x));
    }
    if y + 1 < n && x > 0 && cell_empty(og, y + 1, x - 1) {
        out.push((y + 1, x - 1));
    }
    if y + 1 < n && x + 1 < n && cell_empty(og, y + 1, x + 1) {
        out.push((y + 1, x + 1));
    }
    if x > 0 && cell_empty(og, y, x - 1) {
        out.push((y, x - 1));
    }
    if x + 1 < n && cell_empty(og, y, x + 1) {
        out.push((y, x + 1));
    }
    out
}

/// Whether the cell at `(y, x)` is still empty.
fn cell_empty(og: &Vec<Vec<Option<char>>>, y: usize, x: usize) -> (r: bool)
    requires
        opt_square(rows(og@), og@.len() as int),
        y < og@.len(),
        x < og@.len(),
    ensures
        r == (rows(og@)[y as int][x as int] is None),
{
    proof {
        assert(og@[y as int]@ == rows(og@)[y as int]);
    }
    og[y][x].is_none()
}

/// One attempt to lay `target` into a fresh grid along a self-avoiding
/// random walk: write a character, move to a uniformly random empty
/// neighbor, and give up (`None`) as soon as the walk is boxed in. On
/// success the returned partial grid carries the whole word along a trace.
#[verifier::rlimit(100)]
fn embed_attempt(size: usize, target: &Vec<char>) -> (r: Option<
    (Vec<Vec<Option<char>>>, Ghost<Seq<(int, int)>>),
>)
    requires
        2 <= size,
        target@.len() >= 1,
        word_lower(target@),
    ensures
        r matches Some(og) ==> opt_square(rows(og.0@), size as int),
        r matches Some(og) ==> opt_lower(rows(og.0@)),
        r matches Some(og) ==> opt_path_spells(rows(og.0@), target@, og.1@),
{
    let n = size;
    let len = target.len();
    let mut og = make_empty_grid(n);
    let mut py = rand_below(n);
    let mut px = rand_below(n);
    let ghost mut path: Seq<(int, int)> = Seq::empty();
    let mut k: usize = 0;
    while k < len
        invariant
            2 <= n,
            len == target@.len(),
            word_lower(target@),
            k <= len,
            opt_square(rows(og@), n as int),
            py < n,
            px < n,
            path.len() == k,
            rows(og@)[py as int][px as int] is None,
            forall|y: int, x: int|
                #![trigger rows(og@)[y][x]]
                0 <= y < n && 0 <= x < n ==> (rows(og@)[y][x] is Some <==> path.contains((y, x))),
            forall|j: int|
                0 <= j < k ==> pos_wf(n as int, #[trigger] path[j]) && rows(
                    og@,
                )[path[j].0][path[j].1] == Some(target@[j]),
            forall|j: int| 0 < j < k ==> adjacent(path[j - 1], #[trigger] path[j]),
            forall|i: int, j: int| 0 <= i < j < k ==> #[trigger] path[i] != #[trigger] path[j],
            k > 0 ==> adjacent(path[k - 1], (py as int, px as int)),
        decreases len - k,
    {
        let ghost og0 = rows(og@);
        let ghost here = (py as int, px as int);
        let ghost path0 = path;
        proof {
            assert(og@[py as int]@ == rows(og@)[py as int]);
            assert(!path0.contains(here));
        }
        set_cell(&mut og, py, px, Some(target[k]));
        proof {
            path = path0.push(here);
        }
        let ghost og1 = rows(og@);
        proof {
            assert(og1 == og0.update(py as int, og0[py as int].update(px as int, Some(
                target@[k as int],
            ))));
            assert(opt_square(og1, n as int));
            assert forall|y: int, x: int|
                #![trigger og1[y][x]]
                0 <= y < n && 0 <= x < n implies (og1[y][x] is Some <==> path.contains(
                (y, x),
            )) by {
                if (y, x) == here {
                    assert(path[k as int] == here);
                    assert(path.contains((y, x)));
                    assert(og1[y][x] is Some);
                } else {
                    assert(og1[y][x] == og0[y][x]);
                    if path.contains((y, x)) {
                        let j = choose|j: int| 0 <= j < path.len() && path[j] == (y, x);
                        assert(j < k);
                        assert(path0[j] == (y, x));
                        assert(path0.contains((y, x)));
                    }
                    if path0.contains((y, x)) {
                        let j = choose|j: int| 0 <= j < path0.len() && path0[j] == (y, x);
                        assert(path[j] == (y, x));
                        assert(path.contains((y, x)));
                    }
                }
            }
            assert forall|j: int|
                0 <= j < k + 1 implies pos_wf(n as int, #[trigger] path[j]) && og1[path[j].0][path[j].1]
                == Some(target@[j]) by {
                if j < k {
                    assert(path[j] == path0[j]);
                    assert(path[j] != here);
                    assert(og1[path[j].0][path[j].1] == og0[path[j].0][path[j].1]);
                }
            }
        }
        let dirs = empty_neighbors(&og, py, px);
        if dirs.len() == 0 {
            return None;
        }
        let d = dirs[rand_below(dirs.len())];
        py = d.0;
        px = d.1;
        k = k + 1;
        proof {
            assert(rows(og@)[py as int][px as int] is None);
            assert(!path.contains((py as int, px as int)));
            assert(adjacent(path[k - 1], (py as int, px as int)));
        }
    }
    proof {
        assert(opt_path_spells(rows(og@), target@, path));
        assert forall|y: int, x: int|
            0 <= y < rows(og@).len() && 0 <= x < rows(og@)[y].len() implies (
        #[trigger] rows(og@)[y][x] matches Some(c) ==> is_lower(c)) by {
            if rows(og@)[y][x] is Some {
                assert(path.contains((y, x)));
                let j = choose|j: int| 0 <= j < path.len() && path[j] == (y, x);
                assert(rows(og@)[y][x] == Some(target@[j]));
            }
        }
    }
    Some((og, Ghost(path)))
}

/// Replaces every empty cell with a random letter; filled cells keep their
/// letter exactly.
fn fill_empty(og: &Vec<Vec<Option<char>>>) -> (r: Vec<Vec<char>>)
    requires
        og@.len() >= 1,
        opt_square(rows(og@), og@.len() as int),
        opt_lower(rows(og@)),
    ensures
        rows(r@).len() == og@.len(),
        grid_square(rows(r@)),
        grid_lower(rows(r@)),
        forall|y: int, x: int|
            #![trigger rows(r@)[y][x]]
            0 <= y < og@.len() && 0 <= x < og@.len() ==> (rows(og@)[y][x] matches Some(c)
                ==> rows(r@)[y][x] == c),
{
    let n = og.len();
    let mut out: Vec<Vec<char>> = Vec::new();
    let mut y: usize = 0;
    while y < n
        invariant
            y <= n,
            n == og@.len(),
            opt_square(rows(og@), n as int),
            opt_lower(rows(og@)),
            out@.len() == y,
            forall|j: int| 0 <= j < y ==> (#[trigger] rows(out@)[j]).len() == n,
            forall|j: int, x: int|
                0 <= j < y && 0 <= x < n ==> is_lower(#[trigger] rows(out@)[j][x]),
            forall|j: int, x: int|
                #![trigger rows(out@)[j][x]]
                0 <= j < y && 0 <= x < n ==> (rows(og@)[j][x] matches Some(c) ==> rows(
                    out@,
                )[j][x] == c),
        decreases n - y,
    {
        let mut row: Vec<char> = Vec::new();
        let mut x: usize = 0;
        while x < n
            invariant
                x <= n,
                y < n,
                n == og@.len(),
                opt_square(rows(og@), n as int),
                opt_lower(rows(og@)),
                row@.len() == x,
                forall|j: int| 0 <= j < x ==> is_lower(#[trigger] row@[j]),
                forall|j: int|
                    #![trigger row@[j]]
                    0 <= j < x ==> (rows(og@)[y as int][j] matches Some(c) ==> row@[j] == c),
            decreases n - x,
        {
            proof {
                assert(og@[y as int]@ == rows(og@)[y as int]);
            }
            match og[y][x] {
                Some(c) => {
                    proof {
                        assert(rows(og@)[y as int][x as int] matches Some(cc) && is_lower(cc));
                    }
                    row.push(c);
                },
                None => {
                    row.push(get_random_letter());
                },
            }
            x = x + 1;
        }
        let ghost out0 = out@;
        out.push(row);
        proof {
            assert(rows(out@)[y as int] == row@);
            assert forall|j: int| 0 <= j < y implies rows(out@)[j] == rows(out0)[j] by {
                assert(out@[j] == out0[j]);
                assert(rows(out@)[j] == out@[j]@);
                assert(rows(out0)[j] == out0[j]@);
            }
            assert forall|j: int| 0 <= j < y + 1 implies (#[trigger] rows(out@)[j]).len()
                == n by {
                if j < y {
                    assert(rows(out@)[j] == rows(out0)[j]);
                } else {
                    assert(rows(out@)[j] == row@);
                }
            }
            assert forall|j: int, xx: int|
                0 <= j < y + 1 && 0 <= xx < n implies is_lower(
                #[trigger] rows(out@)[j][xx]) by {
                if j < y {
                    assert(rows(out@)[j] == rows(out0)[j]);
                    assert(is_lower(rows(out0)[j][xx]));
                } else {
                    assert(rows(out@)[j] == row@);
                    assert(is_lower(row@[xx]));
                }
            }
            assert forall|j: int, xx: int|
                #![trigger rows(out@)[j][xx]]
                0 <= j < y + 1 && 0 <= xx < n implies (rows(og@)[j][xx] matches Some(c)
                ==> rows(out@)[j][xx] == c) by {
                if j < y {
                    assert(rows(out@)[j] == rows(out0)[j]);
                    assert(rows(og@)[j][xx] matches Some(c) ==> rows(out0)[j][xx] == c);
                } else {
                    assert(rows(out@)[j] == row@);
                    assert(rows(og@)[j][xx] matches Some(c) ==> row@[xx] == c);
                }
            }
        }
        y = y + 1;
    }
    out
}

/// A trace over the partial grid survives the fill: the filled grid spells
/// the same word along the same cells.
proof fn lemma_fill_keeps_path(
    og: Seq<Seq<Option<char>>>,
    g: Seq<Seq<char>>,
    w: Seq<char>,
    p: Seq<(int, int)>,
)
    requires
        opt_path_spells(og, w, p),
        g.len() == og.len(),
        forall|y: int, x: int|
            #![trigger g[y][x]]
            0 <= y < og.len() && 0 <= x < og.len() ==> (og[y][x] matches Some(c) ==> g[y][x]
                == c),
    ensures
        path_spells(g, w, p),
{
    assert forall|i: int|
        0 <= i < p.len() implies pos_wf(g.len() as int, #[trigger] p[i]) && g[p[i].0][p[i].1]
        == w[i] by {
        assert(og[p[i].0][p[i].1] == Some(w[i]));
    }
}

impl Game {
    /// Builds a game of the given size around `target_word`: the word is
    /// embedded along a self-avoiding random walk, the rest of the grid is
    /// filled with random letters, and the dictionary is searched against
    /// the finished grid. Fails only when every embedding attempt was boxed
    /// in; if the dictionary holds the target word, the finished game lists
    /// at least that word as valid.
    pub fn from_target_word(words: &Vec<String>, size: usize, target_word: &str) -> (r: Result<
        Game,
        GameError,
    >)
        requires
            2 <= size,
            target_word@.len() >= 1,
            word_lower(target_word@),
            dict_lower(word_views(words@)),
        ensures
            r matches Ok(game) ==> {
                &&& game.wf()
                &&& game.grid_view().len() == size
                &&& game.words_view() == word_views(words@).filter(
                    |w: Seq<char>| is_found(game.grid_view(), w),
                )
                &&& is_found(game.grid_view(), target_word@)
                &&& word_views(words@).contains(target_word@) ==> game.words_view().len() > 0
            },
            r matches Err(e) ==> e == GameError::EmbeddingFailed,
    {
        let target = to_char_vec(target_word);
        let mut attempt: usize = 0;
        while attempt < MAX_EMBED_ATTEMPTS
            invariant
                2 <= size,
                target@ == target_word@,
                target@.len() >= 1,
                word_lower(target_word@),
                dict_lower(word_views(words@)),
            decreases MAX_EMBED_ATTEMPTS - attempt,
        {
            if let Some((og, walk)) = embed_attempt(size, &target) {
                let grid = fill_empty(&og);
                let ghost gv = rows(grid@);
                let ghost fpred = |w: Seq<char>| is_found(gv, w);
                proof {
                    lemma_fill_keeps_path(rows(og@), gv, target@, walk@);
                    assert(is_found(gv, target_word@));
                }
                let valid = generate_wordlist_from_game(&grid, words);
                let game = Game { grid, valid_words: valid };
                proof {
                    assert(game.grid_view() == gv);
                    assert(game.words_view() == word_views(words@).filter(fpred));
                    assert forall|i: int|
                        0 <= i < game.words_view().len() implies is_found(
                        game.grid_view(),
                        #[trigger] game.words_view()[i],
                    ) by {
                        word_views(words@).lemma_filter_pred(fpred, i);
                    }
                    if word_views(words@).contains(target_word@) {
                        let j = choose|j: int|
                            0 <= j < word_views(words@).len() && word_views(words@)[j]
                                == target_word@;
                        word_views(words@).lemma_filter_contains(fpred, j);
                        assert(game.words_view().contains(target_word@));
                    }
                }
                return Ok(game);
            }
            attempt = attempt + 1;
        }
        Err(GameError::EmbeddingFailed)
    }

    /// Builds a fresh game of the given size: draws a target length
    /// uniformly from twice to three times the size, samples a dictionary
    /// word of that length, and embeds it. A missing length is reported as
    /// exactly that; a finished game always lists at least one valid word.
    pub fn new(words: &Vec<String>, size: usize) -> (r: Result<Game, GameError>)
        requires
            2 <= size,
            3 * size <= usize::MAX,
            dict_lower(word_views(words@)),
        ensures
            r matches Ok(game) ==> {
                &&& game.wf()
                &&& game.grid_view().len() == size
                &&& game.words_view() == word_views(words@).filter(
                    |w: Seq<char>| is_found(game.grid_view(), w),
                )
                &&& game.words_view().len() > 0
            },
            r matches Err(e) ==> (e matches GameError::NoWordOfLength(l) ==> {
                &&& 2 * size <= l < 3 * size
                &&& forall|i: int|
                    0 <= i < words@.len() ==> (#[trigger] word_views(words@)[i]).len() != l
            }),
    {
        let extra = rand_below(size);
        let target_len = 2 * size + extra;
        match get_random_n_length_word(words, target_len) {
            None => Err(GameError::NoWordOfLength(target_len)),
            Some(target) => {
                proof {
                    let j = choose|j: int|
                        0 <= j < word_views(words@).len() && word_views(words@)[j] == target@;
                    assert(word_lower(word_views(words@)[j]));
                }
                Game::from_target_word(words, size, target.as_str())
            },
        }
    }
}

/// Two to the power `n` where it fits a `usize`, `None` where it does not.
fn checked_pow2(n: usize) -> (r: Option<usize>)
    ensures
        r matches Some(t) ==> t == pow2(n as nat),
        r is None <==> pow2(n as nat) > usize::MAX,
{
    let mut acc: usize = 1;
    let mut k: usize = 0;
    while k < n
        invariant
            k <= n,
            acc == pow2(k as nat),
        decreases n - k,
    {
        if acc > usize::MAX / 2 {
            proof {
                lemma_pow2_mono((k + 1) as nat, n as nat);
            }
            return None;
        }
        acc = acc * 2;
        k = k + 1;
    }
    Some(acc)
}

impl Game {
    /// The score of finding every valid word of this game, where that sum
    /// fits a `usize`; `None` where it would overflow. Callers use it to
    /// check that a submission can be scored.
    pub fn max_score(&self) -> (r: Option<usize>)
        ensures
            r matches Some(t) ==> t == words_score(self.words_view()),
            r is None <==> words_score(self.words_view()) > usize::MAX,
    {
        let ghost valid = self.words_view();
        let mut total: usize = 0;
        let mut i: usize = 0;
        while i < self.valid_words.len()
            invariant
                i <= self.valid_words@.len(),
                valid == self.words_view(),
                total == words_score(valid.subrange(0, i as int)),
            decreases self.valid_words@.len() - i,
        {
            let w = &self.valid_words[i];
            proof {
                assert(valid[i as int] == w@);
                assert(valid.subrange(0, i + 1) =~= valid.subrange(0, i as int).push(w@));
                lemma_words_score_concat(valid.subrange(0, i as int), seq![w@]);
                assert(valid.subrange(0, i as int).push(w@) =~= valid.subrange(0, i as int)
                    + seq![w@]);
                assert(words_score(seq![w@]) == pow2(w@.len())) by {
                    reveal_with_fuel(words_score, 2);
                    assert(seq![w@].drop_last() =~= Seq::<Seq<char>>::empty());
                    assert(seq![w@].last() == w@);
                }
                lemma_words_score_prefix(valid, i + 1);
            }
            let wlen = w.as_str().unicode_len();
            let points = match checked_pow2(wlen) {
                None => {
                    return None;
                },
                Some(p) => p,
            };
            if total > usize::MAX - points {
                return None;
            }
            total = total + points;
            i = i + 1;
        }
        proof {
            assert(valid.subrange(0, valid.len() as int) =~= valid);
        }
        Some(total)
    }
}

/// Whether the list holds a word with exactly these characters.
fn contains_word(words: &Vec<String>, w: &String) -> (r: bool)
    ensures
        r == word_views(words@).contains(w@),
{
    let mut i: usize = 0;
    while i < words.len()
        invariant
            i <= words@.len(),
            forall|j: int| 0 <= j < i ==> #[trigger] word_views(words@)[j] != w@,
        decreases words@.len() - i,
    {
        proof {
            assert(word_views(words@)[i as int] == words@[i as int]@);
        }
        if words[i].eq(w) {
            return true;
        }
        i = i + 1;
    }
    proof {
        if word_views(words@).contains(w@) {
            let j = choose|j: int|
                0 <= j < word_views(words@).len() && word_views(words@)[j] == w@;
            assert(false);
        }
    }
    false
}

/// Two to the power `n`, computed by doubling.
fn pow2_exec(n: usize) -> (r: usize)
    requires
        pow2(n as nat) <= usize::MAX,
    ensures
        r == pow2(n as nat),
{
    let mut r: usize = 1;
    let mut k: usize = 0;
    while k < n
        invariant
            k <= n,
            r == pow2(k as nat),
            pow2(n as nat) <= usize::MAX,
        decreases n - k,
    {
        proof {
            lemma_pow2_mono((k + 1) as nat, n as nat);
        }
        r = r * 2;
        k = k + 1;
    }
    r
}

} // verus!
