//! The word list: character counting, availability filtering, selection by
//! length, random sampling, and parsing of a newline-delimited word list.

use vstd::prelude::*;
use vstd::string::StrSliceExecFns;
use crate::chars::{
    is_lower, lemma_letter_roundtrip, lemma_occ_is_index_count, lemma_occ_push, lemma_occ_zero,
    letter, lower_seq, lower_word, occ, occ_indices, push_char, to_char_vec,
};
use crate::seqs::{lemma_filter_absorb, lemma_filter_in_source, lemma_filter_push};
use crate::grid::{
    flat_seq, grid_lower, grid_square, is_found, lemma_flat_index, lemma_flat_lower, path_spells,
    rows,
};
use crate::search::word_is_found;

verus! {

/// The character sequences of a vector of strings.
pub open spec fn word_views(v: Seq<String>) -> Seq<Seq<char>> {
    v.map_values(|w: String| w@)
}

/// Every character of the word is a lower-case letter.
pub open spec fn word_lower(w: Seq<char>) -> bool {
    forall|i: int| 0 <= i < w.len() ==> is_lower(#[trigger] w[i])
}

/// Every word of the list consists of lower-case letters only.
pub open spec fn dict_lower(ws: Seq<Seq<char>>) -> bool {
    forall|i: int| 0 <= i < ws.len() ==> word_lower(#[trigger] ws[i])
}

/// `w` needs no character more often than `pool` supplies it.
pub open spec fn compatible(w: Seq<char>, pool: Seq<char>) -> bool {
    forall|c: char| #[trigger] occ(w, c) <= occ(pool, c)
}

/// Counts the occurrences of each of the 26 lower-case letters in `word`:
/// entry `k` of the result is the count of the `k`-th letter.
pub fn count_chars(word: &str) -> (r: Vec<usize>)
    requires
        word_lower(word@),
    ensures
        r@.len() == 26,
        forall|k: int| 0 <= k < 26 ==> r@[k] == occ(word@, letter(k)),
{
    let mut counts: Vec<usize> = Vec::new();
    let mut k: usize = 0;
    while k < 26
        invariant
            k <= 26,
            counts@.len() == k,
            forall|j: int| 0 <= j < k ==> counts@[j] == 0,
        decreases 26 - k,
    {
        counts.push(0);
        k = k + 1;
    }
    proof {
        assert forall|j: int| 0 <= j < 26 implies counts@[j] == occ(
            word@.subrange(0, 0),
            letter(j),
        ) by {
            lemma_occ_zero(word@.subrange(0, 0), letter(j));
        }
    }
    let len = word.unicode_len();
    let mut i: usize = 0;
    while i < len
        invariant
            i <= len,
            len == word@.len(),
            word_lower(word@),
            counts@.len() == 26,
            forall|j: int| 0 <= j < 26 ==> counts@[j] == occ(word@.subrange(0, i as int), letter(j)),
            forall|j: int| 0 <= j < 26 ==> counts@[j] <= i,
        decreases len - i,
    {
        let c = word.get_char(i);
        let u = c as u32;
        let idx = (u - 97) as usize;
        let ghost pre = word@.subrange(0, i as int);
        counts[idx] = counts[idx] + 1;
        proof {
            assert(word@.subrange(0, i + 1) =~= pre.push(c));
            assert forall|j: int| 0 <= j < 26 implies counts@[j] == occ(
                word@.subrange(0, i + 1),
                letter(j),
            ) by {
                lemma_occ_push(pre, c, letter(j));
                assert(letter(j) as u32 == j + 97);
                if j == idx {
                    assert(letter(j) == c);
                } else {
                    assert(letter(j) != c);
                }
            }
        }
        i = i + 1;
    }
    proof {
        assert(word@.subrange(0, len as int) =~= word@);
    }
    counts
}

/// Whether every one of the 26 per-letter counts in `wc` is covered by the
/// corresponding count in `pc`.
fn counts_covered(wc: &Vec<usize>, pc: &Vec<usize>) -> (r: bool)
    requires
        wc@.len() == 26,
        pc@.len() == 26,
    ensures
        r == forall|k: int| 0 <= k < 26 ==> wc@[k] <= pc@[k],
{
    let mut k: usize = 0;
    while k < 26
        invariant
            k <= 26,
            wc@.len() == 26,
            pc@.len() == 26,
            forall|j: int| 0 <= j < k ==> wc@[j] <= pc@[j],
        decreases 26 - k,
    {
        if wc[k] > pc[k] {
            return false;
        }
        k = k + 1;
    }
    true
}

/// A lower-case word is compatible with a lower-case pool exactly when the
/// 26 per-letter counts are covered.
proof fn lemma_compatible_via_counts(w: Seq<char>, pool: Seq<char>)
    requires
        word_lower(w),
    ensures
        compatible(w, pool) <==> forall|k: int| 0 <= k < 26 ==> occ(w, letter(k)) <= occ(
            pool,
            letter(k),
        ),
{
    if forall|k: int| 0 <= k < 26 ==> occ(w, letter(k)) <= occ(pool, letter(k)) {
        assert forall|c: char| #[trigger] occ(w, c) <= occ(pool, c) by {
            if is_lower(c) {
                lemma_letter_roundtrip(c);
                let k: int = c as u32 - 97;
                assert(occ(w, letter(k)) <= occ(pool, letter(k)));
            } else {
                assert forall|i: int| 0 <= i < w.len() implies w[i] != c by {
                    assert(is_lower(w[i]));
                }
                lemma_occ_zero(w, c);
            }
        }
    }
}

/// Keeps exactly the words whose letters are available, in the required
/// multiplicity, among `characters`. Words that pass may still not be
/// traceable on a grid of those characters; words that fail never are.
pub fn filter_words_by_character(words: &Vec<String>, characters: &str) -> (r: Vec<String>)
    requires
        dict_lower(word_views(words@)),
        word_lower(characters@),
    ensures
        word_views(r@) == word_views(words@).filter(
            |w: Seq<char>| compatible(w, characters@),
        ),
{
    let ghost pred = |w: Seq<char>| compatible(w, characters@);
    let pc = count_chars(characters);
    let mut out: Vec<String> = Vec::new();
    let mut i: usize = 0;
    while i < words.len()
        invariant
            i <= words@.len(),
            dict_lower(word_views(words@)),
            word_lower(characters@),
            pc@.len() == 26,
            forall|k: int| 0 <= k < 26 ==> pc@[k] == occ(characters@, letter(k)),
            word_views(out@) == word_views(words@).subrange(0, i as int).filter(pred),
            pred == (|w: Seq<char>| compatible(w, characters@)),
        decreases words@.len() - i,
    {
        let w = &words[i];
        proof {
            assert(word_views(words@)[i as int] == w@);
        }
        let wc = count_chars(w.as_str());
        let keep = counts_covered(&wc, &pc);
        proof {
            lemma_compatible_via_counts(w@, characters@);
            if keep {
                assert forall|k: int| 0 <= k < 26 implies occ(w@, letter(k)) <= occ(
                    characters@,
                    letter(k),
                ) by {
                    assert(wc@[k] <= pc@[k]);
                }
                assert(pred(w@));
            } else {
                let k = choose|k: int| 0 <= k < 26 && !(wc@[k] <= pc@[k]);
                assert(occ(w@, letter(k)) > occ(characters@, letter(k)));
                assert(!pred(w@));
            }
        }
        if keep {
            out.push(w.clone());
        }
        proof {
            let prefix = word_views(words@).subrange(0, i as int);
            assert(word_views(words@).subrange(0, i + 1) =~= prefix.push(w@));
            lemma_filter_push(prefix, w@, pred);
            if keep {
                assert(word_views(out@) =~= prefix.filter(pred).push(w@));
            }
        }
        i = i + 1;
    }
    proof {
        assert(word_views(words@).subrange(0, words@.len() as int) =~= word_views(words@));
    }
    out
}

/// Relies on rand's `thread_rng` and `Rng::gen_range`: a uniform draw from
/// `0..n`, which always lies below `n`.
#[verifier::external_body]
pub(crate) fn rand_below(n: usize) -> (r: usize)
    requires
        n > 0,
    ensures
        r < n,
{
    rand::Rng::gen_range(&mut rand::thread_rng(), 0..n)
}

/// Randomly selects one of the given words; `None` only on an empty list.
pub fn get_random_word<'a>(words: &'a Vec<String>) -> (r: Option<&'a String>)
    ensures
        r is Some <==> words@.len() > 0,
        r matches Some(w) ==> words@.contains(*w),
{
    if words.len() == 0 {
        None
    } else {
        let i = rand_below(words.len());
        Some(&words[i])
    }
}

/// A random lower-case letter, drawn from a pool that holds every letter
/// once and the five vowels a second time, so vowels come up twice as often.
pub fn get_random_letter() -> (r: char)
    ensures
        is_lower(r),
{
    let mut pool: Vec<char> = Vec::new();
    let mut k: usize = 0;
    while k < 26
        invariant
            k <= 26,
            pool@.len() == k,
            forall|j: int| 0 <= j < k ==> is_lower(#[trigger] pool@[j]),
        decreases 26 - k,
    {
        pool.push(((97 + k) as u8) as char);
        k = k + 1;
    }
    pool.push('a');
    pool.push('e');
    pool.push('i');
    pool.push('o');
    pool.push('u');
    let i = rand_below(pool.len());
    pool[i]
}

/// A uniformly random word of character count `n` from the list; `None`
/// exactly when the list has no word of that count.
pub fn get_random_n_length_word(words: &Vec<String>, n: usize) -> (r: Option<String>)
    ensures
        r is None <==> (forall|i: int|
            0 <= i < words@.len() ==> (#[trigger] word_views(words@)[i]).len() != n),
        r matches Some(w) ==> w@.len() == n && word_views(words@).contains(w@),
{
    let ghost pred = |w: Seq<char>| w.len() == n;
    let all = get_all_n_length_words(words, n);
    proof {
        lemma_filter_in_source(word_views(words@), pred);
        if all@.len() == 0 {
            assert forall|i: int|
                0 <= i < words@.len() implies (#[trigger] word_views(words@)[i]).len() != n by {
                if word_views(words@)[i].len() == n {
                    word_views(words@).lemma_filter_contains(pred, i);
                }
            }
        } else {
            word_views(words@).lemma_filter_pred(pred, 0);
            let first = word_views(all@)[0];
            assert(word_views(words@).contains(first));
            let j = choose|j: int|
                0 <= j < word_views(words@).len() && word_views(words@)[j] == first;
            assert(word_views(words@)[j].len() == n);
        }
    }
    match get_random_word(&all) {
        None => None,
        Some(w) => {
            proof {
                let i = choose|i: int| 0 <= i < all@.len() && all@[i] == *w;
                assert(word_views(all@)[i] == w@);
                word_views(words@).lemma_filter_pred(pred, i);
            }
            Some(w.clone())
        },
    }
}

/// All words of the list whose character count is exactly `n`, in order.
pub fn get_all_n_length_words(words: &Vec<String>, n: usize) -> (r: Vec<String>)
    ensures
        word_views(r@) == word_views(words@).filter(|w: Seq<char>| w.len() == n),
{
    let ghost pred = |w: Seq<char>| w.len() == n;
    let mut out: Vec<String> = Vec::new();
    let mut i: usize = 0;
    while i < words.len()
        invariant
            i <= words@.len(),
            word_views(out@) == word_views(words@).subrange(0, i as int).filter(pred),
            pred == (|w: Seq<char>| w.len() == n),
        decreases words@.len() - i,
    {
        let w = &words[i];
        proof {
            assert(word_views(words@)[i as int] == w@);
        }
        let keep = w.as_str().unicode_len() == n;
        if keep {
            out.push(w.clone());
        }
        proof {
            let prefix = word_views(words@).subrange(0, i as int);
            assert(word_views(words@).subrange(0, i + 1) =~= prefix.push(w@));
            lemma_filter_push(prefix, w@, pred);
            if keep {
                assert(word_views(out@) =~= prefix.filter(pred).push(w@));
            }
        }
        i = i + 1;
    }
    proof {
        assert(word_views(words@).subrange(0, words@.len() as int) =~= word_views(words@));
    }
    out
}

/// The letter-availability prefilter never loses a findable word: a word
/// traced along cells that are used at most once cannot need more copies of
/// a letter than the grid holds.
pub proof fn lemma_found_implies_compatible(g: Seq<Seq<char>>, w: Seq<char>)
    requires
        grid_square(g),
        is_found(g, w),
    ensures
        compatible(w, flat_seq(g)),
{
    let n = g.len() as int;
    let p = choose|p: Seq<(int, int)>| path_spells(g, w, p);
    let f = |i: int| p[i].0 * n + p[i].1;
    assert forall|c: char| #[trigger] occ(w, c) <= occ(flat_seq(g), c) by {
        lemma_occ_is_index_count(w, c);
        lemma_occ_is_index_count(flat_seq(g), c);
        let aset = occ_indices(w, c);
        let bset = occ_indices(flat_seq(g), c);
        let img = aset.map(f);
        assert(vstd::relations::injective_on(f, aset)) by {
            assert forall|i: int, j: int|
                #![trigger aset.contains(i), aset.contains(j)]
                aset.contains(i) && aset.contains(j) && f(i) == f(j) implies i == j by {
                lemma_flat_index(n, p[i].0, p[i].1);
                lemma_flat_index(n, p[j].0, p[j].1);
                assert(p[i] == p[j]);
            }
        }
        vstd::set_lib::lemma_map_size(aset, img, f);
        assert(img.subset_of(bset)) by {
            assert forall|t: int| img.contains(t) implies bset.contains(t) by {
                let i = choose|i: int| aset.contains(i) && t == f(i);
                lemma_flat_index(n, p[i].0, p[i].1);
                assert(flat_seq(g)[t] == g[p[i].0][p[i].1]);
                assert(g[p[i].0][p[i].1] == w[i]);
            }
        }
        vstd::set_lib::lemma_len_subset(img, bset);
    }
}

/// The grid's letters gathered into one string, row by row.
fn collect_letters(grid: &Vec<Vec<char>>) -> (r: String)
    requires
        grid_square(rows(grid@)),
    ensures
        r@ == flat_seq(rows(grid@)),
{
    let ghost g = rows(grid@);
    let ghost n = g.len() as int;
    let size = grid.len();
    let mut out = String::new();
    let mut y: usize = 0;
    while y < size
        invariant
            y <= size,
            size == g.len(),
            g == rows(grid@),
            grid_square(g),
            out@ == flat_seq(g).subrange(0, y as int * n),
            n == g.len() as int,
        decreases size - y,
    {
        let mut x: usize = 0;
        while x < size
            invariant
                y < size,
                x <= size,
                size == g.len(),
                g == rows(grid@),
                grid_square(g),
                n == g.len() as int,
                out@ == flat_seq(g).subrange(0, y as int * n + x as int),
            decreases size - x,
        {
            proof {
                assert(grid@.len() == g.len());
                assert(grid@[y as int]@ == g[y as int]);
            }
            let c = grid[y][x];
            push_char(&mut out, c);
            proof {
                lemma_flat_index(n, y as int, x as int);
                assert(flat_seq(g)[y as int * n + x as int] == g[y as int][x as int]);
                assert(g[y as int][x as int] == c);
                assert(out@ =~= flat_seq(g).subrange(0, y as int * n + x as int + 1));
            }
            x = x + 1;
        }
        proof {
            assert(y as int * n + n == (y as int + 1) * n) by (nonlinear_arith);
        }
        y = y + 1;
    }
    proof {
        assert(flat_seq(g).subrange(0, size as int * n) =~= flat_seq(g));
    }
    out
}

/// All the dictionary words that can be traced on the grid, in dictionary
/// order: the dictionary is first narrowed to words whose letters are
/// available at all, and each survivor is then settled by the exact search.
pub fn generate_wordlist_from_game(grid: &Vec<Vec<char>>, words: &Vec<String>) -> (r: Vec<String>)
    requires
        grid_square(rows(grid@)),
        grid_lower(rows(grid@)),
        dict_lower(word_views(words@)),
    ensures
        word_views(r@) == word_views(words@).filter(|w: Seq<char>| is_found(rows(grid@), w)),
{
    let ghost g = rows(grid@);
    let ghost fpred = |w: Seq<char>| is_found(g, w);
    let letters = collect_letters(grid);
    proof {
        lemma_flat_lower(g);
    }
    let possible = filter_words_by_character(words, letters.as_str());
    let ghost cpred = |w: Seq<char>| compatible(w, letters@);
    let mut out: Vec<String> = Vec::new();
    let mut i: usize = 0;
    while i < possible.len()
        invariant
            i <= possible@.len(),
            g == rows(grid@),
            grid_square(g),
            fpred == (|w: Seq<char>| is_found(g, w)),
            word_views(out@) == word_views(possible@).subrange(0, i as int).filter(fpred),
        decreases possible@.len() - i,
    {
        let w = &possible[i];
        proof {
            assert(word_views(possible@)[i as int] == w@);
        }
        let wchars = to_char_vec(w.as_str());
        let keep = if wchars.len() == 0 {
            false
        } else {
            word_is_found(grid, &wchars)
        };
        proof {
            assert(keep == fpred(w@));
        }
        if keep {
            out.push(w.clone());
        }
        proof {
            let prefix = word_views(possible@).subrange(0, i as int);
            assert(word_views(possible@).subrange(0, i + 1) =~= prefix.push(w@));
            lemma_filter_push(prefix, w@, fpred);
            if keep {
                assert(word_views(out@) =~= prefix.filter(fpred).push(w@));
            }
        }
        i = i + 1;
    }
    proof {
        assert(word_views(possible@).subrange(0, possible@.len() as int) =~= word_views(
            possible@,
        ));
        assert forall|a: Seq<char>| #[trigger] fpred(a) implies cpred(a) by {
            lemma_found_implies_compatible(g, a);
        }
        lemma_filter_absorb(word_views(words@), cpred, fpred);
    }
    out
}

/// The lines of a newline-delimited text, with `cur` the partial line
/// gathered so far: a `'\n'` closes the current line, the end of the text
/// closes a non-empty one.
pub open spec fn split_lines_from(s: Seq<char>, cur: Seq<char>) -> Seq<Seq<char>>
    decreases s.len(),
{
    if s.len() == 0 {
        if cur.len() == 0 {
            Seq::empty()
        } else {
            seq![cur]
        }
    } else if s[0] == '\n' {
        seq![cur] + split_lines_from(s.subrange(1, s.len() as int), Seq::empty())
    } else {
        split_lines_from(s.subrange(1, s.len() as int), cur.push(s[0]))
    }
}

/// The lines of a newline-delimited text.
pub open spec fn split_lines(s: Seq<char>) -> Seq<Seq<char>> {
    split_lines_from(s, Seq::empty())
}

/// Splits a text into its newline-delimited lines.
pub fn split_into_lines(text: &str) -> (r: Vec<String>)
    ensures
        word_views(r@) == split_lines(text@),
{
    let len = text.unicode_len();
    let mut out: Vec<String> = Vec::new();
    let mut cur = String::new();
    let mut i: usize = 0;
    proof {
        assert(text@.subrange(0, len as int) =~= text@);
        assert(word_views(out@) + split_lines_from(text@, cur@) =~= split_lines(text@));
    }
    while i < len
        invariant
            i <= len,
            len == text@.len(),
            word_views(out@) + split_lines_from(text@.subrange(i as int, len as int), cur@)
                =~= split_lines(text@),
        decreases len - i,
    {
        let ghost rest = text@.subrange(i as int, len as int);
        let c = text.get_char(i);
        proof {
            assert(rest[0] == c);
            assert(rest.subrange(1, rest.len() as int) =~= text@.subrange(i + 1, len as int));
        }
        if c == '\n' {
            out.push(cur);
            cur = String::new();
            proof {
                assert(word_views(out@) =~= word_views(out@.drop_last()).push(out@.last()@));
                assert(word_views(out@) + split_lines_from(
                    text@.subrange(i + 1, len as int),
                    cur@,
                ) =~= split_lines(text@));
            }
        } else {
            push_char(&mut cur, c);
        }
        i = i + 1;
    }
    proof {
        assert(text@.subrange(len as int, len as int) =~= Seq::<char>::empty());
    }
    if !cur.as_str().is_empty() {
        out.push(cur);
        proof {
            assert(word_views(out@) =~= word_views(out@.drop_last()).push(out@.last()@));
        }
    }
    proof {
        assert(word_views(out@) =~= word_views(out@) + Seq::<Seq<char>>::empty());
    }
    out
}

/// Parses a newline-delimited word list: one word per line, case folded to
/// lower case.
pub fn read_words(text: &str) -> (r: Vec<String>)
    ensures
        word_views(r@) == split_lines(text@).map_values(|l: Seq<char>| lower_seq(l)),
{
    let lines = split_into_lines(text);
    let mut out: Vec<String> = Vec::new();
    let mut i: usize = 0;
    while i < lines.len()
        invariant
            i <= lines@.len(),
            word_views(lines@) == split_lines(text@),
            word_views(out@) =~= split_lines(text@).subrange(0, i as int).map_values(
                |l: Seq<char>| lower_seq(l),
            ),
        decreases lines@.len() - i,
    {
        let w = lower_word(lines[i].as_str());
        out.push(w);
        proof {
            assert(word_views(lines@)[i as int] == lines@[i as int]@);
            assert(word_views(out@) =~= word_views(out@.drop_last()).push(out@.last()@));
            let pre = split_lines(text@).subrange(0, i as int);
            let e = word_views(lines@)[i as int];
            assert(split_lines(text@).subrange(0, i + 1) =~= pre.push(e));
            assert(pre.push(e).map_values(|l: Seq<char>| lower_seq(l)) =~= pre.map_values(
                |l: Seq<char>| lower_seq(l),
            ).push(lower_seq(e)));
            assert(word_views(out@) =~= split_lines(text@).subrange(0, i + 1).map_values(
                |l: Seq<char>| lower_seq(l),
            ));
        }
        i = i + 1;
    }
    proof {
        assert(split_lines(text@).subrange(0, split_lines(text@).len() as int) =~= split_lines(
            text@,
        ));
    }
    out
}

/// The words of a newline-delimited text whose character count is exactly
/// `n`, in order of appearance.
pub fn find_n_length_words(text: &str, n: usize) -> (r: Vec<String>)
    ensures
        word_views(r@) == split_lines(text@).filter(|l: Seq<char>| l.len() == n),
{
    let lines = split_into_lines(text);
    get_all_n_length_words(&lines, n)
}

/// Whether every word of the list consists of lower-case letters only, as
/// the grid and search functions require of a dictionary.
pub fn dictionary_is_lower(words: &Vec<String>) -> (r: bool)
    ensures
        r == dict_lower(word_views(words@)),
{
    let mut i: usize = 0;
    while i < words.len()
        invariant
            i <= words@.len(),
            forall|j: int| 0 <= j < i ==> word_lower(#[trigger] word_views(words@)[j]),
        decreases words@.len() - i,
    {
        let w = &words[i];
        proof {
            assert(word_views(words@)[i as int] == w@);
        }
        let len = w.as_str().unicode_len();
        let mut k: usize = 0;
        while k < len
            invariant
                k <= len,
                len == w@.len(),
                i < words@.len(),
                word_views(words@)[i as int] == w@,
                forall|j: int| 0 <= j < k ==> is_lower(#[trigger] w@[j]),
            decreases len - k,
        {
            let u = w.as_str().get_char(k) as u32;
            if u < 97 || u > 122 {
                proof {
                    assert(!is_lower(w@[k as int]));
                    assert(!word_lower(word_views(words@)[i as int]));
                }
                return false;
            }
            k = k + 1;
        }
        i = i + 1;
    }
    true
}

} // verus!
