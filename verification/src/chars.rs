//! Character-level vocabulary: lower-case letters, case folding, and
//! occurrence counts of characters in sequences.

use vstd::prelude::*;
use vstd::string::StrSliceExecFns;

verus! {

/// A character is one of the 26 lower-case ASCII letters.
pub open spec fn is_lower(c: char) -> bool {
    97 <= c as u32 <= 122
}

/// The `k`-th lower-case letter, counting from `'a'` at 0.
pub open spec fn letter(k: int) -> char {
    ((k + 97) as u8) as char
}

/// Case folding for a single character: upper-case ASCII letters map to
/// their lower-case counterparts, everything else is unchanged.
pub open spec fn to_lower(c: char) -> char {
    if 65 <= c as u32 <= 90 {
        (((c as u32) + 32) as u8) as char
    } else {
        c
    }
}

/// Case folding for a whole character sequence.
pub open spec fn lower_seq(s: Seq<char>) -> Seq<char> {
    s.map_values(|c: char| to_lower(c))
}

/// Executable case folding of one character.
pub fn lower_char(c: char) -> (r: char)
    ensures
        r == to_lower(c),
{
    let u = c as u32;
    if 65 <= u && u <= 90 {
        ((u + 32) as u8) as char
    } else {
        c
    }
}

/// How often character `c` occurs in `s`.
pub open spec fn occ(s: Seq<char>, c: char) -> nat {
    s.filter(|x: char| x == c).len()
}

/// Appending one character raises exactly that character's count by one.
pub proof fn lemma_occ_push(s: Seq<char>, a: char, c: char)
    ensures
        occ(s.push(a), c) == occ(s, c) + (if a == c { 1int } else { 0int }),
{
    reveal(Seq::filter);
    assert(s.push(a).drop_last() =~= s);
    assert(s.push(a).last() == a);
}

/// A character that occurs nowhere in `s` has count zero.
pub proof fn lemma_occ_zero(s: Seq<char>, c: char)
    requires
        forall|i: int| 0 <= i < s.len() ==> s[i] != c,
    ensures
        occ(s, c) == 0,
    decreases s.len(),
{
    reveal(Seq::filter);
    if s.len() > 0 {
        assert(forall|i: int| 0 <= i < s.drop_last().len() ==> s.drop_last()[i] != c);
        lemma_occ_zero(s.drop_last(), c);
    }
}

/// A lower-case letter is recovered from its alphabet position.
pub proof fn lemma_letter_roundtrip(c: char)
    requires
        is_lower(c),
    ensures
        0 <= c as u32 - 97 < 26,
        letter(c as u32 - 97) == c,
{
}

/// Relies on `String::push`: appends exactly one character to the string.
#[verifier::external_body]
pub(crate) fn push_char(s: &mut String, c: char)
    ensures
        final(s)@ == old(s)@.push(c),
{
    s.push(c);
}

/// The characters of a string slice, as a vector.
pub fn to_char_vec(w: &str) -> (r: Vec<char>)
    ensures
        r@ == w@,
{
    let len = w.unicode_len();
    let mut out: Vec<char> = Vec::new();
    let mut i: usize = 0;
    while i < len
        invariant
            i <= len,
            len == w@.len(),
            out@ == w@.subrange(0, i as int),
        decreases len - i,
    {
        out.push(w.get_char(i));
        proof {
            assert(out@ =~= w@.subrange(0, i + 1));
        }
        i = i + 1;
    }
    proof {
        assert(w@.subrange(0, len as int) =~= w@);
    }
    out
}

/// Case folding of a whole string.
pub fn lower_word(w: &str) -> (r: String)
    ensures
        r@ == lower_seq(w@),
{
    let len = w.unicode_len();
    let mut out = String::new();
    let mut i: usize = 0;
    while i < len
        invariant
            i <= len,
            len == w@.len(),
            out@ == lower_seq(w@.subrange(0, i as int)),
        decreases len - i,
    {
        let c = lower_char(w.get_char(i));
        push_char(&mut out, c);
        proof {
            assert(out@ =~= lower_seq(w@.subrange(0, i + 1)));
        }
        i = i + 1;
    }
    proof {
        assert(w@.subrange(0, len as int) =~= w@);
    }
    out
}

/// The set of indices at which `c` occurs in `s`.
pub open spec fn occ_indices(s: Seq<char>, c: char) -> Set<int> {
    Set::new(|i: int| 0 <= i < s.len() && s[i] == c)
}

/// The occurrence count of `c` equals the number of indices holding `c`.
pub proof fn lemma_occ_is_index_count(s: Seq<char>, c: char)
    ensures
        occ_indices(s, c).finite(),
        occ_indices(s, c).len() == occ(s, c),
    decreases s.len(),
{
    reveal(Seq::filter);
    if s.len() == 0 {
        assert(occ_indices(s, c) =~= Set::<int>::empty());
    } else {
        let pre = s.drop_last();
        lemma_occ_is_index_count(pre, c);
        if s.last() == c {
            assert(occ_indices(s, c) =~= occ_indices(pre, c).insert(s.len() - 1));
            assert(!occ_indices(pre, c).contains(s.len() - 1));
        } else {
            assert(occ_indices(s, c) =~= occ_indices(pre, c));
        }
    }
}

} // verus!
