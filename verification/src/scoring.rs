//! Counting where words overlap: letters that coincide and letters that
//! clash.

use vstd::prelude::*;
use crate::crossword::{all_fit, consistent};
use crate::geometry::{Orientation, Pos, along};
use crate::occupancy::cell_of;
use crate::placement::{anchored_at, has_anchor};
use crate::word::Word;

verus! {

/// Whether letter `k` of `a` lies on a coordinate of `b` that holds the same
/// letter.
pub open spec fn matches_at(a: Word, b: Word, k: int) -> bool {
    let p = along(a.pos, a.orientation, k);
    b.covers(p) && b.cells()[p] == a.text@[k]
}

/// Whether letter `k` of `a` lies on a coordinate of `b` that holds another
/// letter.
pub open spec fn clashes_at(a: Word, b: Word, k: int) -> bool {
    let p = along(a.pos, a.orientation, k);
    b.covers(p) && b.cells()[p] != a.text@[k]
}

/// How many of the first `k` letters of `a` match a letter of `b`.
pub open spec fn matches_upto(a: Word, b: Word, k: int) -> nat
    decreases k,
{
    if k <= 0 {
        0
    } else {
        matches_upto(a, b, k - 1) + if matches_at(a, b, k - 1) {
            1nat
        } else {
            0nat
        }
    }
}

/// How many of the first `k` letters of `a` clash with a letter of `b`.
pub open spec fn clashes_upto(a: Word, b: Word, k: int) -> nat
    decreases k,
{
    if k <= 0 {
        0
    } else {
        clashes_upto(a, b, k - 1) + if clashes_at(a, b, k - 1) {
            1nat
        } else {
            0nat
        }
    }
}

/// Number of coordinates on which `a` and `b` hold the same letter.
pub open spec fn shared(a: Word, b: Word) -> nat {
    matches_upto(a, b, a.text@.len() as int)
}

/// Number of coordinates on which `a` and `b` hold different letters.
pub open spec fn clashing(a: Word, b: Word) -> nat {
    clashes_upto(a, b, a.text@.len() as int)
}

/// Number of matching coordinate pairs between `w` and each of `others`.
pub open spec fn shared_with_all(w: Word, others: Seq<Word>) -> nat
    decreases others.len(),
{
    if others.len() == 0 {
        0
    } else {
        shared_with_all(w, others.drop_last()) + shared(w, others.last())
    }
}

/// Number of clashing coordinate pairs between `w` and each of `others`.
pub open spec fn clashing_with_all(w: Word, others: Seq<Word>) -> nat
    decreases others.len(),
{
    if others.len() == 0 {
        0
    } else {
        clashing_with_all(w, others.drop_last()) + clashing(w, others.last())
    }
}

/// The overlap score of a list of words: the number of coordinate pairs of
/// two distinct words that hold the same letter.
pub open spec fn score_of(words: Seq<Word>) -> nat
    decreases words.len(),
{
    if words.len() == 0 {
        0
    } else {
        score_of(words.drop_last()) + shared_with_all(words.last(), words.drop_last())
    }
}

/// Where no letter of `a` clashes with `b`, the two agree on every
/// coordinate that both cover.
pub proof fn lemma_no_clash_agrees(a: Word, b: Word, k: int)
    requires
        a.representable(),
        0 <= k <= a.text@.len(),
        clashes_upto(a, b, k) == 0,
    ensures
        forall|p: Pos|
            #[trigger] a.covers(p) && a.offset(p) < k && b.covers(p) ==> a.cells()[p] == b.cells()[p],
    decreases k,
{
    if k > 0 {
        lemma_no_clash_agrees(a, b, k - 1);
        assert forall|p: Pos| #[trigger] a.covers(p) && a.offset(p) < k && b.covers(p) implies a.cells()[p]
            == b.cells()[p] by {
            if a.offset(p) == k - 1 {
                assert(p == along(a.pos, a.orientation, k - 1));
                assert(!clashes_at(a, b, k - 1));
            }
        }
    }
}

/// A word that clashes with none of a consistent list can join it.
pub proof fn lemma_no_clash_consistent(w: Word, others: Seq<Word>)
    requires
        w.representable(),
        consistent(others),
        clashing_with_all(w, others) == 0,
    ensures
        consistent(others.push(w)),
{
    let all = others.push(w);
    assert forall|i: int| 0 <= i < others.len() implies clashing(w, #[trigger] others[i]) == 0 by {
        lemma_clash_parts(w, others, i);
    }
    assert forall|i: int, j: int, p: Pos|
        0 <= i < all.len() && 0 <= j < all.len() && #[trigger] all[i].covers(p) && #[trigger] all[j].covers(
            p,
        ) implies all[i].cells()[p] == all[j].cells()[p] by {
        if i < others.len() && j < others.len() {
            assert(others[i].covers(p) && others[j].covers(p));
        } else if i < others.len() {
            assert(clashing(w, others[i]) == 0);
            lemma_no_clash_agrees(w, others[i], w.text@.len() as int);
            assert(w.covers(p));
        } else if j < others.len() {
            assert(clashing(w, others[j]) == 0);
            lemma_no_clash_agrees(w, others[j], w.text@.len() as int);
            assert(w.covers(p));
        }
    }
}

/// A total of zero clashes means zero clashes with each word.
pub proof fn lemma_clash_parts(w: Word, others: Seq<Word>, i: int)
    requires
        0 <= i < others.len(),
        clashing_with_all(w, others) == 0,
    ensures
        clashing(w, others[i]) == 0,
    decreases others.len(),
{
    if i < others.len() - 1 {
        lemma_clash_parts(w, others.drop_last(), i);
    }
}

/// The index of the letter of `b` that lies on `p`, if there is one.
pub fn covered_index(b: &Word, p: Pos) -> (r: Option<usize>)
    ensures
        match r {
            Some(k) => b.covers(p) && k == b.offset(p),
            None => !b.covers(p),
        },
{
    let (same_line, d) = match b.orientation {
        Orientation::Horizontal => (p.y == b.pos.y, p.x as i64 - b.pos.x as i64),
        Orientation::Vertical => (p.x == b.pos.x, p.y as i64 - b.pos.y as i64),
    };
    if same_line && d >= 0 && (d as usize) < b.text.len() {
        Some(d as usize)
    } else {
        None
    }
}

/// Counts the letters of `a` that match a letter of `b`, and those that
/// clash with one.
pub fn compare(a: &Word, b: &Word) -> (r: (usize, usize))
    requires
        a.representable(),
    ensures
        r.0 == shared(*a, *b),
        r.1 == clashing(*a, *b),
        r.0 + r.1 <= a.text@.len(),
{
    let mut same: usize = 0;
    let mut other: usize = 0;
    let mut k: usize = 0;
    while k < a.text.len()
        invariant
            a.representable(),
            k <= a.text@.len(),
            same == matches_upto(*a, *b, k as int),
            other == clashes_upto(*a, *b, k as int),
            same + other <= k,
        decreases a.text@.len() - k,
    {
        let p = cell_of(a, k);
        match covered_index(b, p) {
            Some(j) => {
                if b.text[j] == a.text[k] {
                    same += 1;
                } else {
                    other += 1;
                }
            },
            None => {},
        }
        k += 1;
    }
    (same, other)
}

/// Counts, over all of `others`, the letters of `w` that match and those
/// that clash.
pub fn tally(w: &Word, others: &Vec<Word>) -> (r: (usize, usize))
    requires
        w.representable(),
        w.text@.len() <= 15,
        15 * others@.len() <= usize::MAX,
    ensures
        r.0 == shared_with_all(*w, others@),
        r.1 == clashing_with_all(*w, others@),
        r.0 + r.1 <= 15 * others@.len(),
{
    let mut same: usize = 0;
    let mut other: usize = 0;
    let mut i: usize = 0;
    assert(others@.take(0).len() == 0);
    while i < others.len()
        invariant
            w.representable(),
            w.text@.len() <= 15,
            15 * others@.len() <= usize::MAX,
            i <= others@.len(),
            same == shared_with_all(*w, others@.take(i as int)),
            other == clashing_with_all(*w, others@.take(i as int)),
            same + other <= 15 * i,
        decreases others@.len() - i,
    {
        let (s, c) = compare(w, &others[i]);
        proof {
            assert(others@.take(i + 1).drop_last() == others@.take(i as int));
            assert(others@.take(i + 1).last() == others@[i as int]);
        }
        same += s;
        other += c;
        i += 1;
    }
    assert(others@.take(others@.len() as int) == others@);
    (same, other)
}

/// What becomes of a candidate that is laid over the words placed so far.
#[derive(Clone, Copy, Debug, PartialEq, Eq, Structural)]
pub enum Verdict {
    /// The candidate has no letter, leaves the grid, starts where a placed
    /// word starts, or puts a letter on a coordinate that holds another one.
    Rejected,
    /// The candidate touches no placed word.
    Isolated,
    /// The candidate clashes with nothing and shares this many letters with
    /// the placed words.
    Crossing(usize),
}

/// Whether `candidate`, where it stands, cannot join `words`.
pub open spec fn rejected(words: Seq<Word>, candidate: Word) -> bool {
    ||| candidate.text@.len() == 0
    ||| !candidate.fits_grid()
    ||| anchored_at(words, candidate.pos)
    ||| clashing_with_all(candidate, words) > 0
}

/// Lays `candidate`, where it stands, over `words` and tells what comes of
/// it.
pub fn judge(words: &Vec<Word>, candidate: &Word) -> (v: Verdict)
    requires
        15 * words@.len() <= usize::MAX,
    ensures
        v == (if rejected(words@, *candidate) {
            Verdict::Rejected
        } else if shared_with_all(*candidate, words@) == 0 {
            Verdict::Isolated
        } else {
            Verdict::Crossing(shared_with_all(*candidate, words@) as usize)
        }),
        !rejected(words@, *candidate) ==> shared_with_all(*candidate, words@) <= 15 * words@.len(),
{
    if candidate.text.len() == 0 || !candidate.within_bounds() {
        return Verdict::Rejected;
    }
    let (same, other) = tally(candidate, words);
    if has_anchor(words, candidate.pos) || other > 0 {
        Verdict::Rejected
    } else if same == 0 {
        Verdict::Isolated
    } else {
        Verdict::Crossing(same)
    }
}

/// Of the first `k` letters at most `k` match.
pub proof fn lemma_matches_bound(a: Word, b: Word, k: int)
    requires
        0 <= k,
    ensures
        matches_upto(a, b, k) <= k,
    decreases k,
{
    if k > 0 {
        lemma_matches_bound(a, b, k - 1);
    }
}

/// A word of at most fifteen letters shares at most fifteen letters with
/// each other word.
pub proof fn lemma_shared_bound(w: Word, others: Seq<Word>)
    requires
        w.text@.len() <= 15,
    ensures
        shared_with_all(w, others) <= 15 * others.len(),
    decreases others.len(),
{
    if others.len() > 0 {
        lemma_shared_bound(w, others.drop_last());
        lemma_matches_bound(w, others.last(), w.text@.len() as int);
    }
}

/// The score of at most 225 words on the grid stays below 760,000.
pub proof fn lemma_score_bound(words: Seq<Word>)
    requires
        all_fit(words),
        words.len() <= 225,
    ensures
        score_of(words) <= 3375 * words.len(),
    decreases words.len(),
{
    if words.len() > 0 {
        let rest = words.drop_last();
        assert forall|i: int| 0 <= i < rest.len() implies (#[trigger] rest[i]).fits_grid()
            && rest[i].text@.len() >= 1 by {
            assert(rest[i] == words[i]);
        }
        lemma_score_bound(rest);
        assert(words.last() == words[words.len() - 1]);
        assert(words.last().fits_grid());
        lemma_shared_bound(words.last(), rest);
    }
}

/// Where `a` and `b` agree on every coordinate that both cover, no letter of
/// `a` clashes with `b`.
pub proof fn lemma_agree_no_clash(a: Word, b: Word, k: int)
    requires
        a.representable(),
        0 <= k <= a.text@.len(),
        forall|p: Pos| #[trigger] a.covers(p) && b.covers(p) ==> a.cells()[p] == b.cells()[p],
    ensures
        clashes_upto(a, b, k) == 0,
    decreases k,
{
    if k > 0 {
        lemma_agree_no_clash(a, b, k - 1);
        let p = along(a.pos, a.orientation, k - 1);
        assert(a.covers(p) && a.offset(p) == k - 1);
    }
}

/// In a consistent list of words on the grid, a word clashes with none of
/// the first `j` words.
pub proof fn lemma_consistent_no_clash(words: Seq<Word>, i: int, j: int)
    requires
        consistent(words),
        all_fit(words),
        0 <= i < words.len(),
        0 <= j <= words.len(),
    ensures
        clashing_with_all(words[i], words.take(j)) == 0,
    decreases j,
{
    if j > 0 {
        lemma_consistent_no_clash(words, i, j - 1);
        assert(words.take(j).drop_last() == words.take(j - 1));
        assert(words.take(j).last() == words[j - 1]);
        assert(words[i].fits_grid());
        lemma_agree_no_clash(words[i], words[j - 1], words[i].text@.len() as int);
    }
}

} // verus!
