//! Finding where a candidate word may cross the letters already placed.

use vstd::prelude::*;
use crate::geometry::{Orientation, Pos, along, coordinate, in_grid};
use crate::occupancy::OccupancyMap;
use crate::scanner::{FreeSpace, blocked, free_run, lemma_free_run_open};
use crate::word::Word;

verus! {

/// Index of the first occurrence of `c` in `text`, or the length of `text`
/// where `c` does not occur.
pub open spec fn first_index(text: Seq<char>, c: char) -> int
    decreases text.len(),
{
    if text.len() == 0 || text[0] == c {
        0
    } else {
        1 + first_index(text.drop_first(), c)
    }
}

/// `first_index` is the least index that holds `c`.
pub proof fn lemma_first_index(text: Seq<char>, c: char)
    ensures
        0 <= first_index(text, c) <= text.len(),
        first_index(text, c) < text.len() ==> text[first_index(text, c)] == c,
        forall|j: int| 0 <= j < first_index(text, c) ==> text[j] != c,
    decreases text.len(),
{
    if text.len() == 0 || text[0] == c {
    } else {
        let rest = text.drop_first();
        lemma_first_index(rest, c);
        assert forall|j: int| 0 <= j < first_index(text, c) implies text[j] != c by {
            if j > 0 {
                assert(rest[j - 1] == text[j]);
            }
        }
    }
}

/// Index of the first occurrence of `c` in `text`.
pub fn position_of(text: &Vec<char>, c: char) -> (r: Option<usize>)
    ensures
        match r {
            Some(i) => i < text@.len() && i == first_index(text@, c),
            None => first_index(text@, c) == text@.len(),
        },
{
    let mut i: usize = 0;
    while i < text.len()
        invariant
            i <= text@.len(),
            forall|j: int| 0 <= j < i ==> text@[j] != c,
        decreases text@.len() - i,
    {
        if text[i] == c {
            proof {
                lemma_first_index(text@, c);
            }
            return Some(i);
        }
        i += 1;
    }
    proof {
        lemma_first_index(text@, c);
    }
    None
}

/// Whether one of `words` is anchored at `p`.
pub open spec fn anchored_at(words: Seq<Word>, p: Pos) -> bool {
    exists|i: int| 0 <= i < words.len() && #[trigger] words[i].pos == p
}

/// Whether one of `words` is anchored at `p`.
pub fn has_anchor(words: &Vec<Word>, p: Pos) -> (r: bool)
    ensures
        r == anchored_at(words@, p),
{
    let mut i: usize = 0;
    while i < words.len()
        invariant
            i <= words@.len(),
            forall|j: int| 0 <= j < i ==> (#[trigger] words@[j]).pos != p,
        decreases words@.len() - i,
    {
        if words[i].pos == p {
            return true;
        }
        i += 1;
    }
    false
}

/// The anchor that puts the first occurrence of the letter `c` of `text` on
/// the coordinate `q`.
pub open spec fn anchor_for(text: Seq<char>, o: Orientation, q: Pos, c: char) -> Pos {
    along(q, o, -first_index(text, c))
}

/// Whether a word `text` running along `o` may cross the occupied
/// coordinate `q`:
/// the letter on `q` occurs in the word; the cells before the crossing and
/// those after it are free runs; the cell before the anchor, the one after
/// the anchor and the one past the last letter are unoccupied; the word ends
/// on the grid; and no placed word starts at the same anchor.
pub open spec fn acceptable(
    occupied: Map<Pos, char>,
    words: Seq<Word>,
    text: Seq<char>,
    o: Orientation,
    q: Pos,
) -> bool {
    let index = first_index(text, occupied[q]);
    let top = anchor_for(text, o, q, occupied[q]);
    &&& occupied.contains_key(q)
    &&& index < text.len()
    &&& free_run(occupied, top, o) >= index
    &&& free_run(occupied, along(q, o, 1), o) >= text.len() - index - 1
    &&& !occupied.contains_key(along(top, o, -1))
    &&& !occupied.contains_key(along(top, o, text.len() as int))
    &&& !occupied.contains_key(along(top, o, 1))
    &&& coordinate(top, o) + text.len() <= 15
    &&& !anchored_at(words, top)
}

/// A word that has an acceptable crossing has a letter, and no more letters
/// than the grid is wide.
pub proof fn lemma_acceptable_short(
    occupied: Map<Pos, char>,
    words: Seq<Word>,
    text: Seq<char>,
    o: Orientation,
    q: Pos,
)
    requires
        forall|p: Pos| occupied.contains_key(p) ==> in_grid(p),
        acceptable(occupied, words, text, o, q),
    ensures
        1 <= text.len() <= 15,
        in_grid(anchor_for(text, o, q, occupied[q])),
{
    let index = first_index(text, occupied[q]);
    let top = anchor_for(text, o, q, occupied[q]);
    lemma_first_index(text, occupied[q]);
    assert(in_grid(q));
    if index > 0 {
        lemma_free_run_open(occupied, top, o, 0);
        assert(along(top, o, 0) == top);
    } else {
        assert(top == q);
    }
}

/// An acceptable crossing puts the whole word on the grid, and each of its
/// letters on a free cell or on a cell that holds the same letter.
pub proof fn lemma_acceptable_agrees(
    occupied: Map<Pos, char>,
    words: Seq<Word>,
    word: Word,
    q: Pos,
)
    requires
        forall|p: Pos| occupied.contains_key(p) ==> in_grid(p),
        acceptable(occupied, words, word.text@, word.orientation, q),
        word.pos == anchor_for(word.text@, word.orientation, q, occupied[q]),
    ensures
        word.fits_grid(),
        word.covers(q),
        forall|p: Pos|
            word.covers(p) && #[trigger] occupied.contains_key(p) ==> occupied[p] == word.cells()[p],
{
    let text = word.text@;
    let o = word.orientation;
    let index = first_index(text, occupied[q]);
    let top = word.pos;
    lemma_first_index(text, occupied[q]);
    assert(in_grid(q));
    if index > 0 {
        lemma_free_run_open(occupied, top, o, 0);
        assert(along(top, o, 0) == top);
    } else {
        assert(top == q);
    }
    assert(in_grid(top));
    assert(along(top, o, index) == q);
    assert forall|p: Pos| word.covers(p) && #[trigger] occupied.contains_key(p) implies occupied[p]
        == word.cells()[p] by {
        let k = word.offset(p);
        assert(p == along(top, o, k));
        if k < index {
            lemma_free_run_open(occupied, top, o, k);
        } else if k > index {
            lemma_free_run_open(occupied, along(q, o, 1), o, k - index - 1);
            assert(along(along(q, o, 1), o, k - index - 1) == p);
        } else {
            assert(p == q);
        }
    }
}

/// What an acceptable crossing through `q` means for any coordinate `p`: the
/// word covers `q`, which holds the word's own letter; every other cell of
/// the word was free, and so were the two cells beside it across the word;
/// and the cell before the word and the cell after it were free.
pub proof fn lemma_crossing_alone(
    occupied: Map<Pos, char>,
    words: Seq<Word>,
    word: Word,
    q: Pos,
    p: Pos,
)
    requires
        forall|c: Pos| occupied.contains_key(c) ==> in_grid(c),
        acceptable(occupied, words, word.text@, word.orientation, q),
        word.pos == anchor_for(word.text@, word.orientation, q, occupied[q]),
    ensures
        word.covers(q),
        occupied.contains_key(q),
        occupied[q] == word.cells()[q],
        word.covers(p) && p != q ==> !blocked(occupied, p, word.orientation),
        word.covers(p) && occupied.contains_key(p) ==> p == q,
        !occupied.contains_key(along(word.pos, word.orientation, -1)),
        !occupied.contains_key(along(word.pos, word.orientation, word.text@.len() as int)),
{
    let text = word.text@;
    let o = word.orientation;
    let index = first_index(text, occupied[q]);
    let top = word.pos;
    lemma_first_index(text, occupied[q]);
    lemma_acceptable_short(occupied, words, text, o, q);
    assert(in_grid(q));
    assert(in_grid(top));
    assert(along(top, o, index) == q);
    if word.covers(p) && p != q {
        let k = word.offset(p);
        assert(p == along(top, o, k));
        if k < index {
            lemma_free_run_open(occupied, top, o, k);
        } else {
            lemma_free_run_open(occupied, along(q, o, 1), o, k - index - 1);
            assert(along(along(q, o, 1), o, k - index - 1) == p);
        }
    }
}

/// Whether entry `i` of the claimed coordinates is the first that the word
/// may cross.
pub open spec fn first_crossing(
    claimed: Seq<(Pos, char)>,
    occupied: Map<Pos, char>,
    words: Seq<Word>,
    text: Seq<char>,
    o: Orientation,
    i: int,
) -> bool {
    &&& 0 <= i < claimed.len()
    &&& acceptable(occupied, words, text, o, claimed[i].0)
    &&& forall|j: int| 0 <= j < i ==> !#[trigger] acceptable(occupied, words, text, o, claimed[j].0)
}

/// Searches the occupied coordinates, in the order in which they were
/// claimed, for one that `candidate` may cross in its present orientation,
/// and returns the anchor that makes the crossing.
pub fn find_anchor(
    occupied: &OccupancyMap,
    free: &FreeSpace,
    words: &Vec<Word>,
    candidate: &Word,
) -> (r: Option<Pos>)
    requires
        occupied.wf(),
        occupied.within_grid(),
        free.describes(occupied@),
    ensures
        match r {
            Some(top) => exists|i: int| #[trigger]
                first_crossing(
                    occupied.entries@,
                    occupied@,
                    words@,
                    candidate.text@,
                    candidate.orientation,
                    i,
                ) && top
                    == anchor_for(
                    candidate.text@,
                    candidate.orientation,
                    occupied.entries@[i].0,
                    occupied.entries@[i].1,
                ),
            None => forall|q: Pos|
                !#[trigger] acceptable(occupied@, words@, candidate.text@, candidate.orientation, q),
        },
{
    let o = candidate.orientation;
    let ghost text = candidate.text@;
    if candidate.text.len() > 15 {
        proof {
            assert forall|q: Pos| !#[trigger] acceptable(occupied@, words@, text, o, q) by {
                if acceptable(occupied@, words@, text, o, q) {
                    lemma_acceptable_short(occupied@, words@, text, o, q);
                }
            }
        }
        return None;
    }
    let n: i32 = candidate.text.len() as i32;
    let mut i: usize = 0;
    while i < occupied.entries.len()
        invariant
            occupied.wf(),
            occupied.within_grid(),
            free.describes(occupied@),
            i <= occupied.entries@.len(),
            o == candidate.orientation,
            text == candidate.text@,
            n == text.len(),
            n <= 15,
            forall|j: int|
                0 <= j < i ==> !#[trigger] acceptable(occupied@, words@, text, o, occupied.entries@[j].0),
        decreases occupied.entries@.len() - i,
    {
        let q = occupied.entries[i].0;
        let c = occupied.entries[i].1;
        proof {
            occupied.lemma_entry(i as int);
            lemma_first_index(text, c);
            assert(in_grid(q));
        }
        match position_of(&candidate.text, c) {
            Some(found) => {
                let index: i32 = found as i32;
                let top = q.shifted(o, -index);
                let middle = q.shifted(o, 1);
                assert(free.run(top, o) == free_run(occupied@, top, o));
                assert(free.run(middle, o) == free_run(occupied@, middle, o));
                if free.get(top, o) >= index && free.get(middle, o) >= n - index - 1
                    && !occupied.contains_key(top.shifted(o, -1)) && !occupied.contains_key(
                    top.shifted(o, n),
                ) && !occupied.contains_key(top.shifted(o, 1)) && axis(top, o) + n <= 15
                    && !has_anchor(words, top) {
                    assert(acceptable(occupied@, words@, text, o, q));
                    assert(first_crossing(occupied.entries@, occupied@, words@, text, o, i as int));
                    return Some(top);
                }
            },
            None => {},
        }
        i += 1;
    }
    proof {
        assert forall|q: Pos| !#[trigger] acceptable(occupied@, words@, text, o, q) by {
            if occupied@.contains_key(q) {
                let j = choose|j: int| 0 <= j < occupied.entries@.len() && occupied.entries@[j].0 == q;
                assert(!acceptable(occupied@, words@, text, o, occupied.entries@[j].0));
            }
        }
    }
    None
}

/// The component of `p` that changes along `o`.
pub fn axis(p: Pos, o: Orientation) -> (r: i32)
    ensures
        r == coordinate(p, o),
{
    match o {
        Orientation::Horizontal => p.x,
        Orientation::Vertical => p.y,
    }
}

} // verus!
