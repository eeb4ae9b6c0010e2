//! Building a puzzle by scattering words at random and keeping those that
//! clash with nothing, with a tally of the letters they share.

use vstd::prelude::*;
use crate::crossword::{
    Crossword,
    WORD_COUNT,
    all_crossing,
    all_fit,
    consistent,
    distinct_anchors,
    every_line_usable,
    from_corpus,
    interlocked,
    lemma_drawn_line,
    usable,
};
use crate::sampler::entry_terms;
use crate::placement::anchored_at;
use crate::scoring::{
    Verdict,
    judge,
    lemma_consistent_no_clash,
    lemma_no_clash_consistent,
    lemma_score_bound,
    rejected,
    score_of,
    shared_with_all,
};
use crate::word::Word;

verus! {

/// How often a candidate that touches nothing is turned away before one is
/// taken all the same.
pub const ISOLATED_RETRIES: usize = 100;

/// How many rejected candidates end the whole build.
pub const CONFLICT_BUDGET: usize = 1000;

/// The grid has this many cells, so a puzzle has at most this many anchors.
pub const MAX_WORDS: usize = 225;

/// Whether a candidate that touches nothing is taken, after `lonely` such
/// candidates were turned away for the slot: from the hundredth on.
pub fn lets_isolated_in(lonely: usize) -> (r: bool)
    ensures
        r == (lonely >= ISOLATED_RETRIES),
        r == (lonely >= 100),
{
    lonely >= ISOLATED_RETRIES
}

/// Whether `conflicts` rejected candidates end the build: a thousand do.
pub fn budget_spent(conflicts: usize) -> (r: bool)
    ensures
        r == (conflicts >= CONFLICT_BUDGET),
        r == (conflicts >= 1000),
{
    conflicts >= CONFLICT_BUDGET
}

/// The two ways of building a puzzle.
#[derive(Clone, Copy, Debug, PartialEq, Eq, Structural)]
pub enum Strategy {
    /// Words are scattered at random; those that clash with nothing stay.
    Scatter,
    /// The first word is placed at random; each later one must cross a
    /// letter that is on the board.
    Intersect,
}

/// Whether a candidate with verdict `v` joins the puzzle: one that crosses
/// does; one that is isolated does where isolated words are let in, or where
/// the puzzle has no word yet.
pub open spec fn taken(v: Verdict, allow_isolated: bool, count: int) -> bool {
    match v {
        Verdict::Rejected => false,
        Verdict::Isolated => allow_isolated || count == 0,
        Verdict::Crossing(_) => true,
    }
}

/// The verdict on `candidate` over `words`.
pub open spec fn verdict_of(words: Seq<Word>, candidate: Word) -> Verdict {
    if rejected(words, candidate) {
        Verdict::Rejected
    } else if shared_with_all(candidate, words) == 0 {
        Verdict::Isolated
    } else {
        Verdict::Crossing(shared_with_all(candidate, words) as usize)
    }
}

impl Crossword {
    /// The score is the number of coordinate pairs of distinct words that
    /// hold the same letter.
    pub open spec fn tallied(&self) -> bool {
        self.score == score_of(self.words@)
    }

    /// A puzzle without words.
    pub fn empty() -> (puzzle: Crossword)
        ensures
            puzzle.words@.len() == 0,
            puzzle.score == 0,
            puzzle.laid_out(),
            puzzle.tallied(),
    {
        Crossword { words: Vec::new(), score: 0 }
    }

    /// Judges `candidate` where it stands, and appends it if it is taken,
    /// adding the letters it shares with the placed words to the score.
    pub fn accept(&mut self, candidate: Word, allow_isolated: bool) -> (v: Verdict)
        requires
            old(self).laid_out(),
            old(self).tallied(),
            old(self).words@.len() < 225,
        ensures
            v == verdict_of(old(self).words@, candidate),
            final(self).laid_out(),
            final(self).tallied(),
            taken(v, allow_isolated, old(self).words@.len() as int) ==> final(self).words@ == old(
                self,
            ).words@.push(candidate) && final(self).score == old(self).score + shared_with_all(
                candidate,
                old(self).words@,
            ),
            !taken(v, allow_isolated, old(self).words@.len() as int) ==> final(self).words@ == old(
                self,
            ).words@ && final(self).score == old(self).score,
    {
        let v = judge(&self.words, &candidate);
        let gain: usize = match v {
            Verdict::Rejected => {
                return v;
            },
            Verdict::Isolated => {
                if !allow_isolated && self.words.len() > 0 {
                    return v;
                }
                0
            },
            Verdict::Crossing(n) => n,
        };
        let ghost earlier = self.words@;
        proof {
            lemma_score_bound(earlier);
            lemma_no_clash_consistent(candidate, earlier);
        }
        self.score = self.score + gain as i32;
        self.words.push(candidate);
        proof {
            let all = self.words@;
            assert(all.drop_last() =~= earlier);
            assert(all.last() == candidate);
            assert forall|i: int| 0 <= i < all.len() implies (#[trigger] all[i]).fits_grid()
                && all[i].text@.len() >= 1 by {
                if i < earlier.len() {
                    assert(all[i] == earlier[i]);
                }
            }
            assert forall|i: int, j: int| 0 <= i < j < all.len() implies (#[trigger] all[i]).pos != (
            #[trigger] all[j]).pos by {
                assert(all[i] == earlier[i]);
                if j < earlier.len() {
                    assert(all[j] == earlier[j]);
                } else {
                    assert(!anchored_at(earlier, candidate.pos));
                }
            }
        }
        v
    }

    /// Builds a puzzle of `slots` words by scattering. Each candidate is
    /// drawn from the corpus and laid at a random place. One that crosses
    /// placed words without a clash is taken. One that touches nothing is
    /// turned away until a hundred such were seen for the slot, except in an
    /// empty puzzle. One that is rejected counts against a budget of a
    /// thousand, which ends the build when it is spent. An answer too long
    /// for the grid is rejected where it stands. For each slot at most
    /// `attempts` candidates are drawn. A puzzle without slots is
    /// always made, and so is one of a single slot where every line of the
    /// corpus is usable; from the second slot on the draws decide.
    pub fn scatter(text_file: &Vec<char>, slots: usize, attempts: usize) -> (r: Option<Crossword>)
        ensures
            slots > 225 ==> r is None,
            attempts == 0 && slots > 0 ==> r is None,
            slots == 0 ==> r is Some,
            slots == 1 && attempts > 0 && every_line_usable(text_file@) ==> r is Some,
            match r {
                Some(puzzle) => {
                    &&& puzzle.words@.len() == slots
                    &&& puzzle.laid_out()
                    &&& puzzle.tallied()
                    &&& forall|i: int|
                        0 <= i < puzzle.words@.len() ==> from_corpus(
                            text_file@,
                            #[trigger] puzzle.words@[i],
                        )
                },
                None => true,
            },
    {
        if slots > MAX_WORDS {
            return None;
        }
        let mut puzzle = Crossword::empty();
        let mut conflicts: usize = 0;
        let mut slot: usize = 0;
        while slot < slots
            invariant
                slot <= slots <= 225,
                conflicts < 1000,
                puzzle.laid_out(),
                puzzle.tallied(),
                puzzle.words@.len() == slot,
                attempts == 0 ==> slot == 0,
                forall|i: int|
                    0 <= i < puzzle.words@.len() ==> from_corpus(
                        text_file@,
                        #[trigger] puzzle.words@[i],
                    ),
            decreases slots - slot,
        {
            let mut lonely: usize = 0;
            let mut tries: usize = 0;
            let mut placed = false;
            while tries < attempts && !placed
                invariant
                    slot < slots <= 225,
                    tries <= attempts,
                    lonely <= tries,
                    conflicts < 1000,
                    puzzle.laid_out(),
                    puzzle.tallied(),
                    puzzle.words@.len() == (if placed {
                        slot + 1
                    } else {
                        slot as int
                    }),
                    placed ==> attempts > 0,
                    slots == 1 && every_line_usable(text_file@) ==> placed || tries == 0,
                    forall|i: int|
                        0 <= i < puzzle.words@.len() ==> from_corpus(
                            text_file@,
                            #[trigger] puzzle.words@[i],
                        ),
                decreases attempts - tries,
            {
                tries += 1;
                let drawn = Word::random_unplaced(text_file);
                let ghost mut line: int = 0;
                proof {
                    line = lemma_drawn_line(text_file@, drawn);
                    if every_line_usable(text_file@) {
                        assert(usable(text_file@, line));
                    }
                }
                match drawn {
                    Some(drawn_word) => {
                        let mut word = drawn_word;
                        if word.length() <= 15 {
                            word.move_random();
                        }
                        assert(word.text@ == entry_terms(text_file@, line)[0]);
                        assert(from_corpus(text_file@, word));
                        let ghost earlier = puzzle.words@;
                        proof {
                            if slots == 1 && every_line_usable(text_file@) {
                                assert(earlier.len() == 0);
                                assert(!anchored_at(earlier, word.pos));
                                assert(verdict_of(earlier, word) == Verdict::Isolated);
                            }
                        }
                        match puzzle.accept(word, lets_isolated_in(lonely)) {
                            Verdict::Rejected => {
                                conflicts += 1;
                                if budget_spent(conflicts) {
                                    return None;
                                }
                            },
                            Verdict::Isolated => {
                                if puzzle.words.len() > slot {
                                    placed = true;
                                } else {
                                    lonely += 1;
                                }
                            },
                            Verdict::Crossing(_) => {
                                placed = true;
                            },
                        }
                        proof {
                            if placed {
                                assert(puzzle.words@ == earlier.push(word));
                                assert forall|i: int| 0 <= i < puzzle.words@.len() implies from_corpus(
                                    text_file@,
                                    #[trigger] puzzle.words@[i],
                                ) by {
                                    if i < earlier.len() {
                                        assert(puzzle.words@[i] == earlier[i]);
                                    }
                                }
                            }
                        }
                    },
                    None => {},
                }
            }
            if !placed {
                return None;
            }
            slot += 1;
        }
        Some(puzzle)
    }

    /// Builds a puzzle of `slots` words in the way that `strategy` names.
    /// What comes back lies on the grid, with distinct anchors and without a
    /// clash; a scattered puzzle carries its overlap score, an intersected
    /// one the score zero. Either way a puzzle without slots is always made,
    /// and so is one of a single slot where every line of the corpus is
    /// usable.
    pub fn build(strategy: Strategy, text_file: &Vec<char>, slots: usize, attempts: usize) -> (r:
        Option<Crossword>)
        ensures
            attempts == 0 && slots > 0 ==> r is None,
            slots == 0 ==> r is Some,
            slots == 1 && attempts > 0 && every_line_usable(text_file@) ==> r is Some,
            match r {
                Some(puzzle) => {
                    &&& puzzle.laid_out()
                    &&& match strategy {
                        Strategy::Scatter => puzzle.words@.len() == slots && puzzle.tallied(),
                        Strategy::Intersect => puzzle.words@.len() == slots && puzzle.score == 0
                            && interlocked(puzzle.words@) && all_crossing(puzzle.words@),
                    }
                    &&& forall|i: int|
                        0 <= i < puzzle.words@.len() ==> from_corpus(
                            text_file@,
                            #[trigger] puzzle.words@[i],
                        )
                },
                None => true,
            },
    {
        match strategy {
            Strategy::Scatter => Crossword::scatter(text_file, slots, attempts),
            Strategy::Intersect => Crossword::generate(text_file, slots, attempts),
        }
    }

    /// Takes a puzzle as it was stored: the words and the score come back as
    /// a puzzle if there are nine words, each with a letter and on the
    /// grid, no two with one anchor, and no two with different letters on
    /// one coordinate. Anything else gives nothing.
    pub fn restore(words: Vec<Word>, score: i32) -> (r: Option<Crossword>)
        ensures
            r is Some <==> words@.len() == WORD_COUNT && all_fit(words@) && distinct_anchors(words@)
                && consistent(words@),
            match r {
                Some(puzzle) => puzzle.words@ == words@ && puzzle.score == score && puzzle.complete(),
                None => true,
            },
    {
        if words.len() != WORD_COUNT {
            return None;
        }
        let mut rest = words;
        let mut puzzle = Crossword::empty();
        let mut i: usize = 0;
        while i < WORD_COUNT
            invariant
                i <= WORD_COUNT,
                words@.len() == WORD_COUNT,
                puzzle.laid_out(),
                puzzle.tallied(),
                puzzle.words@ == words@.take(i as int),
                rest@ == words@.skip(i as int),
            decreases WORD_COUNT - i,
        {
            let word = rest.remove(0);
            assert(word == words@[i as int]);
            assert(rest@ =~= words@.skip(i + 1));
            match puzzle.accept(word, true) {
                Verdict::Rejected => {
                    proof {
                        if all_fit(words@) && distinct_anchors(words@) && consistent(words@) {
                            lemma_consistent_no_clash(words@, i as int, i as int);
                            let earlier = words@.take(i as int);
                            if anchored_at(earlier, word.pos) {
                                let j = choose|j: int| 0 <= j < earlier.len() && #[trigger] earlier[j].pos == word.pos;
                                assert(earlier[j] == words@[j]);
                            }
                            assert(words@[i as int].fits_grid());
                        }
                    }
                    return None;
                },
                _ => {},
            }
            assert(puzzle.words@ =~= words@.take(i + 1));
            i += 1;
        }
        assert(words@.take(WORD_COUNT as int) == words@);
        Some(Crossword { words: puzzle.words, score })
    }
}

} // verus!
