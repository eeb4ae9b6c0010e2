//! The placement engine: a board that grows word by word, and the finished
//! puzzle.

use vstd::prelude::*;
use crate::chance::random_below;
use crate::geometry::{Orientation, Pos, along, coordinate, in_grid};
use crate::occupancy::OccupancyMap;
use crate::placement::{
    acceptable,
    anchor_for,
    anchored_at,
    find_anchor,
    first_crossing,
    lemma_acceptable_agrees,
    lemma_acceptable_short,
    lemma_crossing_alone,
};
use crate::sampler::{clue_of, entry_terms, is_arrangement, sampled, split_spec, well_formed};
use crate::scanner::{FreeSpace, blocked};
use crate::word::Word;

verus! {

/// Number of words of a puzzle.
pub const WORD_COUNT: usize = 9;

/// Every letter of every word is on the map.
pub open spec fn charted(words: Seq<Word>, occupied: Map<Pos, char>) -> bool {
    forall|i: int, p: Pos|
        0 <= i < words.len() && #[trigger] words[i].covers(p) ==> occupied.contains_key(p)
            && occupied[p] == words[i].cells()[p]
}

/// Any two words agree on the letter of each coordinate that both cover.
pub open spec fn consistent(words: Seq<Word>) -> bool {
    forall|i: int, j: int, p: Pos|
        0 <= i < words.len() && 0 <= j < words.len() && #[trigger] words[i].covers(p)
            && #[trigger] words[j].covers(p) ==> words[i].cells()[p] == words[j].cells()[p]
}

/// Every word has a letter, and all its letters lie on the grid.
pub open spec fn all_fit(words: Seq<Word>) -> bool {
    forall|i: int|
        0 <= i < words.len() ==> (#[trigger] words[i]).fits_grid() && words[i].text@.len() >= 1
}

/// No two words start on the same coordinate.
pub open spec fn distinct_anchors(words: Seq<Word>) -> bool {
    forall|i: int, j: int|
        0 <= i < j < words.len() ==> (#[trigger] words[i]).pos != (#[trigger] words[j]).pos
}

/// Every letter on the map belongs to one of the words.
pub open spec fn sourced(words: Seq<Word>, occupied: Map<Pos, char>) -> bool {
    forall|p: Pos| #[trigger]
        occupied.contains_key(p) ==> exists|j: int|
            0 <= j < words.len() && #[trigger] words[j].covers(p)
}

/// Whether word `i` covers a coordinate that an earlier word covers.
pub open spec fn crosses_earlier(words: Seq<Word>, i: int) -> bool {
    exists|j: int, p: Pos| 0 <= j < i && #[trigger] words[j].covers(p) && words[i].covers(p)
}

/// Every word but the first crosses a word that was placed before it.
pub open spec fn interlocked(words: Seq<Word>) -> bool {
    forall|i: int| 1 <= i < words.len() ==> #[trigger] crosses_earlier(words, i)
}

/// The letters that a list of words puts on the grid, laid down in order.
pub open spec fn cells_of(words: Seq<Word>) -> Map<Pos, char>
    decreases words.len(),
{
    if words.len() == 0 {
        Map::empty()
    } else {
        cells_of(words.drop_last()).union_prefer_right(words.last().cells())
    }
}

/// Whether word `i` stands where an acceptable crossing of the letters of
/// the words before it puts it.
pub open spec fn placed_by_crossing(words: Seq<Word>, i: int) -> bool {
    exists|q: Pos| #[trigger]
        acceptable(
            cells_of(words.take(i)),
            words.take(i),
            words[i].text@,
            words[i].orientation,
            q,
        ) && words[i].pos == anchor_for(
            words[i].text@,
            words[i].orientation,
            q,
            cells_of(words.take(i))[q],
        )
}

/// Every word but the first was placed by an acceptable crossing of the
/// words before it.
pub open spec fn all_crossing(words: Seq<Word>) -> bool {
    forall|i: int| 1 <= i < words.len() ==> #[trigger] placed_by_crossing(words, i)
}

/// Whether `word` meets the letters `earlier` on the one coordinate `q`:
/// there it holds the letter that was there; each of its other cells was
/// free, with both cells beside it across the word; and the cell before the
/// word and the cell after it were free.
pub open spec fn crosses_once(earlier: Map<Pos, char>, word: Word, q: Pos) -> bool {
    &&& word.covers(q)
    &&& earlier.contains_key(q)
    &&& earlier[q] == word.cells()[q]
    &&& forall|p: Pos| #[trigger] word.covers(p) && p != q ==> !blocked(earlier, p, word.orientation)
    &&& !earlier.contains_key(along(word.pos, word.orientation, -1))
    &&& !earlier.contains_key(along(word.pos, word.orientation, word.text@.len() as int))
}

/// Words that fit the grid put letters on the grid only.
pub proof fn lemma_cells_on_grid(words: Seq<Word>)
    requires
        all_fit(words),
    ensures
        forall|p: Pos| cells_of(words).contains_key(p) ==> in_grid(p),
    decreases words.len(),
{
    if words.len() > 0 {
        let front = words.drop_last();
        assert forall|i: int| 0 <= i < front.len() implies (#[trigger] front[i]).fits_grid()
            && front[i].text@.len() >= 1 by {
            assert(front[i] == words[i]);
        }
        lemma_cells_on_grid(front);
        assert forall|p: Pos| cells_of(words).contains_key(p) implies in_grid(p) by {
            if !cells_of(front).contains_key(p) {
                assert(words.last() == words[words.len() - 1]);
                assert(words.last().covers(p));
                assert(words.last().fits_grid());
            }
        }
    }
}

/// In a list of words on the grid of which each but the first was placed by
/// an acceptable crossing, word `i` meets the letters of the words before
/// it on exactly one coordinate, lies beside none of them, and abuts none
/// end-on.
pub proof fn lemma_crossing_once(words: Seq<Word>, i: int)
    requires
        all_fit(words),
        all_crossing(words),
        1 <= i < words.len(),
    ensures
        exists|q: Pos| #[trigger] crosses_once(cells_of(words.take(i)), words[i], q),
{
    let before = words.take(i);
    let earlier = cells_of(before);
    let word = words[i];
    assert forall|k: int| 0 <= k < before.len() implies (#[trigger] before[k]).fits_grid()
        && before[k].text@.len() >= 1 by {
        assert(before[k] == words[k]);
    }
    lemma_cells_on_grid(before);
    assert(placed_by_crossing(words, i));
    let q = choose|q: Pos| #[trigger]
        acceptable(earlier, before, word.text@, word.orientation, q) && word.pos == anchor_for(
            word.text@,
            word.orientation,
            q,
            earlier[q],
        );
    lemma_crossing_alone(earlier, before, word, q, q);
    assert forall|p: Pos| #[trigger] word.covers(p) && p != q implies !blocked(
        earlier,
        p,
        word.orientation,
    ) by {
        lemma_crossing_alone(earlier, before, word, q, p);
    }
    assert(crosses_once(earlier, word, q));
}

/// Whether the answer and the clue of `word` are those of a well-formed line
/// of the corpus, under some arrangement of that line's clue candidates.
pub open spec fn from_corpus(corpus: Seq<char>, word: Word) -> bool {
    exists|i: int, order: Seq<usize>|
        {
            &&& 0 <= i < split_spec(corpus, '\n').len()
            &&& is_arrangement(order, entry_terms(corpus, i).len() - 1)
            &&& well_formed(entry_terms(corpus, i))
            &&& word.text@ == entry_terms(corpus, i)[0]
            &&& word.clue@ == #[trigger] clue_of(entry_terms(corpus, i), order)
        }
}

/// Words that cover only what the map records agree with one another.
pub proof fn lemma_charted_consistent(words: Seq<Word>, occupied: Map<Pos, char>)
    requires
        charted(words, occupied),
    ensures
        consistent(words),
{
}

/// What a complete puzzle is, spelled out for any two of its words: there
/// are nine words; each starts on the grid and ends on it; two different
/// words start on different coordinates; and on a coordinate that both
/// cover they hold the same letter.
pub proof fn lemma_complete_puzzle(puzzle: Crossword, i: int, j: int, p: Pos)
    requires
        puzzle.complete(),
        0 <= i < puzzle.words@.len(),
        0 <= j < puzzle.words@.len(),
    ensures
        puzzle.words@.len() == 9,
        ({
            let a = puzzle.words@[i];
            let b = puzzle.words@[j];
            &&& 0 <= a.pos.x
            &&& 0 <= a.pos.y
            &&& coordinate(a.pos, a.orientation) + a.text@.len() <= 15
            &&& i != j ==> a.pos != b.pos
            &&& a.covers(p) && b.covers(p) ==> a.text@[a.offset(p)] == b.text@[b.offset(p)]
        }),
{
    let a = puzzle.words@[i];
    let b = puzzle.words@[j];
    if i < j {
        assert(a.pos != b.pos);
    } else if j < i {
        assert(b.pos != a.pos);
    }
    if a.covers(p) && b.covers(p) {
        assert(a.cells()[p] == b.cells()[p]);
    }
}

/// The words placed so far and the letters they put on the grid.
pub struct Board {
    pub words: Vec<Word>,
    pub cells: OccupancyMap,
}

impl Board {
    /// The map holds the letters of the words and nothing else, on the
    /// grid; every word fits the grid; no two words share an anchor; and
    /// every word but the first was placed by an acceptable crossing of the
    /// words before it.
    pub open spec fn wf(&self) -> bool {
        &&& self.cells.wf()
        &&& self.cells.within_grid()
        &&& self.cells@ == cells_of(self.words@)
        &&& charted(self.words@, self.cells@)
        &&& sourced(self.words@, self.cells@)
        &&& all_fit(self.words@)
        &&& distinct_anchors(self.words@)
        &&& interlocked(self.words@)
        &&& all_crossing(self.words@)
    }

    /// A board with `word` as its only word, where it stands. The word must
    /// have a letter and fit the grid.
    pub fn start(word: Word) -> (r: Option<Board>)
        ensures
            r is Some <==> word.fits_grid() && word.text@.len() >= 1,
            match r {
                Some(board) => board.wf() && board.words@ == seq![word] && board.cells@
                    == word.cells(),
                None => true,
            },
    {
        if word.text.len() == 0 || !word.within_bounds() {
            return None;
        }
        let cells = word.gen_hash();
        let mut words: Vec<Word> = Vec::new();
        words.push(word);
        let board = Board { words, cells };
        proof {
            assert(board.words@ =~= seq![word]);
            assert(cells_of(board.words@.drop_last()) =~= Map::<Pos, char>::empty());
            assert(board.words@.last() == word);
            assert(board.cells@ =~= cells_of(board.words@));
            assert forall|p: Pos| board.cells@.contains_key(p) implies in_grid(p) by {
                assert(word.covers(p));
            }
            assert forall|p: Pos| #[trigger] board.cells@.contains_key(p) implies exists|j: int|
                0 <= j < board.words@.len() && #[trigger] board.words@[j].covers(p) by {
                assert(board.words@[0].covers(p));
            }
        }
        Some(board)
    }

    /// Places `candidate`, in its present orientation, across a letter that
    /// is on the board, if an acceptable crossing exists: the candidate is
    /// anchored there, its letters are merged into the map, and it becomes
    /// the last word. Otherwise the board stays as it is.
    pub fn place(&mut self, free: &FreeSpace, candidate: Word) -> (placed: bool)
        requires
            old(self).wf(),
            free.describes(old(self).cells@),
        ensures
            final(self).wf(),
            placed == exists|q: Pos| #[trigger]
                acceptable(
                    old(self).cells@,
                    old(self).words@,
                    candidate.text@,
                    candidate.orientation,
                    q,
                ),
            !placed ==> final(self).words@ == old(self).words@ && final(self).cells@ == old(self).cells@
                && final(self).cells.entries@ == old(self).cells.entries@,
            placed ==> {
                let last = final(self).words@.last();
                &&& final(self).words@.len() == old(self).words@.len() + 1
                &&& final(self).words@.drop_last() == old(self).words@
                &&& last.text == candidate.text
                &&& last.clue == candidate.clue
                &&& last.orientation == candidate.orientation
                &&& exists|i: int| #[trigger]
                    first_crossing(
                        old(self).cells.entries@,
                        old(self).cells@,
                        old(self).words@,
                        candidate.text@,
                        candidate.orientation,
                        i,
                    ) && last.pos == anchor_for(
                        candidate.text@,
                        candidate.orientation,
                        old(self).cells.entries@[i].0,
                        old(self).cells.entries@[i].1,
                    )
                &&& final(self).cells@ == old(self).cells@.union_prefer_right(last.cells())
            },
    {
        let mut word = candidate;
        match find_anchor(&self.cells, free, &self.words, &word) {
            None => false,
            Some(top) => {
                let o = word.orientation;
                word.move_to(top, o);
                let ghost i = choose|i: int| #[trigger]
                    first_crossing(
                        self.cells.entries@,
                        self.cells@,
                        self.words@,
                        candidate.text@,
                        candidate.orientation,
                        i,
                    )
                        && top == anchor_for(
                        candidate.text@,
                        candidate.orientation,
                        self.cells.entries@[i].0,
                        self.cells.entries@[i].1,
                    );
                let ghost q = self.cells.entries@[i].0;
                proof {
                    self.cells.lemma_entry(i);
                    lemma_acceptable_agrees(self.cells@, self.words@, word, q);
                }
                let ghost before = self.cells@;
                let ghost earlier = self.words@;
                self.cells.merge(&word);
                self.words.push(word);
                proof {
                    assert(self.words@.drop_last() =~= earlier);
                    assert(self.words@.last() == word);
                    assert(self.cells@ == cells_of(self.words@));
                    assert forall|k: int| 1 <= k < self.words@.len() implies #[trigger] placed_by_crossing(
                        self.words@,
                        k,
                    ) by {
                        if k < earlier.len() {
                            assert(placed_by_crossing(earlier, k));
                            assert(self.words@.take(k) =~= earlier.take(k));
                            assert(self.words@[k] == earlier[k]);
                        } else {
                            assert(self.words@.take(k) =~= earlier);
                            assert(acceptable(before, earlier, word.text@, word.orientation, q));
                        }
                    }
                    assert forall|p: Pos| self.cells@.contains_key(p) implies in_grid(p) by {
                        if !before.contains_key(p) {
                            assert(word.covers(p));
                        }
                    }
                    assert forall|i: int, p: Pos|
                        0 <= i < self.words@.len() && #[trigger] self.words@[i].covers(
                            p,
                        ) implies self.cells@.contains_key(p) && self.cells@[p]
                        == self.words@[i].cells()[p] by {
                        if i < earlier.len() {
                            assert(self.words@[i] == earlier[i]);
                            assert(earlier[i].covers(p));
                            assert(before.contains_key(p));
                        }
                    }
                    assert forall|i: int, j: int| 0 <= i < j < self.words@.len() implies (
                    #[trigger] self.words@[i]).pos != (#[trigger] self.words@[j]).pos by {
                        assert(self.words@[i] == earlier[i]);
                        if j < earlier.len() {
                            assert(self.words@[j] == earlier[j]);
                        } else {
                            assert(!anchored_at(earlier, top));
                        }
                    }
                    assert forall|i: int| 0 <= i < self.words@.len() implies (
                    #[trigger] self.words@[i]).fits_grid() && self.words@[i].text@.len() >= 1 by {
                        if i < earlier.len() {
                            assert(self.words@[i] == earlier[i]);
                        }
                    }
                    assert forall|p: Pos| #[trigger] self.cells@.contains_key(p) implies exists|j: int|
                        0 <= j < self.words@.len() && #[trigger] self.words@[j].covers(p) by {
                        if before.contains_key(p) {
                            let j = choose|j: int| 0 <= j < earlier.len() && #[trigger] earlier[j].covers(p);
                            assert(self.words@[j] == earlier[j]);
                            assert(self.words@[j].covers(p));
                        } else {
                            assert(self.words@[earlier.len() as int].covers(p));
                        }
                    }
                    assert forall|i: int| 1 <= i < self.words@.len() implies #[trigger] crosses_earlier(
                        self.words@,
                        i,
                    ) by {
                        if i < earlier.len() {
                            assert(crosses_earlier(earlier, i));
                            let (j, p) = choose|j: int, p: Pos|
                                0 <= j < i && #[trigger] earlier[j].covers(p) && earlier[i].covers(p);
                            assert(self.words@[j] == earlier[j]);
                            assert(self.words@[i] == earlier[i]);
                            assert(self.words@[j].covers(p) && self.words@[i].covers(p));
                        } else {
                            assert(before.contains_key(q));
                            let j = choose|j: int| 0 <= j < earlier.len() && #[trigger] earlier[j].covers(q);
                            assert(self.words@[j] == earlier[j]);
                            assert(self.words@[j].covers(q) && self.words@[i].covers(q));
                        }
                    }
                }
                true
            },
        }
    }
}

/// Number of anchors, along either axis, among which a word of `len`
/// letters is placed at random: those that leave a free cell after the
/// word, and for a word as long as the grid the one anchor that holds it.
pub open spec fn room_for(len: int) -> int {
    if len < 15 {
        15 - len
    } else {
        1
    }
}

impl Word {
    /// Gives the word a random orientation and a random anchor whose two
    /// components both leave room for the word, so that it lies on the grid
    /// whichever way it runs. A word of more than fifteen letters has no
    /// such anchor and may not be handed in.
    pub fn move_random(&mut self)
        requires
            old(self).text@.len() <= 15,
        ensures
            final(self).text == old(self).text,
            final(self).clue == old(self).clue,
            0 <= final(self).pos.x < room_for(old(self).text@.len() as int),
            0 <= final(self).pos.y < room_for(old(self).text@.len() as int),
            final(self).fits_grid(),
    {
        let orientation = if random_below(2) == 0 {
            Orientation::Horizontal
        } else {
            Orientation::Vertical
        };
        let room: usize = if self.text.len() < 15 {
            15 - self.text.len()
        } else {
            1
        };
        let x: i32 = random_below(room) as i32;
        let y: i32 = random_below(room) as i32;
        self.move_to(Pos { x, y }, orientation);
    }
}

/// A finished puzzle: the placed words, in the order of their slots, and the
/// tally of overlaps counted while it was built.
#[derive(Clone, Debug, PartialEq, Eq, Hash)]
pub struct Crossword {
    pub words: Vec<Word>,
    pub score: i32,
}

/// Whether line `i` of the corpus is a well-formed entry whose answer has at
/// most fifteen letters, so that it can lie on the grid.
pub open spec fn usable(corpus: Seq<char>, i: int) -> bool {
    &&& 0 <= i < split_spec(corpus, '\n').len()
    &&& well_formed(entry_terms(corpus, i))
    &&& entry_terms(corpus, i)[0].len() <= 15
}

/// Whether every line of the corpus is usable: whichever line is drawn, it
/// gives a word that can lie on the grid.
pub open spec fn every_line_usable(corpus: Seq<char>) -> bool {
    forall|i: int| 0 <= i < split_spec(corpus, '\n').len() ==> #[trigger] usable(corpus, i)
}

/// Whether a word `text` along `o` has an acceptable crossing on the board.
pub open spec fn crossable(
    occupied: Map<Pos, char>,
    words: Seq<Word>,
    text: Seq<char>,
    o: Orientation,
) -> bool {
    exists|q: Pos| #[trigger] acceptable(occupied, words, text, o, q)
}

/// Whether every line of the corpus is a well-formed entry whose answer has
/// an acceptable crossing on the board in either orientation: whichever
/// line and orientation are drawn, the candidate can be placed.
pub open spec fn every_line_crosses(
    corpus: Seq<char>,
    occupied: Map<Pos, char>,
    words: Seq<Word>,
) -> bool {
    forall|i: int, o: Orientation|
        0 <= i < split_spec(corpus, '\n').len() ==> well_formed(entry_terms(corpus, i))
            && #[trigger] crossable(occupied, words, entry_terms(corpus, i)[0], o)
}

/// The line that a draw was made from: a drawn word has its answer and its
/// clue, and where nothing was drawn the line is malformed.
pub proof fn lemma_drawn_line(corpus: Seq<char>, drawn: Option<Word>) -> (i: int)
    requires
        exists|i: int, order: Seq<usize>|
            0 <= i < split_spec(corpus, '\n').len() && is_arrangement(
                order,
                entry_terms(corpus, i).len() - 1,
            ) && #[trigger] sampled(drawn, entry_terms(corpus, i), order),
    ensures
        0 <= i < split_spec(corpus, '\n').len(),
        match drawn {
            Some(w) => well_formed(entry_terms(corpus, i)) && w.text@ == entry_terms(corpus, i)[0]
                && from_corpus(corpus, w),
            None => !well_formed(entry_terms(corpus, i)),
        },
{
    let (i, order) = choose|i: int, order: Seq<usize>|
        0 <= i < split_spec(corpus, '\n').len() && is_arrangement(
            order,
            entry_terms(corpus, i).len() - 1,
        ) && #[trigger] sampled(drawn, entry_terms(corpus, i), order);
    i
}

/// Draws words until one can seed a board, at most `attempts` times. A draw
/// that gives no word, or an answer too long for the grid, is a failed
/// attempt. Where every line of the corpus is usable, the first draw seeds
/// the board.
pub fn seed_board(text_file: &Vec<char>, attempts: usize) -> (r: Option<Board>)
    ensures
        attempts == 0 ==> r is None,
        attempts > 0 && every_line_usable(text_file@) ==> r is Some,
        match r {
            Some(board) => {
                let first = board.words@[0];
                &&& board.wf()
                &&& board.words@.len() == 1
                &&& board.cells@ == first.cells()
                &&& from_corpus(text_file@, first)
                &&& 0 <= first.pos.x < room_for(first.text@.len() as int)
                &&& 0 <= first.pos.y < room_for(first.text@.len() as int)
            },
            None => true,
        },
{
    let mut tries: usize = 0;
    while tries < attempts
        invariant
            tries <= attempts,
            every_line_usable(text_file@) ==> tries == 0,
        decreases attempts - tries,
    {
        let drawn = Word::random_unplaced(text_file);
        let ghost mut line: int = 0;
        proof {
            line = lemma_drawn_line(text_file@, drawn);
            if every_line_usable(text_file@) {
                assert(usable(text_file@, line));
            }
        }
        match drawn {
            Some(drawn_word) => {
                let mut word = drawn_word;
                if word.length() <= 15 {
                    word.move_random();
                    assert(word.text@ == entry_terms(text_file@, line)[0]);
                    assert(from_corpus(text_file@, word));
                    match Board::start(word) {
                        Some(board) => {
                            return Some(board);
                        },
                        None => {
                            assert(!every_line_usable(text_file@));
                        },
                    }
                } else {
                    assert(!every_line_usable(text_file@));
                }
            },
            None => {
                assert(!every_line_usable(text_file@));
            },
        }
        tries += 1;
    }
    None
}

/// Draws candidates until one can be placed across the board, at most
/// `attempts` times. Tells whether a word was placed; if none was, the board
/// is as it was. A draw that gives no word, or an answer too long for the
/// grid, is a failed attempt. Where every line of the corpus can cross the
/// board in either orientation, the first draw is placed.
pub fn fill_slot(board: &mut Board, free: &FreeSpace, text_file: &Vec<char>, attempts: usize) -> (placed:
    bool)
    requires
        old(board).wf(),
        free.describes(old(board).cells@),
    ensures
        final(board).wf(),
        attempts == 0 ==> !placed,
        attempts > 0 && every_line_crosses(text_file@, old(board).cells@, old(board).words@)
            ==> placed,
        !placed ==> final(board).words@ == old(board).words@ && final(board).cells@ == old(board).cells@
            && final(board).cells.entries@ == old(board).cells.entries@,
        placed ==> {
            let last = final(board).words@.last();
            &&& final(board).words@.len() == old(board).words@.len() + 1
            &&& final(board).words@.drop_last() == old(board).words@
            &&& from_corpus(text_file@, last)
            &&& exists|i: int| #[trigger]
                first_crossing(
                    old(board).cells.entries@,
                    old(board).cells@,
                    old(board).words@,
                    last.text@,
                    last.orientation,
                    i,
                )
                    && last.pos == anchor_for(
                    last.text@,
                    last.orientation,
                    old(board).cells.entries@[i].0,
                    old(board).cells.entries@[i].1,
                )
            &&& final(board).cells@ == old(board).cells@.union_prefer_right(last.cells())
        },
{
    let mut tries: usize = 0;
    while tries < attempts
        invariant
            tries <= attempts,
            board.wf(),
            free.describes(board.cells@),
            board.words@ == old(board).words@,
            board.cells@ == old(board).cells@,
            board.cells.entries@ == old(board).cells.entries@,
            every_line_crosses(text_file@, old(board).cells@, old(board).words@) ==> tries == 0,
        decreases attempts - tries,
    {
        let drawn = Word::random_unplaced(text_file);
        let ghost mut line: int = 0;
        proof {
            line = lemma_drawn_line(text_file@, drawn);
        }
        match drawn {
            Some(drawn_word) => {
                let mut word = drawn_word;
                if word.length() <= 15 {
                    word.move_random();
                    assert(word.text@ == entry_terms(text_file@, line)[0]);
                    assert(from_corpus(text_file@, word));
                    proof {
                        if every_line_crosses(text_file@, board.cells@, board.words@) {
                            assert(crossable(
                                board.cells@,
                                board.words@,
                                entry_terms(text_file@, line)[0],
                                word.orientation,
                            ));
                        }
                    }
                    if board.place(free, word) {
                        assert(from_corpus(text_file@, board.words@.last()));
                        return true;
                    }
                } else {
                    proof {
                        let text = entry_terms(text_file@, line)[0];
                        if crossable(board.cells@, board.words@, text, Orientation::Horizontal) {
                            let q = choose|q: Pos| #[trigger]
                                acceptable(
                                    board.cells@,
                                    board.words@,
                                    text,
                                    Orientation::Horizontal,
                                    q,
                                );
                            lemma_acceptable_short(
                                board.cells@,
                                board.words@,
                                text,
                                Orientation::Horizontal,
                                q,
                            );
                        }
                    }
                }
                assert(!every_line_crosses(text_file@, board.cells@, board.words@));
            },
            None => {
                proof {
                    if every_line_crosses(text_file@, board.cells@, board.words@) {
                        assert(crossable(
                            board.cells@,
                            board.words@,
                            entry_terms(text_file@, line)[0],
                            Orientation::Horizontal,
                        ));
                    }
                }
                assert(!every_line_crosses(text_file@, board.cells@, board.words@));
            },
        }
        tries += 1;
    }
    false
}

impl Crossword {
    /// The puzzle has the full number of words; each has a letter and lies
    /// on the grid; no two share an anchor; and no two put different letters
    /// on one coordinate.
    pub open spec fn complete(&self) -> bool {
        &&& self.words@.len() == WORD_COUNT
        &&& self.laid_out()
    }

    /// Every word lies on the grid, anchors are distinct, and words that
    /// cross agree on the letter of the crossing.
    pub open spec fn laid_out(&self) -> bool {
        &&& all_fit(self.words@)
        &&& distinct_anchors(self.words@)
        &&& consistent(self.words@)
    }

    /// Builds a puzzle of `slots` words from the corpus. The first word goes
    /// to a random place; each later word must cross a letter already on the
    /// board. For each slot at most `attempts` candidates are drawn; when
    /// they run out, the generation fails. A puzzle without slots is always
    /// made, and so is one of a single slot where every line of the corpus
    /// is usable; from the second slot on the draws decide.
    pub fn generate(text_file: &Vec<char>, slots: usize, attempts: usize) -> (r: Option<Crossword>)
        ensures
            attempts == 0 && slots > 0 ==> r is None,
            slots == 0 ==> r is Some,
            slots == 1 && attempts > 0 && every_line_usable(text_file@) ==> r is Some,
            match r {
                Some(puzzle) => {
                    &&& puzzle.words@.len() == slots
                    &&& puzzle.laid_out()
                    &&& interlocked(puzzle.words@)
                    &&& all_crossing(puzzle.words@)
                    &&& puzzle.score == 0
                    &&& forall|i: int|
                        0 <= i < puzzle.words@.len() ==> from_corpus(
                            text_file@,
                            #[trigger] puzzle.words@[i],
                        )
                },
                None => true,
            },
    {
        if slots == 0 {
            return Some(Crossword { words: Vec::new(), score: 0 });
        }
        let mut board = match seed_board(text_file, attempts) {
            Some(board) => board,
            None => {
                return None;
            },
        };
        let mut slot: usize = 1;
        while slot < slots
            invariant
                1 <= slot <= slots,
                board.wf(),
                board.words@.len() == slot,
                forall|i: int|
                    0 <= i < board.words@.len() ==> from_corpus(
                        text_file@,
                        #[trigger] board.words@[i],
                    ),
            decreases slots - slot,
        {
            let free = FreeSpace::scan(&board.cells);
            let ghost earlier = board.words@;
            if !fill_slot(&mut board, &free, text_file, attempts) {
                return None;
            }
            proof {
                assert forall|i: int| 0 <= i < board.words@.len() implies from_corpus(
                    text_file@,
                    #[trigger] board.words@[i],
                ) by {
                    if i < earlier.len() {
                        assert(board.words@[i] == board.words@.drop_last()[i]);
                    } else {
                        assert(board.words@[i] == board.words@.last());
                    }
                }
            }
            slot += 1;
        }
        proof {
            lemma_charted_consistent(board.words@, board.cells@);
        }
        Some(Crossword { words: board.words, score: 0 })
    }

    /// The word of the slot with the given number, counted from one.
    pub fn slot(&self, number: usize) -> (r: Option<&Word>)
        ensures
            r is Some <==> 1 <= number <= self.words@.len(),
            r is Some ==> *r->0 == self.words@[number - 1],
    {
        if 1 <= number && number <= self.words.len() {
            Some(&self.words[number - 1])
        } else {
            None
        }
    }

    /// Builds a puzzle of nine words from the corpus, drawing at most
    /// `attempts` candidates for each slot. Every word after the first
    /// stands where an acceptable crossing of the earlier words puts it.
    pub fn new(text_file: &Vec<char>, attempts: usize) -> (r: Option<Crossword>)
        ensures
            attempts == 0 ==> r is None,
            match r {
                Some(puzzle) => {
                    &&& puzzle.complete()
                    &&& interlocked(puzzle.words@)
                    &&& all_crossing(puzzle.words@)
                    &&& puzzle.score == 0
                    &&& forall|i: int|
                        0 <= i < puzzle.words@.len() ==> from_corpus(
                            text_file@,
                            #[trigger] puzzle.words@[i],
                        )
                },
                None => true,
            },
    {
        Crossword::generate(text_file, WORD_COUNT, attempts)
    }
}

} // verus!
