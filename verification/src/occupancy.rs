//! The sparse map from occupied coordinates to the letters on them.

use vstd::prelude::*;
use crate::geometry::{Orientation, Pos, along, in_grid};
use crate::word::Word;

verus! {

/// Occupied coordinates and their letters, in the order in which the
/// coordinates were first claimed.
pub struct OccupancyMap {
    pub entries: Vec<(Pos, char)>,
}

impl View for OccupancyMap {
    type V = Map<Pos, char>;

    open spec fn view(&self) -> Map<Pos, char> {
        Map::new(
            |p: Pos| exists|i: int| 0 <= i < self.entries@.len() && self.entries@[i].0 == p,
            |p: Pos|
                self.entries@[choose|i: int| 0 <= i < self.entries@.len() && self.entries@[i].0 == p].1,
        )
    }
}

/// The coordinates that a list of pairs names.
pub open spec fn listed(entries: Seq<(Pos, char)>) -> Set<Pos> {
    Set::new(|p: Pos| exists|i: int| 0 <= i < entries.len() && entries[i].0 == p)
}

/// A list that names no coordinate twice names as many as it is long.
pub proof fn lemma_listed_count(entries: Seq<(Pos, char)>)
    requires
        forall|i: int, j: int| 0 <= i < j < entries.len() ==> entries[i].0 != entries[j].0,
    ensures
        listed(entries).finite(),
        listed(entries).len() == entries.len(),
    decreases entries.len(),
{
    if entries.len() == 0 {
        assert(listed(entries) =~= Set::<Pos>::empty());
    } else {
        let front = entries.drop_last();
        let p = entries.last().0;
        lemma_listed_count(front);
        assert forall|q: Pos| listed(entries).contains(q) == listed(front).insert(p).contains(q) by {
            if listed(entries).contains(q) {
                let i = choose|i: int| 0 <= i < entries.len() && entries[i].0 == q;
                if i < front.len() {
                    assert(front[i].0 == q);
                }
            }
            if listed(front).contains(q) {
                let i = choose|i: int| 0 <= i < front.len() && front[i].0 == q;
                assert(entries[i].0 == q);
            }
            if q == p {
                assert(entries[entries.len() - 1].0 == q);
            }
        }
        assert(listed(entries) =~= listed(front).insert(p));
        if listed(front).contains(p) {
            let i = choose|i: int| 0 <= i < front.len() && front[i].0 == p;
            assert(entries[i].0 == entries[entries.len() - 1].0);
        }
    }
}

impl OccupancyMap {
    /// No coordinate is listed twice.
    pub open spec fn wf(&self) -> bool {
        forall|i: int, j: int|
            0 <= i < j < self.entries@.len() ==> self.entries@[i].0 != self.entries@[j].0
    }

    /// Every occupied coordinate lies on the grid.
    pub open spec fn within_grid(&self) -> bool {
        forall|p: Pos| self@.contains_key(p) ==> in_grid(p)
    }

    /// Whether `word` could be merged without changing a letter that is
    /// already on the map.
    pub open spec fn agrees_with(&self, word: &Word) -> bool {
        forall|p: Pos| word.covers(p) && #[trigger] self@.contains_key(p) ==> self@[p] == word.cells()[p]
    }

    /// Each listed pair is a pair of the map.
    pub proof fn lemma_entry(&self, i: int)
        requires
            self.wf(),
            0 <= i < self.entries@.len(),
        ensures
            self@.contains_key(self.entries@[i].0),
            self@[self.entries@[i].0] == self.entries@[i].1,
    {
        let p = self.entries@[i].0;
        let j = choose|j: int| 0 <= j < self.entries@.len() && self.entries@[j].0 == p;
        assert(j == i);
    }

    /// The empty map.
    pub fn new() -> (m: OccupancyMap)
        ensures
            m.wf(),
            m@ == Map::<Pos, char>::empty(),
    {
        let m = OccupancyMap { entries: Vec::new() };
        assert(m@ =~= Map::<Pos, char>::empty());
        m
    }

    /// Number of occupied coordinates.
    pub fn len(&self) -> (n: usize)
        requires
            self.wf(),
        ensures
            self@.dom().finite(),
            n == self@.dom().len(),
    {
        proof {
            lemma_listed_count(self.entries@);
            assert(self@.dom() =~= listed(self.entries@));
        }
        self.entries.len()
    }

    /// Where `p` is listed, if it is occupied.
    fn find(&self, p: Pos) -> (r: Option<usize>)
        ensures
            match r {
                Some(i) => i < self.entries@.len() && self.entries@[i as int].0 == p,
                None => forall|i: int| 0 <= i < self.entries@.len() ==> self.entries@[i].0 != p,
            },
    {
        let mut i: usize = 0;
        while i < self.entries.len()
            invariant
                i <= self.entries@.len(),
                forall|j: int| 0 <= j < i ==> self.entries@[j].0 != p,
            decreases self.entries@.len() - i,
        {
            if self.entries[i].0 == p {
                return Some(i);
            }
            i += 1;
        }
        None
    }

    /// The letter on `p`, if `p` is occupied.
    pub fn get(&self, p: Pos) -> (r: Option<char>)
        requires
            self.wf(),
        ensures
            r == (if self@.contains_key(p) { Some(self@[p]) } else { None }),
    {
        match self.find(p) {
            Some(i) => {
                proof {
                    self.lemma_entry(i as int);
                }
                Some(self.entries[i].1)
            },
            None => None,
        }
    }

    /// Whether `p` is occupied.
    pub fn contains_key(&self, p: Pos) -> (r: bool)
        ensures
            r == self@.contains_key(p),
    {
        self.find(p).is_some()
    }

    /// Puts `c` on `p`, replacing the letter that was there.
    pub fn insert(&mut self, p: Pos, c: char)
        requires
            old(self).wf(),
        ensures
            final(self).wf(),
            final(self)@ == old(self)@.insert(p, c),
            old(self)@.contains_key(p) ==> final(self).entries@.len() == old(self).entries@.len(),
            !old(self)@.contains_key(p) ==> final(self).entries@ == old(self).entries@.push((p, c)),
    {
        let ghost before = *self;
        let found = self.find(p);
        match found {
            Some(i) => {
                self.entries.set(i, (p, c));
            },
            None => {
                self.entries.push((p, c));
            },
        }
        proof {
            let at: int = match found {
                Some(i) => i as int,
                None => before.entries@.len() as int,
            };
            assert(self.entries@[at] == (p, c));
            assert(self.wf());
            assert forall|q: Pos| #[trigger]
                self@.contains_key(q) == before@.insert(p, c).contains_key(q) by {
                if self@.contains_key(q) && q != p {
                    let j = choose|j: int| 0 <= j < self.entries@.len() && self.entries@[j].0 == q;
                    assert(before.entries@[j].0 == q);
                }
                if before@.contains_key(q) {
                    let j = choose|j: int|
                        0 <= j < before.entries@.len() && before.entries@[j].0 == q;
                    assert(self.entries@[j].0 == q);
                }
                if q == p {
                    assert(self.entries@[at].0 == q);
                }
            }
            assert forall|q: Pos| #[trigger] self@.contains_key(q) implies self@[q] == before@.insert(
                p,
                c,
            )[q] by {
                let j = choose|j: int| 0 <= j < self.entries@.len() && self.entries@[j].0 == q;
                self.lemma_entry(j);
                if q != p {
                    assert(before.entries@[j] == self.entries@[j]);
                    before.lemma_entry(j);
                }
            }
            assert(self@ =~= before@.insert(p, c));
        }
    }

    /// Whether every letter of `word` lands on a free coordinate or on a
    /// coordinate that already holds the same letter.
    pub fn agrees(&self, word: &Word) -> (r: bool)
        requires
            self.wf(),
            word.representable(),
        ensures
            r == self.agrees_with(word),
    {
        let mut k: usize = 0;
        while k < word.text.len()
            invariant
                self.wf(),
                word.representable(),
                k <= word.text@.len(),
                forall|p: Pos|
                    word.covers(p) && word.offset(p) < k && #[trigger] self@.contains_key(p)
                        ==> self@[p] == word.cells()[p],
            decreases word.text@.len() - k,
        {
            let p = cell_of(word, k);
            match self.get(p) {
                Some(c) => {
                    if c != word.text[k] {
                        assert(word.covers(p) && word.offset(p) == k);
                        return false;
                    }
                },
                None => {},
            }
            assert forall|q: Pos|
                word.covers(q) && word.offset(q) < k + 1 && #[trigger] self@.contains_key(q)
                    implies self@[q] == word.cells()[q] by {
                if word.offset(q) == k {
                    assert(q == p);
                }
            }
            k += 1;
        }
        true
    }

    /// Adds the letters of `word`; where a coordinate was occupied, the
    /// word's letter replaces the one that was there.
    pub fn merge(&mut self, word: &Word)
        requires
            old(self).wf(),
            word.representable(),
        ensures
            final(self).wf(),
            final(self)@ == old(self)@.union_prefer_right(word.cells()),
    {
        let mut k: usize = 0;
        while k < word.text.len()
            invariant
                self.wf(),
                word.representable(),
                k <= word.text@.len(),
                forall|p: Pos|
                    word.covers(p) && word.offset(p) < k ==> #[trigger] self@.contains_key(p)
                        && self@[p] == word.cells()[p],
                forall|p: Pos|
                    !(word.covers(p) && word.offset(p) < k) ==> (#[trigger] self@.contains_key(p)
                        == old(self)@.contains_key(p)) && (self@.contains_key(p) ==> self@[p] == old(self)@[p]),
            decreases word.text@.len() - k,
        {
            let p = cell_of(word, k);
            let ghost prev = self@;
            self.insert(p, word.text[k]);
            proof {
                assert(word.covers(p) && word.offset(p) == k);
                assert forall|q: Pos| word.covers(q) && word.offset(q) < k + 1 implies #[trigger] self@.contains_key(q)
                    && self@[q] == word.cells()[q] by {
                    if word.offset(q) == k {
                        assert(q == p);
                    } else {
                        assert(prev.contains_key(q));
                    }
                }
                assert forall|q: Pos| !(word.covers(q) && word.offset(q) < k + 1) implies (#[trigger] self@.contains_key(q)
                    == old(self)@.contains_key(q)) && (self@.contains_key(q) ==> self@[q] == old(self)@[q]) by {
                    assert(q != p);
                    assert(prev.contains_key(q) == old(self)@.contains_key(q));
                }
            }
            k += 1;
        }
        assert(self@ =~= old(self)@.union_prefer_right(word.cells()));
    }
}

/// The coordinate of the letter with index `k`.
pub fn cell_of(word: &Word, k: usize) -> (p: Pos)
    requires
        word.representable(),
        k < word.text@.len(),
    ensures
        p == along(word.pos, word.orientation, k as int),
        word.covers(p),
        word.offset(p) == k,
{
    match word.orientation {
        Orientation::Horizontal => Pos { x: (word.pos.x as i64 + k as i64) as i32, y: word.pos.y },
        Orientation::Vertical => Pos { x: word.pos.x, y: (word.pos.y as i64 + k as i64) as i32 },
    }
}

} // verus!
