//! Reading one entry of the corpus into an answer and its clue.

use vstd::prelude::*;
use crate::chance::{choose_line, lowercase, lowercase_of, shuffle};
use crate::geometry::{Orientation, Pos};
use crate::word::Word;

verus! {

/// The characters that survive normalisation: lowercase letters, the space,
/// the separator of terms and the colon.
pub open spec fn allowed(c: char) -> bool {
    is_letter(c) || c == ' ' || c == '|' || c == ':'
}

/// Whether `c` is one of `a` to `z`.
pub open spec fn is_letter(c: char) -> bool {
    'a' as u32 <= c as u32 <= 'z' as u32
}

/// `text` without the characters that are not allowed.
pub open spec fn strip_spec(text: Seq<char>) -> Seq<char> {
    text.filter(|c: char| allowed(c))
}

/// The pieces of `text` between occurrences of `sep`. There is always at
/// least one piece; a separator at either end gives an empty piece there.
pub open spec fn split_spec(text: Seq<char>, sep: char) -> Seq<Seq<char>>
    decreases text.len(),
{
    if text.len() == 0 {
        seq![Seq::<char>::empty()]
    } else {
        let head = split_spec(text.drop_last(), sep);
        if text.last() == sep {
            head.push(Seq::<char>::empty())
        } else {
            head.update(head.len() - 1, head.last().push(text.last()))
        }
    }
}

/// The pieces joined by a comma and a space.
pub open spec fn join_spec(parts: Seq<Seq<char>>) -> Seq<char>
    decreases parts.len(),
{
    if parts.len() == 0 {
        Seq::<char>::empty()
    } else if parts.len() == 1 {
        parts[0]
    } else {
        join_spec(parts.drop_last()) + seq![',', ' '] + parts.last()
    }
}

/// The texts held by a vector of character vectors.
pub open spec fn texts(v: Seq<Vec<char>>) -> Seq<Seq<char>> {
    Seq::new(v.len(), |k: int| v[k]@)
}

/// An answer is a non-empty run of lowercase letters.
pub open spec fn is_answer(text: Seq<char>) -> bool {
    text.len() >= 1 && forall|k: int| 0 <= k < text.len() ==> is_letter(#[trigger] text[k])
}

/// An entry is well formed when it has an answer and at least one more term.
pub open spec fn well_formed(terms: Seq<Seq<char>>) -> bool {
    terms.len() >= 2 && is_answer(terms[0])
}

/// The clue candidates chosen by `order`: at most three of the terms after
/// the answer, the first three that `order` names.
pub open spec fn chosen(terms: Seq<Seq<char>>, order: Seq<usize>) -> Seq<Seq<char>> {
    Seq::new(
        if order.len() < 3 {
            order.len()
        } else {
            3
        },
        |k: int| terms[1 + order[k]],
    )
}

/// The clue of an entry under the arrangement `order` of its candidates.
pub open spec fn clue_of(terms: Seq<Seq<char>>, order: Seq<usize>) -> Seq<char> {
    join_spec(chosen(terms, order))
}

/// Whether `order` names clue candidates of an entry of `count` terms.
pub open spec fn names_candidates(order: Seq<usize>, count: int) -> bool {
    forall|k: int| 0 <= k < order.len() ==> 1 + #[trigger] order[k] < count
}

/// The numbers from zero up to `m`, in order.
pub open spec fn identity(m: int) -> Seq<usize> {
    Seq::new(m as nat, |k: int| k as usize)
}

/// Whether `order` holds each of the numbers below `m` once.
pub open spec fn is_arrangement(order: Seq<usize>, m: int) -> bool {
    order.to_multiset() == identity(m).to_multiset()
}

/// Whether `word` is what the entry `terms` gives under `order`: nothing for
/// a malformed entry, else the first term as the answer, unplaced, with the
/// clue of the chosen candidates.
pub open spec fn sampled(word: Option<Word>, terms: Seq<Seq<char>>, order: Seq<usize>) -> bool {
    match word {
        Some(w) => {
            &&& well_formed(terms)
            &&& w.text@ == terms[0]
            &&& w.clue@ == clue_of(terms, order)
            &&& w.pos == Pos { x: 0, y: 0 }
            &&& w.orientation == Orientation::Horizontal
        },
        None => !well_formed(terms),
    }
}

/// The terms of line `i` of the corpus, after normalisation.
pub open spec fn entry_terms(corpus: Seq<char>, i: int) -> Seq<Seq<char>> {
    split_spec(strip_spec(lowercase_of(split_spec(corpus, '\n')[i])), '|')
}

/// Whether `needle` occurs in `hay` as a run of consecutive characters.
pub open spec fn occurs_in(needle: Seq<char>, hay: Seq<char>) -> bool {
    exists|i: int|
        0 <= i && i + needle.len() <= hay.len() && #[trigger] hay.subrange(
            i,
            i + needle.len(),
        ) == needle
}

/// An answer that occurs in none of the joined pieces does not occur in
/// what they are joined to: it holds neither a comma nor a space, so no
/// occurrence can reach from one piece into the next.
pub proof fn lemma_join_omits_answer(answer: Seq<char>, parts: Seq<Seq<char>>)
    requires
        is_answer(answer),
        forall|k: int| 0 <= k < parts.len() ==> !occurs_in(answer, #[trigger] parts[k]),
    ensures
        !occurs_in(answer, join_spec(parts)),
    decreases parts.len(),
{
    let n = answer.len() as int;
    if parts.len() == 0 {
        assert forall|i: int| 0 <= i && i + n <= join_spec(parts).len() implies #[trigger] join_spec(
            parts,
        ).subrange(i, i + n) != answer by {}
    } else if parts.len() == 1 {
    } else {
        let front = join_spec(parts.drop_last());
        let back = parts.last();
        let hay = join_spec(parts);
        assert forall|k: int| 0 <= k < parts.drop_last().len() implies !occurs_in(
            answer,
            #[trigger] parts.drop_last()[k],
        ) by {
            assert(parts.drop_last()[k] == parts[k]);
        }
        lemma_join_omits_answer(answer, parts.drop_last());
        assert(hay == front + seq![',', ' '] + back);
        assert forall|i: int| 0 <= i && i + n <= hay.len() implies #[trigger] hay.subrange(i, i + n)
            != answer by {
            let window = hay.subrange(i, i + n);
            if i + n <= front.len() {
                assert(window =~= front.subrange(i, i + n));
            } else if i >= front.len() + 2 {
                let start = i - front.len() - 2;
                assert(window =~= back.subrange(start, start + n));
            } else if i <= front.len() {
                assert(window[front.len() - i] == ',');
                assert(!is_letter(','));
            } else {
                assert(window[0] == ' ');
                assert(!is_letter(' '));
            }
        }
    }
}

/// What occurs in one of the joined pieces occurs in what they are joined
/// to.
pub proof fn lemma_join_keeps_part(needle: Seq<char>, parts: Seq<Seq<char>>, k: int)
    requires
        0 <= k < parts.len(),
        occurs_in(needle, parts[k]),
    ensures
        occurs_in(needle, join_spec(parts)),
    decreases parts.len(),
{
    let n = needle.len() as int;
    if parts.len() == 1 {
    } else {
        let front = join_spec(parts.drop_last());
        let back = parts.last();
        let hay = join_spec(parts);
        assert(hay == front + seq![',', ' '] + back);
        if k == parts.len() - 1 {
            let i = choose|i: int| 0 <= i && i + n <= back.len() && #[trigger] back.subrange(i, i + n) == needle;
            let at = front.len() + 2 + i;
            assert(hay.subrange(at, at + n) =~= back.subrange(i, i + n));
        } else {
            assert(parts.drop_last()[k] == parts[k]);
            lemma_join_keeps_part(needle, parts.drop_last(), k);
            let i = choose|i: int| 0 <= i && i + n <= front.len() && #[trigger] front.subrange(i, i + n) == needle;
            assert(hay.subrange(i, i + n) =~= front.subrange(i, i + n));
        }
    }
}

/// The clue of a well-formed entry does not hold the entry's answer, unless
/// one of the candidates chosen for the clue holds it.
pub proof fn lemma_clue_omits_answer(terms: Seq<Seq<char>>, order: Seq<usize>)
    requires
        well_formed(terms),
        forall|k: int|
            0 <= k < chosen(terms, order).len() ==> !occurs_in(terms[0], #[trigger] chosen(terms, order)[k]),
    ensures
        !occurs_in(terms[0], clue_of(terms, order)),
{
    lemma_join_omits_answer(terms[0], chosen(terms, order));
}

/// A clue holds the answer whenever one of the candidates chosen for it
/// does.
pub proof fn lemma_clue_keeps_candidate(terms: Seq<Seq<char>>, order: Seq<usize>, k: int)
    requires
        0 <= k < chosen(terms, order).len(),
        occurs_in(terms[0], chosen(terms, order)[k]),
    ensures
        occurs_in(terms[0], clue_of(terms, order)),
{
    lemma_join_keeps_part(terms[0], chosen(terms, order), k);
}

/// Whether `c` is a lowercase letter, a space, the separator or a colon.
pub fn is_allowed(c: char) -> (r: bool)
    ensures
        r == allowed(c),
{
    let u: u32 = c as u32;
    (97 <= u && u <= 122) || c == ' ' || c == '|' || c == ':'
}

/// Drops every character that is not allowed.
pub fn strip(text: &Vec<char>) -> (out: Vec<char>)
    ensures
        out@ == strip_spec(text@),
{
    let mut out: Vec<char> = Vec::new();
    let mut i: usize = 0;
    proof {
        reveal(Seq::filter);
        assert(text@.take(0).len() == 0);
    }
    while i < text.len()
        invariant
            i <= text@.len(),
            out@ == strip_spec(text@.take(i as int)),
        decreases text@.len() - i,
    {
        let c = text[i];
        proof {
            reveal(Seq::filter);
            assert(text@.take(i + 1).drop_last() == text@.take(i as int));
            assert(text@.take(i + 1).last() == c);
        }
        if is_allowed(c) {
            out.push(c);
        }
        i += 1;
    }
    assert(text@.take(text@.len() as int) == text@);
    out
}

/// Splits `text` at every occurrence of `sep`.
pub fn split(text: &Vec<char>, sep: char) -> (pieces: Vec<Vec<char>>)
    ensures
        texts(pieces@) == split_spec(text@, sep),
        pieces@.len() >= 1,
{
    let mut pieces: Vec<Vec<char>> = Vec::new();
    let mut current: Vec<char> = Vec::new();
    let mut i: usize = 0;
    assert(text@.take(0).len() == 0);
    assert(texts(pieces@).push(current@) =~= seq![Seq::<char>::empty()]);
    while i < text.len()
        invariant
            i <= text@.len(),
            texts(pieces@).push(current@) == split_spec(text@.take(i as int), sep),
        decreases text@.len() - i,
    {
        let c = text[i];
        let ghost done = texts(pieces@);
        let ghost open = current@;
        proof {
            assert(text@.take(i + 1).drop_last() == text@.take(i as int));
            assert(text@.take(i + 1).last() == c);
        }
        if c == sep {
            pieces.push(current);
            current = Vec::new();
            assert(texts(pieces@) =~= done.push(open));
        } else {
            current.push(c);
            assert(texts(pieces@).push(current@) =~= done.push(open).update(
                done.len() as int,
                open.push(c),
            ));
        }
        i += 1;
    }
    assert(text@.take(text@.len() as int) == text@);
    let ghost done = texts(pieces@);
    let ghost open = current@;
    pieces.push(current);
    assert(texts(pieces@) =~= done.push(open));
    pieces
}

/// Whether `text` is a non-empty run of lowercase letters.
pub fn check_answer(text: &Vec<char>) -> (r: bool)
    ensures
        r == is_answer(text@),
{
    if text.len() == 0 {
        return false;
    }
    let mut i: usize = 0;
    while i < text.len()
        invariant
            i <= text@.len(),
            forall|k: int| 0 <= k < i ==> is_letter(#[trigger] text@[k]),
        decreases text@.len() - i,
    {
        let u: u32 = text[i] as u32;
        if !(97 <= u && u <= 122) {
            return false;
        }
        i += 1;
    }
    true
}

/// Appends the characters of `piece` to `out`.
fn append(out: &mut Vec<char>, piece: &Vec<char>)
    ensures
        final(out)@ == old(out)@ + piece@,
{
    let mut i: usize = 0;
    while i < piece.len()
        invariant
            i <= piece@.len(),
            out@ == old(out)@ + piece@.take(i as int),
        decreases piece@.len() - i,
    {
        out.push(piece[i]);
        assert(piece@.take(i + 1) =~= piece@.take(i as int).push(piece@[i as int]));
        i += 1;
    }
    assert(piece@.take(piece@.len() as int) == piece@);
}

/// Joins, with a comma and a space, the first three candidates that `order`
/// names, or all of them where there are fewer.
pub fn make_clue(terms: &Vec<Vec<char>>, order: &Vec<usize>) -> (clue: Vec<char>)
    requires
        names_candidates(order@, terms@.len() as int),
    ensures
        clue@ == clue_of(texts(terms@), order@),
{
    let count: usize = if order.len() < 3 {
        order.len()
    } else {
        3
    };
    let ghost picks = chosen(texts(terms@), order@);
    let mut clue: Vec<char> = Vec::new();
    let mut k: usize = 0;
    assert(picks.take(0).len() == 0);
    while k < count
        invariant
            k <= count,
            count == picks.len(),
            count <= order@.len(),
            picks == chosen(texts(terms@), order@),
            names_candidates(order@, terms@.len() as int),
            clue@ == join_spec(picks.take(k as int)),
        decreases count - k,
    {
        let ghost before = clue@;
        if k > 0 {
            clue.push(',');
            clue.push(' ');
        }
        let total: usize = terms.len();
        assert(1 + order@[k as int] < total);
        let pick: usize = order[k] + 1;
        append(&mut clue, &terms[pick]);
        proof {
            let now = picks.take(k + 1);
            assert(now.drop_last() =~= picks.take(k as int));
            assert(now.last() == terms@[1 + order@[k as int]]@);
            if k > 0 {
                assert(clue@ =~= before + seq![',', ' '] + now.last());
            } else {
                assert(before.len() == 0);
                assert(clue@ =~= now[0]);
            }
        }
        k += 1;
    }
    assert(picks.take(picks.len() as int) == picks);
    clue
}

/// Builds the unplaced word of an entry from its terms and an arrangement of
/// its clue candidates; a malformed entry gives nothing.
pub fn word_from_terms(terms: &Vec<Vec<char>>, order: &Vec<usize>) -> (word: Option<Word>)
    requires
        names_candidates(order@, terms@.len() as int),
    ensures
        sampled(word, texts(terms@), order@),
{
    if terms.len() < 2 || !check_answer(&terms[0]) {
        return None;
    }
    let clue = make_clue(terms, order);
    let text = copy_of(&terms[0]);
    Some(Word { text, pos: Pos { x: 0, y: 0 }, orientation: Orientation::Horizontal, clue })
}

/// A copy of `text`.
pub fn copy_of(text: &Vec<char>) -> (r: Vec<char>)
    ensures
        r@ == text@,
{
    let mut r: Vec<char> = Vec::new();
    append(&mut r, text);
    r
}

/// The numbers below `m`, in a random order.
pub fn random_order(m: usize) -> (order: Vec<usize>)
    ensures
        is_arrangement(order@, m as int),
        order@.len() == m,
        forall|k: int| 0 <= k < order@.len() ==> #[trigger] order@[k] < m,
{
    let mut order: Vec<usize> = Vec::new();
    let mut k: usize = 0;
    while k < m
        invariant
            k <= m,
            order@ =~= identity(k as int),
        decreases m - k,
    {
        order.push(k);
        k += 1;
    }
    let ghost sorted = order@;
    shuffle(&mut order);
    proof {
        order@.to_multiset_ensures();
        sorted.to_multiset_ensures();
        assert forall|k: int| 0 <= k < order@.len() implies #[trigger] order@[k] < m by {
            assert(order@.contains(order@[k]));
            assert(sorted.to_multiset().count(order@[k]) > 0);
            assert(sorted.contains(order@[k]));
        }
    }
    order
}

impl Word {
    /// Draws a line of the corpus at random, normalises it, and reads it as
    /// an entry: the first term is the answer, and the clue joins up to three
    /// of the other terms, picked at random. The word is unplaced: anchored
    /// at the origin and horizontal. A malformed line gives nothing.
    pub fn random_unplaced(text_file: &Vec<char>) -> (word: Option<Word>)
        ensures
            exists|i: int, order: Seq<usize>|
                0 <= i < split_spec(text_file@, '\n').len() && is_arrangement(
                    order,
                    entry_terms(text_file@, i).len() - 1,
                ) && #[trigger] sampled(word, entry_terms(text_file@, i), order),
    {
        let lines = split(text_file, '\n');
        let line = match choose_line(&lines) {
            Some(line) => line,
            None => {
                return None;
            },
        };
        let ghost i = choose|i: int| 0 <= i < lines@.len() && #[trigger] lines@[i]@ == line@;
        let lowered = lowercase(line);
        let stripped = strip(&lowered);
        let terms = split(&stripped, '|');
        let order = random_order(terms.len() - 1);
        let word = word_from_terms(&terms, &order);
        proof {
            assert(texts(lines@)[i] == lines@[i]@);
            assert(texts(terms@) == entry_terms(text_file@, i));
            assert(sampled(word, entry_terms(text_file@, i), order@));
        }
        word
    }
}

} // verus!
