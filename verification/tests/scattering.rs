use crossword::crossword::Crossword;
use crossword::geometry::{Orientation, Pos};
use crossword::scatter::{budget_spent, lets_isolated_in, Strategy};
use crossword::scoring::{compare, covered_index, judge, tally, Verdict};
use crossword::word::Word;

fn runes(s: &str) -> Vec<char> {
    s.chars().collect()
}

fn placed(s: &str, x: i32, y: i32, o: Orientation) -> Word {
    Word::new(runes(s), Pos { x, y }, o, runes("clue"))
}

const H: Orientation = Orientation::Horizontal;
const V: Orientation = Orientation::Vertical;

const ENTRIES: &str = "cat|feline|pet\nsun|star|day\narc|curve|bow\ntea|drink|leaf\nrat|rodent|pest\n\
ant|insect|colony\nnet|mesh|web\ntar|pitch|road\near|hearing|organ\nart|painting|craft\n\
sea|ocean|water\none|single|unit\nten|number|decade\nrose|flower|thorn\nstar|sun|night";

#[test]
fn covered_index_is_the_offset() {
    let w = placed("cat", 2, 3, H);
    assert_eq!(covered_index(&w, Pos { x: 2, y: 3 }), Some(0));
    assert_eq!(covered_index(&w, Pos { x: 4, y: 3 }), Some(2));
    assert_eq!(covered_index(&w, Pos { x: 5, y: 3 }), None);
    assert_eq!(covered_index(&w, Pos { x: 1, y: 3 }), None);
    assert_eq!(covered_index(&w, Pos { x: 3, y: 4 }), None);
    let d = placed("cat", 2, 3, V);
    assert_eq!(covered_index(&d, Pos { x: 2, y: 5 }), Some(2));
    assert_eq!(covered_index(&d, Pos { x: 3, y: 3 }), None);
}

#[test]
fn compare_counts_matches_and_clashes() {
    let cat = placed("cat", 0, 1, H);
    assert_eq!(compare(&placed("tar", 1, 0, V), &cat), (1, 0));
    assert_eq!(compare(&placed("arc", 1, 0, V), &cat), (0, 1));
    assert_eq!(compare(&placed("sun", 5, 5, V), &cat), (0, 0));
    assert_eq!(compare(&placed("cat", 0, 1, H), &cat), (3, 0));
    assert_eq!(compare(&placed("cot", 0, 1, H), &cat), (2, 1));
    assert_eq!(compare(&placed("at", 1, 1, H), &cat), (2, 0));
}

#[test]
fn tally_adds_over_all_words() {
    let words = vec![placed("cat", 0, 1, H), placed("tar", 1, 0, V), placed("ant", 0, 3, H)];
    assert_eq!(tally(&placed("cha", 0, 1, V), &words), (2, 0));
    assert_eq!(tally(&placed("cab", 0, 1, V), &words), (1, 1));
    assert_eq!(tally(&placed("sun", 9, 9, H), &words), (0, 0));
    assert_eq!(tally(&placed("sun", 9, 9, H), &Vec::new()), (0, 0));
}

#[test]
fn judge_tells_the_three_outcomes() {
    let words = vec![placed("cat", 0, 1, H)];
    assert_eq!(judge(&words, &placed("tar", 1, 0, V)), Verdict::Crossing(1));
    assert_eq!(judge(&words, &placed("sun", 5, 5, V)), Verdict::Isolated);
    assert_eq!(judge(&words, &placed("arc", 1, 0, V)), Verdict::Rejected);
    assert_eq!(judge(&words, &placed("cow", 0, 1, V)), Verdict::Rejected);
    assert_eq!(judge(&words, &placed("sun", 13, 5, H)), Verdict::Rejected);
    assert_eq!(judge(&words, &placed("", 5, 5, H)), Verdict::Rejected);
    assert_eq!(judge(&Vec::new(), &placed("sun", 5, 5, H)), Verdict::Isolated);
}

#[test]
fn accept_appends_and_scores() {
    let mut puzzle = Crossword::empty();
    assert_eq!(puzzle.accept(placed("cat", 0, 1, H), false), Verdict::Isolated);
    assert_eq!(puzzle.words.len(), 1);
    assert_eq!(puzzle.accept(placed("sun", 5, 5, V), false), Verdict::Isolated);
    assert_eq!(puzzle.words.len(), 1);
    assert_eq!(puzzle.accept(placed("arc", 1, 0, V), true), Verdict::Rejected);
    assert_eq!(puzzle.words.len(), 1);
    assert_eq!(puzzle.accept(placed("tar", 1, 0, V), false), Verdict::Crossing(1));
    assert_eq!(puzzle.words.len(), 2);
    assert_eq!(puzzle.score, 1);
    assert_eq!(puzzle.accept(placed("sun", 5, 5, V), true), Verdict::Isolated);
    assert_eq!(puzzle.words.len(), 3);
    assert_eq!(puzzle.score, 1);
    assert_eq!(puzzle.accept(placed("arm", 0, 2, H), false), Verdict::Crossing(1));
    assert_eq!(puzzle.score, 2);
    assert_eq!(puzzle.words[3].text, runes("arm"));
}

fn pairs_with_same_letter(words: &[Word]) -> i32 {
    let mut n = 0;
    for j in 0..words.len() {
        for i in 0..j {
            for k in 0..words[j].text.len() {
                let p = match words[j].orientation {
                    Orientation::Horizontal => Pos { x: words[j].pos.x + k as i32, y: words[j].pos.y },
                    Orientation::Vertical => Pos { x: words[j].pos.x, y: words[j].pos.y + k as i32 },
                };
                if let Some(m) = covered_index(&words[i], p) {
                    assert_eq!(words[i].text[m], words[j].text[k]);
                    n += 1;
                }
            }
        }
    }
    n
}

#[test]
fn scattered_puzzle_has_no_clash_and_a_true_score() {
    let corpus = runes(ENTRIES);
    let mut made = 0;
    for _ in 0..30 {
        if let Some(puzzle) = Crossword::scatter(&corpus, 6, 100_000) {
            made += 1;
            assert_eq!(puzzle.words.len(), 6);
            for (i, w) in puzzle.words.iter().enumerate() {
                assert!(w.within_bounds());
                for other in &puzzle.words[..i] {
                    assert_ne!(other.pos, w.pos);
                }
            }
            assert_eq!(puzzle.score, pairs_with_same_letter(&puzzle.words));
        }
    }
    assert!(made > 0);
}

#[test]
fn scatter_fails_without_attempts_or_with_too_many_slots() {
    let corpus = runes(ENTRIES);
    assert!(Crossword::scatter(&corpus, 6, 0).is_none());
    assert!(Crossword::scatter(&corpus, 226, 10).is_none());
    assert!(Crossword::scatter(&runes("nothing"), 3, 50).is_none());
    let none = Crossword::scatter(&corpus, 0, 0).unwrap();
    assert_eq!(none.words.len(), 0);
    assert_eq!(none.score, 0);
}

fn nine() -> Vec<Word> {
    vec![
        placed("cat", 0, 1, H),
        placed("tar", 1, 0, V),
        placed("sun", 5, 5, H),
        placed("net", 7, 5, V),
        placed("tea", 7, 7, H),
        placed("art", 9, 7, V),
        placed("one", 0, 10, H),
        placed("ear", 2, 10, V),
        placed("rose", 2, 12, H),
    ]
}

#[test]
fn restore_takes_a_sound_puzzle() {
    let puzzle = Crossword::restore(nine(), 4).unwrap();
    assert_eq!(puzzle.words, nine());
    assert_eq!(puzzle.score, 4);
}

#[test]
fn restore_turns_down_what_the_engine_would_not_make() {
    let mut short = nine();
    short.pop();
    assert!(Crossword::restore(short, 0).is_none());
    let mut long = nine();
    long.push(placed("ten", 12, 0, V));
    assert!(Crossword::restore(long, 0).is_none());
    let mut off = nine();
    off[2] = placed("sun", 13, 5, H);
    assert!(Crossword::restore(off, 0).is_none());
    let mut clash = nine();
    clash[1] = placed("arc", 1, 0, V);
    assert!(Crossword::restore(clash, 0).is_none());
    let mut twin = nine();
    twin[8] = placed("sea", 5, 5, V);
    assert!(Crossword::restore(twin, 0).is_none());
    let mut blank = nine();
    blank[8] = placed("", 12, 12, H);
    assert!(Crossword::restore(blank, 0).is_none());
}

#[test]
fn restore_accepts_what_generation_makes() {
    let corpus = runes(ENTRIES);
    for _ in 0..20 {
        if let Some(puzzle) = Crossword::new(&corpus, 2000) {
            let again = Crossword::restore(puzzle.words.clone(), puzzle.score).unwrap();
            assert_eq!(again, puzzle);
        }
    }
}

#[test]
fn build_follows_the_strategy() {
    let corpus = runes(ENTRIES);
    assert!(Crossword::build(Strategy::Scatter, &corpus, 3, 0).is_none());
    assert!(Crossword::build(Strategy::Intersect, &corpus, 3, 0).is_none());
    let mut crossed = 0;
    for _ in 0..20 {
        if let Some(puzzle) = Crossword::build(Strategy::Intersect, &corpus, 3, 2000) {
            assert_eq!(puzzle.words.len(), 3);
            assert_eq!(puzzle.score, 0);
            // every later word crosses the board
            assert!(pairs_with_same_letter(&puzzle.words) >= 2);
            crossed += 1;
        }
        if let Some(puzzle) = Crossword::build(Strategy::Scatter, &corpus, 3, 100_000) {
            assert_eq!(puzzle.words.len(), 3);
            assert_eq!(puzzle.score, pairs_with_same_letter(&puzzle.words));
        }
    }
    assert!(crossed > 0);
}

#[test]
fn scatter_always_fills_no_slot_and_a_single_slot() {
    let corpus = runes(ENTRIES);
    for _ in 0..100 {
        let one = Crossword::scatter(&corpus, 1, 1).unwrap();
        assert_eq!(one.words.len(), 1);
        assert_eq!(one.score, 0);
        assert!(one.words[0].within_bounds());
        assert_eq!(Crossword::build(Strategy::Scatter, &corpus, 1, 1).unwrap().words.len(), 1);
        assert_eq!(Crossword::build(Strategy::Intersect, &corpus, 1, 1).unwrap().words.len(), 1);
    }
    assert!(Crossword::build(Strategy::Scatter, &corpus, 0, 0).unwrap().words.is_empty());
    assert!(Crossword::build(Strategy::Intersect, &corpus, 0, 0).unwrap().words.is_empty());
    assert!(Crossword::scatter(&runes("nothing"), 0, 0).unwrap().words.is_empty());
}

#[test]
fn thresholds_of_the_scattering_build() {
    assert!(!lets_isolated_in(0));
    assert!(!lets_isolated_in(99));
    assert!(lets_isolated_in(100));
    assert!(lets_isolated_in(101));
    assert!(!budget_spent(0));
    assert!(!budget_spent(999));
    assert!(budget_spent(1000));
    assert!(budget_spent(1001));
}

#[test]
fn scatter_rejects_an_answer_too_long_for_the_grid() {
    let long = runes("abcdefghijklmnop|sixteen letters");
    assert!(Crossword::scatter(&long, 1, 50).is_none());
    assert!(Crossword::scatter(&long, 1, 5000).is_none());
    let mut puzzle = Crossword::empty();
    assert_eq!(puzzle.accept(placed("abcdefghijklmnop", 0, 0, H), true), Verdict::Rejected);
    assert!(puzzle.words.is_empty());
}

