use crossword::crossword::{fill_slot, seed_board, Board, Crossword};
use crossword::geometry::{Orientation, Pos};
use crossword::occupancy::{cell_of, OccupancyMap};
use crossword::placement::{axis, find_anchor, has_anchor, position_of};
use crossword::scanner::{is_blocked, FreeSpace};
use crossword::word::Word;

fn letters(s: &str) -> Vec<char> {
    s.chars().collect()
}

fn word(s: &str, x: i32, y: i32, o: Orientation) -> Word {
    Word::new(letters(s), Pos { x, y }, o, letters("clue"))
}

const CORPUS: &str = "cat|feline|pet\nsun|star|day\narc|curve|bow\ntea|drink|leaf\nrat|rodent|pest\n\
ant|insect|colony\nnet|mesh|web\ntar|pitch|road\near|hearing|organ\nart|painting|craft\n\
sea|ocean|water\none|single|unit\nten|number|decade\nrose|flower|thorn\nstar|sun|night\n\
tree|oak|forest\nnote|memo|music\nrain|water|cloud\nstone|rock|pebble\ntrain|rail|engine";

#[test]
fn add_is_component_wise() {
    assert_eq!(Pos { x: 1, y: 2 }.add(Pos { x: 10, y: -5 }), Pos { x: 11, y: -3 });
    assert_eq!(Pos { x: 3, y: 4 }.shifted(Orientation::Horizontal, -2), Pos { x: 1, y: 4 });
    assert_eq!(Pos { x: 3, y: 4 }.shifted(Orientation::Vertical, 5), Pos { x: 3, y: 9 });
    assert!(Pos { x: 0, y: 14 }.on_grid());
    assert!(!Pos { x: 15, y: 0 }.on_grid());
    assert!(!Pos { x: 0, y: -1 }.on_grid());
    assert_eq!(axis(Pos { x: 3, y: 4 }, Orientation::Horizontal), 3);
    assert_eq!(axis(Pos { x: 3, y: 4 }, Orientation::Vertical), 4);
}

#[test]
fn word_at_the_right_edge() {
    assert!(word("sun", 12, 0, Orientation::Horizontal).within_bounds());
    assert!(!word("sun", 13, 0, Orientation::Horizontal).within_bounds());
    assert!(word("sun", 13, 0, Orientation::Vertical).within_bounds());
    assert!(!word("sun", 0, 13, Orientation::Vertical).within_bounds());
    assert!(!word("sun", -1, 0, Orientation::Horizontal).within_bounds());
    assert!(word("abcdefghijklmno", 0, 0, Orientation::Horizontal).within_bounds());
    assert!(!word("abcdefghijklmnop", 0, 0, Orientation::Horizontal).within_bounds());
}

#[test]
fn gen_hash_projects_letters() {
    let h = word("cat", 2, 3, Orientation::Horizontal).gen_hash();
    assert_eq!(h.len(), 3);
    assert_eq!(h.get(Pos { x: 2, y: 3 }), Some('c'));
    assert_eq!(h.get(Pos { x: 3, y: 3 }), Some('a'));
    assert_eq!(h.get(Pos { x: 4, y: 3 }), Some('t'));
    assert_eq!(h.get(Pos { x: 5, y: 3 }), None);
    let v = word("arc", 1, -1, Orientation::Vertical).gen_hash();
    assert_eq!(v.get(Pos { x: 1, y: -1 }), Some('a'));
    assert_eq!(v.get(Pos { x: 1, y: 0 }), Some('r'));
    assert_eq!(v.get(Pos { x: 1, y: 1 }), Some('c'));
    assert!(!v.contains_key(Pos { x: 1, y: 2 }));
    assert_eq!(cell_of(&word("arc", 1, -1, Orientation::Vertical), 2), Pos { x: 1, y: 1 });
}

#[test]
fn insert_replaces_and_adds() {
    let mut m = OccupancyMap::new();
    assert_eq!(m.len(), 0);
    m.insert(Pos { x: 1, y: 1 }, 'a');
    m.insert(Pos { x: 2, y: 1 }, 'b');
    m.insert(Pos { x: 1, y: 1 }, 'c');
    assert_eq!(m.len(), 2);
    assert_eq!(m.get(Pos { x: 1, y: 1 }), Some('c'));
    assert_eq!(m.get(Pos { x: 2, y: 1 }), Some('b'));
}

#[test]
fn crossing_words_share_one_letter() {
    let cat = word("cat", 0, 0, Orientation::Horizontal);
    let mut map = cat.gen_hash();
    let crossing = word("tar", 1, -1, Orientation::Vertical);
    assert!(map.agrees(&crossing));
    map.merge(&crossing);
    assert_eq!(map.get(Pos { x: 1, y: 0 }), Some('a'));
    assert_eq!(map.len(), 5);
    // one cell lower, the letter that lands on (1, 0) is 'a' again
    let lower = word("arc", 1, 0, Orientation::Vertical);
    assert!(cat.gen_hash().agrees(&lower));
    let mut both = cat.gen_hash();
    both.merge(&lower);
    assert_eq!(both.get(Pos { x: 1, y: 0 }), Some('a'));
    // anchored at (1, -1), "arc" puts 'r' on the 'a' of "cat"
    let clash = word("arc", 1, -1, Orientation::Vertical);
    assert!(!cat.gen_hash().agrees(&clash));
    let mut board = Board::start(word("cat", 0, 0, Orientation::Horizontal)).unwrap();
    let free = FreeSpace::scan(&board.cells);
    assert!(board.place(&free, word("arc", 1, -1, Orientation::Vertical)));
    assert_eq!(board.words[1].pos, Pos { x: 1, y: 0 });
    assert_eq!(board.cells.get(Pos { x: 1, y: 0 }), Some('a'));
}

#[test]
fn free_runs_around_one_word() {
    let map = word("cat", 0, 0, Orientation::Horizontal).gen_hash();
    let free = FreeSpace::scan(&map);
    let h = Orientation::Horizontal;
    let v = Orientation::Vertical;
    assert_eq!(free.get(Pos { x: 0, y: 0 }, h), 0);
    assert_eq!(free.get(Pos { x: 2, y: 0 }, h), 0);
    assert_eq!(free.get(Pos { x: 3, y: 0 }, h), 12);
    assert_eq!(free.get(Pos { x: 14, y: 0 }, h), 1);
    assert_eq!(free.get(Pos { x: 0, y: 1 }, h), 0);
    assert_eq!(free.get(Pos { x: 3, y: 1 }, h), 12);
    assert_eq!(free.get(Pos { x: 0, y: 2 }, h), 15);
    assert_eq!(free.get(Pos { x: 0, y: 0 }, v), 0);
    assert_eq!(free.get(Pos { x: 0, y: 1 }, v), 14);
    assert_eq!(free.get(Pos { x: 3, y: 0 }, v), 0);
    assert_eq!(free.get(Pos { x: 3, y: 1 }, v), 14);
    assert_eq!(free.get(Pos { x: 4, y: 0 }, v), 15);
    assert_eq!(free.get(Pos { x: 4, y: 14 }, v), 1);
    assert_eq!(free.get(Pos { x: 15, y: 0 }, v), 0);
    assert_eq!(free.get(Pos { x: -1, y: 0 }, h), 0);
    assert!(is_blocked(&map, Pos { x: 1, y: 1 }, h));
    assert!(!is_blocked(&map, Pos { x: 1, y: 1 }, v));
    assert!(is_blocked(&map, Pos { x: 3, y: 0 }, v));
    assert!(!is_blocked(&map, Pos { x: 3, y: 0 }, h));
}

#[test]
fn free_runs_of_an_empty_grid() {
    let free = FreeSpace::scan(&OccupancyMap::new());
    for x in 0..15 {
        for y in 0..15 {
            assert_eq!(free.get(Pos { x, y }, Orientation::Horizontal), 15 - x);
            assert_eq!(free.get(Pos { x, y }, Orientation::Vertical), 15 - y);
        }
    }
}

#[test]
fn position_is_the_first_occurrence() {
    assert_eq!(position_of(&letters("banana"), 'a'), Some(1));
    assert_eq!(position_of(&letters("banana"), 'b'), Some(0));
    assert_eq!(position_of(&letters("banana"), 'x'), None);
    assert_eq!(position_of(&letters(""), 'x'), None);
}

#[test]
fn anchors_are_found() {
    let words = vec![word("cat", 0, 0, Orientation::Horizontal), word("arc", 1, 0, Orientation::Vertical)];
    assert!(has_anchor(&words, Pos { x: 1, y: 0 }));
    assert!(!has_anchor(&words, Pos { x: 2, y: 0 }));
}

#[test]
fn find_anchor_crosses_a_shared_letter() {
    let cat = word("cat", 0, 0, Orientation::Horizontal);
    let map = cat.gen_hash();
    let free = FreeSpace::scan(&map);
    let words = vec![cat];
    let arc = word("arc", 7, 7, Orientation::Vertical);
    assert_eq!(find_anchor(&map, &free, &words, &arc), Some(Pos { x: 1, y: 0 }));
    let tea = word("tea", 7, 7, Orientation::Vertical);
    assert_eq!(find_anchor(&map, &free, &words, &tea), Some(Pos { x: 2, y: 0 }));
}

#[test]
fn find_anchor_rejects_what_does_not_fit() {
    let cat = word("cat", 0, 0, Orientation::Horizontal);
    let map = cat.gen_hash();
    let free = FreeSpace::scan(&map);
    let words = vec![cat];
    // the only shared letter would put the anchor on that of the first word
    assert_eq!(find_anchor(&map, &free, &words, &word("cob", 0, 0, Orientation::Vertical)), None);
    // the crossing letter is not the first one, and the word would leave the grid
    assert_eq!(find_anchor(&map, &free, &words, &word("bat", 0, 0, Orientation::Vertical)), None);
    // a word along the first one abuts it
    assert_eq!(find_anchor(&map, &free, &words, &word("tea", 0, 0, Orientation::Horizontal)), None);
    // no letter in common
    assert_eq!(find_anchor(&map, &free, &words, &word("sun", 0, 0, Orientation::Vertical)), None);
    // too long for the grid
    assert_eq!(
        find_anchor(&map, &free, &words, &word("aaaaaaaaaaaaaaaa", 0, 0, Orientation::Vertical)),
        None
    );
}

#[test]
fn find_anchor_with_room_before_the_crossing() {
    let cat = word("cat", 4, 5, Orientation::Horizontal);
    let map = cat.gen_hash();
    let free = FreeSpace::scan(&map);
    let words = vec![cat];
    // 'c' is the third letter of "arc": the anchor lies two cells above
    assert_eq!(
        find_anchor(&map, &free, &words, &word("arc", 0, 0, Orientation::Vertical)),
        Some(Pos { x: 4, y: 3 })
    );
    // a crossing at the second letter is never taken
    assert_eq!(find_anchor(&map, &free, &words, &word("oat", 0, 0, Orientation::Vertical)), Some(Pos { x: 6, y: 3 }));
    assert_eq!(find_anchor(&map, &free, &words, &word("bad", 0, 0, Orientation::Vertical)), None);
}

#[test]
fn board_starts_with_a_word_on_the_grid() {
    assert!(Board::start(word("sun", 13, 0, Orientation::Horizontal)).is_none());
    assert!(Board::start(word("", 0, 0, Orientation::Horizontal)).is_none());
    let board = Board::start(word("sun", 12, 0, Orientation::Horizontal)).unwrap();
    assert_eq!(board.words.len(), 1);
    assert_eq!(board.cells.get(Pos { x: 14, y: 0 }), Some('n'));
}

#[test]
fn place_commits_only_acceptable_words() {
    let mut board = Board::start(word("cat", 0, 0, Orientation::Horizontal)).unwrap();
    let free = FreeSpace::scan(&board.cells);
    assert!(!board.place(&free, word("sun", 3, 3, Orientation::Vertical)));
    assert_eq!(board.words.len(), 1);
    assert_eq!(board.cells.len(), 3);
    assert!(board.place(&free, word("arc", 9, 9, Orientation::Vertical)));
    assert_eq!(board.words.len(), 2);
    assert_eq!(board.words[1].pos, Pos { x: 1, y: 0 });
    assert_eq!(board.words[1].orientation, Orientation::Vertical);
    assert_eq!(board.words[1].text, letters("arc"));
    assert_eq!(board.cells.len(), 5);
    assert_eq!(board.cells.get(Pos { x: 1, y: 0 }), Some('a'));
    assert_eq!(board.cells.get(Pos { x: 1, y: 2 }), Some('c'));
}

#[test]
fn move_to_sets_anchor_and_orientation() {
    let mut w = word("cat", 0, 0, Orientation::Horizontal);
    w.move_to(Pos { x: 4, y: 9 }, Orientation::Vertical);
    assert_eq!(w.pos, Pos { x: 4, y: 9 });
    assert_eq!(w.orientation, Orientation::Vertical);
    assert_eq!(w.text, letters("cat"));
    assert_eq!(w.clue, letters("clue"));
}

#[test]
fn move_random_keeps_the_word_on_the_grid() {
    let mut horizontal = false;
    let mut vertical = false;
    let mut away = false;
    for _ in 0..200 {
        let mut w = word("cat", 0, 0, Orientation::Horizontal);
        w.move_random();
        assert!(w.within_bounds());
        assert!(0 <= w.pos.x && w.pos.x < 12 && 0 <= w.pos.y && w.pos.y < 12);
        match w.orientation {
            Orientation::Horizontal => horizontal = true,
            Orientation::Vertical => vertical = true,
        }
        if w.pos != (Pos { x: 0, y: 0 }) {
            away = true;
        }
        let mut long = word("abcdefghijklmno", 3, 3, Orientation::Horizontal);
        long.move_random();
        assert_eq!(long.pos, Pos { x: 0, y: 0 });
        assert!(long.within_bounds());
    }
    assert!(horizontal && vertical && away);
}

fn step(o: Orientation, k: i32) -> (i32, i32) {
    match o {
        Orientation::Horizontal => (k, 0),
        Orientation::Vertical => (0, k),
    }
}

// every word after the first meets the earlier letters on one cell, with the
// same letter, lies beside none of them and abuts none end-on
fn check_crossings(puzzle: &Crossword) {
    let mut map = OccupancyMap::new();
    for (i, w) in puzzle.words.iter().enumerate() {
        if i > 0 {
            let n = w.text.len() as i32;
            let (bx, by) = step(w.orientation, -1);
            let (ax, ay) = step(w.orientation, n);
            assert!(!map.contains_key(Pos { x: w.pos.x + bx, y: w.pos.y + by }));
            assert!(!map.contains_key(Pos { x: w.pos.x + ax, y: w.pos.y + ay }));
            let side = match w.orientation {
                Orientation::Horizontal => Orientation::Vertical,
                Orientation::Vertical => Orientation::Horizontal,
            };
            let mut shared = 0;
            for k in 0..w.text.len() {
                let c = cell_of(w, k);
                match map.get(c) {
                    Some(letter) => {
                        assert_eq!(letter, w.text[k]);
                        shared += 1;
                    }
                    None => {
                        let (sx, sy) = step(side, 1);
                        assert!(!map.contains_key(Pos { x: c.x + sx, y: c.y + sy }));
                        assert!(!map.contains_key(Pos { x: c.x - sx, y: c.y - sy }));
                    }
                }
            }
            assert_eq!(shared, 1);
        }
        map.merge(w);
    }
}

fn check_puzzle(puzzle: &Crossword, count: usize) {
    check_crossings(puzzle);
    assert_eq!(puzzle.words.len(), count);
    assert_eq!(puzzle.score, 0);
    let mut map = OccupancyMap::new();
    for (i, w) in puzzle.words.iter().enumerate() {
        assert!(w.within_bounds());
        assert!(!w.text.is_empty());
        assert!(map.agrees(w));
        map.merge(w);
        for other in &puzzle.words[..i] {
            assert_ne!(other.pos, w.pos);
        }
        let answer: String = w.text.iter().collect();
        let clue: String = w.clue.iter().collect();
        assert!(CORPUS.lines().any(|l| l.starts_with(&format!("{}|", answer))));
        assert!(!clue.is_empty());
    }
}

#[test]
fn generated_puzzle_is_laid_out() {
    let corpus = letters(CORPUS);
    let mut made = 0;
    for _ in 0..20 {
        if let Some(puzzle) = Crossword::new(&corpus, 2000) {
            check_puzzle(&puzzle, 9);
            made += 1;
        }
    }
    assert!(made > 0);
}

#[test]
fn generate_with_other_sizes() {
    let corpus = letters(CORPUS);
    let mut made = 0;
    for _ in 0..20 {
        if let Some(puzzle) = Crossword::generate(&corpus, 6, 2000) {
            check_puzzle(&puzzle, 6);
            made += 1;
        }
        if let Some(puzzle) = Crossword::generate(&corpus, 1, 10) {
            check_puzzle(&puzzle, 1);
        }
    }
    assert!(made > 0);
}

#[test]
fn generation_fails_without_attempts() {
    let corpus = letters(CORPUS);
    assert!(Crossword::new(&corpus, 0).is_none());
    assert!(seed_board(&corpus, 0).is_none());
}

#[test]
fn generation_fails_on_a_corpus_without_entries() {
    assert!(Crossword::new(&letters("no entries here"), 50).is_none());
    // one answer cannot cross itself nine times without sharing an anchor
    assert!(Crossword::new(&letters("sun|star"), 50).is_none());
}

#[test]
fn fill_slot_adds_one_word_or_none() {
    let corpus = letters(CORPUS);
    let mut board = seed_board(&corpus, 100).unwrap();
    assert_eq!(board.words.len(), 1);
    let free = FreeSpace::scan(&board.cells);
    assert!(!fill_slot(&mut board, &free, &corpus, 0));
    assert_eq!(board.words.len(), 1);
    let placed = fill_slot(&mut board, &free, &corpus, 5000);
    assert_eq!(board.words.len(), if placed { 2 } else { 1 });
}

#[test]
fn slots_are_counted_from_one() {
    let puzzle = Crossword {
        words: vec![word("cat", 0, 0, Orientation::Horizontal), word("arc", 1, 0, Orientation::Vertical)],
        score: 0,
    };
    assert!(puzzle.slot(0).is_none());
    assert_eq!(puzzle.slot(1).unwrap().text, letters("cat"));
    assert_eq!(puzzle.slot(2).unwrap().text, letters("arc"));
    assert!(puzzle.slot(3).is_none());
    assert_eq!(puzzle.slot(2).unwrap().length(), 3);
    assert_eq!(word("", 0, 0, Orientation::Horizontal).length(), 0);
}

#[test]
fn generate_without_slots_is_empty() {
    let puzzle = Crossword::generate(&letters(CORPUS), 0, 0).unwrap();
    assert!(puzzle.words.is_empty());
    assert_eq!(puzzle.score, 0);
}

#[test]
fn first_claimed_crossing_is_taken() {
    // 't' is on the board twice; the crossing through the cell claimed first wins
    let mut board = Board::start(word("tat", 3, 3, Orientation::Horizontal)).unwrap();
    let free = FreeSpace::scan(&board.cells);
    assert!(board.place(&free, word("eat", 0, 0, Orientation::Vertical)));
    assert_eq!(board.words[1].pos, Pos { x: 3, y: 1 });
    // where the first 't' would give the anchor of "tat", the second is taken
    let mut other = Board::start(word("tat", 3, 3, Orientation::Horizontal)).unwrap();
    assert!(other.place(&free, word("toe", 0, 0, Orientation::Vertical)));
    assert_eq!(other.words[1].pos, Pos { x: 5, y: 3 });
}

#[test]
fn first_draw_seeds_the_board_when_every_line_is_usable() {
    let corpus = letters(CORPUS);
    for _ in 0..100 {
        let board = seed_board(&corpus, 1).unwrap();
        assert_eq!(board.words.len(), 1);
        assert!(board.words[0].within_bounds());
        assert_eq!(board.cells.len(), board.words[0].length());
    }
    // a line without a separator may be drawn, and then one attempt can fail
    let mixed = letters("cat|pet\nnothing");
    let mut failed = false;
    for _ in 0..200 {
        if seed_board(&mixed, 1).is_none() {
            failed = true;
        }
    }
    assert!(failed);
}

#[test]
fn single_slot_is_always_filled_from_a_usable_corpus() {
    let corpus = letters(CORPUS);
    for _ in 0..100 {
        let puzzle = Crossword::generate(&corpus, 1, 1).unwrap();
        check_puzzle(&puzzle, 1);
    }
}

#[test]
fn slot_is_filled_at_once_when_every_line_crosses_either_way() {
    let corpus = letters("tea|drink|leaf");
    let mut across = false;
    let mut down = false;
    for _ in 0..100 {
        let mut board = Board::start(word("cater", 2, 7, Orientation::Horizontal)).unwrap();
        let before = FreeSpace::scan(&board.cells);
        assert!(board.place(&before, word("arc", 0, 0, Orientation::Vertical)));
        assert_eq!(board.words[1].pos, Pos { x: 2, y: 5 });
        let free = FreeSpace::scan(&board.cells);
        assert!(fill_slot(&mut board, &free, &corpus, 1));
        assert_eq!(board.words.len(), 3);
        assert_eq!(board.words[2].text, letters("tea"));
        match board.words[2].orientation {
            Orientation::Horizontal => {
                assert_eq!(board.words[2].pos, Pos { x: 0, y: 5 });
                across = true;
            }
            Orientation::Vertical => {
                assert_eq!(board.words[2].pos, Pos { x: 4, y: 7 });
                down = true;
            }
        }
    }
    assert!(across && down);
}

#[test]
fn an_answer_too_long_for_the_grid_is_never_placed() {
    let long = letters("abcdefghijklmnop|sixteen letters");
    assert!(seed_board(&long, 50).is_none());
    assert!(Crossword::generate(&long, 1, 50).is_none());
    let mut board = Board::start(word("cap", 0, 0, Orientation::Horizontal)).unwrap();
    let free = FreeSpace::scan(&board.cells);
    assert!(!fill_slot(&mut board, &free, &long, 50));
    assert_eq!(board.words.len(), 1);
    // a word as long as the grid has one anchor
    let full = letters("abcdefghijklmno|fifteen letters");
    for _ in 0..20 {
        let seeded = seed_board(&full, 1).unwrap();
        assert_eq!(seeded.words[0].pos, Pos { x: 0, y: 0 });
        assert!(seeded.words[0].within_bounds());
    }
}

#[test]
fn move_random_leaves_a_free_cell_after_shorter_words() {
    for _ in 0..200 {
        let mut w = word("abcdefghijklmn", 5, 5, Orientation::Horizontal);
        w.move_random();
        assert_eq!(w.pos, Pos { x: 0, y: 0 });
        assert!(w.within_bounds());
        let mut v = word("abcdefghijklm", 5, 5, Orientation::Horizontal);
        v.move_random();
        assert!(0 <= v.pos.x && v.pos.x < 2 && 0 <= v.pos.y && v.pos.y < 2);
        assert!(v.within_bounds());
    }
}

