use puzzlegen::wordsearch::{create_puzzle, Direction, Wordsearch};
use puzzlegen::PuzzleError;

fn word_readable_at(
    puzzle: &Wordsearch,
    word: &str,
    height: usize,
    width: usize,
    row: usize,
    col: usize,
    dr: i64,
    dc: i64,
) -> bool {
    let letters: Vec<char> = word.chars().collect();
    for (i, letter) in letters.iter().enumerate() {
        let r = row as i64 + i as i64 * dr;
        let c = col as i64 + i as i64 * dc;
        if r < 0 || c < 0 || r >= height as i64 || c >= width as i64 {
            return false;
        }
        if puzzle.letter_at(r as usize, c as usize) != *letter {
            return false;
        }
    }
    true
}

fn word_readable_somewhere(
    puzzle: &Wordsearch,
    word: &str,
    height: usize,
    width: usize,
) -> bool {
    for row in 0..height {
        for col in 0..width {
            let deltas: Vec<(i64, i64)> =
                vec![(0, 1), (0, -1), (-1, 0), (1, 0), (1, 1), (-1, -1)];
            for (dr, dc) in deltas {
                if word_readable_at(puzzle, word, height, width, row, col, dr, dc) {
                    return true;
                }
            }
        }
    }
    false
}

#[test]
fn test_wordsearch_generate() {
    let word_list = vec![
        "airspeed".to_string(),
        "velocity".to_string(),
        "unladen".to_string(),
        "swallow".to_string(),
        "iron".to_string(),
        "oxide".to_string(),
    ];
    create_puzzle(&word_list, 20, 20).unwrap();
}

#[test]
fn test_wordsearch_cells_all_lowercase() {
    let word_list = vec!["parrot".to_string(), "norwegian".to_string()];
    let puzzle = create_puzzle(&word_list, 12, 12).unwrap();
    for r in 0..12 {
        for c in 0..12 {
            let letter = puzzle.letter_at(r, c);
            assert!(letter.is_ascii_lowercase());
        }
    }
}

#[test]
fn test_single_word_traceable() {
    let puzzle = create_puzzle(&vec!["hello".to_string()], 5, 5).unwrap();
    assert!(word_readable_somewhere(&puzzle, "hello", 5, 5));
}

#[test]
fn test_last_word_traceable() {
    let words = vec!["iron".to_string(), "oxide".to_string()];
    let puzzle = create_puzzle(&words, 8, 8).unwrap();
    assert!(word_readable_somewhere(&puzzle, "oxide", 8, 8));
}

#[test]
fn test_place_word_writes_letters() {
    let mut puzzle = Wordsearch::new(5, 5);
    puzzle
        .place_word(&"cat".to_string(), 1, 0, &Direction::Right)
        .unwrap();
    assert_eq!(puzzle.letter_at(1, 0), 'c');
    assert_eq!(puzzle.letter_at(1, 1), 'a');
    assert_eq!(puzzle.letter_at(1, 2), 't');
    for r in 0..5 {
        for c in 0..5 {
            if !(r == 1 && c < 3) {
                assert_eq!(puzzle.letter_at(r, c), ' ');
            }
        }
    }
}

#[test]
fn test_place_word_down_and_diagonal() {
    let mut puzzle = Wordsearch::new(4, 4);
    puzzle
        .place_word(&"dog".to_string(), 0, 3, &Direction::Down)
        .unwrap();
    assert_eq!(puzzle.letter_at(0, 3), 'd');
    assert_eq!(puzzle.letter_at(1, 3), 'o');
    assert_eq!(puzzle.letter_at(2, 3), 'g');
    puzzle
        .place_word(&"ox".to_string(), 1, 0, &Direction::DiagDown)
        .unwrap();
    assert_eq!(puzzle.letter_at(1, 0), 'o');
    assert_eq!(puzzle.letter_at(2, 1), 'x');
}

#[test]
fn test_place_short_word_rejected() {
    let mut puzzle = Wordsearch::new(4, 4);
    assert_eq!(
        puzzle.place_word(&"a".to_string(), 0, 0, &Direction::Right),
        Err(PuzzleError::InvalidArgument)
    );
    assert_eq!(
        puzzle.place_word(&"".to_string(), 0, 0, &Direction::Right),
        Err(PuzzleError::InvalidArgument)
    );
    for r in 0..4 {
        for c in 0..4 {
            assert_eq!(puzzle.letter_at(r, c), ' ');
        }
    }
}

#[test]
fn test_generate_rejects_short_word() {
    assert!(matches!(
        create_puzzle(&vec!["a".to_string()], 5, 5),
        Err(PuzzleError::InvalidArgument)
    ));
    assert!(matches!(
        create_puzzle(&vec!["".to_string()], 5, 5),
        Err(PuzzleError::InvalidArgument)
    ));
}

#[test]
fn test_generate_rejects_oversized_word() {
    assert!(matches!(
        create_puzzle(&vec!["abcdef".to_string()], 5, 5),
        Err(PuzzleError::InvalidArgument)
    ));
}

#[test]
fn test_no_placement_found() {
    // A 1x2 grid is filled completely by the first word, so the second,
    // which shares no letters with it, has no anchor left.
    let words = vec!["ab".to_string(), "cd".to_string()];
    assert!(matches!(
        create_puzzle(&words, 2, 1),
        Err(PuzzleError::NoPlacementFound)
    ));
}

#[test]
fn test_valid_directions_corner() {
    let mut puzzle = Wordsearch::new(3, 3);
    let dirs = puzzle
        .valid_directions("abc".to_string(), 0, 0)
        .unwrap();
    assert_eq!(dirs.len(), 3);
    assert!(dirs.contains(&Direction::Right));
    assert!(dirs.contains(&Direction::Down));
    assert!(dirs.contains(&Direction::DiagDown));
}

#[test]
fn test_valid_directions_conflict() {
    let mut puzzle = Wordsearch::new(3, 3);
    puzzle
        .place_word(&"xxx".to_string(), 0, 0, &Direction::Right)
        .unwrap();
    // "abc" cannot extend right from (0, 0) any more, but can still go down.
    let dirs = puzzle.valid_directions("abc".to_string(), 0, 0);
    assert!(dirs.is_none());
    let dirs2 = puzzle
        .valid_directions("xbc".to_string(), 0, 0)
        .unwrap();
    assert!(dirs2.contains(&Direction::Down));
    assert!(!dirs2.contains(&Direction::Right));
}

#[test]
fn test_get_candidates_scans_whole_grid() {
    let puzzle = Wordsearch::new(2, 2);
    let cands = puzzle.get_candidates(&"ab".to_string()).unwrap();
    assert_eq!(
        cands,
        vec![vec![0, 0], vec![0, 1], vec![1, 0], vec![1, 1]]
    );
}

#[test]
fn test_get_candidates_matches_first_letter() {
    let mut puzzle = Wordsearch::new(2, 2);
    puzzle
        .place_word(&"ab".to_string(), 0, 0, &Direction::Right)
        .unwrap();
    puzzle
        .place_word(&"bc".to_string(), 1, 0, &Direction::Right)
        .unwrap();
    // Grid is now [a b / b c]: anchors for a word starting with 'b'.
    let cands = puzzle.get_candidates(&"bx".to_string()).unwrap();
    assert_eq!(cands, vec![vec![0, 1], vec![1, 0]]);
    // No cell is blank or holds 'z'.
    assert!(puzzle.get_candidates(&"zz".to_string()).is_none());
}
