use guavagrams::Coordinate;
use guavagrams::Error;
use guavagrams::Grid;

fn hello_hi_board() -> Grid<Option<char>> {
    let mut grid: Grid<Option<char>> = Grid::new(None);
    let word = ['h', 'e', 'l', 'l', 'o'];
    for (i, &letter) in word.iter().enumerate() {
        assert!(grid.put(Coordinate(i as i8, 0), letter));
    }
    assert!(grid.put(Coordinate(0, -1), 'i'));
    grid
}

#[test]
fn scanning_reads_hello_and_hi() {
    let grid = hello_hi_board();
    let words = grid.scan_for_words();
    assert_eq!(words, vec!["hello".to_string(), "hi".to_string()]);
}

#[test]
fn scanning_an_empty_board_finds_nothing() {
    let grid: Grid<Option<char>> = Grid::new(None);
    assert_eq!(grid.scan_for_words(), Vec::<String>::new());
}

#[test]
fn scanning_keeps_an_isolated_letter_once() {
    let mut grid: Grid<Option<char>> = Grid::new(None);
    assert!(grid.put(Coordinate(5, 5), 'x'));
    assert_eq!(grid.scan_for_words(), vec!["x".to_string()]);
}

#[test]
fn scanning_reads_a_vertical_word_downward() {
    let mut grid: Grid<Option<char>> = Grid::new(None);
    assert!(grid.put(Coordinate(0, 1), 'u'));
    assert!(grid.put(Coordinate(0, 0), 'p'));
    assert_eq!(grid.scan_for_words(), vec!["up".to_string()]);
}

#[test]
fn scanning_reads_crossing_words_in_both_passes() {
    let mut grid: Grid<Option<char>> = Grid::new(None);
    // "cat" to the right, "car" downward, sharing the 'c'
    assert!(grid.put(Coordinate(0, 0), 'c'));
    assert!(grid.put(Coordinate(1, 0), 'a'));
    assert!(grid.put(Coordinate(2, 0), 't'));
    assert!(grid.put(Coordinate(0, -1), 'a'));
    assert!(grid.put(Coordinate(0, -2), 'r'));
    assert_eq!(
        grid.scan_for_words(),
        vec!["cat".to_string(), "car".to_string()]
    );
}

#[test]
fn scanning_splits_runs_at_gaps() {
    let mut grid: Grid<Option<char>> = Grid::new(None);
    assert!(grid.put(Coordinate(0, 0), 'a'));
    assert!(grid.put(Coordinate(1, 0), 'b'));
    assert!(grid.put(Coordinate(3, 0), 'c'));
    assert!(grid.put(Coordinate(4, 0), 'd'));
    assert_eq!(
        grid.scan_for_words(),
        vec!["ab".to_string(), "cd".to_string()]
    );
}

#[test]
fn scanning_ends_a_run_at_the_board_edge() {
    let mut grid: Grid<Option<char>> = Grid::new(None);
    assert!(grid.put(Coordinate(126, 0), 'h'));
    assert!(grid.put(Coordinate(127, 0), 'i'));
    assert_eq!(grid.scan_for_words(), vec!["hi".to_string()]);
}

#[test]
fn put_refuses_an_occupied_cell() {
    let mut grid: Grid<Option<char>> = Grid::new(None);
    assert!(grid.put(Coordinate(1, 2), 'a'));
    assert!(!grid.put(Coordinate(1, 2), 'b'));
    assert_eq!(grid.pick_up(Coordinate(1, 2)), Some('a'));
    assert_eq!(grid.pick_up(Coordinate(1, 2)), None);
}

#[test]
fn connectivity_holds_for_the_hello_board() {
    let grid = hello_hi_board();
    assert_eq!(grid.validate_connectivity(), Ok(()));
}

#[test]
fn connectivity_fails_for_a_stray_letter() {
    let mut grid = hello_hi_board();
    assert!(grid.put(Coordinate(10, 10), 'z'));
    assert_eq!(grid.validate_connectivity(), Err(Error::WordsNotConnected));
}

#[test]
fn connectivity_holds_trivially_for_an_empty_board() {
    let grid: Grid<Option<char>> = Grid::new(None);
    assert_eq!(grid.validate_connectivity(), Ok(()));
}

#[test]
fn dictionary_validation_accepts_known_words() {
    let grid = hello_hi_board();
    let words = grid.scan_for_words();
    let vocabulary = vec!["hello".to_string(), "hi".to_string()];
    assert_eq!(Grid::validate_words(&words, &vocabulary), Ok(()));
}

#[test]
fn dictionary_validation_names_the_first_unknown_word() {
    let grid = hello_hi_board();
    let words = grid.scan_for_words();
    let vocabulary = vec!["hello".to_string()];
    assert_eq!(
        Grid::validate_words(&words, &vocabulary),
        Err(Error::InvalidWord("hi".to_string()))
    );
}
