use guavagrams::Grid;

fn point_table() -> Vec<(char, i64)> {
    vec![('c', 3), ('a', 1), ('b', 3)]
}

#[test]
fn a_single_word_scores_its_letters() {
    let words = vec!["cab".to_string()];
    assert_eq!(Grid::score_grid(&words, &point_table()), 7);
}

#[test]
fn a_repeated_word_pays_the_stale_penalty() {
    // the first occurrence scores 7, the second 7 * 0.8 truncated to 5
    let words = vec!["cab".to_string(), "cab".to_string()];
    assert_eq!(Grid::score_grid(&words, &point_table()), 12);
}

#[test]
fn a_thrice_repeated_word_stacks_penalties() {
    // 7, then trunc(7 * 0.8) = 5, then trunc(7 * 0.8 * 0.8 = 4.48) = 4
    let words = vec!["cab".to_string(), "cab".to_string(), "cab".to_string()];
    assert_eq!(Grid::score_grid(&words, &point_table()), 16);
}

#[test]
fn stacked_penalties_truncate_only_once() {
    // letter sum 8: 8, then trunc(6.4) = 6, then trunc(8 * 0.64 = 5.12) = 5;
    // a per-step truncation would lose a point on the third occurrence
    let table = vec![('h', 3), ('i', 5)];
    let words = vec!["hi".to_string(), "hi".to_string(), "hi".to_string()];
    assert_eq!(Grid::score_grid(&words, &table), 19);
}

#[test]
fn unknown_letters_score_zero() {
    let words = vec!["xyz".to_string()];
    assert_eq!(Grid::score_grid(&words, &point_table()), 0);
}

#[test]
fn length_tiers_scale_the_score() {
    let ones = vec![('a', 1)];
    // 3 letters: 3 * 1.0
    assert_eq!(Grid::score_grid(&vec!["aaa".to_string()], &ones), 3);
    // 4 letters: 4 * 1.5
    assert_eq!(Grid::score_grid(&vec!["aaaa".to_string()], &ones), 6);
    // 5 letters: 5 * 1.5 = 7.5 truncated
    assert_eq!(Grid::score_grid(&vec!["aaaaa".to_string()], &ones), 7);
    // 7 letters: 7 * 2.0
    assert_eq!(Grid::score_grid(&vec!["aaaaaaa".to_string()], &ones), 14);
    // 10 letters: 10 * 2.5
    assert_eq!(Grid::score_grid(&vec!["aaaaaaaaaa".to_string()], &ones), 25);
}

#[test]
fn an_empty_batch_scores_zero() {
    assert_eq!(Grid::score_grid(&Vec::new(), &point_table()), 0);
}

#[test]
fn negative_letter_values_truncate_toward_zero() {
    // -7 * 0.8 = -5.6 truncates to -5 on the repeat
    let table = vec![('c', -3), ('a', -1), ('b', -3)];
    let words = vec!["cab".to_string(), "cab".to_string()];
    assert_eq!(Grid::score_grid(&words, &table), -12);
}
