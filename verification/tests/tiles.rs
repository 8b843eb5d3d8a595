use guavagrams::Distribution;
use guavagrams::Error;

#[test]
fn pull_from_a_short_pile_fails_and_keeps_the_pile() {
    let mut pile = vec!['a', 'b'];
    assert_eq!(
        Distribution::pull_from_pile(&mut pile, 3),
        Err(Error::NoMoreTiles)
    );
    assert_eq!(pile, vec!['a', 'b']);
}

#[test]
fn pull_takes_the_first_tiles_in_order() {
    let mut pile = vec!['a', 'b', 'c', 'd'];
    assert_eq!(Distribution::pull_from_pile(&mut pile, 3), Ok(vec!['a', 'b', 'c']));
    assert_eq!(pile, vec!['d']);
    assert_eq!(Distribution::pull_from_pile(&mut pile, 1), Ok(vec!['d']));
    assert_eq!(pile, Vec::<char>::new());
    assert_eq!(Distribution::pull_from_pile(&mut pile, 0), Ok(Vec::new()));
}

#[test]
fn the_classic_pile_of_its_own_size_is_exact() {
    // the classic table's weights sum to 144, so each letter contributes
    // exactly its weight
    let pile = Distribution::Bananagrams.create_pile(144);
    assert_eq!(pile.len(), 144);
    assert_eq!(pile.iter().filter(|&&c| c == 'a').count(), 13);
    assert_eq!(pile.iter().filter(|&&c| c == 'e').count(), 18);
    assert_eq!(pile.iter().filter(|&&c| c == 'z').count(), 2);
}

#[test]
fn a_half_size_pile_stays_within_rounding_tolerance() {
    let pile = Distribution::Bananagrams.create_pile(72);
    let doubled = 2 * pile.len() as i64;
    assert!((doubled - 144).abs() <= 26, "size {} strays too far", pile.len());
    // 13 * 72 / 144 = 6.5 rounds half up
    assert_eq!(pile.iter().filter(|&&c| c == 'a').count(), 7);
}

#[test]
fn a_zero_weight_table_yields_an_empty_pile() {
    let d = Distribution::Dictionary(vec![('a', 0), ('b', 0)]);
    assert_eq!(d.create_pile(10), Vec::<char>::new());
}

#[test]
fn from_dictionary_counts_letters_sorted() {
    let vocabulary = vec!["hello".to_string(), "hi".to_string()];
    match Distribution::from_dictionary(&vocabulary) {
        Distribution::Dictionary(table) => {
            assert_eq!(
                table,
                vec![('e', 1), ('h', 2), ('i', 1), ('l', 2), ('o', 1)]
            );
        }
        other => panic!("expected a dictionary distribution, got {:?}", other),
    }
}

#[test]
fn from_dictionary_skips_whitespace() {
    let vocabulary = vec!["a b".to_string(), "\tb\n".to_string()];
    match Distribution::from_dictionary(&vocabulary) {
        Distribution::Dictionary(table) => {
            assert_eq!(table, vec![('a', 1), ('b', 2)]);
        }
        other => panic!("expected a dictionary distribution, got {:?}", other),
    }
}

#[test]
fn endless_draws_come_from_the_positive_weights() {
    let d = Distribution::Dictionary(vec![('a', 0), ('b', 1)]);
    for _ in 0..20 {
        assert_eq!(d.pull_endless(), 'b');
    }
    let single = Distribution::Dictionary(vec![('q', 5)]);
    assert_eq!(single.pull_endless(), 'q');
}
