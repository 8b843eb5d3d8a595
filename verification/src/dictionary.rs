use vstd::arithmetic::div_mod::lemma_fundamental_div_mod;
use vstd::arithmetic::div_mod::lemma_fundamental_div_mod_converse;
use vstd::prelude::*;

verus! {

/// A table of letters and their non-negative frequency weights.
pub type LetterDistribution = Vec<(char, usize)>;

/// A source of tiles: a table derived from a vocabulary by counting
/// letters, or one of the classic fixed frequency tables.
#[derive(Debug, Clone)]
pub enum Distribution {
    /// The distributed rarity of tiles counted from a dictionary.
    Dictionary(LetterDistribution),
    Bananagrams,
    Scrabble,
}

/// Whether std's `char::is_whitespace` holds of the character: membership
/// in Unicode's White_Space set, a function of the character alone.
pub uninterp spec fn is_space(c: char) -> bool;

/// Relies on char::is_whitespace: whether the character has the Unicode
/// White_Space property, which depends on the character alone.
#[verifier::external_body]
fn char_is_whitespace(c: char) -> (r: bool)
    ensures
        r == is_space(c),
{
    c.is_whitespace()
}

/// How many of the characters equal `c`.
pub open spec fn count_char(sq: Seq<char>, c: char) -> int
    decreases sq.len(),
{
    if sq.len() == 0 {
        0
    } else {
        count_char(sq.drop_last(), c) + if sq.last() == c {
            1int
        } else {
            0int
        }
    }
}

/// Whether the table has an entry for `c`.
pub open spec fn in_table(ld: Seq<(char, usize)>, c: char) -> bool {
    exists|i: int| 0 <= i < ld.len() && (#[trigger] ld[i]).0 == c
}

/// The table that counts a stream of characters: entries strictly ascending
/// by letter, one entry per occurring letter, holding its exact count.
pub open spec fn distribution_of(ld: Seq<(char, usize)>, seen: Seq<char>) -> bool {
    &&& (forall|i: int, j: int|
        0 <= i < j < ld.len() ==> (#[trigger] ld[i]).0 < (#[trigger] ld[j]).0)
    &&& (forall|i: int|
        0 <= i < ld.len() ==> (#[trigger] ld[i]).1 as int == count_char(seen, ld[i].0) && ld[i].1
            > 0)
    &&& (forall|c: char| #[trigger] count_char(seen, c) > 0 ==> in_table(ld, c))
}

/// The characters of one word that count toward the distribution: all of
/// them but whitespace, in order.
pub open spec fn word_letters(w: Seq<char>) -> Seq<char>
    decreases w.len(),
{
    if w.len() == 0 {
        Seq::empty()
    } else {
        word_letters(w.drop_last()) + if is_space(w.last()) {
            Seq::<char>::empty()
        } else {
            seq![w.last()]
        }
    }
}

/// The counted characters of a whole vocabulary, word by word.
pub open spec fn vocabulary_letters(ws: Seq<Seq<char>>) -> Seq<char>
    decreases ws.len(),
{
    if ws.len() == 0 {
        Seq::empty()
    } else {
        vocabulary_letters(ws.drop_last()) + word_letters(ws.last())
    }
}

/// The sum of the table's weights.
pub open spec fn total_weight(ld: Seq<(char, usize)>) -> int
    decreases ld.len(),
{
    if ld.len() == 0 {
        0
    } else {
        total_weight(ld.drop_last()) + ld.last().1 as int
    }
}

/// The sum of a plain weight list.
pub open spec fn sum_weights(ws: Seq<usize>) -> int
    decreases ws.len(),
{
    if ws.len() == 0 {
        0
    } else {
        sum_weights(ws.drop_last()) + ws.last() as int
    }
}

/// How many copies of a letter a pile gets: its weight's share of the
/// requested amount, rounded half up; a degenerate zero total yields none.
pub open spec fn copies_of(freq: int, amount: int, total: int) -> int {
    if total <= 0 {
        0
    } else {
        (2 * freq * amount + total) / (2 * total)
    }
}

/// `n` copies of one character.
pub open spec fn repeat_char(c: char, n: int) -> Seq<char> {
    Seq::new(
        if n >= 0 {
            n as nat
        } else {
            0nat
        },
        |i: int| c,
    )
}

/// The pile a table yields for a requested amount: for each entry in table
/// order, its rounded share of copies.
pub open spec fn pile_of(ld: Seq<(char, usize)>, amount: int, total: int) -> Seq<char>
    decreases ld.len(),
{
    if ld.len() == 0 {
        Seq::empty()
    } else {
        pile_of(ld.drop_last(), amount, total) + repeat_char(
            ld.last().0,
            copies_of(ld.last().1 as int, amount, total),
        )
    }
}

/// The classic tile frequency table.
pub open spec fn bananagrams_table() -> Seq<(char, usize)> {
    seq![
        ('a', 13usize),
        ('b', 3usize),
        ('c', 3usize),
        ('d', 6usize),
        ('e', 18usize),
        ('f', 3usize),
        ('g', 4usize),
        ('h', 3usize),
        ('i', 12usize),
        ('j', 2usize),
        ('k', 2usize),
        ('l', 5usize),
        ('m', 3usize),
        ('n', 8usize),
        ('o', 11usize),
        ('p', 3usize),
        ('q', 2usize),
        ('r', 9usize),
        ('s', 6usize),
        ('t', 9usize),
        ('u', 6usize),
        ('v', 3usize),
        ('w', 3usize),
        ('x', 2usize),
        ('y', 3usize),
        ('z', 2usize),
    ]
}

/// The classic tile frequency table, as a value.
pub fn bananagrams() -> (r: LetterDistribution)
    ensures
        r@ == bananagrams_table(),
{
    let r: Vec<(char, usize)> = vec![
        ('a', 13),
        ('b', 3),
        ('c', 3),
        ('d', 6),
        ('e', 18),
        ('f', 3),
        ('g', 4),
        ('h', 3),
        ('i', 12),
        ('j', 2),
        ('k', 2),
        ('l', 5),
        ('m', 3),
        ('n', 8),
        ('o', 11),
        ('p', 3),
        ('q', 2),
        ('r', 9),
        ('s', 6),
        ('t', 9),
        ('u', 6),
        ('v', 3),
        ('w', 3),
        ('x', 2),
        ('y', 3),
        ('z', 2),
    ];
    proof {
        assert(r@ =~= bananagrams_table());
    }
    r
}

proof fn lemma_count_le_len(sq: Seq<char>, c: char)
    ensures
        0 <= count_char(sq, c) <= sq.len(),
    decreases sq.len(),
{
    if sq.len() > 0 {
        lemma_count_le_len(sq.drop_last(), c);
    }
}

/// Every weight is at most the sum, and the sum is non-negative.
proof fn lemma_entry_le_total(ld: Seq<(char, usize)>, i: int)
    requires
        0 <= i < ld.len(),
    ensures
        ld[i].1 as int <= total_weight(ld),
        total_weight(ld) >= 0,
    decreases ld.len(),
{
    lemma_total_nonneg(ld.drop_last());
    if i < ld.len() - 1 {
        lemma_entry_le_total(ld.drop_last(), i);
        assert(ld.drop_last()[i] == ld[i]);
    }
}

proof fn lemma_total_nonneg(ld: Seq<(char, usize)>)
    ensures
        total_weight(ld) >= 0,
    decreases ld.len(),
{
    if ld.len() > 0 {
        lemma_total_nonneg(ld.drop_last());
    }
}

proof fn lemma_sum_equal(ld: Seq<(char, usize)>, ws: Seq<usize>)
    requires
        ld.len() == ws.len(),
        forall|i: int| 0 <= i < ld.len() ==> (#[trigger] ld[i]).1 == ws[i],
    ensures
        total_weight(ld) == sum_weights(ws),
    decreases ld.len(),
{
    if ld.len() > 0 {
        assert(forall|i: int|
            0 <= i < ld.len() - 1 ==> (#[trigger] ld.drop_last()[i]).1 == ws.drop_last()[i]);
        lemma_sum_equal(ld.drop_last(), ws.drop_last());
    }
}

/// The technical heart of the uniqueness law: two strictly sorted tables
/// whose entries all lie above `lo`, hold the exact counts of `seen`, and
/// among them every character above `lo` that occurs in `seen`, are equal.
proof fn lemma_table_unique_above(
    ld1: Seq<(char, usize)>,
    ld2: Seq<(char, usize)>,
    seen: Seq<char>,
    lo: int,
)
    requires
        forall|i: int, j: int|
            0 <= i < j < ld1.len() ==> (#[trigger] ld1[i]).0 < (#[trigger] ld1[j]).0,
        forall|i: int, j: int|
            0 <= i < j < ld2.len() ==> (#[trigger] ld2[i]).0 < (#[trigger] ld2[j]).0,
        forall|i: int|
            0 <= i < ld1.len() ==> (#[trigger] ld1[i]).1 as int == count_char(seen, ld1[i].0)
                && ld1[i].1 > 0 && ld1[i].0 as int > lo,
        forall|i: int|
            0 <= i < ld2.len() ==> (#[trigger] ld2[i]).1 as int == count_char(seen, ld2[i].0)
                && ld2[i].1 > 0 && ld2[i].0 as int > lo,
        forall|c: char|
            #[trigger] count_char(seen, c) > 0 && c as int > lo ==> in_table(ld1, c) && in_table(
                ld2,
                c,
            ),
    ensures
        ld1 =~= ld2,
    decreases ld1.len(),
{
    if ld1.len() == 0 {
        if ld2.len() > 0 {
            assert(count_char(seen, ld2[0].0) > 0 && ld2[0].0 as int > lo);
            assert(in_table(ld1, ld2[0].0));
            assert(false);
        }
    } else if ld2.len() == 0 {
        assert(count_char(seen, ld1[0].0) > 0 && ld1[0].0 as int > lo);
        assert(in_table(ld2, ld1[0].0));
        assert(false);
    } else {
        // both heads are the least counted character above `lo`, so they agree
        let c1 = ld1[0].0;
        let c2 = ld2[0].0;
        assert(in_table(ld2, c1));
        let i2 = choose|i: int| 0 <= i < ld2.len() && (#[trigger] ld2[i]).0 == c1;
        assert(c2 <= ld2[i2].0);
        assert(in_table(ld1, c2));
        let i1 = choose|i: int| 0 <= i < ld1.len() && (#[trigger] ld1[i]).0 == c2;
        assert(c1 <= ld1[i1].0);
        assert(c1 == c2);
        assert(ld1[0].1 == ld2[0].1);
        let t1 = ld1.drop_first();
        let t2 = ld2.drop_first();
        assert forall|c: char|
            #[trigger] count_char(seen, c) > 0 && c as int > c1 as int implies in_table(t1, c)
            && in_table(t2, c) by {
            let j1 = choose|i: int| 0 <= i < ld1.len() && (#[trigger] ld1[i]).0 == c;
            assert(j1 != 0);
            assert(t1[j1 - 1] == ld1[j1]);
            let j2 = choose|i: int| 0 <= i < ld2.len() && (#[trigger] ld2[i]).0 == c;
            assert(j2 != 0);
            assert(t2[j2 - 1] == ld2[j2]);
        }
        assert(forall|i: int| 0 <= i < t1.len() ==> #[trigger] t1[i] == ld1[i + 1]);
        assert(forall|i: int| 0 <= i < t2.len() ==> #[trigger] t2[i] == ld2[i + 1]);
        lemma_table_unique_above(t1, t2, seen, c1 as int);
        assert(ld1 =~= ld2);
    }
}

/// The count table of a stream of characters is unique: any two tables that
/// both count the same stream are equal.
pub proof fn lemma_distribution_unique(
    ld1: Seq<(char, usize)>,
    ld2: Seq<(char, usize)>,
    seen: Seq<char>,
)
    requires
        distribution_of(ld1, seen),
        distribution_of(ld2, seen),
    ensures
        ld1 == ld2,
{
    assert forall|i: int| 0 <= i < ld1.len() implies (#[trigger] ld1[i]).0 as int > -1 by {
        lemma_char_nonneg(ld1[i].0);
    }
    assert forall|i: int| 0 <= i < ld2.len() implies (#[trigger] ld2[i]).0 as int > -1 by {
        lemma_char_nonneg(ld2[i].0);
    }
    lemma_table_unique_above(ld1, ld2, seen, -1);
}

/// A character's code point is never negative.
proof fn lemma_char_nonneg(c: char)
    ensures
        c as int >= 0,
{
}

/// Records one more character in a count table, keeping it sorted.
fn add_letter(ld: &mut Vec<(char, usize)>, c: char, Ghost(seen): Ghost<Seq<char>>)
    requires
        distribution_of(old(ld)@, seen),
        count_char(seen, c) < usize::MAX,
    ensures
        distribution_of(final(ld)@, seen.push(c)),
{
    proof {
        assert(seen.push(c).drop_last() =~= seen);
        assert(seen.push(c).last() == c);
        assert forall|d: char| #[trigger]
            count_char(seen.push(c), d) == count_char(seen, d) + (if d == c {
                1int
            } else {
                0int
            }) by {
            assert(seen.push(c).drop_last() =~= seen);
        }
    }
    let mut idx: usize = 0;
    while idx < ld.len() && ld[idx].0 < c
        invariant
            idx <= ld@.len(),
            forall|k: int| 0 <= k < idx ==> (#[trigger] ld@[k]).0 < c,
            ld@ == old(ld)@,
        decreases ld@.len() - idx,
    {
        idx = idx + 1;
    }
    if idx < ld.len() && ld[idx].0 == c {
        let e: (char, usize) = ld[idx];
        proof {
            assert(e.1 as int == count_char(seen, c));
        }
        ld.set(idx, (e.0, e.1 + 1));
        proof {
            assert forall|i: int, j: int|
                0 <= i < j < ld@.len() implies (#[trigger] ld@[i]).0 < (#[trigger] ld@[j]).0 by {
                assert(old(ld)@[i].0 < old(ld)@[j].0);
            }
            assert forall|i: int|
                0 <= i < ld@.len() implies (#[trigger] ld@[i]).1 as int == count_char(
                seen.push(c),
                ld@[i].0,
            ) && ld@[i].1 > 0 by {
                if i != idx {
                    assert(ld@[i] == old(ld)@[i]);
                    if i < idx {
                        assert(old(ld)@[i].0 < c);
                    } else {
                        assert(old(ld)@[idx as int].0 < old(ld)@[i].0);
                    }
                    assert(ld@[i].0 != c);
                }
            }
            assert forall|d: char| #[trigger]
                count_char(seen.push(c), d) > 0 implies in_table(ld@, d) by {
                if d == c {
                    assert(ld@[idx as int].0 == c);
                } else {
                    assert(count_char(seen, d) > 0);
                    let k = choose|k: int| 0 <= k < old(ld)@.len() && (#[trigger] old(
                        ld,
                    )@[k]).0 == d;
                    assert(ld@[k].0 == d);
                }
            }
        }
    } else {
        proof {
            // the letter is new: no entry holds it, so its count so far is zero
            assert forall|k: int| 0 <= k < ld@.len() implies (#[trigger] ld@[k]).0 != c by {
                if k >= idx {
                    if idx < ld@.len() {
                        assert(!(ld@[idx as int].0 < c));
                        if k > idx {
                            assert(ld@[idx as int].0 < ld@[k].0);
                        }
                    }
                }
            }
            if count_char(seen, c) > 0 {
                let k = choose|k: int| 0 <= k < ld@.len() && (#[trigger] ld@[k]).0 == c;
                assert(false);
            }
            lemma_count_le_len(seen, c);
        }
        ld.insert(idx, (c, 1));
        proof {
            let new = ld@;
            let oldv = old(ld)@;
            assert(new.len() == oldv.len() + 1);
            assert forall|k: int| 0 <= k < new.len() implies new[k] == (if k < idx {
                oldv[k]
            } else if k == idx {
                (c, 1usize)
            } else {
                oldv[k - 1]
            }) by {}
            assert forall|i: int, j: int|
                0 <= i < j < new.len() implies (#[trigger] new[i]).0 < (#[trigger] new[j]).0 by {
                if i < idx && j < idx {
                    assert(oldv[i].0 < oldv[j].0);
                } else if i < idx && j == idx {
                    assert(oldv[i].0 < c);
                } else if i < idx && j > idx {
                    assert(oldv[i].0 < c);
                    assert(!(oldv[idx as int].0 < c));
                    if j - 1 > idx {
                        assert(oldv[idx as int].0 < oldv[j - 1].0);
                    }
                    assert(oldv[j - 1].0 != c);
                    assert(c < oldv[j - 1].0);
                } else if i == idx {
                    assert(!(oldv[idx as int].0 < c));
                    assert(oldv[j - 1].0 != c);
                    if j - 1 > idx {
                        assert(oldv[idx as int].0 < oldv[j - 1].0);
                    }
                    assert(c < oldv[j - 1].0);
                } else {
                    assert(oldv[i - 1].0 < oldv[j - 1].0);
                }
            }
            assert forall|i: int|
                0 <= i < new.len() implies (#[trigger] new[i]).1 as int == count_char(
                seen.push(c),
                new[i].0,
            ) && new[i].1 > 0 by {
                if i < idx {
                    assert(new[i] == oldv[i]);
                    assert(oldv[i].0 != c);
                } else if i == idx {
                    assert(count_char(seen, c) == 0);
                } else {
                    assert(new[i] == oldv[i - 1]);
                    assert(oldv[i - 1].0 != c);
                }
            }
            assert forall|d: char| #[trigger]
                count_char(seen.push(c), d) > 0 implies in_table(new, d) by {
                if d == c {
                    assert(new[idx as int].0 == c);
                } else {
                    assert(count_char(seen, d) > 0);
                    let k = choose|k: int| 0 <= k < oldv.len() && (#[trigger] oldv[k]).0 == d;
                    if k < idx {
                        assert(new[k].0 == d);
                    } else {
                        assert(new[k + 1].0 == d);
                    }
                }
            }
        }
    }
}

/// Builds the sorted count table of a stream of characters.
pub(crate) fn count_table(chars: &Vec<char>) -> (ld: LetterDistribution)
    ensures
        distribution_of(ld@, chars@),
{
    let mut ld: Vec<(char, usize)> = Vec::new();
    let mut k: usize = 0;
    proof {
        assert(chars@.take(0) =~= Seq::<char>::empty());
    }
    while k < chars.len()
        invariant
            k <= chars@.len(),
            distribution_of(ld@, chars@.take(k as int)),
        decreases chars@.len() - k,
    {
        proof {
            lemma_count_le_len(chars@.take(k as int), chars@[k as int]);
        }
        add_letter(&mut ld, chars[k], Ghost(chars@.take(k as int)));
        proof {
            assert(chars@.take(k as int).push(chars@[k as int]) =~= chars@.take(k as int + 1));
        }
        k = k + 1;
    }
    proof {
        assert(chars@.take(chars@.len() as int) =~= chars@);
    }
    ld
}

/// Relies on rand's WeightedIndex::new and its Distribution::sample: with a
/// nonempty weight list whose sum is positive and fits the weight type, it
/// draws an index of the list, and an index with weight zero is never
/// drawn.
#[verifier::external_body]
fn sample_weighted(weights: &Vec<usize>) -> (i: usize)
    requires
        weights@.len() > 0,
        sum_weights(weights@) <= usize::MAX,
        exists|k: int| 0 <= k < weights@.len() && weights@[k] > 0,
    ensures
        i < weights@.len(),
        weights@[i as int] > 0,
{
    let dist = rand::distr::weighted::WeightedIndex::new(weights.iter().copied()).unwrap();
    rand::distr::Distribution::sample(&dist, &mut rand::rng())
}

impl Distribution {
    /// Builds the `Dictionary` distribution that counts every
    /// non-whitespace character across the vocabulary.
    pub fn from_dictionary(dictionary: &Vec<String>) -> (d: Self)
        ensures
            d is Dictionary,
            distribution_of(d->Dictionary_0@, vocabulary_letters(dictionary.deep_view())),
    {
        let ghost ws: Seq<Seq<char>> = dictionary.deep_view();
        let mut characters: Vec<char> = Vec::new();
        let mut i: usize = 0;
        proof {
            assert(vocabulary_letters(ws.take(0)) =~= Seq::<char>::empty());
            assert(ws.take(0) =~= Seq::<Seq<char>>::empty());
        }
        while i < dictionary.len()
            invariant
                ws == dictionary.deep_view(),
                i <= ws.len(),
                characters@ == vocabulary_letters(ws.take(i as int)),
            decreases ws.len() - i,
        {
            let word: &str = dictionary[i].as_str();
            let n: usize = word.unicode_len();
            proof {
                assert(word@ == ws[i as int]);
                assert(word_letters(ws[i as int].take(0)) =~= Seq::<char>::empty());
                assert(ws[i as int].take(0) =~= Seq::<char>::empty());
            }
            let mut p: usize = 0;
            while p < n
                invariant
                    ws == dictionary.deep_view(),
                    i < ws.len(),
                    word@ == ws[i as int],
                    n == word@.len(),
                    p <= n,
                    characters@ == vocabulary_letters(ws.take(i as int)) + word_letters(
                        ws[i as int].take(p as int),
                    ),
                decreases n - p,
            {
                let c: char = word.get_char(p);
                proof {
                    assert(ws[i as int].take(p as int + 1).drop_last() =~= ws[i as int].take(
                        p as int,
                    ));
                    assert(ws[i as int].take(p as int + 1).last() == c);
                }
                if !char_is_whitespace(c) {
                    characters.push(c);
                }
                p = p + 1;
            }
            proof {
                assert(ws[i as int].take(n as int) =~= ws[i as int]);
                assert(ws.take(i as int + 1).drop_last() =~= ws.take(i as int));
                assert(ws.take(i as int + 1).last() == ws[i as int]);
            }
            i = i + 1;
        }
        proof {
            assert(ws.take(ws.len() as int) =~= ws);
        }
        let ld: LetterDistribution = count_table(&characters);
        Distribution::Dictionary(ld)
    }

    /// Builds a pile of roughly `amount` tiles, each letter contributing
    /// its weight's rounded share.
    fn create_pile_internals(letter_distribution: &LetterDistribution, amount: usize) -> (r: Vec<
        char,
    >)
        ensures
            r@ == pile_of(
                letter_distribution@,
                amount as int,
                total_weight(letter_distribution@),
            ),
    {
        let ld: &Vec<(char, usize)> = letter_distribution;
        let ghost t: int = total_weight(ld@);
        let mut total: u128 = 0;
        let mut i: usize = 0;
        proof {
            assert(ld@.take(0) =~= Seq::<(char, usize)>::empty());
            lemma_total_bound(ld@, 0);
        }
        while i < ld.len()
            invariant
                i <= ld@.len(),
                total as int == total_weight(ld@.take(i as int)),
            decreases ld@.len() - i,
        {
            proof {
                assert(ld@.take(i as int + 1).drop_last() =~= ld@.take(i as int));
                assert(ld@.take(i as int + 1).last() == ld@[i as int]);
                lemma_total_bound(ld@, i as int + 1);
                lemma_total_nonneg(ld@.take(i as int));
                assert(usize::MAX as int <= 0xffff_ffff_ffff_ffff);
                assert((i as int + 1) * 0xffff_ffff_ffff_ffff
                    < 0x1_0000_0000_0000_0000_0000_0000_0000_0000) by (nonlinear_arith)
                    requires
                        0 <= i as int + 1 <= 0x1_0000_0000_0000_0000,
                ;
            }
            total = total + (ld[i].1 as u128);
            i = i + 1;
        }
        proof {
            assert(ld@.take(ld@.len() as int) =~= ld@);
        }
        let mut output: Vec<char> = Vec::new();
        let mut k: usize = 0;
        proof {
            assert(output@ =~= pile_of(ld@.take(0), amount as int, t));
            assert(ld@.take(0) =~= Seq::<(char, usize)>::empty());
        }
        while k < ld.len()
            invariant
                k <= ld@.len(),
                total as int == t,
                t == total_weight(ld@),
                output@ == pile_of(ld@.take(k as int), amount as int, t),
            decreases ld@.len() - k,
        {
            let (tile, frequency): (char, usize) = ld[k];
            let copies: usize = if total == 0 {
                proof {
                    assert(copies_of(frequency as int, amount as int, t) == 0);
                }
                0
            } else {
                proof {
                    assert(usize::MAX as int <= 0xffff_ffff_ffff_ffff);
                    assert((frequency as int) * (amount as int)
                        < 0x1_0000_0000_0000_0000_0000_0000_0000_0000) by (nonlinear_arith)
                        requires
                            0 <= frequency as int <= 0xffff_ffff_ffff_ffff,
                            0 <= amount as int <= 0xffff_ffff_ffff_ffff,
                    ;
                }
                let fa: u128 = (frequency as u128) * (amount as u128);
                let q0: u128 = fa / total;
                let rem: u128 = fa % total;
                proof {
                    lemma_copies_round(fa as int, q0 as int, rem as int, t);
                    assert(2 * (frequency as int) * (amount as int) == 2 * (fa as int))
                        by (nonlinear_arith)
                        requires
                            fa as int == (frequency as int) * (amount as int),
                    ;
                    assert(copies_of(frequency as int, amount as int, t) == q0 as int + (if 2 * (
                    rem as int) >= t {
                        1int
                    } else {
                        0int
                    }));
                    assert(ld@[k as int].1 == frequency);
                    lemma_entry_le_total2(ld@, k as int, amount as int);
                    assert(copies_of(frequency as int, amount as int, t) <= amount as int);
                }
                if rem >= total - rem {
                    proof {
                        assert(2 * (rem as int) >= t);
                    }
                    (q0 + 1) as usize
                } else {
                    proof {
                        assert(2 * (rem as int) < t);
                    }
                    q0 as usize
                }
            };
            proof {
                assert(copies as int == copies_of(frequency as int, amount as int, t));
            }
            let mut j: usize = 0;
            let ghost before: Seq<char> = output@;
            while j < copies
                invariant
                    j <= copies,
                    output@ == before + repeat_char(tile, j as int),
                decreases copies - j,
            {
                output.push(tile);
                proof {
                    assert(before + repeat_char(tile, j as int + 1) =~= (before + repeat_char(
                        tile,
                        j as int,
                    )).push(tile));
                }
                j = j + 1;
            }
            proof {
                assert(ld@.take(k as int + 1).drop_last() =~= ld@.take(k as int));
                assert(ld@.take(k as int + 1).last() == ld@[k as int]);
                assert(repeat_char(tile, copies as int) =~= repeat_char(
                    ld@[k as int].0,
                    copies_of(ld@[k as int].1 as int, amount as int, t),
                ));
            }
            k = k + 1;
        }
        proof {
            assert(ld@.take(ld@.len() as int) =~= ld@);
        }
        output
    }

    /// Builds a pile of roughly `amount` tiles from this distribution.
    /// The Scrabble table is not yet available.
    pub fn create_pile(&self, amount: usize) -> (r: Vec<char>)
        requires
            !(self is Scrabble),
        ensures
            self is Dictionary ==> r@ == pile_of(
                self->Dictionary_0@,
                amount as int,
                total_weight(self->Dictionary_0@),
            ),
            self is Bananagrams ==> r@ == pile_of(
                bananagrams_table(),
                amount as int,
                total_weight(bananagrams_table()),
            ),
    {
        match self {
            Distribution::Dictionary(letter_distribution) => {
                Self::create_pile_internals(letter_distribution, amount)
            },
            Distribution::Bananagrams => {
                let table: LetterDistribution = bananagrams();
                Self::create_pile_internals(&table, amount)
            },
            Distribution::Scrabble => {
                proof {
                    assert(false);
                }
                Vec::new()
            },
        }
    }

    /// Removes and returns the first `amount` tiles of the pile; a pile
    /// with fewer tiles is left untouched and the draw fails.
    pub fn pull_from_pile(pile: &mut Vec<char>, amount: usize) -> (r: Result<
        Vec<char>,
        crate::Error,
    >)
        ensures
            old(pile)@.len() < amount ==> r is Err && r->Err_0 == crate::Error::NoMoreTiles
                && final(pile)@ == old(pile)@,
            old(pile)@.len() >= amount ==> r is Ok && r->Ok_0@ == old(pile)@.take(amount as int)
                && final(pile)@ == old(pile)@.skip(amount as int),
    {
        if pile.len() < amount {
            return Err(crate::Error::NoMoreTiles);
        }
        let mut drawn: Vec<char> = Vec::new();
        let mut k: usize = 0;
        while k < amount
            invariant
                k <= amount <= pile@.len(),
                pile@ == old(pile)@,
                drawn@ == old(pile)@.take(k as int),
            decreases amount - k,
        {
            drawn.push(pile[k]);
            proof {
                assert(old(pile)@.take(k as int).push(old(pile)@[k as int]) =~= old(
                    pile,
                )@.take(k as int + 1));
            }
            k = k + 1;
        }
        let mut k2: usize = 0;
        while k2 < amount
            invariant
                k2 <= amount,
                amount <= old(pile)@.len(),
                pile@ == old(pile)@.skip(k2 as int),
            decreases amount - k2,
        {
            proof {
                assert(old(pile)@.skip(k2 as int).remove(0) =~= old(pile)@.skip(k2 as int + 1));
            }
            pile.remove(0);
            k2 = k2 + 1;
        }
        Ok(drawn)
    }

    /// Draws one letter by weighted random sampling, without depleting any
    /// pool. Only a dictionary-derived distribution with at least one
    /// positive weight, whose total fits the machine word, can be sampled;
    /// the other tables are not yet available.
    pub fn pull_endless(&self) -> (r: char)
        requires
            self is Dictionary,
            self->Dictionary_0@.len() > 0,
            exists|k: int| 0 <= k < self->Dictionary_0@.len() && (#[trigger] self
                ->Dictionary_0@[k]).1 > 0,
            total_weight(self->Dictionary_0@) <= usize::MAX,
        ensures
            exists|k: int| 0 <= k < self->Dictionary_0@.len() && (#[trigger] self
                ->Dictionary_0@[k]).1 > 0 && r == self->Dictionary_0@[k].0,
    {
        match self {
            Distribution::Dictionary(letter_distribution) => {
                let mut weights: Vec<usize> = Vec::new();
                let mut i: usize = 0;
                while i < letter_distribution.len()
                    invariant
                        i <= letter_distribution@.len(),
                        weights@.len() == i,
                        forall|k: int|
                            0 <= k < i ==> weights@[k] == (#[trigger] letter_distribution@[k]).1,
                    decreases letter_distribution@.len() - i,
                {
                    weights.push(letter_distribution[i].1);
                    i = i + 1;
                }
                proof {
                    lemma_sum_equal(letter_distribution@, weights@);
                }
                let chosen: usize = sample_weighted(&weights);
                letter_distribution[chosen].0
            },
            Distribution::Bananagrams => {
                proof {
                    assert(false);
                }
                'a'
            },
            Distribution::Scrabble => {
                proof {
                    assert(false);
                }
                'a'
            },
        }
    }
}

/// The running total over a prefix never exceeds what a 128-bit sum holds.
proof fn lemma_total_bound(ld: Seq<(char, usize)>, n: int)
    requires
        0 <= n <= ld.len(),
    ensures
        0 <= total_weight(ld.take(n)) <= n * 0xffff_ffff_ffff_ffff,
    decreases n,
{
    if n == 0 {
        assert(ld.take(0) =~= Seq::<(char, usize)>::empty());
    } else {
        lemma_total_bound(ld, n - 1);
        assert(ld.take(n).drop_last() =~= ld.take(n - 1));
        assert(ld.take(n).last().1 as int <= 0xffff_ffff_ffff_ffff);
        assert((n - 1) * 0xffff_ffff_ffff_ffff + 0xffff_ffff_ffff_ffff == n
            * 0xffff_ffff_ffff_ffff) by (nonlinear_arith);
    }
}

/// Rounding half up is one integer division on the doubled values.
proof fn lemma_copies_round(fa: int, q0: int, rem: int, t: int)
    requires
        t > 0,
        q0 == fa / t,
        rem == fa % t,
        fa >= 0,
    ensures
        (2 * fa + t) / (2 * t) == q0 + (if 2 * rem >= t {
            1int
        } else {
            0int
        }),
{
    lemma_fundamental_div_mod(fa, t);
    assert(fa == t * q0 + rem);
    if 2 * rem >= t {
        assert(2 * fa + t == (q0 + 1) * (2 * t) + (2 * rem - t)) by (nonlinear_arith)
            requires
                fa == t * q0 + rem,
        ;
        lemma_fundamental_div_mod_converse(2 * fa + t, 2 * t, q0 + 1, 2 * rem - t);
    } else {
        assert(2 * fa + t == q0 * (2 * t) + (2 * rem + t)) by (nonlinear_arith)
            requires
                fa == t * q0 + rem,
        ;
        lemma_fundamental_div_mod_converse(2 * fa + t, 2 * t, q0, 2 * rem + t);
    }
}

/// Each entry's worth of the pile stays within half a tile of its exact
/// share, so twice the pile length stays within one tile per entry of twice
/// the amount, scaled by the total weight.
proof fn lemma_pile_len(ld: Seq<(char, usize)>, a: int, t: int)
    requires
        t > 0,
        a >= 0,
    ensures
        2 * a * total_weight(ld) - ld.len() * t + ld.len() <= 2 * t * (pile_of(
            ld,
            a,
            t,
        ).len() as int) <= 2 * a * total_weight(ld) + ld.len() * t,
    decreases ld.len(),
{
    if ld.len() == 0 {
    } else {
        lemma_pile_len(ld.drop_last(), a, t);
        let rest = ld.drop_last();
        let f = ld.last().1 as int;
        let c = copies_of(f, a, t);
        let x = 2 * f * a + t;
        assert(x >= 0) by (nonlinear_arith)
            requires
                x == 2 * f * a + t,
                f >= 0,
                a >= 0,
                t > 0,
        ;
        lemma_fundamental_div_mod(x, 2 * t);
        vstd::arithmetic::div_mod::lemma_mod_bound(x, 2 * t);
        assert(x == (2 * t) * c + x % (2 * t));
        assert(2 * t * c <= 2 * f * a + t) by (nonlinear_arith)
            requires
                x == (2 * t) * c + x % (2 * t),
                x == 2 * f * a + t,
                x % (2 * t) >= 0,
        ;
        assert(2 * t * c >= 2 * f * a + t - (2 * t - 1)) by (nonlinear_arith)
            requires
                x == (2 * t) * c + x % (2 * t),
                x == 2 * f * a + t,
                x % (2 * t) < 2 * t,
        ;
        assert(c >= 0) by (nonlinear_arith)
            requires
                2 * t * c >= 2 * f * a + t - (2 * t - 1),
                f >= 0,
                a >= 0,
                t > 0,
        ;
        assert(pile_of(ld, a, t).len() == pile_of(rest, a, t).len() + c);
        assert(total_weight(ld) == total_weight(rest) + f);
        let lr = pile_of(rest, a, t).len() as int;
        let n = rest.len() as int;
        assert(2 * a * (total_weight(rest) + f) - (n + 1) * t + (n + 1) <= 2 * t * (lr + c) <= 2
            * a * (total_weight(rest) + f) + (n + 1) * t) by (nonlinear_arith)
            requires
                2 * a * total_weight(rest) - n * t + n <= 2 * t * lr <= 2 * a * total_weight(rest)
                    + n * t,
                2 * f * a + t - (2 * t - 1) <= 2 * t * c <= 2 * f * a + t,
        ;
    }
}

/// Mass conservation: for a table with a positive total weight, the pile
/// built for `amount` holds `amount` tiles up to half a tile of rounding
/// error per table entry.
pub proof fn lemma_create_pile_mass(ld: Seq<(char, usize)>, amount: int)
    requires
        total_weight(ld) > 0,
        amount >= 0,
    ensures
        2 * amount - ld.len() <= 2 * (pile_of(ld, amount, total_weight(ld)).len() as int) <= 2
            * amount + ld.len(),
{
    let t = total_weight(ld);
    let n = ld.len() as int;
    let l = pile_of(ld, amount, t).len() as int;
    lemma_pile_len(ld, amount, t);
    assert(2 * amount - n <= 2 * l) by (nonlinear_arith)
        requires
            2 * amount * t - n * t + n <= 2 * t * l,
            t >= 1,
            n >= 0,
    ;
    assert(2 * l <= 2 * amount + n) by (nonlinear_arith)
        requires
            2 * t * l <= 2 * amount * t + n * t,
            t >= 1,
            n >= 0,
    ;
}

/// A letter's rounded share never exceeds the requested amount.
proof fn lemma_entry_le_total2(ld: Seq<(char, usize)>, k: int, amount: int)
    requires
        0 <= k < ld.len(),
        amount >= 0,
        total_weight(ld) > 0,
    ensures
        copies_of(ld[k].1 as int, amount, total_weight(ld)) <= amount,
{
    let f = ld[k].1 as int;
    let t = total_weight(ld);
    lemma_entry_le_total(ld, k);
    assert(2 * f * amount + t <= 2 * t * amount + t) by (nonlinear_arith)
        requires
            f <= t,
            amount >= 0,
            t > 0,
    ;
    assert((2 * t * amount + t) / (2 * t) == amount) by {
        assert(2 * t * amount + t == amount * (2 * t) + t) by (nonlinear_arith);
        lemma_fundamental_div_mod_converse(2 * t * amount + t, 2 * t, amount, t);
    }
    assert((2 * f * amount + t) / (2 * t) <= (2 * t * amount + t) / (2 * t)) by {
        vstd::arithmetic::div_mod::lemma_div_is_ordered(
            2 * f * amount + t,
            2 * t * amount + t,
            2 * t,
        );
        assert(2 * f * amount + t >= 0) by (nonlinear_arith)
            requires
                f >= 0,
                amount >= 0,
                t > 0,
        ;
    }
}

} // verus!
