use crate::bignum::pow4;
use crate::bignum::pow45_div;
use crate::bignum::pow5;
use crate::grid::Grid;
use vstd::prelude::*;
use vstd::string::StrSliceExecFns;

verus! {

/// An integer clamped into the signed 64-bit range; the scorer saturates
/// there wherever a value must fit the returned 64-bit delta.
pub open spec fn clamp_i64(x: int) -> int {
    if x > 0x7fff_ffff_ffff_ffff {
        0x7fff_ffff_ffff_ffff
    } else if x < -0x8000_0000_0000_0000 {
        -0x8000_0000_0000_0000
    } else {
        x
    }
}

/// Integer division truncated toward zero, for a positive divisor; this is
/// how a fractional score is cut to a whole number.
pub open spec fn div_trunc(a: int, b: int) -> int {
    if a >= 0 {
        a / b
    } else {
        -((-a) / b)
    }
}

/// The point value of a letter: the value of its first entry in the score
/// table, or zero for a letter the table does not know.
pub open spec fn table_lookup(t: Seq<(char, i64)>, c: char) -> int
    decreases t.len(),
{
    if t.len() == 0 {
        0
    } else if t[0].0 == c {
        t[0].1 as int
    } else {
        table_lookup(t.drop_first(), c)
    }
}

/// The sum of the point values of a word's letters.
pub open spec fn letters_value(t: Seq<(char, i64)>, w: Seq<char>) -> int
    decreases w.len(),
{
    if w.len() == 0 {
        0
    } else {
        table_lookup(t, w[0]) + letters_value(t, w.drop_first())
    }
}

/// Twice the length-tier multiplier: 1 to 3 letters score 1x, 4 to 6 score
/// 1.5x, 7 to 9 score 2x, anything longer 2.5x.
pub open spec fn multiplier_num(len: int) -> int {
    if 1 <= len <= 3 {
        2
    } else if 4 <= len <= 6 {
        3
    } else if 7 <= len <= 9 {
        4
    } else {
        5
    }
}

/// How many of the first `n` words equal `w`.
pub open spec fn count_eq_upto(ws: Seq<Seq<char>>, w: Seq<char>, n: int) -> int
    decreases n,
{
    if n <= 0 {
        0
    } else {
        count_eq_upto(ws, w, n - 1) + if ws[n - 1] == w {
            1int
        } else {
            0int
        }
    }
}

/// The final score of one word that has already appeared `k` times in the
/// batch: its letter values summed and clamped to the 64-bit range, times
/// the length multiplier, times four fifths per earlier occurrence, with
/// one single truncation toward zero at the very end. The multiplier is
/// held doubled, so the divisor carries the halving.
pub open spec fn word_score(t: Seq<(char, i64)>, w: Seq<char>, k: int) -> int {
    let kk: nat = if k >= 0 {
        k as nat
    } else {
        0nat
    };
    div_trunc(
        clamp_i64(letters_value(t, w)) * multiplier_num(w.len() as int) * pow4(kk),
        2 * pow5(kk),
    )
}

/// The sum of the clamped scores of the first `n` words of the batch, each
/// penalized once per earlier equal word.
pub open spec fn batch_total(t: Seq<(char, i64)>, ws: Seq<Seq<char>>, n: int) -> int
    decreases n,
{
    if n <= 0 {
        0
    } else {
        batch_total(t, ws, n - 1) + clamp_i64(
            word_score(t, ws[n - 1], count_eq_upto(ws, ws[n - 1], n - 1)),
        )
    }
}

/// Appending a letter adds that letter's value to the sum.
proof fn lemma_letters_value_push(t: Seq<(char, i64)>, w: Seq<char>, c: char)
    ensures
        letters_value(t, w.push(c)) == letters_value(t, w) + table_lookup(t, c),
    decreases w.len(),
{
    assert(w.push(c).len() > 0);
    assert(letters_value(t, w.push(c)) == table_lookup(t, w.push(c)[0]) + letters_value(
        t,
        w.push(c).drop_first(),
    ));
    if w.len() == 0 {
        assert(w.push(c).drop_first() =~= Seq::<char>::empty());
        assert(w.push(c)[0] == c);
        assert(letters_value(t, Seq::<char>::empty()) == 0);
    } else {
        assert(w.push(c).drop_first() =~= w.drop_first().push(c));
        lemma_letters_value_push(t, w.drop_first(), c);
        assert(w.push(c)[0] == w[0]);
    }
}

/// The point value of `c` per the score table, zero when absent.
fn lookup(table: &Vec<(char, i64)>, c: char) -> (r: i64)
    ensures
        r as int == table_lookup(table@, c),
{
    let mut i: usize = 0;
    proof {
        assert(table@.skip(0) =~= table@);
    }
    while i < table.len()
        invariant
            i <= table@.len(),
            table_lookup(table@, c) == table_lookup(table@.skip(i as int), c),
        decreases table@.len() - i,
    {
        proof {
            assert(table@.skip(i as int)[0] == table@[i as int]);
        }
        if table[i].0 == c {
            return table[i].1;
        }
        proof {
            assert(table@.skip(i as int).drop_first() =~= table@.skip(i as int + 1));
        }
        i = i + 1;
    }
    proof {
        assert(table@.skip(table@.len() as int).len() == 0);
    }
    0
}

impl Grid<Option<char>> {
    /// Scores a batch of words against a per-letter point table: each word's
    /// letter values are summed (unknown letters count zero), scaled by the
    /// length-tier multiplier, cut by one stale-word penalty per earlier
    /// equal word in the same batch, and truncated toward zero; the per-word
    /// scores and the returned delta saturate at the 64-bit range.
    pub fn score_grid(words: &Vec<String>, scoretable: &Vec<(char, i64)>) -> (r: i64)
        ensures
            r as int == clamp_i64(
                batch_total(scoretable@, words.deep_view(), words@.len() as int),
            ),
    {
        let ghost ws: Seq<Seq<char>> = words.deep_view();
        let ghost t: Seq<(char, i64)> = scoretable@;
        let mut change: i128 = 0;
        let mut i: usize = 0;
        while i < words.len()
            invariant
                ws == words.deep_view(),
                t == scoretable@,
                i <= words@.len(),
                change == batch_total(t, ws, i as int),
                -(i as int) * 0x8000_0000_0000_0000 <= change <= (i as int)
                    * 0x7fff_ffff_ffff_ffff,
            decreases words@.len() - i,
        {
            let word: &String = &words[i];
            proof {
                assert(ws[i as int] == word@);
            }
            // how often this word already appeared in the batch
            let mut stale: usize = 0;
            let mut j: usize = 0;
            while j < i
                invariant
                    ws == words.deep_view(),
                    j <= i < words@.len(),
                    word@ == ws[i as int],
                    stale <= j,
                    stale as int == count_eq_upto(ws, ws[i as int], j as int),
                decreases i - j,
            {
                proof {
                    assert(ws[j as int] == words@[j as int]@);
                }
                if words[j].eq(word) {
                    stale = stale + 1;
                }
                j = j + 1;
            }
            // the word's letter values, summed exactly
            let letters: &str = word.as_str();
            let n: usize = letters.unicode_len();
            let mut sum: i128 = 0;
            let mut p: usize = 0;
            while p < n
                invariant
                    t == scoretable@,
                    letters@ == ws[i as int],
                    i < words@.len(),
                    ws == words.deep_view(),
                    n == letters@.len(),
                    p <= n,
                    sum == letters_value(t, letters@.take(p as int)),
                    -(p as int) * 0x8000_0000_0000_0000 <= sum <= (p as int)
                        * 0x8000_0000_0000_0000,
                decreases n - p,
            {
                let c: char = letters.get_char(p);
                let v: i64 = lookup(scoretable, c);
                proof {
                    lemma_letters_value_push(t, letters@.take(p as int), c);
                    assert(letters@.take(p as int).push(letters@[p as int]) =~= letters@.take(
                        p as int + 1,
                    ));
                }
                sum = sum + v as i128;
                p = p + 1;
            }
            proof {
                assert(letters@.take(n as int) =~= letters@);
            }
            // saturate the sum at the 64-bit range, as the table values have
            let clamped: i128 = if sum > 0x7fff_ffff_ffff_ffff {
                0x7fff_ffff_ffff_ffff
            } else if sum < -0x8000_0000_0000_0000 {
                -0x8000_0000_0000_0000
            } else {
                sum
            };
            proof {
                assert(clamped as int == clamp_i64(letters_value(t, ws[i as int])));
            }
            // length-tier multiplier, held doubled to stay integral
            let mult: i128 = if n >= 1 && n <= 3 {
                2
            } else if n >= 4 && n <= 6 {
                3
            } else if n >= 7 && n <= 9 {
                4
            } else {
                5
            };
            proof {
                assert(mult as int == multiplier_num(ws[i as int].len() as int));
            }
            proof {
                assert(-0x8000_0000_0000_0000 * 5 <= clamped * mult <= 0x7fff_ffff_ffff_ffff
                    * 5) by (nonlinear_arith)
                    requires
                        -0x8000_0000_0000_0000 <= clamped <= 0x7fff_ffff_ffff_ffff,
                        2 <= mult <= 5,
                ;
            }
            let base: i128 = clamped * mult;
            let ghost base_spec: int = clamp_i64(letters_value(t, ws[i as int])) * multiplier_num(
                ws[i as int].len() as int,
            );
            proof {
                assert(base as int == base_spec);
            }
            // one four-fifths penalty per earlier occurrence, one truncation
            let magnitude: u128 = if base >= 0 {
                base as u128
            } else {
                (-base) as u128
            };
            let scaled: u128 = pow45_div(magnitude, stale);
            let halved: i128 = if base >= 0 {
                scaled as i128
            } else {
                -(scaled as i128)
            };
            proof {
                let kk: nat = stale as nat;
                crate::bignum::lemma_pow4_pos(kk);
                crate::bignum::lemma_pow5_pos(kk);
                if base >= 0 {
                    assert(base_spec * pow4(kk) >= 0) by (nonlinear_arith)
                        requires
                            base_spec >= 0,
                            pow4(kk) >= 1,
                    ;
                } else {
                    assert(base_spec * pow4(kk) < 0 && (magnitude as int) * pow4(kk) == -(
                    base_spec * pow4(kk))) by (nonlinear_arith)
                        requires
                            base_spec < 0,
                            magnitude as int == -base_spec,
                            pow4(kk) >= 1,
                    ;
                }
                assert(halved as int == word_score(
                    t,
                    ws[i as int],
                    count_eq_upto(ws, ws[i as int], i as int),
                ));
            }
            let word_points: i128 = if halved > 0x7fff_ffff_ffff_ffff {
                0x7fff_ffff_ffff_ffff
            } else if halved < -0x8000_0000_0000_0000 {
                -0x8000_0000_0000_0000
            } else {
                halved
            };
            change = change + word_points;
            proof {
                assert(change == batch_total(t, ws, i as int + 1));
            }
            i = i + 1;
        }
        let delta: i128 = if change > 0x7fff_ffff_ffff_ffff {
            0x7fff_ffff_ffff_ffff
        } else if change < -0x8000_0000_0000_0000 {
            -0x8000_0000_0000_0000
        } else {
            change
        };
        delta as i64
    }
}

} // verus!
