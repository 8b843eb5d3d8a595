use crate::grid::index::coordinate_of;
use crate::grid::index::index_of;
use crate::grid::index::lemma_conversion_round_trip;
use crate::grid::Coordinate;
use crate::grid::Grid;
use crate::grid::GridIndex;
use crate::util::chars_to_string;
use vstd::prelude::*;

verus! {

/// The axes along which a cell has an occupied cardinal neighbor.
#[derive(Debug, PartialEq, Eq, Structural)]
pub enum Direction {
    Neither,
    Vertical,
    Horizontal,
    Both,
}

/// Whether the cell at storage address `(col, row)` holds a letter. An
/// address outside the grid counts as empty, which is exactly how the
/// overflow flag of `overflowing_add` rejects neighbors past the seam.
pub open spec fn occupied(s: Seq<Option<char>>, col: int, row: int) -> bool {
    0 <= col < 256 && 0 <= row < 256 && s[row * 256 + col] is Some
}

/// The letter held at storage address `(col, row)`.
pub open spec fn letter_at(s: Seq<Option<char>>, col: int, row: int) -> char {
    s[row * 256 + col]->0
}

/// Whether the cell has an occupied neighbor to its left or right.
pub open spec fn horizontally_adjacent(s: Seq<Option<char>>, col: int, row: int) -> bool {
    occupied(s, col - 1, row) || occupied(s, col + 1, row)
}

/// Whether the cell has an occupied neighbor above or below it.
pub open spec fn vertically_adjacent(s: Seq<Option<char>>, col: int, row: int) -> bool {
    occupied(s, col, row - 1) || occupied(s, col, row + 1)
}

/// The classification of a cell's occupied cardinal neighbors.
pub open spec fn direction_of(s: Seq<Option<char>>, col: int, row: int) -> Direction {
    let h = horizontally_adjacent(s, col, row);
    let v = vertically_adjacent(s, col, row);
    if h && v {
        Direction::Both
    } else if h {
        Direction::Horizontal
    } else if v {
        Direction::Vertical
    } else {
        Direction::Neither
    }
}

/// Whether an occupied cell's letter joins the run of the given pass: a cell
/// adjacent only along the perpendicular axis belongs to that axis's word
/// and is excluded from this pass's run.
pub open spec fn kept(s: Seq<Option<char>>, col: int, row: int, horizontal_pass: bool) -> bool {
    if horizontal_pass {
        direction_of(s, col, row) != Direction::Vertical
    } else {
        direction_of(s, col, row) != Direction::Horizontal
    }
}

/// The storage column of position `p` of line `line` in the given pass: the
/// horizontal pass walks a row, the vertical pass walks a column.
pub open spec fn pass_col(line: int, p: int, horizontal_pass: bool) -> int {
    if horizontal_pass {
        p
    } else {
        line
    }
}

/// The storage row of position `p` of line `line` in the given pass.
pub open spec fn pass_row(line: int, p: int, horizontal_pass: bool) -> int {
    if horizontal_pass {
        line
    } else {
        p
    }
}

/// What a finished run contributes: the horizontal pass emits every nonempty
/// run, while the vertical pass discards single-letter runs, which are
/// re-readings of letters the horizontal pass already emitted.
pub open spec fn emitted(cur: Seq<char>, horizontal_pass: bool) -> Seq<Seq<char>> {
    if cur.len() >= 2 || (horizontal_pass && cur.len() == 1) {
        seq![cur]
    } else {
        seq![]
    }
}

/// The words contributed by line `line` from position `p` on, with `cur` the
/// run accumulated so far: an occupied cell extends the run when it is kept,
/// an empty cell or the end of the line finishes the run.
pub open spec fn words_from(
    s: Seq<Option<char>>,
    line: int,
    p: int,
    cur: Seq<char>,
    horizontal_pass: bool,
) -> Seq<Seq<char>>
    decreases 256 - p,
{
    if p < 0 || p >= 256 {
        emitted(cur, horizontal_pass)
    } else if occupied(
        s,
        pass_col(line, p, horizontal_pass),
        pass_row(line, p, horizontal_pass),
    ) {
        let c = pass_col(line, p, horizontal_pass);
        let r = pass_row(line, p, horizontal_pass);
        let cur2 = if kept(s, c, r, horizontal_pass) {
            cur.push(letter_at(s, c, r))
        } else {
            cur
        };
        words_from(s, line, p + 1, cur2, horizontal_pass)
    } else {
        emitted(cur, horizontal_pass) + words_from(s, line, p + 1, seq![], horizontal_pass)
    }
}

/// The words of one whole line of a pass.
pub open spec fn line_words(s: Seq<Option<char>>, line: int, horizontal_pass: bool) -> Seq<
    Seq<char>,
> {
    words_from(s, line, 0, seq![], horizontal_pass)
}

/// The words of a pass from line `line` on: the horizontal pass takes rows
/// top to bottom, the vertical pass takes columns left to right.
pub open spec fn pass_words(s: Seq<Option<char>>, line: int, horizontal_pass: bool) -> Seq<
    Seq<char>,
>
    decreases 256 - line,
{
    if line < 0 || line >= 256 {
        seq![]
    } else {
        line_words(s, line, horizontal_pass) + pass_words(s, line + 1, horizontal_pass)
    }
}

/// Every word the scanner reads off a grid: all horizontal runs in row-major
/// order, then all vertical runs in column-major order.
pub open spec fn scanned_words(s: Seq<Option<char>>) -> Seq<Seq<char>> {
    pass_words(s, 0, true) + pass_words(s, 0, false)
}

impl Grid<Option<char>> {
    /// Scans the grid for words: maximal runs of occupied cells along both
    /// axes, suppressing letters that belong only to the perpendicular axis.
    pub fn scan_for_words(&self) -> (r: Vec<String>)
        requires
            self.wf(),
        ensures
            r.deep_view() == scanned_words(self@),
    {
        let mut output: Vec<String> = Vec::new();
        self.scan_pass(&mut output, true);
        self.scan_pass(&mut output, false);
        proof {
            assert(output.deep_view() =~= scanned_words(self@));
        }
        output
    }

    /// Runs one scanning pass, appending the pass's words to `output`.
    fn scan_pass(&self, output: &mut Vec<String>, horizontal: bool)
        requires
            self.wf(),
        ensures
            final(output).deep_view() == old(output).deep_view() + pass_words(
                self@,
                0,
                horizontal,
            ),
    {
        let ghost target: Seq<Seq<char>> = old(output).deep_view() + pass_words(
            self@,
            0,
            horizontal,
        );
        let mut current_word: Vec<char> = Vec::new();
        let mut line: usize = 0;
        while line < 256
            invariant
                self.wf(),
                line <= 256,
                current_word@.len() == 0,
                output.deep_view() + pass_words(self@, line as int, horizontal) == target,
            decreases 256 - line,
        {
            proof {
                assert(current_word@ =~= Seq::<char>::empty());
                assert(words_from(self@, line as int, 0, current_word@, horizontal) == line_words(
                    self@,
                    line as int,
                    horizontal,
                ));
                assert(pass_words(self@, line as int, horizontal) == line_words(
                    self@,
                    line as int,
                    horizontal,
                ) + pass_words(self@, line as int + 1, horizontal));
                assert((output.deep_view() + line_words(self@, line as int, horizontal))
                    + pass_words(self@, line as int + 1, horizontal) =~= output.deep_view() + (
                line_words(self@, line as int, horizontal) + pass_words(
                    self@,
                    line as int + 1,
                    horizontal,
                )));
            }
            let mut p: usize = 0;
            while p < 256
                invariant
                    self.wf(),
                    p <= 256,
                    line < 256,
                    output.deep_view() + words_from(
                        self@,
                        line as int,
                        p as int,
                        current_word@,
                        horizontal,
                    ) + pass_words(self@, line as int + 1, horizontal) == target,
                decreases 256 - p,
            {
                let col: u8 = if horizontal {
                    p as u8
                } else {
                    line as u8
                };
                let row: u8 = if horizontal {
                    line as u8
                } else {
                    p as u8
                };
                let gi: GridIndex = GridIndex(col, row);
                let ghost cur0: Seq<char> = current_word@;
                let ghost out0: Seq<Seq<char>> = output.deep_view();
                proof {
                    assert(col as int == pass_col(line as int, p as int, horizontal));
                    assert(row as int == pass_row(line as int, p as int, horizontal));
                }
                if let Some(letter) = *self.get(gi) {
                    let coordinate: Coordinate = Coordinate::from(gi);
                    proof {
                        lemma_conversion_round_trip(coordinate_of(gi), gi);
                        assert(index_of(coordinate) == gi);
                    }
                    let direction: Direction = self.letter_adjacent(coordinate);
                    let keep: bool = if horizontal {
                        direction != Direction::Vertical
                    } else {
                        direction != Direction::Horizontal
                    };
                    if keep {
                        current_word.push(letter);
                    }
                    proof {
                        assert(occupied(self@, col as int, row as int));
                        assert(keep == kept(self@, col as int, row as int, horizontal));
                        if keep {
                            assert(letter == letter_at(self@, col as int, row as int));
                            assert(current_word@ == cur0.push(letter));
                        }
                        assert(words_from(self@, line as int, p as int, cur0, horizontal)
                            == words_from(
                            self@,
                            line as int,
                            p as int + 1,
                            current_word@,
                            horizontal,
                        ));
                    }
                } else {
                    let ghost em: Seq<Seq<char>> = emitted(cur0, horizontal);
                    if current_word.len() >= 2 || (horizontal && current_word.len() == 1) {
                        let w: String = chars_to_string(&current_word);
                        output.push(w);
                        proof {
                            assert(output.deep_view() =~= out0 + em);
                        }
                    } else {
                        proof {
                            assert(output.deep_view() =~= out0 + em);
                        }
                    }
                    if current_word.len() > 0 {
                        current_word.clear();
                    }
                    proof {
                        assert(current_word@ =~= Seq::<char>::empty());
                        assert(words_from(self@, line as int, p as int, cur0, horizontal) == em
                            + words_from(self@, line as int, p as int + 1, seq![], horizontal));
                        assert(out0 + (em + words_from(
                            self@,
                            line as int,
                            p as int + 1,
                            current_word@,
                            horizontal,
                        )) =~= (out0 + em) + words_from(
                            self@,
                            line as int,
                            p as int + 1,
                            current_word@,
                            horizontal,
                        ));
                    }
                }
                p = p + 1;
            }
            let ghost cur0: Seq<char> = current_word@;
            let ghost out0: Seq<Seq<char>> = output.deep_view();
            let ghost em: Seq<Seq<char>> = emitted(cur0, horizontal);
            if current_word.len() >= 2 || (horizontal && current_word.len() == 1) {
                let w: String = chars_to_string(&current_word);
                output.push(w);
                proof {
                    assert(output.deep_view() =~= out0 + em);
                }
            } else {
                proof {
                    assert(output.deep_view() =~= out0 + em);
                }
            }
            if current_word.len() > 0 {
                current_word.clear();
            }
            proof {
                assert(words_from(self@, line as int, 256, cur0, horizontal) == em);
                assert((out0 + em) + pass_words(self@, line as int + 1, horizontal) =~= out0 + (em
                    + pass_words(self@, line as int + 1, horizontal)));
            }
            line = line + 1;
        }
        proof {
            assert(pass_words(self@, 256, horizontal) =~= Seq::<Seq<char>>::empty());
            assert(output.deep_view() + pass_words(self@, 256, horizontal) =~= output.deep_view());
        }
    }

    /// Reports along which axes the cell at `coordinate` has an occupied
    /// neighbor, probing the four cardinal neighbors with `overflowing_add`
    /// so that edge cells never falsely wrap around the board.
    fn letter_adjacent(&self, coordinate: Coordinate) -> (d: Direction)
        requires
            self.wf(),
        ensures
            d == direction_of(self@, index_of(coordinate).0 as int, index_of(coordinate).1 as int),
    {
        let ghost col: int = index_of(coordinate).0 as int;
        let ghost row: int = index_of(coordinate).1 as int;
        let (right, right_over): (Coordinate, bool) = coordinate.overflowing_add(Coordinate(1, 0));
        let right_occ: bool = !right_over && self.get(GridIndex::from(right)).is_some();
        proof {
            assert(right_occ == occupied(self@, col + 1, row));
        }
        let (left, left_over): (Coordinate, bool) = coordinate.overflowing_add(Coordinate(-1, 0));
        let left_occ: bool = !left_over && self.get(GridIndex::from(left)).is_some();
        proof {
            assert(left_occ == occupied(self@, col - 1, row));
        }
        let (up, up_over): (Coordinate, bool) = coordinate.overflowing_add(Coordinate(0, 1));
        let up_occ: bool = !up_over && self.get(GridIndex::from(up)).is_some();
        proof {
            assert(up_occ == occupied(self@, col, row - 1));
        }
        let (down, down_over): (Coordinate, bool) = coordinate.overflowing_add(Coordinate(0, -1));
        let down_occ: bool = !down_over && self.get(GridIndex::from(down)).is_some();
        proof {
            assert(down_occ == occupied(self@, col, row + 1));
        }
        let horizontal: bool = right_occ || left_occ;
        let vertical: bool = up_occ || down_occ;
        if horizontal && vertical {
            Direction::Both
        } else if horizontal {
            Direction::Horizontal
        } else if vertical {
            Direction::Vertical
        } else {
            Direction::Neither
        }
    }
}

} // verus!
