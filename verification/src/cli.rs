//! Console renderings of a board: a plain nine-line layout and a box-drawn
//! layout.  The text is built and specified exactly; only the final write to
//! standard output is trusted.

use std::io::Write;

use vstd::prelude::*;

use crate::board::at;
use crate::board::in_range;
use crate::board::Board;
use vstd::string::StringExecFns;

verus! {

/// The character showing a digit between 1 and 9.
pub open spec fn digit_text(d: u8) -> Seq<char> {
    if d == 1 {
        "1"@
    } else if d == 2 {
        "2"@
    } else if d == 3 {
        "3"@
    } else if d == 4 {
        "4"@
    } else if d == 5 {
        "5"@
    } else if d == 6 {
        "6"@
    } else if d == 7 {
        "7"@
    } else if d == 8 {
        "8"@
    } else {
        "9"@
    }
}

/// The two characters showing one cell: its digit, or a dot when empty,
/// followed by a space.
pub open spec fn cell_text(d: u8) -> Seq<char> {
    if d == 0 {
        ". "@
    } else {
        digit_text(d) + " "@
    }
}

/// The plain text of row `i` from column `j` on, ending in a newline.
pub open spec fn simple_row_text(s: Seq<u8>, i: int, j: int) -> Seq<char>
    decreases 9 - j,
{
    if j < 0 || j >= 9 {
        "\n"@
    } else {
        cell_text(at(s, i, j)) + simple_row_text(s, i, j + 1)
    }
}

/// The plain text of the rows from `i` on.
pub open spec fn simple_text_from(s: Seq<u8>, i: int) -> Seq<char>
    decreases 9 - i,
{
    if i < 0 || i >= 9 {
        Seq::empty()
    } else {
        simple_row_text(s, i, 0) + simple_text_from(s, i + 1)
    }
}

/// The plain rendering of a grid: nine lines of nine cells.
pub open spec fn simple_text(s: Seq<u8>) -> Seq<char> {
    simple_text_from(s, 0)
}

/// One row of the box-drawn rendering.
pub open spec fn complete_row_text(s: Seq<u8>, i: int) -> Seq<char> {
    "│ "@ + cell_text(at(s, i, 0)) + cell_text(at(s, i, 1)) + cell_text(at(s, i, 2)) + "│ "@
        + cell_text(at(s, i, 3)) + cell_text(at(s, i, 4)) + cell_text(at(s, i, 5)) + "│ "@
        + cell_text(at(s, i, 6)) + cell_text(at(s, i, 7)) + cell_text(at(s, i, 8)) + "│\n"@
}

/// Three rows of the box-drawn rendering, starting at row `i`.
pub open spec fn complete_band_text(s: Seq<u8>, i: int) -> Seq<char> {
    complete_row_text(s, i) + complete_row_text(s, i + 1) + complete_row_text(s, i + 2)
}

/// The box-drawn rendering of a grid: three bands of three rows, framed and
/// separated by border lines.
pub open spec fn complete_text(s: Seq<u8>) -> Seq<char> {
    "┌───────┬───────┬───────┐\n"@ + complete_band_text(s, 0) + "├───────┼───────┼───────┤\n"@
        + complete_band_text(s, 3) + "├───────┼───────┼───────┤\n"@ + complete_band_text(s, 6)
        + "└───────┴───────┴───────┘\n"@
}

/// Relies on `std::io::stdout` and the `write!` macro to put the text on the
/// console; nothing is promised of the console.
#[verifier::external_body]
fn emit(s: &str) {
    let _ = write!(std::io::stdout(), "{}", s);
}

/// Appends the two characters showing digit `d`.
fn push_cell_text(out: &mut String, d: u8)
    requires
        d <= 9,
    ensures
        final(out)@ == old(out)@ + cell_text(d),
{
    if d == 0 {
        out.append(". ");
    } else {
        if d == 1 {
            out.append("1");
        } else if d == 2 {
            out.append("2");
        } else if d == 3 {
            out.append("3");
        } else if d == 4 {
            out.append("4");
        } else if d == 5 {
            out.append("5");
        } else if d == 6 {
            out.append("6");
        } else if d == 7 {
            out.append("7");
        } else if d == 8 {
            out.append("8");
        } else {
            out.append("9");
        }
        out.append(" ");
        proof {
            assert(out@ =~= old(out)@ + cell_text(d));
        }
    }
}

/// Appends one row of the box-drawn rendering.
#[verifier::rlimit(100)]
fn push_complete_row(out: &mut String, board: &Board, i: usize)
    requires
        i < 9,
        board.wf(),
        in_range(board@),
    ensures
        final(out)@ == old(out)@ + complete_row_text(board@, i as int),
{
    out.append("│ ");
    push_cell_text(out, board.get(i, 0));
    push_cell_text(out, board.get(i, 1));
    push_cell_text(out, board.get(i, 2));
    out.append("│ ");
    push_cell_text(out, board.get(i, 3));
    push_cell_text(out, board.get(i, 4));
    push_cell_text(out, board.get(i, 5));
    out.append("│ ");
    push_cell_text(out, board.get(i, 6));
    push_cell_text(out, board.get(i, 7));
    push_cell_text(out, board.get(i, 8));
    out.append("│\n");
    proof {
        assert(out@ =~= old(out)@ + complete_row_text(board@, i as int));
    }
}

impl Board {
    /// The plain nine-line text of this board: a digit or a dot per cell.
    pub fn render_simple(&self) -> (r: String)
        requires
            self.wf(),
            in_range(self@),
        ensures
            r@ == simple_text(self@),
    {
        let mut out = String::new();
        let mut i: usize = 0;
        while i < 9
            invariant
                i <= 9,
                self.wf(),
                in_range(self@),
                out@ + simple_text_from(self@, i as int) =~= simple_text(self@),
            decreases 9 - i,
        {
            let mut j: usize = 0;
            while j < 9
                invariant
                    i < 9,
                    j <= 9,
                    self.wf(),
                    in_range(self@),
                    out@ + simple_row_text(self@, i as int, j as int) + simple_text_from(
                        self@,
                        i as int + 1,
                    ) =~= simple_text(self@),
                decreases 9 - j,
            {
                let d = self.get(i, j);
                push_cell_text(&mut out, d);
                proof {
                    assert(out@ + simple_row_text(self@, i as int, j as int + 1)
                        + simple_text_from(self@, i as int + 1) =~= simple_text(self@));
                }
                j = j + 1;
            }
            out.append("\n");
            proof {
                assert(out@ + simple_text_from(self@, i as int + 1) =~= simple_text(self@));
            }
            i = i + 1;
        }
        proof {
            assert(out@ =~= simple_text(self@));
        }
        out
    }

    /// The box-drawn text of this board.
    #[verifier::rlimit(100)]
    pub fn render_complete(&self) -> (r: String)
        requires
            self.wf(),
            in_range(self@),
        ensures
            r@ == complete_text(self@),
    {
        let mut out = String::new();
        out.append("┌───────┬───────┬───────┐\n");
        push_complete_row(&mut out, self, 0);
        push_complete_row(&mut out, self, 1);
        push_complete_row(&mut out, self, 2);
        proof {
            assert(out@ =~= "┌───────┬───────┬───────┐\n"@ + complete_band_text(self@, 0));
        }
        out.append("├───────┼───────┼───────┤\n");
        push_complete_row(&mut out, self, 3);
        push_complete_row(&mut out, self, 4);
        push_complete_row(&mut out, self, 5);
        proof {
            assert(out@ =~= "┌───────┬───────┬───────┐\n"@ + complete_band_text(self@, 0)
                + "├───────┼───────┼───────┤\n"@ + complete_band_text(self@, 3));
        }
        out.append("├───────┼───────┼───────┤\n");
        push_complete_row(&mut out, self, 6);
        push_complete_row(&mut out, self, 7);
        push_complete_row(&mut out, self, 8);
        out.append("└───────┴───────┴───────┘\n");
        proof {
            assert(out@ =~= complete_text(self@));
        }
        out
    }

    /// Prints the plain nine-line layout to the console.
    pub fn print_simple(&self)
        requires
            self.wf(),
            in_range(self@),
    {
        let text = self.render_simple();
        emit(text.as_str());
    }

    /// Prints the box-drawn layout to the console.
    pub fn print_complete(&self)
        requires
            self.wf(),
            in_range(self@),
    {
        let text = self.render_complete();
        emit(text.as_str());
    }
}

} // verus!
