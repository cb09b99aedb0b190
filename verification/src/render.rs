//! Board rendering: a fixed-width text grid with a column header
//! `A`..`J` and 1-based row labels. Ship parts are drawn only on the
//! owner's view; an opponent sees them as water.

use crate::board::{at, Board, Cell};
use vstd::prelude::*;
use vstd::string::StringExecFns;

verus! {

/// The two characters a cell is drawn as: ship parts only when not
/// hidden, hits as `X`, misses as `O`, everything else as water.
pub open spec fn glyph(c: Cell, hide_ships: bool) -> Seq<char> {
    match c {
        Cell::ShipPart => if hide_ships {
            ". "@
        } else {
            "S "@
        },
        Cell::Hit => "X "@,
        Cell::Miss => "O "@,
        Cell::Empty => ". "@,
    }
}

/// The 1-based, width-two row label for row `y`, with its trailing
/// space.
pub open spec fn row_label(y: int) -> Seq<char> {
    if y == 0 {
        " 1 "@
    } else if y == 1 {
        " 2 "@
    } else if y == 2 {
        " 3 "@
    } else if y == 3 {
        " 4 "@
    } else if y == 4 {
        " 5 "@
    } else if y == 5 {
        " 6 "@
    } else if y == 6 {
        " 7 "@
    } else if y == 7 {
        " 8 "@
    } else {
        if y == 8 {
            " 9 "@
        } else {
            "10 "@
        }
    }
}

/// The first `n` cells of row `y`, drawn.
pub open spec fn row_cells(b: Seq<Cell>, y: int, n: int, hide_ships: bool) -> Seq<char>
    decreases n,
{
    if n <= 0 {
        Seq::empty()
    } else {
        row_cells(b, y, n - 1, hide_ships) + glyph(at(b, n - 1, y), hide_ships)
    }
}

/// The first `m` full rows, each with its label and line break.
pub open spec fn rows_upto(b: Seq<Cell>, m: int, hide_ships: bool) -> Seq<char>
    decreases m,
{
    if m <= 0 {
        Seq::empty()
    } else {
        rows_upto(b, m - 1, hide_ships) + row_label(m - 1) + row_cells(b, m - 1, 10, hide_ships)
            + "\n"@
    }
}

pub open spec fn header() -> Seq<char> {
    "   A B C D E F G H I J\n"@
}

/// The whole rendered board: the header and the ten labelled rows.
pub open spec fn render(b: Seq<Cell>, hide_ships: bool) -> Seq<char> {
    header() + rows_upto(b, 10, hide_ships)
}

/// Renders the board as fixed-width text; with `hide_ships` the
/// opponent's view is produced, with unhit ship parts drawn as water.
#[verifier::rlimit(60)]
#[verifier::spinoff_prover]
#[verifier::loop_isolation(false)]
pub fn display_board(board: &Board, hide_ships: bool) -> (r: String)
    requires
        board.wf(),
    ensures
        r@ == render(board@, hide_ships),
{
    let mut out = String::new();
    out.append("   A B C D E F G H I J\n");
    proof {
        assert(out@ =~= header() + rows_upto(board@, 0, hide_ships));
    }
    let mut y: usize = 0;
    while y < 10
        invariant
            out@ == header() + rows_upto(board@, y as int, hide_ships),
            y <= 10,
        decreases 10 - y,
    {
        let label: &str = if y == 0 {
            " 1 "
        } else if y == 1 {
            " 2 "
        } else if y == 2 {
            " 3 "
        } else if y == 3 {
            " 4 "
        } else if y == 4 {
            " 5 "
        } else if y == 5 {
            " 6 "
        } else if y == 6 {
            " 7 "
        } else if y == 7 {
            " 8 "
        } else if y == 8 {
            " 9 "
        } else {
            "10 "
        };
        out.append(label);
        proof {
            assert(out@ =~= header() + rows_upto(board@, y as int, hide_ships) + row_label(
                y as int,
            ) + row_cells(board@, y as int, 0, hide_ships));
        }
        let mut x: usize = 0;
        while x < 10
            invariant
                out@ == header() + rows_upto(board@, y as int, hide_ships) + row_label(y as int)
                    + row_cells(board@, y as int, x as int, hide_ships),
                x <= 10,
                y < 10,
            decreases 10 - x,
        {
            let c = board.get(x, y);
            let g: &str = match c {
                Cell::ShipPart => if hide_ships {
                    ". "
                } else {
                    "S "
                },
                Cell::Hit => "X ",
                Cell::Miss => "O ",
                Cell::Empty => ". ",
            };
            out.append(g);
            proof {
                assert(g@ == glyph(at(board@, x as int, y as int), hide_ships));
                assert(out@ =~= header() + rows_upto(board@, y as int, hide_ships) + row_label(
                    y as int,
                ) + row_cells(board@, y as int, x as int + 1, hide_ships));
            }
            x = x + 1;
        }
        out.append("\n");
        proof {
            assert(out@ =~= header() + rows_upto(board@, y as int + 1, hide_ships));
        }
        y = y + 1;
    }
    out
}

} // verus!
