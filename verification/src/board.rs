//! The board: a 10x10 grid of cells, fleet placement, and shot
//! resolution.

use vstd::prelude::*;

verus! {

/// One square of the grid. Transitions are monotonic:
/// `Empty -> Miss` and `ShipPart -> Hit`; nothing else ever changes.
#[derive(Clone, Copy, PartialEq, Eq, Structural, Debug)]
pub enum Cell {
    Empty,
    ShipPart,
    Hit,
    Miss,
}

/// A 10x10 grid stored row-major: the cell in column `x`, row `y`
/// sits at index `y * 10 + x`.
pub struct Board {
    pub cells: Vec<Cell>,
}

pub open spec fn in_grid(x: int, y: int) -> bool {
    0 <= x < 10 && 0 <= y < 10
}

pub open spec fn idx(x: int, y: int) -> int {
    y * 10 + x
}

/// The cell of `b` in column `x`, row `y`.
pub open spec fn at(b: Seq<Cell>, x: int, y: int) -> Cell {
    b[idx(x, y)]
}

/// A ship as placed on a board: its origin cell, its length, and its
/// orientation. Ghost data only; the board itself stores cells.
pub ghost struct Ship {
    pub x: int,
    pub y: int,
    pub size: int,
    pub horizontal: bool,
}

/// Column of the last cell of `s`.
pub open spec fn x_end(s: Ship) -> int {
    if s.horizontal {
        s.x + s.size - 1
    } else {
        s.x
    }
}

/// Row of the last cell of `s`.
pub open spec fn y_end(s: Ship) -> int {
    if s.horizontal {
        s.y
    } else {
        s.y + s.size - 1
    }
}

/// `(i, j)` is one of the cells occupied by `s`.
pub open spec fn covers(s: Ship, i: int, j: int) -> bool {
    s.x <= i <= x_end(s) && s.y <= j <= y_end(s)
}

pub open spec fn ship_in_grid(s: Ship) -> bool {
    s.size >= 1 && 0 <= s.x && 0 <= s.y && x_end(s) < 10 && y_end(s) < 10
}

/// `(i, j)` lies in the one-cell-expanded bounding box of `s`: either
/// on the ship itself or touching it, diagonals included.
pub open spec fn near_ship(s: Ship, i: int, j: int) -> bool {
    s.x - 1 <= i <= x_end(s) + 1 && s.y - 1 <= j <= y_end(s) + 1
}

/// No cell in the expanded bounding box of `s` already carries a ship:
/// placing `s` would neither overlap nor touch an existing ship.
pub open spec fn clear_around(b: Seq<Cell>, s: Ship) -> bool {
    forall|i: int, j: int|
        in_grid(i, j) && near_ship(s, i, j) ==> #[trigger] at(b, i, j) != Cell::ShipPart
}

/// `s` may be committed to `b`: it lies within the grid and keeps a
/// one-cell buffer from every ship already present.
pub open spec fn can_place_spec(b: Seq<Cell>, s: Ship) -> bool {
    ship_in_grid(s) && clear_around(b, s)
}

/// No cell of `s` and cell of `t` are equal or adjacent, diagonals
/// included.
pub open spec fn ships_apart(s: Ship, t: Ship) -> bool {
    forall|i: int, j: int, i2: int, j2: int|
        #[trigger] covers(s, i, j) && #[trigger] covers(t, i2, j2)
            ==> i2 - i > 1 || i - i2 > 1 || j2 - j > 1 || j - j2 > 1
}

impl View for Board {
    type V = Seq<Cell>;

    open spec fn view(&self) -> Seq<Cell> {
        self.cells@
    }
}

impl Board {
    pub open spec fn wf(self) -> bool {
        self.cells@.len() == 100
    }

    /// An all-`Empty` board.
    pub fn new() -> (b: Board)
        ensures
            b.wf(),
            forall|x: int, y: int| in_grid(x, y) ==> at(b@, x, y) == Cell::Empty,
    {
        let mut cells: Vec<Cell> = Vec::new();
        let mut i: usize = 0;
        while i < 100
            invariant
                i <= 100,
                cells@.len() == i,
                forall|k: int| 0 <= k < i ==> cells@[k] == Cell::Empty,
            decreases 100 - i,
        {
            cells.push(Cell::Empty);
            i = i + 1;
        }
        Board { cells }
    }

    /// Reads the cell in column `x`, row `y`.
    pub fn get(&self, x: usize, y: usize) -> (c: Cell)
        requires
            self.wf(),
            x < 10,
            y < 10,
        ensures
            c == at(self@, x as int, y as int),
    {
        self.cells[y * 10 + x]
    }

    /// Overwrites the cell in column `x`, row `y`.
    pub fn set(&mut self, x: usize, y: usize, c: Cell)
        requires
            old(self).wf(),
            x < 10,
            y < 10,
        ensures
            final(self).wf(),
            final(self)@ == old(self)@.update(idx(x as int, y as int), c),
    {
        self.cells.set(y * 10 + x, c);
    }
}

/// The board after a shot at `(x, y)`: a ship part is hit, an empty
/// cell becomes a miss, and a cell already shot at stays unchanged.
pub open spec fn board_after_shot(b: Seq<Cell>, x: int, y: int) -> Seq<Cell> {
    if at(b, x, y) == Cell::ShipPart {
        b.update(idx(x, y), Cell::Hit)
    } else if at(b, x, y) == Cell::Empty {
        b.update(idx(x, y), Cell::Miss)
    } else {
        b
    }
}

/// A shot at `(x, y)` lands on a ship part.
pub open spec fn shot_hits(b: Seq<Cell>, x: int, y: int) -> bool {
    at(b, x, y) == Cell::ShipPart
}

/// A shot at `(x, y)` hits, and afterwards no chain of hit cells from
/// `(x, y)` leads to a surviving ship part: the whole ship is down.
pub open spec fn shot_sinks(b: Seq<Cell>, x: int, y: int) -> bool {
    shot_hits(b, x, y) && !crate::sunk::reaches_ship(board_after_shot(b, x, y), x, y)
}

/// Resolves a shot at `(x, y)`: returns `(hit, sunk)`. Shooting a
/// cell already `Hit` or `Miss` changes nothing and returns
/// `(false, false)`.
pub fn process_shot(board: &mut Board, x: usize, y: usize) -> (r: (bool, bool))
    requires
        old(board).wf(),
        x < 10,
        y < 10,
    ensures
        final(board).wf(),
        final(board)@ == board_after_shot(old(board)@, x as int, y as int),
        r.0 == shot_hits(old(board)@, x as int, y as int),
        r.1 == shot_sinks(old(board)@, x as int, y as int),
        at(old(board)@, x as int, y as int) == Cell::Hit || at(old(board)@, x as int, y as int)
            == Cell::Miss ==> final(board)@ == old(board)@ && r == (false, false),
{
    let c = board.get(x, y);
    if c == Cell::ShipPart {
        board.set(x, y, Cell::Hit);
        let sunk = crate::sunk::check_sunk_ship(board, x, y);
        (true, sunk)
    } else if c == Cell::Empty {
        board.set(x, y, Cell::Miss);
        (false, false)
    } else {
        (false, false)
    }
}

/// The ship with origin `(x, y)`, length `size`, and the given
/// orientation.
pub open spec fn ship_of(x: int, y: int, size: int, horizontal: bool) -> Ship {
    Ship { x, y, size, horizontal }
}

/// The fixed fleet: one ship of length 4, two of length 3, three of
/// length 2, and four of length 1.
pub open spec fn fleet_sizes() -> Seq<int> {
    seq![4, 3, 3, 2, 2, 2, 1, 1, 1, 1]
}

/// `ships` is a prefix of a correctly placed fleet on `b`: each ship
/// lies in the grid, has the next required size, keeps a one-cell
/// buffer from every other, and the ship parts on `b` are exactly the
/// cells the ships cover; everything else is untouched water.
pub open spec fn partial_fleet(b: Seq<Cell>, ships: Seq<Ship>) -> bool {
    &&& ships.len() <= 10
    &&& forall|k: int| 0 <= k < ships.len() ==> ship_in_grid(#[trigger] ships[k])
    &&& forall|k: int| 0 <= k < ships.len() ==> (#[trigger] ships[k]).size == fleet_sizes()[k]
    &&& forall|k1: int, k2: int|
        0 <= k1 < ships.len() && 0 <= k2 < ships.len() && k1 != k2 ==> ships_apart(
            #[trigger] ships[k1],
            #[trigger] ships[k2],
        )
    &&& forall|i: int, j: int|
        in_grid(i, j) ==> ((#[trigger] at(b, i, j)) == Cell::ShipPart <==> exists|k: int|
            0 <= k < ships.len() && covers(#[trigger] ships[k], i, j))
    &&& forall|i: int, j: int|
        in_grid(i, j) && (#[trigger] at(b, i, j)) != Cell::ShipPart ==> at(b, i, j) == Cell::Empty
}

/// The full fleet stands on `b`, freshly placed: ten ships of the
/// required sizes, pairwise separated, and no cell shot at yet.
pub open spec fn fleet_placed(b: Seq<Cell>) -> bool {
    exists|ships: Seq<Ship>| ships.len() == 10 && partial_fleet(b, ships)
}

/// No ship of length `size` fits anywhere on `b`.
pub open spec fn no_fit(b: Seq<Cell>, size: int) -> bool {
    forall|s: Ship|
        ship_in_grid(s) && s.size == size ==> !#[trigger] clear_around(b, s)
}

/// Ship-part cells in row `j` among the first `n` columns.
pub open spec fn row_parts(b: Seq<Cell>, j: int, n: int) -> int
    decreases n,
{
    if n <= 0 {
        0
    } else {
        row_parts(b, j, n - 1) + if at(b, n - 1, j) == Cell::ShipPart {
            1int
        } else {
            0int
        }
    }
}

/// Ship-part cells in the first `m` rows.
pub open spec fn grid_parts(b: Seq<Cell>, m: int) -> int
    decreases m,
{
    if m <= 0 {
        0
    } else {
        grid_parts(b, m - 1) + row_parts(b, m - 1, 10)
    }
}

/// Cells of `s` in row `j` among the first `n` columns.
spec fn row_covered(s: Ship, j: int, n: int) -> int
    decreases n,
{
    if n <= 0 {
        0
    } else {
        row_covered(s, j, n - 1) + if covers(s, n - 1, j) {
            1int
        } else {
            0int
        }
    }
}

/// Cells of `s` in the first `m` rows.
spec fn grid_covered(s: Ship, m: int) -> int
    decreases m,
{
    if m <= 0 {
        0
    } else {
        grid_covered(s, m - 1) + row_covered(s, m - 1, 10)
    }
}

/// Total length of the first `n` fleet ships.
pub open spec fn fleet_total(n: int) -> int
    decreases n,
{
    if n <= 0 {
        0
    } else {
        fleet_total(n - 1) + fleet_sizes()[n - 1]
    }
}

proof fn lemma_row_covered(s: Ship, j: int, n: int)
    requires
        ship_in_grid(s),
        0 <= n <= 10,
    ensures
        row_covered(s, j, n) == (if s.horizontal {
            if j == s.y {
                if n <= s.x {
                    0int
                } else if n >= s.x + s.size {
                    s.size
                } else {
                    n - s.x
                }
            } else {
                0int
            }
        } else {
            if s.y <= j <= y_end(s) && s.x < n {
                1int
            } else {
                0int
            }
        }),
    decreases n,
{
    if n > 0 {
        lemma_row_covered(s, j, n - 1);
    }
}

proof fn lemma_grid_covered(s: Ship, m: int)
    requires
        ship_in_grid(s),
        0 <= m <= 10,
    ensures
        grid_covered(s, m) == (if s.horizontal {
            if m > s.y {
                s.size
            } else {
                0int
            }
        } else {
            if m <= s.y {
                0int
            } else if m >= s.y + s.size {
                s.size
            } else {
                m - s.y
            }
        }),
    decreases m,
{
    if m > 0 {
        lemma_grid_covered(s, m - 1);
        lemma_row_covered(s, m - 1, 10);
    }
}

proof fn lemma_row_parts_place(b: Seq<Cell>, b2: Seq<Cell>, s: Ship, j: int, n: int)
    requires
        ship_in_grid(s),
        0 <= j < 10,
        0 <= n <= 10,
        forall|i: int, jj: int|
            in_grid(i, jj) ==> #[trigger] at(b2, i, jj) == (if covers(s, i, jj) {
                Cell::ShipPart
            } else {
                at(b, i, jj)
            }),
        forall|i: int, jj: int|
            in_grid(i, jj) && covers(s, i, jj) ==> #[trigger] at(b, i, jj) != Cell::ShipPart,
    ensures
        row_parts(b2, j, n) == row_parts(b, j, n) + row_covered(s, j, n),
    decreases n,
{
    if n > 0 {
        lemma_row_parts_place(b, b2, s, j, n - 1);
    }
}

proof fn lemma_grid_parts_place(b: Seq<Cell>, b2: Seq<Cell>, s: Ship, m: int)
    requires
        ship_in_grid(s),
        0 <= m <= 10,
        forall|i: int, jj: int|
            in_grid(i, jj) ==> #[trigger] at(b2, i, jj) == (if covers(s, i, jj) {
                Cell::ShipPart
            } else {
                at(b, i, jj)
            }),
        forall|i: int, jj: int|
            in_grid(i, jj) && covers(s, i, jj) ==> #[trigger] at(b, i, jj) != Cell::ShipPart,
    ensures
        grid_parts(b2, m) == grid_parts(b, m) + grid_covered(s, m),
    decreases m,
{
    if m > 0 {
        lemma_grid_parts_place(b, b2, s, m - 1);
        lemma_row_parts_place(b, b2, s, m - 1, 10);
    }
}

proof fn lemma_row_parts_empty(b: Seq<Cell>, j: int, n: int)
    requires
        0 <= j < 10,
        0 <= n <= 10,
        forall|i: int, jj: int| in_grid(i, jj) ==> #[trigger] at(b, i, jj) == Cell::Empty,
    ensures
        row_parts(b, j, n) == 0,
    decreases n,
{
    if n > 0 {
        lemma_row_parts_empty(b, j, n - 1);
    }
}

proof fn lemma_grid_parts_empty(b: Seq<Cell>, m: int)
    requires
        0 <= m <= 10,
        forall|i: int, jj: int| in_grid(i, jj) ==> #[trigger] at(b, i, jj) == Cell::Empty,
    ensures
        grid_parts(b, m) == 0,
    decreases m,
{
    if m > 0 {
        lemma_grid_parts_empty(b, m - 1);
        lemma_row_parts_empty(b, m - 1, 10);
    }
}

/// The ship parts of a partial fleet fill exactly the total length
/// of its ships: each ship contributes its size, nothing overlaps.
pub proof fn lemma_fleet_cells(b: Seq<Cell>, ships: Seq<Ship>)
    requires
        b.len() == 100,
        partial_fleet(b, ships),
    ensures
        grid_parts(b, 10) == fleet_total(ships.len() as int),
    decreases ships.len(),
{
    let n = ships.len() as int;
    if n == 0 {
        assert forall|i: int, j: int| in_grid(i, j) implies #[trigger] at(b, i, j)
            == Cell::Empty by {
            if at(b, i, j) == Cell::ShipPart {
                let k = choose|k: int| 0 <= k < 0 && covers(#[trigger] ships[k], i, j);
            }
        }
        lemma_grid_parts_empty(b, 10);
    } else {
        let s = ships[n - 1];
        let rest = ships.drop_last();
        let b2 = Seq::new(100, |m: int| if covers(s, m % 10, m / 10) {
            Cell::Empty
        } else {
            b[m]
        });
        assert forall|i: int, j: int| in_grid(i, j) implies #[trigger] at(b2, i, j) == (if covers(
            s,
            i,
            j,
        ) {
            Cell::Empty
        } else {
            at(b, i, j)
        }) by {
            assert(0 <= idx(i, j) < 100);
            assert((idx(i, j)) % 10 == i && (idx(i, j)) / 10 == j);
        }
        assert(ship_in_grid(s));
        assert forall|i: int, j: int| covers(s, i, j) implies in_grid(i, j) && at(b, i, j)
            == Cell::ShipPart by {
            assert(0 <= n - 1 < ships.len() && covers(ships[n - 1], i, j));
        }
        assert forall|k: int| 0 <= k < n - 1 implies rest[k] == ships[k] by {}
        // removing the last ship leaves a valid shorter fleet
        assert forall|i: int, j: int| in_grid(i, j) implies ((#[trigger] at(b2, i, j))
            == Cell::ShipPart <==> exists|k: int|
            0 <= k < rest.len() && covers(#[trigger] rest[k], i, j)) by {
            if at(b2, i, j) == Cell::ShipPart {
                assert(!covers(s, i, j));
                assert(at(b, i, j) == Cell::ShipPart);
                let k = choose|k: int| 0 <= k < ships.len() && covers(#[trigger] ships[k], i, j);
                assert(k != n - 1);
                assert(covers(rest[k], i, j));
            } else {
                if exists|k: int| 0 <= k < rest.len() && covers(#[trigger] rest[k], i, j) {
                    let k = choose|k: int| 0 <= k < rest.len() && covers(#[trigger] rest[k], i, j);
                    assert(covers(ships[k], i, j));
                    assert(at(b, i, j) == Cell::ShipPart);
                    assert(ships_apart(ships[k], s));
                    assert(!covers(s, i, j));
                    assert(at(b2, i, j) == Cell::ShipPart);
                }
            }
        }
        assert(partial_fleet(b2, rest));
        lemma_fleet_cells(b2, rest);
        lemma_grid_parts_place(b2, b, s, 10);
        lemma_grid_covered(s, 10);
    }
}

/// Exactly twenty cells of a board with a fully placed fleet carry
/// ship parts: the ship lengths 4, 3, 3, 2, 2, 2, 1, 1, 1 and 1 sum
/// to twenty and never overlap.
pub proof fn lemma_fleet_placed_twenty(b: Seq<Cell>)
    requires
        b.len() == 100,
        fleet_placed(b),
    ensures
        grid_parts(b, 10) == 20,
{
    let ships = choose|ships: Seq<Ship>| ships.len() == 10 && partial_fleet(b, ships);
    lemma_fleet_cells(b, ships);
    assert(fleet_total(10) == 20) by {
        reveal_with_fuel(fleet_total, 11);
    }
}

/// Committing a validated ship extends a partial fleet by one.
proof fn lemma_fleet_extend(b: Seq<Cell>, b2: Seq<Cell>, ships: Seq<Ship>, s: Ship)
    requires
        partial_fleet(b, ships),
        ships.len() < 10,
        s.size == fleet_sizes()[ships.len() as int],
        can_place_spec(b, s),
        forall|i: int, j: int|
            in_grid(i, j) ==> #[trigger] at(b2, i, j) == (if covers(s, i, j) {
                Cell::ShipPart
            } else {
                at(b, i, j)
            }),
    ensures
        partial_fleet(b2, ships.push(s)),
{
    let ships2 = ships.push(s);
    assert(ships2[ships.len() as int] == s);
    assert forall|k: int| 0 <= k < ships.len() implies ships2[k] == ships[k] by {}
    // cells covered by an in-grid ship are in-grid, and carry a ship
    // part on b when the ship is already placed
    assert forall|k: int, i: int, j: int|
        #![trigger covers(ships[k], i, j)]
        0 <= k < ships.len() && covers(ships[k], i, j) implies in_grid(i, j) && at(
        b,
        i,
        j,
    ) == Cell::ShipPart by {
        assert(ship_in_grid(ships[k]));
    }
    // the new ship stays clear of every already placed one
    assert forall|k: int| 0 <= k < ships.len() implies ships_apart(s, ships[k]) && ships_apart(
        ships[k],
        s,
    ) by {
        let t = ships[k];
        assert forall|i: int, j: int, i2: int, j2: int|
            #[trigger] covers(s, i, j) && #[trigger] covers(t, i2, j2) implies i2 - i > 1 || i - i2
            > 1 || j2 - j > 1 || j - j2 > 1 by {
            assert(in_grid(i2, j2) && at(b, i2, j2) == Cell::ShipPart);
            if !(i2 - i > 1 || i - i2 > 1 || j2 - j > 1 || j - j2 > 1) {
                assert(near_ship(s, i2, j2));
                assert(at(b, i2, j2) != Cell::ShipPart);
            }
        }
        assert forall|i: int, j: int, i2: int, j2: int|
            #[trigger] covers(t, i, j) && #[trigger] covers(s, i2, j2) implies i2 - i > 1 || i - i2
            > 1 || j2 - j > 1 || j - j2 > 1 by {
            assert(in_grid(i, j) && at(b, i, j) == Cell::ShipPart);
            if !(i2 - i > 1 || i - i2 > 1 || j2 - j > 1 || j - j2 > 1) {
                assert(near_ship(s, i, j));
                assert(at(b, i, j) != Cell::ShipPart);
            }
        }
    }
    // the ship parts of b2 are exactly the cells covered by ships2
    assert forall|i: int, j: int| in_grid(i, j) implies ((#[trigger] at(b2, i, j))
        == Cell::ShipPart <==> exists|k: int| 0 <= k < ships2.len() && covers(
        #[trigger] ships2[k],
        i,
        j,
    )) by {
        if covers(s, i, j) {
            assert(covers(ships2[ships.len() as int], i, j));
        } else {
            assert(at(b2, i, j) == at(b, i, j));
            if at(b2, i, j) == Cell::ShipPart {
                let k = choose|k: int| 0 <= k < ships.len() && covers(#[trigger] ships[k], i, j);
                assert(covers(ships2[k], i, j));
            } else {
                if exists|k: int| 0 <= k < ships2.len() && covers(#[trigger] ships2[k], i, j) {
                    let k = choose|k: int|
                        0 <= k < ships2.len() && covers(#[trigger] ships2[k], i, j);
                    assert(k < ships.len());
                    assert(covers(ships[k], i, j));
                    assert(at(b, i, j) == Cell::ShipPart);
                }
            }
        }
    }
}

/// Validates a placement: the span must lie within the grid, and every
/// cell of the one-cell-expanded bounding box around it (clipped to the
/// grid) must be free of ship parts.
#[verifier::loop_isolation(false)]
pub fn can_place_ship(board: &Board, x: usize, y: usize, size: usize, horizontal: bool) -> (r:
    bool)
    requires
        board.wf(),
        x < 10,
        y < 10,
        1 <= size <= 10,
    ensures
        r == can_place_spec(board@, ship_of(x as int, y as int, size as int, horizontal)),
{
    let ghost s = ship_of(x as int, y as int, size as int, horizontal);
    let (xe, ye): (usize, usize) = if horizontal {
        (x + size - 1, y)
    } else {
        (x, y + size - 1)
    };
    if xe >= 10 || ye >= 10 {
        return false;
    }
    let i0: usize = if x > 0 {
        x - 1
    } else {
        0
    };
    let j0: usize = if y > 0 {
        y - 1
    } else {
        0
    };
    let i1: usize = if xe < 9 {
        xe + 1
    } else {
        9
    };
    let j1: usize = if ye < 9 {
        ye + 1
    } else {
        9
    };
    let mut i: usize = i0;
    while i <= i1
        invariant
            board.wf(),
            i0 <= i,
            i1 < 10,
            j0 <= j1 < 10,
            forall|a: int, b: int|
                i0 <= a < i && j0 <= b <= j1 ==> #[trigger] at(board@, a, b) != Cell::ShipPart,
        decreases i1 + 1 - i,
    {
        let mut j: usize = j0;
        while j <= j1
            invariant
                board.wf(),
                i0 <= i <= i1 < 10,
                j0 <= j,
                j1 < 10,
                forall|a: int, b: int|
                    i0 <= a < i && j0 <= b <= j1 ==> #[trigger] at(board@, a, b)
                        != Cell::ShipPart,
                forall|b: int|
                    j0 <= b < j ==> #[trigger] at(board@, i as int, b) != Cell::ShipPart,
            decreases j1 + 1 - j,
        {
            if board.get(i, j) == Cell::ShipPart {
                return false;
            }
            j = j + 1;
        }
        i = i + 1;
    }
    true
}

/// Commits a ship to the board: every cell of its span becomes
/// `ShipPart`; all other cells keep their state.
#[verifier::loop_isolation(false)]
pub fn place_ship(board: &mut Board, x: usize, y: usize, size: usize, horizontal: bool)
    requires
        old(board).wf(),
        x < 10,
        y < 10,
        1 <= size <= 10,
        ship_in_grid(ship_of(x as int, y as int, size as int, horizontal)),
    ensures
        final(board).wf(),
        forall|i: int, j: int|
            in_grid(i, j) ==> #[trigger] at(final(board)@, i, j) == (if covers(
                ship_of(x as int, y as int, size as int, horizontal),
                i,
                j,
            ) {
                Cell::ShipPart
            } else {
                at(old(board)@, i, j)
            }),
{
    let ghost s = ship_of(x as int, y as int, size as int, horizontal);
    if horizontal {
        let mut k: usize = 0;
        while k < size
            invariant
                board.wf(),
                x < 10,
                y < 10,
                1 <= size <= 10,
                k <= size,
                s == ship_of(x as int, y as int, size as int, true),
                ship_in_grid(s),
                forall|i: int, j: int|
                    in_grid(i, j) ==> #[trigger] at(board@, i, j) == (if s.y == j && s.x <= i
                        < s.x + k {
                        Cell::ShipPart
                    } else {
                        at(old(board)@, i, j)
                    }),
            decreases size - k,
        {
            let ghost bpre = board@;
            board.set(x + k, y, Cell::ShipPart);
            proof {
                assert forall|i: int, j: int| in_grid(i, j) implies #[trigger] at(board@, i, j)
                    == (if s.y == j && s.x <= i < s.x + (k + 1) {
                    Cell::ShipPart
                } else {
                    at(old(board)@, i, j)
                }) by {
                    if !(i == x + k && j == y) {
                        assert(idx(i, j) != idx(x as int + k, y as int));
                        assert(at(board@, i, j) == at(bpre, i, j));
                        assert(at(bpre, i, j) == (if s.y == j && s.x <= i < s.x + k {
                            Cell::ShipPart
                        } else {
                            at(old(board)@, i, j)
                        }));
                    }
                }
            }
            k = k + 1;
        }
    } else {
        let mut k: usize = 0;
        while k < size
            invariant
                board.wf(),
                x < 10,
                y < 10,
                1 <= size <= 10,
                k <= size,
                s == ship_of(x as int, y as int, size as int, false),
                ship_in_grid(s),
                forall|i: int, j: int|
                    in_grid(i, j) ==> #[trigger] at(board@, i, j) == (if s.x == i && s.y <= j
                        < s.y + k {
                        Cell::ShipPart
                    } else {
                        at(old(board)@, i, j)
                    }),
            decreases size - k,
        {
            let ghost bpre = board@;
            board.set(x, y + k, Cell::ShipPart);
            proof {
                assert forall|i: int, j: int| in_grid(i, j) implies #[trigger] at(board@, i, j)
                    == (if s.x == i && s.y <= j < s.y + (k + 1) {
                    Cell::ShipPart
                } else {
                    at(old(board)@, i, j)
                }) by {
                    if !(i == x && j == y + k) {
                        assert(idx(i, j) != idx(x as int, y as int + k));
                        assert(at(board@, i, j) == at(bpre, i, j));
                        assert(at(bpre, i, j) == (if s.x == i && s.y <= j < s.y + k {
                            Cell::ShipPart
                        } else {
                            at(old(board)@, i, j)
                        }));
                    }
                }
            }
            k = k + 1;
        }
    }
}

/// Draws random origins and orientations until one passes validation,
/// giving up after `attempts` rejected draws. On success the board
/// gained exactly one validated ship of length `size`.
#[verifier::loop_isolation(false)]
fn try_random_place(board: &mut Board, size: usize, attempts: usize) -> (r: bool)
    requires
        old(board).wf(),
        1 <= size <= 10,
    ensures
        final(board).wf(),
        r ==> exists|s: Ship|
            #[trigger] can_place_spec(old(board)@, s) && s.size == size && (forall|i: int, j: int|
                in_grid(i, j) ==> #[trigger] at(final(board)@, i, j) == (if covers(s, i, j) {
                    Cell::ShipPart
                } else {
                    at(old(board)@, i, j)
                })),
        !r ==> final(board)@ == old(board)@,
{
    let mut t: usize = 0;
    while t < attempts
        invariant
            board.wf(),
            board@ == old(board)@,
        decreases attempts - t,
    {
        let horizontal = crate::rng::random_coin();
        let x = crate::rng::random_below(10);
        let y = crate::rng::random_below(10);
        if can_place_ship(board, x, y, size, horizontal) {
            let ghost s = ship_of(x as int, y as int, size as int, horizontal);
            place_ship(board, x, y, size, horizontal);
            assert(can_place_spec(old(board)@, s));
            return true;
        }
        t = t + 1;
    }
    false
}

/// Scans every origin and orientation in a fixed order and commits
/// the first placement that passes validation; fails only when no
/// ship of length `size` fits anywhere on the board.
#[verifier::loop_isolation(false)]
fn place_first_fit(board: &mut Board, size: usize) -> (r: bool)
    requires
        old(board).wf(),
        1 <= size <= 10,
    ensures
        final(board).wf(),
        r ==> exists|s: Ship|
            #[trigger] can_place_spec(old(board)@, s) && s.size == size && (forall|i: int, j: int|
                in_grid(i, j) ==> #[trigger] at(final(board)@, i, j) == (if covers(s, i, j) {
                    Cell::ShipPart
                } else {
                    at(old(board)@, i, j)
                })),
        !r ==> final(board)@ == old(board)@ && no_fit(old(board)@, size as int),
{
    let mut ori: usize = 0;
    while ori < 2
        invariant
            board.wf(),
            board@ == old(board)@,
            ori <= 2,
            forall|s: Ship|
                ship_in_grid(s) && s.size == size && (s.horizontal ==> ori >= 1) && (!s.horizontal
                    ==> ori >= 2) ==> !#[trigger] clear_around(board@, s),
        decreases 2 - ori,
    {
        let horizontal = ori == 0;
        let mut y: usize = 0;
        while y < 10
            invariant
                board.wf(),
                board@ == old(board)@,
                y <= 10,
                forall|s: Ship|
                    ship_in_grid(s) && s.size == size && (s.horizontal ==> ori >= 1) && (
                    !s.horizontal ==> ori >= 2) ==> !#[trigger] clear_around(board@, s),
                forall|s: Ship|
                    ship_in_grid(s) && s.size == size && s.horizontal == horizontal && s.y < y
                        ==> !#[trigger] clear_around(board@, s),
            decreases 10 - y,
        {
            let mut x: usize = 0;
            while x < 10
                invariant
                    board.wf(),
                    board@ == old(board)@,
                    x <= 10,
                    y < 10,
                    forall|s: Ship|
                        ship_in_grid(s) && s.size == size && (s.horizontal ==> ori >= 1) && (
                        !s.horizontal ==> ori >= 2) ==> !#[trigger] clear_around(board@, s),
                    forall|s: Ship|
                        ship_in_grid(s) && s.size == size && s.horizontal == horizontal && s.y
                            < y ==> !#[trigger] clear_around(board@, s),
                    forall|s: Ship|
                        ship_in_grid(s) && s.size == size && s.horizontal == horizontal && s.y
                            == y && s.x < x ==> !#[trigger] clear_around(board@, s),
                decreases 10 - x,
            {
                if can_place_ship(board, x, y, size, horizontal) {
                    let ghost s = ship_of(x as int, y as int, size as int, horizontal);
                    place_ship(board, x, y, size, horizontal);
                    assert(can_place_spec(old(board)@, s));
                    return true;
                }
                proof {
                    assert forall|s: Ship|
                        ship_in_grid(s) && s.size == size && s.horizontal == horizontal && s.y
                            == y && s.x < x + 1 implies !#[trigger] clear_around(board@, s) by {
                        if s.x == x {
                            assert(s == ship_of(x as int, y as int, size as int, horizontal));
                        }
                    }
                }
                x = x + 1;
            }
            y = y + 1;
        }
        ori = ori + 1;
    }
    false
}

/// Clears the board and places the whole fleet, each ship at a
/// random spot when one is found quickly and otherwise at the first
/// spot that fits. Fails only when, with the ships committed so far
/// standing, no spot on the board fits the next ship; the partial
/// fleet is left on the board in that case.
pub fn setup_board(board: &mut Board) -> (r: bool)
    requires
        old(board).wf(),
    ensures
        final(board).wf(),
        r ==> fleet_placed(final(board)@),
        r ==> grid_parts(final(board)@, 10) == 20,
        !r ==> exists|ships: Seq<Ship>|
            ships.len() < 10 && #[trigger] partial_fleet(final(board)@, ships) && no_fit(
                final(board)@,
                fleet_sizes()[ships.len() as int],
            ),
{
    let fresh = Board::new();
    *board = fresh;
    let sizes: Vec<usize> = vec![4, 3, 3, 2, 2, 2, 1, 1, 1, 1];
    let ghost mut ships: Seq<Ship> = Seq::empty();
    proof {
        assert forall|i: int, j: int| in_grid(i, j) implies ((#[trigger] at(board@, i, j))
            == Cell::ShipPart <==> exists|k: int|
            0 <= k < ships.len() && covers(#[trigger] ships[k], i, j)) by {
            assert(at(board@, i, j) == Cell::Empty);
        }
        assert(partial_fleet(board@, ships));
    }
    let mut n: usize = 0;
    while n < 10
        invariant
            board.wf(),
            n <= 10,
            ships.len() == n,
            partial_fleet(board@, ships),
            sizes@.len() == 10,
            forall|k: int| 0 <= k < 10 ==> #[trigger] sizes@[k] as int == fleet_sizes()[k],
        decreases 10 - n,
    {
        let size = sizes[n];
        assert(1 <= size <= 10);
        let ghost b0 = board@;
        let mut placed = try_random_place(board, size, 100);
        if !placed {
            placed = place_first_fit(board, size);
        }
        if !placed {
            assert(board@ == b0);
            assert(no_fit(board@, fleet_sizes()[ships.len() as int]));
            return false;
        }
        proof {
            let s = choose|s: Ship|
                #[trigger] can_place_spec(b0, s) && s.size == size && (forall|i: int, j: int|
                    in_grid(i, j) ==> #[trigger] at(board@, i, j) == (if covers(s, i, j) {
                        Cell::ShipPart
                    } else {
                        at(b0, i, j)
                    }));
            lemma_fleet_extend(b0, board@, ships, s);
            ships = ships.push(s);
        }
        n = n + 1;
    }
    assert(fleet_placed(board@));
    proof {
        lemma_fleet_placed_twenty(board@);
    }
    true
}

} // verus!
