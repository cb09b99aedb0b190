//! Sunk detection: a flood fill over the 4-connected neighbourhood of
//! a just-hit cell. A ship is sunk exactly when no chain of `Hit`
//! cells starting there leads to a cell that is still `ShipPart`.
//! That reading is faithful only because placement keeps distinct
//! ships a full cell apart, so the fill can never leak into another
//! ship.

use crate::board::{at, covers, idx, in_grid, ship_in_grid, Board, Cell, Ship};
use vstd::prelude::*;

verus! {

/// `(ax, ay)` and `(bx, by)` share an edge (north, east, south or
/// west neighbours).
pub open spec fn adjacent4(ax: int, ay: int, bx: int, by: int) -> bool {
    (ax == bx && (ay == by + 1 || ay == by - 1)) || (ay == by && (ax == bx + 1 || ax == bx - 1))
}

/// `path` walks the grid one 4-connected step at a time, and every
/// position before the last one is a `Hit` cell.
pub open spec fn hit_path(b: Seq<Cell>, path: Seq<(int, int)>) -> bool {
    &&& path.len() >= 1
    &&& forall|k: int| 0 <= k < path.len() ==> in_grid((#[trigger] path[k]).0, path[k].1)
    &&& forall|k: int|
        0 <= k < path.len() - 1 ==> adjacent4(
            (#[trigger] path[k]).0,
            path[k].1,
            path[k + 1].0,
            path[k + 1].1,
        )
    &&& forall|k: int|
        0 <= k < path.len() - 1 ==> at(b, (#[trigger] path[k]).0, path[k].1) == Cell::Hit
}

/// A chain of `Hit` cells starting at `(x, y)` ends at `(i, j)`.
pub open spec fn reach(b: Seq<Cell>, x: int, y: int, i: int, j: int) -> bool {
    exists|path: Seq<(int, int)>|
        hit_path(b, path) && path.first() == (x, y) && path.last() == (i, j)
}

/// Some chain of `Hit` cells starting at `(x, y)` ends on a cell that
/// is still `ShipPart`: the ship under `(x, y)` has an unhit part
/// left.
pub open spec fn reaches_ship(b: Seq<Cell>, x: int, y: int) -> bool {
    exists|i: int, j: int| #[trigger] reach(b, x, y, i, j) && at(b, i, j) == Cell::ShipPart
}

/// Number of `false` entries among the first `n` of `v`.
spec fn unvisited(v: Seq<bool>, n: int) -> int
    decreases n,
{
    if n <= 0 {
        0
    } else {
        unvisited(v, n - 1) + if v[n - 1] {
            0int
        } else {
            1int
        }
    }
}

proof fn lemma_unvisited_nonneg(v: Seq<bool>, n: int)
    ensures
        unvisited(v, n) >= 0,
    decreases n,
{
    if n > 0 {
        lemma_unvisited_nonneg(v, n - 1);
    }
}

proof fn lemma_unvisited_agree(v: Seq<bool>, w: Seq<bool>, n: int)
    requires
        forall|k: int| 0 <= k < n ==> v[k] == w[k],
    ensures
        unvisited(v, n) == unvisited(w, n),
    decreases n,
{
    if n > 0 {
        lemma_unvisited_agree(v, w, n - 1);
    }
}

proof fn lemma_unvisited_update(v: Seq<bool>, i: int, n: int)
    requires
        0 <= i < n <= v.len(),
        !v[i],
    ensures
        unvisited(v.update(i, true), n) == unvisited(v, n) - 1,
    decreases n,
{
    if i == n - 1 {
        lemma_unvisited_agree(v.update(i, true), v, n - 1);
    } else {
        lemma_unvisited_update(v, i, n - 1);
    }
}

/// Position `(i, j)` occurs in the stack.
spec fn in_stack(st: Seq<(usize, usize)>, i: int, j: int) -> bool {
    exists|k: int| 0 <= k < st.len() && (#[trigger] st[k]).0 == i && st[k].1 == j
}

/// Every stack entry lies in the grid and is reachable from the
/// starting cell by a chain of `Hit` cells.
#[verifier::opaque]
spec fn stack_ok(b: Seq<Cell>, x: int, y: int, st: Seq<(usize, usize)>) -> bool {
    forall|k: int|
        0 <= k < st.len() ==> (#[trigger] st[k]).0 < 10 && st[k].1 < 10 && reach(
            b,
            x,
            y,
            st[k].0 as int,
            st[k].1 as int,
        )
}

/// No visited cell is still `ShipPart`.
#[verifier::opaque]
spec fn no_ship_visited(b: Seq<Cell>, v: Seq<bool>) -> bool {
    forall|i: int, j: int|
        in_grid(i, j) && v[#[trigger] idx(i, j)] ==> at(b, i, j) != Cell::ShipPart
}

/// Every in-grid neighbour of a visited `Hit` cell has been visited or
/// still waits on the stack.
#[verifier::opaque]
spec fn closure_ok(b: Seq<Cell>, v: Seq<bool>, st: Seq<(usize, usize)>) -> bool {
    forall|i: int, j: int, i2: int, j2: int|
        #![trigger idx(i, j), idx(i2, j2)]
        in_grid(i, j) && in_grid(i2, j2) && adjacent4(i, j, i2, j2) && v[idx(i, j)] && at(b, i, j)
            == Cell::Hit ==> v[idx(i2, j2)] || in_stack(st, i2, j2)
}

proof fn lemma_fill_start(b: Seq<Cell>, x: usize, y: usize, v: Seq<bool>, st: Seq<(usize, usize)>)
    requires
        x < 10,
        y < 10,
        v.len() == 100,
        forall|k: int| 0 <= k < 100 ==> !(#[trigger] v[k]),
        st.len() == 1,
        st[0] == (x, y),
    ensures
        stack_ok(b, x as int, y as int, st),
        no_ship_visited(b, v),
        closure_ok(b, v, st),
{
    reveal(stack_ok);
    reveal(no_ship_visited);
    reveal(closure_ok);
    let start_path: Seq<(int, int)> = seq![(x as int, y as int)];
    assert(start_path.first() == (x as int, y as int));
    assert(start_path.last() == (x as int, y as int));
    assert(hit_path(b, start_path));
    assert(reach(b, x as int, y as int, x as int, y as int));
    assert forall|i: int, j: int| in_grid(i, j) implies !v[idx(i, j)] by {
        assert(0 <= idx(i, j) < 100);
    }
}

proof fn lemma_stack_last(b: Seq<Cell>, x: int, y: int, st: Seq<(usize, usize)>)
    requires
        stack_ok(b, x, y, st),
        st.len() > 0,
    ensures
        st.last().0 < 10,
        st.last().1 < 10,
        reach(b, x, y, st.last().0 as int, st.last().1 as int),
        stack_ok(b, x, y, st.drop_last()),
{
    reveal(stack_ok);
    assert forall|k: int| 0 <= k < st.drop_last().len() implies (#[trigger] st.drop_last()[k]).0
        < 10 && st.drop_last()[k].1 < 10 && reach(
        b,
        x,
        y,
        st.drop_last()[k].0 as int,
        st.drop_last()[k].1 as int,
    ) by {
        assert(st.drop_last()[k] == st[k]);
    }
}

proof fn lemma_stack_push(
    b: Seq<Cell>,
    x: int,
    y: int,
    st: Seq<(usize, usize)>,
    nx: usize,
    ny: usize,
)
    requires
        stack_ok(b, x, y, st),
        nx < 10,
        ny < 10,
        reach(b, x, y, nx as int, ny as int),
    ensures
        stack_ok(b, x, y, st.push((nx, ny))),
{
    reveal(stack_ok);
    let st2 = st.push((nx, ny));
    assert forall|k: int| 0 <= k < st2.len() implies (#[trigger] st2[k]).0 < 10 && st2[k].1 < 10
        && reach(b, x, y, st2[k].0 as int, st2[k].1 as int) by {
        if k < st.len() {
            assert(st2[k] == st[k]);
        } else {
            assert(st2[k] == (nx, ny));
        }
    }
}

/// One more step from a reachable `Hit` cell reaches its neighbour.
proof fn lemma_reach_step(b: Seq<Cell>, x: int, y: int, cx: int, cy: int, nx: int, ny: int)
    requires
        reach(b, x, y, cx, cy),
        in_grid(cx, cy),
        in_grid(nx, ny),
        adjacent4(cx, cy, nx, ny),
        at(b, cx, cy) == Cell::Hit,
    ensures
        reach(b, x, y, nx, ny),
{
    let path = choose|path: Seq<(int, int)>|
        hit_path(b, path) && path.first() == (x, y) && path.last() == (cx, cy);
    let q = path.push((nx, ny));
    assert forall|k: int| 0 <= k < q.len() implies in_grid((#[trigger] q[k]).0, q[k].1) by {
        if k < path.len() {
            assert(q[k] == path[k]);
        }
    }
    assert forall|k: int| 0 <= k < q.len() - 1 implies adjacent4(
        (#[trigger] q[k]).0,
        q[k].1,
        q[k + 1].0,
        q[k + 1].1,
    ) by {
        assert(q[k] == path[k]);
        if k < path.len() - 1 {
            assert(q[k + 1] == path[k + 1]);
        } else {
            assert(q[k + 1] == (nx, ny));
            assert(path[k] == (cx, cy));
        }
    }
    assert forall|k: int| 0 <= k < q.len() - 1 implies at(b, (#[trigger] q[k]).0, q[k].1)
        == Cell::Hit by {
        assert(q[k] == path[k]);
        if k == path.len() - 1 {
            assert(path[k] == (cx, cy));
        }
    }
    assert(hit_path(b, q));
    assert(q.first() == (x, y));
    assert(q.last() == (nx, ny));
}

/// Dropping an already-visited top of the stack keeps the closure.
proof fn lemma_closure_pop_visited(
    b: Seq<Cell>,
    v: Seq<bool>,
    st: Seq<(usize, usize)>,
    cx: usize,
    cy: usize,
)
    requires
        v.len() == 100,
        cx < 10,
        cy < 10,
        closure_ok(b, v, st),
        st.len() > 0,
        st.last() == (cx, cy),
        v[idx(cx as int, cy as int)],
    ensures
        closure_ok(b, v, st.drop_last()),
{
    reveal(closure_ok);
    let st2 = st.drop_last();
    assert forall|i: int, j: int, i2: int, j2: int|
        #![trigger idx(i, j), idx(i2, j2)]
        in_grid(i, j) && in_grid(i2, j2) && adjacent4(i, j, i2, j2) && v[idx(i, j)] && at(b, i, j)
            == Cell::Hit implies v[idx(i2, j2)] || in_stack(st2, i2, j2) by {
        if !v[idx(i2, j2)] {
            assert(in_stack(st, i2, j2));
            let k = choose|k: int|
                0 <= k < st.len() && (#[trigger] st[k]).0 == i2 && st[k].1 == j2;
            if k < st.len() - 1 {
                assert(st2[k] == st[k]);
                assert(in_stack(st2, i2, j2));
            } else {
                assert(i2 == cx as int && j2 == cy as int);
                assert(v[idx(i2, j2)]);
            }
        }
    }
}

/// Marking the popped cell as visited keeps the closure, as long as
/// either the cell is not `Hit` or all its in-grid neighbours are on
/// the new stack.
proof fn lemma_closure_mark(
    b: Seq<Cell>,
    v: Seq<bool>,
    st: Seq<(usize, usize)>,
    st2: Seq<(usize, usize)>,
    cx: usize,
    cy: usize,
)
    requires
        v.len() == 100,
        cx < 10,
        cy < 10,
        closure_ok(b, v, st),
        st.len() > 0,
        st.last() == (cx, cy),
        st2.len() >= st.len() - 1,
        forall|k: int| 0 <= k < st.len() - 1 ==> st2[k] == st[k],
        at(b, cx as int, cy as int) == Cell::Hit ==> forall|i2: int, j2: int|
            in_grid(i2, j2) && adjacent4(cx as int, cy as int, i2, j2) ==> in_stack(st2, i2, j2),
    ensures
        closure_ok(b, v.update(idx(cx as int, cy as int), true), st2),
{
    reveal(closure_ok);
    let v2 = v.update(idx(cx as int, cy as int), true);
    assert forall|i: int, j: int, i2: int, j2: int|
        #![trigger idx(i, j), idx(i2, j2)]
        in_grid(i, j) && in_grid(i2, j2) && adjacent4(i, j, i2, j2) && v2[idx(i, j)] && at(b, i, j)
            == Cell::Hit implies v2[idx(i2, j2)] || in_stack(st2, i2, j2) by {
        if i == cx as int && j == cy as int {
            assert(in_stack(st2, i2, j2));
        } else {
            assert(idx(i, j) != idx(cx as int, cy as int));
            assert(v[idx(i, j)]);
            if !v[idx(i2, j2)] {
                assert(in_stack(st, i2, j2));
                let k = choose|k: int|
                    0 <= k < st.len() && (#[trigger] st[k]).0 == i2 && st[k].1 == j2;
                if k < st.len() - 1 {
                    assert(st2[k] == st[k]);
                    assert(in_stack(st2, i2, j2));
                } else {
                    assert(i2 == cx as int && j2 == cy as int);
                    assert(v2[idx(i2, j2)]);
                }
            } else {
                assert(idx(i2, j2) < 100);
                assert(v2[idx(i2, j2)]);
            }
        }
    }
}

/// Marking a cell that is not a ship part keeps the visited set free
/// of ship parts.
proof fn lemma_no_ship_mark(b: Seq<Cell>, v: Seq<bool>, cx: usize, cy: usize)
    requires
        v.len() == 100,
        cx < 10,
        cy < 10,
        no_ship_visited(b, v),
        at(b, cx as int, cy as int) != Cell::ShipPart,
    ensures
        no_ship_visited(b, v.update(idx(cx as int, cy as int), true)),
{
    reveal(no_ship_visited);
    let v2 = v.update(idx(cx as int, cy as int), true);
    assert forall|i: int, j: int| in_grid(i, j) && v2[idx(i, j)] implies at(b, i, j)
        != Cell::ShipPart by {
        if !(i == cx as int && j == cy as int) {
            assert(idx(i, j) != idx(cx as int, cy as int));
            assert(v[idx(i, j)]);
        }
    }
}

/// Every cell a chain of `Hit` cells can step to from a visited cell
/// has itself been visited, once the stack has drained.
proof fn lemma_no_escape(b: Seq<Cell>, v: Seq<bool>, path: Seq<(int, int)>)
    requires
        v.len() == 100,
        hit_path(b, path),
        v[idx(path.first().0, path.first().1)],
        closure_ok(b, v, Seq::<(usize, usize)>::empty()),
    ensures
        v[idx(path.last().0, path.last().1)],
    decreases path.len(),
{
    reveal(closure_ok);
    if path.len() > 1 {
        let rest = path.subrange(1, path.len() as int);
        assert(at(b, path[0].0, path[0].1) == Cell::Hit);
        assert(adjacent4(path[0].0, path[0].1, path[1].0, path[1].1));
        assert(v[idx(path[1].0, path[1].1)] || in_stack(
            Seq::<(usize, usize)>::empty(),
            path[1].0,
            path[1].1,
        ));
        assert(v[idx(path[1].0, path[1].1)]);
        assert(hit_path(b, rest)) by {
            assert forall|k: int| 0 <= k < rest.len() implies in_grid(
                (#[trigger] rest[k]).0,
                rest[k].1,
            ) by {
                assert(rest[k] == path[k + 1]);
            }
            assert forall|k: int| 0 <= k < rest.len() - 1 implies adjacent4(
                (#[trigger] rest[k]).0,
                rest[k].1,
                rest[k + 1].0,
                rest[k + 1].1,
            ) by {
                assert(rest[k] == path[k + 1]);
                assert(rest[k + 1] == path[k + 2]);
            }
            assert forall|k: int| 0 <= k < rest.len() - 1 implies at(
                b,
                (#[trigger] rest[k]).0,
                rest[k].1,
            ) == Cell::Hit by {
                assert(rest[k] == path[k + 1]);
            }
        }
        assert(rest.first() == path[1]);
        assert(rest.last() == path.last());
        lemma_no_escape(b, v, rest);
    }
}

/// After the fill drained the stack without meeting a ship part,
/// nothing reachable from the start is still a ship part.
proof fn lemma_fill_complete(b: Seq<Cell>, v: Seq<bool>, x: int, y: int)
    requires
        v.len() == 100,
        in_grid(x, y),
        v[idx(x, y)],
        no_ship_visited(b, v),
        closure_ok(b, v, Seq::<(usize, usize)>::empty()),
    ensures
        !reaches_ship(b, x, y),
{
    assert forall|i: int, j: int| #[trigger] reach(b, x, y, i, j) implies at(b, i, j)
        != Cell::ShipPart by {
        let path = choose|path: Seq<(int, int)>|
            hit_path(b, path) && path.first() == (x, y) && path.last() == (i, j);
        lemma_no_escape(b, v, path);
        assert(in_grid(i, j));
        reveal(no_ship_visited);
    }
}

/// Column of the `k`-th cell of `s`.
spec fn cell_x(s: Ship, k: int) -> int {
    if s.horizontal {
        s.x + k
    } else {
        s.x
    }
}

/// Row of the `k`-th cell of `s`.
spec fn cell_y(s: Ship, k: int) -> int {
    if s.horizontal {
        s.y
    } else {
        s.y + k
    }
}

/// A chain may be extended backwards through one more `Hit` cell.
proof fn lemma_reach_prepend(b: Seq<Cell>, x: int, y: int, x2: int, y2: int, i: int, j: int)
    requires
        reach(b, x2, y2, i, j),
        in_grid(x, y),
        in_grid(x2, y2),
        adjacent4(x, y, x2, y2),
        at(b, x, y) == Cell::Hit,
    ensures
        reach(b, x, y, i, j),
{
    let path = choose|path: Seq<(int, int)>|
        hit_path(b, path) && path.first() == (x2, y2) && path.last() == (i, j);
    let q = seq![(x, y)] + path;
    assert forall|k: int| 0 <= k < q.len() implies in_grid((#[trigger] q[k]).0, q[k].1) by {
        if k >= 1 {
            assert(q[k] == path[k - 1]);
        }
    }
    assert forall|k: int| 0 <= k < q.len() - 1 implies adjacent4(
        (#[trigger] q[k]).0,
        q[k].1,
        q[k + 1].0,
        q[k + 1].1,
    ) by {
        if k >= 1 {
            assert(q[k] == path[k - 1]);
            assert(q[k + 1] == path[k]);
        } else {
            assert(q[1] == path[0]);
        }
    }
    assert forall|k: int| 0 <= k < q.len() - 1 implies at(b, (#[trigger] q[k]).0, q[k].1)
        == Cell::Hit by {
        if k >= 1 {
            assert(q[k] == path[k - 1]);
        }
    }
    assert(hit_path(b, q));
    assert(q.first() == (x, y));
    assert(q.last() == path.last());
}

/// Walking along a lone ship whose cells are all `Hit` or `ShipPart`,
/// a surviving part at offset `c` can be reached from offset `a`.
proof fn lemma_reach_along_ship(b: Seq<Cell>, s: Ship, a: int, c: int)
    requires
        ship_in_grid(s),
        forall|i: int, j: int|
            covers(s, i, j) ==> (#[trigger] at(b, i, j)) == Cell::Hit || at(b, i, j)
                == Cell::ShipPart,
        0 <= a < s.size,
        0 <= c < s.size,
        at(b, cell_x(s, c), cell_y(s, c)) == Cell::ShipPart,
    ensures
        reaches_ship(b, cell_x(s, a), cell_y(s, a)),
    decreases vstd::math::abs(c - a),
{
    let ax = cell_x(s, a);
    let ay = cell_y(s, a);
    assert(covers(s, ax, ay));
    assert(in_grid(ax, ay));
    if at(b, ax, ay) == Cell::ShipPart {
        let p: Seq<(int, int)> = seq![(ax, ay)];
        assert(p.first() == (ax, ay));
        assert(p.last() == (ax, ay));
        assert(hit_path(b, p));
        assert(reach(b, ax, ay, ax, ay));
    } else {
        assert(a != c);
        let a2 = if c > a {
            a + 1
        } else {
            a - 1
        };
        lemma_reach_along_ship(b, s, a2, c);
        let x2 = cell_x(s, a2);
        let y2 = cell_y(s, a2);
        let pos = choose|i: int, j: int|
            #[trigger] reach(b, x2, y2, i, j) && at(b, i, j) == Cell::ShipPart;
        assert(covers(s, x2, y2));
        assert(in_grid(x2, y2));
        assert(adjacent4(ax, ay, x2, y2));
        lemma_reach_prepend(b, ax, ay, x2, y2, pos.0, pos.1);
    }
}

/// Sunk detection is exact for a lone ship. On a board where one
/// placed ship has been hit some number of times and no other cell
/// holds a ship part, a fill started from any hit cell of the ship
/// reports it sunk exactly when every one of its cells has been hit
/// — however the hits were ordered.
pub proof fn lemma_single_ship_sunk(b: Seq<Cell>, s: Ship, x: int, y: int)
    requires
        ship_in_grid(s),
        forall|i: int, j: int|
            covers(s, i, j) ==> (#[trigger] at(b, i, j)) == Cell::Hit || at(b, i, j)
                == Cell::ShipPart,
        forall|i: int, j: int|
            in_grid(i, j) && !covers(s, i, j) ==> (#[trigger] at(b, i, j)) != Cell::ShipPart,
        covers(s, x, y),
        at(b, x, y) == Cell::Hit,
    ensures
        !reaches_ship(b, x, y) <==> (forall|i: int, j: int|
            covers(s, i, j) ==> (#[trigger] at(b, i, j)) == Cell::Hit),
{
    if forall|i: int, j: int| covers(s, i, j) ==> (#[trigger] at(b, i, j)) == Cell::Hit {
        if reaches_ship(b, x, y) {
            let pos = choose|i: int, j: int|
                #[trigger] reach(b, x, y, i, j) && at(b, i, j) == Cell::ShipPart;
            let path = choose|path: Seq<(int, int)>|
                hit_path(b, path) && path.first() == (x, y) && path.last() == (pos.0, pos.1);
            assert(in_grid((path[path.len() - 1]).0, path[path.len() - 1].1));
            assert(in_grid(pos.0, pos.1));
            if covers(s, pos.0, pos.1) {
                assert(at(b, pos.0, pos.1) == Cell::Hit);
            }
            assert(false);
        }
    } else {
        let pos = choose|i: int, j: int|
            covers(s, i, j) && (#[trigger] at(b, i, j)) != Cell::Hit;
        let a = if s.horizontal {
            x - s.x
        } else {
            y - s.y
        };
        let c = if s.horizontal {
            pos.0 - s.x
        } else {
            pos.1 - s.y
        };
        assert(at(b, pos.0, pos.1) == Cell::ShipPart);
        assert(pos.0 == cell_x(s, c) && pos.1 == cell_y(s, c));
        assert(x == cell_x(s, a) && y == cell_y(s, a));
        lemma_reach_along_ship(b, s, a, c);
    }
}

/// Shooting a lone ship sinks it exactly on its last unhit cell: the
/// shot at `(x, y)` reports the ship sunk when every other cell of
/// the ship was already hit, and not sunk while any part survives —
/// in whatever order the hits landed.
pub proof fn lemma_single_ship_shot(b: Seq<Cell>, s: Ship, x: int, y: int)
    requires
        b.len() == 100,
        ship_in_grid(s),
        forall|i: int, j: int|
            covers(s, i, j) ==> (#[trigger] at(b, i, j)) == Cell::Hit || at(b, i, j)
                == Cell::ShipPart,
        forall|i: int, j: int|
            in_grid(i, j) && !covers(s, i, j) ==> (#[trigger] at(b, i, j)) != Cell::ShipPart,
        covers(s, x, y),
        at(b, x, y) == Cell::ShipPart,
    ensures
        crate::board::shot_sinks(b, x, y) <==> (forall|i: int, j: int|
            covers(s, i, j) && !(i == x && j == y) ==> (#[trigger] at(b, i, j)) == Cell::Hit),
{
    let b2 = crate::board::board_after_shot(b, x, y);
    assert(in_grid(x, y));
    assert(b2 == b.update(idx(x, y), Cell::Hit));
    assert forall|i: int, j: int| in_grid(i, j) implies #[trigger] at(b2, i, j) == (if i == x && j
        == y {
        Cell::Hit
    } else {
        at(b, i, j)
    }) by {
        if !(i == x && j == y) {
            assert(idx(i, j) != idx(x, y));
        }
    }
    lemma_single_ship_sunk(b2, s, x, y);
    assert forall|i: int, j: int| covers(s, i, j) implies in_grid(i, j) by {}
    if forall|i: int, j: int|
        covers(s, i, j) && !(i == x && j == y) ==> (#[trigger] at(b, i, j)) == Cell::Hit {
        assert forall|i: int, j: int| covers(s, i, j) implies (#[trigger] at(b2, i, j))
            == Cell::Hit by {
            if !(i == x && j == y) {
                assert(at(b, i, j) == Cell::Hit);
            }
        }
    } else {
        let pos = choose|i: int, j: int|
            covers(s, i, j) && !(i == x && j == y) && (#[trigger] at(b, i, j)) != Cell::Hit;
        assert(at(b2, pos.0, pos.1) != Cell::Hit);
    }
}

/// Flood fill from `(x, y)` over `Hit` cells; reports whether the
/// fill exhausted without finding a cell that is still `ShipPart`.
#[verifier::rlimit(100)]
#[verifier::spinoff_prover]
pub fn check_sunk_ship(board: &Board, x: usize, y: usize) -> (sunk: bool)
    requires
        board.wf(),
        x < 10,
        y < 10,
    ensures
        sunk == !reaches_ship(board@, x as int, y as int),
{
    let ghost b = board@;
    let mut visited: Vec<bool> = Vec::new();
    let mut n: usize = 0;
    while n < 100
        invariant
            visited@.len() == n,
            n <= 100,
            forall|k: int| 0 <= k < n ==> !(#[trigger] visited@[k]),
        decreases 100 - n,
    {
        visited.push(false);
        n = n + 1;
    }
    let mut stack: Vec<(usize, usize)> = Vec::new();
    stack.push((x, y));
    proof {
        lemma_fill_start(b, x, y, visited@, stack@);
        lemma_unvisited_nonneg(visited@, 100);
    }
    let mut is_sunk = true;
    while stack.len() != 0
        invariant_except_break
            is_sunk,
            closure_ok(b, visited@, stack@),
            visited@[idx(x as int, y as int)] || (stack@.len() >= 1 && stack@[0] == (x, y)),
        invariant
            board.wf(),
            b == board@,
            x < 10,
            y < 10,
            visited@.len() == 100,
            stack_ok(b, x as int, y as int, stack@),
            no_ship_visited(b, visited@),
        ensures
            !is_sunk ==> reaches_ship(b, x as int, y as int),
            is_sunk ==> stack@.len() == 0 && no_ship_visited(b, visited@) && closure_ok(
                b,
                visited@,
                stack@,
            ) && visited@[idx(x as int, y as int)],
        decreases 4 * unvisited(visited@, 100) + stack@.len(),
    {
        proof {
            lemma_unvisited_nonneg(visited@, 100);
            lemma_stack_last(b, x as int, y as int, stack@);
        }
        let ghost st_pre = stack@;
        let p = stack.pop().unwrap();
        let cx = p.0;
        let cy = p.1;
        if visited[cy * 10 + cx] {
            proof {
                lemma_closure_pop_visited(b, visited@, st_pre, cx, cy);
                if st_pre.len() >= 2 {
                    assert(stack@[0] == st_pre[0]);
                }
            }
            continue ;
        }
        let c = board.get(cx, cy);
        if c == Cell::ShipPart {
            proof {
                assert(reach(b, x as int, y as int, cx as int, cy as int));
            }
            is_sunk = false;
            break ;
        }
        let ghost v_pre = visited@;
        visited.set(cy * 10 + cx, true);
        proof {
            lemma_unvisited_update(v_pre, idx(cx as int, cy as int), 100);
            lemma_unvisited_nonneg(visited@, 100);
            lemma_no_ship_mark(b, v_pre, cx, cy);
        }
        if c == Cell::Hit {
            let ghost mut m_up: int = 0;
            let ghost mut m_down: int = 0;
            let ghost mut m_right: int = 0;
            let ghost mut m_left: int = 0;
            if cy + 1 < 10 {
                proof {
                    lemma_reach_step(
                        b,
                        x as int,
                        y as int,
                        cx as int,
                        cy as int,
                        cx as int,
                        cy as int + 1,
                    );
                    lemma_stack_push(b, x as int, y as int, stack@, cx, (cy + 1) as usize);
                    m_up = stack@.len() as int;
                }
                stack.push((cx, cy + 1));
            }
            if cy > 0 {
                proof {
                    lemma_reach_step(
                        b,
                        x as int,
                        y as int,
                        cx as int,
                        cy as int,
                        cx as int,
                        cy as int - 1,
                    );
                    lemma_stack_push(b, x as int, y as int, stack@, cx, (cy - 1) as usize);
                    m_down = stack@.len() as int;
                }
                stack.push((cx, cy - 1));
            }
            if cx + 1 < 10 {
                proof {
                    lemma_reach_step(
                        b,
                        x as int,
                        y as int,
                        cx as int,
                        cy as int,
                        cx as int + 1,
                        cy as int,
                    );
                    lemma_stack_push(b, x as int, y as int, stack@, (cx + 1) as usize, cy);
                    m_right = stack@.len() as int;
                }
                stack.push((cx + 1, cy));
            }
            if cx > 0 {
                proof {
                    lemma_reach_step(
                        b,
                        x as int,
                        y as int,
                        cx as int,
                        cy as int,
                        cx as int - 1,
                        cy as int,
                    );
                    lemma_stack_push(b, x as int, y as int, stack@, (cx - 1) as usize, cy);
                    m_left = stack@.len() as int;
                }
                stack.push((cx - 1, cy));
            }
            proof {
                assert forall|i2: int, j2: int|
                    in_grid(i2, j2) && adjacent4(cx as int, cy as int, i2, j2) implies in_stack(
                    stack@,
                    i2,
                    j2,
                ) by {
                    if i2 == cx as int && j2 == cy as int + 1 {
                        assert(stack@[m_up] == ((cx, (cy + 1) as usize)));
                        assert(in_stack(stack@, i2, j2));
                    } else if i2 == cx as int && j2 == cy as int - 1 {
                        assert(stack@[m_down] == ((cx, (cy - 1) as usize)));
                        assert(in_stack(stack@, i2, j2));
                    } else if i2 == cx as int + 1 && j2 == cy as int {
                        assert(stack@[m_right] == (((cx + 1) as usize, cy)));
                        assert(in_stack(stack@, i2, j2));
                    } else {
                        assert(i2 == cx as int - 1 && j2 == cy as int);
                        assert(stack@[m_left] == (((cx - 1) as usize, cy)));
                        assert(in_stack(stack@, i2, j2));
                    }
                }
                lemma_closure_mark(b, v_pre, st_pre, stack@, cx, cy);
                if st_pre.len() >= 2 {
                    assert(stack@[0] == st_pre[0]);
                }
            }
        } else {
            proof {
                lemma_closure_mark(b, v_pre, st_pre, stack@, cx, cy);
                if st_pre.len() >= 2 {
                    assert(stack@[0] == st_pre[0]);
                }
            }
        }
    }
    if is_sunk {
        proof {
            assert(stack@ =~= Seq::<(usize, usize)>::empty());
            lemma_fill_complete(b, visited@, x as int, y as int);
        }
    }
    is_sunk
}

} // verus!
