use vstd::prelude::*;

use std::time::Instant;
use vstd::arithmetic::div_mod::lemma_fundamental_div_mod_converse;

use crate::direction::{directions, dir_dx, dir_dy, dir_flag, opposite_index, spec_direction, Direction};
use crate::rng::GameRng;
use crate::tile::{
    lemma_turned_bounded, turned, turned_times, RotationDirection, Tile, TileKind, TilePos,
};
use crate::util::{bit_count, has_flag, BitFlag, Flag, Size};

verus! {

#[verifier::external_type_specification]
#[verifier::external_body]
pub struct ExInstant(Instant);

/// Relies on `Instant::now`: the current time of the monotonic clock.
#[verifier::external_body]
fn now() -> (r: Instant) {
    Instant::now()
}

/// Whether `(x, y)` lies on a `w` by `h` grid.
pub open spec fn in_grid(w: int, h: int, x: int, y: int) -> bool {
    0 <= x < w && 0 <= y < h
}

/// Row-major index of the cell at `(x, y)` on a grid of width `w`.
pub open spec fn cell(w: int, x: int, y: int) -> int {
    x + y * w
}

/// Power crosses from `(x, y)` toward direction `d`: the neighbour there
/// exists, the tile has its stub toward it and the neighbour has its stub
/// back.
pub open spec fn conducts(w: int, h: int, m: Seq<u8>, x: int, y: int, d: int) -> bool {
    &&& 0 <= d < 4
    &&& in_grid(w, h, x, y)
    &&& in_grid(w, h, x + dir_dx(d), y + dir_dy(d))
    &&& has_flag(m[cell(w, x, y)], dir_flag(d))
    &&& has_flag(m[cell(w, x + dir_dx(d), y + dir_dy(d))], spec_direction(d).opposite)
}

/// `(x, y)` is reached from `(rx, ry)` in at most `n` conducting steps.
pub open spec fn reach_within(
    w: int,
    h: int,
    m: Seq<u8>,
    rx: int,
    ry: int,
    n: nat,
    x: int,
    y: int,
) -> bool
    decreases n,
{
    if n == 0 {
        x == rx && y == ry
    } else {
        reach_within(w, h, m, rx, ry, (n - 1) as nat, x, y) || exists|d: int|
            #[trigger] conducts(w, h, m, x - dir_dx(d), y - dir_dy(d), d) && reach_within(
                w,
                h,
                m,
                rx,
                ry,
                (n - 1) as nat,
                x - dir_dx(d),
                y - dir_dy(d),
            )
    }
}

/// `(x, y)` receives power from `(rx, ry)`.
pub open spec fn reachable(w: int, h: int, m: Seq<u8>, rx: int, ry: int, x: int, y: int) -> bool {
    exists|n: nat| #[trigger] reach_within(w, h, m, rx, ry, n, x, y)
}

/// The open stubs of each tile.
pub open spec fn masks_of(t: Seq<Tile>) -> Seq<u8> {
    t.map_values(|tile: Tile| tile.directions)
}

/// The frontier masks of each tile.
pub open spec fn frontiers_of(t: Seq<Tile>) -> Seq<u8> {
    t.map_values(|tile: Tile| tile.neighbours)
}

/// Every terminal tile receives power from the root.
pub open spec fn solved_spec(w: int, h: int, t: Seq<Tile>, rx: int, ry: int) -> bool {
    forall|i: int|
        0 <= i < w * h && #[trigger] t[i].kind == TileKind::TERMINAL ==> reachable(
            w,
            h,
            masks_of(t),
            rx,
            ry,
            i % w,
            i / w,
        )
}

/// The kinds given at generation: the root is the server, a tile with one
/// open stub is a terminal, any other a connector.
pub open spec fn kind_rule(t: Tile, is_root: bool) -> TileKind {
    if is_root {
        TileKind::SERVER
    } else if bit_count(t.directions) == 1 {
        TileKind::TERMINAL
    } else {
        TileKind::CONNECTOR
    }
}

proof fn lemma_cell(w: int, h: int, x: int, y: int)
    requires
        in_grid(w, h, x, y),
    ensures
        0 <= cell(w, x, y) < w * h,
        cell(w, x, y) % w == x,
        cell(w, x, y) / w == y,
{
    assert(0 <= y * w <= (h - 1) * w) by (nonlinear_arith)
        requires
            0 <= y < h,
            0 < w,
    ;
    assert((h - 1) * w == w * h - w) by (nonlinear_arith);
    lemma_fundamental_div_mod_converse(x + y * w, w, y, x);
}

proof fn lemma_cells(w: int, h: int)
    requires
        w > 0,
        h > 0,
    ensures
        forall|x: int, y: int|
            #![trigger cell(w, x, y)]
            in_grid(w, h, x, y) ==> 0 <= cell(w, x, y) < w * h && cell(w, x, y) % w == x && cell(
                w,
                x,
                y,
            ) / w == y,
{
    assert forall|x: int, y: int| #![trigger cell(w, x, y)] in_grid(w, h, x, y) implies 0 <= cell(
        w,
        x,
        y,
    ) < w * h && cell(w, x, y) % w == x && cell(w, x, y) / w == y by {
        lemma_cell(w, h, x, y);
    }
}

proof fn lemma_index_cell(w: int, h: int, i: int)
    requires
        w > 0,
        h > 0,
        0 <= i < w * h,
    ensures
        in_grid(w, h, i % w, i / w),
        cell(w, i % w, i / w) == i,
{
    vstd::arithmetic::div_mod::lemma_fundamental_div_mod(i, w);
    assert(0 <= i % w < w);
    assert(i / w >= 0) by {
        vstd::arithmetic::div_mod::lemma_div_pos_is_pos(i, w);
    }
    assert(i / w < h) by {
        assert(w * h == h * w) by (nonlinear_arith);
        vstd::arithmetic::div_mod::lemma_div_by_multiple_is_strongly_ordered(i, h * w, h, w);
        vstd::arithmetic::div_mod::lemma_div_multiples_vanish(h, w);
    }
    assert(cell(w, i % w, i / w) == i) by (nonlinear_arith)
        requires
            i == w * (i / w) + i % w,
    ;
}

/// Tile `(x, y)` still offers direction `d` while the board is generated.
pub open spec fn offers(w: int, t: Seq<Tile>, x: int, y: int, d: int) -> bool {
    has_flag(t[cell(w, x, y)].neighbours, dir_flag(d))
}

/// Every direction a tile still offers leads to a cell on the board that
/// has not been visited.
pub open spec fn frontier_ok(w: int, h: int, t: Seq<Tile>, vis: Set<int>) -> bool {
    forall|x: int, y: int, d: int|
        in_grid(w, h, x, y) && 0 <= d < 4 && #[trigger] offers(w, t, x, y, d) ==> in_grid(
            w,
            h,
            x + dir_dx(d),
            y + dir_dy(d),
        ) && !vis.contains(cell(w, x + dir_dx(d), y + dir_dy(d)))
}

/// Every cell on the board still offers each direction that leads to a cell
/// on the board not yet visited.
pub open spec fn frontier_full(w: int, h: int, t: Seq<Tile>, vis: Set<int>) -> bool {
    forall|x: int, y: int, d: int|
        in_grid(w, h, x, y) && 0 <= d < 4 && in_grid(w, h, x + dir_dx(d), y + dir_dy(d))
            && !vis.contains(cell(w, x + dir_dx(d), y + dir_dy(d))) ==> #[trigger] offers(
            w,
            t,
            x,
            y,
            d,
        )
}

proof fn lemma_dir_facts()
    ensures
        forall|d: int|
            0 <= d < 4 ==> 0 <= #[trigger] opposite_index(d) < 4 && dir_dx(opposite_index(d))
                == -dir_dx(d) && dir_dy(opposite_index(d)) == -dir_dy(d)
                && spec_direction(d).opposite == dir_flag(opposite_index(d)),
        forall|a: int, b: int|
            0 <= a < 4 && 0 <= b < 4 && #[trigger] dir_dx(a) == #[trigger] dir_dx(b) && dir_dy(a)
                == dir_dy(b) ==> a == b,
        forall|d: int|
            0 <= d < 4 ==> (#[trigger] dir_flag(d) == 1 || dir_flag(d) == 2 || dir_flag(d) == 4
                || dir_flag(d) == 8),
        forall|a: int, b: int|
            0 <= a < 4 && 0 <= b < 4 && #[trigger] dir_flag(a) == #[trigger] dir_flag(b) ==> a == b,
{
    assert forall|d: int|
        0 <= d < 4 implies 0 <= #[trigger] opposite_index(d) < 4 && dir_dx(opposite_index(d))
        == -dir_dx(d) && dir_dy(opposite_index(d)) == -dir_dy(d)
        && spec_direction(d).opposite == dir_flag(opposite_index(d)) by {
        if d == 0 {
        } else if d == 1 {
        } else if d == 2 {
        } else {
        }
    }
}

proof fn lemma_flag_ops(a: u8, b: u8, f: u8)
    by (bit_vector)
    requires
        f == 1 || f == 2 || f == 4 || f == 8,
    ensures
        ((a | b) & f != 0) == ((a & f != 0) || (b & f != 0)),
        ((a & !b) & f != 0) == ((a & f != 0) && (b & f == 0)),
        a < 16 && b < 16 ==> (a | b) < 16,
        a < 16 ==> (a & !b) < 16,
        (b == 1 || b == 2 || b == 4 || b == 8) ==> ((b & f != 0) == (b == f)),
        a < 16 && a != 0 ==> (a & 1 != 0 || a & 2 != 0 || a & 4 != 0 || a & 8 != 0),
        0u8 & f == 0,
        (a & !b) != 0 ==> a != 0,
{
}

/// Directions `0..k` of the table on the way from `(x, y)` that stay on the
/// board, as a mask.
pub open spec fn boundary_prefix(w: int, h: int, x: int, y: int, k: int) -> u8
    decreases k,
{
    if k <= 0 {
        0
    } else if in_grid(w, h, x + dir_dx(k - 1), y + dir_dy(k - 1)) {
        boundary_prefix(w, h, x, y, k - 1) | dir_flag(k - 1)
    } else {
        boundary_prefix(w, h, x, y, k - 1)
    }
}

proof fn lemma_boundary(w: int, h: int, x: int, y: int, k: int)
    requires
        0 <= k <= 4,
    ensures
        boundary_prefix(w, h, x, y, k) < 16,
        forall|d: int|
            0 <= d < 4 ==> (has_flag(boundary_prefix(w, h, x, y, k), #[trigger] dir_flag(d)) <==> (d
                < k && in_grid(w, h, x + dir_dx(d), y + dir_dy(d)))),
    decreases k,
{
    lemma_dir_facts();
    if k == 0 {
        assert forall|d: int| 0 <= d < 4 implies !has_flag(0u8, #[trigger] dir_flag(d)) by {
            lemma_flag_ops(0u8, 0u8, dir_flag(d));
        }
    } else {
        lemma_boundary(w, h, x, y, k - 1);
        let a = boundary_prefix(w, h, x, y, k - 1);
        let f = dir_flag(k - 1);
        assert forall|d: int|
            0 <= d < 4 implies (has_flag(boundary_prefix(w, h, x, y, k), #[trigger] dir_flag(d))
            <==> (d < k && in_grid(w, h, x + dir_dx(d), y + dir_dy(d)))) by {
            lemma_flag_ops(a, f, dir_flag(d));
        }
        lemma_flag_ops(a, f, 1);
    }
}

/// `b` is `a` turned right by 0, 1 or 2 quarter turns.
pub open spec fn scrambled(a: Tile, b: Tile) -> bool {
    exists|t: nat|
        t < 3 && b == (Tile {
            directions: #[trigger] turned_times(a.directions, RotationDirection::Right, t),
            ..a
        })
}

/// Every open stub faces a neighbour on the board whose stub points back.
pub open spec fn stubs_matched(w: int, h: int, m: Seq<u8>) -> bool {
    forall|x: int, y: int, d: int|
        in_grid(w, h, x, y) && 0 <= d < 4 && #[trigger] has_flag(m[cell(w, x, y)], dir_flag(d))
            ==> conducts(w, h, m, x, y, d)
}

/// Linking a cell to an empty neighbour by a pair of facing stubs keeps every
/// stub matched.
proof fn lemma_link_keeps_stubs(w: int, h: int, m0: Seq<u8>, m2: Seq<u8>, x0: int, y0: int, d: int)
    requires
        w > 0,
        h > 0,
        m0.len() == w * h,
        m2.len() == w * h,
        stubs_matched(w, h, m0),
        0 <= d < 4,
        in_grid(w, h, x0, y0),
        in_grid(w, h, x0 + dir_dx(d), y0 + dir_dy(d)),
        m0[cell(w, x0 + dir_dx(d), y0 + dir_dy(d))] == 0,
        m2[cell(w, x0, y0)] == m0[cell(w, x0, y0)] | dir_flag(d),
        m2[cell(w, x0 + dir_dx(d), y0 + dir_dy(d))] == (0u8 | spec_direction(d).opposite),
        forall|i: int|
            0 <= i < w * h && i != cell(w, x0, y0) && i != cell(
                w,
                x0 + dir_dx(d),
                y0 + dir_dy(d),
            ) ==> #[trigger] m2[i] == m0[i],
    ensures
        stubs_matched(w, h, m2),
{
    lemma_cells(w, h);
    lemma_dir_facts();
    let x1 = x0 + dir_dx(d);
    let y1 = y0 + dir_dy(d);
    let c0 = cell(w, x0, y0);
    let c1 = cell(w, x1, y1);
    let opp = spec_direction(d).opposite;
    assert(c0 != c1);
    assert forall|i: int, e: int|
        0 <= i < w * h && 0 <= e < 4 && #[trigger] has_flag(m0[i], dir_flag(e)) implies has_flag(
        m2[i],
        dir_flag(e),
    ) by {
        if i == c0 {
            lemma_flag_ops(m0[c0], dir_flag(d), dir_flag(e));
        } else if i == c1 {
            lemma_flag_ops(0, 0, dir_flag(e));
        }
    }
    assert forall|x: int, y: int, e: int|
        in_grid(w, h, x, y) && 0 <= e < 4 && #[trigger] has_flag(m2[cell(w, x, y)], dir_flag(e))
        implies conducts(w, h, m2, x, y, e) by {
        let c = cell(w, x, y);
        let nx = x + dir_dx(e);
        let ny = y + dir_dy(e);
        if c == c1 {
            assert(x == x1 && y == y1);
            lemma_flag_ops(0, opp, dir_flag(e));
            lemma_flag_ops(opp, opp, dir_flag(e));
            lemma_flag_ops(0, 0, dir_flag(e));
            assert(e == opposite_index(d));
            assert(nx == x0 && ny == y0);
            lemma_flag_ops(m0[c0], dir_flag(d), dir_flag(d));
            lemma_flag_ops(dir_flag(d), dir_flag(d), dir_flag(d));
        } else if c == c0 && e == d {
            assert(x == x0 && y == y0);
            lemma_flag_ops(m0[c0], dir_flag(d), dir_flag(d));
            lemma_flag_ops(dir_flag(d), dir_flag(d), dir_flag(d));
            lemma_flag_ops(0, opp, opp);
            lemma_flag_ops(opp, opp, opp);
        } else {
            if c == c0 {
                lemma_flag_ops(m0[c0], dir_flag(d), dir_flag(e));
                lemma_flag_ops(dir_flag(d), dir_flag(d), dir_flag(e));
            }
            assert(has_flag(m0[c], dir_flag(e)));
            assert(conducts(w, h, m0, x, y, e));
            assert(has_flag(m0[cell(w, nx, ny)], dir_flag(opposite_index(e))));
        }
    }
}

/// Every stub of `m1` is also a stub of `m2`.
pub open spec fn grows(m1: Seq<u8>, m2: Seq<u8>) -> bool {
    m1.len() == m2.len() && forall|i: int, d: int|
        0 <= i < m1.len() && 0 <= d < 4 && #[trigger] has_flag(m1[i], dir_flag(d)) ==> has_flag(
            m2[i],
            dir_flag(d),
        )
}

proof fn lemma_reach_grows_n(w: int, h: int, m1: Seq<u8>, m2: Seq<u8>, rx: int, ry: int, n: nat)
    requires
        w > 0,
        h > 0,
        m1.len() == w * h,
        grows(m1, m2),
    ensures
        forall|x: int, y: int|
            #[trigger] reach_within(w, h, m1, rx, ry, n, x, y) ==> reach_within(w, h, m2, rx, ry, n, x, y),
    decreases n,
{
    lemma_cells(w, h);
    lemma_dir_facts();
    if n > 0 {
        lemma_reach_grows_n(w, h, m1, m2, rx, ry, (n - 1) as nat);
        assert forall|x: int, y: int| #[trigger] reach_within(w, h, m1, rx, ry, n, x, y) implies reach_within(
            w,
            h,
            m2,
            rx,
            ry,
            n,
            x,
            y,
        ) by {
            if !reach_within(w, h, m1, rx, ry, (n - 1) as nat, x, y) {
                let d = choose|d: int|
                    #[trigger] conducts(w, h, m1, x - dir_dx(d), y - dir_dy(d), d) && reach_within(
                        w,
                        h,
                        m1,
                        rx,
                        ry,
                        (n - 1) as nat,
                        x - dir_dx(d),
                        y - dir_dy(d),
                    );
                let px = x - dir_dx(d);
                let py = y - dir_dy(d);
                assert(has_flag(m1[cell(w, px + dir_dx(d), py + dir_dy(d))], dir_flag(opposite_index(d))));
                assert(conducts(w, h, m2, px, py, d));
            }
        }
    }
}

proof fn lemma_reach_grows(w: int, h: int, m1: Seq<u8>, m2: Seq<u8>, rx: int, ry: int)
    requires
        w > 0,
        h > 0,
        m1.len() == w * h,
        grows(m1, m2),
    ensures
        forall|x: int, y: int|
            #[trigger] reachable(w, h, m1, rx, ry, x, y) ==> reachable(w, h, m2, rx, ry, x, y),
{
    assert forall|x: int, y: int| #[trigger] reachable(w, h, m1, rx, ry, x, y) implies reachable(
        w,
        h,
        m2,
        rx,
        ry,
        x,
        y,
    ) by {
        let n = choose|n: nat| #[trigger] reach_within(w, h, m1, rx, ry, n, x, y);
        lemma_reach_grows_n(w, h, m1, m2, rx, ry, n);
        assert(reach_within(w, h, m2, rx, ry, n, x, y));
    }
}

/// A set of cells that holds `(rx, ry)` and every on-board neighbour of its
/// members holds the whole row `ry`, then every cell.
proof fn lemma_row(w: int, h: int, s: Set<int>, rx: int, ry: int, x: int)
    requires
        in_grid(w, h, rx, ry),
        s.contains(cell(w, rx, ry)),
        0 <= x < w,
        forall|a: int, b: int, d: int|
            in_grid(w, h, a, b) && 0 <= d < 4 && s.contains(cell(w, a, b)) && in_grid(
                w,
                h,
                a + dir_dx(d),
                b + dir_dy(d),
            ) ==> s.contains(#[trigger] cell(w, a + dir_dx(d), b + dir_dy(d))),
    ensures
        s.contains(cell(w, x, ry)),
    decreases if x >= rx { x - rx } else { rx - x },
{
    if x > rx {
        lemma_row(w, h, s, rx, ry, x - 1);
        assert(s.contains(cell(w, (x - 1) + dir_dx(1), ry + dir_dy(1))));
    } else if x < rx {
        lemma_row(w, h, s, rx, ry, x + 1);
        assert(s.contains(cell(w, (x + 1) + dir_dx(3), ry + dir_dy(3))));
    }
}

proof fn lemma_column(w: int, h: int, s: Set<int>, rx: int, ry: int, x: int, y: int)
    requires
        in_grid(w, h, rx, ry),
        s.contains(cell(w, rx, ry)),
        in_grid(w, h, x, y),
        forall|a: int, b: int, d: int|
            in_grid(w, h, a, b) && 0 <= d < 4 && s.contains(cell(w, a, b)) && in_grid(
                w,
                h,
                a + dir_dx(d),
                b + dir_dy(d),
            ) ==> s.contains(#[trigger] cell(w, a + dir_dx(d), b + dir_dy(d))),
    ensures
        s.contains(cell(w, x, y)),
    decreases if y >= ry { y - ry } else { ry - y },
{
    if y > ry {
        lemma_column(w, h, s, rx, ry, x, y - 1);
        assert(s.contains(cell(w, x + dir_dx(2), (y - 1) + dir_dy(2))));
    } else if y < ry {
        lemma_column(w, h, s, rx, ry, x, y + 1);
        assert(s.contains(cell(w, x + dir_dx(0), (y + 1) + dir_dy(0))));
    } else {
        lemma_row(w, h, s, rx, ry, x);
    }
}

/// The directions of the first `k` table entries whose bit `m` holds, in
/// table order.
pub open spec fn offered_prefix(m: u8, k: int) -> Seq<Direction>
    decreases k,
{
    if k <= 0 {
        Seq::empty()
    } else if has_flag(m, dir_flag(k - 1)) {
        offered_prefix(m, k - 1).push(spec_direction(k - 1))
    } else {
        offered_prefix(m, k - 1)
    }
}

/// The directions whose bit `m` holds, in table order.
pub open spec fn offered(m: u8) -> Seq<Direction> {
    offered_prefix(m, 4)
}

proof fn lemma_offered(m: u8, k: int)
    requires
        0 <= k <= 4,
    ensures
        forall|j: int|
            0 <= j < offered_prefix(m, k).len() ==> exists|i: int|
                0 <= i < k && #[trigger] offered_prefix(m, k)[j] == spec_direction(i) && has_flag(
                    m,
                    dir_flag(i),
                ),
        offered_prefix(m, k).len() == 0 ==> forall|i: int|
            0 <= i < k ==> !has_flag(m, #[trigger] dir_flag(i)),
    decreases k,
{
    if k > 0 {
        lemma_offered(m, k - 1);
        let p = offered_prefix(m, k - 1);
        if has_flag(m, dir_flag(k - 1)) {
            assert forall|j: int| 0 <= j < offered_prefix(m, k).len() implies exists|i: int|
                0 <= i < k && #[trigger] offered_prefix(m, k)[j] == spec_direction(i) && has_flag(
                    m,
                    dir_flag(i),
                ) by {
                if j < p.len() {
                    assert(offered_prefix(m, k)[j] == p[j]);
                } else {
                    assert(offered_prefix(m, k)[j] == spec_direction(k - 1));
                }
            }
        }
    }
}

/// Number of open stubs over all tiles; each pipe between two cells counts
/// twice.
pub open spec fn stub_total(m: Seq<u8>) -> nat
    decreases m.len(),
{
    if m.len() == 0 {
        0
    } else {
        stub_total(m.drop_last()) + bit_count(m.last())
    }
}

spec fn has_bit(m: u8, f: u8) -> int {
    if m & f != 0 {
        1
    } else {
        0
    }
}

proof fn lemma_count4(m: u8)
    requires
        m < 16,
    ensures
        bit_count(m) == has_bit(m, 1) + has_bit(m, 2) + has_bit(m, 4) + has_bit(m, 8),
{
    reveal_with_fuel(bit_count, 5);
    let m1: u8 = m / 2;
    let m2: u8 = m1 / 2;
    let m3: u8 = m2 / 2;
    assert((m & 1 != 0) == (m % 2 == 1) && (m & 2 != 0) == (m1 % 2 == 1) && (m & 4 != 0) == (m2
        % 2 == 1) && (m & 8 != 0) == (m3 % 2 == 1) && m3 / 2 == 0) by (bit_vector)
        requires
            m < 16,
            m1 == m / 2,
            m2 == m1 / 2,
            m3 == m2 / 2,
    ;
    assert(bit_count(m3) == (m3 % 2) as nat + bit_count(m3 / 2));
    assert(bit_count(m2) == (m2 % 2) as nat + bit_count(m3));
    assert(bit_count(m1) == (m1 % 2) as nat + bit_count(m2));
}

proof fn lemma_count_add(m: u8, f: u8)
    requires
        m < 16,
        f == 1 || f == 2 || f == 4 || f == 8,
        m & f == 0,
    ensures
        bit_count(m | f) == bit_count(m) + 1,
{
    lemma_flag_ops(m, f, 1);
    lemma_flag_ops(m, f, 2);
    lemma_flag_ops(m, f, 4);
    lemma_flag_ops(m, f, 8);
    lemma_flag_ops(f, f, 1);
    lemma_flag_ops(f, f, 2);
    lemma_flag_ops(f, f, 4);
    lemma_flag_ops(f, f, 8);
    lemma_count4(m);
    lemma_count4(m | f);
    assert(f & f != 0) by (bit_vector)
        requires
            f == 1 || f == 2 || f == 4 || f == 8,
    ;
}

proof fn lemma_total_update(s: Seq<u8>, i: int, v: u8)
    requires
        0 <= i < s.len(),
    ensures
        stub_total(s.update(i, v)) == stub_total(s) - bit_count(s[i]) + bit_count(v),
    decreases s.len(),
{
    let u = s.update(i, v);
    if i == s.len() - 1 {
        assert(u.drop_last() =~= s.drop_last());
    } else {
        lemma_total_update(s.drop_last(), i, v);
        assert(u.drop_last() =~= s.drop_last().update(i, v));
    }
}

proof fn lemma_total_zero(s: Seq<u8>)
    requires
        forall|i: int| 0 <= i < s.len() ==> #[trigger] s[i] == 0,
    ensures
        stub_total(s) == 0,
    decreases s.len(),
{
    if s.len() > 0 {
        lemma_total_zero(s.drop_last());
    }
}

/// The frontier mask `m` of cell `(x, y)` after the first `k` neighbours of
/// `(px, py)` in table order drop the bit that points back at it.
pub open spec fn cleared_prefix(m: u8, px: int, py: int, x: int, y: int, k: int) -> u8
    decreases k,
{
    if k <= 0 {
        m
    } else if x == px + dir_dx(k - 1) && y == py + dir_dy(k - 1) {
        cleared_prefix(m, px, py, x, y, k - 1) & !spec_direction(k - 1).opposite
    } else {
        cleared_prefix(m, px, py, x, y, k - 1)
    }
}

/// Some entry of `s` is the position `(x, y)`.
spec fn on_stack(s: Seq<TilePos>, x: int, y: int) -> bool {
    exists|j: int| 0 <= j < s.len() && (#[trigger] s[j]).x == x && s[j].y == y
}

/// A set of powered tiles that holds the root and is closed under conducting
/// steps holds every tile reached from the root.
proof fn lemma_closed_reaches(w: int, h: int, m: Seq<u8>, t: Seq<Tile>, rx: int, ry: int, n: nat)
    requires
        w > 0,
        h > 0,
        t.len() == w * h,
        in_grid(w, h, rx, ry),
        t[cell(w, rx, ry)].powered,
        forall|x: int, y: int, d: int|
            #[trigger] conducts(w, h, m, x, y, d) && t[cell(w, x, y)].powered ==> t[cell(
                w,
                x + dir_dx(d),
                y + dir_dy(d),
            )].powered,
    ensures
        forall|x: int, y: int|
            #[trigger] reach_within(w, h, m, rx, ry, n, x, y) ==> t[cell(w, x, y)].powered,
    decreases n,
{
    if n > 0 {
        lemma_closed_reaches(w, h, m, t, rx, ry, (n - 1) as nat);
        assert forall|x: int, y: int| #[trigger] reach_within(w, h, m, rx, ry, n, x, y) implies t[cell(
            w,
            x,
            y,
        )].powered by {
            if !reach_within(w, h, m, rx, ry, (n - 1) as nat, x, y) {
                let d = choose|d: int|
                    #[trigger] conducts(w, h, m, x - dir_dx(d), y - dir_dy(d), d) && reach_within(
                        w,
                        h,
                        m,
                        rx,
                        ry,
                        (n - 1) as nat,
                        x - dir_dx(d),
                        y - dir_dy(d),
                    );
                assert(t[cell(w, x - dir_dx(d), y - dir_dy(d))].powered);
                assert(x - dir_dx(d) + dir_dx(d) == x);
                assert(y - dir_dy(d) + dir_dy(d) == y);
            }
        }
    }
}

/// The game board: a grid of tiles, row-major, with the root of its network.
#[derive(Debug)]
pub struct Board {
    size: Size<i32>,
    tiles: Vec<Tile>,
    tiles_to_visit: Vec<TilePos>,
    root: TilePos,
    start: Instant,
}

impl Board {
    pub closed spec fn spec_size(&self) -> Size<i32> {
        self.size
    }

    pub closed spec fn spec_tiles(&self) -> Seq<Tile> {
        self.tiles@
    }

    pub closed spec fn spec_root(&self) -> TilePos {
        self.root
    }

    pub closed spec fn spec_worklist(&self) -> Seq<TilePos> {
        self.tiles_to_visit@
    }

    pub closed spec fn spec_start(&self) -> Instant {
        self.start
    }

    pub open spec fn width(&self) -> int {
        self.spec_size().width as int
    }

    pub open spec fn height(&self) -> int {
        self.spec_size().height as int
    }

    /// Whether `p` lies on the board.
    pub open spec fn holds(&self, p: TilePos) -> bool {
        in_grid(self.width(), self.height(), p.x as int, p.y as int)
    }

    /// The index of `p` in the tile sequence.
    pub open spec fn index_of(&self, p: TilePos) -> int {
        cell(self.width(), p.x as int, p.y as int)
    }

    /// The board's shape holds: at least one cell, cell indices fit an
    /// `i32`, one tile per cell, the root on the board, and every mask within
    /// the four direction bits.
    pub open spec fn wf(&self) -> bool {
        &&& self.width() >= 1
        &&& self.height() >= 1
        &&& self.width() * self.height() <= i32::MAX
        &&& self.spec_tiles().len() == self.width() * self.height()
        &&& self.holds(self.spec_root())
        &&& forall|i: int|
            0 <= i < self.spec_tiles().len() ==> #[trigger] self.spec_tiles()[i].directions < 16
                && self.spec_tiles()[i].neighbours < 16
    }

    /// The board is solved: every terminal tile receives power from the root.
    pub open spec fn solved(&self) -> bool {
        solved_spec(
            self.width(),
            self.height(),
            self.spec_tiles(),
            self.spec_root().x as int,
            self.spec_root().y as int,
        )
    }

    /// Whether `pos` lies on the board.
    fn in_bounds(&self, pos: &TilePos) -> (r: bool)
        ensures
            r == self.holds(*pos),
    {
        pos.x >= 0 && pos.y >= 0 && pos.x < self.size.width && pos.y < self.size.height
    }

    fn index(&self, pos: &TilePos) -> (r: usize)
        requires
            self.wf(),
            self.holds(*pos),
        ensures
            r as int == self.index_of(*pos),
            r < self.spec_tiles().len(),
    {
        proof {
            lemma_cell(self.width(), self.height(), pos.x as int, pos.y as int);
            assert(0 <= pos.y * self.width() <= self.width() * self.height()) by (nonlinear_arith)
                requires
                    0 <= pos.y < self.height(),
                    self.width() > 0,
            ;
        }
        (pos.x + pos.y * self.size.width) as usize
    }

    /// Fills the board with fresh tiles, row-major; each tile offers the
    /// directions that lead to another cell of the board.
    fn init_tiles(&mut self)
        requires
            old(self).spec_tiles().len() == 0,
            old(self).width() >= 1,
            old(self).height() >= 1,
            old(self).width() * old(self).height() <= i32::MAX,
            old(self).holds(old(self).spec_root()),
        ensures
            final(self).wf(),
            final(self).spec_size() == old(self).spec_size(),
            final(self).spec_root() == old(self).spec_root(),
            final(self).spec_worklist() == old(self).spec_worklist(),
            frontier_ok(final(self).width(), final(self).height(), final(self).spec_tiles(), Set::empty()),
            frontier_full(final(self).width(), final(self).height(), final(self).spec_tiles(), Set::empty()),
            forall|x: int, y: int|
                in_grid(final(self).width(), final(self).height(), x, y) ==> #[trigger] final(self).spec_tiles()[cell(
                    final(self).width(),
                    x,
                    y,
                )] == (Tile {
                    kind: TileKind::UNDEFINED,
                    directions: 0,
                    neighbours: boundary_prefix(final(self).width(), final(self).height(), x, y, 4),
                    powered: false,
                }),
    {
        let ghost w = self.width();
        let ghost h = self.height();
        proof {
            lemma_cells(w, h);
        }
        let dirs = directions();
        let mut y: i32 = 0;
        while y < self.size.height
            invariant
                w == self.width(),
                h == self.height(),
                w >= 1,
                h >= 1,
                w * h <= i32::MAX,
                self.holds(self.spec_root()),
                self.spec_size() == old(self).spec_size(),
                self.spec_root() == old(self).spec_root(),
                self.spec_worklist() == old(self).spec_worklist(),
                forall|i: int| 0 <= i < 4 ==> #[trigger] dirs@[i] == spec_direction(i),
                forall|x: int, y: int|
                    #![trigger cell(w, x, y)]
                    in_grid(w, h, x, y) ==> 0 <= cell(w, x, y) < w * h && cell(w, x, y) % w == x
                        && cell(w, x, y) / w == y,
                0 <= y <= h,
                self.tiles@.len() == y * w,
                forall|a: int, b: int|
                    in_grid(w, h, a, b) && cell(w, a, b) < self.tiles@.len() ==> #[trigger] self.tiles@[cell(w, a, b)]
                        == (Tile {
                        kind: TileKind::UNDEFINED,
                        directions: 0,
                        neighbours: boundary_prefix(w, h, a, b, 4),
                        powered: false,
                    }),
            decreases h - y,
        {
            let mut x: i32 = 0;
            while x < self.size.width
                invariant
                    w == self.width(),
                    h == self.height(),
                    w >= 1,
                    h >= 1,
                    w * h <= i32::MAX,
                    self.holds(self.spec_root()),
                    self.spec_size() == old(self).spec_size(),
                    self.spec_root() == old(self).spec_root(),
                    self.spec_worklist() == old(self).spec_worklist(),
                    forall|i: int| 0 <= i < 4 ==> #[trigger] dirs@[i] == spec_direction(i),
                    forall|x: int, y: int|
                        #![trigger cell(w, x, y)]
                        in_grid(w, h, x, y) ==> 0 <= cell(w, x, y) < w * h && cell(w, x, y) % w
                            == x && cell(w, x, y) / w == y,
                    0 <= y < h,
                    0 <= x <= w,
                    self.tiles@.len() == y * w + x,
                    forall|a: int, b: int|
                        in_grid(w, h, a, b) && cell(w, a, b) < self.tiles@.len() ==> #[trigger] self.tiles@[cell(w, a, b)]
                            == (Tile {
                            kind: TileKind::UNDEFINED,
                            directions: 0,
                            neighbours: boundary_prefix(w, h, a, b, 4),
                            powered: false,
                        }),
                decreases w - x,
            {
                let mut tile = Tile::new();
                let mut k: usize = 0;
                while k < 4
                    invariant
                        w == self.width(),
                        h == self.height(),
                        0 <= x < w,
                        0 <= y < h,
                        k <= 4,
                        forall|i: int| 0 <= i < 4 ==> #[trigger] dirs@[i] == spec_direction(i),
                        tile == (Tile {
                            kind: TileKind::UNDEFINED,
                            directions: 0,
                            neighbours: boundary_prefix(w, h, x as int, y as int, k as int),
                            powered: false,
                        }),
                    decreases 4 - k,
                {
                    let dir = dirs[k];
                    let tile_pos = TilePos::new(x, y).add(dir.offset);
                    if self.in_bounds(&tile_pos) {
                        tile.neighbours = tile.neighbours | dir.flag;
                    }
                    k += 1;
                }
                proof {
                    lemma_cell(w, h, x as int, y as int);
                }
                self.tiles.push(tile);
                x += 1;
            }
            proof {
                assert((y + 1) * w == y * w + w) by (nonlinear_arith);
            }
            y += 1;
        }
        proof {
            assert(self.tiles@.len() == w * h) by (nonlinear_arith)
                requires
                    self.tiles@.len() == y * w,
                    y == h,
            ;
            assert forall|i: int| 0 <= i < self.tiles@.len() implies #[trigger] self.tiles@[i].directions
                < 16 && self.tiles@[i].neighbours < 16 by {
                lemma_index_cell(w, h, i);
                lemma_boundary(w, h, i % w, i / w, 4);
            }
            assert forall|x: int, y: int, d: int|
                in_grid(w, h, x, y) && 0 <= d < 4 && #[trigger] offers(
                    w,
                    self.tiles@,
                    x,
                    y,
                    d,
                ) implies in_grid(w, h, x + dir_dx(d), y + dir_dy(d)) && !Set::<int>::empty().contains(
                cell(w, x + dir_dx(d), y + dir_dy(d)),
            ) by {
                lemma_boundary(w, h, x, y, 4);
            }
            assert forall|x: int, y: int, d: int|
                in_grid(w, h, x, y) && 0 <= d < 4 && in_grid(w, h, x + dir_dx(d), y + dir_dy(d))
                    && !Set::<int>::empty().contains(cell(w, x + dir_dx(d), y + dir_dy(d))) implies #[trigger] offers(
                w,
                self.tiles@,
                x,
                y,
                d,
            ) by {
                lemma_boundary(w, h, x, y, 4);
            }
        }
    }

    /// Links the cell at `tile_pos` by the bits of `flag`: a cell with no
    /// open stub yet joins the worklist, and no neighbour offers a way back
    /// into it any more.
    fn visit_tile(&mut self, tile_pos: &TilePos, flag: Flag, Ghost(vis): Ghost<Set<int>>)
        requires
            old(self).wf(),
            old(self).holds(*tile_pos),
            flag < 16,
            frontier_ok(old(self).width(), old(self).height(), old(self).spec_tiles(), vis),
            frontier_full(old(self).width(), old(self).height(), old(self).spec_tiles(), vis),
            forall|j: int|
                0 <= j < old(self).spec_worklist().len() ==> old(self).holds(
                    #[trigger] old(self).spec_worklist()[j],
                ) && vis.contains(old(self).index_of(old(self).spec_worklist()[j])),
        ensures
            final(self).wf(),
            final(self).spec_size() == old(self).spec_size(),
            final(self).spec_root() == old(self).spec_root(),
            frontier_ok(
                final(self).width(),
                final(self).height(),
                final(self).spec_tiles(),
                vis.insert(old(self).index_of(*tile_pos)),
            ),
            forall|j: int|
                0 <= j < final(self).spec_worklist().len() ==> final(self).holds(
                    #[trigger] final(self).spec_worklist()[j],
                ) && vis.insert(old(self).index_of(*tile_pos)).contains(
                    final(self).index_of(final(self).spec_worklist()[j]),
                ),
            final(self).spec_worklist() == if old(self).spec_tiles()[old(self).index_of(
                *tile_pos,
            )].directions == 0 {
                old(self).spec_worklist().push(*tile_pos)
            } else {
                old(self).spec_worklist()
            },
            frontier_full(
                final(self).width(),
                final(self).height(),
                final(self).spec_tiles(),
                vis.insert(old(self).index_of(*tile_pos)),
            ),
            forall|i: int|
                0 <= i < old(self).spec_tiles().len() && (#[trigger] final(self).spec_tiles()[i]).neighbours
                    != 0 ==> old(self).spec_tiles()[i].neighbours != 0,
            forall|x: int, y: int|
                in_grid(old(self).width(), old(self).height(), x, y) ==> #[trigger] final(self).spec_tiles()[cell(
                    old(self).width(),
                    x,
                    y,
                )].neighbours == cleared_prefix(
                    old(self).spec_tiles()[cell(old(self).width(), x, y)].neighbours,
                    tile_pos.x as int,
                    tile_pos.y as int,
                    x,
                    y,
                    4,
                ),
            final(self).spec_tiles().len() == old(self).spec_tiles().len(),
            forall|i: int|
                0 <= i < old(self).spec_tiles().len() ==> (#[trigger] final(self).spec_tiles()[i]).kind
                    == old(self).spec_tiles()[i].kind && final(self).spec_tiles()[i].powered == old(
                    self,
                ).spec_tiles()[i].powered && final(self).spec_tiles()[i].directions == if i
                    == old(self).index_of(*tile_pos) {
                    old(self).spec_tiles()[i].directions | flag
                } else {
                    old(self).spec_tiles()[i].directions
                },
    {
        let ghost w = self.width();
        let ghost h = self.height();
        let ghost px = tile_pos.x as int;
        let ghost py = tile_pos.y as int;
        let ghost pc = cell(w, px, py);
        proof {
            lemma_cells(w, h);
            lemma_dir_facts();
        }
        let mut tile = self.get_tile(tile_pos);
        if tile.directions == 0 {
            self.tiles_to_visit.push(*tile_pos);
        }
        proof {
            lemma_flag_ops(tile.directions, flag, 1);
        }
        tile.directions = tile.directions | flag;
        let ghost before = self.tiles@;
        self.set_tile(tile_pos, tile);
        proof {
            assert forall|j: int|
                0 <= j < self.spec_worklist().len() implies self.holds(
                #[trigger] self.spec_worklist()[j],
            ) && vis.insert(pc).contains(self.index_of(self.spec_worklist()[j])) by {
                if j < old(self).spec_worklist().len() {
                    assert(self.spec_worklist()[j] == old(self).spec_worklist()[j]);
                } else {
                    assert(self.spec_worklist()[j] == *tile_pos);
                }
            }
            assert forall|x: int, y: int|
                in_grid(w, h, x, y) implies #[trigger] self.spec_tiles()[cell(w, x, y)].neighbours
                == cleared_prefix(old(self).spec_tiles()[cell(w, x, y)].neighbours, px, py, x, y, 0) by {
                if cell(w, x, y) != pc {
                    assert(self.tiles@[cell(w, x, y)] == before[cell(w, x, y)]);
                }
            }
            assert forall|x: int, y: int, d: int|
                in_grid(w, h, x, y) && 0 <= d < 4 && in_grid(w, h, x + dir_dx(d), y + dir_dy(d))
                    && !vis.contains(cell(w, x + dir_dx(d), y + dir_dy(d))) implies #[trigger] offers(
                w,
                self.spec_tiles(),
                x,
                y,
                d,
            ) by {
                assert(offers(w, before, x, y, d));
                if cell(w, x, y) != pc {
                    assert(self.tiles@[cell(w, x, y)] == before[cell(w, x, y)]);
                }
            }
            assert forall|x: int, y: int, d: int|
                in_grid(w, h, x, y) && 0 <= d < 4 && #[trigger] offers(w, self.tiles@, x, y, d) implies
                offers(w, before, x, y, d) by {
                if cell(w, x, y) != pc {
                    assert(self.tiles@[cell(w, x, y)] == before[cell(w, x, y)]);
                }
            }
        }
        let dirs = directions();
        let mut k: usize = 0;
        while k < 4
            invariant
                self.wf(),
                w == self.width(),
                h == self.height(),
                self.spec_size() == old(self).spec_size(),
                self.spec_root() == old(self).spec_root(),
                self.holds(*tile_pos),
                px == tile_pos.x,
                py == tile_pos.y,
                pc == cell(w, px, py),
                k <= 4,
                forall|i: int| 0 <= i < 4 ==> #[trigger] dirs@[i] == spec_direction(i),
                forall|x: int, y: int|
                    #![trigger cell(w, x, y)]
                    in_grid(w, h, x, y) ==> 0 <= cell(w, x, y) < w * h && cell(w, x, y) % w == x
                        && cell(w, x, y) / w == y,
                forall|x: int, y: int, d: int|
                    in_grid(w, h, x, y) && 0 <= d < 4 && #[trigger] offers(w, self.tiles@, x, y, d)
                        ==> in_grid(w, h, x + dir_dx(d), y + dir_dy(d)) && !vis.contains(
                        cell(w, x + dir_dx(d), y + dir_dy(d)),
                    ) && (x + dir_dx(d) == px && y + dir_dy(d) == py ==> opposite_index(d) >= k),
                forall|j: int|
                    0 <= j < self.spec_worklist().len() ==> self.holds(#[trigger] self.spec_worklist()[j])
                        && vis.insert(pc).contains(self.index_of(self.spec_worklist()[j])),
                self.spec_worklist() == if old(self).spec_tiles()[pc].directions == 0 {
                    old(self).spec_worklist().push(*tile_pos)
                } else {
                    old(self).spec_worklist()
                },
                forall|x: int, y: int, d: int|
                    in_grid(w, h, x, y) && 0 <= d < 4 && in_grid(w, h, x + dir_dx(d), y + dir_dy(d))
                        && !vis.contains(cell(w, x + dir_dx(d), y + dir_dy(d))) && !(x + dir_dx(d) == px
                        && y + dir_dy(d) == py) ==> #[trigger] offers(w, self.spec_tiles(), x, y, d),
                forall|i: int|
                    0 <= i < old(self).spec_tiles().len() && (#[trigger] self.spec_tiles()[i]).neighbours
                        != 0 ==> old(self).spec_tiles()[i].neighbours != 0,
                forall|x: int, y: int|
                    in_grid(w, h, x, y) ==> #[trigger] self.spec_tiles()[cell(w, x, y)].neighbours
                        == cleared_prefix(
                        old(self).spec_tiles()[cell(w, x, y)].neighbours,
                        px,
                        py,
                        x,
                        y,
                        k as int,
                    ),
                self.spec_tiles().len() == old(self).spec_tiles().len(),
                forall|i: int|
                    0 <= i < old(self).spec_tiles().len() ==> (#[trigger] self.spec_tiles()[i]).kind
                        == old(self).spec_tiles()[i].kind && self.spec_tiles()[i].powered == old(
                        self,
                    ).spec_tiles()[i].powered && self.spec_tiles()[i].directions == if i == pc {
                        old(self).spec_tiles()[i].directions | flag
                    } else {
                        old(self).spec_tiles()[i].directions
                    },
            decreases 4 - k,
        {
            let dir = dirs[k];
            let tp = tile_pos.add(dir.offset);
            if self.in_bounds(&tp) {
                let mut t = self.get_tile(&tp);
                let ghost tc = cell(w, tp.x as int, tp.y as int);
                proof {
                    lemma_flag_ops(t.neighbours, dir.opposite, 1);
                }
                t.neighbours = t.neighbours & !dir.opposite;
                let ghost before = self.tiles@;
                self.set_tile(&tp, t);
                proof {
                    lemma_flag_ops(before[tc].neighbours, dir.opposite, 1);
                    assert forall|x: int, y: int, e: int|
                        in_grid(w, h, x, y) && 0 <= e < 4 && in_grid(w, h, x + dir_dx(e), y + dir_dy(e))
                            && !vis.contains(cell(w, x + dir_dx(e), y + dir_dy(e))) && !(x + dir_dx(e)
                            == px && y + dir_dy(e) == py) implies #[trigger] offers(
                        w,
                        self.spec_tiles(),
                        x,
                        y,
                        e,
                    ) by {
                        assert(offers(w, before, x, y, e));
                        if cell(w, x, y) == tc {
                            assert(x == tp.x && y == tp.y);
                            lemma_flag_ops(before[tc].neighbours, dir.opposite, dir_flag(e));
                            lemma_flag_ops(dir.opposite, dir.opposite, dir_flag(e));
                            if e == opposite_index(k as int) {
                                assert(dir_dx(opposite_index(k as int)) == -dir_dx(k as int));
                            }
                        } else {
                            assert(self.tiles@[cell(w, x, y)] == before[cell(w, x, y)]);
                        }
                    }
                    assert forall|i: int|
                        0 <= i < old(self).spec_tiles().len() && (#[trigger] self.spec_tiles()[i]).neighbours
                            != 0 implies old(self).spec_tiles()[i].neighbours != 0 by {
                        if i != tc {
                            assert(self.tiles@[i] == before[i]);
                        }
                    }
                    assert forall|x: int, y: int|
                        in_grid(w, h, x, y) implies #[trigger] self.spec_tiles()[cell(w, x, y)].neighbours
                        == cleared_prefix(
                        old(self).spec_tiles()[cell(w, x, y)].neighbours,
                        px,
                        py,
                        x,
                        y,
                        k as int + 1,
                    ) by {
                        if cell(w, x, y) == tc {
                            assert(x == tp.x && y == tp.y);
                        } else {
                            assert(self.tiles@[cell(w, x, y)] == before[cell(w, x, y)]);
                            assert(!(x == tp.x && y == tp.y));
                        }
                    }
                    assert forall|x: int, y: int, d: int|
                        in_grid(w, h, x, y) && 0 <= d < 4 && #[trigger] offers(
                            w,
                            self.tiles@,
                            x,
                            y,
                            d,
                        ) implies in_grid(w, h, x + dir_dx(d), y + dir_dy(d)) && !vis.contains(
                        cell(w, x + dir_dx(d), y + dir_dy(d)),
                    ) && (x + dir_dx(d) == px && y + dir_dy(d) == py ==> opposite_index(d) >= k
                        + 1) by {
                        if cell(w, x, y) == tc {
                            lemma_flag_ops(before[tc].neighbours, dir.opposite, dir_flag(d));
                            assert(x == tp.x && y == tp.y);
                            assert(offers(w, before, x, y, d));
                            if x + dir_dx(d) == px && y + dir_dy(d) == py {
                                assert(dir_dx(d) == dir_dx(opposite_index(k as int)));
                                assert(dir_dy(d) == dir_dy(opposite_index(k as int)));
                                assert(d == opposite_index(k as int));
                            }
                        } else {
                            assert(self.tiles@[cell(w, x, y)] == before[cell(w, x, y)]);
                            assert(offers(w, before, x, y, d));
                            if x + dir_dx(d) == px && y + dir_dy(d) == py && opposite_index(d) == k {
                                assert(dir_dx(opposite_index(d)) == -dir_dx(d));
                                assert(x == tp.x && y == tp.y);
                            }
                        }
                    }
                }
            } else {
                proof {
                    assert forall|x: int, y: int, d: int|
                        in_grid(w, h, x, y) && 0 <= d < 4 && #[trigger] offers(
                            w,
                            self.tiles@,
                            x,
                            y,
                            d,
                        ) implies (x + dir_dx(d) == px && y + dir_dy(d) == py ==> opposite_index(d)
                        >= k + 1) by {
                        if x + dir_dx(d) == px && y + dir_dy(d) == py && opposite_index(d) == k {
                            assert(dir_dx(opposite_index(d)) == -dir_dx(d));
                            assert(x == tp.x && y == tp.y);
                        }
                    }
                    assert forall|x: int, y: int|
                        in_grid(w, h, x, y) implies #[trigger] self.spec_tiles()[cell(w, x, y)].neighbours
                        == cleared_prefix(
                        old(self).spec_tiles()[cell(w, x, y)].neighbours,
                        px,
                        py,
                        x,
                        y,
                        k as int + 1,
                    ) by {
                        assert(!(x == tp.x && y == tp.y));
                    }
                }
            }
            k += 1;
        }
        proof {
            assert forall|x: int, y: int, d: int|
                in_grid(w, h, x, y) && 0 <= d < 4 && #[trigger] offers(
                    w,
                    self.tiles@,
                    x,
                    y,
                    d,
                ) implies in_grid(w, h, x + dir_dx(d), y + dir_dy(d)) && !vis.insert(pc).contains(
                cell(w, x + dir_dx(d), y + dir_dy(d)),
            ) by {
                assert(0 <= opposite_index(d) < 4);
                let nx = x + dir_dx(d);
                let ny = y + dir_dy(d);
                if cell(w, nx, ny) == pc {
                    assert(cell(w, nx, ny) % w == nx);
                    assert(cell(w, px, py) % w == px);
                }
            }
            assert forall|x: int, y: int, d: int|
                in_grid(w, h, x, y) && 0 <= d < 4 && in_grid(w, h, x + dir_dx(d), y + dir_dy(d))
                    && !vis.insert(pc).contains(cell(w, x + dir_dx(d), y + dir_dy(d))) implies #[trigger] offers(
                w,
                self.spec_tiles(),
                x,
                y,
                d,
            ) by {
            }
        }
    }

    /// The directions that `m` holds, in table order.
    fn offered_directions(m: Flag) -> (r: Vec<Direction>)
        ensures
            r@ == offered(m),
    {
        let dirs = directions();
        let mut arr: Vec<Direction> = Vec::new();
        let mut k: usize = 0;
        while k < 4
            invariant
                k <= 4,
                forall|i: int| 0 <= i < 4 ==> #[trigger] dirs@[i] == spec_direction(i),
                arr@ == offered_prefix(m, k as int),
            decreases 4 - k,
        {
            let d = dirs[k];
            if m & d.flag != 0 {
                arr.push(d);
            }
            k += 1;
        }
        arr
    }

    /// A direction that the tile at `pos` still offers: the `i`-th one in
    /// table order for an index `i` drawn uniformly from `rng`; `None` when
    /// it offers none.
    fn rand_dir(&self, pos: &TilePos, rng: &mut GameRng) -> (r: Option<Direction>)
        requires
            self.wf(),
            self.holds(*pos),
        ensures
            final(rng).spec_seed() == old(rng).spec_seed(),
            r is None <==> self.spec_tiles()[self.index_of(*pos)].neighbours == 0,
            r matches Some(d) ==> exists|i: int|
                0 <= i < offered(self.spec_tiles()[self.index_of(*pos)].neighbours).len() && d
                    == #[trigger] offered(self.spec_tiles()[self.index_of(*pos)].neighbours)[i],
            r matches Some(d) ==> exists|k: int|
                0 <= k < 4 && d == spec_direction(k) && #[trigger] offers(
                    self.width(),
                    self.spec_tiles(),
                    pos.x as int,
                    pos.y as int,
                    k,
                ),
    {
        let tile = self.get_tile(pos);
        let n = tile.neighbours.count_bits();
        proof {
            crate::util::lemma_bit_count_zero(tile.neighbours);
        }
        if n == 0 {
            return None;
        }
        let arr = Self::offered_directions(tile.neighbours);
        proof {
            lemma_offered(tile.neighbours, 4);
            if arr@.len() == 0 {
                lemma_flag_ops(tile.neighbours, 0, 1);
                assert(!has_flag(tile.neighbours, dir_flag(0)));
                assert(!has_flag(tile.neighbours, dir_flag(1)));
                assert(!has_flag(tile.neighbours, dir_flag(2)));
                assert(!has_flag(tile.neighbours, dir_flag(3)));
            }
        }
        let i = rng.gen_range_usize(0, arr.len());
        let d = arr[i];
        proof {
            let k = choose|k: int|
                0 <= k < 4 && #[trigger] offered(tile.neighbours)[i as int] == spec_direction(k) && has_flag(
                    tile.neighbours,
                    dir_flag(k),
                );
            assert(offers(self.width(), self.spec_tiles(), pos.x as int, pos.y as int, k));
        }
        Some(d)
    }

    /// Grows a random spanning network from the root: repeatedly picks a
    /// cell of the worklist at random and links it to a random cell it still
    /// offers.
    fn generate_tree(&mut self, rng: &mut GameRng)
        requires
            old(self).wf(),
            old(self).spec_worklist().len() == 0,
            frontier_ok(old(self).width(), old(self).height(), old(self).spec_tiles(), Set::empty()),
            frontier_full(old(self).width(), old(self).height(), old(self).spec_tiles(), Set::empty()),
            forall|i: int|
                0 <= i < old(self).spec_tiles().len() ==> (#[trigger] old(self).spec_tiles()[i]).directions
                    == 0,
        ensures
            final(self).wf(),
            final(self).spec_size() == old(self).spec_size(),
            final(self).spec_root() == old(self).spec_root(),
            final(rng).spec_seed() == old(rng).spec_seed(),
            final(self).spec_tiles().len() == old(self).spec_tiles().len(),
            forall|i: int|
                0 <= i < old(self).spec_tiles().len() ==> (#[trigger] final(self).spec_tiles()[i]).kind
                    == old(self).spec_tiles()[i].kind && final(self).spec_tiles()[i].powered == old(
                    self,
                ).spec_tiles()[i].powered,
            forall|x: int, y: int|
                in_grid(final(self).width(), final(self).height(), x, y) && (#[trigger] final(self).spec_tiles()[cell(final(self).width(), x, y)]).directions != 0 ==> reachable(
                    final(self).width(),
                    final(self).height(),
                    masks_of(final(self).spec_tiles()),
                    final(self).spec_root().x as int,
                    final(self).spec_root().y as int,
                    x,
                    y,
                ),
            stubs_matched(final(self).width(), final(self).height(), masks_of(final(self).spec_tiles())),
            final(self).spec_worklist().len() == 0,
            stub_total(masks_of(final(self).spec_tiles())) == 2 * (final(self).width() * final(self).height() - 1),
            forall|x: int, y: int|
                in_grid(final(self).width(), final(self).height(), x, y) ==> #[trigger] reachable(
                    final(self).width(),
                    final(self).height(),
                    masks_of(final(self).spec_tiles()),
                    final(self).spec_root().x as int,
                    final(self).spec_root().y as int,
                    x,
                    y,
                ),
            forall|i: int|
                0 <= i < final(self).spec_tiles().len() ==> (#[trigger] final(self).spec_tiles()[i]).neighbours
                    == 0,
    {
        let ghost w = self.width();
        let ghost h = self.height();
        let ghost n: int = w * h;
        proof {
            lemma_cells(w, h);
            lemma_dir_facts();
            vstd::set_lib::lemma_int_range(0, n);
        }
        let rp = self.root;
        let ghost rx = rp.x as int;
        let ghost ry = rp.y as int;
        let ghost mut vis: Set<int> = Set::empty();
        self.visit_tile(&rp, 0, Ghost(vis));
        proof {
            vis = vis.insert(cell(w, rx, ry));
            vstd::set_lib::lemma_len_subset(vis, vstd::set_lib::set_int_range(0, n));
            lemma_flag_ops(0, 0, 1);
            assert forall|x: int, y: int, d: int|
                in_grid(w, h, x, y) && 0 <= d < 4 && #[trigger] has_flag(
                    masks_of(self.tiles@)[cell(w, x, y)],
                    dir_flag(d),
                ) implies conducts(w, h, masks_of(self.tiles@), x, y, d) by {
                lemma_flag_ops(0, 0, dir_flag(d));
            }
            assert(reach_within(w, h, masks_of(self.tiles@), rx, ry, 0, rx, ry));
            assert(self.spec_worklist()[0] == rp);
            assert(on_stack(self.spec_worklist(), rx, ry));
            assert(0u8 | 0u8 == 0u8) by (bit_vector);
            assert forall|i: int| 0 <= i < n implies #[trigger] masks_of(self.tiles@)[i] == 0 by {
                assert(old(self).tiles@[i].directions == 0);
            }
            lemma_total_zero(masks_of(self.tiles@));
            assert(vis.len() == 1);
            assert forall|x: int, y: int|
                in_grid(w, h, x, y) && vis.contains(#[trigger] cell(w, x, y)) && self.tiles@[cell(
                    w,
                    x,
                    y,
                )].neighbours != 0 implies on_stack(self.spec_worklist(), x, y) by {
                assert(x == rx && y == ry);
            }
            assert forall|x: int, y: int|
                in_grid(w, h, x, y) && vis.contains(#[trigger] cell(w, x, y)) implies reachable(
                w,
                h,
                masks_of(self.tiles@),
                rx,
                ry,
                x,
                y,
            ) by {
                assert(x == rx && y == ry);
                assert(reach_within(w, h, masks_of(self.tiles@), rx, ry, 0, x, y));
            }
        }
        while self.tiles_to_visit.len() > 0
            invariant
                self.wf(),
                w == self.width(),
                h == self.height(),
                n == w * h,
                self.spec_size() == old(self).spec_size(),
                self.spec_root() == old(self).spec_root(),
                rng.spec_seed() == old(rng).spec_seed(),
                vstd::set_lib::set_int_range(0, n).finite(),
                vstd::set_lib::set_int_range(0, n).len() == n,
                forall|x: int, y: int|
                    #![trigger cell(w, x, y)]
                    in_grid(w, h, x, y) ==> 0 <= cell(w, x, y) < w * h && cell(w, x, y) % w == x
                        && cell(w, x, y) / w == y,
                frontier_ok(w, h, self.spec_tiles(), vis),
                forall|j: int|
                    0 <= j < self.spec_worklist().len() ==> self.holds(#[trigger] self.spec_worklist()[j])
                        && vis.contains(self.index_of(self.spec_worklist()[j])),
                vis.finite(),
                vis.len() <= n,
                forall|i: int| #[trigger] vis.contains(i) ==> 0 <= i < n,
                self.spec_tiles().len() == old(self).spec_tiles().len(),
                forall|i: int|
                    0 <= i < old(self).spec_tiles().len() ==> (#[trigger] self.spec_tiles()[i]).kind
                        == old(self).spec_tiles()[i].kind && self.spec_tiles()[i].powered == old(
                        self,
                    ).spec_tiles()[i].powered,
                rx == self.spec_root().x,
                ry == self.spec_root().y,
                forall|x: int, y: int|
                    in_grid(w, h, x, y) && vis.contains(#[trigger] cell(w, x, y)) ==> reachable(
                        w,
                        h,
                        masks_of(self.tiles@),
                        rx,
                        ry,
                        x,
                        y,
                    ),
                forall|i: int|
                    0 <= i < n && (#[trigger] self.tiles@[i]).directions != 0 ==> vis.contains(i),
                stubs_matched(w, h, masks_of(self.tiles@)),
                frontier_full(w, h, self.spec_tiles(), vis),
                vis.contains(cell(w, rx, ry)),
                in_grid(w, h, rx, ry),
                stub_total(masks_of(self.tiles@)) == 2 * (vis.len() - 1),
                forall|x: int, y: int|
                    in_grid(w, h, x, y) && vis.contains(#[trigger] cell(w, x, y)) && self.tiles@[cell(
                        w,
                        x,
                        y,
                    )].neighbours != 0 ==> on_stack(self.spec_worklist(), x, y),
            decreases n - vis.len(), self.spec_worklist().len(),
        {
            let ghost vis0 = vis;
            let k = rng.gen_range_usize(0, self.tiles_to_visit.len());
            let mut tile_pos = self.tiles_to_visit[k];
            let pos0 = tile_pos;
            let ghost wl0 = self.spec_worklist();
            let ghost len0 = self.spec_worklist().len();
            assert(self.holds(self.spec_worklist()[k as int]));
            if let Some(dir) = self.rand_dir(&tile_pos, rng) {
                let ghost c0 = cell(w, tile_pos.x as int, tile_pos.y as int);
                let ghost d = choose|d: int|
                    0 <= d < 4 && dir == spec_direction(d) && #[trigger] offers(
                        w,
                        self.spec_tiles(),
                        tile_pos.x as int,
                        tile_pos.y as int,
                        d,
                    );
                let ghost x0 = tile_pos.x as int;
                let ghost y0 = tile_pos.y as int;
                let ghost m0 = masks_of(self.tiles@);
                let ghost t0 = self.tiles@;
                self.visit_tile(&tile_pos, dir.flag, Ghost(vis));
                let ghost m1 = masks_of(self.tiles@);
                let ghost t1 = self.tiles@;
                proof {
                    assert(vis.insert(c0) =~= vis);
                    assert forall|i: int, e: int|
                        0 <= i < m0.len() && 0 <= e < 4 && #[trigger] has_flag(m0[i], dir_flag(e)) implies has_flag(
                        m1[i],
                        dir_flag(e),
                    ) by {
                        lemma_flag_ops(t0[i].directions, dir.flag, dir_flag(e));
                    }
                    lemma_reach_grows(w, h, m0, m1, rx, ry);
                    lemma_flag_ops(t0[c0].directions, dir.flag, dir_flag(d));
                    lemma_flag_ops(dir.flag, dir.flag, dir_flag(d));
                    assert(has_flag(m1[c0], dir_flag(d)));
                }
                tile_pos = tile_pos.add(dir.offset);
                let ghost c1 = cell(w, tile_pos.x as int, tile_pos.y as int);
                assert(!vis.contains(c1));
                self.visit_tile(&tile_pos, dir.opposite, Ghost(vis));
                proof {
                    let m2 = masks_of(self.tiles@);
                    assert forall|i: int, e: int|
                        0 <= i < m1.len() && 0 <= e < 4 && #[trigger] has_flag(m1[i], dir_flag(e)) implies has_flag(
                        m2[i],
                        dir_flag(e),
                    ) by {
                        lemma_flag_ops(t1[i].directions, dir.opposite, dir_flag(e));
                    }
                    lemma_reach_grows(w, h, m1, m2, rx, ry);
                    assert(c1 != c0);
                    assert(has_flag(m2[c0], dir_flag(d)));
                    lemma_flag_ops(t1[c1].directions, dir.opposite, dir.opposite);
                    lemma_flag_ops(dir.opposite, dir.opposite, dir.opposite);
                    assert(has_flag(m2[c1], spec_direction(d).opposite));
                    assert(reachable(w, h, m1, rx, ry, x0, y0));
                    let pn = choose|pn: nat| #[trigger] reach_within(w, h, m2, rx, ry, pn, x0, y0);
                    let x1 = tile_pos.x as int;
                    let y1 = tile_pos.y as int;
                    assert(conducts(w, h, m2, x1 - dir_dx(d), y1 - dir_dy(d), d));
                    assert(reach_within(w, h, m2, rx, ry, pn + 1, x1, y1));
                    assert(reachable(w, h, m2, rx, ry, x1, y1));
                    assert forall|x: int, y: int|
                        in_grid(w, h, x, y) && vis.insert(c1).contains(#[trigger] cell(w, x, y))
                            && self.tiles@[cell(w, x, y)].neighbours != 0 implies on_stack(
                        self.spec_worklist(),
                        x,
                        y,
                    ) by {
                        if cell(w, x, y) == c1 {
                            assert(x == x1 && y == y1);
                            assert(t1[c1].directions == 0);
                            assert(self.spec_worklist()[self.spec_worklist().len() - 1] == tile_pos);
                        } else {
                            assert(t0[cell(w, x, y)].neighbours != 0);
                            let j = choose|j: int|
                                0 <= j < wl0.len() && (#[trigger] wl0[j]).x == x && wl0[j].y == y;
                            assert(self.spec_worklist()[j] == wl0[j]);
                        }
                    }
                    vis = vis.insert(c1);
                    vstd::set_lib::lemma_len_subset(vis, vstd::set_lib::set_int_range(0, n));
                    assert forall|x: int, y: int|
                        in_grid(w, h, x, y) && vis.contains(#[trigger] cell(w, x, y)) implies reachable(
                        w,
                        h,
                        m2,
                        rx,
                        ry,
                        x,
                        y,
                    ) by {
                        if cell(w, x, y) == c1 {
                            assert(x == x1 && y == y1);
                        } else {
                            assert(reachable(w, h, m1, rx, ry, x, y));
                        }
                    }
                    assert forall|i: int|
                        0 <= i < n && (#[trigger] self.tiles@[i]).directions != 0 implies vis.contains(i) by {
                        if i != c0 && i != c1 {
                            assert(t0[i].directions == self.tiles@[i].directions);
                        }
                    }
                    assert(t0[c1].directions == 0);
                    assert(m2[c1] == (0u8 | dir.opposite));
                    assert(m2[c0] == m0[c0] | dir.flag);
                    assert forall|i: int| 0 <= i < n && i != c0 && i != c1 implies #[trigger] m2[i] == m0[i] by {
                        assert(t0[i].directions == self.tiles@[i].directions);
                    }
                    lemma_link_keeps_stubs(w, h, m0, m2, x0, y0, d);
                    assert(m0[c0] & dir.flag == 0) by {
                        if has_flag(m0[c0], dir_flag(d)) {
                            assert(conducts(w, h, m0, x0, y0, d));
                            lemma_flag_ops(0, 0, dir.opposite);
                        }
                    }
                    assert(m0[c0] < 16);
                    lemma_count_add(m0[c0], dir.flag);
                    lemma_flag_ops(0, dir.opposite, 1);
                    lemma_count_add(0, dir.opposite);
                    assert(m0[c1] == 0);
                    let ma = m0.update(c0, m2[c0]);
                    lemma_total_update(m0, c0, m2[c0]);
                    lemma_total_update(ma, c1, m2[c1]);
                    assert(ma.update(c1, m2[c1]) =~= m2);
                    assert(!vis0.contains(c1));
                    assert(vis =~= vis0.insert(c1));
                    assert(vis.len() == vis0.len() + 1);
                }
            }
            proof {
                assert(self.spec_worklist()[k as int] == pos0);
            }
            if self.get_tile(&pos0).neighbours.count_bits() == 0 {
                let ghost before = self.spec_worklist();
                let ghost p0 = self.spec_tiles()[self.index_of(pos0)];
                proof {
                    crate::util::lemma_bit_count_zero(p0.neighbours);
                }
                self.tiles_to_visit.remove(k);
                proof {
                    assert forall|x: int, y: int|
                        in_grid(w, h, x, y) && vis.contains(#[trigger] cell(w, x, y)) && self.tiles@[cell(
                            w,
                            x,
                            y,
                        )].neighbours != 0 implies on_stack(self.spec_worklist(), x, y) by {
                        let j = choose|j: int|
                            0 <= j < before.len() && (#[trigger] before[j]).x == x && before[j].y == y;
                        if j == k {
                            assert(cell(w, x, y) == self.index_of(pos0));
                        } else if j < k {
                            assert(self.spec_worklist()[j] == before[j]);
                        } else {
                            assert(self.spec_worklist()[j - 1] == before[j]);
                        }
                    }
                    assert forall|j: int|
                        0 <= j < self.spec_worklist().len() implies self.holds(
                        #[trigger] self.spec_worklist()[j],
                    ) && vis.contains(self.index_of(self.spec_worklist()[j])) by {
                        if j < k {
                            assert(self.spec_worklist()[j] == before[j]);
                        } else {
                            assert(self.spec_worklist()[j] == before[j + 1]);
                        }
                    }
                }
            }
        }
        proof {
            assert forall|x: int, y: int|
                in_grid(w, h, x, y) && (#[trigger] self.spec_tiles()[cell(w, x, y)]).directions != 0
                implies reachable(w, h, masks_of(self.spec_tiles()), rx, ry, x, y) by {
                assert(vis.contains(cell(w, x, y)));
            }
            assert forall|a: int, b: int, d: int|
                in_grid(w, h, a, b) && 0 <= d < 4 && vis.contains(cell(w, a, b)) && in_grid(
                    w,
                    h,
                    a + dir_dx(d),
                    b + dir_dy(d),
                ) implies vis.contains(#[trigger] cell(w, a + dir_dx(d), b + dir_dy(d))) by {
                if self.tiles@[cell(w, a, b)].neighbours != 0 {
                    assert(on_stack(self.spec_worklist(), a, b));
                }
                lemma_flag_ops(0, 0, dir_flag(d));
                assert(!offers(w, self.spec_tiles(), a, b, d));
            }
            assert forall|x: int, y: int| in_grid(w, h, x, y) implies #[trigger] vis.contains(cell(w, x, y)) by {
                lemma_column(w, h, vis, rx, ry, x, y);
            }
            assert forall|x: int, y: int|
                in_grid(w, h, x, y) implies #[trigger] reachable(w, h, masks_of(self.spec_tiles()), rx, ry, x, y) by {
                assert(vis.contains(cell(w, x, y)));
            }
            assert forall|i: int| #[trigger] vstd::set_lib::set_int_range(0, n).contains(i) implies vis.contains(i) by {
                lemma_index_cell(w, h, i);
                assert(vis.contains(cell(w, i % w, i / w)));
            }
            vstd::set_lib::lemma_len_subset(vstd::set_lib::set_int_range(0, n), vis);
            assert forall|i: int|
                0 <= i < self.spec_tiles().len() implies (#[trigger] self.spec_tiles()[i]).neighbours == 0 by {
                lemma_index_cell(w, h, i);
                let x = i % w;
                let y = i / w;
                let m = self.spec_tiles()[i].neighbours;
                assert forall|d: int| 0 <= d < 4 implies !has_flag(m, #[trigger] dir_flag(d)) by {
                    if has_flag(m, dir_flag(d)) {
                        assert(offers(w, self.spec_tiles(), x, y, d));
                        assert(vis.contains(cell(w, x + dir_dx(d), y + dir_dy(d))));
                    }
                }
                assert(m < 16);
                lemma_flag_ops(m, 0, 1);
                assert(!has_flag(m, dir_flag(0)));
                assert(!has_flag(m, dir_flag(1)));
                assert(!has_flag(m, dir_flag(2)));
                assert(!has_flag(m, dir_flag(3)));
            }
        }
    }

    /// Gives each tile its kind: terminal with one open stub, connector
    /// otherwise, and the root the server.
    fn set_tiles_kinds(&mut self)
        requires
            old(self).wf(),
        ensures
            final(self).wf(),
            final(self).spec_size() == old(self).spec_size(),
            final(self).spec_root() == old(self).spec_root(),
            final(self).spec_tiles().len() == old(self).spec_tiles().len(),
            forall|i: int|
                0 <= i < old(self).spec_tiles().len() ==> #[trigger] final(self).spec_tiles()[i] == (Tile {
                    kind: kind_rule(
                        old(self).spec_tiles()[i],
                        i == old(self).index_of(old(self).spec_root()),
                    ),
                    ..old(self).spec_tiles()[i]
                }),
    {
        let n = self.tiles.len();
        let mut i: usize = 0;
        while i < n
            invariant
                self.wf(),
                self.spec_size() == old(self).spec_size(),
                self.spec_root() == old(self).spec_root(),
                n == self.tiles@.len(),
                n == old(self).tiles@.len(),
                i <= n,
                forall|j: int|
                    0 <= j < n ==> #[trigger] self.tiles@[j] == (Tile {
                        kind: if j < i {
                            kind_rule(old(self).tiles@[j], false)
                        } else {
                            old(self).tiles@[j].kind
                        },
                        ..old(self).tiles@[j]
                    }),
            decreases n - i,
        {
            let mut tile = self.tiles[i];
            if tile.connections() == 1 {
                tile.kind = TileKind::TERMINAL;
            } else {
                tile.kind = TileKind::CONNECTOR;
            }
            let ghost before = self.tiles@;
            self.tiles.set(i, tile);
            proof {
                assert forall|j: int| 0 <= j < self.tiles@.len() implies #[trigger] self.tiles@[j].directions
                    < 16 && self.tiles@[j].neighbours < 16 by {
                    assert(before[j].directions < 16);
                }
            }
            i += 1;
        }
        let pos = self.root;
        let mut tile = self.get_tile(&pos);
        tile.kind = TileKind::SERVER;
        self.set_tile(&pos, tile);
    }

    /// Generates a board of `width` by `height` cells from `rng`: a random
    /// root, a random spanning tree of pipes grown from it (every stub meets
    /// its neighbour's, every cell is reached from the root, and there are
    /// `width * height - 1` pipes), and the kinds of its tiles. The board
    /// comes out solved, with no frontier left.
    pub fn new(width: i32, height: i32, rng: &mut GameRng) -> (r: Self)
        requires
            width >= 1,
            height >= 1,
            width * height <= i32::MAX,
        ensures
            r.wf(),
            r.spec_size() == (Size::<i32> { width: width, height: height }),
            final(rng).spec_seed() == old(rng).spec_seed(),
            r.solved(),
            stubs_matched(width as int, height as int, masks_of(r.spec_tiles())),
            stub_total(masks_of(r.spec_tiles())) == 2 * (width * height - 1),
            forall|x: int, y: int|
                in_grid(width as int, height as int, x, y) ==> #[trigger] reachable(
                    width as int,
                    height as int,
                    masks_of(r.spec_tiles()),
                    r.spec_root().x as int,
                    r.spec_root().y as int,
                    x,
                    y,
                ),
            forall|x: int, y: int|
                in_grid(width as int, height as int, x, y) ==> (r.spec_tiles()[#[trigger] cell(
                    width as int,
                    x,
                    y,
                )].kind == TileKind::SERVER <==> (x == r.spec_root().x && y == r.spec_root().y)),
            forall|i: int|
                0 <= i < r.spec_tiles().len() ==> (#[trigger] r.spec_tiles()[i]).neighbours == 0,
            forall|i: int|
                0 <= i < r.spec_tiles().len() ==> (#[trigger] r.spec_tiles()[i]).kind == kind_rule(
                    r.spec_tiles()[i],
                    i == r.index_of(r.spec_root()),
                ) && !r.spec_tiles()[i].powered,
    {
        let size = Size::new(width, height);
        let rx = rng.gen_range_i32(0, width);
        let ry = rng.gen_range_i32(0, height);
        let mut board = Self {
            size: size,
            tiles: Vec::new(),
            tiles_to_visit: Vec::new(),
            root: TilePos::new(rx, ry),
            start: now(),
        };
        board.init_tiles();
        proof {
            assert forall|i: int| 0 <= i < board.tiles@.len() implies !(#[trigger] board.tiles@[i]).powered
                && board.tiles@[i].directions == 0 by {
                lemma_index_cell(width as int, height as int, i);
            }
        }
        board.generate_tree(rng);
        let ghost grown = board.tiles@;
        board.set_tiles_kinds();
        proof {
            let w = width as int;
            let h = height as int;
            lemma_cells(w, h);
            assert(masks_of(board.tiles@) =~= masks_of(grown));
            assert forall|x: int, y: int|
                in_grid(w, h, x, y) implies (board.tiles@[#[trigger] cell(w, x, y)].kind
                == TileKind::SERVER <==> (x == board.root.x && y == board.root.y)) by {
                if cell(w, x, y) == cell(w, board.root.x as int, board.root.y as int) {
                    assert(cell(w, x, y) % w == x);
                }
            }
            assert forall|i: int|
                0 <= i < w * h && #[trigger] board.tiles@[i].kind == TileKind::TERMINAL implies reachable(
                w,
                h,
                masks_of(board.tiles@),
                board.root.x as int,
                board.root.y as int,
                i % w,
                i / w,
            ) by {
                lemma_index_cell(w, h, i);
                crate::util::lemma_bit_count_zero(grown[i].directions);
                assert(grown[cell(w, i % w, i / w)].directions != 0);
            }
        }
        board
    }

    /// Turns every tile right by a random number of quarter turns, from 0 to
    /// 2, drawn from `rng` one tile after another.
    pub fn scramble(&mut self, rng: &mut GameRng)
        requires
            old(self).wf(),
        ensures
            final(self).wf(),
            final(self).spec_size() == old(self).spec_size(),
            final(self).spec_root() == old(self).spec_root(),
            final(rng).spec_seed() == old(rng).spec_seed(),
            final(self).spec_tiles().len() == old(self).spec_tiles().len(),
            forall|i: int|
                0 <= i < old(self).spec_tiles().len() ==> scrambled(
                    old(self).spec_tiles()[i],
                    #[trigger] final(self).spec_tiles()[i],
                ),
    {
        let n = self.tiles.len();
        let mut turns: Vec<i32> = Vec::new();
        let mut i: usize = 0;
        while i < n
            invariant
                rng.spec_seed() == old(rng).spec_seed(),
                n == self.tiles@.len(),
                i <= n,
                turns@.len() == i,
                forall|j: int| 0 <= j < i ==> 0 <= #[trigger] turns@[j] < 3,
            decreases n - i,
        {
            turns.push(rng.gen_range_i32(0, 3));
            i += 1;
        }
        self.scramble_with(&turns);
        proof {
            assert forall|j: int| 0 <= j < n implies scrambled(
                old(self).tiles@[j],
                #[trigger] self.tiles@[j],
            ) by {
                let t = turns@[j] as nat;
                assert(self.tiles@[j].directions == turned_times(
                    old(self).tiles@[j].directions,
                    RotationDirection::Right,
                    t,
                ));
            }
        }
    }

    /// Turns tile `i` right by `turns[i]` quarter turns, for every tile.
    pub fn scramble_with(&mut self, turns: &Vec<i32>)
        requires
            old(self).wf(),
            turns@.len() == old(self).spec_tiles().len(),
            forall|i: int| 0 <= i < turns@.len() ==> 0 <= #[trigger] turns@[i] < 3,
        ensures
            final(self).wf(),
            final(self).spec_size() == old(self).spec_size(),
            final(self).spec_root() == old(self).spec_root(),
            final(self).spec_tiles().len() == old(self).spec_tiles().len(),
            forall|i: int|
                0 <= i < old(self).spec_tiles().len() ==> #[trigger] final(self).spec_tiles()[i] == (Tile {
                    directions: turned_times(
                        old(self).spec_tiles()[i].directions,
                        RotationDirection::Right,
                        turns@[i] as nat,
                    ),
                    ..old(self).spec_tiles()[i]
                }),
    {
        let n = self.tiles.len();
        let mut i: usize = 0;
        while i < n
            invariant
                self.wf(),
                self.spec_size() == old(self).spec_size(),
                self.spec_root() == old(self).spec_root(),
                n == self.tiles@.len(),
                n == old(self).tiles@.len(),
                n == turns@.len(),
                i <= n,
                forall|j: int| 0 <= j < n ==> 0 <= #[trigger] turns@[j] < 3,
                forall|j: int| i <= j < n ==> #[trigger] self.tiles@[j] == old(self).tiles@[j],
                forall|j: int|
                    0 <= j < i ==> #[trigger] self.tiles@[j] == (Tile {
                        directions: turned_times(
                            old(self).tiles@[j].directions,
                            RotationDirection::Right,
                            turns@[j] as nat,
                        ),
                        ..old(self).tiles@[j]
                    }),
            decreases n - i,
        {
            let k = turns[i];
            let mut tile = self.tiles[i];
            tile.rotate(RotationDirection::Right, k);
            proof {
                let t = k as nat;
                assert(self.tiles@[i as int] == old(self).tiles@[i as int]);
                if t > 0 {
                    reveal_with_fuel(turned_times, 1);
                    lemma_turned_bounded(
                        turned_times(old(self).tiles@[i as int].directions, RotationDirection::Right, (t - 1) as nat),
                        RotationDirection::Right,
                    );
                } else {
                    assert(self.tiles@[i as int].directions < 16);
                }
            }
            let ghost before = self.tiles@;
            self.tiles.set(i, tile);
            proof {
                assert forall|j: int| 0 <= j < self.tiles@.len() implies #[trigger] self.tiles@[j].directions
                    < 16 && self.tiles@[j].neighbours < 16 by {
                    assert(before[j].directions < 16);
                }
            }
            i += 1;
        }
    }

    /// Restarts the board's clock.
    pub fn start_timer(&mut self)
        ensures
            final(self).spec_size() == old(self).spec_size(),
            final(self).spec_tiles() == old(self).spec_tiles(),
            final(self).spec_root() == old(self).spec_root(),
    {
        self.start = now();
    }

    /// When the clock was last started.
    pub fn get_start_time(&self) -> (r: Instant)
        ensures
            r == self.spec_start(),
    {
        self.start
    }

    /// The open stubs of every tile, row-major.
    pub fn get_directions(&self) -> (r: Vec<Flag>)
        ensures
            r@ == masks_of(self.spec_tiles()),
    {
        let mut r: Vec<Flag> = Vec::new();
        let mut i: usize = 0;
        while i < self.tiles.len()
            invariant
                i <= self.tiles@.len(),
                r@ == masks_of(self.tiles@.subrange(0, i as int)),
            decreases self.tiles@.len() - i,
        {
            r.push(self.tiles[i].directions);
            i += 1;
            assert(masks_of(self.tiles@.subrange(0, i as int)) =~= r@);
        }
        assert(self.tiles@.subrange(0, i as int) =~= self.tiles@);
        r
    }

    /// The frontier mask of every tile, row-major.
    pub fn get_neighbours(&self) -> (r: Vec<Flag>)
        ensures
            r@ == frontiers_of(self.spec_tiles()),
    {
        let mut r: Vec<Flag> = Vec::new();
        let mut i: usize = 0;
        while i < self.tiles.len()
            invariant
                i <= self.tiles@.len(),
                r@ == frontiers_of(self.tiles@.subrange(0, i as int)),
            decreases self.tiles@.len() - i,
        {
            r.push(self.tiles[i].neighbours);
            i += 1;
            assert(frontiers_of(self.tiles@.subrange(0, i as int)) =~= r@);
        }
        assert(self.tiles@.subrange(0, i as int) =~= self.tiles@);
        r
    }

    /// The position of the server tile.
    pub fn get_root(&self) -> (r: TilePos)
        ensures
            r == self.spec_root(),
    {
        self.root
    }

    /// The board's dimensions.
    pub fn get_size(&self) -> (r: Size<i32>)
        ensures
            r == self.spec_size(),
    {
        self.size
    }

    /// Replaces the tile at `pos`.
    pub fn set_tile(&mut self, pos: &TilePos, tile: Tile)
        requires
            old(self).wf(),
            old(self).holds(*pos),
            tile.directions < 16,
            tile.neighbours < 16,
        ensures
            final(self).wf(),
            final(self).spec_tiles() == old(self).spec_tiles().update(
                old(self).index_of(*pos),
                tile,
            ),
            final(self).spec_size() == old(self).spec_size(),
            final(self).spec_root() == old(self).spec_root(),
            final(self).spec_worklist() == old(self).spec_worklist(),
    {
        let i = self.index(pos);
        self.tiles.set(i, tile);
        assert forall|j: int| 0 <= j < self.tiles@.len() implies #[trigger] self.tiles@[j].directions
            < 16 && self.tiles@[j].neighbours < 16 by {
            if j != i {
                assert(old(self).tiles@[j].directions < 16);
            }
        }
    }

    /// Mutable access to the tile at `pos`.
    pub fn get_tile_mut(&mut self, pos: &TilePos) -> (r: &mut Tile)
        requires
            old(self).wf(),
            old(self).holds(*pos),
        ensures
            *r == old(self).spec_tiles()[old(self).index_of(*pos)],
            final(self).spec_tiles() == old(self).spec_tiles().update(
                old(self).index_of(*pos),
                *final(r),
            ),
            final(self).spec_size() == old(self).spec_size(),
            final(self).spec_root() == old(self).spec_root(),
            final(self).spec_worklist() == old(self).spec_worklist(),
    {
        let i = self.index(pos);
        &mut self.tiles[i]
    }

    /// The tile at `pos`.
    pub fn get_tile(&self, pos: &TilePos) -> (r: Tile)
        requires
            self.wf(),
            self.holds(*pos),
        ensures
            r == self.spec_tiles()[self.index_of(*pos)],
            0 <= self.index_of(*pos) < self.spec_tiles().len(),
            r.directions < 16,
            r.neighbours < 16,
    {
        let i = self.index(pos);
        assert(self.tiles@[i as int].directions < 16);
        self.tiles[i]
    }

    /// Turns the tile at `pos` a quarter turn. Returns its new open stubs, or
    /// 0 when `pos` is off the board or the turn changes nothing visible.
    pub fn rotate_tile(&mut self, pos: &TilePos, dir: RotationDirection) -> (r: Flag)
        requires
            old(self).wf(),
        ensures
            final(self).wf(),
            final(self).spec_size() == old(self).spec_size(),
            final(self).spec_root() == old(self).spec_root(),
            !old(self).holds(*pos) ==> r == 0 && final(self).spec_tiles() == old(
                self,
            ).spec_tiles(),
            old(self).holds(*pos) ==> ({
                let t = old(self).spec_tiles()[old(self).index_of(*pos)];
                let m = turned(t.directions, dir);
                &&& final(self).spec_tiles() == old(self).spec_tiles().update(
                    old(self).index_of(*pos),
                    Tile { directions: m, ..t },
                )
                &&& r == if m == t.directions {
                    0
                } else {
                    m
                }
            }),
    {
        if !self.in_bounds(pos) {
            return 0;
        }
        let mut tile = self.get_tile(pos);
        let old_dirs = tile.directions;
        tile.rotate(dir, 1);
        proof {
            reveal_with_fuel(turned_times, 2);
            lemma_turned_bounded(old_dirs, dir);
        }
        self.set_tile(pos, tile);
        if tile.directions == old_dirs {
            return 0;
        }
        tile.directions
    }

    /// Powers every tile that receives power from `pos`, starting from a
    /// board where no tile is powered. The walk keeps its own stack.
    fn solve_walk(&mut self, pos: TilePos)
        requires
            old(self).wf(),
            old(self).holds(pos),
            forall|i: int|
                0 <= i < old(self).spec_tiles().len() ==> !(#[trigger] old(
                    self,
                ).spec_tiles()[i]).powered,
        ensures
            final(self).wf(),
            final(self).spec_size() == old(self).spec_size(),
            final(self).spec_root() == old(self).spec_root(),
            final(self).spec_worklist() == old(self).spec_worklist(),
            final(self).spec_tiles().len() == old(self).spec_tiles().len(),
            forall|i: int|
                0 <= i < old(self).spec_tiles().len() ==> (#[trigger] final(self).spec_tiles()[i]).directions
                    == old(self).spec_tiles()[i].directions && final(self).spec_tiles()[i].kind
                    == old(self).spec_tiles()[i].kind && final(self).spec_tiles()[i].neighbours
                    == old(self).spec_tiles()[i].neighbours,
            forall|x: int, y: int|
                in_grid(old(self).width(), old(self).height(), x, y) ==> (final(self).spec_tiles()[#[trigger] cell(old(self).width(), x, y)].powered <==> reachable(
                    old(self).width(),
                    old(self).height(),
                    masks_of(old(self).spec_tiles()),
                    pos.x as int,
                    pos.y as int,
                    x,
                    y,
                )),
    {
        let ghost w = self.width();
        let ghost h = self.height();
        let ghost m = masks_of(self.tiles@);
        let ghost n: int = self.tiles@.len() as int;
        let ghost rx = pos.x as int;
        let ghost ry = pos.y as int;
        proof {
            lemma_cells(w, h);
            vstd::set_lib::lemma_int_range(0, n);
        }
        let dirs = directions();
        let mut stack: Vec<TilePos> = Vec::new();
        let mut t = self.get_tile(&pos);
        t.powered = true;
        self.set_tile(&pos, t);
        stack.push(pos);
        let ghost mut vis: Set<int> = Set::empty().insert(cell(w, rx, ry));
        proof {
            assert forall|i: int| 0 <= i < n implies #[trigger] m[i] == old(self).tiles@[i].directions by {
            }
            assert(reach_within(w, h, m, rx, ry, 0, rx, ry));
            assert forall|i: int| 0 <= i < n implies (#[trigger] self.tiles@[i].powered
                <==> vis.contains(i)) by {
                if i != cell(w, rx, ry) {
                    assert(!old(self).tiles@[i].powered);
                }
            }
            assert(on_stack(stack@, rx, ry)) by {
                assert(stack@[0] == pos);
            }
            vstd::set_lib::lemma_len_subset(vis, vstd::set_lib::set_int_range(0, n));
        }
        while stack.len() > 0
            invariant
                self.wf(),
                self.spec_size() == old(self).spec_size(),
                self.spec_root() == old(self).spec_root(),
                self.spec_worklist() == old(self).spec_worklist(),
                w == self.width(),
                h == self.height(),
                n == w * h,
                m == masks_of(old(self).tiles@),
                forall|i: int| 0 <= i < n ==> #[trigger] m[i] == old(self).tiles@[i].directions,
                in_grid(w, h, rx, ry),
                self.tiles@[cell(w, rx, ry)].powered,
                vstd::set_lib::set_int_range(0, n).finite(),
                vstd::set_lib::set_int_range(0, n).len() == n,
                forall|x: int, y: int|
                    #![trigger cell(w, x, y)]
                    in_grid(w, h, x, y) ==> 0 <= cell(w, x, y) < w * h && cell(w, x, y) % w == x
                        && cell(w, x, y) / w == y,
                self.tiles@.len() == n,
                forall|i: int|
                    0 <= i < n ==> (#[trigger] self.tiles@[i]).directions
                        == old(self).tiles@[i].directions && self.tiles@[i].kind == old(
                        self,
                    ).tiles@[i].kind && self.tiles@[i].neighbours == old(self).tiles@[i].neighbours,
                forall|i: int| 0 <= i < 4 ==> #[trigger] dirs@[i] == spec_direction(i),
                forall|i: int| 0 <= i < n ==> (#[trigger] self.tiles@[i].powered <==> vis.contains(i)),
                vis.finite(),
                vis.len() <= n,
                forall|i: int| #[trigger] vis.contains(i) ==> 0 <= i < n,
                forall|j: int|
                    0 <= j < stack@.len() ==> self.holds(#[trigger] stack@[j]) && self.tiles@[cell(
                        w,
                        stack@[j].x as int,
                        stack@[j].y as int,
                    )].powered,
                forall|x: int, y: int|
                    in_grid(w, h, x, y) && (#[trigger] self.tiles@[cell(w, x, y)]).powered
                        ==> reachable(w, h, m, rx, ry, x, y),
                forall|x: int, y: int, d: int|
                    #[trigger] conducts(w, h, m, x, y, d) && self.tiles@[cell(w, x, y)].powered
                        && !on_stack(stack@, x, y) ==> self.tiles@[cell(
                        w,
                        x + dir_dx(d),
                        y + dir_dy(d),
                    )].powered,
            decreases 2 * (n - vis.len()) + stack@.len(),
        {
            let ghost stack0 = stack@;
            let ghost measure0 = 2 * (n - vis.len()) + stack@.len();
            let p = stack.pop().unwrap();
            let ghost px = p.x as int;
            let ghost py = p.y as int;
            proof {
                assert(stack0 == stack@.push(p));
                assert(self.holds(stack0[stack0.len() - 1]));
                assert forall|x: int, y: int|
                    on_stack(stack0, x, y) implies on_stack(stack@, x, y) || (x == px && y
                    == py) by {
                    let j = choose|j: int|
                        0 <= j < stack0.len() && (#[trigger] stack0[j]).x == x && stack0[j].y == y;
                    if j < stack@.len() {
                        assert(stack@[j] == stack0[j]);
                    }
                }
            }
            let pt = self.get_tile(&p);
            let pm = pt.directions;
            proof {
                assert(0 <= cell(w, px, py) < n);
                assert(self.tiles@[cell(w, px, py)].directions == old(self).tiles@[cell(w, px, py)].directions);
            }
            let mut k: usize = 0;
            while k < 4
                invariant
                    self.wf(),
                    self.spec_size() == old(self).spec_size(),
                    self.spec_root() == old(self).spec_root(),
                    self.spec_worklist() == old(self).spec_worklist(),
                    w == self.width(),
                    h == self.height(),
                    n == w * h,
                    m == masks_of(old(self).tiles@),
                    forall|i: int| 0 <= i < n ==> #[trigger] m[i] == old(self).tiles@[i].directions,
                    in_grid(w, h, rx, ry),
                    self.tiles@[cell(w, rx, ry)].powered,
                    vstd::set_lib::set_int_range(0, n).finite(),
                    vstd::set_lib::set_int_range(0, n).len() == n,
                    forall|x: int, y: int|
                        #![trigger cell(w, x, y)]
                        in_grid(w, h, x, y) ==> 0 <= cell(w, x, y) < w * h && cell(w, x, y) % w
                            == x && cell(w, x, y) / w == y,
                    self.tiles@.len() == n,
                    forall|i: int|
                        0 <= i < n ==> (#[trigger] self.tiles@[i]).directions
                            == old(self).tiles@[i].directions && self.tiles@[i].kind == old(
                            self,
                        ).tiles@[i].kind && self.tiles@[i].neighbours == old(
                            self,
                        ).tiles@[i].neighbours,
                    forall|i: int| 0 <= i < 4 ==> #[trigger] dirs@[i] == spec_direction(i),
                    forall|i: int|
                        0 <= i < n ==> (#[trigger] self.tiles@[i].powered <==> vis.contains(i)),
                    vis.finite(),
                    vis.len() <= n,
                    forall|i: int| #[trigger] vis.contains(i) ==> 0 <= i < n,
                    forall|j: int|
                        0 <= j < stack@.len() ==> self.holds(#[trigger] stack@[j])
                            && self.tiles@[cell(w, stack@[j].x as int, stack@[j].y as int)].powered,
                    forall|x: int, y: int|
                        in_grid(w, h, x, y) && (#[trigger] self.tiles@[cell(w, x, y)]).powered
                            ==> reachable(w, h, m, rx, ry, x, y),
                    self.holds(p),
                    px == p.x,
                    py == p.y,
                    self.tiles@[cell(w, px, py)].powered,
                    pm == m[cell(w, px, py)],
                    k <= 4,
                    2 * (n - vis.len()) + stack@.len() < measure0,
                    forall|x: int, y: int, d: int|
                        #[trigger] conducts(w, h, m, x, y, d) && self.tiles@[cell(w, x, y)].powered
                            && !on_stack(stack@, x, y) && !(x == px && y == py) ==> self.tiles@[cell(
                            w,
                            x + dir_dx(d),
                            y + dir_dy(d),
                        )].powered,
                    forall|d: int|
                        0 <= d < k && #[trigger] conducts(w, h, m, px, py, d) ==> self.tiles@[cell(
                            w,
                            px + dir_dx(d),
                            py + dir_dy(d),
                        )].powered,
                decreases 4 - k,
            {
                let dir = dirs[k];
                if pm & dir.flag != 0 {
                    let q = p.add(dir.offset);
                    if self.in_bounds(&q) {
                        let qt = self.get_tile(&q);
                        proof {
                            let qc = cell(w, q.x as int, q.y as int);
                            assert(0 <= qc < n);
                            assert(self.tiles@[qc].directions == old(self).tiles@[qc].directions);
                            assert(m[qc] == qt.directions);
                        }
                        if qt.directions & dir.opposite != 0 && !qt.powered {
                            let ghost qc = cell(w, q.x as int, q.y as int);
                            let ghost old_tiles = self.tiles@;
                            let ghost stack1 = stack@;
                            let mut nt = qt;
                            nt.powered = true;
                            self.set_tile(&q, nt);
                            stack.push(q);
                            proof {
                                assert(conducts(w, h, m, px, py, k as int));
                                let pn = choose|pn: nat| #[trigger] reach_within(w, h, m, rx, ry, pn, px, py);
                                assert(conducts(w, h, m, q.x - dir_dx(k as int), q.y - dir_dy(k as int), k as int));
                                assert(reach_within(w, h, m, rx, ry, pn + 1, q.x as int, q.y as int));
                                assert(!vis.contains(qc));
                                vis = vis.insert(qc);
                                vstd::set_lib::lemma_len_subset(vis, vstd::set_lib::set_int_range(0, n));
                                assert forall|x: int, y: int|
                                    on_stack(stack1, x, y) implies on_stack(stack@, x, y) by {
                                    let j = choose|j: int|
                                        0 <= j < stack1.len() && (#[trigger] stack1[j]).x == x
                                            && stack1[j].y == y;
                                    assert(stack@[j] == stack1[j]);
                                }
                                assert(on_stack(stack@, q.x as int, q.y as int)) by {
                                    assert(stack@[stack@.len() - 1] == q);
                                }
                                assert forall|i: int| 0 <= i < n implies (
                                    #[trigger] self.tiles@[i].powered <==> vis.contains(i)) by {
                                    if i != qc {
                                        assert(self.tiles@[i] == old_tiles[i]);
                                    }
                                }
                            }
                        }
                    }
                }
                k += 1;
            }
        }
        proof {
            assert forall|x: int, y: int, d: int|
                #[trigger] conducts(w, h, m, x, y, d) && self.tiles@[cell(w, x, y)].powered
                implies self.tiles@[cell(w, x + dir_dx(d), y + dir_dy(d))].powered by {
                assert(!on_stack(stack@, x, y));
            }
            assert forall|x: int, y: int| in_grid(w, h, x, y) implies (
            self.tiles@[#[trigger] cell(w, x, y)].powered <==> reachable(w, h, m, rx, ry, x, y)) by {
                if reachable(w, h, m, rx, ry, x, y) {
                    let nn = choose|nn: nat| #[trigger] reach_within(w, h, m, rx, ry, nn, x, y);
                    lemma_closed_reaches(w, h, m, self.tiles@, rx, ry, nn);
                }
            }
        }
    }

    /// Recomputes which tiles receive power from the root, and tells whether
    /// every terminal tile does.
    pub fn is_solved(&mut self) -> (r: bool)
        requires
            old(self).wf(),
        ensures
            final(self).wf(),
            final(self).spec_size() == old(self).spec_size(),
            final(self).spec_root() == old(self).spec_root(),
            final(self).spec_worklist() == old(self).spec_worklist(),
            final(self).spec_tiles().len() == old(self).spec_tiles().len(),
            forall|i: int|
                0 <= i < old(self).spec_tiles().len() ==> (#[trigger] final(self).spec_tiles()[i]).directions
                    == old(self).spec_tiles()[i].directions && final(self).spec_tiles()[i].kind
                    == old(self).spec_tiles()[i].kind && final(self).spec_tiles()[i].neighbours
                    == old(self).spec_tiles()[i].neighbours && final(self).spec_tiles()[i].powered
                    == reachable(
                    old(self).width(),
                    old(self).height(),
                    masks_of(old(self).spec_tiles()),
                    old(self).spec_root().x as int,
                    old(self).spec_root().y as int,
                    i % old(self).width(),
                    i / old(self).width(),
                ),
            r == old(self).solved(),
    {
        let ghost w = self.width();
        let ghost h = self.height();
        let n = self.tiles.len();
        let mut i: usize = 0;
        while i < n
            invariant
                self.wf(),
                self.spec_size() == old(self).spec_size(),
                self.spec_root() == old(self).spec_root(),
                self.spec_worklist() == old(self).spec_worklist(),
                n == self.tiles@.len(),
                n == old(self).tiles@.len(),
                i <= n,
                forall|j: int|
                    0 <= j < n ==> (#[trigger] self.tiles@[j]).directions
                        == old(self).tiles@[j].directions && self.tiles@[j].kind == old(
                        self,
                    ).tiles@[j].kind && self.tiles@[j].neighbours == old(self).tiles@[j].neighbours,
                forall|j: int| 0 <= j < i ==> !(#[trigger] self.tiles@[j]).powered,
            decreases n - i,
        {
            let mut t = self.tiles[i];
            t.powered = false;
            let ghost before = self.tiles@;
            self.tiles.set(i, t);
            proof {
                assert forall|j: int| 0 <= j < self.tiles@.len() implies #[trigger] self.tiles@[j].directions
                    < 16 && self.tiles@[j].neighbours < 16 by {
                    assert(before[j].directions < 16);
                }
            }
            i += 1;
        }
        let ghost cleared = self.tiles@;
        assert(masks_of(cleared) =~= masks_of(old(self).tiles@));
        let root = self.root;
        self.solve_walk(root);
        proof {
            assert forall|k: int| 0 <= k < n implies (#[trigger] self.tiles@[k]).powered == reachable(
                w,
                h,
                masks_of(old(self).tiles@),
                root.x as int,
                root.y as int,
                k % w,
                k / w,
            ) by {
                lemma_index_cell(w, h, k);
            }
        }
        let r = self.all_terminals_powered();
        proof {
            if r {
                assert forall|k: int|
                    0 <= k < w * h && #[trigger] old(self).tiles@[k].kind == TileKind::TERMINAL implies reachable(
                    w,
                    h,
                    masks_of(old(self).tiles@),
                    root.x as int,
                    root.y as int,
                    k % w,
                    k / w,
                ) by {
                    assert(self.tiles@[k].powered);
                }
            } else {
                let k = choose|k: int|
                    0 <= k < n && (#[trigger] self.tiles@[k]).kind == TileKind::TERMINAL
                        && !self.tiles@[k].powered;
                assert(old(self).tiles@[k].kind == TileKind::TERMINAL);
            }
        }
        r
    }

    /// Whether every terminal tile is powered.
    fn all_terminals_powered(&self) -> (r: bool)
        ensures
            r == forall|k: int|
                0 <= k < self.spec_tiles().len() ==> !((#[trigger] self.spec_tiles()[k]).kind
                    == TileKind::TERMINAL && !self.spec_tiles()[k].powered),
    {
        let n = self.tiles.len();
        let mut j: usize = 0;
        while j < n
            invariant
                n == self.tiles@.len(),
                j <= n,
                forall|k: int|
                    0 <= k < j ==> !((#[trigger] self.tiles@[k]).kind == TileKind::TERMINAL
                        && !self.tiles@[k].powered),
            decreases n - j,
        {
            if matches!(self.tiles[j].kind, TileKind::TERMINAL) && !self.tiles[j].powered {
                return false;
            }
            j += 1;
        }
        true
    }
}

} // verus!
