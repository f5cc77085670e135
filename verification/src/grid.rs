//! Packed bitboard cells shared by the concrete boards: every cell of a
//! `w` x `h` grid occupies two bits of one `u128` (00 empty, 01 Red,
//! 10 Yellow), and a win is a line of four equal tiles in one of the four
//! line directions.

use vstd::prelude::*;
use crate::games::{GameState, Player};

verus! {

/// Tile code stored at packed cell index `k`.
pub open spec fn get_at(bits: u128, k: nat) -> u8 {
    ((bits >> ((2 * k) as u128)) & 3) as u8
}

/// The grid with the two bits of cell `k` replaced by `v`.
pub open spec fn set_at(bits: u128, k: nat, v: u8) -> u128 {
    (bits & !(3u128 << ((2 * k) as u128))) | ((v as u128) << ((2 * k) as u128))
}

pub open spec fn in_grid(w: int, h: int, x: int, y: int) -> bool {
    0 <= x < w && 0 <= y < h
}

/// Tile code of cell (x, y) in a `w`-wide grid.
pub open spec fn get_cell(bits: u128, w: nat, x: int, y: int) -> u8 {
    get_at(bits, (x + y * w) as nat)
}

pub open spec fn set_cell(bits: u128, w: nat, x: int, y: int, v: u8) -> u128 {
    set_at(bits, (x + y * w) as nat, v)
}

pub proof fn lemma_idx_bounds(w: nat, h: nat, x: int, y: int)
    requires
        1 <= w,
        0 <= x < w,
        0 <= y < h,
        w * h <= 64,
    ensures
        0 <= x + y * w < 64,
{
    assert(x + y * w < w * h) by (nonlinear_arith)
        requires 1 <= w, 0 <= x < w, 0 <= y < h;
}

pub proof fn lemma_idx_injective(w: nat, x: int, y: int, x2: int, y2: int)
    requires
        1 <= w,
        0 <= x < w,
        0 <= x2 < w,
        0 <= y,
        0 <= y2,
        !(x == x2 && y == y2),
    ensures
        x + y * w != x2 + y2 * w,
{
    if y != y2 {
        assert(x + y * w != x2 + y2 * w) by (nonlinear_arith)
            requires 1 <= w, 0 <= x < w, 0 <= x2 < w, y != y2;
    }
}

pub broadcast proof fn lemma_set_at_same(bits: u128, k: nat, v: u8)
    requires
        k < 64,
        v <= 3,
    ensures
        #[trigger] get_at(set_at(bits, k, v), k) == v,
{
    let s = (2 * k) as u128;
    let vv = v as u128;
    assert((((bits & !(3u128 << s)) | (vv << s)) >> s) & 3 == vv) by (bit_vector)
        requires s <= 126, vv <= 3;
}

pub broadcast proof fn lemma_set_at_other(bits: u128, k: nat, v: u8, k2: nat)
    requires
        k < 64,
        k2 < 64,
        k != k2,
        v <= 3,
    ensures
        #[trigger] get_at(set_at(bits, k, v), k2) == get_at(bits, k2),
{
    let s = (2 * k) as u128;
    let t = (2 * k2) as u128;
    let vv = v as u128;
    assert((((bits & !(3u128 << s)) | (vv << s)) >> t) & 3 == (bits >> t) & 3) by (bit_vector)
        requires s <= 126, t <= 126, s != t, s % 2 == 0, t % 2 == 0, vv <= 3;
}

pub broadcast proof fn lemma_cell_set_same(bits: u128, w: nat, x: int, y: int, v: u8)
    requires
        1 <= w,
        0 <= x < w,
        0 <= y,
        x + y * w < 64,
        v <= 3,
    ensures
        #[trigger] get_cell(set_cell(bits, w, x, y, v), w, x, y) == v,
{
    lemma_set_at_same(bits, (x + y * w) as nat, v);
}

pub broadcast proof fn lemma_cell_set_other(
    bits: u128, w: nat, x: int, y: int, v: u8, x2: int, y2: int,
)
    requires
        1 <= w,
        0 <= x < w,
        0 <= x2 < w,
        0 <= y,
        0 <= y2,
        x + y * w < 64,
        x2 + y2 * w < 64,
        !(x == x2 && y == y2),
        v <= 3,
    ensures
        #[trigger] get_cell(set_cell(bits, w, x, y, v), w, x2, y2) == get_cell(bits, w, x2, y2),
{
    lemma_idx_injective(w, x, y, x2, y2);
    lemma_set_at_other(bits, (x + y * w) as nat, v, (x2 + y2 * w) as nat);
}

/// Clearing a cell that was empty before it was set restores the exact grid.
pub broadcast proof fn lemma_set_restore(bits: u128, w: nat, x: int, y: int, v: u8)
    requires
        1 <= w,
        0 <= x < w,
        0 <= y,
        x + y * w < 64,
        v <= 3,
        get_cell(bits, w, x, y) == 0,
    ensures
        #[trigger] set_cell(set_cell(bits, w, x, y, v), w, x, y, 0) == bits,
{
    let k = (x + y * w) as nat;
    let s = (2 * k) as u128;
    let vv = v as u128;
    assert((bits >> s) & 3 <= 3) by (bit_vector);
    assert((bits >> s) & 3 == 0);
    assert(((((bits & !(3u128 << s)) | (vv << s)) & !(3u128 << s)) | (0u128 << s)) == bits)
        by (bit_vector)
        requires s <= 126, vv <= 3, (bits >> s) & 3 == 0;
}

/// Horizontal, vertical and the two diagonal step directions.
pub open spec fn dir_dx(d: int) -> int {
    if d == 0 { 1 } else if d == 1 { 0 } else if d == 2 { -1 } else { 1 }
}

pub open spec fn dir_dy(d: int) -> int {
    if d == 0 { 0 } else { 1 }
}

pub open spec fn cell_is(bits: u128, w: nat, h: nat, x: int, y: int, c: u8) -> bool {
    in_grid(w as int, h as int, x, y) && get_cell(bits, w, x, y) == c
}

/// Four cells starting at (x0, y0) stepping in direction `d` all hold `c`.
pub open spec fn line_ok(bits: u128, w: nat, h: nat, x0: int, y0: int, d: int, c: u8) -> bool {
    &&& cell_is(bits, w, h, x0, y0, c)
    &&& cell_is(bits, w, h, x0 + dir_dx(d), y0 + dir_dy(d), c)
    &&& cell_is(bits, w, h, x0 + 2 * dir_dx(d), y0 + 2 * dir_dy(d), c)
    &&& cell_is(bits, w, h, x0 + 3 * dir_dx(d), y0 + 3 * dir_dy(d), c)
}

pub open spec fn has_line(bits: u128, w: nat, h: nat, c: u8) -> bool {
    exists|x0: int, y0: int, d: int| 0 <= d < 4 && #[trigger] line_ok(bits, w, h, x0, y0, d, c)
}

/// A line of four `c` tiles in direction `d` whose `i`-th cell is (x, y).
pub open spec fn has_line_through_dir(
    bits: u128, w: nat, h: nat, x: int, y: int, c: u8, d: int,
) -> bool {
    exists|i: int|
        0 <= i < 4 && #[trigger] line_ok(bits, w, h, x - i * dir_dx(d), y - i * dir_dy(d), d, c)
}

pub open spec fn has_line_through(bits: u128, w: nat, h: nat, x: int, y: int, c: u8) -> bool {
    exists|d: int| 0 <= d < 4 && #[trigger] has_line_through_dir(bits, w, h, x, y, c, d)
}

pub open spec fn full_grid(bits: u128, w: nat, h: nat) -> bool {
    forall|x: int, y: int|
        in_grid(w as int, h as int, x, y) ==> #[trigger] get_cell(bits, w, x, y) != 0
}

/// Every cell holds a legal tile code: empty or one of the two players.
pub open spec fn cells_valid(bits: u128, w: nat, h: nat) -> bool {
    forall|x: int, y: int|
        in_grid(w as int, h as int, x, y) ==> #[trigger] get_cell(bits, w, x, y) <= 2
}

/// The game status that a packed grid encodes: a win where a line of four
/// exists, a draw on a full line-free grid, in progress otherwise.
pub open spec fn state_of(bits: u128, w: nat, h: nat) -> GameState {
    if has_line(bits, w, h, 1) {
        GameState::Won(Player::Red)
    } else if has_line(bits, w, h, 2) {
        GameState::Won(Player::Yellow)
    } else if full_grid(bits, w, h) {
        GameState::Draw
    } else {
        GameState::InProgress
    }
}

pub fn tile_get(bits: u128, w: usize, x: usize, y: usize) -> (r: u8)
    requires
        1 <= w,
        x < w,
        x + y * w < 64,
    ensures
        r == get_cell(bits, w as nat, x as int, y as int),
{
    let k: usize = x + y * w;
    let s: u128 = (2 * k) as u128;
    ((bits >> s) & 3) as u8
}

pub fn tile_set(bits: u128, w: usize, x: usize, y: usize, v: u8) -> (r: u128)
    requires
        1 <= w,
        x < w,
        x + y * w < 64,
        v <= 3,
    ensures
        r == set_cell(bits, w as nat, x as int, y as int, v),
{
    let k: usize = x + y * w;
    let s: u128 = (2 * k) as u128;
    (bits & !(3u128 << s)) | ((v as u128) << s)
}

fn direction(d: usize) -> (r: (i32, i32))
    requires
        d < 4,
    ensures
        r.0 as int == dir_dx(d as int),
        r.1 as int == dir_dy(d as int),
{
    if d == 0 {
        (1i32, 0i32)
    } else if d == 1 {
        (0i32, 1i32)
    } else if d == 2 {
        (-1i32, 1i32)
    } else {
        (1i32, 1i32)
    }
}

/// Number of tiles (at most 3) equal to the tile at (x, y), walking from
/// (x, y) step by step in direction (dx, dy), stopping at the first mismatch
/// or grid edge.
fn count_matching(bits: u128, w: usize, h: usize, x: usize, y: usize, dx: i32, dy: i32) -> (n:
    usize)
    requires
        1 <= w <= 8,
        1 <= h <= 8,
        w * h <= 64,
        x < w,
        y < h,
        -1 <= dx <= 1,
        -1 <= dy <= 1,
    ensures
        n <= 3,
        forall|j: int|
            1 <= j <= n ==> #[trigger] cell_is(
                bits, w as nat, h as nat, x + j * dx, y + j * dy,
                get_cell(bits, w as nat, x as int, y as int),
            ),
        n < 3 ==> !cell_is(
            bits, w as nat, h as nat, x + (n + 1) * dx, y + (n + 1) * dy,
            get_cell(bits, w as nat, x as int, y as int),
        ),
{
    proof {
        lemma_idx_bounds(w as nat, h as nat, x as int, y as int);
    }
    let code = tile_get(bits, w, x, y);
    let mut n: usize = 0;
    loop
        invariant
            1 <= w <= 8,
            1 <= h <= 8,
            w * h <= 64,
            x < w,
            y < h,
            -1 <= dx <= 1,
            -1 <= dy <= 1,
            n <= 2,
            code == get_cell(bits, w as nat, x as int, y as int),
            forall|j: int|
                1 <= j <= n ==> #[trigger] cell_is(bits, w as nat, h as nat, x + j * dx, y + j
                    * dy, code),
        decreases 3 - n,
    {
        let i: i32 = n as i32 + 1;
        proof {
            assert(-3 <= dx * i <= 3 && -3 <= dy * i <= 3) by (nonlinear_arith)
                requires -1 <= dx <= 1, -1 <= dy <= 1, 0 <= i <= 3;
        }
        let cx: i32 = x as i32 + dx * i;
        let cy: i32 = y as i32 + dy * i;
        if !(0 <= cx && cx < w as i32 && 0 <= cy && cy < h as i32) {
            proof {
                assert(!in_grid(w as int, h as int, x + (n + 1) * dx, y + (n + 1) * dy));
            }
            return n;
        }
        proof {
            lemma_idx_bounds(w as nat, h as nat, cx as int, cy as int);
        }
        if tile_get(bits, w, cx as usize, cy as usize) != code {
            return n;
        }
        n = n + 1;
        if n == 3 {
            return n;
        }
    }
}

/// Whether a completed line of four passes through (x, y), walking outward
/// in each of the four directions and counting contiguous equal tiles.
pub fn line_through(bits: u128, w: usize, h: usize, x: usize, y: usize) -> (r: bool)
    requires
        1 <= w <= 8,
        1 <= h <= 8,
        w * h <= 64,
        x < w,
        y < h,
    ensures
        r == has_line_through(
            bits, w as nat, h as nat, x as int, y as int,
            get_cell(bits, w as nat, x as int, y as int),
        ),
{
    proof {
        lemma_idx_bounds(w as nat, h as nat, x as int, y as int);
    }
    let ghost code = get_cell(bits, w as nat, x as int, y as int);
    let mut d: usize = 0;
    while d < 4
        invariant
            1 <= w <= 8,
            1 <= h <= 8,
            w * h <= 64,
            x < w,
            y < h,
            d <= 4,
            code == get_cell(bits, w as nat, x as int, y as int),
            forall|dd: int|
                0 <= dd < d ==> !#[trigger] has_line_through_dir(
                    bits, w as nat, h as nat, x as int, y as int, code, dd,
                ),
        decreases 4 - d,
    {
        let (dx, dy) = direction(d);
        let up = count_matching(bits, w, h, x, y, dx, dy);
        let down = count_matching(bits, w, h, x, y, -dx, -dy);
        if up + down >= 3 {
            proof {
                let dxi = dir_dx(d as int);
                let dyi = dir_dy(d as int);
                let x0 = x - down * dxi;
                let y0 = y - down * dyi;
                assert forall|j: int| 0 <= j < 4 implies #[trigger] cell_is(
                    bits, w as nat, h as nat, x0 + j * dxi, y0 + j * dyi, code,
                ) by {
                    let o = j - down;
                    assert(x0 + j * dxi == x + o * dxi && y0 + j * dyi == y + o * dyi)
                        by (nonlinear_arith)
                        requires x0 == x - down * dxi, y0 == y - down * dyi, o == j - down;
                    if o == 0 {
                        assert(cell_is(bits, w as nat, h as nat, x as int, y as int, code));
                    } else if o < 0 {
                        assert(x + o * dxi == x + (0 - o) * (-dx) && y + o * dyi == y + (0 - o) * (
                        -dy)) by (nonlinear_arith)
                            requires dxi == dx, dyi == dy;
                        assert(cell_is(
                            bits, w as nat, h as nat, x + (0 - o) * (-dx), y + (0 - o) * (-dy),
                            code,
                        ));
                    } else {
                        assert(cell_is(bits, w as nat, h as nat, x + o * dxi, y + o * dyi, code));
                    }
                }
                assert(line_ok(bits, w as nat, h as nat, x0, y0, d as int, code)) by {
                    assert(cell_is(bits, w as nat, h as nat, x0 + 0 * dxi, y0 + 0 * dyi, code));
                    assert(cell_is(bits, w as nat, h as nat, x0 + 1 * dxi, y0 + 1 * dyi, code));
                    assert(cell_is(bits, w as nat, h as nat, x0 + 2 * dxi, y0 + 2 * dyi, code));
                    assert(cell_is(bits, w as nat, h as nat, x0 + 3 * dxi, y0 + 3 * dyi, code));
                }
                assert(x0 == x - down * dxi && y0 == y - down * dyi);
                assert(has_line_through_dir(
                    bits, w as nat, h as nat, x as int, y as int, code, d as int,
                ));
            }
            return true;
        }
        proof {
            let dxi = dir_dx(d as int);
            let dyi = dir_dy(d as int);
            assert(!has_line_through_dir(
                bits, w as nat, h as nat, x as int, y as int, code, d as int,
            )) by {
                if has_line_through_dir(bits, w as nat, h as nat, x as int, y as int, code,
                    d as int) {
                    let i = choose|i: int|
                        0 <= i < 4 && #[trigger] line_ok(
                            bits, w as nat, h as nat, x - i * dxi, y - i * dyi, d as int, code,
                        );
                    let x0 = x - i * dxi;
                    let y0 = y - i * dyi;
                    assert forall|o: int| -i <= o <= 3 - i implies #[trigger] cell_is(
                        bits, w as nat, h as nat, x + o * dxi, y + o * dyi, code,
                    ) by {
                        let j = o + i;
                        assert(x0 + j * dxi == x + o * dxi && y0 + j * dyi == y + o * dyi)
                            by (nonlinear_arith)
                            requires x0 == x - i * dxi, y0 == y - i * dyi, j == o + i;
                        assert(j == 0 || j == 1 || j == 2 || j == 3);
                        assert(cell_is(bits, w as nat, h as nat, x0 + 0 * dxi, y0 + 0 * dyi, code));
                        assert(cell_is(bits, w as nat, h as nat, x0 + 1 * dxi, y0 + 1 * dyi, code));
                        assert(cell_is(bits, w as nat, h as nat, x0 + 2 * dxi, y0 + 2 * dyi, code));
                        assert(cell_is(bits, w as nat, h as nat, x0 + 3 * dxi, y0 + 3 * dyi, code));
                    }
                    // the downward walk must have counted at least i steps
                    if down < i {
                        let o = -(down + 1);
                        assert(x + (down + 1) * (-dx) == x + o * dxi && y + (down + 1) * (-dy) == y
                            + o * dyi) by (nonlinear_arith)
                            requires dxi == dx, dyi == dy, o == -(down + 1);
                        assert(cell_is(bits, w as nat, h as nat, x + o * dxi, y + o * dyi, code));
                        assert(false);
                    }
                    // and the upward walk at least 3 - i steps
                    if up < 3 - i {
                        let o = up + 1;
                        assert(cell_is(bits, w as nat, h as nat, x + o * dxi, y + o * dyi, code));
                        assert(false);
                    }
                    assert(false);
                }
            }
        }
        d = d + 1;
    }
    false
}

/// After placing player `p` on the empty cell (x, y) of a line-free grid, the
/// only possible new line for `p` passes through (x, y), and the opponent
/// still has none.
pub proof fn lemma_place_lines(bits: u128, w: nat, h: nat, x: int, y: int, p: Player)
    requires
        1 <= w <= 8,
        1 <= h <= 8,
        w * h <= 64,
        in_grid(w as int, h as int, x, y),
        get_cell(bits, w, x, y) == 0,
        !has_line(bits, w, h, 1),
        !has_line(bits, w, h, 2),
    ensures
        ({
            let nb = set_cell(bits, w, x, y, p.code_spec());
            &&& (has_line(nb, w, h, p.code_spec()) <==> has_line_through(
                nb, w, h, x, y, p.code_spec(),
            ))
            &&& !has_line(nb, w, h, p.opponent_spec().code_spec())
        }),
{
    broadcast use lemma_cell_set_same, lemma_cell_set_other;

    assert forall|a: int, b: int| #[trigger] in_grid(w as int, h as int, a, b) implies 0 <= a + b
        * w < 64 by {
        lemma_idx_bounds(w, h, a, b);
    }

    let pc = p.code_spec();
    let oc = p.opponent_spec().code_spec();
    let nb = set_cell(bits, w, x, y, pc);
    assert(get_cell(nb, w, x, y) == pc);

    // any line in the new grid either passes through (x, y) or existed before
    assert forall|x0: int, y0: int, d: int, c: u8|
        0 <= d < 4 && (c == 1 || c == 2) && #[trigger] line_ok(nb, w, h, x0, y0, d, c) implies ({
        ||| (c == pc && has_line_through_dir(nb, w, h, x, y, pc, d))
        ||| line_ok(bits, w, h, x0, y0, d, c)
    }) by {
        let dxi = dir_dx(d);
        let dyi = dir_dy(d);
        if x0 == x && y0 == y {
            assert(c == pc);
            assert(x0 == x - 0 * dxi && y0 == y - 0 * dyi);
            assert(line_ok(nb, w, h, x - 0 * dxi, y - 0 * dyi, d, pc));
            assert(has_line_through_dir(nb, w, h, x, y, pc, d));
        } else if x0 + dxi == x && y0 + dyi == y {
            assert(c == pc);
            assert(x0 == x - 1 * dxi && y0 == y - 1 * dyi);
            assert(line_ok(nb, w, h, x - 1 * dxi, y - 1 * dyi, d, pc));
            assert(has_line_through_dir(nb, w, h, x, y, pc, d));
        } else if x0 + 2 * dxi == x && y0 + 2 * dyi == y {
            assert(c == pc);
            assert(x0 == x - 2 * dxi && y0 == y - 2 * dyi);
            assert(line_ok(nb, w, h, x - 2 * dxi, y - 2 * dyi, d, pc));
            assert(has_line_through_dir(nb, w, h, x, y, pc, d));
        } else if x0 + 3 * dxi == x && y0 + 3 * dyi == y {
            assert(c == pc);
            assert(x0 == x - 3 * dxi && y0 == y - 3 * dyi);
            assert(line_ok(nb, w, h, x - 3 * dxi, y - 3 * dyi, d, pc));
            assert(has_line_through_dir(nb, w, h, x, y, pc, d));
        } else {
            assert(get_cell(nb, w, x0, y0) == get_cell(bits, w, x0, y0));
            assert(get_cell(nb, w, x0 + dxi, y0 + dyi) == get_cell(bits, w, x0 + dxi, y0 + dyi));
            assert(get_cell(nb, w, x0 + 2 * dxi, y0 + 2 * dyi) == get_cell(
                bits, w, x0 + 2 * dxi, y0 + 2 * dyi,
            ));
            assert(get_cell(nb, w, x0 + 3 * dxi, y0 + 3 * dyi) == get_cell(
                bits, w, x0 + 3 * dxi, y0 + 3 * dyi,
            ));
            assert(line_ok(bits, w, h, x0, y0, d, c));
        }
    }

    assert(pc == 1 || pc == 2);
    assert(oc == 1 || oc == 2);

    if has_line(nb, w, h, pc) {
        let (x0, y0, d) = choose|x0: int, y0: int, d: int|
            0 <= d < 4 && #[trigger] line_ok(nb, w, h, x0, y0, d, pc);
        if line_ok(bits, w, h, x0, y0, d, pc) {
            assert(has_line(bits, w, h, pc));
            assert(false);
        } else {
            assert(has_line_through_dir(nb, w, h, x, y, pc, d));
            assert(has_line_through(nb, w, h, x, y, pc));
        }
    }
    if has_line_through(nb, w, h, x, y, pc) {
        let d = choose|d: int| 0 <= d < 4 && #[trigger] has_line_through_dir(nb, w, h, x, y, pc, d);
        let i = choose|i: int|
            0 <= i < 4 && #[trigger] line_ok(
                nb, w, h, x - i * dir_dx(d), y - i * dir_dy(d), d, pc,
            );
        assert(has_line(nb, w, h, pc));
    }
    if has_line(nb, w, h, oc) {
        let (x0, y0, d) = choose|x0: int, y0: int, d: int|
            0 <= d < 4 && #[trigger] line_ok(nb, w, h, x0, y0, d, oc);
        assert(oc != pc);
        if line_ok(bits, w, h, x0, y0, d, oc) {
            assert(has_line(bits, w, h, oc));
            assert(false);
        } else {
            assert(false);
        }
    }
}

/// An empty grid is in progress: no tiles, so no line and not full.
pub proof fn lemma_empty_state(w: nat, h: nat)
    requires
        1 <= w <= 8,
        1 <= h <= 8,
        w * h <= 64,
    ensures
        state_of(0u128, w, h) == GameState::InProgress,
        cells_valid(0u128, w, h),
        !full_grid(0u128, w, h),
        forall|x: int, y: int|
            in_grid(w as int, h as int, x, y) ==> #[trigger] get_cell(0u128, w, x, y) == 0,
{
    assert forall|x: int, y: int| in_grid(w as int, h as int, x, y) implies #[trigger] get_cell(
        0u128, w, x, y,
    ) == 0 by {
        lemma_idx_bounds(w, h, x, y);
        let s = (2 * ((x + y * w) as nat)) as u128;
        assert((0u128 >> s) & 3 == 0) by (bit_vector);
    }
    assert(!full_grid(0u128, w, h)) by {
        assert(in_grid(w as int, h as int, 0, 0));
        assert(get_cell(0u128, w, 0, 0) == 0);
    }
    assert(!has_line(0u128, w, h, 1)) by {
        if has_line(0u128, w, h, 1) {
            let (x0, y0, d) = choose|x0: int, y0: int, d: int|
                0 <= d < 4 && #[trigger] line_ok(0u128, w, h, x0, y0, d, 1u8);
            assert(false);
        }
    }
    assert(!has_line(0u128, w, h, 2)) by {
        if has_line(0u128, w, h, 2) {
            let (x0, y0, d) = choose|x0: int, y0: int, d: int|
                0 <= d < 4 && #[trigger] line_ok(0u128, w, h, x0, y0, d, 2u8);
            assert(false);
        }
    }
}

} // verus!
