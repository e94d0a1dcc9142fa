//! Shapes of the grids on which QR symbols are laid out.
use vstd::prelude::*;

verus! {

/// Number of diamonds that a brick-laid grid of `rows` rows and `cols` columns holds: even rows
/// hold `cols` diamonds, odd rows, shifted right by half a diamond, hold one fewer.
pub open spec fn brick_capacity(rows: nat, cols: nat) -> nat {
    ((rows + 1) / 2) * cols + (rows / 2) * (if cols > 0 {
        (cols - 1) as nat
    } else {
        0
    })
}

/// Number of diamonds a brick-laid grid of `rows` rows and `cols` columns holds.
pub fn brick_grid_capacity(rows: u32, cols: u32) -> (capacity: u32)
    requires
        brick_capacity(rows as nat, cols as nat) <= u32::MAX,
    ensures
        capacity == brick_capacity(rows as nat, cols as nat),
{
    let even_rows = rows / 2 + rows % 2;
    let odd_rows = rows / 2;
    let shorter = if cols > 0 {
        cols - 1
    } else {
        0
    };
    assert(even_rows == (rows + 1) / 2);
    assert(even_rows * cols <= u32::MAX && odd_rows * shorter <= u32::MAX) by (nonlinear_arith)
        requires
            even_rows * cols + odd_rows * shorter <= u32::MAX,
            even_rows >= 0,
            odd_rows >= 0,
            cols >= 0,
            shorter >= 0,
    ;
    even_rows * cols + odd_rows * shorter
}

/// `rows` is the fewest rows, at least one, at which a brick-laid grid with `cols` columns
/// holds `count` diamonds.
pub open spec fn is_rows_needed(count: nat, cols: nat, rows: nat) -> bool {
    &&& rows >= 1
    &&& brick_capacity(rows, cols) >= count
    &&& forall|r: nat| 1 <= r < rows ==> brick_capacity(r, cols) < count
}

proof fn lemma_capacity_step(rows: nat, cols: nat)
    ensures
        brick_capacity(rows, cols) <= brick_capacity(rows + 1, cols) <= brick_capacity(rows, cols)
            + cols,
        cols >= 1 ==> brick_capacity(rows + 1, cols) >= brick_capacity(rows, cols) + (if rows % 2
            == 0 {
            cols
        } else {
            (cols - 1) as nat
        }),
{
    let s: nat = if cols > 0 {
        (cols - 1) as nat
    } else {
        0
    };
    if rows % 2 == 0 {
        assert((rows + 2) / 2 == (rows + 1) / 2 + 1);
        assert((rows + 1) / 2 == rows / 2);
        assert(((rows + 2) / 2) * cols == ((rows + 1) / 2) * cols + cols) by (nonlinear_arith)
            requires
                (rows + 2) / 2 == (rows + 1) / 2 + 1,
        ;
    } else {
        assert((rows + 2) / 2 == (rows + 1) / 2);
        assert((rows + 1) / 2 == rows / 2 + 1);
        assert(((rows + 1) / 2) * s == (rows / 2) * s + s) by (nonlinear_arith)
            requires
                (rows + 1) / 2 == rows / 2 + 1,
        ;
    }
}

/// Fewest rows, at a given number of columns, for a brick-laid grid to hold `count` diamonds.
pub fn rows_needed(count: usize, cols: u32) -> (rows: u32)
    requires
        cols >= 1 || count == 0,
        count + cols <= u32::MAX + 1,
        cols != 1 || 2 * count <= u32::MAX + 1,
    ensures
        is_rows_needed(count as nat, cols as nat, rows as nat),
{
    let mut rows: u32 = 1;
    proof {
        assert(brick_capacity(1, cols as nat) == cols) by (nonlinear_arith);
        if cols >= 1 {
            assert(1 <= 2 * brick_capacity(1, cols as nat));
        }
    }
    while (brick_grid_capacity(rows, cols) as usize) < count
        invariant
            cols >= 1 || count == 0,
            count + cols <= u32::MAX + 1,
            cols != 1 || 2 * count <= u32::MAX + 1,
            rows >= 1,
            brick_capacity(rows as nat, cols as nat) < count + cols || count == 0,
            brick_capacity(rows as nat, cols as nat) <= count + cols,
            cols >= 1 ==> rows <= 2 * brick_capacity(rows as nat, cols as nat),
            cols >= 2 ==> rows <= brick_capacity(rows as nat, cols as nat),
            forall|r: nat| 1 <= r < rows ==> brick_capacity(r, cols as nat) < count,
        decreases 2 * (count + cols) + 2 - (2 * brick_capacity(rows as nat, cols as nat) + (if rows
            % 2 == 0 {
            1int
        } else {
            0int
        })),
    {
        proof {
            lemma_capacity_step(rows as nat, cols as nat);
        }
        assert(cols >= 1);
        rows = rows + 1;
        assert forall|r: nat| 1 <= r < rows implies brick_capacity(r, cols as nat) < count by {}
    }
    rows
}


/// The fewest rows needed for `count` diamonds at `cols` columns.
pub open spec fn rows_for(count: nat, cols: nat) -> nat {
    choose|rows: nat| is_rows_needed(count, cols, rows)
}

proof fn lemma_rows_for(count: nat, cols: nat, rows: nat)
    requires
        is_rows_needed(count, cols, rows),
    ensures
        rows_for(count, cols) == rows,
{
    let r = rows_for(count, cols);
    assert(is_rows_needed(count, cols, r));
    if r < rows {
        assert(brick_capacity(r, cols) < count);
    } else if rows < r {
        assert(brick_capacity(rows, cols) < count);
    }
}

/// `e` is the smallest positive number of columns with `2 * e * e >= count`: the ceiling of the
/// square root of `count / 2`, at least 1.
pub open spec fn is_estimate(count: nat, e: nat) -> bool {
    &&& e >= 1
    &&& 2 * e * e >= count
    &&& (e == 1 || 2 * (e - 1) * (e - 1) < count)
}

/// The estimate of the number of columns for `count` diamonds.
pub open spec fn estimate(count: nat) -> nat {
    choose|e: nat| is_estimate(count, e)
}

proof fn lemma_estimate(count: nat, e: nat)
    requires
        is_estimate(count, e),
    ensures
        estimate(count) == e,
{
    let f = estimate(count);
    assert(is_estimate(count, f));
    if f < e {
        assert(2 * f * f <= 2 * (e - 1) * (e - 1)) by (nonlinear_arith)
            requires
                1 <= f < e,
        ;
    } else if e < f {
        assert(2 * e * e <= 2 * (f - 1) * (f - 1)) by (nonlinear_arith)
            requires
                1 <= e < f,
        ;
    }
}

/// Twice the difference, in diamond sides, between the width and the height of the canvas of a
/// brick-laid grid: the width is `cols`, the height `(rows - 1) / 2 + 1`.
pub open spec fn canvas_gap(rows: nat, cols: nat) -> int {
    let d = 2 * cols - (rows - 1) - 2;
    if d < 0 {
        -d
    } else {
        d
    }
}

/// The gap of the shape with `cols` columns and the fewest rows for `count` diamonds.
pub open spec fn gap_at(count: nat, cols: nat) -> int {
    canvas_gap(rows_for(count, cols), cols)
}

/// Smallest number of columns that the search tries.
pub open spec fn search_low(e: nat) -> nat {
    if e >= 3 {
        (e - 2) as nat
    } else {
        1
    }
}

/// The shape chosen for `count` diamonds: among the column counts from `estimate - 2` (at least
/// 1) to `estimate + 2`, one whose canvas is closest to square; the estimate itself when it is
/// among the closest, otherwise the smallest of the closest.
pub open spec fn is_canvas_shape(count: nat, rows: nat, cols: nat) -> bool {
    let e = estimate(count);
    let lo = search_low(e);
    &&& rows == rows_for(count, cols)
    &&& lo <= cols <= e + 2
    &&& forall|c: nat| lo <= c <= e + 2 ==> gap_at(count, cols) <= #[trigger] gap_at(count, c)
    &&& (cols == e || (gap_at(count, cols) < gap_at(count, e) && forall|c: nat|
        lo <= c < cols ==> gap_at(count, cols) < #[trigger] gap_at(count, c)))
}

/// Twice the gap between width and height of a canvas.
fn shape_gap(rows: u32, cols: u32) -> (gap: u64)
    requires
        rows >= 1,
    ensures
        gap == canvas_gap(rows as nat, cols as nat),
{
    let width = 2 * (cols as u64);
    let height = rows as u64 + 1;
    if width >= height {
        width - height
    } else {
        height - width
    }
}

/// `2 * e * e < count`.
fn double_square_below(e: u32, count: usize) -> (below: bool)
    requires
        e <= 46342,
        count <= u32::MAX,
    ensures
        below == (2 * e * e < count),
{
    assert(2 * e * e <= 2 * 46342 * 46342) by (nonlinear_arith)
        requires
            e <= 46342,
    ;
    let e64 = e as u64;
    2 * e64 * e64 < count as u64
}

/// Chooses a rows by columns shape whose canvas comes out as square as possible.
pub fn square_canvas_shape(count: usize) -> (shape: (u32, u32))
    requires
        count + estimate(count as nat) + 2 <= u32::MAX + 1,
    ensures
        is_canvas_shape(count as nat, shape.0 as nat, shape.1 as nat),
{
    let mut e: u32 = 1;
    while double_square_below(e, count)
        invariant
            e >= 1,
            e <= 46342,
            count <= u32::MAX,
            e == 1 || 2 * (e - 1) * (e - 1) < count,
        decreases 46342 - e,
    {
        assert(e < 46342) by (nonlinear_arith)
            requires
                2 * e * e < count,
                count <= u32::MAX,
        ;
        e = e + 1;
    }
    proof {
        lemma_estimate(count as nat, e as nat);
    }
    let ghost est = e as nat;
    let mut best_cols = e;
    let mut best_rows = rows_needed(count, e);
    proof {
        lemma_rows_for(count as nat, e as nat, best_rows as nat);
    }
    let lo = if e > 2 {
        e - 2
    } else {
        1
    };
    let hi = e + 2;
    let mut c = lo;
    while c <= hi
        invariant
            count + est + 2 <= u32::MAX + 1,
            2 * e * e >= count,
            e >= 1,
            est == estimate(count as nat),
            e == est,
            e <= 46342,
            lo == search_low(est),
            hi == e + 2,
            lo <= c <= hi + 1,
            best_rows >= 1,
            best_rows == rows_for(count as nat, best_cols as nat),
            best_cols == e || lo <= best_cols < c,
            gap_at(count as nat, best_cols as nat) <= gap_at(count as nat, est),
            forall|k: nat| lo <= k < c ==> gap_at(count as nat, best_cols as nat) <= #[trigger] gap_at(count as nat, k),
            best_cols != e ==> gap_at(count as nat, best_cols as nat) < gap_at(count as nat, est),
            best_cols != e ==> forall|k: nat|
                lo <= k < best_cols ==> gap_at(count as nat, best_cols as nat) < #[trigger] gap_at(count as nat, k),
            best_cols == e ==> forall|k: nat|
                lo <= k < c ==> gap_at(count as nat, est) <= #[trigger] gap_at(count as nat, k),
        decreases hi + 1 - c,
    {
        assert(c != 1 || 2 * count <= u32::MAX + 1) by (nonlinear_arith)
            requires
                c == 1 ==> e <= 3,
                2 * e * e >= count,
                e >= 1,
        ;
        let rows = rows_needed(count, c);
        proof {
            lemma_rows_for(count as nat, c as nat, rows as nat);
        }
        if shape_gap(rows, c) < shape_gap(best_rows, best_cols) {
            best_rows = rows;
            best_cols = c;
        }
        c = c + 1;
    }
    (best_rows, best_cols)
}


/// Number of diamonds in row `row` of a brick-laid grid: `cols` in even rows, one fewer in odd
/// rows.
pub open spec fn row_len(row: nat, cols: nat) -> nat {
    if row % 2 == 1 {
        if cols > 0 {
            (cols - 1) as nat
        } else {
            0
        }
    } else {
        cols
    }
}

/// The slots, as (row, column), of the first `rows` rows of a brick-laid grid, row by row.
pub open spec fn brick_slots(rows: nat, cols: nat) -> Seq<(nat, nat)>
    decreases rows,
{
    if rows == 0 {
        seq![]
    } else {
        let r = (rows - 1) as nat;
        brick_slots(r, cols) + Seq::new(row_len(r, cols), |c: int| (r, c as nat))
    }
}

/// Where a diamond of side `side` sits in its slot: odd rows are shifted right by half a
/// diamond, rows are half a diamond apart.
pub open spec fn slot_position(slot: (nat, nat), side: nat) -> (nat, nat) {
    let half = side / 2;
    (slot.1 * side + (if slot.0 % 2 == 1 {
        half
    } else {
        0
    }), slot.0 * half)
}

/// The positions of the first `count` slots, or of all of them when there are fewer.
pub open spec fn diamond_layout(count: nat, rows: nat, cols: nat, side: nat) -> Seq<(nat, nat)> {
    let slots = brick_slots(rows, cols);
    let n = if count < slots.len() {
        count
    } else {
        slots.len()
    };
    slots.take(n as int).map_values(|slot: (nat, nat)| slot_position(slot, side))
}

/// The positions, as natural numbers.
pub open spec fn position_views(v: Seq<(u32, u32)>) -> Seq<(nat, nat)> {
    v.map_values(|p: (u32, u32)| (p.0 as nat, p.1 as nat))
}

/// Width and height of the canvas of a brick-laid grid of diamonds of side `side`: even rows
/// span the width, rows are half a diamond apart.
pub open spec fn diamond_canvas(rows: nat, cols: nat, side: nat) -> (nat, nat) {
    (cols * side, (if rows > 0 {
        (rows - 1) as nat
    } else {
        0
    }) * (side / 2) + side)
}

/// The canvas of a brick-laid grid fits 32-bit dimensions.
pub open spec fn diamond_canvas_fits(rows: nat, cols: nat, side: nat) -> bool {
    diamond_canvas(rows, cols, side).0 <= u32::MAX && diamond_canvas(rows, cols, side).1
        <= u32::MAX
}

/// Width and height of the canvas of a brick-laid grid of diamonds.
pub fn diamond_canvas_size(rows: u32, cols: u32, side: u32) -> (size: (u32, u32))
    requires
        diamond_canvas_fits(rows as nat, cols as nat, side as nat),
    ensures
        (size.0 as nat, size.1 as nat) == diamond_canvas(rows as nat, cols as nat, side as nat),
{
    let half = side / 2;
    let upper = if rows > 0 {
        rows - 1
    } else {
        0
    };
    assert(upper * half <= upper * half + side);
    (cols * side, upper * half + side)
}

/// Whether the canvas of a brick-laid grid fits 32-bit dimensions.
pub fn diamond_canvas_fits_u32(rows: u32, cols: u32, side: u32) -> (fits: bool)
    ensures
        fits == diamond_canvas_fits(rows as nat, cols as nat, side as nat),
{
    let upper: u64 = if rows > 0 {
        rows as u64 - 1
    } else {
        0
    };
    let half = (side / 2) as u64;
    assert(upper * half <= 0xffff_ffff * 0xffff_ffff) by (nonlinear_arith)
        requires
            upper <= 0xffff_ffff,
            half <= 0xffff_ffff,
    ;
    assert((cols as u64) * (side as u64) <= 0xffff_ffff * 0xffff_ffff) by (nonlinear_arith)
        requires
            cols <= 0xffff_ffff,
            side <= 0xffff_ffff,
    ;
    (cols as u64) * (side as u64) <= u32::MAX as u64 && upper * half + side as u64 <= u32::MAX as u64
}

/// Adding a row to a brick-laid grid adds `cols` slots when the new row is even (counted from 0)
/// and `cols - 1` when it is odd; an empty grid has none.
pub proof fn law_brick_capacity(r: nat, cols: nat)
    ensures
        brick_capacity(0, cols) == 0,
        brick_capacity(r + 1, cols) == brick_capacity(r, cols) + if r % 2 == 0 {
            cols as int
        } else if cols > 0 {
            cols - 1
        } else {
            0
        },
{
    lemma_capacity_row(r, cols);
    assert(brick_capacity(0, cols) == 0) by (nonlinear_arith);
}

proof fn lemma_capacity_row(r: nat, cols: nat)
    ensures
        brick_capacity(r + 1, cols) == brick_capacity(r, cols) + row_len(r, cols),
{
    let h = r / 2;
    let s: nat = if cols > 0 {
        (cols - 1) as nat
    } else {
        0
    };
    if r % 2 == 0 {
        assert(r == 2 * h);
        assert((r + 2) / 2 == h + 1);
        assert((r + 1) / 2 == h);
        assert(brick_capacity(r + 1, cols) == (h + 1) * cols + h * s);
        assert(brick_capacity(r, cols) == h * cols + h * s);
        assert((h + 1) * cols == h * cols + cols) by (nonlinear_arith);
    } else {
        assert(r == 2 * h + 1);
        assert((r + 2) / 2 == h + 1);
        assert((r + 1) / 2 == h + 1);
        assert(brick_capacity(r + 1, cols) == (h + 1) * cols + (h + 1) * s);
        assert(brick_capacity(r, cols) == (h + 1) * cols + h * s);
        assert((h + 1) * s == h * s + s) by (nonlinear_arith);
    }
}

proof fn lemma_brick_slots_len(rows: nat, cols: nat)
    ensures
        brick_slots(rows, cols).len() == brick_capacity(rows, cols),
    decreases rows,
{
    if rows > 0 {
        lemma_brick_slots_len((rows - 1) as nat, cols);
        lemma_capacity_row((rows - 1) as nat, cols);
    } else {
        assert(brick_capacity(0, cols) == 0) by (nonlinear_arith);
    }
}

proof fn lemma_brick_slots_prefix(big: nat, small: nat, cols: nat)
    requires
        small <= big,
    ensures
        brick_slots(small, cols).len() <= brick_slots(big, cols).len(),
        brick_slots(big, cols).take(brick_slots(small, cols).len() as int) == brick_slots(small, cols),
    decreases big,
{
    if small < big {
        lemma_brick_slots_prefix((big - 1) as nat, small, cols);
        let prev = brick_slots((big - 1) as nat, cols);
        let n = brick_slots(small, cols).len() as int;
        assert(brick_slots(big, cols).take(n) =~= prev.take(n));
    } else {
        assert(brick_slots(big, cols).take(brick_slots(big, cols).len() as int) =~= brick_slots(
            big,
            cols,
        ));
    }
}

proof fn lemma_brick_slot_at(rows: nat, cols: nat, row: nat, col: nat)
    requires
        row < rows,
        col < row_len(row, cols),
    ensures
        brick_slots(row, cols).len() + col < brick_slots(rows, cols).len(),
        brick_slots(rows, cols)[(brick_slots(row, cols).len() + col) as int] == (row, col),
{
    lemma_brick_slots_prefix(rows, row + 1, cols);
    let next = brick_slots(row + 1, cols);
    let k = brick_slots(row, cols).len() + col;
    assert(next[k as int] == (row, col));
    assert(brick_slots(rows, cols).take(next.len() as int)[k as int] == next[k as int]);
}

/// Position, counted from 0 in row-major order, of column `c` of row `r` in a brick-laid grid
/// with `cols` columns: after the `cols` slots of each even row and the `cols - 1` of each odd
/// row before it.
pub open spec fn brick_offset(r: nat, cols: nat, c: nat) -> int {
    ((r + 1) / 2) * cols + (r / 2) * (if cols > 0 {
        cols - 1
    } else {
        0
    }) + c
}

/// `place` is the corner of the diamond in column `c` of row `r`: `c` diamonds from the left,
/// half a diamond further in odd rows, and `r` half-diamonds from the top; and that column is
/// one of the `cols` of an even row or of the `cols - 1` of an odd row.
pub open spec fn diamond_place(place: (nat, nat), r: nat, c: nat, cols: nat, side: nat) -> bool {
    &&& c < (if r % 2 == 1 {
        if cols > 0 {
            cols - 1
        } else {
            0
        }
    } else {
        cols as int
    })
    &&& place == (c * side + (if r % 2 == 1 {
        side / 2
    } else {
        0
    }), r * (side / 2))
}

/// A brick-laid grid of `rows` by `cols` holds as many diamonds of `count` as it has slots; the
/// diamond in column `c` of row `r` is the one numbered `brick_offset(r, cols, c)`, right after
/// the slots of the rows before (`cols` in even rows, one fewer in odd rows), and its corner is
/// `c` diamonds from the left, half a diamond further in odd rows, and `r` half-diamonds from
/// the top.
pub proof fn law_diamond_layout(count: nat, rows: nat, cols: nat, side: nat)
    ensures
        diamond_layout(count, rows, cols, side).len() == if count < brick_offset(rows, cols, 0) {
            count as int
        } else {
            brick_offset(rows, cols, 0)
        },
        forall|r: nat, c: nat|
            r < rows && c < (if r % 2 == 1 {
                if cols > 0 {
                    cols - 1
                } else {
                    0
                }
            } else {
                cols as int
            }) && #[trigger] brick_offset(r, cols, c) < diamond_layout(count, rows, cols, side).len()
                ==> diamond_place(
                diamond_layout(count, rows, cols, side)[brick_offset(r, cols, c)],
                r,
                c,
                cols,
                side,
            ),
{
    let slots = brick_slots(rows, cols);
    lemma_brick_slots_len(rows, cols);
    let l = diamond_layout(count, rows, cols, side);
    assert forall|r: nat, c: nat|
        r < rows && c < (if r % 2 == 1 {
            if cols > 0 {
                cols - 1
            } else {
                0
            }
        } else {
            cols as int
        }) && #[trigger] brick_offset(r, cols, c) < l.len() implies diamond_place(
        l[brick_offset(r, cols, c)],
        r,
        c,
        cols,
        side,
    ) by {
        lemma_brick_slot_at(rows, cols, r, c);
        lemma_brick_slots_len(r, cols);
        let k = brick_offset(r, cols, c);
        assert(k == brick_slots(r, cols).len() + c);
        assert(slots[k] == (r, c));
        assert(l[k] == slot_position(slots[k], side));
    }
}

/// The positions at which `count` diamonds of side `side` are placed on a brick-laid grid of
/// `rows` by `cols`, row by row; slots past the last diamond stay empty.
pub fn diamond_positions(count: usize, rows: u32, cols: u32, side: u32) -> (positions: Vec<(u32, u32)>)
    requires
        diamond_canvas_fits(rows as nat, cols as nat, side as nat),
    ensures
        position_views(positions@) == diamond_layout(count as nat, rows as nat, cols as nat, side as nat),
        positions@.len() == (if count <= brick_capacity(rows as nat, cols as nat) {
            count as nat
        } else {
            brick_capacity(rows as nat, cols as nat)
        }),
{
    proof {
        lemma_brick_slots_len(rows as nat, cols as nat);
    }
    let ghost all = brick_slots(rows as nat, cols as nat);
    let half = side / 2;
    let mut positions: Vec<(u32, u32)> = Vec::new();
    if count == 0 {
        assert(position_views(positions@) =~= diamond_layout(count as nat, rows as nat, cols as nat, side as nat));
        return positions;
    }
    let mut row: u32 = 0;
    while row < rows
        invariant
            all == brick_slots(rows as nat, cols as nat),
            all.len() == brick_capacity(rows as nat, cols as nat),
            row <= rows,
            half == side / 2,
            diamond_canvas_fits(rows as nat, cols as nat, side as nat),
            positions@.len() == brick_slots(row as nat, cols as nat).len(),
            positions@.len() < count,
            position_views(positions@) == all.take(positions@.len() as int).map_values(
                |slot: (nat, nat)| slot_position(slot, side as nat),
            ),
        decreases rows - row,
    {
        let row_offset = if row % 2 == 1 {
            half
        } else {
            0
        };
        let row_length = if row % 2 == 1 {
            if cols > 0 {
                cols - 1
            } else {
                0
            }
        } else {
            cols
        };
        let mut col: u32 = 0;
        while col < row_length
            invariant
                all == brick_slots(rows as nat, cols as nat),
                all.len() == brick_capacity(rows as nat, cols as nat),
                row < rows,
                col <= row_length,
                row_length == row_len(row as nat, cols as nat),
                half == side / 2,
                row_offset == (if row % 2 == 1 {
                    half
                } else {
                    0
                }),
                diamond_canvas_fits(rows as nat, cols as nat, side as nat),
                positions@.len() == brick_slots(row as nat, cols as nat).len() + col,
                positions@.len() <= count,
                position_views(positions@) == all.take(positions@.len() as int).map_values(
                    |slot: (nat, nat)| slot_position(slot, side as nat),
                ),
            decreases row_length - col,
        {
            if positions.len() == count {
                proof {
                    lemma_brick_slot_at(rows as nat, cols as nat, row as nat, col as nat);
                }
                return positions;
            }
            assert(col * side + row_offset <= cols * side) by (nonlinear_arith)
                requires
                    col < row_length,
                    row_length <= cols,
                    row_offset <= side,
                    row_offset == 0 || row_length + 1 <= cols,
            ;
            assert(row * half <= (rows - 1) * half) by (nonlinear_arith)
                requires
                    row < rows,
            ;
            proof {
                lemma_brick_slot_at(rows as nat, cols as nat, row as nat, col as nat);
            }
            let ghost before = positions@;
            let x = col * side + row_offset;
            let y = row * half;
            positions.push((x, y));
            assert(position_views(positions@) =~= all.take(positions@.len() as int).map_values(
                |slot: (nat, nat)| slot_position(slot, side as nat),
            )) by {
                let n = before.len() as int;
                assert(all[n] == (row as nat, col as nat));
                assert(slot_position(all[n], side as nat) == (x as nat, y as nat));
                assert(all.take(n + 1) =~= all.take(n).push(all[n]));
                assert(position_views(positions@) =~= position_views(before).push((x as nat, y as nat)));
                assert(all.take(n + 1).map_values(|slot: (nat, nat)| slot_position(slot, side as nat))
                    =~= all.take(n).map_values(|slot: (nat, nat)| slot_position(slot, side as nat)).push(
                    slot_position(all[n], side as nat),
                ));
            }
            col = col + 1;
        }
        proof {
            assert(brick_slots((row + 1) as nat, cols as nat).len() == brick_slots(row as nat, cols as nat).len() + row_length);
        }
        if positions.len() == count {
            assert(position_views(positions@) =~= diamond_layout(count as nat, rows as nat, cols as nat, side as nat)) by {
                lemma_brick_slots_prefix(rows as nat, (row + 1) as nat, cols as nat);
            }
            return positions;
        }
        row = row + 1;
    }
    proof {
        assert(all.take(all.len() as int) =~= all);
    }
    positions
}


/// The largest width among `sizes`, 0 for none.
pub open spec fn max_width(sizes: Seq<(u32, u32)>) -> nat
    decreases sizes.len(),
{
    if sizes.len() == 0 {
        0
    } else {
        let prev = max_width(sizes.drop_last());
        if sizes.last().0 > prev {
            sizes.last().0 as nat
        } else {
            prev
        }
    }
}

/// The largest height among `sizes`, 0 for none.
pub open spec fn max_height(sizes: Seq<(u32, u32)>) -> nat
    decreases sizes.len(),
{
    if sizes.len() == 0 {
        0
    } else {
        let prev = max_height(sizes.drop_last());
        if sizes.last().1 > prev {
            sizes.last().1 as nat
        } else {
            prev
        }
    }
}

/// Number of rows of a grid of `count` cells, `cols` per row.
pub open spec fn grid_rows(count: nat, cols: nat) -> nat {
    ((count + cols - 1) / cols as int) as nat
}

/// The largest width is at least every width and is one of them (0 for no image); likewise the
/// largest height.
pub proof fn law_max_sizes(sizes: Seq<(u32, u32)>)
    ensures
        forall|i: int| 0 <= i < sizes.len() ==> (#[trigger] sizes[i]).0 <= max_width(sizes) && sizes[i].1
            <= max_height(sizes),
        sizes.len() == 0 ==> max_width(sizes) == 0 && max_height(sizes) == 0,
        sizes.len() > 0 ==> exists|i: int| 0 <= i < sizes.len() && (#[trigger] sizes[i]).0 == max_width(sizes),
        sizes.len() > 0 ==> exists|i: int| 0 <= i < sizes.len() && (#[trigger] sizes[i]).1 == max_height(sizes),
    decreases sizes.len(),
{
    if sizes.len() > 0 {
        let prev = sizes.drop_last();
        law_max_sizes(prev);
        assert forall|i: int| 0 <= i < sizes.len() implies (#[trigger] sizes[i]).0 <= max_width(sizes)
            && sizes[i].1 <= max_height(sizes) by {
            if i < prev.len() {
                assert(sizes[i] == prev[i]);
            }
        }
        if prev.len() > 0 {
            let a = choose|i: int| 0 <= i < prev.len() && (#[trigger] prev[i]).0 == max_width(prev);
            let b = choose|i: int| 0 <= i < prev.len() && (#[trigger] prev[i]).1 == max_height(prev);
            assert(sizes[a] == prev[a]);
            assert(sizes[b] == prev[b]);
        }
        let last = sizes.len() - 1;
        assert(sizes[last] == sizes.last());
    }
}

/// A grid of `count` cells, `cols` per row, has just enough rows: they hold every cell, and one
/// row fewer would not.
pub proof fn law_grid_rows(count: nat, cols: nat)
    requires
        cols > 0,
    ensures
        grid_rows(count, cols) * cols >= count,
        count > 0 ==> (grid_rows(count, cols) - 1) * cols < count,
{
    let r = grid_rows(count, cols);
    assert(r * cols >= count && (count > 0 ==> (r - 1) * cols < count)) by (nonlinear_arith)
        requires
            cols > 0,
            r == (count + cols - 1) / cols as int,
    ;
}

/// The grid of images of these sizes, `cols` per row, fits 32-bit dimensions.
pub open spec fn grid_fits(sizes: Seq<(u32, u32)>, cols: nat) -> bool {
    &&& sizes.len() <= u32::MAX
    &&& max_width(sizes) * cols <= u32::MAX
    &&& max_height(sizes) * grid_rows(sizes.len(), cols) <= u32::MAX
}

/// The shape of a grid of images: every cell as large as the largest image.
pub struct GridLayout {
    pub rows: u32,
    pub cell_width: u32,
    pub cell_height: u32,
    pub total_width: u32,
    pub total_height: u32,
}

/// The largest width and height among `sizes`.
fn max_sizes(sizes: &Vec<(u32, u32)>) -> (m: (u32, u32))
    ensures
        m.0 == max_width(sizes@),
        m.1 == max_height(sizes@),
{
    let mut w: u32 = 0;
    let mut h: u32 = 0;
    let mut i: usize = 0;
    while i < sizes.len()
        invariant
            i <= sizes@.len(),
            w == max_width(sizes@.take(i as int)),
            h == max_height(sizes@.take(i as int)),
        decreases sizes@.len() - i,
    {
        assert(sizes@.take(i + 1).drop_last() =~= sizes@.take(i as int));
        if sizes[i].0 > w {
            w = sizes[i].0;
        }
        if sizes[i].1 > h {
            h = sizes[i].1;
        }
        i = i + 1;
    }
    assert(sizes@.take(sizes@.len() as int) =~= sizes@);
    (w, h)
}

/// Whether the grid of images of these sizes fits 32-bit dimensions.
pub fn grid_layout_fits(sizes: &Vec<(u32, u32)>, cols: u32) -> (fits: bool)
    requires
        cols > 0,
    ensures
        fits == grid_fits(sizes@, cols as nat),
{
    if sizes.len() > u32::MAX as usize {
        return false;
    }
    let (w, h) = max_sizes(sizes);
    let n = sizes.len() as u64;
    let rows = (n + cols as u64 - 1) / cols as u64;
    assert(rows <= n + 1) by (nonlinear_arith)
        requires
            cols >= 1,
            rows == (n + cols - 1) / cols as int,
    ;
    assert((w as u64) * (cols as u64) <= 0xffff_ffff * 0xffff_ffff) by (nonlinear_arith)
        requires
            w <= 0xffff_ffff,
            cols <= 0xffff_ffff,
    ;
    assert((h as u64) * rows <= 0xffff_ffff * 0x1_0000_0000) by (nonlinear_arith)
        requires
            h <= 0xffff_ffff,
            rows <= 0x1_0000_0000,
    ;
    (w as u64) * (cols as u64) <= u32::MAX as u64 && (h as u64) * rows <= u32::MAX as u64
}

/// The shape of the grid of images of these sizes, `cols` per row.
pub fn grid_layout(sizes: &Vec<(u32, u32)>, cols: u32) -> (res: Option<GridLayout>)
    requires
        cols > 0,
        grid_fits(sizes@, cols as nat),
    ensures
        res is None <==> sizes@.len() == 0,
        res matches Some(layout) ==> {
            &&& layout.rows == grid_rows(sizes@.len(), cols as nat)
            &&& layout.cell_width == max_width(sizes@)
            &&& layout.cell_height == max_height(sizes@)
            &&& layout.total_width == max_width(sizes@) * cols
            &&& layout.total_height == max_height(sizes@) * layout.rows
        },
{
    if sizes.len() == 0 {
        return None;
    }
    let n = sizes.len() as u32;
    assert(n % cols != 0 ==> n / cols + 1 <= u32::MAX) by (nonlinear_arith)
        requires
            cols >= 1,
            n <= u32::MAX,
    ;
    let rows = n / cols + if n % cols == 0 {
        0
    } else {
        1
    };
    assert(rows == grid_rows(n as nat, cols as nat)) by (nonlinear_arith)
        requires
            cols >= 1,
            rows == n / cols + (if n % cols == 0 {
                0int
            } else {
                1int
            }),
    ;
    let (w, h) = max_sizes(sizes);
    Some(GridLayout { rows, cell_width: w, cell_height: h, total_width: w * cols, total_height: h * rows })
}

/// Where the `i`-th image of a grid, `cols` per row, sits.
pub fn grid_position(i: u32, cols: u32, cell_width: u32, cell_height: u32) -> (position: (u32, u32))
    requires
        cols > 0,
        cell_width * cols <= u32::MAX,
        cell_height * (i / cols + 1) <= u32::MAX,
    ensures
        position.0 == (i % cols) * cell_width,
        position.1 == (i / cols) * cell_height,
{
    let col = i % cols;
    let row = i / cols;
    assert(col * cell_width <= cell_width * cols) by (nonlinear_arith)
        requires
            col < cols,
    ;
    assert(row * cell_height <= cell_height * (row + 1)) by (nonlinear_arith);
    (col * cell_width, row * cell_height)
}

} // verus!
