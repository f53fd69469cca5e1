//! Where tiles go in the dashboard grid.
//!
//! Each tile covers a block of `[columns, rows]` cells (its span). Tiles are placed
//! in order, left to right and top to bottom, like CSS grid's auto-placement: a tile
//! that doesn't fit in what's left of a row starts the next one, and later tiles never
//! move back into holes left behind, so reading order always matches the tile order
//! the user arranged.
use vstd::prelude::*;

verus! {

pub const MAX_COLUMNS: usize = 4;

/// Tallest a tile can be made, in rows.
pub const MAX_ROWS: usize = 3;

/// A tile of one cell.
pub const ONE_CELL: [usize; 2] = [1, 1];

pub open spec fn clamp(v: int, lo: int, hi: int) -> int {
    if v < lo {
        lo
    } else if v > hi {
        hi
    } else {
        v
    }
}

/// A saved span, limited to what the grid supports.
pub fn clamp_span(span: [u8; 2]) -> (s: [usize; 2])
    ensures
        s[0] == clamp(span[0] as int, 1, MAX_COLUMNS as int),
        s[1] == clamp(span[1] as int, 1, MAX_ROWS as int),
{
    let w = span[0] as usize;
    let h = span[1] as usize;
    let w = if w < 1 {
        1
    } else if w > MAX_COLUMNS {
        MAX_COLUMNS
    } else {
        w
    };
    let h = if h < 1 {
        1
    } else if h > MAX_ROWS {
        MAX_ROWS
    } else {
        h
    };
    [w, h]
}

/// Where one tile landed: its top-left cell and the cells it covers.
#[derive(Clone, Copy, Debug, PartialEq, Eq)]
pub struct Placed {
    pub row: usize,
    pub col: usize,
    pub span: [usize; 2],
}

/// `(r1, c1)` comes before `(r2, c2)` in reading order.
pub open spec fn before(r1: int, c1: int, r2: int, c2: int) -> bool {
    r1 < r2 || (r1 == r2 && c1 < c2)
}

/// The block of `span` cells with top-left `(r, c)` shares a cell with `p`.
pub open spec fn block_overlaps(p: Placed, r: int, c: int, span: [usize; 2]) -> bool {
    &&& p.span[0] > 0 && p.span[1] > 0 && span[0] > 0 && span[1] > 0
    &&& p.row < r + span[1] && r < p.row + p.span[1]
    &&& p.col < c + span[0] && c < p.col + p.span[0]
}

/// A tile of `span` can go at `(r, c)`: it stays within the columns and covers no cell
/// of the tiles placed before it.
pub open spec fn fits(columns: int, r: int, c: int, span: [usize; 2], earlier: Seq<Placed>) -> bool {
    &&& 0 <= r && 0 <= c
    &&& c + span[0] <= columns
    &&& forall|j: int| 0 <= j < earlier.len() ==> !block_overlaps(#[trigger] earlier[j], r, c, span)
}

/// Where the search for tile `i` starts: right after the tile before it.
pub open spec fn cursor(placed: Seq<Placed>, i: int) -> (int, int) {
    if i <= 0 {
        (0, 0)
    } else {
        (placed[i - 1].row as int, placed[i - 1].col + placed[i - 1].span[0])
    }
}

/// Tile `i` sits at the first spot, in reading order, at or after where tile `i - 1`
/// ended, where it fits.
pub open spec fn placed_at(columns: int, spans: Seq<[usize; 2]>, placed: Seq<Placed>, i: int) -> bool {
    let p = placed[i];
    let (r0, c0) = cursor(placed, i);
    &&& p.span == spans[i]
    &&& fits(columns, p.row as int, p.col as int, spans[i], placed.take(i))
    &&& !before(p.row as int, p.col as int, r0, c0)
    &&& forall|r: int, c: int|
        !before(r, c, r0, c0) && #[trigger] before(r, c, p.row as int, p.col as int) ==> !fits(
            columns,
            r,
            c,
            spans[i],
            placed.take(i),
        )
}

/// `placed` is the auto-placement of tiles of `spans` in a grid `columns` wide.
pub open spec fn auto_placed(columns: int, spans: Seq<[usize; 2]>, placed: Seq<Placed>) -> bool {
    &&& placed.len() == spans.len()
    &&& forall|i: int| 0 <= i < placed.len() ==> #[trigger] placed_at(columns, spans, placed, i)
}

/// An upper bound on the rows the tiles can reach: each tile adds at most its own
/// height plus one row it might skip to.
pub open spec fn rows_bound(spans: Seq<[usize; 2]>) -> nat
    decreases spans.len(),
{
    if spans.len() == 0 {
        0
    } else {
        rows_bound(spans.drop_last()) + spans.last()[1] as nat + 1
    }
}

proof fn lemma_rows_bound_prefix(spans: Seq<[usize; 2]>, i: int)
    requires
        0 <= i <= spans.len(),
    ensures
        rows_bound(spans.take(i)) <= rows_bound(spans),
    decreases spans.len() - i,
{
    if i < spans.len() {
        lemma_rows_bound_prefix(spans, i + 1);
        assert(spans.take(i + 1).drop_last() =~= spans.take(i));
    } else {
        assert(spans.take(i) =~= spans);
    }
}

/// No tile of `placed` shares a cell with the block at `(r, c)`.
fn free(placed: &Vec<Placed>, r: usize, c: usize, span: [usize; 2]) -> (b: bool)
    requires
        r + span[1] <= usize::MAX,
        c + span[0] <= usize::MAX,
        forall|j: int|
            0 <= j < placed@.len() ==> (#[trigger] placed@[j]).row + placed@[j].span[1] <= usize::MAX
                && placed@[j].col + placed@[j].span[0] <= usize::MAX,
    ensures
        b == forall|j: int| 0 <= j < placed@.len() ==> !block_overlaps(#[trigger] placed@[j], r as int, c as int, span),
{
    let mut j: usize = 0;
    while j < placed.len()
        invariant
            j <= placed@.len(),
            r + span[1] <= usize::MAX,
            c + span[0] <= usize::MAX,
            forall|k: int|
                0 <= k < placed@.len() ==> (#[trigger] placed@[k]).row + placed@[k].span[1]
                    <= usize::MAX && placed@[k].col + placed@[k].span[0] <= usize::MAX,
            forall|k: int| 0 <= k < j ==> !block_overlaps(#[trigger] placed@[k], r as int, c as int, span),
        decreases placed@.len() - j,
    {
        let p = placed[j];
        if p.span[0] > 0 && p.span[1] > 0 && span[0] > 0 && span[1] > 0 && p.row < r + span[1] && r
            < p.row + p.span[1] && p.col < c + span[0] && c < p.col + p.span[0] {
            return false;
        }
        j = j + 1;
    }
    true
}

/// Auto-placement: each tile goes at the first free spot at or after where the
/// previous one ended.
pub fn place(columns: usize, spans: &[[usize; 2]]) -> (out: Vec<Placed>)
    requires
        forall|i: int| 0 <= i < spans@.len() ==> (#[trigger] spans@[i])[0] <= columns,
        rows_bound(spans@) <= usize::MAX,
    ensures
        auto_placed(columns as int, spans@, out@),
{
    let mut out: Vec<Placed> = Vec::new();
    let mut row: usize = 0;
    let mut col: usize = 0;
    let mut i: usize = 0;
    while i < spans.len()
        invariant
            i <= spans@.len(),
            out@.len() == i,
            forall|k: int| 0 <= k < spans@.len() ==> (#[trigger] spans@[k])[0] <= columns,
            rows_bound(spans@) <= usize::MAX,
            forall|k: int| 0 <= k < i ==> #[trigger] placed_at(columns as int, spans@, out@, k),
            col <= columns,
            (row as int, col as int) == cursor(out@, i as int),
            row <= rows_bound(spans@.take(i as int)),
            forall|k: int|
                0 <= k < i ==> (#[trigger] out@[k]).row + out@[k].span[1] <= rows_bound(
                    spans@.take(i as int),
                ) && out@[k].col + out@[k].span[0] <= columns,
        decreases spans@.len() - i,
    {
        let span = spans[i];
        let w = span[0];
        let h = span[1];
        let ghost r0 = row as int;
        let ghost c0 = col as int;
        let ghost bound = rows_bound(spans@.take(i as int));
        proof {
            lemma_rows_bound_prefix(spans@, i + 1);
            assert(spans@.take(i + 1).drop_last() =~= spans@.take(i as int));
            assert(spans@.take(i + 1).last() == span);
        }
        loop
            invariant
                col <= columns,
                w <= columns,
                w == span[0],
                h == span[1],
                span == spans@[i as int],
                bound == rows_bound(spans@.take(i as int)),
                bound + h + 1 <= usize::MAX,
                i < spans@.len(),
                out@.len() == i,
                forall|k: int|
                    0 <= k < i ==> (#[trigger] out@[k]).row + out@[k].span[1] <= bound
                        && out@[k].col + out@[k].span[0] <= columns,
                !before(row as int, col as int, r0, c0),
                row <= bound + 1,
                row == bound + 1 ==> col == 0,
                forall|r: int, c: int|
                    !before(r, c, r0, c0) && #[trigger] before(r, c, row as int, col as int) ==> !fits(
                        columns as int,
                        r,
                        c,
                        span,
                        out@,
                    ),
            ensures
                row <= bound + 1,
                !before(row as int, col as int, r0, c0),
                fits(columns as int, row as int, col as int, span, out@),
                forall|r: int, c: int|
                    !before(r, c, r0, c0) && #[trigger] before(r, c, row as int, col as int) ==> !fits(
                        columns as int,
                        r,
                        c,
                        span,
                        out@,
                    ),
            decreases bound + 1 - row, columns - col,
        {
            if w > columns - col {
                proof {
                    assert forall|r: int, c: int|
                        !before(r, c, r0, c0) && #[trigger] before(r, c, row + 1, 0) implies !fits(
                            columns as int,
                            r,
                            c,
                            span,
                            out@,
                        ) by {
                        if c < 0 || before(r, c, row as int, col as int) {
                        } else {
                            assert(r == row && c >= col);
                        }
                    }
                }
                row = row + 1;
                col = 0;
            } else if free(&out, row, col, span) {
                break;
            } else {
                proof {
                    if row == bound + 1 {
                        assert forall|k: int| 0 <= k < out@.len() implies !block_overlaps(
                            #[trigger] out@[k],
                            row as int,
                            col as int,
                            span,
                        ) by {}
                    }
                    assert forall|r: int, c: int|
                        !before(r, c, r0, c0) && #[trigger] before(r, c, row as int, col + 1) implies !fits(
                            columns as int,
                            r,
                            c,
                            span,
                            out@,
                        ) by {
                        if before(r, c, row as int, col as int) {
                        } else {
                            assert(r == row && c == col);
                        }
                    }
                }
                col = col + 1;
            }
        }
        let ghost before_push = out@;
        out.push(Placed { row, col, span });
        proof {
            assert(out@.take(i as int) =~= before_push);
            assert forall|k: int| 0 <= k < i implies #[trigger] placed_at(
                columns as int,
                spans@,
                out@,
                k,
            ) by {
                assert(out@.take(k) =~= before_push.take(k));
                assert(out@[k] == before_push[k]);
                if k > 0 {
                    assert(out@[k - 1] == before_push[k - 1]);
                }
                assert(placed_at(columns as int, spans@, before_push, k));
            }
            assert(placed_at(columns as int, spans@, out@, i as int));
        }
        col = col + w;
        i = i + 1;
    }
    out
}

/// No two placed tiles share a cell, and every tile lies within the columns.
pub proof fn lemma_placed_tiles_are_disjoint(
    columns: int,
    spans: Seq<[usize; 2]>,
    placed: Seq<Placed>,
    i: int,
    j: int,
)
    requires
        auto_placed(columns, spans, placed),
        0 <= j < i < placed.len(),
    ensures
        !block_overlaps(placed[j], placed[i].row as int, placed[i].col as int, placed[i].span),
        placed[i].col + placed[i].span[0] <= columns,
{
    assert(placed_at(columns, spans, placed, i));
    assert(placed.take(i)[j] == placed[j]);
}

/// Later tiles never go back into holes: tile `k` starts at or after the end of every
/// earlier tile `i` in reading order, and so strictly after where tile `i` starts.
pub proof fn lemma_placed_in_reading_order(
    columns: int,
    spans: Seq<[usize; 2]>,
    placed: Seq<Placed>,
    i: int,
    k: int,
)
    requires
        auto_placed(columns, spans, placed),
        0 <= i < k < placed.len(),
    ensures
        !before(placed[k].row as int, placed[k].col as int, placed[i].row as int, placed[i].col + placed[i].span[0]),
        spans[i][0] > 0 ==> before(placed[i].row as int, placed[i].col as int, placed[k].row as int, placed[k].col as int),
    decreases k - i,
{
    assert(placed_at(columns, spans, placed, k));
    assert(placed_at(columns, spans, placed, i));
    if k > i + 1 {
        lemma_placed_in_reading_order(columns, spans, placed, i, k - 1);
        assert(placed_at(columns, spans, placed, k - 1));
    }
}

/// The placement is determined by the column count and the spans alone.
pub proof fn lemma_placement_is_unique(
    columns: int,
    spans: Seq<[usize; 2]>,
    a: Seq<Placed>,
    b: Seq<Placed>,
)
    requires
        auto_placed(columns, spans, a),
        auto_placed(columns, spans, b),
    ensures
        a == b,
{
    assert forall|n: int| 0 <= n <= a.len() implies #[trigger] a.take(n) == b.take(n) by {
        lemma_placement_prefix(columns, spans, a, b, n);
    }
    assert(a.take(a.len() as int) =~= a);
    assert(b.take(b.len() as int) =~= b);
}

proof fn lemma_placement_prefix(
    columns: int,
    spans: Seq<[usize; 2]>,
    a: Seq<Placed>,
    b: Seq<Placed>,
    n: int,
)
    requires
        auto_placed(columns, spans, a),
        auto_placed(columns, spans, b),
        0 <= n <= a.len(),
    ensures
        a.take(n) == b.take(n),
    decreases n,
{
    if n == 0 {
        assert(a.take(0) =~= b.take(0));
    } else {
        let i = n - 1;
        lemma_placement_prefix(columns, spans, a, b, i);
        assert(placed_at(columns, spans, a, i));
        assert(placed_at(columns, spans, b, i));
        if i > 0 {
            assert(a.take(i)[i - 1] == a[i - 1]);
            assert(b.take(i)[i - 1] == b[i - 1]);
        }
        assert(cursor(a, i) == cursor(b, i));
        let (ar, ac) = (a[i].row as int, a[i].col as int);
        let (br, bc) = (b[i].row as int, b[i].col as int);
        if before(ar, ac, br, bc) {
            assert(!fits(columns, ar, ac, spans[i], b.take(i)));
            assert(false);
        }
        if before(br, bc, ar, ac) {
            assert(!fits(columns, br, bc, spans[i], a.take(i)));
            assert(false);
        }
        assert(a[i] == b[i]);
        assert(a.take(n) =~= a.take(i).push(a[i]));
        assert(b.take(n) =~= b.take(i).push(b[i]));
    }
}


/// The slot a tile dropped on cell `(row, col)` goes to when no tile covers that cell
/// (a hole, the empty end of a row, below the grid): the first tile after it in
/// reading order, or the last slot, so a tile can always be dropped last.
pub fn slot_after(placed: &[Placed], row: usize, col: usize) -> (slot: usize)
    requires
        placed@.len() > 0,
    ensures
        slot < placed@.len(),
        forall|i: int| 0 <= i < slot ==> !before(row as int, col as int, #[trigger] placed@[i].row as int, placed@[i].col as int),
        before(row as int, col as int, placed@[slot as int].row as int, placed@[slot as int].col as int)
            || slot == placed@.len() - 1,
{
    let mut i: usize = 0;
    while i < placed.len()
        invariant
            i <= placed@.len(),
            forall|j: int| 0 <= j < i ==> !before(row as int, col as int, #[trigger] placed@[j].row as int, placed@[j].col as int),
        decreases placed@.len() - i,
    {
        let q = placed[i];
        if q.row > row || (q.row == row && q.col > col) {
            return i;
        }
        i = i + 1;
    }
    placed.len() - 1
}

} // verus!
