//! The fixed procedural layout of the arena's terrain.
use vstd::prelude::*;
use crate::geometry::{Rect, CELL_H, CELL_W, COLS, RIGHT_WALL, ROWS, TOP_WALL};

verus! {

/// What stands on a grid cell.
#[derive(Clone, Copy, Debug, PartialEq, Eq)]
pub enum CellKind {
    Empty,
    Brick,
    Wall,
}

/// The layout rule: odd row and odd column hold a breakable brick; otherwise
/// a row in `[2, ROWS - 2)` or a column in `[2, COLS - 2)` holds a wall;
/// the rest is walkable.
pub open spec fn kind_of(row: int, col: int) -> CellKind {
    if row % 2 == 1 && col % 2 == 1 {
        CellKind::Brick
    } else if (2 <= row < ROWS - 2) || (2 <= col < COLS - 2) {
        CellKind::Wall
    } else {
        CellKind::Empty
    }
}

/// Classification of one grid cell.
pub fn classify(row: usize, col: usize) -> (k: CellKind)
    ensures
        k == kind_of(row as int, col as int),
{
    if row % 2 == 1 && col % 2 == 1 {
        CellKind::Brick
    } else if (2 <= row && row < ROWS - 2) || (2 <= col && col < COLS - 2) {
        CellKind::Wall
    } else {
        CellKind::Empty
    }
}

/// A terrain cell: a brick when `breakable`, else a permanent wall.
#[derive(Clone, Copy, Debug, PartialEq, Eq)]
pub struct Cell {
    pub row: usize,
    pub col: usize,
    pub breakable: bool,
}

/// Centre x of grid column `col`.
pub open spec fn column_x(col: int) -> int {
    -RIGHT_WALL + CELL_W / 2 + col * CELL_W
}

/// Centre y of grid row `row`.
pub open spec fn row_y(row: int) -> int {
    -TOP_WALL + CELL_H / 2 + row * CELL_H
}

impl Cell {
    /// The cell lies on the grid.
    pub open spec fn wf(self) -> bool {
        self.row < ROWS && self.col < COLS
    }

    /// The box the cell occupies.
    pub open spec fn spec_rect(self) -> Rect {
        Rect { x: column_x(self.col as int) as i64, y: row_y(self.row as int) as i64, w: CELL_W, h: CELL_H }
    }

    /// The box the cell occupies.
    pub fn rect(&self) -> (r: Rect)
        requires
            self.wf(),
        ensures
            r == self.spec_rect(),
            r.wf(),
    {
        let c = self.col as i64;
        let r = self.row as i64;
        Rect { x: -300 + c * CELL_W, y: -250 + r * CELL_H, w: CELL_W, h: CELL_H }
    }
}

/// The terrain cell at grid index `k` (row-major), if one stands there.
pub open spec fn cell_at(k: int) -> Seq<Cell> {
    let row = k / (COLS as int);
    let col = k % (COLS as int);
    match kind_of(row, col) {
        CellKind::Empty => seq![],
        CellKind::Brick => seq![Cell { row: row as usize, col: col as usize, breakable: true }],
        CellKind::Wall => seq![Cell { row: row as usize, col: col as usize, breakable: false }],
    }
}

/// The cells of the first `k` grid indices, in row-major order.
pub open spec fn layout_upto(k: nat) -> Seq<Cell>
    decreases k,
{
    if k == 0 {
        seq![]
    } else {
        layout_upto((k - 1) as nat) + cell_at(k - 1)
    }
}

/// The whole arena layout.
pub open spec fn arena_layout() -> Seq<Cell> {
    layout_upto((ROWS * COLS) as nat)
}

/// Builds the terrain cells of the arena, row by row.
pub fn build_arena() -> (cells: Vec<Cell>)
    ensures
        cells@ == arena_layout(),
{
    let mut cells: Vec<Cell> = Vec::new();
    let mut k: usize = 0;
    while k < ROWS * COLS
        invariant
            k <= ROWS * COLS,
            cells@ == layout_upto(k as nat),
        decreases ROWS * COLS - k,
    {
        let row = k / COLS;
        let col = k % COLS;
        match classify(row, col) {
            CellKind::Empty => {},
            CellKind::Brick => cells.push(Cell { row, col, breakable: true }),
            CellKind::Wall => cells.push(Cell { row, col, breakable: false }),
        }
        k = k + 1;
    }
    cells
}

proof fn lemma_layout_upto(k: nat)
    requires
        k <= ROWS * COLS,
    ensures
        forall|i: int|
            0 <= i < layout_upto(k).len() ==> {
                let c = #[trigger] layout_upto(k)[i];
                &&& c.wf()
                &&& c.row * COLS + c.col < k
                &&& kind_of(c.row as int, c.col as int) != CellKind::Empty
                &&& c.breakable == (kind_of(c.row as int, c.col as int) == CellKind::Brick)
            },
        forall|row: int, col: int|
            0 <= row < ROWS && 0 <= col < COLS && row * COLS + col < k && kind_of(row, col)
                != CellKind::Empty ==> exists|i: int|
                0 <= i < layout_upto(k).len() && (#[trigger] layout_upto(k)[i]).row == row
                    && layout_upto(k)[i].col == col,
    decreases k,
{
    if k > 0 {
        let p = (k - 1) as nat;
        lemma_layout_upto(p);
        let prev = layout_upto(p);
        let cur = layout_upto(k);
        assert(cur == prev + cell_at(p as int));
        let row = (p as int) / (COLS as int);
        let col = (p as int) % (COLS as int);
        assert(row * COLS + col == p);
        assert forall|i: int| 0 <= i < cur.len() implies {
            let c = #[trigger] cur[i];
            &&& c.wf()
            &&& c.row * COLS + c.col < k
            &&& kind_of(c.row as int, c.col as int) != CellKind::Empty
            &&& c.breakable == (kind_of(c.row as int, c.col as int) == CellKind::Brick)
        } by {
            if i >= prev.len() {
                assert(cur[i] == cell_at(p as int)[i - prev.len()]);
            } else {
                assert(cur[i] == prev[i]);
            }
        }
        assert forall|r: int, c: int|
            0 <= r < ROWS && 0 <= c < COLS && r * COLS + c < k && kind_of(r, c)
                != CellKind::Empty implies exists|i: int|
            0 <= i < cur.len() && (#[trigger] cur[i]).row == r && cur[i].col == c by {
            if r * COLS + c < p {
                let i = choose|i: int|
                    0 <= i < prev.len() && (#[trigger] prev[i]).row == r && prev[i].col == c;
                assert(cur[i] == prev[i]);
            } else {
                assert(r * COLS + c == p);
                assert(r == row && c == col) by (nonlinear_arith)
                    requires
                        r * 13 + c == row * 13 + col,
                        0 <= c < 13,
                        0 <= col < 13,
                ;
                assert(cur[prev.len() as int] == cell_at(p as int)[0]);
            }
        }
    }
}

/// Every cell the builder emits follows the layout rule, and every
/// non-empty grid position is emitted.
pub proof fn lemma_arena_follows_rule()
    ensures
        forall|i: int|
            0 <= i < arena_layout().len() ==> {
                let c = #[trigger] arena_layout()[i];
                &&& c.wf()
                &&& kind_of(c.row as int, c.col as int) != CellKind::Empty
                &&& c.breakable == (kind_of(c.row as int, c.col as int) == CellKind::Brick)
            },
        forall|row: int, col: int|
            0 <= row < ROWS && 0 <= col < COLS && kind_of(row, col) != CellKind::Empty
                ==> exists|i: int|
                0 <= i < arena_layout().len() && (#[trigger] arena_layout()[i]).row == row
                    && arena_layout()[i].col == col,
{
    lemma_layout_upto((ROWS * COLS) as nat);
    assert forall|row: int, col: int|
        0 <= row < ROWS && 0 <= col < COLS && #[trigger] kind_of(row, col) != CellKind::Empty implies row * COLS + col < ROWS * COLS by {
        assert(row * 13 + col < 143) by (nonlinear_arith)
            requires
                0 <= row < 11,
                0 <= col < 13,
        ;
    }
}

} // verus!
