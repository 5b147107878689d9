use vstd::prelude::*;

use crate::random::shuffle_in_place;

verus! {

/// One hole of the board, at column `x` and row `y`, holding a peg or not.
#[derive(Debug, Clone, Copy)]
pub struct Cell {
    pub x: i32,
    pub y: i32,
    pub has_peg: bool,
}

/// The board: the holes of the cross, in the order they were laid out.
pub struct Grid {
    pub cells: Vec<Cell>,
}

/// A move, from the hole of the jumping peg to the hole where it lands.
pub type Move = ((i32, i32), (i32, i32));

// ---------------------------------------------------------------------------
// The layout of a new board
// ---------------------------------------------------------------------------

/// The middle row and column of a board of `size` rows and columns.
pub open spec fn middle(size: int) -> int {
    size / 2
}

/// Whether `(x, y)` lies in the cross: in the three middle columns or the
/// three middle rows.
pub open spec fn in_cross(size: int, x: int, y: int) -> bool {
    let mid = middle(size);
    ||| mid - 1 <= x <= mid + 1
    ||| mid - 1 <= y <= mid + 1
}

/// The hole that a new board leaves empty: the centre.
pub open spec fn is_centre(size: int, x: int, y: int) -> bool {
    x == middle(size) && y == middle(size)
}

/// The cells of the first `n` columns of row `y` of a new board.
pub open spec fn row_cells(size: int, y: int, n: int) -> Seq<Cell>
    decreases n,
{
    if n <= 0 {
        Seq::empty()
    } else {
        let prev = row_cells(size, y, n - 1);
        let x = n - 1;
        if in_cross(size, x, y) {
            prev.push(Cell { x: x as i32, y: y as i32, has_peg: !is_centre(size, x, y) })
        } else {
            prev
        }
    }
}

/// The cells of the first `m` rows of a new board, row by row.
pub open spec fn rows_cells(size: int, m: int) -> Seq<Cell>
    decreases m,
{
    if m <= 0 {
        Seq::empty()
    } else {
        rows_cells(size, m - 1) + row_cells(size, m - 1, size)
    }
}

/// The cells of a new board of `size` rows and columns: the cross, laid out
/// row by row, every hole with a peg but the centre.
pub open spec fn initial_cells(size: int) -> Seq<Cell> {
    rows_cells(size, size)
}

// ---------------------------------------------------------------------------
// Looking up a hole
// ---------------------------------------------------------------------------

/// Whether the cell stands at column `x` and row `y`.
pub open spec fn stands_at(c: Cell, x: int, y: int) -> bool {
    c.x == x && c.y == y
}

/// The index of the first cell at `(x, y)`, searching from index `from` on.
pub open spec fn index_from(cells: Seq<Cell>, x: int, y: int, from: int) -> Option<int>
    decreases cells.len() - from,
{
    if from < 0 || from >= cells.len() {
        None
    } else if stands_at(cells[from], x, y) {
        Some(from)
    } else {
        index_from(cells, x, y, from + 1)
    }
}

/// The index of the first cell of the board at `(x, y)`, if there is one.
pub open spec fn cell_index(cells: Seq<Cell>, x: int, y: int) -> Option<int> {
    index_from(cells, x, y, 0)
}

/// Whether the board has a hole at `(x, y)` and that hole holds a peg.
pub open spec fn peg_at(cells: Seq<Cell>, x: int, y: int) -> bool {
    match cell_index(cells, x, y) {
        Some(i) => cells[i].has_peg,
        None => false,
    }
}

// ---------------------------------------------------------------------------
// The rules of a jump
// ---------------------------------------------------------------------------

/// The absolute value of `n`.
pub open spec fn abs(n: int) -> int {
    if n < 0 { -n } else { n }
}

/// Rust's division by two of a signed integer: rounded toward zero.
pub open spec fn half(n: int) -> int {
    if n >= 0 { n / 2 } else { -((-n) / 2) }
}

/// Whether the peg in `start` may jump into `dest` on the board `cells`:
/// `start` holds a peg, `dest` is empty, the two lie two holes apart in a row
/// or a column, and the hole between them holds a peg.
pub open spec fn jump_ok(cells: Seq<Cell>, start: Cell, dest: Cell) -> bool {
    let dx = abs(start.x - dest.x);
    let dy = abs(start.y - dest.y);
    &&& start.has_peg
    &&& !dest.has_peg
    &&& (dx == 2 && dy == 0) || (dx == 0 && dy == 2)
    &&& peg_at(cells, half(start.x + dest.x), half(start.y + dest.y))
}


// ---------------------------------------------------------------------------
// The moves open on a board
// ---------------------------------------------------------------------------

/// The hole two steps from `c` in direction `d`: right, left, down, then up.
pub open spec fn target(c: Cell, d: int) -> (int, int) {
    if d == 0 {
        (c.x + 2, c.y as int)
    } else if d == 1 {
        (c.x - 2, c.y as int)
    } else if d == 2 {
        (c.x as int, c.y + 2)
    } else {
        (c.x as int, c.y - 2)
    }
}

/// Whether the board has a hole at `(tx, ty)` into which the peg in `c` may jump.
pub open spec fn jump_to(cells: Seq<Cell>, c: Cell, tx: int, ty: int) -> bool {
    match cell_index(cells, tx, ty) {
        Some(j) => jump_ok(cells, c, cells[j]),
        None => false,
    }
}

/// Whether the peg in `c` may jump toward its target in direction `d`.
pub open spec fn opens_toward(cells: Seq<Cell>, c: Cell, d: int) -> bool {
    jump_to(cells, c, target(c, d).0, target(c, d).1)
}

/// The move from `c` toward its target in direction `d`.
pub open spec fn move_toward(c: Cell, d: int) -> Move {
    ((c.x, c.y), (target(c, d).0 as i32, target(c, d).1 as i32))
}

/// The moves of the peg in `c` toward its first `d` targets, in that order.
pub open spec fn jumps_from(cells: Seq<Cell>, c: Cell, d: int) -> Seq<Move>
    decreases d,
{
    if d <= 0 {
        Seq::empty()
    } else {
        let prev = jumps_from(cells, c, d - 1);
        if opens_toward(cells, c, d - 1) {
            prev.push(move_toward(c, d - 1))
        } else {
            prev
        }
    }
}

/// The moves of the pegs in the first `k` cells, cell by cell.
pub open spec fn moves_upto(cells: Seq<Cell>, k: int) -> Seq<Move>
    decreases k,
{
    if k <= 0 {
        Seq::empty()
    } else {
        moves_upto(cells, k - 1) + jumps_from(cells, cells[k - 1], 4)
    }
}

/// Whether `check_move` accepts the move `m` on the board: the holes at both
/// of its ends are found, and the peg in the first may jump into the second.
pub open spec fn legal_move(cells: Seq<Cell>, m: Move) -> bool {
    match (cell_index(cells, m.0.0 as int, m.0.1 as int), cell_index(cells, m.1.0 as int, m.1.1 as int)) {
        (Some(s), Some(e)) => jump_ok(cells, cells[s], cells[e]),
        _ => false,
    }
}

/// Every move open on the board, in the order of the cells and, for each
/// cell, right, left, down, up.
pub open spec fn valid_moves(cells: Seq<Cell>) -> Seq<Move> {
    moves_upto(cells, cells.len() as int)
}

/// Whether every peg stands at least two holes away from the ends of `i32`,
/// so that the holes it may jump to can be named.
pub open spec fn pegs_in_range(cells: Seq<Cell>) -> bool {
    forall|i: int|
        0 <= i < cells.len() && #[trigger] cells[i].has_peg ==> {
            &&& i32::MIN + 2 <= cells[i].x <= i32::MAX - 2
            &&& i32::MIN + 2 <= cells[i].y <= i32::MAX - 2
        }
}

/// Looking toward more targets never lists fewer moves.
pub proof fn lemma_jumps_len_mono(cells: Seq<Cell>, c: Cell, a: int, b: int)
    requires
        a <= b,
    ensures
        jumps_from(cells, c, a).len() <= jumps_from(cells, c, b).len(),
    decreases b - a,
{
    if a < b {
        lemma_jumps_len_mono(cells, c, a, b - 1);
    }
}

/// Looking at more cells never lists fewer moves.
pub proof fn lemma_moves_len_mono(cells: Seq<Cell>, a: int, b: int)
    requires
        a <= b,
    ensures
        moves_upto(cells, a).len() <= moves_upto(cells, b).len(),
    decreases b - a,
{
    if a < b {
        lemma_moves_len_mono(cells, a, b - 1);
    }
}

/// A cell without a peg has no moves.
pub proof fn lemma_no_peg_no_jumps(cells: Seq<Cell>, c: Cell, d: int)
    requires
        !c.has_peg,
    ensures
        jumps_from(cells, c, d) == Seq::<Move>::empty(),
    decreases d,
{
    if d > 0 {
        lemma_no_peg_no_jumps(cells, c, d - 1);
    }
}

// ---------------------------------------------------------------------------
// Making a move
// ---------------------------------------------------------------------------

/// The board with the first cell at `(x, y)`, if it has one, holding a peg
/// or not as `peg` says.
pub open spec fn set_peg(cells: Seq<Cell>, x: int, y: int, peg: bool) -> Seq<Cell> {
    match cell_index(cells, x, y) {
        Some(i) => cells.update(i, Cell { x: cells[i].x, y: cells[i].y, has_peg: peg }),
        None => cells,
    }
}

/// The board after the peg in `start` jumps into `dest`: `start` and the hole
/// halfway between are emptied, `dest` receives the peg. Holes that the board
/// lacks are passed over.
pub open spec fn after_move(cells: Seq<Cell>, start: (i32, i32), dest: (i32, i32)) -> Seq<Cell> {
    let mid_x = half(start.0 + dest.0);
    let mid_y = half(start.1 + dest.1);
    let emptied = set_peg(cells, start.0 as int, start.1 as int, false);
    let captured = set_peg(emptied, mid_x, mid_y, false);
    set_peg(captured, dest.0 as int, dest.1 as int, true)
}

// ---------------------------------------------------------------------------
// Counting and shuffling pegs
// ---------------------------------------------------------------------------

/// The number of pegs on the board.
pub open spec fn count_pegs(cells: Seq<Cell>) -> nat
    decreases cells.len(),
{
    if cells.len() == 0 {
        0
    } else {
        count_pegs(cells.drop_last()) + if cells.last().has_peg { 1nat } else { 0nat }
    }
}

/// Where the holes of the board are, in the order of its cells.
pub open spec fn positions(cells: Seq<Cell>) -> Seq<(i32, i32)> {
    cells.map_values(|c: Cell| (c.x, c.y))
}

/// Whether `after` is `before` dealt out again: the same holes, each as
/// often, in some order, with pegs in the first cells, as many as `before`
/// had, and in no others.
pub open spec fn dealt_out(before: Seq<Cell>, after: Seq<Cell>) -> bool {
    &&& after.len() == before.len()
    &&& positions(after).to_multiset() == positions(before).to_multiset()
    &&& forall|i: int|
        0 <= i < after.len() ==> #[trigger] after[i].has_peg == (i < count_pegs(before))
}

/// Whether every hole of the board lies within half the range of `i32` of
/// the origin, so that coordinates of two holes can be added, and two added
/// to one, without overflow.
pub open spec fn coords_small(cells: Seq<Cell>) -> bool {
    forall|i: int|
        0 <= i < cells.len() ==> {
            &&& -0x3fff_fff0 <= #[trigger] cells[i].x <= 0x3fff_fff0
            &&& -0x3fff_fff0 <= cells[i].y <= 0x3fff_fff0
        }
}

/// Whether the coordinates at the two ends of `m` can be added in `i32`, as
/// `make_move` does to find the hole jumped over.
pub open spec fn move_fits(m: Move) -> bool {
    &&& i32::MIN <= m.0.0 + m.1.0 <= i32::MAX
    &&& i32::MIN <= m.0.1 + m.1.1 <= i32::MAX
}

/// Whether every move open on the board can be made by `make_move`.
pub open spec fn listed_moves_fit(cells: Seq<Cell>) -> bool {
    forall|m: Move| #[trigger] valid_moves(cells).contains(m) ==> move_fits(m)
}

/// Two boards with the same cells, each as often, in some order, have the
/// same holes, each as often.
pub proof fn lemma_same_cells_same_positions(a: Seq<Cell>, b: Seq<Cell>)
    requires
        a.to_multiset() == b.to_multiset(),
    ensures
        positions(a).to_multiset() == positions(b).to_multiset(),
    decreases a.len(),
{
    broadcast use vstd::seq_lib::group_to_multiset_ensures;
    broadcast use vstd::multiset::group_multiset_axioms;
    broadcast use vstd::multiset::group_multiset_properties;

    if a.len() == 0 {
        vstd::seq_lib::to_multiset_len(a);
        vstd::seq_lib::to_multiset_len(b);
        assert(b.len() == 0);
        assert(positions(a) =~= Seq::<(i32, i32)>::empty());
        assert(positions(b) =~= Seq::<(i32, i32)>::empty());
    } else {
        let x = a.last();
        let a2 = a.drop_last();
        assert(a =~= a2.push(x));
        assert(a.to_multiset().count(x) > 0);
        assert(b.contains(x));
        let j = choose|j: int| 0 <= j < b.len() && b[j] == x;
        let b2 = b.remove(j);
        assert(a2.to_multiset() =~= a.to_multiset().remove(x));
        assert(b2.to_multiset() =~= b.to_multiset().remove(x));
        lemma_same_cells_same_positions(a2, b2);
        assert(positions(a) =~= positions(a2).push((x.x, x.y)));
        assert(positions(b) =~= positions(b2).insert(j, (x.x, x.y)));
    }
}

impl Grid {
    /// A new board of `size` rows and columns: a cross whose arms are three
    /// holes wide, every hole with a peg but the centre.
    pub fn new(size: i32) -> (g: Grid)
        ensures
            g.cells@ == initial_cells(size as int),
    {
        let mut cells: Vec<Cell> = Vec::new();
        let mid: i32 = size / 2;
        let arm_half: i32 = 1;
        let mut y: i32 = 0;
        while y < size
            invariant
                0 <= y,
                y <= size || y == 0,
                size > 0 ==> mid == middle(size as int),
                arm_half == 1,
                cells@ == rows_cells(size as int, y as int),
            decreases size - y,
        {
            let mut x: i32 = 0;
            while x < size
                invariant
                    0 <= x <= size,
                    0 <= y < size,
                    mid == middle(size as int),
                    arm_half == 1,
                    cells@ == rows_cells(size as int, y as int) + row_cells(size as int, y as int, x as int),
                decreases size - x,
            {
                let in_vertical_band = x >= mid - arm_half && x <= mid + arm_half;
                let in_horizontal_band = y >= mid - arm_half && y <= mid + arm_half;
                if in_vertical_band || in_horizontal_band {
                    let is_centre = x == mid && y == mid;
                    cells.push(Cell { x, y, has_peg: !is_centre });
                }
                x += 1;
            }
            assert(rows_cells(size as int, y + 1) == rows_cells(size as int, y as int) + row_cells(size as int, y as int, size as int));
            y += 1;
        }
        assert(cells@ == initial_cells(size as int));
        Grid { cells }
    }

    /// The first cell at `(x, y)`, if the board has one.
    pub fn get_cell(&self, x: i32, y: i32) -> (r: Option<&Cell>)
        ensures
            r is Some <==> cell_index(self.cells@, x as int, y as int) is Some,
            r matches Some(c) ==> *c == self.cells@[cell_index(self.cells@, x as int, y as int)->0],
    {
        let mut i: usize = 0;
        while i < self.cells.len()
            invariant
                i <= self.cells.len(),
                cell_index(self.cells@, x as int, y as int) == index_from(self.cells@, x as int, y as int, i as int),
            decreases self.cells.len() - i,
        {
            if self.cells[i].x == x && self.cells[i].y == y {
                return Some(&self.cells[i]);
            }
            i += 1;
        }
        None
    }

    /// The first cell at `(x, y)`, if the board has one, to be changed in place.
    pub fn get_cell_mut(&mut self, x: i32, y: i32) -> (r: Option<&mut Cell>)
        ensures
            r is Some <==> cell_index(old(self).cells@, x as int, y as int) is Some,
            r matches Some(c) ==> {
                let i = cell_index(old(self).cells@, x as int, y as int)->0;
                &&& *c == old(self).cells@[i]
                &&& final(self).cells@ == old(self).cells@.update(i, *final(c))
            },
            r is None ==> final(self).cells@ == old(self).cells@,
    {
        let mut i: usize = 0;
        while i < self.cells.len()
            invariant
                i <= self.cells.len(),
                self.cells@ == old(self).cells@,
                cell_index(self.cells@, x as int, y as int) == index_from(self.cells@, x as int, y as int, i as int),
            decreases self.cells.len() - i,
        {
            if self.cells[i].x == x && self.cells[i].y == y {
                return Some(&mut self.cells[i]);
            }
            i += 1;
        }
        None
    }

    /// Whether the peg in `start_cell` may jump into `destination_cell` on
    /// this board (see `jump_ok`).
    pub fn check_move(&self, start_cell: &Cell, destination_cell: &Cell) -> (r: bool)
        ensures
            r == jump_ok(self.cells@, *start_cell, *destination_cell),
    {
        let sx = start_cell.x as i64;
        let sy = start_cell.y as i64;
        let ex = destination_cell.x as i64;
        let ey = destination_cell.y as i64;
        let dx = if sx >= ex { sx - ex } else { ex - sx };
        let dy = if sy >= ey { sy - ey } else { ey - sy };

        if !start_cell.has_peg || destination_cell.has_peg {
            return false;
        }
        if !((dx == 2 && dy == 0) || (dx == 0 && dy == 2)) {
            return false;
        }
        let mid_x = ((sx + ex) / 2) as i32;
        let mid_y = ((sy + ey) / 2) as i32;
        match self.get_cell(mid_x, mid_y) {
            None => false,
            Some(mid_cell) => mid_cell.has_peg,
        }
    }

    /// Whether any peg on the board can jump.
    pub fn has_any_valid_move(&self) -> (r: bool)
        requires
            pegs_in_range(self.cells@),
        ensures
            r == (valid_moves(self.cells@).len() > 0),
    {
        let ghost cells = self.cells@;
        let mut i: usize = 0;
        while i < self.cells.len()
            invariant
                i <= self.cells.len(),
                cells == self.cells@,
                pegs_in_range(cells),
                moves_upto(cells, i as int).len() == 0,
            decreases self.cells.len() - i,
        {
            let start_cell = &self.cells[i];
            if !start_cell.has_peg {
                proof {
                    lemma_no_peg_no_jumps(cells, *start_cell, 4);
                }
                i += 1;
                continue;
            }
            let possible_moves: [(i32, i32); 4] = [
                (start_cell.x + 2, start_cell.y),
                (start_cell.x - 2, start_cell.y),
                (start_cell.x, start_cell.y + 2),
                (start_cell.x, start_cell.y - 2),
            ];
            let mut d: usize = 0;
            while d < 4
                invariant
                    d <= 4,
                    i < cells.len(),
                    *start_cell == cells[i as int],
                    start_cell.has_peg,
                    pegs_in_range(cells),
                    cells == self.cells@,
                    moves_upto(cells, i as int).len() == 0,
                    jumps_from(cells, *start_cell, d as int).len() == 0,
                    forall|k: int| 0 <= k < 4 ==>
                        possible_moves@[k].0 == target(*start_cell, k).0
                        && possible_moves@[k].1 == target(*start_cell, k).1,
                decreases 4 - d,
            {
                let (dest_x, dest_y) = possible_moves[d];
                if let Some(dest_cell) = self.get_cell(dest_x, dest_y) {
                    if self.check_move(start_cell, dest_cell) {
                        proof {
                            lemma_jumps_len_mono(cells, *start_cell, d + 1, 4);
                            lemma_moves_len_mono(cells, i + 1, cells.len() as int);
                        }
                        return true;
                    }
                }
                d += 1;
            }
            i += 1;
        }
        false
    }

    /// Every move open on the board, cell by cell and, from each cell, right,
    /// left, down, up.
    pub fn get_all_valid_moves(&self) -> (r: Vec<Move>)
        requires
            pegs_in_range(self.cells@),
        ensures
            r@ == valid_moves(self.cells@),
    {
        let ghost cells = self.cells@;
        let mut valid: Vec<Move> = Vec::new();
        let mut i: usize = 0;
        while i < self.cells.len()
            invariant
                i <= self.cells.len(),
                cells == self.cells@,
                pegs_in_range(cells),
                valid@ == moves_upto(cells, i as int),
            decreases self.cells.len() - i,
        {
            let start_cell = &self.cells[i];
            if !start_cell.has_peg {
                proof {
                    lemma_no_peg_no_jumps(cells, *start_cell, 4);
                    assert(moves_upto(cells, i + 1) =~= moves_upto(cells, i as int));
                }
                i += 1;
                continue;
            }
            let possible_destinations: [(i32, i32); 4] = [
                (start_cell.x + 2, start_cell.y),
                (start_cell.x - 2, start_cell.y),
                (start_cell.x, start_cell.y + 2),
                (start_cell.x, start_cell.y - 2),
            ];
            let mut d: usize = 0;
            while d < 4
                invariant
                    d <= 4,
                    i < cells.len(),
                    *start_cell == cells[i as int],
                    start_cell.has_peg,
                    pegs_in_range(cells),
                    cells == self.cells@,
                    valid@ == moves_upto(cells, i as int) + jumps_from(cells, *start_cell, d as int),
                    forall|k: int| 0 <= k < 4 ==>
                        possible_destinations@[k].0 == target(*start_cell, k).0
                        && possible_destinations@[k].1 == target(*start_cell, k).1,
                decreases 4 - d,
            {
                let (dest_x, dest_y) = possible_destinations[d];
                if let Some(dest_cell) = self.get_cell(dest_x, dest_y) {
                    if self.check_move(start_cell, dest_cell) {
                        valid.push(((start_cell.x, start_cell.y), (dest_x, dest_y)));
                        assert(valid@ =~= moves_upto(cells, i as int) + jumps_from(
                            cells,
                            *start_cell,
                            d + 1,
                        ));
                    }
                }
                d += 1;
            }
            i += 1;
        }
        valid
    }

    /// Moves the peg in `start` into `dest` and removes the peg it jumps over.
    /// The move is not checked: see `check_move`.
    pub fn make_move(&mut self, start: (i32, i32), dest: (i32, i32))
        requires
            i32::MIN <= start.0 + dest.0 <= i32::MAX,
            i32::MIN <= start.1 + dest.1 <= i32::MAX,
        ensures
            final(self).cells@ == after_move(old(self).cells@, start, dest),
    {
        let mid_x = (start.0 + dest.0) / 2;
        let mid_y = (start.1 + dest.1) / 2;

        if let Some(start_cell) = self.get_cell_mut(start.0, start.1) {
            start_cell.has_peg = false;
        }
        if let Some(mid_cell) = self.get_cell_mut(mid_x, mid_y) {
            mid_cell.has_peg = false;
        }
        if let Some(dest_cell) = self.get_cell_mut(dest.0, dest.1) {
            dest_cell.has_peg = true;
        }
    }

    /// Deals the pegs out again: the cells are put in a random order, then the
    /// first cells, as many as there were pegs, receive one and the rest none.
    pub fn randomize_pegs(&mut self)
        ensures
            dealt_out(old(self).cells@, final(self).cells@),
    {
        let ghost before = self.cells@;
        let mut peg_count: usize = 0;
        let mut i: usize = 0;
        while i < self.cells.len()
            invariant
                i <= self.cells.len(),
                self.cells@ == before,
                peg_count == count_pegs(before.take(i as int)),
                peg_count <= i,
            decreases self.cells.len() - i,
        {
            assert(before.take(i + 1).drop_last() =~= before.take(i as int));
            if self.cells[i].has_peg {
                peg_count += 1;
            }
            i += 1;
        }
        assert(before.take(before.len() as int) =~= before);

        shuffle_in_place(&mut self.cells);
        let ghost shuffled = self.cells@;
        proof {
            broadcast use vstd::seq_lib::to_multiset_len;
            assert(shuffled.to_multiset().len() == before.to_multiset().len());
        }

        let mut i: usize = 0;
        while i < self.cells.len()
            invariant
                i <= self.cells.len(),
                self.cells@.len() == shuffled.len(),
                positions(self.cells@) == positions(shuffled),
                forall|j: int| 0 <= j < i ==> #[trigger] self.cells@[j].has_peg == (j < peg_count),
            decreases self.cells.len() - i,
        {
            let mut cell = self.cells[i];
            cell.has_peg = i < peg_count;
            self.cells.set(i, cell);
            assert(positions(self.cells@) =~= positions(shuffled));
            i += 1;
        }
        proof {
            lemma_same_cells_same_positions(before, shuffled);
        }
    }
}

} // verus!
