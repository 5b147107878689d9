use vstd::prelude::*;

use crate::game::{after_record, record_line, recording_text, ManualGame, MoveRecord};
use crate::text::{decimal, digit_char, nat_digits};
use crate::grid::{
    after_move, cell_index, count_pegs, half, in_cross, index_from, initial_cells, is_centre,
    jump_ok, jump_to, jumps_from, legal_move, middle, move_toward, moves_upto, opens_toward,
    peg_at, pegs_in_range, positions, row_cells, rows_cells, set_peg, stands_at, target,
    valid_moves, coords_small, dealt_out, listed_moves_fit, move_fits, Cell, Move,
};

verus! {

// ---------------------------------------------------------------------------
// Counting pegs
// ---------------------------------------------------------------------------

/// The pegs of a board with one more cell: those it had, and the new cell's.
pub proof fn lemma_count_push(s: Seq<Cell>, c: Cell)
    ensures
        count_pegs(s.push(c)) == count_pegs(s) + if c.has_peg { 1nat } else { 0nat },
{
    assert(s.push(c).drop_last() =~= s);
}

/// The pegs of two boards put together: those of each.
pub proof fn lemma_count_concat(a: Seq<Cell>, b: Seq<Cell>)
    ensures
        count_pegs(a + b) == count_pegs(a) + count_pegs(b),
    decreases b.len(),
{
    if b.len() == 0 {
        assert(a + b =~= a);
    } else {
        lemma_count_concat(a, b.drop_last());
        assert(a + b =~= (a + b.drop_last()).push(b.last()));
        lemma_count_push(a + b.drop_last(), b.last());
        assert(b =~= b.drop_last().push(b.last()));
        lemma_count_push(b.drop_last(), b.last());
    }
}

/// Changing one cell changes the number of pegs by that cell's peg alone.
pub proof fn lemma_count_update(s: Seq<Cell>, i: int, c: Cell)
    requires
        0 <= i < s.len(),
    ensures
        count_pegs(s.update(i, c)) + (if s[i].has_peg { 1nat } else { 0nat })
            == count_pegs(s) + (if c.has_peg { 1nat } else { 0nat }),
    decreases s.len(),
{
    let t = s.update(i, c);
    if i == s.len() - 1 {
        assert(t.drop_last() =~= s.drop_last());
    } else {
        lemma_count_update(s.drop_last(), i, c);
        assert(t.drop_last() =~= s.drop_last().update(i, c));
    }
}

/// A board whose first `k` cells hold a peg, and no others, has `k` pegs.
pub proof fn lemma_count_prefix(s: Seq<Cell>, k: int)
    requires
        0 <= k <= s.len(),
        forall|i: int| 0 <= i < s.len() ==> #[trigger] s[i].has_peg == (i < k),
    ensures
        count_pegs(s) == k,
    decreases s.len(),
{
    if s.len() > 0 {
        if k == s.len() {
            lemma_count_prefix(s.drop_last(), k - 1);
        } else {
            lemma_count_prefix(s.drop_last(), k);
        }
    }
}

// ---------------------------------------------------------------------------
// Finding a hole
// ---------------------------------------------------------------------------

/// Where a cell at `(x, y)` stands at or after `from`, the search finds one,
/// no later than it.
pub proof fn lemma_index_from_found(cells: Seq<Cell>, x: int, y: int, from: int, i: int)
    requires
        0 <= from <= i < cells.len(),
        stands_at(cells[i], x, y),
    ensures
        index_from(cells, x, y, from) is Some,
        from <= index_from(cells, x, y, from)->0 <= i,
        stands_at(cells[index_from(cells, x, y, from)->0], x, y),
    decreases i - from,
{
    if !stands_at(cells[from], x, y) {
        lemma_index_from_found(cells, x, y, from + 1, i);
    }
}

/// What the search finds stands at `(x, y)`, and no cell between `from` and
/// it does; where it finds nothing, no cell from `from` on stands there.
pub proof fn lemma_index_from_sound(cells: Seq<Cell>, x: int, y: int, from: int)
    requires
        0 <= from,
    ensures
        index_from(cells, x, y, from) matches Some(i) ==> from <= i < cells.len() && stands_at(
            cells[i],
            x,
            y,
        ) && forall|j: int| from <= j < i ==> !stands_at(#[trigger] cells[j], x, y),
        index_from(cells, x, y, from) is None ==> forall|j: int|
            from <= j < cells.len() ==> !stands_at(#[trigger] cells[j], x, y),
    decreases cells.len() - from,
{
    if from < cells.len() && !stands_at(cells[from], x, y) {
        lemma_index_from_sound(cells, x, y, from + 1);
    }
}

/// Whether `i` is the index of the first cell of the board at `(x, y)`.
pub open spec fn first_at(cells: Seq<Cell>, x: int, y: int, i: int) -> bool {
    &&& 0 <= i < cells.len()
    &&& cells[i].x == x
    &&& cells[i].y == y
    &&& forall|j: int| 0 <= j < i ==> !(#[trigger] cells[j].x == x && cells[j].y == y)
}

/// Looking up a hole finds the first cell at `(x, y)`, and nothing exactly
/// when no cell stands there.
pub proof fn lemma_cell_index_is_first(cells: Seq<Cell>, x: int, y: int)
    ensures
        cell_index(cells, x, y) matches Some(i) ==> first_at(cells, x, y, i),
        cell_index(cells, x, y) is None <==> forall|j: int|
            0 <= j < cells.len() ==> !(#[trigger] cells[j].x == x && cells[j].y == y),
{
    lemma_index_from_sound(cells, x, y, 0);
    if let Some(i) = cell_index(cells, x, y) {
        assert forall|j: int| 0 <= j < i implies !(#[trigger] cells[j].x == x && cells[j].y == y) by {
            assert(!stands_at(cells[j], x, y));
        }
        assert(!(forall|j: int|
            0 <= j < cells.len() ==> !(#[trigger] cells[j].x == x && cells[j].y == y))) by {
            assert(cells[i].x == x && cells[i].y == y);
        }
    } else {
        assert forall|j: int| 0 <= j < cells.len() implies !(#[trigger] cells[j].x == x && cells[j].y
            == y) by {
            assert(!stands_at(cells[j], x, y));
        }
    }
}

/// A board has at most one first cell at a hole.
pub proof fn lemma_first_at_unique(cells: Seq<Cell>, x: int, y: int, i: int, j: int)
    requires
        first_at(cells, x, y, i),
        first_at(cells, x, y, j),
    ensures
        i == j,
{
    if i < j {
        assert(cells[i].x == x && cells[i].y == y);
    } else if j < i {
        assert(cells[j].x == x && cells[j].y == y);
    }
}

/// On a board whose holes are all different, the hole at `(x, y)` is found
/// at its own index.
pub proof fn lemma_cell_index_unique(cells: Seq<Cell>, i: int)
    requires
        positions(cells).no_duplicates(),
        0 <= i < cells.len(),
    ensures
        cell_index(cells, cells[i].x as int, cells[i].y as int) == Some(i),
{
    let x = cells[i].x as int;
    let y = cells[i].y as int;
    lemma_index_from_found(cells, x, y, 0, i);
    let j = cell_index(cells, x, y)->0;
    assert(positions(cells)[j] == positions(cells)[i]);
}

/// Two boards with the same holes in the same order find each hole at the
/// same index.
pub proof fn lemma_cell_index_same_positions(a: Seq<Cell>, b: Seq<Cell>, x: int, y: int, from: int)
    requires
        positions(a) == positions(b),
    ensures
        index_from(a, x, y, from) == index_from(b, x, y, from),
    decreases a.len() - from,
{
    assert(a.len() == positions(a).len());
    assert(b.len() == positions(b).len());
    if 0 <= from < a.len() {
        assert(positions(a)[from] == positions(b)[from]);
        lemma_cell_index_same_positions(a, b, x, y, from + 1);
    }
}

// ---------------------------------------------------------------------------
// The new board
// ---------------------------------------------------------------------------

/// Whether cell `a` comes before cell `b` row by row, column by column.
pub open spec fn row_major_before(a: Cell, b: Cell) -> bool {
    a.y < b.y || (a.y == b.y && a.x < b.x)
}

proof fn lemma_row_cells(size: i32, y: int, n: int)
    requires
        0 <= y < size,
        n <= size,
    ensures
        ({
            let row = row_cells(size as int, y, n);
            &&& forall|i: int|
                0 <= i < row.len() ==> {
                    &&& (#[trigger] row[i]).y == y
                    &&& 0 <= row[i].x < n
                    &&& in_cross(size as int, row[i].x as int, y)
                    &&& row[i].has_peg == !is_centre(size as int, row[i].x as int, y)
                }
            &&& forall|i: int, j: int| 0 <= i < j < row.len() ==> (#[trigger] row[i]).x < (#[trigger] row[j]).x
            &&& forall|x: int|
                0 <= x < n && in_cross(size as int, x, y) ==> exists|i: int|
                    0 <= i < row.len() && stands_at(#[trigger] row[i], x, y)
        }),
    decreases n,
{
    if n > 0 {
        lemma_row_cells(size, y, n - 1);
        let prev = row_cells(size as int, y, n - 1);
        let x = n - 1;
        if in_cross(size as int, x, y) {
            let c = Cell { x: x as i32, y: y as i32, has_peg: !is_centre(size as int, x, y) };
            let row = prev.push(c);
            assert(row == row_cells(size as int, y, n));
            assert forall|i: int| 0 <= i < row.len() implies {
                &&& (#[trigger] row[i]).y == y
                &&& 0 <= row[i].x < n
                &&& in_cross(size as int, row[i].x as int, y)
                &&& row[i].has_peg == !is_centre(size as int, row[i].x as int, y)
            } by {
                if i < prev.len() {
                    assert(row[i] == prev[i]);
                }
            }
            assert forall|i: int, j: int| 0 <= i < j < row.len() implies (#[trigger] row[i]).x < (
            #[trigger] row[j]).x by {
                assert(row[i] == prev[i]);
                if j < prev.len() {
                    assert(row[j] == prev[j]);
                }
            }
            assert forall|xx: int| 0 <= xx < n && in_cross(size as int, xx, y) implies exists|i: int|
                0 <= i < row.len() && stands_at(#[trigger] row[i], xx, y) by {
                if xx < n - 1 {
                    let i = choose|i: int| 0 <= i < prev.len() && stands_at(#[trigger] prev[i], xx, y);
                    assert(stands_at(row[i], xx, y));
                } else {
                    assert(stands_at(row[prev.len() as int], xx, y));
                }
            }
        } else {
            assert(prev == row_cells(size as int, y, n));
            assert forall|xx: int| 0 <= xx < n && in_cross(size as int, xx, y) implies exists|i: int|
                0 <= i < prev.len() && stands_at(#[trigger] prev[i], xx, y) by {
                assert(xx < n - 1);
            }
        }
    }
}

proof fn lemma_row_count(size: i32, y: int, n: int)
    requires
        0 <= y < size,
        n <= size,
    ensures
        count_pegs(row_cells(size as int, y, n)) + (if y == middle(size as int) && 0 <= middle(
            size as int,
        ) < n {
            1nat
        } else {
            0nat
        }) == row_cells(size as int, y, n).len(),
    decreases n,
{
    if n > 0 {
        lemma_row_count(size, y, n - 1);
        let prev = row_cells(size as int, y, n - 1);
        let x = n - 1;
        if in_cross(size as int, x, y) {
            let c = Cell { x: x as i32, y: y as i32, has_peg: !is_centre(size as int, x, y) };
            lemma_count_push(prev, c);
        } else {
            assert(!is_centre(size as int, x, y));
        }
    }
}

proof fn lemma_rows_cells(size: i32, m: int)
    requires
        0 <= m <= size,
    ensures
        ({
            let rows = rows_cells(size as int, m);
            &&& forall|i: int|
                0 <= i < rows.len() ==> {
                    &&& 0 <= (#[trigger] rows[i]).y < m
                    &&& 0 <= rows[i].x < size
                    &&& in_cross(size as int, rows[i].x as int, rows[i].y as int)
                    &&& rows[i].has_peg == !is_centre(size as int, rows[i].x as int, rows[i].y as int)
                }
            &&& forall|i: int, j: int|
                0 <= i < j < rows.len() ==> row_major_before(#[trigger] rows[i], #[trigger] rows[j])
            &&& forall|x: int, y: int|
                0 <= x < size && 0 <= y < m && in_cross(size as int, x, y) ==> exists|i: int|
                    0 <= i < rows.len() && stands_at(#[trigger] rows[i], x, y)
            &&& count_pegs(rows) + (if 0 <= middle(size as int) < m { 1nat } else { 0nat }) == rows.len()
        }),
    decreases m,
{
    if m > 0 {
        lemma_rows_cells(size, m - 1);
        lemma_row_cells(size, m - 1, size as int);
        lemma_row_count(size, m - 1, size as int);
        let prev = rows_cells(size as int, m - 1);
        let row = row_cells(size as int, m - 1, size as int);
        let rows = prev + row;
        assert(rows == rows_cells(size as int, m));
        lemma_count_concat(prev, row);
        assert forall|i: int| 0 <= i < rows.len() implies {
            &&& 0 <= (#[trigger] rows[i]).y < m
            &&& 0 <= rows[i].x < size
            &&& in_cross(size as int, rows[i].x as int, rows[i].y as int)
            &&& rows[i].has_peg == !is_centre(size as int, rows[i].x as int, rows[i].y as int)
        } by {
            if i >= prev.len() {
                assert(rows[i] == row[i - prev.len()]);
            }
        }
        assert forall|i: int, j: int| 0 <= i < j < rows.len() implies row_major_before(
            #[trigger] rows[i],
            #[trigger] rows[j],
        ) by {
            if j < prev.len() {
            } else if i < prev.len() {
                assert(rows[j] == row[j - prev.len()]);
            } else {
                assert(rows[i] == row[i - prev.len()]);
                assert(rows[j] == row[j - prev.len()]);
            }
        }
        assert forall|x: int, y: int|
            0 <= x < size && 0 <= y < m && in_cross(size as int, x, y) implies exists|i: int|
            0 <= i < rows.len() && stands_at(#[trigger] rows[i], x, y) by {
            if y < m - 1 {
                let i = choose|i: int| 0 <= i < prev.len() && stands_at(#[trigger] prev[i], x, y);
                assert(stands_at(rows[i], x, y));
            } else {
                let i = choose|i: int| 0 <= i < row.len() && stands_at(#[trigger] row[i], x, y);
                assert(stands_at(rows[prev.len() + i], x, y));
            }
        }
    }
}

/// A new board of `size` rows and columns holds exactly the holes of the
/// cross inside the square, each once, row by row; every hole holds a peg but
/// the centre, so a non-empty board starts with one peg fewer than holes.
pub proof fn lemma_new_board(size: i32)
    ensures
        ({
            let cells = initial_cells(size as int);
            &&& forall|i: int|
                0 <= i < cells.len() ==> {
                    &&& 0 <= (#[trigger] cells[i]).x < size
                    &&& 0 <= cells[i].y < size
                    &&& in_cross(size as int, cells[i].x as int, cells[i].y as int)
                    &&& cells[i].has_peg == !is_centre(size as int, cells[i].x as int, cells[i].y as int)
                }
            &&& forall|x: int, y: int|
                0 <= x < size && 0 <= y < size && in_cross(size as int, x, y) ==> #[trigger] cell_index(
                    cells,
                    x,
                    y,
                ) is Some
            &&& positions(cells).no_duplicates()
            &&& forall|i: int, j: int|
                0 <= i < j < cells.len() ==> (#[trigger] cells[i]).y < (#[trigger] cells[j]).y || (
                cells[i].y == cells[j].y && cells[i].x < cells[j].x)
            &&& size <= i32::MAX - 2 ==> pegs_in_range(cells)
            &&& size > 0 ==> count_pegs(cells) + 1 == cells.len()
            &&& size <= 0 ==> cells.len() == 0
        }),
{
    let cells = initial_cells(size as int);
    if size > 0 {
        lemma_rows_cells(size, size as int);
        assert forall|x: int, y: int|
            0 <= x < size && 0 <= y < size && in_cross(size as int, x, y) implies #[trigger] cell_index(
            cells,
            x,
            y,
        ) is Some by {
            let i = choose|i: int| 0 <= i < cells.len() && stands_at(#[trigger] cells[i], x, y);
            lemma_index_from_found(cells, x, y, 0, i);
        }
        assert forall|i: int, j: int|
            0 <= i < positions(cells).len() && 0 <= j < positions(cells).len() && i != j implies positions(
            cells,
        )[i] != positions(cells)[j] by {
            if i < j {
                assert(row_major_before(cells[i], cells[j]));
            } else {
                assert(row_major_before(cells[j], cells[i]));
            }
        }
    }
}

// ---------------------------------------------------------------------------
// The moves open on a board
// ---------------------------------------------------------------------------

proof fn lemma_jumps_from_member(cells: Seq<Cell>, c: Cell, d: int, m: Move)
    requires
        0 <= d,
    ensures
        jumps_from(cells, c, d).contains(m) <==> exists|k: int|
            0 <= k < d && #[trigger] opens_toward(cells, c, k) && m == move_toward(c, k),
    decreases d,
{
    broadcast use vstd::seq_lib::lemma_seq_contains_after_push;

    if d > 0 {
        lemma_jumps_from_member(cells, c, d - 1, m);
        if opens_toward(cells, c, d - 1) && m == move_toward(c, d - 1) {
            assert(opens_toward(cells, c, d - 1));
        }
    } else {
        assert(jumps_from(cells, c, d) =~= Seq::<Move>::empty());
    }
}

proof fn lemma_moves_upto_member(cells: Seq<Cell>, k: int, m: Move)
    requires
        0 <= k <= cells.len(),
    ensures
        moves_upto(cells, k).contains(m) <==> exists|i: int, d: int|
            0 <= i < k && 0 <= d < 4 && #[trigger] opens_toward(cells, cells[i], d) && m
                == move_toward(cells[i], d),
    decreases k,
{
    broadcast use vstd::seq_lib::lemma_seq_concat_contains_all_elements;

    if k > 0 {
        lemma_moves_upto_member(cells, k - 1, m);
        lemma_jumps_from_member(cells, cells[k - 1], 4, m);
        if exists|i: int, d: int|
            0 <= i < k && 0 <= d < 4 && #[trigger] opens_toward(cells, cells[i], d) && m
                == move_toward(cells[i], d) {
            let (i, d) = choose|i: int, d: int|
                0 <= i < k && 0 <= d < 4 && #[trigger] opens_toward(cells, cells[i], d) && m
                    == move_toward(cells[i], d);
            if i < k - 1 {
                assert(opens_toward(cells, cells[i], d));
            } else {
                assert(opens_toward(cells, cells[k - 1], d));
            }
        }
        if jumps_from(cells, cells[k - 1], 4).contains(m) {
            let d = choose|d: int| 0 <= d < 4 && #[trigger] opens_toward(cells, cells[k - 1], d) && m
                == move_toward(cells[k - 1], d);
            assert(opens_toward(cells, cells[k - 1], d));
        }
    } else {
        assert(moves_upto(cells, k) =~= Seq::<Move>::empty());
    }
}

/// On a board whose holes are all different, the moves that
/// `get_all_valid_moves` lists are exactly those that `check_move` accepts
/// between the holes `get_cell` finds at their ends.
pub proof fn lemma_listed_moves_are_legal(cells: Seq<Cell>, m: Move)
    requires
        positions(cells).no_duplicates(),
        pegs_in_range(cells),
    ensures
        valid_moves(cells).contains(m) <==> legal_move(cells, m),
{
    lemma_moves_upto_member(cells, cells.len() as int, m);
    if valid_moves(cells).contains(m) {
        let (i, d) = choose|i: int, d: int|
            0 <= i < cells.len() && 0 <= d < 4 && #[trigger] opens_toward(cells, cells[i], d) && m
                == move_toward(cells[i], d);
        lemma_cell_index_unique(cells, i);
    }
    if legal_move(cells, m) {
        let s = cell_index(cells, m.0.0 as int, m.0.1 as int)->0;
        let e = cell_index(cells, m.1.0 as int, m.1.1 as int)->0;
        lemma_index_from_sound(cells, m.0.0 as int, m.0.1 as int, 0);
        lemma_index_from_sound(cells, m.1.0 as int, m.1.1 as int, 0);
        let c = cells[s];
        let d: int = if cells[e].x == c.x + 2 {
            0
        } else if cells[e].x == c.x - 2 {
            1
        } else if cells[e].y == c.y + 2 {
            2
        } else {
            3
        };
        assert(target(c, d) == (m.1.0 as int, m.1.1 as int));
        assert(opens_toward(cells, cells[s], d));
        assert(m == move_toward(cells[s], d));
    }
}

/// On a board whose holes are all different, no move is open exactly when
/// `check_move` accepts no move: the game is over.
pub proof fn lemma_game_over_iff_no_legal_move(cells: Seq<Cell>)
    requires
        positions(cells).no_duplicates(),
        pegs_in_range(cells),
    ensures
        valid_moves(cells).len() == 0 <==> forall|m: Move| !#[trigger] legal_move(cells, m),
{
    if valid_moves(cells).len() > 0 {
        let m = valid_moves(cells)[0];
        assert(valid_moves(cells).contains(m));
        lemma_listed_moves_are_legal(cells, m);
    }
    if exists|m: Move| #[trigger] legal_move(cells, m) {
        let m = choose|m: Move| #[trigger] legal_move(cells, m);
        lemma_listed_moves_are_legal(cells, m);
    }
}

// ---------------------------------------------------------------------------
// Making a move
// ---------------------------------------------------------------------------

proof fn lemma_set_peg(cells: Seq<Cell>, x: int, y: int, peg: bool)
    ensures
        positions(set_peg(cells, x, y, peg)) == positions(cells),
        set_peg(cells, x, y, peg).len() == cells.len(),
{
    let t = set_peg(cells, x, y, peg);
    lemma_index_from_sound(cells, x, y, 0);
    assert(t.len() == cells.len());
    assert forall|i: int| 0 <= i < t.len() implies #[trigger] positions(t)[i] == positions(cells)[i] by {
        assert(t[i].x == cells[i].x && t[i].y == cells[i].y);
    }
    assert(positions(t) =~= positions(cells));
}

/// A move, legal or not, leaves every hole where it was: only pegs move.
pub proof fn lemma_move_keeps_holes(cells: Seq<Cell>, start: (i32, i32), dest: (i32, i32))
    ensures
        positions(after_move(cells, start, dest)) == positions(cells),
{
    let e1 = set_peg(cells, start.0 as int, start.1 as int, false);
    let e2 = set_peg(e1, half(start.0 + dest.0), half(start.1 + dest.1), false);
    lemma_set_peg(cells, start.0 as int, start.1 as int, false);
    lemma_set_peg(e1, half(start.0 + dest.0), half(start.1 + dest.1), false);
    lemma_set_peg(e2, dest.0 as int, dest.1 as int, true);
}

/// On a board whose holes are all different, a move that `check_move`
/// accepts empties its start and the hole jumped over, fills its end, and so
/// takes exactly one peg off the board.
pub proof fn lemma_legal_move_takes_one_peg(cells: Seq<Cell>, m: Move)
    requires
        positions(cells).no_duplicates(),
        legal_move(cells, m),
    ensures
        ({
            let after = after_move(cells, m.0, m.1);
            &&& count_pegs(after) + 1 == count_pegs(cells)
            &&& !peg_at(after, m.0.0 as int, m.0.1 as int)
            &&& !peg_at(after, half(m.0.0 + m.1.0), half(m.0.1 + m.1.1))
            &&& peg_at(after, m.1.0 as int, m.1.1 as int)
        }),
{
    let (sx, sy) = (m.0.0 as int, m.0.1 as int);
    let (ex, ey) = (m.1.0 as int, m.1.1 as int);
    let (mx, my) = (half(m.0.0 + m.1.0), half(m.0.1 + m.1.1));
    let s = cell_index(cells, sx, sy)->0;
    let e = cell_index(cells, ex, ey)->0;
    lemma_index_from_sound(cells, sx, sy, 0);
    lemma_index_from_sound(cells, ex, ey, 0);
    lemma_index_from_sound(cells, mx, my, 0);
    let k = cell_index(cells, mx, my)->0;
    assert(s != k && k != e && s != e);

    let e1 = set_peg(cells, sx, sy, false);
    let e2 = set_peg(e1, mx, my, false);
    let e3 = set_peg(e2, ex, ey, true);
    lemma_set_peg(cells, sx, sy, false);
    lemma_set_peg(e1, mx, my, false);
    lemma_set_peg(e2, ex, ey, true);
    lemma_cell_index_same_positions(e1, cells, mx, my, 0);
    lemma_cell_index_same_positions(e2, cells, ex, ey, 0);
    lemma_cell_index_same_positions(e3, cells, sx, sy, 0);
    lemma_cell_index_same_positions(e3, cells, mx, my, 0);
    lemma_cell_index_same_positions(e3, cells, ex, ey, 0);

    lemma_count_update(cells, s, Cell { x: cells[s].x, y: cells[s].y, has_peg: false });
    lemma_count_update(e1, k, Cell { x: e1[k].x, y: e1[k].y, has_peg: false });
    lemma_count_update(e2, e, Cell { x: e2[e].x, y: e2[e].y, has_peg: true });
}

// ---------------------------------------------------------------------------
// Dealing the pegs out again
// ---------------------------------------------------------------------------

/// A board never holds more pegs than holes.
pub proof fn lemma_count_at_most_len(s: Seq<Cell>)
    ensures
        count_pegs(s) <= s.len(),
    decreases s.len(),
{
    if s.len() > 0 {
        lemma_count_at_most_len(s.drop_last());
    }
}

/// Dealing the pegs out again, as `randomize_pegs` does, keeps the number of
/// pegs, and keeps the holes all different where they were.
pub proof fn lemma_deal_keeps_pegs_and_holes(before: Seq<Cell>, after: Seq<Cell>)
    requires
        after.len() == before.len(),
        positions(after).to_multiset() == positions(before).to_multiset(),
        forall|i: int| 0 <= i < after.len() ==> #[trigger] after[i].has_peg == (i < count_pegs(before)),
    ensures
        count_pegs(after) == count_pegs(before),
        positions(before).no_duplicates() ==> positions(after).no_duplicates(),
{
    lemma_count_at_most_len(before);
    lemma_count_prefix(after, count_pegs(before) as int);
    if positions(before).no_duplicates() {
        positions(before).lemma_multiset_has_no_duplicates();
        positions(after).lemma_multiset_has_no_duplicates_conv();
    }
}

// ---------------------------------------------------------------------------
// Coordinates that can be computed with
// ---------------------------------------------------------------------------

/// On a board with small coordinates, every listed move can be made.
pub proof fn lemma_small_coords_moves_fit(cells: Seq<Cell>)
    requires
        coords_small(cells),
    ensures
        listed_moves_fit(cells),
{
    assert forall|m: Move| #[trigger] valid_moves(cells).contains(m) implies move_fits(m) by {
        lemma_moves_upto_member(cells, cells.len() as int, m);
        let (i, d) = choose|i: int, d: int|
            0 <= i < cells.len() && 0 <= d < 4 && #[trigger] opens_toward(cells, cells[i], d) && m
                == move_toward(cells[i], d);
        let c = cells[i];
        assert(-0x3fff_fff0 <= c.x <= 0x3fff_fff0 && -0x3fff_fff0 <= c.y <= 0x3fff_fff0);
    }
}

/// Small coordinates leave every peg two holes away from the ends of `i32`.
pub proof fn lemma_small_coords_in_range(cells: Seq<Cell>)
    requires
        coords_small(cells),
    ensures
        pegs_in_range(cells),
{
}

/// Boards with the same holes in the same order both have small
/// coordinates, or neither.
pub proof fn lemma_small_coords_same_positions(a: Seq<Cell>, b: Seq<Cell>)
    requires
        positions(a) == positions(b),
        coords_small(a),
    ensures
        coords_small(b),
{
    assert(a.len() == positions(a).len());
    assert(b.len() == positions(b).len());
    assert forall|i: int| 0 <= i < b.len() implies {
        &&& -0x3fff_fff0 <= #[trigger] b[i].x <= 0x3fff_fff0
        &&& -0x3fff_fff0 <= b[i].y <= 0x3fff_fff0
    } by {
        assert(positions(a)[i] == positions(b)[i]);
    }
}

/// On a board whose holes are all different, every listed move, such as the
/// one the program picks, takes exactly one peg off the board.
pub proof fn lemma_listed_move_takes_one_peg(cells: Seq<Cell>, m: Move)
    requires
        positions(cells).no_duplicates(),
        pegs_in_range(cells),
        valid_moves(cells).contains(m),
    ensures
        count_pegs(after_move(cells, m.0, m.1)) + 1 == count_pegs(cells),
        positions(after_move(cells, m.0, m.1)) == positions(cells),
{
    lemma_listed_moves_are_legal(cells, m);
    lemma_legal_move_takes_one_peg(cells, m);
    lemma_move_keeps_holes(cells, m.0, m.1);
}

/// On a board with small coordinates, any click can be handled.
pub proof fn lemma_small_coords_click_fits(game: ManualGame, x: i32, y: i32)
    requires
        coords_small(game.grid.cells@),
    ensures
        game.click_fits(x, y),
{
    let before = game.grid.cells@;
    if game.selected_start is Some && game.selected_end is None {
        let start = game.selected_start->0;
        if legal_move(before, (start, (x, y))) {
            lemma_index_from_sound(before, start.0 as int, start.1 as int, 0);
            lemma_index_from_sound(before, x as int, y as int, 0);
            lemma_move_keeps_holes(before, start, (x, y));
            lemma_small_coords_same_positions(before, after_move(before, start, (x, y)));
        }
    }
}

// ---------------------------------------------------------------------------
// The rule of a jump, spelled out
// ---------------------------------------------------------------------------

/// A peg may jump exactly when all four hold: the start holds a peg, the
/// destination is empty, the two lie two holes apart in a row or a column,
/// and the first cell at the hole halfway between holds a peg. Nothing else
/// refuses a jump.
pub proof fn lemma_jump_rule(cells: Seq<Cell>, s: Cell, d: Cell)
    ensures
        jump_ok(cells, s, d) <==> {
            &&& s.has_peg
            &&& !d.has_peg
            &&& (s.y == d.y && (s.x - d.x == 2 || d.x - s.x == 2)) || (s.x == d.x && (s.y - d.y == 2
                || d.y - s.y == 2))
            &&& exists|i: int|
                first_at(cells, (s.x + d.x) / 2, (s.y + d.y) / 2, i) && #[trigger] cells[i].has_peg
        },
{
    let mx = (s.x + d.x) / 2;
    let my = (s.y + d.y) / 2;
    let apart = (s.y == d.y && (s.x - d.x == 2 || d.x - s.x == 2)) || (s.x == d.x && (s.y - d.y == 2
        || d.y - s.y == 2));
    if apart {
        assert(half(s.x + d.x) == mx);
        assert(half(s.y + d.y) == my);
        lemma_cell_index_is_first(cells, mx, my);
        if exists|i: int| first_at(cells, mx, my, i) && #[trigger] cells[i].has_peg {
            let i = choose|i: int| first_at(cells, mx, my, i) && #[trigger] cells[i].has_peg;
            assert(cells[i].x == mx && cells[i].y == my);
            let k = cell_index(cells, mx, my)->0;
            lemma_first_at_unique(cells, mx, my, i, k);
        }
        if peg_at(cells, mx, my) {
            let k = cell_index(cells, mx, my)->0;
            assert(first_at(cells, mx, my, k) && cells[k].has_peg);
        }
    }
}

// ---------------------------------------------------------------------------
// Each open move is listed once
// ---------------------------------------------------------------------------

/// Whether the peg in `c`, if any, stands two holes inside the range of `i32`.
pub open spec fn peg_in_range(c: Cell) -> bool {
    c.has_peg ==> {
        &&& i32::MIN + 2 <= c.x <= i32::MAX - 2
        &&& i32::MIN + 2 <= c.y <= i32::MAX - 2
    }
}

proof fn lemma_jumps_from_distinct(cells: Seq<Cell>, c: Cell, d: int)
    requires
        0 <= d <= 4,
        peg_in_range(c),
    ensures
        jumps_from(cells, c, d).no_duplicates(),
        forall|m: Move|
            #[trigger] jumps_from(cells, c, d).contains(m) ==> m.0 == (c.x, c.y),
    decreases d,
{
    if d > 0 {
        lemma_jumps_from_distinct(cells, c, d - 1);
        let prev = jumps_from(cells, c, d - 1);
        if opens_toward(cells, c, d - 1) {
            let m = move_toward(c, d - 1);
            assert(c.has_peg);
            assert forall|m2: Move| #[trigger] prev.contains(m2) implies m2 != m by {
                lemma_jumps_from_member(cells, c, d - 1, m2);
                let k = choose|k: int| 0 <= k < d - 1 && #[trigger] opens_toward(cells, c, k) && m2
                    == move_toward(c, k);
            }
            let next = prev.push(m);
            assert forall|i: int, j: int|
                0 <= i < next.len() && 0 <= j < next.len() && i != j implies next[i] != next[j] by {
                if i < prev.len() && j < prev.len() {
                } else if i < prev.len() {
                    assert(prev.contains(next[i]));
                } else {
                    assert(prev.contains(next[j]));
                }
            }
            assert forall|m2: Move| #[trigger] next.contains(m2) implies m2.0 == (c.x, c.y) by {
                if m2 != m {
                    let i = choose|i: int| 0 <= i < next.len() && next[i] == m2;
                    assert(prev.contains(prev[i]));
                }
            }
        }
    } else {
        assert(jumps_from(cells, c, d) =~= Seq::<Move>::empty());
    }
}

proof fn lemma_moves_upto_distinct(cells: Seq<Cell>, k: int)
    requires
        0 <= k <= cells.len(),
        positions(cells).no_duplicates(),
        pegs_in_range(cells),
    ensures
        moves_upto(cells, k).no_duplicates(),
        forall|m: Move|
            #[trigger] moves_upto(cells, k).contains(m) ==> exists|i: int|
                0 <= i < k && m.0 == (#[trigger] cells[i].x, cells[i].y),
    decreases k,
{
    if k > 0 {
        lemma_moves_upto_distinct(cells, k - 1);
        let a = moves_upto(cells, k - 1);
        let c = cells[k - 1];
        assert(peg_in_range(c));
        lemma_jumps_from_distinct(cells, c, 4);
        let b = jumps_from(cells, c, 4);
        let ab = a + b;
        assert(ab == moves_upto(cells, k));
        assert forall|i: int, j: int|
            0 <= i < ab.len() && 0 <= j < ab.len() && i != j implies ab[i] != ab[j] by {
            if i < a.len() && j < a.len() {
            } else if i >= a.len() && j >= a.len() {
                assert(ab[i] == b[i - a.len()]);
                assert(ab[j] == b[j - a.len()]);
            } else {
                let (p, q) = if i < a.len() { (i, j) } else { (j, i) };
                assert(a.contains(ab[p]));
                assert(ab[q] == b[q - a.len()]);
                assert(b.contains(ab[q]));
                let l = choose|l: int| 0 <= l < k - 1 && ab[p].0 == (#[trigger] cells[l].x, cells[l].y);
                assert(positions(cells)[l] != positions(cells)[k - 1]);
            }
        }
        assert forall|m: Move| #[trigger] ab.contains(m) implies exists|i: int|
            0 <= i < k && m.0 == (#[trigger] cells[i].x, cells[i].y) by {
            let t = choose|t: int| 0 <= t < ab.len() && ab[t] == m;
            if t < a.len() {
                assert(a.contains(m));
                let l = choose|l: int| 0 <= l < k - 1 && m.0 == (#[trigger] cells[l].x, cells[l].y);
                assert(m.0 == (cells[l].x, cells[l].y));
            } else {
                assert(ab[t] == b[t - a.len()]);
                assert(b.contains(m));
                assert(m.0 == (cells[k - 1].x, cells[k - 1].y));
            }
        }
    } else {
        assert(moves_upto(cells, k) =~= Seq::<Move>::empty());
    }
}

/// On a board whose holes are all different, the list of open moves names
/// each move once.
pub proof fn lemma_listed_moves_distinct(cells: Seq<Cell>)
    requires
        positions(cells).no_duplicates(),
        pegs_in_range(cells),
    ensures
        valid_moves(cells).no_duplicates(),
{
    lemma_moves_upto_distinct(cells, cells.len() as int);
}

// ---------------------------------------------------------------------------
// The new board, spelled out
// ---------------------------------------------------------------------------

/// Whether the board has a hole at `(x, y)`.
pub open spec fn has_hole(cells: Seq<Cell>, x: int, y: int) -> bool {
    exists|i: int| 0 <= i < cells.len() && #[trigger] cells[i].x == x && cells[i].y == y
}

/// A new board of `size` rows and columns, with `m = size / 2`, has a hole
/// exactly at each `(x, y)` of the square that lies in columns `m - 1` to
/// `m + 1` or in rows `m - 1` to `m + 1`; every hole holds a peg but the one
/// at `(m, m)`, which the board has. For an odd size the cross is symmetric
/// left to right and top to bottom.
pub proof fn lemma_new_board_is_centred_cross(size: i32)
    requires
        size > 0,
    ensures
        ({
            let cells = initial_cells(size as int);
            let m = size / 2;
            &&& forall|x: int, y: int|
                #[trigger] has_hole(cells, x, y) <==> (0 <= x < size && 0 <= y < size && (m - 1 <= x
                    <= m + 1 || m - 1 <= y <= m + 1))
            &&& forall|i: int|
                0 <= i < cells.len() ==> (#[trigger] cells[i].has_peg <==> !(cells[i].x == m
                    && cells[i].y == m))
            &&& has_hole(cells, m as int, m as int)
            &&& size % 2 == 1 ==> forall|x: int, y: int|
                #[trigger] has_hole(cells, x, y) ==> has_hole(cells, size - 1 - x, y) && has_hole(
                    cells,
                    x,
                    size - 1 - y,
                )
        }),
{
    let cells = initial_cells(size as int);
    let m = size / 2;
    lemma_new_board(size);
    assert(middle(size as int) == m);
    assert forall|x: int, y: int|
        #[trigger] has_hole(cells, x, y) <==> (0 <= x < size && 0 <= y < size && (m - 1 <= x <= m + 1
            || m - 1 <= y <= m + 1)) by {
        if 0 <= x < size && 0 <= y < size && (m - 1 <= x <= m + 1 || m - 1 <= y <= m + 1) {
            assert(in_cross(size as int, x, y));
            assert(cell_index(cells, x, y) is Some);
            lemma_cell_index_is_first(cells, x, y);
            let i = cell_index(cells, x, y)->0;
            assert(cells[i].x == x && cells[i].y == y);
        }
        if has_hole(cells, x, y) {
            let i = choose|i: int| 0 <= i < cells.len() && #[trigger] cells[i].x == x && cells[i].y == y;
            assert(in_cross(size as int, cells[i].x as int, cells[i].y as int));
        }
    }
    assert(has_hole(cells, m as int, m as int));
    if size % 2 == 1 {
        assert forall|x: int, y: int| #[trigger] has_hole(cells, x, y) implies has_hole(
            cells,
            size - 1 - x,
            y,
        ) && has_hole(cells, x, size - 1 - y) by {
            assert(has_hole(cells, size - 1 - x, y));
            assert(has_hole(cells, x, size - 1 - y));
        }
    }
}

// ---------------------------------------------------------------------------
// Recording
// ---------------------------------------------------------------------------

/// With recording off, recording a move changes nothing; with it on, the
/// moves recorded before stay as they were and one record is added after
/// them, numbered one past their count, with the move's two ends.
pub proof fn lemma_record_only_when_on(
    enabled: bool,
    moves: Seq<MoveRecord>,
    start: (i32, i32),
    end: (i32, i32),
)
    ensures
        !enabled ==> after_record(enabled, moves, start, end) == moves,
        enabled && moves.len() < u32::MAX ==> {
            let r = after_record(enabled, moves, start, end);
            &&& r.len() == moves.len() + 1
            &&& r.take(moves.len() as int) == moves
            &&& r.last().move_number == moves.len() + 1
            &&& r.last().start == start
            &&& r.last().end == end
        },
{
    if enabled && moves.len() < u32::MAX {
        let r = after_record(enabled, moves, start, end);
        assert(r.take(moves.len() as int) =~= moves);
    }
}

/// The number of line breaks in a text.
pub open spec fn line_breaks(s: Seq<char>) -> nat {
    s.filter(|c: char| c == '\n').len()
}

/// Whether a text holds no line break.
pub open spec fn one_line(s: Seq<char>) -> bool {
    forall|i: int| 0 <= i < s.len() ==> #[trigger] s[i] != '\n'
}

proof fn lemma_one_line_concat(a: Seq<char>, b: Seq<char>)
    requires
        one_line(a),
        one_line(b),
    ensures
        one_line(a + b),
{
    assert forall|i: int| 0 <= i < (a + b).len() implies #[trigger] (a + b)[i] != '\n' by {
        if i < a.len() {
            assert((a + b)[i] == a[i]);
        } else {
            assert((a + b)[i] == b[i - a.len()]);
        }
    }
}

proof fn lemma_digits_one_line(n: nat)
    ensures
        one_line(nat_digits(n)),
    decreases n,
{
    if n < 10 {
        assert(digit_char(n as int) != '\n');
    } else {
        lemma_digits_one_line(n / 10);
        assert(digit_char((n % 10) as int) != '\n');
        lemma_one_line_concat(nat_digits(n / 10), seq![digit_char((n % 10) as int)]);
    }
}

proof fn lemma_decimal_one_line(v: int)
    ensures
        one_line(decimal(v)),
{
    if v < 0 {
        lemma_digits_one_line((-v) as nat);
        lemma_one_line_concat(seq!['-'], nat_digits((-v) as nat));
    } else {
        lemma_digits_one_line(v as nat);
    }
}

proof fn lemma_record_line_one_line(m: MoveRecord)
    ensures
        one_line(record_line(m)),
{
    lemma_decimal_one_line(m.move_number as int);
    lemma_decimal_one_line(m.start.0 as int);
    lemma_decimal_one_line(m.start.1 as int);
    lemma_decimal_one_line(m.end.0 as int);
    lemma_decimal_one_line(m.end.1 as int);
    let p0 = seq!['('];
    let p1 = seq![',', ' ', '('];
    let p2 = seq![',', ' '];
    let p3 = seq![')', ',', ' ', '('];
    let p4 = seq![',', ' '];
    let p5 = seq![')', ')'];
    assert(one_line(p0) && one_line(p1) && one_line(p2) && one_line(p3) && one_line(p4) && one_line(p5));
    let t1 = p0 + decimal(m.move_number as int);
    lemma_one_line_concat(p0, decimal(m.move_number as int));
    lemma_one_line_concat(t1, p1);
    let t2 = t1 + p1 + decimal(m.start.0 as int);
    lemma_one_line_concat(t1 + p1, decimal(m.start.0 as int));
    lemma_one_line_concat(t2, p2);
    let t3 = t2 + p2 + decimal(m.start.1 as int);
    lemma_one_line_concat(t2 + p2, decimal(m.start.1 as int));
    lemma_one_line_concat(t3, p3);
    let t4 = t3 + p3 + decimal(m.end.0 as int);
    lemma_one_line_concat(t3 + p3, decimal(m.end.0 as int));
    lemma_one_line_concat(t4, p4);
    let t5 = t4 + p4 + decimal(m.end.1 as int);
    lemma_one_line_concat(t4 + p4, decimal(m.end.1 as int));
    lemma_one_line_concat(t5, p5);
    assert(record_line(m) == t5 + p5);
}

proof fn lemma_one_line_no_breaks(s: Seq<char>)
    requires
        one_line(s),
    ensures
        line_breaks(s) == 0,
{
    let f = s.filter(|c: char| c == '\n');
    if f.len() > 0 {
        s.lemma_filter_pred(|c: char| c == '\n', 0);
        assert(f.contains(f[0]));
        s.lemma_filter_contains_rev(|c: char| c == '\n', f[0]);
    }
}

/// The text of recorded moves is their lines, in order, with one line break
/// between each two: no moves give no text, one move its line, and one more
/// move adds a line break and its line; so `k` moves give `k - 1` line breaks
/// and no line holds one.
pub proof fn lemma_recording_text_lines(moves: Seq<MoveRecord>, m: MoveRecord)
    ensures
        recording_text(Seq::<MoveRecord>::empty()) == Seq::<char>::empty(),
        recording_text(seq![m]) == record_line(m),
        moves.len() >= 1 ==> recording_text(moves.push(m)) == recording_text(moves) + seq!['\n']
            + record_line(m),
        one_line(record_line(m)),
        line_breaks(recording_text(moves)) + 1 == if moves.len() == 0 {
            1
        } else {
            moves.len()
        },
    decreases moves.len(),
{
    lemma_record_line_one_line(m);
    assert(moves.push(m).drop_last() =~= moves);
    if moves.len() == 0 {
        assert(recording_text(moves) =~= Seq::<char>::empty());
        assert(Seq::<char>::empty().filter(|c: char| c == '\n') =~= Seq::<char>::empty());
    } else if moves.len() == 1 {
        lemma_record_line_one_line(moves[0]);
        lemma_one_line_no_breaks(record_line(moves[0]));
    } else {
        lemma_recording_text_lines(moves.drop_last(), moves.last());
        lemma_record_line_one_line(moves.last());
        lemma_one_line_no_breaks(record_line(moves.last()));
        let pred = |c: char| c == '\n';
        let a = recording_text(moves.drop_last());
        let nl = seq!['\n'];
        let b = record_line(moves.last());
        Seq::filter_distributes_over_add(a + nl, b, pred);
        Seq::filter_distributes_over_add(a, nl, pred);
        reveal_with_fuel(Seq::filter, 2);
        assert(nl.filter(pred) =~= nl) by {
            assert(nl.drop_last() =~= Seq::<char>::empty());
        }
    }
}

// ---------------------------------------------------------------------------
// Holes, moves and their effect, spelled out
// ---------------------------------------------------------------------------

/// The holes of a board are where its cells stand, in their order.
pub proof fn lemma_positions_are_where_cells_stand(cells: Seq<Cell>)
    ensures
        positions(cells).len() == cells.len(),
        forall|i: int|
            0 <= i < cells.len() ==> #[trigger] positions(cells)[i] == (cells[i].x, cells[i].y),
{
}

/// `check_move` accepts a move exactly when the board has cells at both its
/// ends and the peg in the first cell at its start may jump into the first
/// cell at its end.
pub proof fn lemma_legal_move_spelled_out(cells: Seq<Cell>, m: Move)
    ensures
        legal_move(cells, m) <==> exists|s: int, e: int|
            first_at(cells, m.0.0 as int, m.0.1 as int, s) && first_at(
                cells,
                m.1.0 as int,
                m.1.1 as int,
                e,
            ) && #[trigger] jump_ok(cells, cells[s], cells[e]),
{
    lemma_cell_index_is_first(cells, m.0.0 as int, m.0.1 as int);
    lemma_cell_index_is_first(cells, m.1.0 as int, m.1.1 as int);
    if exists|s: int, e: int|
        first_at(cells, m.0.0 as int, m.0.1 as int, s) && first_at(cells, m.1.0 as int, m.1.1 as int, e)
            && #[trigger] jump_ok(cells, cells[s], cells[e]) {
        let (s, e) = choose|s: int, e: int|
            first_at(cells, m.0.0 as int, m.0.1 as int, s) && first_at(
                cells,
                m.1.0 as int,
                m.1.1 as int,
                e,
            ) && #[trigger] jump_ok(cells, cells[s], cells[e]);
        assert(cells[s].x == m.0.0 && cells[s].y == m.0.1);
        assert(cells[e].x == m.1.0 && cells[e].y == m.1.1);
        lemma_first_at_unique(cells, m.0.0 as int, m.0.1 as int, s, cell_index(cells, m.0.0 as int, m.0.1 as int)->0);
        lemma_first_at_unique(cells, m.1.0 as int, m.1.1 as int, e, cell_index(cells, m.1.0 as int, m.1.1 as int)->0);
    }
    if legal_move(cells, m) {
        let s = cell_index(cells, m.0.0 as int, m.0.1 as int)->0;
        let e = cell_index(cells, m.1.0 as int, m.1.1 as int)->0;
        assert(jump_ok(cells, cells[s], cells[e]));
    }
}

proof fn lemma_set_peg_effect(cells: Seq<Cell>, x: int, y: int, peg: bool)
    ensures
        ({
            let t = set_peg(cells, x, y, peg);
            &&& t.len() == cells.len()
            &&& positions(t) == positions(cells)
            &&& forall|i: int|
                0 <= i < cells.len() ==> {
                    &&& (#[trigger] t[i]).x == cells[i].x
                    &&& t[i].y == cells[i].y
                    &&& t[i].has_peg == if first_at(cells, x, y, i) {
                        peg
                    } else {
                        cells[i].has_peg
                    }
                }
        }),
{
    lemma_set_peg(cells, x, y, peg);
    lemma_cell_index_is_first(cells, x, y);
    let t = set_peg(cells, x, y, peg);
    assert forall|i: int| 0 <= i < cells.len() implies {
        &&& (#[trigger] t[i]).x == cells[i].x
        &&& t[i].y == cells[i].y
        &&& t[i].has_peg == if first_at(cells, x, y, i) {
            peg
        } else {
            cells[i].has_peg
        }
    } by {
        if let Some(k) = cell_index(cells, x, y) {
            if first_at(cells, x, y, i) {
                lemma_first_at_unique(cells, x, y, i, k);
            } else if i == k {
            }
        } else {
            if first_at(cells, x, y, i) {
                assert(cells[i].x == x && cells[i].y == y);
            }
        }
    }
}

proof fn lemma_first_at_same_positions(a: Seq<Cell>, b: Seq<Cell>, x: int, y: int, i: int)
    requires
        a.len() == b.len(),
        forall|j: int| 0 <= j < a.len() ==> (#[trigger] a[j]).x == b[j].x && a[j].y == b[j].y,
    ensures
        first_at(a, x, y, i) <==> first_at(b, x, y, i),
{
    if 0 <= i < a.len() {
        assert(a[i].x == b[i].x && a[i].y == b[i].y);
        if first_at(a, x, y, i) {
            assert forall|j: int| 0 <= j < i implies !(#[trigger] b[j].x == x && b[j].y == y) by {
                assert(a[j].x == b[j].x && a[j].y == b[j].y);
            }
        }
        if first_at(b, x, y, i) {
            assert forall|j: int| 0 <= j < i implies !(#[trigger] a[j].x == x && a[j].y == y) by {
                assert(a[j].x == b[j].x && a[j].y == b[j].y);
            }
        }
    }
}

/// What a move does to the board, legal or not: every cell keeps its place;
/// the first cell at the end receives a peg; otherwise the first cells at
/// the start and at the hole halfway between (halves rounded toward zero,
/// as Rust divides) lose theirs; every other cell stays as it was.
pub proof fn lemma_move_effect(cells: Seq<Cell>, start: (i32, i32), dest: (i32, i32))
    ensures
        ({
            let after = after_move(cells, start, dest);
            let sum_x = start.0 + dest.0;
            let sum_y = start.1 + dest.1;
            let mid_x = if sum_x >= 0 { sum_x / 2 } else { -((-sum_x) / 2) };
            let mid_y = if sum_y >= 0 { sum_y / 2 } else { -((-sum_y) / 2) };
            &&& after.len() == cells.len()
            &&& forall|i: int|
                0 <= i < cells.len() ==> {
                    &&& (#[trigger] after[i]).x == cells[i].x
                    &&& after[i].y == cells[i].y
                    &&& after[i].has_peg == if first_at(cells, dest.0 as int, dest.1 as int, i) {
                        true
                    } else if first_at(cells, start.0 as int, start.1 as int, i) || first_at(
                        cells,
                        mid_x,
                        mid_y,
                        i,
                    ) {
                        false
                    } else {
                        cells[i].has_peg
                    }
                }
        }),
{
    let mx = half(start.0 + dest.0);
    let my = half(start.1 + dest.1);
    let e1 = set_peg(cells, start.0 as int, start.1 as int, false);
    let e2 = set_peg(e1, mx, my, false);
    let e3 = set_peg(e2, dest.0 as int, dest.1 as int, true);
    lemma_set_peg_effect(cells, start.0 as int, start.1 as int, false);
    lemma_set_peg_effect(e1, mx, my, false);
    lemma_set_peg_effect(e2, dest.0 as int, dest.1 as int, true);
    assert forall|i: int| 0 <= i < cells.len() implies {
        &&& (#[trigger] e3[i]).x == cells[i].x
        &&& e3[i].y == cells[i].y
        &&& e3[i].has_peg == if first_at(cells, dest.0 as int, dest.1 as int, i) {
            true
        } else if first_at(cells, start.0 as int, start.1 as int, i) || first_at(cells, mx, my, i) {
            false
        } else {
            cells[i].has_peg
        }
    } by {
        assert(e1[i].x == cells[i].x && e1[i].y == cells[i].y);
        assert(e2[i].x == e1[i].x && e2[i].y == e1[i].y);
        lemma_first_at_same_positions(e1, cells, mx, my, i);
        lemma_first_at_same_positions(e2, cells, dest.0 as int, dest.1 as int, i);
    }
}

// ---------------------------------------------------------------------------
// The order of the listed moves
// ---------------------------------------------------------------------------

/// The direction of a move, ranked as the list goes: right, left, down, up.
pub open spec fn direction_rank(m: Move) -> int {
    if m.1.0 == m.0.0 + 2 {
        0
    } else if m.1.0 == m.0.0 - 2 {
        1
    } else if m.1.1 == m.0.1 + 2 {
        2
    } else {
        3
    }
}

/// The index of the first cell at the start of `m`.
pub open spec fn start_index(cells: Seq<Cell>, m: Move) -> int {
    choose|s: int| first_at(cells, m.0.0 as int, m.0.1 as int, s)
}

proof fn lemma_first_at_own(cells: Seq<Cell>, i: int)
    requires
        positions(cells).no_duplicates(),
        0 <= i < cells.len(),
    ensures
        first_at(cells, cells[i].x as int, cells[i].y as int, i),
{
    assert forall|j: int| 0 <= j < i implies !(#[trigger] cells[j].x == cells[i].x && cells[j].y
        == cells[i].y) by {
        assert(positions(cells)[j] != positions(cells)[i]);
    }
}

proof fn lemma_jumps_from_ranked(cells: Seq<Cell>, c: Cell, d: int)
    requires
        0 <= d <= 4,
        peg_in_range(c),
    ensures
        ({
            let js = jumps_from(cells, c, d);
            &&& forall|i: int| 0 <= i < js.len() ==> #[trigger] direction_rank(js[i]) < d && js[i].0 == (c.x, c.y)
            &&& forall|i: int, j: int|
                0 <= i < j < js.len() ==> direction_rank(#[trigger] js[i]) < direction_rank(#[trigger] js[j])
        }),
    decreases d,
{
    if d > 0 {
        lemma_jumps_from_ranked(cells, c, d - 1);
        let prev = jumps_from(cells, c, d - 1);
        if opens_toward(cells, c, d - 1) {
            assert(c.has_peg);
            let m = move_toward(c, d - 1);
            assert(direction_rank(m) == d - 1);
            let js = prev.push(m);
            assert forall|i: int| 0 <= i < js.len() implies #[trigger] direction_rank(js[i]) < d && js[i].0
                == (c.x, c.y) by {
                if i < prev.len() {
                    assert(js[i] == prev[i]);
                }
            }
            assert forall|i: int, j: int| 0 <= i < j < js.len() implies direction_rank(#[trigger] js[i])
                < direction_rank(#[trigger] js[j]) by {
                assert(js[i] == prev[i]);
                if j < prev.len() {
                    assert(js[j] == prev[j]);
                }
            }
        }
    }
}

proof fn lemma_moves_upto_ordered(cells: Seq<Cell>, k: int)
    requires
        0 <= k <= cells.len(),
        positions(cells).no_duplicates(),
        pegs_in_range(cells),
    ensures
        ({
            let l = moves_upto(cells, k);
            &&& forall|t: int|
                0 <= t < l.len() ==> first_at(
                    cells,
                    (#[trigger] l[t]).0.0 as int,
                    l[t].0.1 as int,
                    start_index(cells, l[t]),
                ) && start_index(cells, l[t]) < k
            &&& forall|i: int, j: int|
                0 <= i < j < l.len() ==> start_index(cells, #[trigger] l[i]) < start_index(
                    cells,
                    #[trigger] l[j],
                ) || (start_index(cells, l[i]) == start_index(cells, l[j]) && direction_rank(l[i])
                    < direction_rank(l[j]))
        }),
    decreases k,
{
    if k > 0 {
        lemma_moves_upto_ordered(cells, k - 1);
        let a = moves_upto(cells, k - 1);
        let c = cells[k - 1];
        assert(peg_in_range(c));
        lemma_jumps_from_ranked(cells, c, 4);
        let b = jumps_from(cells, c, 4);
        let l = a + b;
        assert(l == moves_upto(cells, k));
        lemma_first_at_own(cells, k - 1);
        assert forall|t: int| 0 <= t < b.len() implies start_index(cells, #[trigger] b[t]) == k - 1 by {
            assert(direction_rank(b[t]) < 4);
            assert(b[t].0 == (c.x, c.y));
            let si = start_index(cells, b[t]);
            assert(first_at(cells, c.x as int, c.y as int, k - 1));
            lemma_first_at_unique(cells, c.x as int, c.y as int, si, k - 1);
        }
        assert forall|t: int| 0 <= t < l.len() implies first_at(
            cells,
            (#[trigger] l[t]).0.0 as int,
            l[t].0.1 as int,
            start_index(cells, l[t]),
        ) && start_index(cells, l[t]) < k by {
            if t < a.len() {
                assert(l[t] == a[t]);
                assert(first_at(cells, a[t].0.0 as int, a[t].0.1 as int, start_index(cells, a[t])));
            } else {
                assert(l[t] == b[t - a.len()]);
                assert(direction_rank(b[t - a.len()]) < 4);
                assert(start_index(cells, b[t - a.len()]) == k - 1);
            }
        }
        assert forall|i: int, j: int| 0 <= i < j < l.len() implies start_index(cells, #[trigger] l[i])
            < start_index(cells, #[trigger] l[j]) || (start_index(cells, l[i]) == start_index(cells, l[j])
            && direction_rank(l[i]) < direction_rank(l[j])) by {
            if j < a.len() {
                assert(l[i] == a[i] && l[j] == a[j]);
            } else if i < a.len() {
                assert(l[i] == a[i]);
                assert(l[j] == b[j - a.len()]);
                assert(start_index(cells, b[j - a.len()]) == k - 1);
            } else {
                assert(l[i] == b[i - a.len()]);
                assert(l[j] == b[j - a.len()]);
                assert(start_index(cells, b[i - a.len()]) == k - 1);
                assert(start_index(cells, b[j - a.len()]) == k - 1);
            }
        }
    }
}

/// On a board whose holes are all different, the open moves are listed in
/// the order of the cells they start from and, from one cell, right, left,
/// down, up.
pub proof fn lemma_listed_moves_in_order(cells: Seq<Cell>)
    requires
        positions(cells).no_duplicates(),
        pegs_in_range(cells),
    ensures
        ({
            let l = valid_moves(cells);
            &&& forall|t: int|
                0 <= t < l.len() ==> first_at(
                    cells,
                    (#[trigger] l[t]).0.0 as int,
                    l[t].0.1 as int,
                    start_index(cells, l[t]),
                )
            &&& forall|i: int, j: int|
                0 <= i < j < l.len() ==> start_index(cells, #[trigger] l[i]) < start_index(
                    cells,
                    #[trigger] l[j],
                ) || (start_index(cells, l[i]) == start_index(cells, l[j]) && direction_rank(l[i])
                    < direction_rank(l[j]))
        }),
{
    lemma_moves_upto_ordered(cells, cells.len() as int);
}

// ---------------------------------------------------------------------------
// Decimal text
// ---------------------------------------------------------------------------

/// Whether `c` is one of the characters `0` to `9`.
pub open spec fn is_digit(c: char) -> bool {
    48 <= (c as int) <= 57
}

/// The number that a sequence of decimal digits spells, most significant
/// first.
pub open spec fn digits_value(s: Seq<char>) -> int
    decreases s.len(),
{
    if s.len() == 0 {
        0
    } else {
        digits_value(s.drop_last()) * 10 + ((s.last() as int) - 48)
    }
}

proof fn lemma_nat_digits_spelled_out(n: nat)
    ensures
        nat_digits(n).len() >= 1,
        forall|i: int| 0 <= i < nat_digits(n).len() ==> is_digit(#[trigger] nat_digits(n)[i]),
        nat_digits(n).len() > 1 ==> nat_digits(n)[0] != '0',
        digits_value(nat_digits(n)) == n,
    decreases n,
{
    if n < 10 {
        let d = nat_digits(n);
        assert(d.drop_last() =~= Seq::<char>::empty());
        assert((digit_char(n as int) as int) == 48 + n);
        assert(digits_value(d.drop_last()) == 0);
        assert(digits_value(d) == digits_value(d.drop_last()) * 10 + ((d.last() as int) - 48));
    } else {
        lemma_nat_digits_spelled_out(n / 10);
        let p = nat_digits(n / 10);
        let last = digit_char((n % 10) as int);
        let d = p + seq![last];
        assert(d == nat_digits(n));
        assert((last as int) == 48 + n % 10);
        assert(d.drop_last() =~= p);
        assert(d[0] == p[0]);
        if n / 10 < 10 {
            assert(p[0] == digit_char((n / 10) as int));
            assert((p[0] as int) == 48 + n / 10);
        } else {
            lemma_nat_digits_spelled_out(n / 100);
            assert(n / 10 / 10 == n / 100);
            assert(p == nat_digits(n / 100) + seq![digit_char(((n / 10) % 10) as int)]);
            assert(p.len() > 1);
        }
        assert forall|i: int| 0 <= i < d.len() implies is_digit(#[trigger] d[i]) by {
            if i < p.len() {
                assert(d[i] == p[i]);
            }
        }
        vstd::arithmetic::div_mod::lemma_fundamental_div_mod(n as int, 10);
        assert(d.last() == last);
        assert(digits_value(d) == digits_value(p) * 10 + ((last as int) - 48));
        assert(digits_value(p) * 10 == (n / 10) * 10);
    }
}

/// The decimal text of an integer: for a number from zero up, digits only,
/// with no leading zero, spelling the number; for a negative number, a minus
/// sign and then the same for its magnitude.
pub proof fn lemma_decimal_spelled_out(v: int)
    ensures
        ({
            let t = decimal(v);
            let digits = if v < 0 { t.drop_first() } else { t };
            &&& v < 0 ==> t.len() >= 1 && t[0] == '-'
            &&& digits.len() >= 1
            &&& forall|i: int| 0 <= i < digits.len() ==> is_digit(#[trigger] digits[i])
            &&& digits.len() > 1 ==> digits[0] != '0'
            &&& digits_value(digits) == if v < 0 { -v } else { v }
        }),
{
    if v < 0 {
        lemma_nat_digits_spelled_out((-v) as nat);
        assert(decimal(v).drop_first() =~= nat_digits((-v) as nat));
    } else {
        lemma_nat_digits_spelled_out(v as nat);
    }
}

/// A new board no larger than half the range of `i32` has small coordinates,
/// so every click on it and every listed move can be handled.
pub proof fn lemma_new_board_coords_small(size: i32)
    requires
        size <= 0x3fff_fff0,
    ensures
        coords_small(initial_cells(size as int)),
        listed_moves_fit(initial_cells(size as int)),
{
    lemma_new_board(size);
    lemma_small_coords_moves_fit(initial_cells(size as int));
}

} // verus!
