use vstd::prelude::*;

use crate::grid::{
    after_move, cell_index, dealt_out, initial_cells, legal_move, listed_moves_fit, move_fits,
    pegs_in_range, valid_moves, Cell, Grid, Move,
};
use crate::random::pick_one;
use crate::text::{decimal, push_decimal};

verus! {

// ---------------------------------------------------------------------------
// Recording
// ---------------------------------------------------------------------------

/// One recorded move: its number, counted from one, and its two ends.
pub struct MoveRecord {
    pub move_number: u32,
    pub start: (i32, i32),
    pub end: (i32, i32),
}

/// The moves made, when recording is on.
pub struct GameRecorder {
    pub enabled: bool,
    pub moves: Vec<MoveRecord>,
}

/// The moves recorded once the move from `start` to `end` is recorded: if
/// recording is on, one more, numbered after those before it (the count
/// taken as a `u32`).
pub open spec fn after_record(
    enabled: bool,
    moves: Seq<MoveRecord>,
    start: (i32, i32),
    end: (i32, i32),
) -> Seq<MoveRecord> {
    if enabled {
        moves.push(MoveRecord { move_number: ((moves.len() as u32) + 1) as u32, start, end })
    } else {
        moves
    }
}

/// The line that shows a recorded move: `(number, (x, y), (x, y))`.
pub open spec fn record_line(m: MoveRecord) -> Seq<char> {
    seq!['('] + decimal(m.move_number as int) + seq![',', ' ', '('] + decimal(m.start.0 as int)
        + seq![',', ' '] + decimal(m.start.1 as int) + seq![')', ',', ' ', '('] + decimal(
        m.end.0 as int,
    ) + seq![',', ' '] + decimal(m.end.1 as int) + seq![')', ')']
}

/// The lines of the recorded moves, in order, joined by line breaks.
pub open spec fn recording_text(moves: Seq<MoveRecord>) -> Seq<char>
    decreases moves.len(),
{
    if moves.len() == 0 {
        Seq::empty()
    } else if moves.len() == 1 {
        record_line(moves[0])
    } else {
        recording_text(moves.drop_last()) + seq!['\n'] + record_line(moves.last())
    }
}

/// Whether the recorded moves are numbered one, two, three... in order.
pub open spec fn numbered_in_order(moves: Seq<MoveRecord>) -> bool {
    forall|i: int| 0 <= i < moves.len() ==> #[trigger] moves[i].move_number == i + 1
}

/// Recording a move keeps the moves numbered one, two, three... in order.
pub proof fn lemma_record_keeps_numbering(
    enabled: bool,
    moves: Seq<MoveRecord>,
    start: (i32, i32),
    end: (i32, i32),
)
    requires
        numbered_in_order(moves),
        moves.len() < u32::MAX,
    ensures
        numbered_in_order(after_record(enabled, moves, start, end)),
{
}

fn push_record_line(out: &mut String, m: &MoveRecord)
    ensures
        final(out)@ == old(out)@ + record_line(*m),
{
    proof {
        reveal_strlit("(");
        reveal_strlit(", (");
        reveal_strlit(", ");
        reveal_strlit("), (");
        reveal_strlit("))");
    }
    out.append("(");
    push_decimal(out, m.move_number as i64);
    out.append(", (");
    push_decimal(out, m.start.0 as i64);
    out.append(", ");
    push_decimal(out, m.start.1 as i64);
    out.append("), (");
    push_decimal(out, m.end.0 as i64);
    out.append(", ");
    push_decimal(out, m.end.1 as i64);
    out.append("))");
    assert(final(out)@ =~= old(out)@ + record_line(*m));
}

impl GameRecorder {
    /// A recorder that is off and holds no moves.
    pub fn new() -> (r: Self)
        ensures
            !r.enabled,
            r.moves@.len() == 0,
    {
        GameRecorder { enabled: false, moves: Vec::new() }
    }

    /// Records the move from `start` to `end` if recording is on.
    pub fn record(&mut self, start: (i32, i32), end: (i32, i32))
        requires
            old(self).enabled ==> (old(self).moves.len() as u32) < u32::MAX,
        ensures
            final(self).enabled == old(self).enabled,
            final(self).moves@ == after_record(old(self).enabled, old(self).moves@, start, end),
    {
        if self.enabled {
            let move_number = self.moves.len() as u32 + 1;
            self.moves.push(MoveRecord { move_number, start, end });
        }
    }

    /// Forgets the recorded moves.
    pub fn clear(&mut self)
        ensures
            final(self).enabled == old(self).enabled,
            final(self).moves@.len() == 0,
    {
        self.moves.clear();
    }

    /// The recorded moves as text, one line per move.
    pub fn export_to_string(&self) -> (r: String)
        ensures
            r@ == recording_text(self.moves@),
    {
        let ghost moves = self.moves@;
        let mut out = String::new();
        let mut i: usize = 0;
        while i < self.moves.len()
            invariant
                i <= self.moves.len(),
                moves == self.moves@,
                out@ == recording_text(moves.take(i as int)),
            decreases self.moves.len() - i,
        {
            proof {
                reveal_strlit("\n");
            }
            let ghost before = out@;
            if i > 0 {
                out.append("\n");
            }
            push_record_line(&mut out, &self.moves[i]);
            proof {
                let prefix = moves.take(i + 1);
                assert(prefix.drop_last() =~= moves.take(i as int));
                assert(prefix.last() == moves[i as int]);
                if i == 0 {
                    assert(before =~= Seq::<char>::empty());
                    assert(out@ =~= record_line(prefix[0]));
                } else {
                    assert(out@ =~= recording_text(prefix.drop_last()) + seq!['\n'] + record_line(prefix.last()));
                }
            }
            i += 1;
        }
        assert(moves.take(moves.len() as int) =~= moves);
        out
    }
}

// ---------------------------------------------------------------------------
// Games
// ---------------------------------------------------------------------------

/// A game of peg solitaire on a board of some size.
pub trait Game {
    /// The cells of the game's board.
    spec fn board(&self) -> Seq<Cell>;

    /// The number of rows and columns of the game's board.
    spec fn board_size_of(&self) -> i32;

    /// A new game on a new board of `size` rows and columns.
    fn new(size: i32) -> (g: Self) where Self: Sized
        ensures
            g.board() == initial_cells(size as int),
            g.board_size_of() == size,
    ;

    /// The game's board.
    fn get_grid(&self) -> (g: &Grid)
        ensures
            g.cells@ == self.board(),
    ;

    /// The game's board, to be changed in place.
    fn get_grid_mut(&mut self) -> (g: &mut Grid)
        ensures
            g.cells@ == old(self).board(),
            final(self).board() == final(g).cells@,
            final(self).board_size_of() == old(self).board_size_of(),
    ;

    /// Moves the peg in `start` into `dest`, removing the peg jumped over.
    fn make_move(&mut self, start: (i32, i32), dest: (i32, i32))
        requires
            i32::MIN <= start.0 + dest.0 <= i32::MAX,
            i32::MIN <= start.1 + dest.1 <= i32::MAX,
        ensures
            final(self).board() == after_move(old(self).board(), start, dest),
            final(self).board_size_of() == old(self).board_size_of(),
    ;

    /// Whether no peg can jump any more.
    fn is_game_over(&self) -> (r: bool)
        requires
            pegs_in_range(self.board()),
        ensures
            r == (valid_moves(self.board()).len() == 0),
    ;

    /// Deals the pegs out again over the holes of the board.
    fn randomize(&mut self)
        ensures
            dealt_out(old(self).board(), final(self).board()),
            final(self).board_size_of() == old(self).board_size_of(),
    ;

    /// The number of rows and columns of the board.
    fn get_board_size(&self) -> (r: i32)
        ensures
            r == self.board_size_of(),
    ;

    /// Starts over on a new board of the game's size.
    fn reset(&mut self)
        ensures
            final(self).board() == initial_cells(old(self).board_size_of() as int),
            final(self).board_size_of() == old(self).board_size_of(),
    ;
}

/// A game played by hand: a click picks the peg to move, the next click
/// where it should land.
pub struct ManualGame {
    pub grid: Grid,
    pub board_size: i32,
    pub selected_start: Option<(i32, i32)>,
    pub selected_end: Option<(i32, i32)>,
}

/// A game whose moves the program picks at random among those open.
pub struct AutomatedGame {
    pub grid: Grid,
    pub board_size: i32,
}

impl Game for ManualGame {
    open spec fn board(&self) -> Seq<Cell> {
        self.grid.cells@
    }

    open spec fn board_size_of(&self) -> i32 {
        self.board_size
    }

    fn new(size: i32) -> (g: Self)
        ensures
            g.selected_start is None,
            g.selected_end is None,
    {
        ManualGame { grid: Grid::new(size), board_size: size, selected_start: None, selected_end: None }
    }

    fn get_grid(&self) -> (g: &Grid) {
        &self.grid
    }

    fn get_grid_mut(&mut self) -> (g: &mut Grid)
        ensures
            final(self).selected_start == old(self).selected_start,
            final(self).selected_end == old(self).selected_end,
    {
        &mut self.grid
    }

    fn get_board_size(&self) -> (r: i32) {
        self.board_size
    }

    fn make_move(&mut self, start: (i32, i32), dest: (i32, i32))
        ensures
            final(self).selected_start is None,
            final(self).selected_end is None,
    {
        self.grid.make_move(start, dest);
        self.selected_start = None;
        self.selected_end = None;
    }

    fn is_game_over(&self) -> (r: bool) {
        !self.grid.has_any_valid_move()
    }

    fn randomize(&mut self)
        ensures
            final(self).selected_start == old(self).selected_start,
            final(self).selected_end == old(self).selected_end,
    {
        self.grid.randomize_pegs();
    }

    fn reset(&mut self)
        ensures
            final(self).selected_start is None,
            final(self).selected_end is None,
    {
        self.grid = Grid::new(self.board_size);
        self.selected_start = None;
        self.selected_end = None;
    }
}

impl Game for AutomatedGame {
    open spec fn board(&self) -> Seq<Cell> {
        self.grid.cells@
    }

    open spec fn board_size_of(&self) -> i32 {
        self.board_size
    }

    fn new(size: i32) -> (g: Self) {
        AutomatedGame { grid: Grid::new(size), board_size: size }
    }

    fn get_grid(&self) -> (g: &Grid) {
        &self.grid
    }

    fn get_grid_mut(&mut self) -> (g: &mut Grid) {
        &mut self.grid
    }

    fn get_board_size(&self) -> (r: i32) {
        self.board_size
    }

    fn make_move(&mut self, start: (i32, i32), dest: (i32, i32)) {
        self.grid.make_move(start, dest);
    }

    fn is_game_over(&self) -> (r: bool) {
        !self.grid.has_any_valid_move()
    }

    fn randomize(&mut self) {
        self.grid.randomize_pegs();
    }

    fn reset(&mut self) {
        self.grid = Grid::new(self.board_size);
    }
}

impl AutomatedGame {
    /// Makes one of the moves open on the board, picked at random; whether
    /// there was one to make.
    pub fn make_auto_move(&mut self) -> (moved: bool)
        requires
            pegs_in_range(old(self).grid.cells@),
            listed_moves_fit(old(self).grid.cells@),
        ensures
            final(self).board_size == old(self).board_size,
            moved == (valid_moves(old(self).grid.cells@).len() > 0),
            moved ==> exists|m: Move|
                #[trigger] valid_moves(old(self).grid.cells@).contains(m) && final(self).grid.cells@
                    == after_move(old(self).grid.cells@, m.0, m.1),
            !moved ==> final(self).grid.cells@ == old(self).grid.cells@,
    {
        let valid_moves = self.grid.get_all_valid_moves();
        if let Some((start, dest)) = pick_one(&valid_moves) {
            self.grid.make_move(start, dest);
            true
        } else {
            false
        }
    }
}

// ---------------------------------------------------------------------------
// Playing by hand
// ---------------------------------------------------------------------------

/// What a click on the board did in a game played by hand.
#[derive(Debug, Clone, Copy, PartialEq, Eq, Structural)]
pub enum ClickOutcome {
    /// Nothing: no hole there, an empty hole picked as the start, or both
    /// holes picked already.
    Ignored,
    /// The hole, which holds a peg, was picked as the start of a move.
    StartSelected,
    /// The hole was picked as the end of a move, but the board has no hole
    /// at the start picked: both picks stay.
    EndSelected,
    /// The move from the start picked to this hole was made; whether no move
    /// is left.
    Moved { game_over: bool },
    /// The move from the start picked to this hole is not allowed: both
    /// picks were dropped.
    Rejected,
}

impl ManualGame {
    /// Whether a click on `(x, y)` can be handled without overflow: if it
    /// completes an allowed move, the coordinates of its ends can be added,
    /// and every peg afterwards stands two holes inside the range of `i32`.
    pub open spec fn click_fits(&self, x: i32, y: i32) -> bool {
        let before = self.grid.cells@;
        let start = self.selected_start->0;
        self.selected_start is Some && self.selected_end is None && legal_move(before, (start, (x, y)))
            ==> move_fits((start, (x, y))) && pegs_in_range(after_move(before, start, (x, y)))
    }

    /// Handles a click on the hole at `(x, y)`: the first click picks a peg,
    /// the second the hole it should jump into, and the move is made if it
    /// is allowed.
    pub fn click_cell(&mut self, x: i32, y: i32) -> (r: ClickOutcome)
        requires
            old(self).click_fits(x, y),
        ensures
            final(self).board_size == old(self).board_size,
            ({
                let before = old(self).grid.cells@;
                let after = final(self).grid.cells@;
                let here = (x, y);
                let unchanged = after == before && final(self).selected_start == old(
                    self,
                ).selected_start && final(self).selected_end == old(self).selected_end;
                if cell_index(before, x as int, y as int) is None {
                    r == ClickOutcome::Ignored && unchanged
                } else if old(self).selected_start is None {
                    if before[cell_index(before, x as int, y as int)->0].has_peg {
                        &&& r == ClickOutcome::StartSelected
                        &&& after == before
                        &&& final(self).selected_start == Some(here)
                        &&& final(self).selected_end == old(self).selected_end
                    } else {
                        r == ClickOutcome::Ignored && unchanged
                    }
                } else if old(self).selected_end is None {
                    let start = old(self).selected_start->0;
                    if legal_move(before, (start, here)) {
                        &&& r == (ClickOutcome::Moved {
                            game_over: valid_moves(after_move(before, start, here)).len() == 0,
                        })
                        &&& after == after_move(before, start, here)
                        &&& final(self).selected_start is None
                        &&& final(self).selected_end is None
                    } else if cell_index(before, start.0 as int, start.1 as int) is Some {
                        &&& r == ClickOutcome::Rejected
                        &&& after == before
                        &&& final(self).selected_start is None
                        &&& final(self).selected_end is None
                    } else {
                        &&& r == ClickOutcome::EndSelected
                        &&& after == before
                        &&& final(self).selected_start == old(self).selected_start
                        &&& final(self).selected_end == Some(here)
                    }
                } else {
                    r == ClickOutcome::Ignored && unchanged
                }
            }),
    {
        let ghost before = self.grid.cells@;
        let cell_has_peg = match self.grid.get_cell(x, y) {
            None => {
                return ClickOutcome::Ignored;
            },
            Some(cell) => cell.has_peg,
        };
        if self.selected_start.is_none() {
            if cell_has_peg {
                self.selected_start = Some((x, y));
                return ClickOutcome::StartSelected;
            }
            return ClickOutcome::Ignored;
        }
        if self.selected_end.is_some() {
            return ClickOutcome::Ignored;
        }
        self.selected_end = Some((x, y));
        let start = self.selected_start.unwrap();
        let dest = (x, y);
        let allowed = match (self.grid.get_cell(start.0, start.1), self.grid.get_cell(dest.0, dest.1)) {
            (Some(start_cell), Some(dest_cell)) => Some(self.grid.check_move(start_cell, dest_cell)),
            _ => None,
        };
        match allowed {
            None => ClickOutcome::EndSelected,
            Some(true) => {
                self.make_move(start, dest);
                let game_over = self.is_game_over();
                ClickOutcome::Moved { game_over }
            },
            Some(false) => {
                self.selected_start = None;
                self.selected_end = None;
                ClickOutcome::Rejected
            },
        }
    }
}

// ---------------------------------------------------------------------------
// The game manager
// ---------------------------------------------------------------------------

/// The game being played, by hand or by the program.
pub enum GameMode {
    Manual(ManualGame),
    Automated(AutomatedGame),
}

impl GameMode {
    /// For a game played by hand, the holes picked so far (start, then
    /// end); nothing for a game played by the program.
    pub open spec fn selection(&self) -> Option<(Option<(i32, i32)>, Option<(i32, i32)>)> {
        match self {
            GameMode::Manual(g) => Some((g.selected_start, g.selected_end)),
            GameMode::Automated(_) => None,
        }
    }

    /// The selection once a move is made or the game starts over: a game
    /// played by hand forgets its picks.
    pub open spec fn cleared_selection(&self) -> Option<(Option<(i32, i32)>, Option<(i32, i32)>)> {
        match self {
            GameMode::Manual(_) => Some((None, None)),
            GameMode::Automated(_) => None,
        }
    }
}

/// Either game, as the game being played: each call goes to the game of the
/// mode at hand.
impl Game for GameMode {
    open spec fn board(&self) -> Seq<Cell> {
        match self {
            GameMode::Manual(g) => g.grid.cells@,
            GameMode::Automated(g) => g.grid.cells@,
        }
    }

    open spec fn board_size_of(&self) -> i32 {
        match self {
            GameMode::Manual(g) => g.board_size,
            GameMode::Automated(g) => g.board_size,
        }
    }

    /// A new game played by hand, as the program starts.
    fn new(size: i32) -> (g: Self)
        ensures
            g.selection() == Some((None::<(i32, i32)>, None::<(i32, i32)>)),
    {
        GameMode::Manual(ManualGame::new(size))
    }

    fn get_grid(&self) -> (g: &Grid) {
        match self {
            GameMode::Manual(game) => game.get_grid(),
            GameMode::Automated(game) => game.get_grid(),
        }
    }

    fn get_grid_mut(&mut self) -> (g: &mut Grid)
        ensures
            final(self).selection() == old(self).selection(),
    {
        match self {
            GameMode::Manual(game) => game.get_grid_mut(),
            GameMode::Automated(game) => game.get_grid_mut(),
        }
    }

    fn get_board_size(&self) -> (r: i32) {
        match self {
            GameMode::Manual(game) => game.get_board_size(),
            GameMode::Automated(game) => game.get_board_size(),
        }
    }

    fn make_move(&mut self, start: (i32, i32), dest: (i32, i32))
        ensures
            final(self).selection() == old(self).cleared_selection(),
    {
        match self {
            GameMode::Manual(game) => game.make_move(start, dest),
            GameMode::Automated(game) => game.make_move(start, dest),
        }
    }

    fn is_game_over(&self) -> (r: bool) {
        match self {
            GameMode::Manual(game) => game.is_game_over(),
            GameMode::Automated(game) => game.is_game_over(),
        }
    }

    fn randomize(&mut self)
        ensures
            final(self).selection() == old(self).selection(),
    {
        match self {
            GameMode::Manual(game) => game.randomize(),
            GameMode::Automated(game) => game.randomize(),
        }
    }

    fn reset(&mut self)
        ensures
            final(self).selection() == old(self).cleared_selection(),
    {
        match self {
            GameMode::Manual(game) => game.reset(),
            GameMode::Automated(game) => game.reset(),
        }
    }
}

/// The game being played and the recording of its moves.
pub struct GameManager {
    pub mode: GameMode,
    pub recorder: GameRecorder,
}

impl GameManager {
    /// A game played by hand on a new board, with recording off.
    pub fn new_manual(size: i32) -> (m: Self)
        ensures
            m.mode.selection() == Some((None::<(i32, i32)>, None::<(i32, i32)>)),
            m.mode.board() == initial_cells(size as int),
            m.mode.board_size_of() == size,
            !m.recorder.enabled,
            m.recorder.moves@.len() == 0,
    {
        GameManager { mode: GameMode::Manual(ManualGame::new(size)), recorder: GameRecorder::new() }
    }

    /// A game played by the program on a new board, with recording off.
    pub fn new_automated(size: i32) -> (m: Self)
        ensures
            m.mode is Automated,
            m.mode.board() == initial_cells(size as int),
            m.mode.board_size_of() == size,
            !m.recorder.enabled,
            m.recorder.moves@.len() == 0,
    {
        GameManager {
            mode: GameMode::Automated(AutomatedGame::new(size)),
            recorder: GameRecorder::new(),
        }
    }

    /// The game being played.
    pub fn as_game(&self) -> (g: &GameMode)
        ensures
            *g == self.mode,
    {
        &self.mode
    }

    /// The game being played, to be changed in place; the recording stays.
    pub fn as_game_mut(&mut self) -> (g: &mut GameMode)
        ensures
            *g == old(self).mode,
            final(self).mode == *final(g),
            final(self).recorder == old(self).recorder,
    {
        &mut self.mode
    }

    /// The size of the board.
    pub fn board_size(&self) -> (r: i32)
        ensures
            r == self.mode.board_size_of(),
    {
        self.as_game().get_board_size()
    }

    /// Sets the size of the board; the board itself stays until the game
    /// starts over.
    pub fn set_board_size(&mut self, size: i32)
        ensures
            final(self).mode.board_size_of() == size,
            final(self).mode.board() == old(self).mode.board(),
            final(self).mode.selection() == old(self).mode.selection(),
            final(self).recorder == old(self).recorder,
    {
        match &mut self.mode {
            GameMode::Manual(g) => g.board_size = size,
            GameMode::Automated(g) => g.board_size = size,
        }
    }

    /// Makes a move and records it if recording is on.
    pub fn make_move(&mut self, start: (i32, i32), dest: (i32, i32))
        requires
            i32::MIN <= start.0 + dest.0 <= i32::MAX,
            i32::MIN <= start.1 + dest.1 <= i32::MAX,
            old(self).recorder.enabled ==> (old(self).recorder.moves.len() as u32) < u32::MAX,
        ensures
            final(self).mode.board() == after_move(old(self).mode.board(), start, dest),
            final(self).mode.board_size_of() == old(self).mode.board_size_of(),
            final(self).mode.selection() == old(self).mode.cleared_selection(),
            final(self).recorder.enabled == old(self).recorder.enabled,
            final(self).recorder.moves@ == after_record(
                old(self).recorder.enabled,
                old(self).recorder.moves@,
                start,
                dest,
            ),
    {
        self.as_game_mut().make_move(start, dest);
        self.recorder.record(start, dest);
    }

    /// In a game played by the program, makes one of the open moves, picked
    /// at random, and records it if recording is on; whether a move was made.
    pub fn make_auto_move(&mut self) -> (moved: bool)
        requires
            old(self).mode is Automated ==> pegs_in_range(old(self).mode.board()),
            old(self).mode is Automated ==> listed_moves_fit(old(self).mode.board()),
            old(self).recorder.enabled ==> (old(self).recorder.moves.len() as u32) < u32::MAX,
        ensures
            moved == (old(self).mode is Automated && valid_moves(old(self).mode.board()).len() > 0),
            moved ==> exists|m: Move|
                #[trigger] valid_moves(old(self).mode.board()).contains(m) && final(self).mode.board()
                    == after_move(old(self).mode.board(), m.0, m.1) && final(self).recorder.moves@
                    == after_record(old(self).recorder.enabled, old(self).recorder.moves@, m.0, m.1),
            !moved ==> final(self).mode.board() == old(self).mode.board(),
            !moved ==> final(self).recorder.moves@ == old(self).recorder.moves@,
            final(self).recorder.enabled == old(self).recorder.enabled,
            final(self).mode.board_size_of() == old(self).mode.board_size_of(),
            final(self).mode.selection() == old(self).mode.selection(),
    {
        if let GameMode::Automated(game) = &mut self.mode {
            let valid_moves = game.grid.get_all_valid_moves();
            if let Some((start, dest)) = pick_one(&valid_moves) {
                game.grid.make_move(start, dest);
                self.recorder.record(start, dest);
                return true;
            }
        }
        false
    }

    /// Starts the game over on a new board and forgets the recorded moves.
    pub fn reset(&mut self)
        ensures
            final(self).mode.board() == initial_cells(old(self).mode.board_size_of() as int),
            final(self).mode.board_size_of() == old(self).mode.board_size_of(),
            final(self).mode.selection() == old(self).mode.cleared_selection(),
            final(self).recorder.enabled == old(self).recorder.enabled,
            final(self).recorder.moves@.len() == 0,
    {
        self.as_game_mut().reset();
        self.recorder.clear();
    }
}

} // verus!
