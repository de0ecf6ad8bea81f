//! The rules engine: applying moves with sliding-window eviction, deriving
//! cell ownership from recency and turn parity, detecting completed lines,
//! and validating externally supplied states.

use vstd::prelude::*;

use crate::board::{
    canonical, distinct_cells, in_bounds, is_canonical, lemma_mirror_x_invol, lemma_mirror_x_rot3,
    lemma_mirror_y_invol, lemma_rotate_four, mirror_x_pt, mirror_x_seq, mirror_y_pt, mirror_y_seq,
    lemma_min_of_props, rect_orbit, rotate_pt, rotate_seq, square_orbit, BoardState, Take,
};
use crate::setting::{GameSetting, SettingView};

verus! {

/// What one board cell shows: empty, or a piece of one player together with
/// the number of further own moves the piece survives before eviction.
#[derive(Debug, Clone, PartialEq, Eq, Structural)]
pub enum CellView {
    Vacant,
    First(usize),
    Second(usize),
}

impl CellView {
    pub fn is_first(&self) -> (r: bool)
        ensures
            r == (self matches CellView::First(_)),
    {
        matches!(self, CellView::First(_))
    }

    pub fn is_second(&self) -> (r: bool)
        ensures
            r == (self matches CellView::Second(_)),
    {
        matches!(self, CellView::Second(_))
    }

    pub fn is_none(&self) -> (r: bool)
        ensures
            r == (self matches CellView::Vacant),
    {
        matches!(self, CellView::Vacant)
    }
}

/// Terminal status of a position: a completed line for one player, or play
/// goes on.
#[derive(Debug, Clone, PartialEq, Eq, Structural)]
pub enum GameResult {
    FirstWin,
    SecondWin,
    Continue,
}

impl GameResult {
    pub fn is_win(&self) -> (r: bool)
        ensures
            r == (self matches GameResult::FirstWin || self matches GameResult::SecondWin),
    {
        matches!(self, GameResult::FirstWin | GameResult::SecondWin)
    }
}

/// Mathematical image of a [`Game`]: configuration, move window, and the
/// total number of moves played (including evicted ones).
pub struct GameView {
    pub setting: SettingView,
    pub board: Seq<(int, int)>,
    pub steps: int,
}

impl GameView {
    /// Structural consistency of a game: the window respects the piece cap,
    /// every live piece is on the board, and no cell is taken twice.
    pub open spec fn wf(self) -> bool {
        &&& self.setting.wf()
        &&& 0 <= self.steps
        &&& self.board.len() <= 2 * self.setting.piece_limit
        &&& in_bounds(self.board, self.setting)
        &&& distinct_cells(self.board)
    }
}

/// Whether the piece at window index `i` (of a window of length `len`,
/// after `steps` total moves) belongs to the first player. Ownership
/// alternates by recency; the global step parity fixes the labels.
pub open spec fn owner_is_first(i: int, len: int, steps: int) -> bool {
    (len - i + 1) % 2 != steps % 2
}

/// Whether the given player owns the cell `(x, y)`: some live piece sits
/// there and recency parity assigns it to that player.
pub open spec fn cell_owned(
    board: Seq<(int, int)>,
    steps: int,
    first: bool,
    x: int,
    y: int,
) -> bool {
    exists|i: int|
        0 <= i < board.len() && board[i] == (x, y) && owner_is_first(i, board.len() as int, steps)
            == first
}

/// A goal-length falling diagonal with corner `(x0, y0)`, all owned by the
/// given player.
pub open spec fn diag_at(
    board: Seq<(int, int)>,
    steps: int,
    first: bool,
    x0: int,
    y0: int,
    g: int,
) -> bool {
    forall|k: int| 0 <= k < g ==> #[trigger] cell_owned(board, steps, first, x0 + k, y0 + k)
}

/// A goal-length rising diagonal within the goal-sized box at `(x0, y0)`.
pub open spec fn anti_at(
    board: Seq<(int, int)>,
    steps: int,
    first: bool,
    x0: int,
    y0: int,
    g: int,
) -> bool {
    forall|k: int| 0 <= k < g ==> #[trigger] cell_owned(board, steps, first, x0 + g - 1 - k, y0 + k)
}

/// A goal-length vertical line in column `x` starting at row `y0`.
pub open spec fn vert_at(
    board: Seq<(int, int)>,
    steps: int,
    first: bool,
    x: int,
    y0: int,
    g: int,
) -> bool {
    forall|k: int| 0 <= k < g ==> #[trigger] cell_owned(board, steps, first, x, y0 + k)
}

/// A goal-length horizontal line in row `y` starting at column `x0`.
pub open spec fn horiz_at(
    board: Seq<(int, int)>,
    steps: int,
    first: bool,
    x0: int,
    y: int,
    g: int,
) -> bool {
    forall|k: int| 0 <= k < g ==> #[trigger] cell_owned(board, steps, first, x0 + k, y)
}

/// The given player has a completed line: some row, column, or diagonal of
/// goal length is entirely theirs.
pub open spec fn wins(board: Seq<(int, int)>, steps: int, first: bool, sv: SettingView) -> bool {
    let g = sv.goal;
    ||| exists|x0: int, y0: int|
        0 <= x0 <= sv.width - g && 0 <= y0 <= sv.height - g && #[trigger] diag_at(
            board,
            steps,
            first,
            x0,
            y0,
            g,
        )
    ||| exists|x0: int, y0: int|
        0 <= x0 <= sv.width - g && 0 <= y0 <= sv.height - g && #[trigger] anti_at(
            board,
            steps,
            first,
            x0,
            y0,
            g,
        )
    ||| exists|x: int, y0: int|
        0 <= x < sv.width && 0 <= y0 <= sv.height - g && #[trigger] vert_at(
            board,
            steps,
            first,
            x,
            y0,
            g,
        )
    ||| exists|x0: int, y: int|
        0 <= x0 <= sv.width - g && 0 <= y < sv.height && #[trigger] horiz_at(
            board,
            steps,
            first,
            x0,
            y,
            g,
        )
}

/// One game in progress: the configuration, the live move window, and the
/// count of all moves ever played (eviction does not decrease it).
#[derive(Debug)]
pub struct Game {
    setting: GameSetting,
    state: BoardState,
    steps_taken: usize,
}

impl View for Game {
    type V = GameView;

    closed spec fn view(&self) -> GameView {
        GameView {
            setting: self.setting@,
            board: self.state@,
            steps: self.steps_taken as int,
        }
    }
}

impl Clone for Game {
    fn clone(&self) -> (r: Game)
        ensures
            r@ == self@,
    {
        Game { setting: self.setting, state: self.state.clone(), steps_taken: self.steps_taken }
    }
}

/// Decides `cell_owned` by scanning the live window.
fn cell_owned_exec(state: &BoardState, steps: usize, first: bool, x: usize, y: usize) -> (r: bool)
    ensures
        r == cell_owned(state@, steps as int, first, x as int, y as int),
{
    let len = state.len();
    let mut i: usize = 0;
    while i < len
        invariant
            i <= len,
            len == state@.len(),
            forall|j: int| #![trigger state@[j]]
                0 <= j < i ==> !(state@[j] == (x as int, y as int) && owner_is_first(
                    j,
                    len as int,
                    steps as int,
                ) == first),
        decreases len - i,
    {
        let t = state.get(i);
        let owner_first = ((len - i - 1) % 2) != (steps % 2);
        proof {
            assert((len - i + 1) % 2 == (len - i - 1) % 2);
            assert(owner_is_first(i as int, len as int, steps as int) == owner_first);
        }
        if t.x() == x && t.y() == y && owner_first == first {
            assert(state@[i as int] == (x as int, y as int));
            return true;
        }
        i += 1;
    }
    false
}

/// Decides `diag_at` for one corner.
fn diag_ok(state: &BoardState, steps: usize, first: bool, x0: usize, y0: usize, g: usize) -> (r:
    bool)
    requires
        x0 <= 11,
        y0 <= 11,
        g <= 11,
    ensures
        r == diag_at(state@, steps as int, first, x0 as int, y0 as int, g as int),
{
    let mut k: usize = 0;
    while k < g
        invariant
            k <= g,
            x0 <= 11,
            y0 <= 11,
            g <= 11,
            forall|kk: int|
                0 <= kk < k ==> #[trigger] cell_owned(
                    state@,
                    steps as int,
                    first,
                    x0 as int + kk,
                    y0 as int + kk,
                ),
        decreases g - k,
    {
        if !cell_owned_exec(state, steps, first, x0 + k, y0 + k) {
            assert(!cell_owned(state@, steps as int, first, x0 as int + k, y0 as int + k));
            return false;
        }
        k += 1;
    }
    true
}

/// Decides `anti_at` for one corner.
fn anti_ok(state: &BoardState, steps: usize, first: bool, x0: usize, y0: usize, g: usize) -> (r:
    bool)
    requires
        x0 <= 11,
        y0 <= 11,
        1 <= g <= 11,
    ensures
        r == anti_at(state@, steps as int, first, x0 as int, y0 as int, g as int),
{
    let mut k: usize = 0;
    while k < g
        invariant
            k <= g,
            x0 <= 11,
            y0 <= 11,
            1 <= g <= 11,
            forall|kk: int|
                0 <= kk < k ==> #[trigger] cell_owned(
                    state@,
                    steps as int,
                    first,
                    x0 as int + g - 1 - kk,
                    y0 as int + kk,
                ),
        decreases g - k,
    {
        if !cell_owned_exec(state, steps, first, x0 + g - 1 - k, y0 + k) {
            assert(!cell_owned(state@, steps as int, first, x0 as int + g - 1 - k, y0 as int + k));
            return false;
        }
        k += 1;
    }
    true
}

/// Decides `vert_at` for one column start.
fn vert_ok(state: &BoardState, steps: usize, first: bool, x: usize, y0: usize, g: usize) -> (r:
    bool)
    requires
        x <= 11,
        y0 <= 11,
        g <= 11,
    ensures
        r == vert_at(state@, steps as int, first, x as int, y0 as int, g as int),
{
    let mut k: usize = 0;
    while k < g
        invariant
            k <= g,
            x <= 11,
            y0 <= 11,
            g <= 11,
            forall|kk: int|
                0 <= kk < k ==> #[trigger] cell_owned(state@, steps as int, first, x as int, y0 as int + kk),
        decreases g - k,
    {
        if !cell_owned_exec(state, steps, first, x, y0 + k) {
            assert(!cell_owned(state@, steps as int, first, x as int, y0 as int + k));
            return false;
        }
        k += 1;
    }
    true
}

/// Decides `horiz_at` for one row start.
fn horiz_ok(state: &BoardState, steps: usize, first: bool, x0: usize, y: usize, g: usize) -> (r:
    bool)
    requires
        x0 <= 11,
        y <= 11,
        g <= 11,
    ensures
        r == horiz_at(state@, steps as int, first, x0 as int, y as int, g as int),
{
    let mut k: usize = 0;
    while k < g
        invariant
            k <= g,
            x0 <= 11,
            y <= 11,
            g <= 11,
            forall|kk: int|
                0 <= kk < k ==> #[trigger] cell_owned(state@, steps as int, first, x0 as int + kk, y as int),
        decreases g - k,
    {
        if !cell_owned_exec(state, steps, first, x0 + k, y) {
            assert(!cell_owned(state@, steps as int, first, x0 as int + k, y as int));
            return false;
        }
        k += 1;
    }
    true
}

/// Decides `wins` for one player by scanning all four line families.
pub(crate) fn wins_exec(state: &BoardState, steps: usize, first: bool, setting: &GameSetting) -> (r:
    bool)
    ensures
        r == wins(state@, steps as int, first, setting@),
{
    wins_diag(state, steps, first, setting) || wins_anti(state, steps, first, setting) || wins_vert(
        state,
        steps,
        first,
        setting,
    ) || wins_horiz(state, steps, first, setting)
}

/// Scans every goal-sized box for a falling diagonal of the given player.
fn wins_diag(state: &BoardState, steps: usize, first: bool, setting: &GameSetting) -> (r: bool)
    ensures
        r == exists|x0: int, y0: int|
            0 <= x0 <= setting@.width - setting@.goal && 0 <= y0 <= setting@.height - setting@.goal
                && #[trigger] diag_at(state@, steps as int, first, x0, y0, setting@.goal),
{
    let g = setting.goal();
    let h = setting.board_height();
    let w = setting.board_width();
    let mut y0: usize = 0;
    while y0 <= h - g
        invariant
            g == setting@.goal,
            h == setting@.height,
            w == setting@.width,
            1 <= g <= h <= 11,
            g <= w <= 11,
            y0 <= h - g + 1,
            forall|xx: int, yy: int|
                0 <= xx <= w - g && 0 <= yy < y0 ==> !#[trigger] diag_at(
                    state@,
                    steps as int,
                    first,
                    xx,
                    yy,
                    g as int,
                ),
        decreases h - g + 1 - y0,
    {
        let mut x0: usize = 0;
        while x0 <= w - g
            invariant
                g == setting@.goal,
                h == setting@.height,
                w == setting@.width,
                1 <= g <= h <= 11,
                g <= w <= 11,
                y0 <= h - g,
                x0 <= w - g + 1,
                forall|xx: int, yy: int|
                    0 <= xx <= w - g && 0 <= yy < y0 ==> !#[trigger] diag_at(
                        state@,
                        steps as int,
                        first,
                        xx,
                        yy,
                        g as int,
                    ),
                forall|xx: int|
                    0 <= xx < x0 ==> !#[trigger] diag_at(
                        state@,
                        steps as int,
                        first,
                        xx,
                        y0 as int,
                        g as int,
                    ),
            decreases w - g + 1 - x0,
        {
            if diag_ok(state, steps, first, x0, y0, g) {
                return true;
            }
            x0 += 1;
        }
        y0 += 1;
    }
    false
}

/// Scans every goal-sized box for a rising diagonal of the given player.
fn wins_anti(state: &BoardState, steps: usize, first: bool, setting: &GameSetting) -> (r: bool)
    ensures
        r == exists|x0: int, y0: int|
            0 <= x0 <= setting@.width - setting@.goal && 0 <= y0 <= setting@.height - setting@.goal
                && #[trigger] anti_at(state@, steps as int, first, x0, y0, setting@.goal),
{
    let g = setting.goal();
    let h = setting.board_height();
    let w = setting.board_width();
    let mut y0: usize = 0;
    while y0 <= h - g
        invariant
            g == setting@.goal,
            h == setting@.height,
            w == setting@.width,
            1 <= g <= h <= 11,
            g <= w <= 11,
            y0 <= h - g + 1,
            forall|xx: int, yy: int|
                0 <= xx <= w - g && 0 <= yy < y0 ==> !#[trigger] anti_at(
                    state@,
                    steps as int,
                    first,
                    xx,
                    yy,
                    g as int,
                ),
        decreases h - g + 1 - y0,
    {
        let mut x0: usize = 0;
        while x0 <= w - g
            invariant
                g == setting@.goal,
                h == setting@.height,
                w == setting@.width,
                1 <= g <= h <= 11,
                g <= w <= 11,
                y0 <= h - g,
                x0 <= w - g + 1,
                forall|xx: int, yy: int|
                    0 <= xx <= w - g && 0 <= yy < y0 ==> !#[trigger] anti_at(
                        state@,
                        steps as int,
                        first,
                        xx,
                        yy,
                        g as int,
                    ),
                forall|xx: int|
                    0 <= xx < x0 ==> !#[trigger] anti_at(
                        state@,
                        steps as int,
                        first,
                        xx,
                        y0 as int,
                        g as int,
                    ),
            decreases w - g + 1 - x0,
        {
            if anti_ok(state, steps, first, x0, y0, g) {
                return true;
            }
            x0 += 1;
        }
        y0 += 1;
    }
    false
}

/// Scans every column start for a vertical line of the given player.
fn wins_vert(state: &BoardState, steps: usize, first: bool, setting: &GameSetting) -> (r: bool)
    ensures
        r == exists|x: int, y0: int|
            0 <= x < setting@.width && 0 <= y0 <= setting@.height - setting@.goal
                && #[trigger] vert_at(state@, steps as int, first, x, y0, setting@.goal),
{
    let g = setting.goal();
    let h = setting.board_height();
    let w = setting.board_width();
    let mut y0: usize = 0;
    while y0 <= h - g
        invariant
            g == setting@.goal,
            h == setting@.height,
            w == setting@.width,
            1 <= g <= h <= 11,
            g <= w <= 11,
            y0 <= h - g + 1,
            forall|xx: int, yy: int|
                0 <= xx < w && 0 <= yy < y0 ==> !#[trigger] vert_at(
                    state@,
                    steps as int,
                    first,
                    xx,
                    yy,
                    g as int,
                ),
        decreases h - g + 1 - y0,
    {
        let mut x: usize = 0;
        while x < w
            invariant
                g == setting@.goal,
                h == setting@.height,
                w == setting@.width,
                1 <= g <= h <= 11,
                g <= w <= 11,
                y0 <= h - g,
                x <= w,
                forall|xx: int, yy: int|
                    0 <= xx < w && 0 <= yy < y0 ==> !#[trigger] vert_at(
                        state@,
                        steps as int,
                        first,
                        xx,
                        yy,
                        g as int,
                    ),
                forall|xx: int|
                    0 <= xx < x ==> !#[trigger] vert_at(
                        state@,
                        steps as int,
                        first,
                        xx,
                        y0 as int,
                        g as int,
                    ),
            decreases w - x,
        {
            if vert_ok(state, steps, first, x, y0, g) {
                return true;
            }
            x += 1;
        }
        y0 += 1;
    }
    false
}

/// Scans every row start for a horizontal line of the given player.
fn wins_horiz(state: &BoardState, steps: usize, first: bool, setting: &GameSetting) -> (r: bool)
    ensures
        r == exists|x0: int, y: int|
            0 <= x0 <= setting@.width - setting@.goal && 0 <= y < setting@.height
                && #[trigger] horiz_at(state@, steps as int, first, x0, y, setting@.goal),
{
    let g = setting.goal();
    let h = setting.board_height();
    let w = setting.board_width();
    let mut y: usize = 0;
    while y < h
        invariant
            g == setting@.goal,
            h == setting@.height,
            w == setting@.width,
            1 <= g <= h <= 11,
            g <= w <= 11,
            y <= h,
            forall|xx: int, yy: int|
                0 <= xx <= w - g && 0 <= yy < y ==> !#[trigger] horiz_at(
                    state@,
                    steps as int,
                    first,
                    xx,
                    yy,
                    g as int,
                ),
        decreases h - y,
    {
        let mut x0: usize = 0;
        while x0 <= w - g
            invariant
                g == setting@.goal,
                h == setting@.height,
                w == setting@.width,
                1 <= g <= h <= 11,
                g <= w <= 11,
                y < h,
                x0 <= w - g + 1,
                forall|xx: int, yy: int|
                    0 <= xx <= w - g && 0 <= yy < y ==> !#[trigger] horiz_at(
                        state@,
                        steps as int,
                        first,
                        xx,
                        yy,
                        g as int,
                    ),
                forall|xx: int|
                    0 <= xx < x0 ==> !#[trigger] horiz_at(
                        state@,
                        steps as int,
                        first,
                        xx,
                        y as int,
                        g as int,
                    ),
            decreases w - g + 1 - x0,
        {
            if horiz_ok(state, steps, first, x0, y, g) {
                return true;
            }
            x0 += 1;
        }
        y += 1;
    }
    false
}

impl Game {
    /// A fresh game of the given configuration: empty board, no moves yet.
    pub fn new(setting: GameSetting) -> (r: Game)
        ensures
            r@.setting == setting@,
            r@.board == Seq::<(int, int)>::empty(),
            r@.steps == 0,
            r@.wf(),
    {
        proof {
            use_type_invariant(setting);
        }
        Game { setting, state: BoardState::default(), steps_taken: 0 }
    }

    /// Whether the given player has a completed line.
    fn is_win(&self, first: bool) -> (r: bool)
        ensures
            r == wins(self@.board, self@.steps, first, self@.setting),
    {
        wins_exec(&self.state, self.steps_taken, first, &self.setting)
    }

    /// Terminal status: the first player's line is reported first, then the
    /// second player's; otherwise play continues.
    pub fn result(&self) -> (r: GameResult)
        ensures
            (r matches GameResult::FirstWin) == wins(self@.board, self@.steps, true, self@.setting),
            (r matches GameResult::SecondWin) == (!wins(self@.board, self@.steps, true, self@.setting)
                && wins(self@.board, self@.steps, false, self@.setting)),
            (r matches GameResult::Continue) == (!wins(self@.board, self@.steps, true, self@.setting)
                && !wins(self@.board, self@.steps, false, self@.setting)),
    {
        if self.is_win(true) {
            return GameResult::FirstWin;
        }
        if self.is_win(false) {
            return GameResult::SecondWin;
        }
        GameResult::Continue
    }

    /// The configuration this game is played under.
    pub fn setting(&self) -> (r: &GameSetting)
        ensures
            r@ == self@.setting,
    {
        &self.setting
    }

    /// The live move window.
    pub fn state(&self) -> (r: &BoardState)
        ensures
            r@ == self@.board,
    {
        &self.state
    }

    /// Total moves played so far, evicted ones included.
    pub fn steps_taken(&self) -> (r: usize)
        ensures
            r as int == self@.steps,
    {
        self.steps_taken
    }

    /// Whether the next move belongs to the first player: turn order goes by
    /// the global step parity alone.
    pub fn is_next_first(&self) -> (r: bool)
        ensures
            r == (self@.steps % 2 == 0),
    {
        (self.steps_taken % 2) == 0
    }

    /// Whether `take` is the most recent live move.
    pub fn is_last_take(&self, take: Take) -> (r: bool)
        ensures
            r == (self@.board.len() > 0 && self@.board.last() == take@),
    {
        let n = self.state.len();
        if n == 0 {
            return false;
        }
        let t = self.state.get(n - 1);
        t.x == take.x && t.y == take.y
    }
}

/// Index of the first live move: when the window is full, the oldest piece
/// is about to be evicted and its cell already counts as free.
pub open spec fn live_from(board_len: int, cap: int) -> int {
    if board_len >= 2 * cap {
        1
    } else {
        0
    }
}

/// Whether `(x, y)` is taken by a move that will still be live after the
/// next placement.
pub open spec fn window_occupied(board: Seq<(int, int)>, cap: int, x: int, y: int) -> bool {
    exists|i: int| #![trigger board[i]]
        live_from(board.len() as int, cap) <= i < board.len() && board[i] == (x, y)
}

/// A coordinate is a legal move exactly when it lies on the board and is
/// not occupied by a live piece.
pub open spec fn is_legal(board: Seq<(int, int)>, sv: SettingView, x: int, y: int) -> bool {
    &&& 0 <= x < sv.width
    &&& 0 <= y < sv.height
    &&& !window_occupied(board, sv.piece_limit, x, y)
}

/// Number of legal moves in row `y` among columns `0..x`.
pub open spec fn row_prefix(board: Seq<(int, int)>, sv: SettingView, y: int, x: int) -> int
    decreases x,
{
    if x <= 0 {
        0
    } else {
        row_prefix(board, sv, y, x - 1) + if is_legal(board, sv, x - 1, y) {
            1int
        } else {
            0int
        }
    }
}

/// Number of legal moves in rows `0..y`.
pub open spec fn rows_prefix(board: Seq<(int, int)>, sv: SettingView, y: int) -> int
    decreases y,
{
    if y <= 0 {
        0
    } else {
        rows_prefix(board, sv, y - 1) + row_prefix(board, sv, y - 1, sv.width)
    }
}

/// Total number of legal moves on the board.
pub open spec fn legal_count(board: Seq<(int, int)>, sv: SettingView) -> int {
    rows_prefix(board, sv, sv.height)
}

/// A position is finished when either player has a completed line or no
/// legal move remains.
pub open spec fn finished(board: Seq<(int, int)>, steps: int, sv: SettingView) -> bool {
    ||| wins(board, steps, true, sv)
    ||| wins(board, steps, false, sv)
    ||| legal_count(board, sv) == 0
}

/// The move window after one placement: when the window is full the oldest
/// move is evicted first, then the new move is appended.
pub open spec fn apply_board(board: Seq<(int, int)>, cap: int, p: (int, int)) -> Seq<(int, int)> {
    if board.len() >= 2 * cap {
        board.drop_first().push(p)
    } else {
        board.push(p)
    }
}

/// The full consistency check for externally supplied states: window within
/// the cap, cells distinct and on the board, and not both players with a
/// completed line.
pub open spec fn consistent(board: Seq<(int, int)>, steps: int, sv: SettingView) -> bool {
    &&& board.len() <= 2 * sv.piece_limit
    &&& distinct_cells(board)
    &&& in_bounds(board, sv)
    &&& !(wins(board, steps, true, sv) && wins(board, steps, false, sv))
}

/// What one board cell shows, derived from the unique live move on it.
pub open spec fn cell_view_at(
    board: Seq<(int, int)>,
    steps: int,
    cap: int,
    x: int,
    y: int,
) -> CellView {
    if exists|i: int| #![trigger board[i]] 0 <= i < board.len() && board[i] == (x, y) {
        let i = choose|i: int| #![trigger board[i]] 0 <= i < board.len() && board[i] == (x, y);
        let rest = (2 * cap - board.len() + i) / 2;
        if owner_is_first(i, board.len() as int, steps) {
            CellView::First(rest as usize)
        } else {
            CellView::Second(rest as usize)
        }
    } else {
        CellView::Vacant
    }
}

/// After one move, every cell of the player who did not move was already
/// theirs before the move: a placement only adds a cell of the mover and
/// eviction only removes cells.
proof fn lemma_apply_keeps_opponent_out(
    b: Seq<(int, int)>,
    steps: int,
    cap: int,
    p: (int, int),
    first: bool,
)
    requires
        0 <= steps,
        1 <= cap,
        first == (steps % 2 != 0),
    ensures
        forall|x: int, y: int| #![trigger cell_owned(apply_board(b, cap, p), steps + 1, first, x, y)]
            cell_owned(apply_board(b, cap, p), steps + 1, first, x, y) ==> cell_owned(
                b,
                steps,
                first,
                x,
                y,
            ),
{
    let b2 = apply_board(b, cap, p);
    assert forall|x: int, y: int|
        #![trigger cell_owned(b2, steps + 1, first, x, y)]
        cell_owned(b2, steps + 1, first, x, y) implies cell_owned(b, steps, first, x, y) by {
        let i = choose|i: int|
            0 <= i < b2.len() && b2[i] == (x, y) && owner_is_first(i, b2.len() as int, steps + 1)
                == first;
        if i == b2.len() - 1 {
            assert(owner_is_first(i, b2.len() as int, steps + 1) != first);
        } else {
            if b.len() >= 2 * cap {
                assert(b.len() >= 2);
                assert(b2[i] == b.drop_first()[i]);
                assert(b2[i] == b[i + 1]);
                lemma_parity_flip(b.len() - i);
                lemma_parity_flip(steps);
                assert(owner_is_first(i + 1, b.len() as int, steps) == owner_is_first(
                    i,
                    b2.len() as int,
                    steps + 1,
                ));
                assert(b[i + 1] == (x, y) && owner_is_first(i + 1, b.len() as int, steps) == first);
            } else {
                assert(b2[i] == b[i]);
                lemma_parity_flip(b.len() - i + 1);
                lemma_parity_flip(steps);
                assert(owner_is_first(i, b.len() as int, steps) == owner_is_first(
                    i,
                    b2.len() as int,
                    steps + 1,
                ));
                assert(b[i] == (x, y) && owner_is_first(i, b.len() as int, steps) == first);
            }
        }
    }
}

/// Parities of consecutive integers differ.
proof fn lemma_parity_flip(a: int)
    requires
        a >= 0,
    ensures
        (a + 1) % 2 != a % 2,
{
    assert((a + 1) % 2 != a % 2) by (nonlinear_arith)
        requires
            a >= 0,
    ;
}

/// On the empty board nobody has a completed line.
pub proof fn lemma_empty_no_win(steps: int, first: bool, sv: SettingView)
    requires
        sv.wf(),
    ensures
        !wins(Seq::<(int, int)>::empty(), steps, first, sv),
{
    let b = Seq::<(int, int)>::empty();
    let g = sv.goal;
    assert forall|x: int, y: int| !#[trigger] cell_owned(b, steps, first, x, y) by {}
    if wins(b, steps, first, sv) {
        if exists|x0: int, y0: int|
            0 <= x0 <= sv.width - g && 0 <= y0 <= sv.height - g && #[trigger] diag_at(
                b,
                steps,
                first,
                x0,
                y0,
                g,
            ) {
            let (x0, y0) = choose|x0: int, y0: int|
                0 <= x0 <= sv.width - g && 0 <= y0 <= sv.height - g && #[trigger] diag_at(
                    b,
                    steps,
                    first,
                    x0,
                    y0,
                    g,
                );
            assert(cell_owned(b, steps, first, x0 + 0, y0 + 0));
        } else if exists|x0: int, y0: int|
            0 <= x0 <= sv.width - g && 0 <= y0 <= sv.height - g && #[trigger] anti_at(
                b,
                steps,
                first,
                x0,
                y0,
                g,
            ) {
            let (x0, y0) = choose|x0: int, y0: int|
                0 <= x0 <= sv.width - g && 0 <= y0 <= sv.height - g && #[trigger] anti_at(
                    b,
                    steps,
                    first,
                    x0,
                    y0,
                    g,
                );
            assert(cell_owned(b, steps, first, x0 + g - 1 - 0, y0 + 0));
        } else if exists|x: int, y0: int|
            0 <= x < sv.width && 0 <= y0 <= sv.height - g && #[trigger] vert_at(
                b,
                steps,
                first,
                x,
                y0,
                g,
            ) {
            let (x, y0) = choose|x: int, y0: int|
                0 <= x < sv.width && 0 <= y0 <= sv.height - g && #[trigger] vert_at(
                    b,
                    steps,
                    first,
                    x,
                    y0,
                    g,
                );
            assert(cell_owned(b, steps, first, x, y0 + 0));
        } else {
            let (x0, y) = choose|x0: int, y: int|
                0 <= x0 <= sv.width - g && 0 <= y < sv.height && #[trigger] horiz_at(
                    b,
                    steps,
                    first,
                    x0,
                    y,
                    g,
                );
            assert(cell_owned(b, steps, first, x0 + 0, y));
        }
    }
}

/// A player whose cells all carry over keeps every completed line; the
/// receiving side may label that player differently.
proof fn lemma_wins_monotone(
    b1: Seq<(int, int)>,
    steps1: int,
    first: bool,
    b2: Seq<(int, int)>,
    steps2: int,
    first2: bool,
    sv: SettingView,
)
    requires
        forall|x: int, y: int| #![trigger cell_owned(b1, steps1, first, x, y)]
            cell_owned(b1, steps1, first, x, y) ==> cell_owned(b2, steps2, first2, x, y),
    ensures
        wins(b1, steps1, first, sv) ==> wins(b2, steps2, first2, sv),
{
    let g = sv.goal;
    if wins(b1, steps1, first, sv) {
        if exists|x0: int, y0: int|
            0 <= x0 <= sv.width - g && 0 <= y0 <= sv.height - g && #[trigger] diag_at(
                b1,
                steps1,
                first,
                x0,
                y0,
                g,
            ) {
            let (x0, y0) = choose|x0: int, y0: int|
                0 <= x0 <= sv.width - g && 0 <= y0 <= sv.height - g && #[trigger] diag_at(
                    b1,
                    steps1,
                    first,
                    x0,
                    y0,
                    g,
                );
            assert forall|k: int| 0 <= k < g implies #[trigger] cell_owned(
                b2,
                steps2,
                first2,
                x0 + k,
                y0 + k,
            ) by {
                assert(cell_owned(b1, steps1, first, x0 + k, y0 + k));
            }
            assert(diag_at(b2, steps2, first2, x0, y0, g));
        } else if exists|x0: int, y0: int|
            0 <= x0 <= sv.width - g && 0 <= y0 <= sv.height - g && #[trigger] anti_at(
                b1,
                steps1,
                first,
                x0,
                y0,
                g,
            ) {
            let (x0, y0) = choose|x0: int, y0: int|
                0 <= x0 <= sv.width - g && 0 <= y0 <= sv.height - g && #[trigger] anti_at(
                    b1,
                    steps1,
                    first,
                    x0,
                    y0,
                    g,
                );
            assert forall|k: int| 0 <= k < g implies #[trigger] cell_owned(
                b2,
                steps2,
                first2,
                x0 + g - 1 - k,
                y0 + k,
            ) by {
                assert(cell_owned(b1, steps1, first, x0 + g - 1 - k, y0 + k));
            }
            assert(anti_at(b2, steps2, first2, x0, y0, g));
        } else if exists|x: int, y0: int|
            0 <= x < sv.width && 0 <= y0 <= sv.height - g && #[trigger] vert_at(
                b1,
                steps1,
                first,
                x,
                y0,
                g,
            ) {
            let (x, y0) = choose|x: int, y0: int|
                0 <= x < sv.width && 0 <= y0 <= sv.height - g && #[trigger] vert_at(
                    b1,
                    steps1,
                    first,
                    x,
                    y0,
                    g,
                );
            assert forall|k: int| 0 <= k < g implies #[trigger] cell_owned(
                b2,
                steps2,
                first2,
                x,
                y0 + k,
            ) by {
                assert(cell_owned(b1, steps1, first, x, y0 + k));
            }
            assert(vert_at(b2, steps2, first2, x, y0, g));
        } else {
            let (x0, y) = choose|x0: int, y: int|
                0 <= x0 <= sv.width - g && 0 <= y < sv.height && #[trigger] horiz_at(
                    b1,
                    steps1,
                    first,
                    x0,
                    y,
                    g,
                );
            assert forall|k: int| 0 <= k < g implies #[trigger] cell_owned(
                b2,
                steps2,
                first2,
                x0 + k,
                y,
            ) by {
                assert(cell_owned(b1, steps1, first, x0 + k, y));
            }
            assert(horiz_at(b2, steps2, first2, x0, y, g));
        }
    }
}

impl Game {
    /// Checks one coordinate for legality: inside the board, and not on a
    /// cell that a live piece still holds. Succeeds exactly on legal moves.
    pub fn validate_take(&self, take: Take) -> (r: Result<(), String>)
        ensures
            r is Ok <==> is_legal(self@.board, self@.setting, take@.0, take@.1),
    {
        if take.x() >= self.setting.board_width() || take.y() >= self.setting.board_height() {
            return Err("Out of board".to_owned());
        }
        let len = self.state.len();
        let cap = self.setting.piece_limit();
        let skip: usize = if len >= 2 * cap {
            1
        } else {
            0
        };
        assert(skip as int == live_from(self@.board.len() as int, self@.setting.piece_limit));
        let mut i: usize = skip;
        while i < len
            invariant
                skip <= i <= len,
                len == self@.board.len(),
                skip as int == live_from(self@.board.len() as int, self@.setting.piece_limit),
                forall|j: int| #![trigger self@.board[j]]
                    skip <= j < i ==> self@.board[j] != (take@.0, take@.1),
            decreases len - i,
        {
            let t = self.state.get(i);
            if t.x == take.x && t.y == take.y {
                assert(self@.board[i as int] == (take@.0, take@.1));
                return Err("Already taken".to_owned());
            }
            assert(self@.board[i as int] != (take@.0, take@.1));
            i += 1;
        }
        Ok(())
    }

    /// Counts the legal moves on the whole board.
    pub fn valid_take_count(&self) -> (r: usize)
        ensures
            r as int == legal_count(self@.board, self@.setting),
    {
        let h = self.setting.board_height();
        let w = self.setting.board_width();
        let mut count: usize = 0;
        let mut y: usize = 0;
        while y < h
            invariant
                y <= h,
                h == self@.setting.height,
                w == self@.setting.width,
                h <= 11,
                w <= 11,
                count as int == rows_prefix(self@.board, self@.setting, y as int),
                count <= y * 11,
            decreases h - y,
        {
            let mut x: usize = 0;
            while x < w
                invariant
                    x <= w,
                    y < h,
                    h == self@.setting.height,
                    w == self@.setting.width,
                    h <= 11,
                    w <= 11,
                    count as int == rows_prefix(self@.board, self@.setting, y as int) + row_prefix(
                        self@.board,
                        self@.setting,
                        y as int,
                        x as int,
                    ),
                    count <= y * 11 + x,
                decreases w - x,
            {
                let legal = self.validate_take(Take { x: x as u8, y: y as u8 }).is_ok();
                if legal {
                    count += 1;
                }
                x += 1;
            }
            assert(rows_prefix(self@.board, self@.setting, y as int + 1) == rows_prefix(
                self@.board,
                self@.setting,
                y as int,
            ) + row_prefix(self@.board, self@.setting, y as int, self@.setting.width));
            y += 1;
        }
        count
    }

    /// Whether the game is over: a completed line exists or no legal move
    /// remains.
    pub fn is_finished(&self) -> (r: bool)
        ensures
            r == finished(self@.board, self@.steps, self@.setting),
    {
        self.result().is_win() || self.valid_take_count() == 0
    }

    /// Plays one move. Fails, leaving the game unchanged, when the game is
    /// already finished or the move is illegal; otherwise appends the move,
    /// evicting the oldest live piece if the window is full, and advances
    /// the step counter. The window never exceeds twice the piece cap, and
    /// the player who did not move cannot have gained a line.
    pub fn add_take(&mut self, take: Take) -> (r: Result<(), String>)
        requires
            old(self)@.wf(),
            old(self)@.steps < usize::MAX,
        ensures
            r is Ok <==> (!finished(old(self)@.board, old(self)@.steps, old(self)@.setting)
                && is_legal(old(self)@.board, old(self)@.setting, take@.0, take@.1)),
            final(self)@.setting == old(self)@.setting,
            r is Err ==> final(self)@ == old(self)@,
            r is Ok ==> final(self)@.board == apply_board(
                old(self)@.board,
                old(self)@.setting.piece_limit,
                take@,
            ),
            r is Ok ==> final(self)@.steps == old(self)@.steps + 1,
            final(self)@.wf(),
            final(self)@.board.len() <= 2 * final(self)@.setting.piece_limit,
            r is Ok ==> !(wins(final(self)@.board, final(self)@.steps, true, final(self)@.setting)
                && wins(final(self)@.board, final(self)@.steps, false, final(self)@.setting)),
    {
        if self.is_finished() {
            return Err("Game already finished".to_owned());
        }
        match self.validate_take(take) {
            Err(e) => {
                return Err(e);
            },
            Ok(()) => {},
        }
        let ghost old_board = self@.board;
        let ghost old_steps = self@.steps;
        let ghost sv = self@.setting;
        let len = self.state.len();
        let cap = self.setting.piece_limit();
        if len >= 2 * cap {
            self.state.drop_oldest();
        }
        self.state.push_take(take);
        self.steps_taken = self.steps_taken + 1;
        proof {
            let nb = self@.board;
            assert(nb == apply_board(old_board, sv.piece_limit, take@));
            // the window stays within the cap
            assert(nb.len() <= 2 * sv.piece_limit);
            // every live piece is still on the board
            assert forall|i: int| #![trigger nb[i]] 0 <= i < nb.len() implies 0 <= nb[i].0
                < sv.width && 0 <= nb[i].1 < sv.height by {
                if i < nb.len() - 1 {
                    if old_board.len() >= 2 * sv.piece_limit {
                        assert(nb[i] == old_board[i + 1]);
                    } else {
                        assert(nb[i] == old_board[i]);
                    }
                }
            }
            // no two live pieces share a cell
            assert forall|i: int, j: int| #![trigger nb[i], nb[j]] 0 <= i < j < nb.len() implies
                nb[i] != nb[j] by {
                let skip = live_from(old_board.len() as int, sv.piece_limit);
                if j == nb.len() - 1 {
                    assert(nb[i] == old_board[i + skip]);
                    assert(!window_occupied(old_board, sv.piece_limit, take@.0, take@.1));
                    assert(old_board[i + skip] != (take@.0, take@.1));
                } else {
                    assert(nb[i] == old_board[i + skip]);
                    assert(nb[j] == old_board[j + skip]);
                }
            }
            // the player who did not move gained no cell, hence no line
            let mover_first = old_steps % 2 == 0;
            let opp = !mover_first;
            lemma_apply_keeps_opponent_out(old_board, old_steps, sv.piece_limit, take@, opp);
            lemma_wins_monotone(nb, old_steps + 1, opp, old_board, old_steps, opp, sv);
            assert(!wins(old_board, old_steps, opp, sv));
        }
        Ok(())
    }

    /// Runs the full consistency check on the current state, as applied to
    /// externally supplied positions. Succeeds exactly on consistent states.
    pub fn verify_full(&self) -> (r: Result<(), String>)
        ensures
            r is Ok <==> consistent(self@.board, self@.steps, self@.setting),
    {
        let len = self.state.len();
        let cap = self.setting.piece_limit();
        if len > 2 * cap {
            return Err("Takes len should be up to piece_count * 2".to_owned());
        }
        if !distinct_exec(&self.state) {
            return Err("Should not take the same cell".to_owned());
        }
        if !in_bounds_exec(&self.state, &self.setting) {
            return Err("Should not take out of board".to_owned());
        }
        if self.is_win(true) && self.is_win(false) {
            return Err("Both should not win at the same time".to_owned());
        }
        Ok(())
    }

    /// Replaces state and step counter wholesale, as when resuming a saved
    /// position. The new state must pass the full consistency check;
    /// otherwise the game is left unchanged.
    pub fn replace_state(&mut self, state: BoardState, steps_taken: usize) -> (r: Result<
        (),
        String,
    >)
        requires
            old(self)@.wf(),
        ensures
            r is Ok <==> consistent(state@, steps_taken as int, old(self)@.setting),
            r is Ok ==> final(self)@.board == state@ && final(self)@.steps == steps_taken,
            r is Err ==> final(self)@ == old(self)@,
            final(self)@.setting == old(self)@.setting,
            final(self)@.wf(),
    {
        let len = state.len();
        let cap = self.setting.piece_limit();
        if len > 2 * cap {
            return Err("Takes len should be up to piece_count * 2".to_owned());
        }
        if !distinct_exec(&state) {
            return Err("Should not take the same cell".to_owned());
        }
        if !in_bounds_exec(&state, &self.setting) {
            return Err("Should not take out of board".to_owned());
        }
        let win_first = wins_exec(&state, steps_taken, true, &self.setting);
        let win_second = wins_exec(&state, steps_taken, false, &self.setting);
        if win_first && win_second {
            return Err("Both should not win at the same time".to_owned());
        }
        self.state = state;
        self.steps_taken = steps_taken;
        Ok(())
    }

    /// The same game with its state replaced by the canonical representative
    /// of its symmetry orbit; the step counter is kept. Canonicalization
    /// changes no completed line: each player has a line on the canonical
    /// state exactly when they have one on the state itself, at any parity.
    pub fn normalize(&self) -> (r: Game)
        requires
            self@.wf(),
        ensures
            r@.setting == self@.setting,
            r@.steps == self@.steps,
            r@.board == canonical(self@.board, self@.setting),
            r@.wf(),
            forall|st: int, p: bool| #![trigger wins(r@.board, st, p, self@.setting)]
                wins(r@.board, st, p, self@.setting) == wins(self@.board, st, p, self@.setting),
    {
        let state = self.state.normalized(&self.setting);
        proof {
            crate::board::lemma_canonical_preserves(self@.board, self@.setting);
            assert forall|st: int, p: bool|
                #![trigger wins(canonical(self@.board, self@.setting), st, p, self@.setting)]
                wins(canonical(self@.board, self@.setting), st, p, self@.setting) == wins(
                self@.board,
                st,
                p,
                self@.setting,
            ) by {
                lemma_wins_canonical(self@.board, st, p, self@.setting);
            }
        }
        Game { setting: self.setting, state, steps_taken: self.steps_taken }
    }

    /// Whether the current state is the canonical representative of its
    /// orbit.
    pub fn is_normalized(&self) -> (r: bool)
        requires
            self@.wf(),
        ensures
            r == is_canonical(self@.board, self@.setting),
    {
        self.state.is_normalized(&self.setting)
    }

    /// Renders the board as rows of cells, each cell carrying its owner and
    /// the number of further own moves before the piece is evicted.
    pub fn to_cells(&self) -> (r: Vec<Vec<CellView>>)
        requires
            self@.wf(),
        ensures
            r@.len() == self@.setting.height,
            forall|y: int| #![trigger r@[y]]
                0 <= y < self@.setting.height ==> r@[y]@.len() == self@.setting.width,
            forall|y: int, x: int| #![trigger r@[y]@[x]]
                0 <= y < self@.setting.height && 0 <= x < self@.setting.width ==> r@[y]@[x]
                    == cell_view_at(
                    self@.board,
                    self@.steps,
                    self@.setting.piece_limit,
                    x,
                    y,
                ),
    {
        let h = self.setting.board_height();
        let w = self.setting.board_width();
        let cap = self.setting.piece_limit();
        let mut rows: Vec<Vec<CellView>> = Vec::new();
        let mut y: usize = 0;
        while y < h
            invariant
                y <= h,
                self@.wf(),
                h == self@.setting.height,
                w == self@.setting.width,
                cap == self@.setting.piece_limit,
                rows@.len() == y,
                forall|yy: int| #![trigger rows@[yy]] 0 <= yy < y ==> rows@[yy]@.len() == w,
                forall|yy: int, xx: int| #![trigger rows@[yy]@[xx]]
                    0 <= yy < y && 0 <= xx < w ==> rows@[yy]@[xx] == cell_view_at(
                        self@.board,
                        self@.steps,
                        self@.setting.piece_limit,
                        xx,
                        yy,
                    ),
            decreases h - y,
        {
            let mut row: Vec<CellView> = Vec::new();
            let mut x: usize = 0;
            while x < w
                invariant
                    x <= w,
                    y < h,
                    self@.wf(),
                    h == self@.setting.height,
                    w == self@.setting.width,
                    cap == self@.setting.piece_limit,
                    row@.len() == x,
                    forall|xx: int| #![trigger row@[xx]]
                        0 <= xx < x ==> row@[xx] == cell_view_at(
                            self@.board,
                            self@.steps,
                            self@.setting.piece_limit,
                            xx,
                            y as int,
                        ),
                decreases w - x,
            {
                row.push(cell_view_exec(&self.state, self.steps_taken, cap, x, y));
                x += 1;
            }
            rows.push(row);
            y += 1;
        }
        rows
    }
}

/// Decides `is_legal` for one coordinate: on the board, and not on a cell
/// a live piece still holds.
pub(crate) fn is_legal_exec(state: &BoardState, setting: &GameSetting, x: usize, y: usize) -> (r:
    bool)
    ensures
        r == is_legal(state@, setting@, x as int, y as int),
{
    if x >= setting.board_width() || y >= setting.board_height() {
        return false;
    }
    let len = state.len();
    let cap = setting.piece_limit();
    let skip: usize = if len >= 2 * cap {
        1
    } else {
        0
    };
    assert(skip as int == live_from(state@.len() as int, setting@.piece_limit));
    let mut i: usize = skip;
    while i < len
        invariant
            skip <= i <= len,
            len == state@.len(),
            skip as int == live_from(state@.len() as int, setting@.piece_limit),
            forall|j: int| #![trigger state@[j]]
                skip <= j < i ==> state@[j] != (x as int, y as int),
        decreases len - i,
    {
        let t = state.get(i);
        if t.x() == x && t.y() == y {
            assert(state@[i as int] == (x as int, y as int));
            return false;
        }
        assert(state@[i as int] != (x as int, y as int));
        i += 1;
    }
    true
}

/// One placement on a bare state: evicts the oldest move when the window is
/// full, then appends.
pub(crate) fn apply_to_state(state: &BoardState, cap: usize, t: Take) -> (r: BoardState)
    requires
        1 <= cap <= 127,
    ensures
        r@ == apply_board(state@, cap as int, t@),
{
    let mut s = state.clone();
    if s.len() >= 2 * cap {
        s.drop_oldest();
    }
    s.push_take(t);
    s
}

/// Decides `distinct_cells` by comparing every pair of live moves.
fn distinct_exec(state: &BoardState) -> (r: bool)
    ensures
        r == distinct_cells(state@),
{
    let len = state.len();
    let mut i: usize = 0;
    while i < len
        invariant
            i <= len,
            len == state@.len(),
            forall|a: int, b: int| #![trigger state@[a], state@[b]]
                0 <= a < b < state@.len() && a < i ==> state@[a] != state@[b],
        decreases len - i,
    {
        let ti = state.get(i);
        let mut j: usize = i + 1;
        while j < len
            invariant
                i < j <= len,
                i < len,
                len == state@.len(),
                ti@ == state@[i as int],
                forall|b: int| #![trigger state@[b]] i < b < j ==> state@[i as int] != state@[b],
        decreases len - j,
        {
            let tj = state.get(j);
            if ti.x == tj.x && ti.y == tj.y {
                assert(state@[i as int] == state@[j as int]);
                return false;
            }
            assert(state@[i as int] != state@[j as int]);
            j += 1;
        }
        i += 1;
    }
    true
}

/// Decides `in_bounds` by checking every live move.
pub(crate) fn in_bounds_exec(state: &BoardState, setting: &GameSetting) -> (r: bool)
    ensures
        r == in_bounds(state@, setting@),
{
    let len = state.len();
    let w = setting.board_width();
    let h = setting.board_height();
    let mut i: usize = 0;
    while i < len
        invariant
            i <= len,
            len == state@.len(),
            w == setting@.width,
            h == setting@.height,
            forall|j: int| #![trigger state@[j]]
                0 <= j < i ==> 0 <= state@[j].0 < setting@.width && 0 <= state@[j].1
                    < setting@.height,
        decreases len - i,
    {
        let t = state.get(i);
        if t.x() >= w || t.y() >= h {
            assert(!(0 <= state@[i as int].0 < setting@.width && 0 <= state@[i as int].1
                < setting@.height));
            return false;
        }
        assert(0 <= state@[i as int].0 < setting@.width && 0 <= state@[i as int].1
            < setting@.height);
        i += 1;
    }
    true
}

/// Computes `cell_view_at` for one cell by scanning the window for the
/// unique live move on it.
fn cell_view_exec(state: &BoardState, steps: usize, cap: usize, x: usize, y: usize) -> (r: CellView)
    requires
        distinct_cells(state@),
        state@.len() <= 2 * cap,
        cap <= 127,
    ensures
        r == cell_view_at(state@, steps as int, cap as int, x as int, y as int),
{
    let len = state.len();
    let mut i: usize = 0;
    while i < len
        invariant
            i <= len,
            len == state@.len(),
            distinct_cells(state@),
            len <= 2 * cap,
            cap <= 127,
            forall|j: int| #![trigger state@[j]]
                0 <= j < i ==> state@[j] != (x as int, y as int),
        decreases len - i,
    {
        let t = state.get(i);
        if t.x() == x && t.y() == y {
            assert(state@[i as int] == (x as int, y as int));
            proof {
                let win = choose|j: int| #![trigger state@[j]]
                    0 <= j < state@.len() && state@[j] == (x as int, y as int);
                if win != i {
                    assert(state@[win] != state@[i as int]);
                }
            }
            let rest = (2 * cap - len + i) / 2;
            let owner_first = ((len - i - 1) % 2) != (steps % 2);
            proof {
                assert((len - i + 1) % 2 == (len - i - 1) % 2);
                assert(owner_is_first(i as int, len as int, steps as int) == owner_first);
            }
            if owner_first {
                return CellView::First(rest);
            } else {
                return CellView::Second(rest);
            }
        }
        assert(state@[i as int] != (x as int, y as int));
        i += 1;
    }
    CellView::Vacant
}

/// A quarter-turn carries cell ownership along with the coordinates.
proof fn lemma_cell_owned_rotate(
    s: Seq<(int, int)>,
    steps: int,
    first: bool,
    x: int,
    y: int,
    n: int,
)
    ensures
        cell_owned(rotate_seq(s, n), steps, first, n - 1 - y, x) == cell_owned(
            s,
            steps,
            first,
            x,
            y,
        ),
{
    let r = rotate_seq(s, n);
    if cell_owned(s, steps, first, x, y) {
        let i = choose|i: int|
            0 <= i < s.len() && s[i] == (x, y) && owner_is_first(i, s.len() as int, steps) == first;
        assert(r[i] == rotate_pt(s[i], n));
        assert(r[i] == (n - 1 - y, x) && owner_is_first(i, r.len() as int, steps) == first);
    }
    if cell_owned(r, steps, first, n - 1 - y, x) {
        let i = choose|i: int|
            0 <= i < r.len() && r[i] == (n - 1 - y, x) && owner_is_first(i, r.len() as int, steps)
                == first;
        assert(r[i] == rotate_pt(s[i], n));
        assert(s[i] == (x, y) && owner_is_first(i, s.len() as int, steps) == first);
    }
}

/// The horizontal mirror carries cell ownership along with the coordinates.
proof fn lemma_cell_owned_mirror_x(
    s: Seq<(int, int)>,
    steps: int,
    first: bool,
    x: int,
    y: int,
    w: int,
)
    ensures
        cell_owned(mirror_x_seq(s, w), steps, first, w - 1 - x, y) == cell_owned(
            s,
            steps,
            first,
            x,
            y,
        ),
{
    let r = mirror_x_seq(s, w);
    if cell_owned(s, steps, first, x, y) {
        let i = choose|i: int|
            0 <= i < s.len() && s[i] == (x, y) && owner_is_first(i, s.len() as int, steps) == first;
        assert(r[i] == mirror_x_pt(s[i], w));
        assert(r[i] == (w - 1 - x, y) && owner_is_first(i, r.len() as int, steps) == first);
    }
    if cell_owned(r, steps, first, w - 1 - x, y) {
        let i = choose|i: int|
            0 <= i < r.len() && r[i] == (w - 1 - x, y) && owner_is_first(i, r.len() as int, steps)
                == first;
        assert(r[i] == mirror_x_pt(s[i], w));
        assert(s[i] == (x, y) && owner_is_first(i, s.len() as int, steps) == first);
    }
}

/// The vertical mirror carries cell ownership along with the coordinates.
proof fn lemma_cell_owned_mirror_y(
    s: Seq<(int, int)>,
    steps: int,
    first: bool,
    x: int,
    y: int,
    h: int,
)
    ensures
        cell_owned(mirror_y_seq(s, h), steps, first, x, h - 1 - y) == cell_owned(
            s,
            steps,
            first,
            x,
            y,
        ),
{
    let r = mirror_y_seq(s, h);
    if cell_owned(s, steps, first, x, y) {
        let i = choose|i: int|
            0 <= i < s.len() && s[i] == (x, y) && owner_is_first(i, s.len() as int, steps) == first;
        assert(r[i] == mirror_y_pt(s[i], h));
        assert(r[i] == (x, h - 1 - y) && owner_is_first(i, r.len() as int, steps) == first);
    }
    if cell_owned(r, steps, first, x, h - 1 - y) {
        let i = choose|i: int|
            0 <= i < r.len() && r[i] == (x, h - 1 - y) && owner_is_first(i, r.len() as int, steps)
                == first;
        assert(r[i] == mirror_y_pt(s[i], h));
        assert(s[i] == (x, y) && owner_is_first(i, s.len() as int, steps) == first);
    }
}

/// A completed line survives a quarter-turn of the board: rows become
/// columns, falling diagonals become rising ones, and conversely.
proof fn lemma_wins_rotate_fwd(s: Seq<(int, int)>, steps: int, first: bool, sv: SettingView)
    requires
        sv.height == sv.width,
        wins(s, steps, first, sv),
    ensures
        wins(rotate_seq(s, sv.height), steps, first, sv),
{
    let n = sv.height;
    let g = sv.goal;
    let r = rotate_seq(s, n);
    if exists|x0: int, y0: int|
        0 <= x0 <= sv.width - g && 0 <= y0 <= sv.height - g && #[trigger] diag_at(
            s,
            steps,
            first,
            x0,
            y0,
            g,
        ) {
        let (x0, y0) = choose|x0: int, y0: int|
            0 <= x0 <= sv.width - g && 0 <= y0 <= sv.height - g && #[trigger] diag_at(
                s,
                steps,
                first,
                x0,
                y0,
                g,
            );
        assert forall|k: int| 0 <= k < g implies #[trigger] cell_owned(
            r,
            steps,
            first,
            (n - g - y0) + g - 1 - k,
            x0 + k,
        ) by {
            assert(cell_owned(s, steps, first, x0 + k, y0 + k));
            lemma_cell_owned_rotate(s, steps, first, x0 + k, y0 + k, n);
        }
        assert(anti_at(r, steps, first, n - g - y0, x0, g));
    } else if exists|x0: int, y0: int|
        0 <= x0 <= sv.width - g && 0 <= y0 <= sv.height - g && #[trigger] anti_at(
            s,
            steps,
            first,
            x0,
            y0,
            g,
        ) {
        let (x0, y0) = choose|x0: int, y0: int|
            0 <= x0 <= sv.width - g && 0 <= y0 <= sv.height - g && #[trigger] anti_at(
                s,
                steps,
                first,
                x0,
                y0,
                g,
            );
        assert forall|k: int| 0 <= k < g implies #[trigger] cell_owned(
            r,
            steps,
            first,
            (n - g - y0) + k,
            x0 + k,
        ) by {
            assert(cell_owned(s, steps, first, x0 + g - 1 - (g - 1 - k), y0 + (g - 1 - k)));
            lemma_cell_owned_rotate(s, steps, first, x0 + k, y0 + g - 1 - k, n);
        }
        assert(diag_at(r, steps, first, n - g - y0, x0, g));
    } else if exists|x: int, y0: int|
        0 <= x < sv.width && 0 <= y0 <= sv.height - g && #[trigger] vert_at(
            s,
            steps,
            first,
            x,
            y0,
            g,
        ) {
        let (x, y0) = choose|x: int, y0: int|
            0 <= x < sv.width && 0 <= y0 <= sv.height - g && #[trigger] vert_at(
                s,
                steps,
                first,
                x,
                y0,
                g,
            );
        assert forall|k: int| 0 <= k < g implies #[trigger] cell_owned(
            r,
            steps,
            first,
            (n - g - y0) + k,
            x,
        ) by {
            assert(cell_owned(s, steps, first, x, y0 + (g - 1 - k)));
            lemma_cell_owned_rotate(s, steps, first, x, y0 + g - 1 - k, n);
        }
        assert(horiz_at(r, steps, first, n - g - y0, x, g));
    } else {
        let (x0, y) = choose|x0: int, y: int|
            0 <= x0 <= sv.width - g && 0 <= y < sv.height && #[trigger] horiz_at(
                s,
                steps,
                first,
                x0,
                y,
                g,
            );
        assert forall|k: int| 0 <= k < g implies #[trigger] cell_owned(
            r,
            steps,
            first,
            n - 1 - y,
            x0 + k,
        ) by {
            assert(cell_owned(s, steps, first, x0 + k, y));
            lemma_cell_owned_rotate(s, steps, first, x0 + k, y, n);
        }
        assert(vert_at(r, steps, first, n - 1 - y, x0, g));
    }
}

/// Line detection commutes with the quarter-turn (square boards).
pub proof fn lemma_wins_rotate(s: Seq<(int, int)>, steps: int, first: bool, sv: SettingView)
    requires
        sv.height == sv.width,
    ensures
        wins(rotate_seq(s, sv.height), steps, first, sv) == wins(s, steps, first, sv),
{
    let n = sv.height;
    let a1 = rotate_seq(s, n);
    let a2 = rotate_seq(a1, n);
    let a3 = rotate_seq(a2, n);
    if wins(s, steps, first, sv) {
        lemma_wins_rotate_fwd(s, steps, first, sv);
    }
    if wins(a1, steps, first, sv) {
        lemma_wins_rotate_fwd(a1, steps, first, sv);
        lemma_wins_rotate_fwd(a2, steps, first, sv);
        lemma_wins_rotate_fwd(a3, steps, first, sv);
        lemma_rotate_four(s, n);
    }
}

/// A completed line survives the horizontal mirror.
proof fn lemma_wins_mirror_x_fwd(s: Seq<(int, int)>, steps: int, first: bool, sv: SettingView)
    requires
        wins(s, steps, first, sv),
    ensures
        wins(mirror_x_seq(s, sv.width), steps, first, sv),
{
    let w = sv.width;
    let g = sv.goal;
    let r = mirror_x_seq(s, w);
    if exists|x0: int, y0: int|
        0 <= x0 <= sv.width - g && 0 <= y0 <= sv.height - g && #[trigger] diag_at(
            s,
            steps,
            first,
            x0,
            y0,
            g,
        ) {
        let (x0, y0) = choose|x0: int, y0: int|
            0 <= x0 <= sv.width - g && 0 <= y0 <= sv.height - g && #[trigger] diag_at(
                s,
                steps,
                first,
                x0,
                y0,
                g,
            );
        assert forall|k: int| 0 <= k < g implies #[trigger] cell_owned(
            r,
            steps,
            first,
            (w - g - x0) + g - 1 - k,
            y0 + k,
        ) by {
            assert(cell_owned(s, steps, first, x0 + k, y0 + k));
            lemma_cell_owned_mirror_x(s, steps, first, x0 + k, y0 + k, w);
        }
        assert(anti_at(r, steps, first, w - g - x0, y0, g));
    } else if exists|x0: int, y0: int|
        0 <= x0 <= sv.width - g && 0 <= y0 <= sv.height - g && #[trigger] anti_at(
            s,
            steps,
            first,
            x0,
            y0,
            g,
        ) {
        let (x0, y0) = choose|x0: int, y0: int|
            0 <= x0 <= sv.width - g && 0 <= y0 <= sv.height - g && #[trigger] anti_at(
                s,
                steps,
                first,
                x0,
                y0,
                g,
            );
        assert forall|k: int| 0 <= k < g implies #[trigger] cell_owned(
            r,
            steps,
            first,
            (w - g - x0) + k,
            y0 + k,
        ) by {
            assert(cell_owned(s, steps, first, x0 + g - 1 - k, y0 + k));
            lemma_cell_owned_mirror_x(s, steps, first, x0 + g - 1 - k, y0 + k, w);
        }
        assert(diag_at(r, steps, first, w - g - x0, y0, g));
    } else if exists|x: int, y0: int|
        0 <= x < sv.width && 0 <= y0 <= sv.height - g && #[trigger] vert_at(
            s,
            steps,
            first,
            x,
            y0,
            g,
        ) {
        let (x, y0) = choose|x: int, y0: int|
            0 <= x < sv.width && 0 <= y0 <= sv.height - g && #[trigger] vert_at(
                s,
                steps,
                first,
                x,
                y0,
                g,
            );
        assert forall|k: int| 0 <= k < g implies #[trigger] cell_owned(
            r,
            steps,
            first,
            w - 1 - x,
            y0 + k,
        ) by {
            assert(cell_owned(s, steps, first, x, y0 + k));
            lemma_cell_owned_mirror_x(s, steps, first, x, y0 + k, w);
        }
        assert(vert_at(r, steps, first, w - 1 - x, y0, g));
    } else {
        let (x0, y) = choose|x0: int, y: int|
            0 <= x0 <= sv.width - g && 0 <= y < sv.height && #[trigger] horiz_at(
                s,
                steps,
                first,
                x0,
                y,
                g,
            );
        assert forall|k: int| 0 <= k < g implies #[trigger] cell_owned(
            r,
            steps,
            first,
            (w - g - x0) + k,
            y,
        ) by {
            assert(cell_owned(s, steps, first, x0 + (g - 1 - k), y));
            lemma_cell_owned_mirror_x(s, steps, first, x0 + g - 1 - k, y, w);
        }
        assert(horiz_at(r, steps, first, w - g - x0, y, g));
    }
}

/// Line detection commutes with the horizontal mirror.
pub proof fn lemma_wins_mirror_x(s: Seq<(int, int)>, steps: int, first: bool, sv: SettingView)
    ensures
        wins(mirror_x_seq(s, sv.width), steps, first, sv) == wins(s, steps, first, sv),
{
    let m = mirror_x_seq(s, sv.width);
    if wins(s, steps, first, sv) {
        lemma_wins_mirror_x_fwd(s, steps, first, sv);
    }
    if wins(m, steps, first, sv) {
        lemma_wins_mirror_x_fwd(m, steps, first, sv);
        lemma_mirror_x_invol(s, sv.width);
    }
}

/// A completed line survives the vertical mirror.
proof fn lemma_wins_mirror_y_fwd(s: Seq<(int, int)>, steps: int, first: bool, sv: SettingView)
    requires
        wins(s, steps, first, sv),
    ensures
        wins(mirror_y_seq(s, sv.height), steps, first, sv),
{
    let h = sv.height;
    let g = sv.goal;
    let r = mirror_y_seq(s, h);
    if exists|x0: int, y0: int|
        0 <= x0 <= sv.width - g && 0 <= y0 <= sv.height - g && #[trigger] diag_at(
            s,
            steps,
            first,
            x0,
            y0,
            g,
        ) {
        let (x0, y0) = choose|x0: int, y0: int|
            0 <= x0 <= sv.width - g && 0 <= y0 <= sv.height - g && #[trigger] diag_at(
                s,
                steps,
                first,
                x0,
                y0,
                g,
            );
        assert forall|k: int| 0 <= k < g implies #[trigger] cell_owned(
            r,
            steps,
            first,
            x0 + g - 1 - k,
            (h - g - y0) + k,
        ) by {
            assert(cell_owned(s, steps, first, x0 + (g - 1 - k), y0 + (g - 1 - k)));
            lemma_cell_owned_mirror_y(s, steps, first, x0 + g - 1 - k, y0 + g - 1 - k, h);
        }
        assert(anti_at(r, steps, first, x0, h - g - y0, g));
    } else if exists|x0: int, y0: int|
        0 <= x0 <= sv.width - g && 0 <= y0 <= sv.height - g && #[trigger] anti_at(
            s,
            steps,
            first,
            x0,
            y0,
            g,
        ) {
        let (x0, y0) = choose|x0: int, y0: int|
            0 <= x0 <= sv.width - g && 0 <= y0 <= sv.height - g && #[trigger] anti_at(
                s,
                steps,
                first,
                x0,
                y0,
                g,
            );
        assert forall|k: int| 0 <= k < g implies #[trigger] cell_owned(
            r,
            steps,
            first,
            x0 + k,
            (h - g - y0) + k,
        ) by {
            assert(cell_owned(s, steps, first, x0 + g - 1 - (g - 1 - k), y0 + (g - 1 - k)));
            lemma_cell_owned_mirror_y(s, steps, first, x0 + k, y0 + g - 1 - k, h);
        }
        assert(diag_at(r, steps, first, x0, h - g - y0, g));
    } else if exists|x: int, y0: int|
        0 <= x < sv.width && 0 <= y0 <= sv.height - g && #[trigger] vert_at(
            s,
            steps,
            first,
            x,
            y0,
            g,
        ) {
        let (x, y0) = choose|x: int, y0: int|
            0 <= x < sv.width && 0 <= y0 <= sv.height - g && #[trigger] vert_at(
                s,
                steps,
                first,
                x,
                y0,
                g,
            );
        assert forall|k: int| 0 <= k < g implies #[trigger] cell_owned(
            r,
            steps,
            first,
            x,
            (h - g - y0) + k,
        ) by {
            assert(cell_owned(s, steps, first, x, y0 + (g - 1 - k)));
            lemma_cell_owned_mirror_y(s, steps, first, x, y0 + g - 1 - k, h);
        }
        assert(vert_at(r, steps, first, x, h - g - y0, g));
    } else {
        let (x0, y) = choose|x0: int, y: int|
            0 <= x0 <= sv.width - g && 0 <= y < sv.height && #[trigger] horiz_at(
                s,
                steps,
                first,
                x0,
                y,
                g,
            );
        assert forall|k: int| 0 <= k < g implies #[trigger] cell_owned(
            r,
            steps,
            first,
            x0 + k,
            h - 1 - y,
        ) by {
            assert(cell_owned(s, steps, first, x0 + k, y));
            lemma_cell_owned_mirror_y(s, steps, first, x0 + k, y, h);
        }
        assert(horiz_at(r, steps, first, x0, h - 1 - y, g));
    }
}

/// Line detection commutes with the vertical mirror.
pub proof fn lemma_wins_mirror_y(s: Seq<(int, int)>, steps: int, first: bool, sv: SettingView)
    ensures
        wins(mirror_y_seq(s, sv.height), steps, first, sv) == wins(s, steps, first, sv),
{
    let m = mirror_y_seq(s, sv.height);
    if wins(s, steps, first, sv) {
        lemma_wins_mirror_y_fwd(s, steps, first, sv);
    }
    if wins(m, steps, first, sv) {
        lemma_wins_mirror_y_fwd(m, steps, first, sv);
        lemma_mirror_y_invol(s, sv.height);
    }
}

/// Line detection commutes with canonicalization: a player has a completed
/// line on the canonical form exactly when they have one on the state
/// itself.
pub proof fn lemma_wins_canonical(s: Seq<(int, int)>, steps: int, first: bool, sv: SettingView)
    ensures
        wins(canonical(s, sv), steps, first, sv) == wins(s, steps, first, sv),
{
    if sv.height == sv.width {
        let n = sv.height;
        let a1 = rotate_seq(s, n);
        let a2 = rotate_seq(a1, n);
        let a3 = rotate_seq(a2, n);
        let b0 = mirror_x_seq(s, n);
        let b1 = rotate_seq(b0, n);
        let b2 = rotate_seq(b1, n);
        let b3 = rotate_seq(b2, n);
        lemma_rotate_four(s, n);
        lemma_rotate_four(b0, n);
        lemma_mirror_x_rot3(s, n);
        let orb = square_orbit(s, n);
        assert(orb[0] == s && orb[1] == a1 && orb[2] == a2 && orb[3] == a3);
        assert(orb[4] == mirror_x_seq(a3, n) && orb[4] == b1);
        assert(orb[5] == rotate_seq(orb[4], n) && orb[5] == b2);
        assert(orb[6] == b3 && orb[7] == rotate_seq(b3, n) && orb[7] == b0);
        lemma_min_of_props(orb);
        let i = choose|i: int| 0 <= i < orb.len() && canonical(s, sv) == #[trigger] orb[i];
        lemma_wins_rotate(s, steps, first, sv);
        lemma_wins_rotate(a1, steps, first, sv);
        lemma_wins_rotate(a2, steps, first, sv);
        lemma_wins_mirror_x(s, steps, first, sv);
        lemma_wins_rotate(b0, steps, first, sv);
        lemma_wins_rotate(b1, steps, first, sv);
        lemma_wins_rotate(b2, steps, first, sv);
    } else {
        let my = mirror_y_seq(s, sv.height);
        let mx = mirror_x_seq(s, sv.width);
        let orb = rect_orbit(s, sv);
        assert(orb[0] == s && orb[1] == my && orb[2] == mx && orb[3] == mirror_y_seq(
            mx,
            sv.height,
        ));
        lemma_min_of_props(orb);
        let i = choose|i: int| 0 <= i < orb.len() && canonical(s, sv) == #[trigger] orb[i];
        lemma_wins_mirror_y(s, steps, first, sv);
        lemma_wins_mirror_x(s, steps, first, sv);
        lemma_wins_mirror_y(mx, steps, first, sv);
    }
}

/// Turn parity relabels the players: advancing the step counter by one
/// swaps which absolute player each recency class belongs to, and with it
/// whose lines are whose.
pub proof fn lemma_wins_parity(b: Seq<(int, int)>, steps: int, first: bool, sv: SettingView)
    requires
        0 <= steps,
    ensures
        wins(b, steps + 1, first, sv) == wins(b, steps, !first, sv),
{
    assert forall|x: int, y: int| #![trigger cell_owned(b, steps + 1, first, x, y)]
        cell_owned(b, steps + 1, first, x, y) implies cell_owned(b, steps, !first, x, y) by {
        let other = !first;
        let i = choose|i: int|
            0 <= i < b.len() && b[i] == (x, y) && owner_is_first(i, b.len() as int, steps + 1)
                == first;
        lemma_parity_flip(steps);
        assert(owner_is_first(i, b.len() as int, steps) == !first);
    }
    let other = !first;
    assert forall|x: int, y: int| #![trigger cell_owned(b, steps, other, x, y)]
        cell_owned(b, steps, other, x, y) implies cell_owned(b, steps + 1, first, x, y) by {
        let i = choose|i: int|
            0 <= i < b.len() && b[i] == (x, y) && owner_is_first(i, b.len() as int, steps)
                == other;
        lemma_parity_flip(steps);
        assert(owner_is_first(i, b.len() as int, steps + 1) == first);
    }
    lemma_wins_monotone(b, steps + 1, first, b, steps, other, sv);
    lemma_wins_monotone(b, steps, other, b, steps + 1, first, sv);
}

} // verus!
