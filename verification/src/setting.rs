//! Validated, immutable game parameters: board dimensions, the length of a
//! winning line, and the per-player cap on live pieces.

use vstd::prelude::*;

verus! {

/// Mathematical image of a [`GameSetting`]: the four parameters as
/// unbounded integers.
pub struct SettingView {
    pub height: int,
    pub width: int,
    pub goal: int,
    pub piece_limit: int,
}

impl SettingView {
    /// The bounds enforced at construction: dimensions in `1..=11`, goal no
    /// larger than either dimension, piece cap in `1..=127`.
    pub open spec fn wf(self) -> bool {
        &&& 1 <= self.height <= 11
        &&& 1 <= self.width <= 11
        &&& 1 <= self.goal <= self.height
        &&& self.goal <= self.width
        &&& 1 <= self.piece_limit <= 127
    }
}

/// Immutable configuration of one game: board dimensions, line-length goal,
/// and the sliding-window piece cap. Construction validates all bounds, so
/// every value of this type satisfies [`SettingView::wf`].
#[derive(Debug, Clone, Copy, PartialEq, Eq, Structural)]
pub struct GameSetting {
    board_height: u8,
    board_width: u8,
    goal: u8,
    piece_limit: u8,
}

impl View for GameSetting {
    type V = SettingView;

    closed spec fn view(&self) -> SettingView {
        SettingView {
            height: self.board_height as int,
            width: self.board_width as int,
            goal: self.goal as int,
            piece_limit: self.piece_limit as int,
        }
    }
}

impl GameSetting {
    #[verifier::type_invariant]
    pub open spec fn inv(self) -> bool {
        self@.wf()
    }

    /// Validates the four parameters and builds the configuration.
    /// Succeeds exactly when every bound of [`SettingView::wf`] holds.
    pub fn try_new(
        board_height: usize,
        board_width: usize,
        goal: usize,
        piece_limit: usize,
    ) -> (r: Result<GameSetting, String>)
        ensures
            r is Ok <==> {
                &&& 1 <= board_height <= 11
                &&& 1 <= board_width <= 11
                &&& 1 <= goal <= board_height
                &&& goal <= board_width
                &&& 1 <= piece_limit <= 127
            },
            r matches Ok(s) ==> s@ == (SettingView {
                height: board_height as int,
                width: board_width as int,
                goal: goal as int,
                piece_limit: piece_limit as int,
            }),
    {
        if board_height == 0 {
            return Err("Board height should be greater than 0".to_owned());
        }
        if board_height > 11 {
            return Err("Board height should be less than or equal to 11".to_owned());
        }
        if board_width == 0 {
            return Err("Board width should be greater than 0".to_owned());
        }
        if board_width > 11 {
            return Err("Board width should be less than or equal to 11".to_owned());
        }
        if goal == 0 {
            return Err("Goal should be greater than 0".to_owned());
        }
        if goal > board_height {
            return Err("Goal should be less than or equal to board height".to_owned());
        }
        if goal > board_width {
            return Err("Goal should be less than or equal to board width".to_owned());
        }
        if piece_limit == 0 {
            return Err("Piece limit should be greater than 0".to_owned());
        }
        if piece_limit > 127 {
            return Err("Piece limit should be less than or equal to 127".to_owned());
        }
        Ok(GameSetting {
            board_height: board_height as u8,
            board_width: board_width as u8,
            goal: goal as u8,
            piece_limit: piece_limit as u8,
        })
    }

    /// Square board of the given size with the given piece cap; the goal is
    /// the board size itself.
    pub fn try_new_normal_limited(board_size: usize, piece_limit: usize) -> (r: Result<
        GameSetting,
        String,
    >)
        ensures
            r is Ok <==> (1 <= board_size <= 11 && 1 <= piece_limit <= 127),
            r matches Ok(s) ==> s@ == (SettingView {
                height: board_size as int,
                width: board_size as int,
                goal: board_size as int,
                piece_limit: piece_limit as int,
            }),
    {
        GameSetting::try_new(board_size, board_size, board_size, piece_limit)
    }

    /// Square board of the given size with a piece cap large enough that no
    /// piece is ever evicted (classic rules).
    pub fn try_new_normal(board_size: usize) -> (r: Result<GameSetting, String>)
        ensures
            r is Ok <==> 1 <= board_size <= 11,
            r matches Ok(s) ==> s@ == (SettingView {
                height: board_size as int,
                width: board_size as int,
                goal: board_size as int,
                piece_limit: (board_size * board_size) as int,
            }),
    {
        if board_size > 11 {
            return Err("Board height should be less than or equal to 11".to_owned());
        }
        assert((1 <= board_size ==> 1 <= board_size * board_size) && board_size * board_size
            <= 121) by (nonlinear_arith)
            requires
                board_size <= 11,
        ;
        GameSetting::try_new(board_size, board_size, board_size, board_size * board_size)
    }

    pub fn board_height(&self) -> (r: usize)
        ensures
            r == self@.height,
            1 <= r <= 11,
    {
        proof {
            use_type_invariant(self);
        }
        self.board_height as usize
    }

    pub fn board_width(&self) -> (r: usize)
        ensures
            r == self@.width,
            1 <= r <= 11,
    {
        proof {
            use_type_invariant(self);
        }
        self.board_width as usize
    }

    pub fn goal(&self) -> (r: usize)
        ensures
            r == self@.goal,
            1 <= r,
            r <= self@.height,
            r <= self@.width,
    {
        proof {
            use_type_invariant(self);
        }
        self.goal as usize
    }

    pub fn piece_limit(&self) -> (r: usize)
        ensures
            r == self@.piece_limit,
            1 <= r <= 127,
    {
        proof {
            use_type_invariant(self);
        }
        self.piece_limit as usize
    }
}

} // verus!
