use vstd::prelude::*;

verus! {

/// The value a tile holds when it is a mine.
pub const MINE_VALUE: i32 = -1;

/// A preset that fixes the size of the board and the number of mines.
#[derive(Debug, Clone, Copy, PartialEq, Eq, Structural)]
pub enum GameDifficulty {
    Easy,
    Medium,
    Hard,
}

/// Dimensions of a board and how many mines it holds.
#[derive(Debug, Clone, Copy, PartialEq, Eq, Structural)]
pub struct GameConfig {
    pub row_count: usize,
    pub col_count: usize,
    pub mine_count: usize,
}

/// Where a session stands; the presentation layer moves between these.
#[derive(Debug, Clone, Copy, PartialEq, Eq, Structural, Default)]
pub enum GameState {
    #[default]
    Initial,
    Normal,
    Lose,
    Win,
}

/// Signals that a reveal uncovered a mine.
#[derive(Debug, Clone, Copy, PartialEq, Eq, Structural, Default)]
pub struct GameOver;

impl GameConfig {
    /// Number of tiles on the board.
    pub open spec fn cell_count(self) -> int {
        self.row_count * self.col_count
    }

    /// Dimensions on which the engine works: at least 2x2, with rows and
    /// columns addressable by `i32` and every linear index fitting in `usize`.
    pub open spec fn wf(self) -> bool {
        &&& 2 <= self.row_count <= i32::MAX
        &&& 2 <= self.col_count <= i32::MAX
        &&& self.row_count * self.col_count <= usize::MAX
    }

    /// Whether `(r, c)` lies on the board.
    pub open spec fn inside(self, r: int, c: int) -> bool {
        0 <= r < self.row_count && 0 <= c < self.col_count
    }

    /// Row-major linear index of `(r, c)`.
    pub open spec fn index_of(self, r: int, c: int) -> int {
        r * self.col_count + c
    }

    /// The preset of `difficulty`: 8x8 with 10 mines, 16x16 with 40, 16x30 with 99.
    pub fn new(difficulty: GameDifficulty) -> (r: Self)
        ensures
            difficulty == GameDifficulty::Easy ==> (r.row_count == 8 && r.col_count == 8
                && r.mine_count == 10),
            difficulty == GameDifficulty::Medium ==> (r.row_count == 16 && r.col_count == 16
                && r.mine_count == 40),
            difficulty == GameDifficulty::Hard ==> (r.row_count == 16 && r.col_count == 30
                && r.mine_count == 99),
            r.wf(),
    {
        match difficulty {
            GameDifficulty::Easy => GameConfig { row_count: 8, col_count: 8, mine_count: 10 },
            GameDifficulty::Medium => GameConfig { row_count: 16, col_count: 16, mine_count: 40 },
            GameDifficulty::Hard => GameConfig { row_count: 16, col_count: 30, mine_count: 99 },
        }
    }
}

} // verus!
