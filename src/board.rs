use vstd::prelude::*;

use crate::config::GameConfig;

verus! {

/// One cell of the minefield: `value` is `-1` for a mine, otherwise the
/// number of adjacent mines.
#[derive(Debug, Clone, Copy, PartialEq, Eq, Structural, Default)]
pub struct Tile {
    pub value: i32,
    pub visible: bool,
    pub flagged: bool,
}

/// A zero-based board coordinate.
#[derive(Debug, Clone, Copy, PartialEq, Eq, Structural, Default)]
pub struct Position {
    pub row: i32,
    pub col: i32,
}

impl Tile {
    /// The tile of a fresh board: no mine, hidden, unflagged.
    pub open spec fn blank() -> Tile {
        Tile { value: 0, visible: false, flagged: false }
    }
}

/// A board as rows of tiles.
pub open spec fn grid_view(tiles: Vec<Vec<Tile>>) -> Seq<Seq<Tile>> {
    tiles@.map_values(|row: Vec<Tile>| row@)
}

/// `g` has the dimensions that `cfg` fixes.
pub open spec fn shaped(cfg: GameConfig, g: Seq<Seq<Tile>>) -> bool {
    &&& g.len() == cfg.row_count
    &&& forall|r: int| 0 <= r < g.len() ==> #[trigger] g[r].len() == cfg.col_count
}

/// `g` has the dimensions of `cfg` and every tile is blank.
pub open spec fn is_blank(cfg: GameConfig, g: Seq<Seq<Tile>>) -> bool {
    &&& shaped(cfg, g)
    &&& forall|r: int, c: int| cfg.inside(r, c) ==> #[trigger] g[r][c] == Tile::blank()
}

/// `g` with the tile at `(r, c)` replaced by `t`.
pub open spec fn set_tile(g: Seq<Seq<Tile>>, r: int, c: int, t: Tile) -> Seq<Seq<Tile>> {
    g.update(r, g[r].update(c, t))
}

/// Number of flagged tiles in one row.
pub open spec fn row_flags(row: Seq<Tile>) -> int {
    row.filter(|t: Tile| t.flagged).len() as int
}

/// Number of flagged tiles on the board.
pub open spec fn flag_count(g: Seq<Seq<Tile>>) -> int
    decreases g.len(),
{
    if g.len() == 0 {
        0
    } else {
        flag_count(g.drop_last()) + row_flags(g.last())
    }
}

/// Every tile is flagged or revealed.
pub open spec fn all_resolved(g: Seq<Seq<Tile>>) -> bool {
    forall|r: int, c: int|
        0 <= r < g.len() && 0 <= c < g[r].len() ==> #[trigger] g[r][c].flagged || g[r][c].visible
}

/// The win condition: nothing is left unresolved and exactly `mine_count`
/// tiles carry a flag.
pub open spec fn is_won(cfg: GameConfig, g: Seq<Seq<Tile>>) -> bool {
    all_resolved(g) && flag_count(g) == cfg.mine_count
}

proof fn lemma_flag_count_bound(g: Seq<Seq<Tile>>, cols: int)
    requires
        forall|r: int| 0 <= r < g.len() ==> #[trigger] g[r].len() == cols,
    ensures
        0 <= flag_count(g) <= g.len() * cols,
    decreases g.len(),
{
    if g.len() > 0 {
        let rest = g.drop_last();
        assert forall|r: int| 0 <= r < rest.len() implies #[trigger] rest[r].len() == cols by {
            assert(rest[r] == g[r]);
        }
        lemma_flag_count_bound(rest, cols);
        g.last().lemma_filter_len(|t: Tile| t.flagged);
        assert(g.last().len() == cols);
        assert((g.len() - 1) * cols + cols == g.len() * cols) by (nonlinear_arith);
    }
}

/// A `row_count` x `col_count` board of blank tiles.
pub fn new_grid(game_config: &GameConfig) -> (tiles: Vec<Vec<Tile>>)
    ensures
        is_blank(*game_config, grid_view(tiles)),
{
    let mut tiles: Vec<Vec<Tile>> = Vec::new();
    let mut r: usize = 0;
    while r < game_config.row_count
        invariant
            r <= game_config.row_count,
            tiles.len() == r,
            forall|i: int, c: int|
                0 <= i < r && 0 <= c < game_config.col_count ==> #[trigger] tiles@[i]@[c]
                    == Tile::blank(),
            forall|i: int| 0 <= i < r ==> #[trigger] tiles@[i]@.len() == game_config.col_count,
        decreases game_config.row_count - r,
    {
        let mut row_vec: Vec<Tile> = Vec::new();
        let mut c: usize = 0;
        while c < game_config.col_count
            invariant
                c <= game_config.col_count,
                row_vec.len() == c,
                forall|j: int| 0 <= j < c ==> #[trigger] row_vec@[j] == Tile::blank(),
            decreases game_config.col_count - c,
        {
            row_vec.push(Tile { value: 0, visible: false, flagged: false });
            c = c + 1;
        }
        tiles.push(row_vec);
        r = r + 1;
    }
    tiles
}

/// Resets every tile of `tiles` to blank, keeping the dimensions.
pub fn clear_grid(tiles: &mut Vec<Vec<Tile>>)
    ensures
        final(tiles)@.len() == old(tiles)@.len(),
        forall|r: int|
            0 <= r < old(tiles)@.len() ==> #[trigger] final(tiles)@[r]@.len() == old(
                tiles,
            )@[r]@.len(),
        forall|r: int, c: int|
            0 <= r < final(tiles)@.len() && 0 <= c < final(tiles)@[r]@.len()
                ==> #[trigger] final(tiles)@[r]@[c] == Tile::blank(),
{
    let ghost orig = tiles@;
    let mut r: usize = 0;
    while r < tiles.len()
        invariant
            r <= tiles@.len(),
            tiles@.len() == orig.len(),
            forall|i: int| 0 <= i < orig.len() ==> #[trigger] tiles@[i]@.len() == orig[i]@.len(),
            forall|i: int, c: int|
                0 <= i < r && 0 <= c < tiles@[i]@.len() ==> #[trigger] tiles@[i]@[c]
                    == Tile::blank(),
        decreases orig.len() - r,
    {
        let mut c: usize = 0;
        while c < tiles[r].len()
            invariant
                r < tiles@.len(),
                c <= tiles@[r as int]@.len(),
                tiles@.len() == orig.len(),
                forall|i: int| 0 <= i < orig.len() ==> #[trigger] tiles@[i]@.len() == orig[i]@.len(),
                forall|i: int, j: int|
                    0 <= i < r && 0 <= j < tiles@[i]@.len() ==> #[trigger] tiles@[i]@[j]
                        == Tile::blank(),
                forall|j: int| 0 <= j < c ==> #[trigger] tiles@[r as int]@[j] == Tile::blank(),
            decreases orig[r as int]@.len() - c,
        {
            tiles[r][c].flagged = false;
            tiles[r][c].visible = false;
            tiles[r][c].value = 0;
            c = c + 1;
        }
        r = r + 1;
    }
}

/// Sets the flag of the tile at `position`.
pub fn change_flag(tiles: &mut Vec<Vec<Tile>>, position: &Position, flag: bool)
    requires
        0 <= position.row < old(tiles)@.len(),
        0 <= position.col < old(tiles)@[position.row as int]@.len(),
    ensures
        grid_view(*final(tiles)) == ({
            let g = grid_view(*old(tiles));
            let (r, c) = (position.row as int, position.col as int);
            set_tile(g, r, c, Tile { flagged: flag, ..g[r][c] })
        }),
{
    let ghost g = grid_view(*tiles);
    tiles[position.row as usize][position.col as usize].flagged = flag;
    assert(grid_view(*tiles) =~= set_tile(
        g,
        position.row as int,
        position.col as int,
        Tile { flagged: flag, ..g[position.row as int][position.col as int] },
    ));
}

/// Sets the visibility of the tile at `position`; whether a mine was
/// uncovered is for the caller to read from the tile's value.
pub fn change_visibility(tiles: &mut Vec<Vec<Tile>>, position: &Position, visible: bool)
    requires
        0 <= position.row < old(tiles)@.len(),
        0 <= position.col < old(tiles)@[position.row as int]@.len(),
    ensures
        grid_view(*final(tiles)) == ({
            let g = grid_view(*old(tiles));
            let (r, c) = (position.row as int, position.col as int);
            set_tile(g, r, c, Tile { visible: visible, ..g[r][c] })
        }),
{
    let ghost g = grid_view(*tiles);
    tiles[position.row as usize][position.col as usize].visible = visible;
    assert(grid_view(*tiles) =~= set_tile(
        g,
        position.row as int,
        position.col as int,
        Tile { visible: visible, ..g[position.row as int][position.col as int] },
    ));
}

/// Whether the game is won: every tile is flagged or revealed and the
/// number of flags equals `mine_count`. Flags are not checked against mines.
pub fn check_win(game_config: &GameConfig, tiles: &Vec<Vec<Tile>>) -> (won: bool)
    requires
        game_config.wf(),
        shaped(*game_config, grid_view(*tiles)),
    ensures
        won == is_won(*game_config, grid_view(*tiles)),
{
    let ghost g = grid_view(*tiles);
    let ghost cols = game_config.col_count as int;
    let mut flags: usize = 0;
    let mut r: usize = 0;
    while r < tiles.len()
        invariant
            g == grid_view(*tiles),
            shaped(*game_config, g),
            game_config.wf(),
            cols == game_config.col_count,
            r <= g.len(),
            flags == flag_count(g.take(r as int)),
            all_resolved(g.take(r as int)),
        decreases g.len() - r,
    {
        let row = &tiles[r];
        let ghost gr = g[r as int];
        assert(row@ == gr);
        proof {
            let t = g.take(r as int);
            assert forall|i: int| 0 <= i < t.len() implies #[trigger] t[i].len() == cols by {
                assert(t[i] == g[i]);
            }
            lemma_flag_count_bound(t, cols);
            assert(r * cols + cols <= g.len() * cols) by (nonlinear_arith)
                requires
                    r < g.len(),
                    0 <= cols,
            ;
        }
        let mut c: usize = 0;
        while c < row.len()
            invariant
                g == grid_view(*tiles),
                row@ == gr,
                gr == g[r as int],
                shaped(*game_config, g),
                game_config.wf(),
                cols == game_config.col_count,
                r < g.len(),
                c <= gr.len(),
                flags == flag_count(g.take(r as int)) + row_flags(gr.take(c as int)),
                flag_count(g.take(r as int)) <= r * cols,
                r * cols + cols <= g.len() * cols,
                all_resolved(g.take(r as int)),
                forall|j: int| 0 <= j < c ==> #[trigger] gr[j].flagged || gr[j].visible,
            decreases gr.len() - c,
        {
            let tile = row[c];
            proof {
                assert(gr.take(c + 1) == gr.take(c as int).push(gr[c as int]));
                gr.take(c as int).lemma_filter_push(gr[c as int], |t: Tile| t.flagged);
                gr.take(c as int).lemma_filter_len(|t: Tile| t.flagged);
            }
            if tile.flagged {
                flags = flags + 1;
            } else if !tile.visible {
                assert(!all_resolved(g));
                return false;
            }
            c = c + 1;
        }
        proof {
            assert(gr.take(c as int) == gr);
            let t1 = g.take(r + 1);
            assert(t1.drop_last() == g.take(r as int));
            assert(t1.last() == gr);
            assert forall|i: int, j: int| 0 <= i < t1.len() && 0 <= j < t1[i].len()
                implies #[trigger] t1[i][j].flagged || t1[i][j].visible by {
                if i < r {
                    assert(t1[i] == g.take(r as int)[i]);
                }
            }
        }
        r = r + 1;
    }
    assert(g.take(r as int) == g);
    flags == game_config.mine_count
}

} // verus!
