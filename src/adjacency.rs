use vstd::prelude::*;

use crate::board::Position;
use crate::config::GameConfig;

verus! {

/// The eight directions around a tile, row by row, top-left first.
pub open spec fn offsets() -> Seq<(int, int)> {
    seq![(-1, -1), (-1, 0), (-1, 1), (0, -1), (0, 1), (1, -1), (1, 0), (1, 1)]
}

/// The eight coordinates around `(r, c)`, on the board or not, in the order of `offsets`.
pub open spec fn around(r: int, c: int) -> Seq<(int, int)> {
    offsets().map_values(|d: (int, int)| (r + d.0, c + d.1))
}

/// Two distinct coordinates that touch by an edge or a corner.
pub open spec fn adjacent(a: (int, int), b: (int, int)) -> bool {
    &&& a != b
    &&& -1 <= a.0 - b.0 <= 1
    &&& -1 <= a.1 - b.1 <= 1
}

/// Neighbors of `(r, c)` among the first `k` directions that lie on the board.
pub open spec fn neighbors_upto(cfg: GameConfig, r: int, c: int, k: int) -> Seq<(int, int)> {
    around(r, c).take(k).filter(|p: (int, int)| cfg.inside(p.0, p.1))
}

/// The neighbors of `(r, c)` on the board, in the order of `offsets`.
pub open spec fn neighbors(cfg: GameConfig, r: int, c: int) -> Seq<(int, int)> {
    neighbors_upto(cfg, r, c, 8)
}

/// How many values of `x` in `x - 1 ..= x + 1` lie in `0 .. n`, for `0 <= x < n`.
pub open spec fn span(x: int, n: int) -> int {
    1 + (if x > 0 { 1int } else { 0 }) + (if x < n - 1 { 1int } else { 0 })
}

/// How many of the first `k` directions around `(r, c)` stay on the board.
pub open spec fn inside_count(cfg: GameConfig, r: int, c: int, k: int) -> int
    decreases k,
{
    if k <= 0 {
        0
    } else {
        inside_count(cfg, r, c, k - 1) + if cfg.inside(around(r, c)[k - 1].0, around(r, c)[k - 1].1) {
            1int
        } else {
            0
        }
    }
}

proof fn lemma_around(r: int, c: int)
    ensures
        around(r, c).len() == 8,
        around(r, c)[0] == (r - 1, c - 1),
        around(r, c)[1] == (r - 1, c),
        around(r, c)[2] == (r - 1, c + 1),
        around(r, c)[3] == (r, c - 1),
        around(r, c)[4] == (r, c + 1),
        around(r, c)[5] == (r + 1, c - 1),
        around(r, c)[6] == (r + 1, c),
        around(r, c)[7] == (r + 1, c + 1),
{
    assert(offsets()[0] == (-1int, -1int));
    assert(offsets()[1] == (-1int, 0int));
    assert(offsets()[2] == (-1int, 1int));
    assert(offsets()[3] == (0int, -1int));
    assert(offsets()[4] == (0int, 1int));
    assert(offsets()[5] == (1int, -1int));
    assert(offsets()[6] == (1int, 0int));
    assert(offsets()[7] == (1int, 1int));
}

proof fn lemma_neighbors_upto(cfg: GameConfig, r: int, c: int, k: int)
    requires
        0 <= k <= 8,
    ensures
        neighbors_upto(cfg, r, c, k).len() == inside_count(cfg, r, c, k),
        neighbors_upto(cfg, r, c, k).no_duplicates(),
        forall|p: (int, int)| #[trigger]
            neighbors_upto(cfg, r, c, k).contains(p) ==> around(r, c).take(k).contains(p),
        forall|m: int|
            0 <= m < k && cfg.inside(around(r, c)[m].0, around(r, c)[m].1) ==> neighbors_upto(
                cfg,
                r,
                c,
                k,
            ).contains(#[trigger] around(r, c)[m]),
    decreases k,
{
    let pred = |p: (int, int)| cfg.inside(p.0, p.1);
    lemma_around(r, c);
    if k == 0 {
        assert(around(r, c).take(0) =~= Seq::<(int, int)>::empty());
        assert(neighbors_upto(cfg, r, c, 0) =~= Seq::<(int, int)>::empty()) by {
            reveal(Seq::filter);
        }
    } else {
        lemma_neighbors_upto(cfg, r, c, k - 1);
        let prev = around(r, c).take(k - 1);
        let x = around(r, c)[k - 1];
        assert(around(r, c).take(k) =~= prev.push(x));
        prev.lemma_filter_push(x, pred);
        let nb0 = neighbors_upto(cfg, r, c, k - 1);
        let nb = neighbors_upto(cfg, r, c, k);
        assert(!prev.contains(x)) by {
            if prev.contains(x) {
                let m = choose|m: int| 0 <= m < prev.len() && prev[m] == x;
                assert(prev[m] == around(r, c)[m]);
            }
        }
        assert forall|p: (int, int)| #[trigger] nb.contains(p) implies around(r, c).take(
            k,
        ).contains(p) by {
            if nb0.contains(p) {
                let m = choose|m: int| 0 <= m < prev.len() && prev[m] == p;
                assert(around(r, c).take(k)[m] == p);
            } else {
                assert(around(r, c).take(k)[k - 1] == p);
            }
        }
        if pred(x) {
            assert(!nb0.contains(x));
            assert forall|i: int, j: int| 0 <= i < nb.len() && 0 <= j < nb.len() && i != j
                implies nb[i] != nb[j] by {
                if i < nb0.len() && j < nb0.len() {
                } else if i == nb0.len() {
                    assert(nb0.contains(nb[j]));
                } else {
                    assert(nb0.contains(nb[i]));
                }
            }
            assert forall|m: int|
                0 <= m < k && cfg.inside(around(r, c)[m].0, around(r, c)[m].1) implies nb.contains(
                #[trigger] around(r, c)[m],
            ) by {
                if m < k - 1 {
                    assert(nb0.contains(around(r, c)[m]));
                    let j = choose|j: int| 0 <= j < nb0.len() && nb0[j] == around(r, c)[m];
                    assert(nb[j] == around(r, c)[m]);
                } else {
                    assert(nb[nb.len() - 1] == x);
                }
            }
        }
    }
}

/// Everything that is known of the neighbor list: each entry is on the board
/// and adjacent, every adjacent tile on the board is listed, none twice, and
/// the count is the product of the row and column spans minus the tile itself.
pub proof fn lemma_neighbors(cfg: GameConfig, r: int, c: int)
    requires
        cfg.inside(r, c),
    ensures
        neighbors(cfg, r, c).no_duplicates(),
        forall|i: int|
            0 <= i < neighbors(cfg, r, c).len() ==> cfg.inside(
                #[trigger] neighbors(cfg, r, c)[i].0,
                neighbors(cfg, r, c)[i].1,
            ) && adjacent((r, c), neighbors(cfg, r, c)[i]),
        forall|q: (int, int)|
            cfg.inside(q.0, q.1) && adjacent((r, c), q) ==> #[trigger] neighbors(
                cfg,
                r,
                c,
            ).contains(q),
        neighbors(cfg, r, c).len() == span(r, cfg.row_count as int) * span(c, cfg.col_count as int)
            - 1,
{
    let pred = |p: (int, int)| cfg.inside(p.0, p.1);
    lemma_around(r, c);
    lemma_neighbors_upto(cfg, r, c, 8);
    let nb = neighbors(cfg, r, c);
    assert(around(r, c).take(8) =~= around(r, c));
    assert forall|i: int| 0 <= i < nb.len() implies cfg.inside(
        #[trigger] nb[i].0,
        nb[i].1,
    ) && adjacent((r, c), nb[i]) by {
        around(r, c).lemma_filter_pred(pred, i);
        assert(nb.contains(nb[i]));
        let m = choose|m: int| 0 <= m < 8 && around(r, c)[m] == nb[i];
        assert(0 <= m < 8);
    }
    assert forall|q: (int, int)| cfg.inside(q.0, q.1) && adjacent((r, c), q) implies #[trigger] nb.contains(q) by {
        let m: int = if q.0 == r - 1 {
            if q.1 == c - 1 { 0 } else if q.1 == c { 1 } else { 2 }
        } else if q.0 == r {
            if q.1 == c - 1 { 3 } else { 4 }
        } else {
            if q.1 == c - 1 { 5 } else if q.1 == c { 6 } else { 7 }
        };
        assert(around(r, c)[m] == q);
    }
    reveal_with_fuel(inside_count, 9);
    let rs = span(r, cfg.row_count as int);
    let cs = span(c, cfg.col_count as int);
    assert(inside_count(cfg, r, c, 8) == rs * cs - 1) by (nonlinear_arith)
        requires
            inside_count(cfg, r, c, 8) == (if r > 0 && c > 0 { 1int } else { 0 }) + (if r > 0 {
                1int
            } else {
                0
            }) + (if r > 0 && c < cfg.col_count - 1 { 1int } else { 0 }) + (if c > 0 {
                1int
            } else {
                0
            }) + (if c < cfg.col_count - 1 { 1int } else { 0 }) + (if r < cfg.row_count - 1
                && c > 0 {
                1int
            } else {
                0
            }) + (if r < cfg.row_count - 1 { 1int } else { 0 }) + (if r < cfg.row_count - 1 && c
                < cfg.col_count - 1 {
                1int
            } else {
                0
            }),
            rs == 1 + (if r > 0 { 1int } else { 0 }) + (if r < cfg.row_count - 1 { 1int } else { 0 }),
            cs == 1 + (if c > 0 { 1int } else { 0 }) + (if c < cfg.col_count - 1 { 1int } else { 0 }),
    ;
}

/// Facts of the row-major index of a tile on the board.
pub proof fn lemma_index(cfg: GameConfig, r: int, c: int)
    requires
        cfg.wf(),
        cfg.inside(r, c),
    ensures
        0 <= cfg.index_of(r, c) < cfg.cell_count(),
        cfg.index_of(r, c) / (cfg.col_count as int) == r,
        cfg.index_of(r, c) % (cfg.col_count as int) == c,
{
    let cols = cfg.col_count as int;
    let rows = cfg.row_count as int;
    assert(0 <= r * cols + c < rows * cols) by (nonlinear_arith)
        requires
            0 <= r < rows,
            0 <= c < cols,
    ;
    vstd::arithmetic::div_mod::lemma_fundamental_div_mod_converse(r * cols + c, cols, r, c);
}

/// The tile of a linear index below the cell count lies on the board and
/// has that index.
pub proof fn lemma_position_of(cfg: GameConfig, i: int)
    requires
        cfg.wf(),
        0 <= i < cfg.cell_count(),
    ensures
        cfg.inside(i / (cfg.col_count as int), i % (cfg.col_count as int)),
        cfg.index_of(i / (cfg.col_count as int), i % (cfg.col_count as int)) == i,
{
    let rows = cfg.row_count as int;
    let n = cfg.col_count as int;
    assert(i / n < rows) by (nonlinear_arith)
        requires
            i < rows * n,
            0 <= i,
            n > 0,
    ;
    vstd::arithmetic::div_mod::lemma_fundamental_div_mod(i, n);
    vstd::arithmetic::mul::lemma_mul_is_commutative(i / n, n);
}

/// Row-major linear index of `position`.
pub fn position_to_index(game_config: &GameConfig, position: &Position) -> (index: usize)
    requires
        game_config.wf(),
        game_config.inside(position.row as int, position.col as int),
    ensures
        index == game_config.index_of(position.row as int, position.col as int),
{
    proof {
        lemma_index(*game_config, position.row as int, position.col as int);
    }
    position.row as usize * game_config.col_count + position.col as usize
}

/// The position of a row-major linear index.
pub fn index_to_position(game_config: &GameConfig, index: usize) -> (position: Position)
    requires
        game_config.wf(),
        index < game_config.cell_count(),
    ensures
        position.row == index / game_config.col_count,
        position.col == index % game_config.col_count,
        game_config.inside(position.row as int, position.col as int),
        game_config.index_of(position.row as int, position.col as int) == index,
{
    let cols = game_config.col_count;
    let row = index / cols;
    let col = index % cols;
    proof {
        let rows = game_config.row_count as int;
        let i = index as int;
        let n = cols as int;
        assert(i / n < rows) by (nonlinear_arith)
            requires
                i < rows * n,
                0 <= i,
                n > 0,
        ;
        vstd::arithmetic::div_mod::lemma_fundamental_div_mod(i, n);
        vstd::arithmetic::mul::lemma_mul_is_commutative(i / n, n);
    }
    Position { row: row as i32, col: col as i32 }
}

/// The direction of number `k` in `offsets`.
fn offset(k: usize) -> (d: (i32, i32))
    requires
        k < 8,
    ensures
        d.0 as int == offsets()[k as int].0,
        d.1 as int == offsets()[k as int].1,
{
    proof {
        lemma_around(0, 0);
    }
    match k {
        0 => (-1, -1),
        1 => (-1, 0),
        2 => (-1, 1),
        3 => (0, -1),
        4 => (0, 1),
        5 => (1, -1),
        6 => (1, 0),
        _ => (1, 1),
    }
}

/// Linear indices of the neighbors of `position`, in the order of `neighbors`.
pub fn surrounding_indices(game_config: &GameConfig, position: &Position) -> (indices: Vec<
    usize,
>)
    requires
        game_config.wf(),
        game_config.inside(position.row as int, position.col as int),
    ensures
        indices@.len() == neighbors(*game_config, position.row as int, position.col as int).len(),
        forall|k: int|
            0 <= k < indices@.len() ==> indices@[k] as int == game_config.index_of(
                #[trigger] neighbors(*game_config, position.row as int, position.col as int)[k].0,
                neighbors(*game_config, position.row as int, position.col as int)[k].1,
            ),
{
    let ghost r = position.row as int;
    let ghost c = position.col as int;
    let ghost pred = |p: (int, int)| game_config.inside(p.0, p.1);
    let rows = game_config.row_count as i64;
    let cols = game_config.col_count as i64;
    let mut indices: Vec<usize> = Vec::new();
    let mut k: usize = 0;
    while k < 8
        invariant
            game_config.wf(),
            game_config.inside(r, c),
            r == position.row,
            c == position.col,
            rows == game_config.row_count,
            cols == game_config.col_count,
            pred == (|p: (int, int)| game_config.inside(p.0, p.1)),
            k <= 8,
            indices@.len() == neighbors_upto(*game_config, r, c, k as int).len(),
            forall|j: int|
                0 <= j < indices@.len() ==> indices@[j] as int == game_config.index_of(
                    #[trigger] neighbors_upto(*game_config, r, c, k as int)[j].0,
                    neighbors_upto(*game_config, r, c, k as int)[j].1,
                ),
        decreases 8 - k,
    {
        let d = offset(k);
        let nr = position.row as i64 + d.0 as i64;
        let nc = position.col as i64 + d.1 as i64;
        proof {
            lemma_around(r, c);
            let prev = around(r, c).take(k as int);
            assert(around(r, c).take(k + 1) =~= prev.push(around(r, c)[k as int]));
            prev.lemma_filter_push(around(r, c)[k as int], pred);
            assert(around(r, c)[k as int] == (nr as int, nc as int));
        }
        if 0 <= nr && nr < rows && 0 <= nc && nc < cols {
            let index = position_to_index(game_config, &Position { row: nr as i32, col: nc as i32 });
            indices.push(index);
        }
        k = k + 1;
    }
    proof {
        assert(around(r, c).take(8) =~= around(r, c)) by {
            lemma_around(r, c);
        }
    }
    indices
}

} // verus!
