use vstd::prelude::*;

use crate::adjacency::{
    adjacent, index_to_position, lemma_index, lemma_neighbors, neighbors, position_to_index,
    surrounding_indices,
};
use crate::board::{grid_view, set_tile, shaped, Position, Tile};
use crate::config::{GameConfig, GameOver, MINE_VALUE};

verus! {

/// A chain of reveals on `g`: every step moves to an adjacent tile on the
/// board, every tile it leaves holds 0, and every tile it enters is hidden
/// and unflagged.
pub open spec fn flood_path(cfg: GameConfig, g: Seq<Seq<Tile>>, path: Seq<(int, int)>) -> bool {
    &&& path.len() >= 2
    &&& forall|i: int| 0 <= i < path.len() ==> cfg.inside(#[trigger] path[i].0, path[i].1)
    &&& forall|i: int|
        0 <= i < path.len() - 1 ==> adjacent(#[trigger] path[i], path[i + 1]) && g[path[i].0][path[i].1].value
            == 0
    &&& forall|i: int|
        1 <= i < path.len() ==> !g[(#[trigger] path[i]).0][path[i].1].flagged
            && !g[path[i].0][path[i].1].visible
}

/// A flood fill from `s` on `g` reveals `q`.
pub open spec fn flood_reaches(cfg: GameConfig, g: Seq<Seq<Tile>>, s: (int, int), q: (int, int)) -> bool {
    exists|path: Seq<(int, int)>| #[trigger] flood_path(cfg, g, path) && path[0] == s && path.last() == q
}

/// `g` after a flood fill from `s`: the tiles that it reaches become visible,
/// nothing else changes.
pub open spec fn flooded(cfg: GameConfig, g: Seq<Seq<Tile>>, s: (int, int)) -> Seq<Seq<Tile>> {
    Seq::new(
        g.len(),
        |r: int|
            Seq::new(
                g[r].len(),
                |c: int| Tile { visible: g[r][c].visible || flood_reaches(cfg, g, s, (r, c)), ..g[r][c] },
            ),
    )
}

/// Number of flagged neighbors of `(r, c)`.
pub open spec fn flagged_neighbors(cfg: GameConfig, g: Seq<Seq<Tile>>, r: int, c: int) -> int {
    neighbors(cfg, r, c).filter(|q: (int, int)| g[q.0][q.1].flagged).len() as int
}

/// A chord reveal over the entries of `nb` from number `k` on: each hidden
/// unflagged one becomes visible; a mine ends it with a hit, and a zero
/// floods from there. Returns the board and whether a mine was hit.
pub open spec fn chord_from(cfg: GameConfig, g: Seq<Seq<Tile>>, nb: Seq<(int, int)>, k: int) -> (
    Seq<Seq<Tile>>,
    bool,
)
    decreases nb.len() - k,
{
    if k < 0 || k >= nb.len() {
        (g, false)
    } else {
        let q = nb[k];
        let t = g[q.0][q.1];
        if t.flagged || t.visible {
            chord_from(cfg, g, nb, k + 1)
        } else {
            let g1 = set_tile(g, q.0, q.1, Tile { visible: true, ..t });
            if t.value == MINE_VALUE {
                (g1, true)
            } else if t.value == 0 {
                chord_from(cfg, flooded(cfg, g1, q), nb, k + 1)
            } else {
                chord_from(cfg, g1, nb, k + 1)
            }
        }
    }
}

/// What `expand_selection` at `(r, c)` does to `g`, and whether it hits a
/// mine: a zero tile floods; a numbered tile whose flagged neighbors match
/// its number chords; anything else leaves the board as it is.
pub open spec fn expansion(cfg: GameConfig, g: Seq<Seq<Tile>>, r: int, c: int) -> (
    Seq<Seq<Tile>>,
    bool,
) {
    let v = g[r][c].value;
    if v == 0 {
        (flooded(cfg, g, (r, c)), false)
    } else if v > 0 && flagged_neighbors(cfg, g, r, c) == v {
        chord_from(cfg, g, neighbors(cfg, r, c), 0)
    } else {
        (g, false)
    }
}

/// `g` differs from `g0` only in tiles that became visible.
spec fn only_revealed(cfg: GameConfig, g0: Seq<Seq<Tile>>, g: Seq<Seq<Tile>>) -> bool {
    &&& shaped(cfg, g)
    &&& forall|r: int, c: int|
        cfg.inside(r, c) ==> {
            &&& (#[trigger] g[r][c]).value == g0[r][c].value
            &&& g[r][c].flagged == g0[r][c].flagged
            &&& (g0[r][c].visible ==> g[r][c].visible)
        }
}

/// Every unflagged tile next to `p` is visible in `g`.
spec fn closed_at(cfg: GameConfig, g: Seq<Seq<Tile>>, p: (int, int)) -> bool {
    forall|q: (int, int)|
        cfg.inside(q.0, q.1) && adjacent(p, q) && !g[q.0][q.1].flagged ==> (#[trigger] g[q.0][q.1]).visible
}

/// A tile from which the fill spreads: the start or a tile it revealed, holding 0.
spec fn spreads(g0: Seq<Seq<Tile>>, g: Seq<Seq<Tile>>, s: (int, int), p: (int, int)) -> bool {
    &&& p == s || (g[p.0][p.1].visible && !g0[p.0][p.1].visible)
    &&& g0[p.0][p.1].value == 0
}

spec fn pos(p: Position) -> (int, int) {
    (p.row as int, p.col as int)
}

proof fn lemma_path_visible(
    cfg: GameConfig,
    g0: Seq<Seq<Tile>>,
    g: Seq<Seq<Tile>>,
    s: (int, int),
    path: Seq<(int, int)>,
    i: int,
)
    requires
        flood_path(cfg, g0, path),
        path[0] == s,
        only_revealed(cfg, g0, g),
        forall|p: (int, int)|
            cfg.inside(p.0, p.1) && #[trigger] spreads(g0, g, s, p) ==> closed_at(cfg, g, p),
        1 <= i < path.len(),
    ensures
        g[path[i].0][path[i].1].visible,
    decreases i,
{
    let q = path[i];
    let p = path[i - 1];
    assert(cfg.inside(q.0, q.1));
    assert(cfg.inside(p.0, p.1));
    assert(adjacent(path[i - 1], path[i - 1 + 1]));
    if i > 1 {
        lemma_path_visible(cfg, g0, g, s, path, i - 1);
        assert(!g0[path[i - 1].0][path[i - 1].1].visible);
    }
    assert(spreads(g0, g, s, p));
    assert(!g[q.0][q.1].flagged);
}

/// Reveals, from the zero tile at `start`, every hidden unflagged tile that a
/// chain of zero tiles leads to.
fn flood_fill(game_config: &GameConfig, start: &Position, tiles: &mut Vec<Vec<Tile>>)
    requires
        game_config.wf(),
        shaped(*game_config, grid_view(*old(tiles))),
        game_config.inside(start.row as int, start.col as int),
        grid_view(*old(tiles))[start.row as int][start.col as int].value == 0,
    ensures
        grid_view(*final(tiles)) == flooded(*game_config, grid_view(*old(tiles)), pos(*start)),
        shaped(*game_config, grid_view(*final(tiles))),
{
    let ghost cfg = *game_config;
    let ghost g0 = grid_view(*tiles);
    let ghost s = pos(*start);
    let ghost cells = cfg.cell_count();
    let ghost mut seen: Set<int> = Set::empty();
    let mut stack: Vec<Position> = Vec::new();
    stack.push(*start);
    proof {
        assert(stack@[0] == *start);
        assert(Position { row: s.0 as i32, col: s.1 as i32 } == *start);
    }
    while stack.len() > 0
        invariant
            cfg == *game_config,
            cfg.wf(),
            cells == cfg.cell_count(),
            shaped(cfg, g0),
            cfg.inside(s.0, s.1),
            g0[s.0][s.1].value == 0,
            only_revealed(cfg, g0, grid_view(*tiles)),
            forall|r: int, c: int|
                cfg.inside(r, c) && (#[trigger] grid_view(*tiles)[r][c]).visible
                    && !g0[r][c].visible ==> flood_reaches(cfg, g0, s, (r, c)),
            forall|k: int|
                0 <= k < stack@.len() ==> cfg.inside(#[trigger] stack@[k].row as int, stack@[k].col as int)
                    && spreads(g0, grid_view(*tiles), s, pos(stack@[k])),
            forall|p: (int, int)|
                cfg.inside(p.0, p.1) && #[trigger] spreads(g0, grid_view(*tiles), s, p)
                    && !stack@.contains(Position { row: p.0 as i32, col: p.1 as i32 }) ==> closed_at(
                    cfg,
                    grid_view(*tiles),
                    p,
                ),
            seen.finite(),
            forall|i: int| #[trigger] seen.contains(i) ==> 0 <= i < cells,
            forall|r: int, c: int|
                cfg.inside(r, c) && seen.contains(#[trigger] cfg.index_of(r, c))
                    ==> grid_view(*tiles)[r][c].visible,
            seen.len() <= cells,
        decreases 2 * (cells - seen.len()) + stack@.len(),
    {
        let ghost stack_old = stack@;
        let p = stack.pop().unwrap();
        let ghost pp = pos(p);
        proof {
            assert(stack_old == stack@.push(p));
            assert(stack_old[stack_old.len() - 1] == p);
            let g = grid_view(*tiles);
            assert forall|q: (int, int)|
                cfg.inside(q.0, q.1) && #[trigger] spreads(g0, g, s, q) && q != pp
                    && !stack@.contains(Position { row: q.0 as i32, col: q.1 as i32 })
                    implies closed_at(cfg, g, q) by {
                let pq = Position { row: q.0 as i32, col: q.1 as i32 };
                if stack_old.contains(pq) {
                    let i = choose|i: int| 0 <= i < stack_old.len() && stack_old[i] == pq;
                    if i < stack@.len() {
                        assert(stack@[i] == pq);
                    } else {
                        assert(pq == p);
                    }
                }
            }
        }
        let ghost m0 = 2 * (cells - seen.len()) + stack@.len();
        let nbrs = surrounding_indices(game_config, &p);
        let ghost nb = neighbors(cfg, pp.0, pp.1);
        proof {
            lemma_neighbors(cfg, pp.0, pp.1);
        }
        let mut k: usize = 0;
        while k < nbrs.len()
            invariant
                cfg == *game_config,
                cfg.wf(),
                cells == cfg.cell_count(),
                shaped(cfg, g0),
                cfg.inside(s.0, s.1),
                g0[s.0][s.1].value == 0,
                cfg.inside(pp.0, pp.1),
                spreads(g0, grid_view(*tiles), s, pp),
                nb == neighbors(cfg, pp.0, pp.1),
                nbrs@.len() == nb.len(),
                forall|m: int|
                    0 <= m < nbrs@.len() ==> nbrs@[m] as int == cfg.index_of(
                        #[trigger] nb[m].0,
                        nb[m].1,
                    ),
                forall|m: int|
                    0 <= m < nb.len() ==> cfg.inside(#[trigger] nb[m].0, nb[m].1) && adjacent(
                        pp,
                        nb[m],
                    ),
                k <= nbrs@.len(),
                only_revealed(cfg, g0, grid_view(*tiles)),
                forall|r: int, c: int|
                    cfg.inside(r, c) && (#[trigger] grid_view(*tiles)[r][c]).visible
                        && !g0[r][c].visible ==> flood_reaches(cfg, g0, s, (r, c)),
                forall|j: int|
                    0 <= j < stack@.len() ==> cfg.inside(
                        #[trigger] stack@[j].row as int,
                        stack@[j].col as int,
                    ) && spreads(g0, grid_view(*tiles), s, pos(stack@[j])),
                forall|q: (int, int)|
                    cfg.inside(q.0, q.1) && #[trigger] spreads(g0, grid_view(*tiles), s, q) && q != pp
                        && !stack@.contains(Position { row: q.0 as i32, col: q.1 as i32 })
                        ==> closed_at(cfg, grid_view(*tiles), q),
                forall|m: int|
                    0 <= m < k && !grid_view(*tiles)[nb[m].0][nb[m].1].flagged ==> grid_view(
                        *tiles,
                    )[(#[trigger] nb[m]).0][nb[m].1].visible,
                seen.finite(),
                forall|i: int| #[trigger] seen.contains(i) ==> 0 <= i < cells,
                forall|r: int, c: int|
                    cfg.inside(r, c) && seen.contains(#[trigger] cfg.index_of(r, c))
                        ==> grid_view(*tiles)[r][c].visible,
                seen.len() <= cells,
                2 * (cells - seen.len()) + stack@.len() <= m0,
            decreases nbrs@.len() - k,
        {
            let j = nbrs[k];
            let ghost g_step = grid_view(*tiles);
            let ghost stack_step = stack@;
            proof {
                lemma_index(cfg, nb[k as int].0, nb[k as int].1);
            }
            let q = index_to_position(game_config, j);
            let ghost qq = pos(q);
            assert(qq == nb[k as int]);
            let qr = q.row as usize;
            let qc = q.col as usize;
            proof {
                assert(tiles@[qr as int]@ == grid_view(*tiles)[qr as int]);
                assert(grid_view(*tiles)[qr as int].len() == cfg.col_count);
            }
            if !tiles[qr][qc].flagged && !tiles[qr][qc].visible {
                let ghost g_before = grid_view(*tiles);
                tiles[qr][qc].visible = true;
                proof {
                    let g = grid_view(*tiles);
                    assert(g =~= set_tile(
                        g_before,
                        qq.0,
                        qq.1,
                        Tile { visible: true, ..g_before[qq.0][qq.1] },
                    ));
                    // the newly revealed tile is reached through `pp`
                    if pp == s {
                        let path = seq![s, qq];
                        assert(path[0] == s);
                        assert(path[1] == qq);
                        assert(flood_path(cfg, g0, path));
                        assert(path.last() == qq);
                    } else {
                        let path0 = choose|path: Seq<(int, int)>|
                            #[trigger] flood_path(cfg, g0, path) && path[0] == s && path.last() == pp;
                        let path = path0.push(qq);
                        assert(path[path.len() - 1] == qq);
                        assert(path[path.len() - 2] == pp);
                        assert forall|i: int| 0 <= i < path.len() - 1 implies adjacent(
                            #[trigger] path[i],
                            path[i + 1],
                        ) && g0[path[i].0][path[i].1].value == 0 by {
                            if i < path.len() - 2 {
                                assert(path[i] == path0[i]);
                                assert(path[i + 1] == path0[i + 1]);
                            }
                        }
                        assert forall|i: int| 1 <= i < path.len() implies !g0[(#[trigger] path[i]).0][path[i].1].flagged
                            && !g0[path[i].0][path[i].1].visible by {
                            if i < path.len() - 1 {
                                assert(path[i] == path0[i]);
                            }
                        }
                        assert forall|i: int| 0 <= i < path.len() implies cfg.inside(
                            #[trigger] path[i].0,
                            path[i].1,
                        ) by {
                            if i < path.len() - 1 {
                                assert(path[i] == path0[i]);
                            }
                        }
                        assert(flood_path(cfg, g0, path));
                        assert(path[0] == s);
                    }
                    assert(flood_reaches(cfg, g0, s, qq));
                    assert(!seen.contains(j as int));
                    assert forall|r: int, c: int|
                        cfg.inside(r, c) && seen.insert(j as int).contains(
                            #[trigger] cfg.index_of(r, c),
                        ) implies g[r][c].visible by {
                        lemma_index(cfg, r, c);
                        lemma_index(cfg, qq.0, qq.1);
                    }
                    seen = seen.insert(j as int);
                    vstd::set_lib::lemma_int_range(0, cells);
                    vstd::set_lib::lemma_len_subset(seen, vstd::set_lib::set_int_range(0, cells));
                }
                if tiles[qr][qc].value == 0 {
                    stack.push(q);
                }
            }
            proof {
                let g = grid_view(*tiles);
                assert forall|q2: (int, int)|
                    cfg.inside(q2.0, q2.1) && #[trigger] spreads(g0, g, s, q2) && q2 != pp
                        && !stack@.contains(Position { row: q2.0 as i32, col: q2.1 as i32 })
                        implies closed_at(cfg, g, q2) by {
                    let pq = Position { row: q2.0 as i32, col: q2.1 as i32 };
                    if q2 == qq && !g_step[qq.0][qq.1].visible && !g_step[qq.0][qq.1].flagged {
                        assert(g[qq.0][qq.1].value == 0);
                        assert(stack@[stack@.len() - 1] == q);
                        assert(stack@.contains(q));
                        assert(pq == q);
                    } else {
                        assert(spreads(g0, g_step, s, q2));
                        assert(!stack_step.contains(pq)) by {
                            if stack_step.contains(pq) {
                                let i = choose|i: int| 0 <= i < stack_step.len() && stack_step[i] == pq;
                                assert(stack@[i] == pq);
                            }
                        }
                        assert(closed_at(cfg, g_step, q2));
                        assert forall|q3: (int, int)|
                            cfg.inside(q3.0, q3.1) && adjacent(q2, q3) && !g[q3.0][q3.1].flagged
                            implies (#[trigger] g[q3.0][q3.1]).visible by {
                            assert(g_step[q3.0][q3.1].visible);
                        }
                    }
                }
            }
            k = k + 1;
        }
        proof {
            let g = grid_view(*tiles);
            assert forall|q: (int, int)|
                cfg.inside(q.0, q.1) && adjacent(pp, q) && !g[q.0][q.1].flagged implies (#[trigger] g[q.0][q.1]).visible by {
                assert(nb.contains(q));
                let m = choose|m: int| 0 <= m < nb.len() && nb[m] == q;
                assert(nb[m] == q);
            }
            assert(closed_at(cfg, g, pp));
        }
    }
    proof {
        let g = grid_view(*tiles);
        assert forall|r: int, c: int| 0 <= r < g.len() && 0 <= c < g[r].len() implies #[trigger] g[r][c]
            == flooded(cfg, g0, s)[r][c] by {
            assert(cfg.inside(r, c));
            if flood_reaches(cfg, g0, s, (r, c)) {
                let path = choose|path: Seq<(int, int)>|
                    #[trigger] flood_path(cfg, g0, path) && path[0] == s && path.last() == (r, c);
                lemma_path_visible(cfg, g0, g, s, path, path.len() - 1);
            }
        }
        assert(g =~~= flooded(cfg, g0, s));
    }
}

/// Reveals around `position`. On a zero tile it floods: every hidden,
/// unflagged tile that a chain of zero tiles leads to becomes visible. On a
/// numbered tile whose flagged neighbors match its number it chords: each
/// hidden unflagged neighbor becomes visible, in the order of `neighbors`,
/// zeros flood from there, and the first mine stops it with `Some(GameOver)`.
/// Otherwise nothing changes. Tile values and flags are never altered.
#[must_use]
pub fn expand_selection(
    game_config: &GameConfig,
    position: &Position,
    tiles: &mut Vec<Vec<Tile>>,
) -> (outcome: Option<GameOver>)
    requires
        game_config.wf(),
        shaped(*game_config, grid_view(*old(tiles))),
        game_config.inside(position.row as int, position.col as int),
    ensures
        grid_view(*final(tiles)) == expansion(
            *game_config,
            grid_view(*old(tiles)),
            position.row as int,
            position.col as int,
        ).0,
        outcome is Some <==> expansion(
            *game_config,
            grid_view(*old(tiles)),
            position.row as int,
            position.col as int,
        ).1,
{
    let ghost cfg = *game_config;
    let ghost g0 = grid_view(*tiles);
    let ghost (r, c) = (position.row as int, position.col as int);
    let row = position.row as usize;
    let col = position.col as usize;
    proof {
        assert(tiles@[row as int]@ == g0[r]);
    }
    let value = tiles[row][col].value;
    if value == 0 {
        flood_fill(game_config, position, tiles);
        return None;
    }
    let around = surrounding_indices(game_config, position);
    let ghost nb = neighbors(cfg, r, c);
    let ghost fp = |q: (int, int)| g0[q.0][q.1].flagged;
    proof {
        lemma_neighbors(cfg, r, c);
    }
    let mut flags: usize = 0;
    let mut k: usize = 0;
    while k < around.len()
        invariant
            cfg == *game_config,
            cfg.wf(),
            g0 == grid_view(*tiles),
            shaped(cfg, g0),
            nb == neighbors(cfg, r, c),
            fp == (|q: (int, int)| g0[q.0][q.1].flagged),
            around@.len() == nb.len(),
            nb.len() <= 8,
            forall|m: int|
                0 <= m < around@.len() ==> around@[m] as int == cfg.index_of(
                    #[trigger] nb[m].0,
                    nb[m].1,
                ),
            forall|m: int| 0 <= m < nb.len() ==> cfg.inside(#[trigger] nb[m].0, nb[m].1),
            k <= around@.len(),
            flags == nb.take(k as int).filter(fp).len(),
        decreases around@.len() - k,
    {
        proof {
            lemma_index(cfg, nb[k as int].0, nb[k as int].1);
            assert(nb.take(k + 1) == nb.take(k as int).push(nb[k as int]));
            nb.take(k as int).lemma_filter_push(nb[k as int], fp);
            nb.take(k as int).lemma_filter_len(fp);
        }
        let q = index_to_position(game_config, around[k]);
        proof {
            assert(tiles@[q.row as int]@ == g0[q.row as int]);
        }
        if tiles[q.row as usize][q.col as usize].flagged {
            flags = flags + 1;
        }
        k = k + 1;
    }
    proof {
        assert(nb.take(k as int) == nb);
    }
    if value > 0 && flags == value as usize {
        assert(expansion(cfg, g0, r, c) == chord_from(cfg, g0, nb, 0));
        let mut k: usize = 0;
        while k < around.len()
            invariant
                cfg == *game_config,
                cfg.wf(),
                shaped(cfg, grid_view(*tiles)),
                nb == neighbors(cfg, r, c),
                around@.len() == nb.len(),
                forall|m: int|
                    0 <= m < around@.len() ==> around@[m] as int == cfg.index_of(
                        #[trigger] nb[m].0,
                        nb[m].1,
                    ),
                forall|m: int| 0 <= m < nb.len() ==> cfg.inside(#[trigger] nb[m].0, nb[m].1),
                k <= around@.len(),
                chord_from(cfg, g0, nb, 0) == chord_from(cfg, grid_view(*tiles), nb, k as int),
                expansion(cfg, g0, r, c) == chord_from(cfg, g0, nb, 0),
                g0 == grid_view(*old(tiles)),
                r == position.row as int,
                c == position.col as int,
            decreases around@.len() - k,
        {
            proof {
                lemma_index(cfg, nb[k as int].0, nb[k as int].1);
            }
            let q = index_to_position(game_config, around[k]);
            let qr = q.row as usize;
            let qc = q.col as usize;
            let ghost g = grid_view(*tiles);
            proof {
                assert(tiles@[qr as int]@ == g[qr as int]);
                assert(g[qr as int].len() == cfg.col_count);
            }
            if !tiles[qr][qc].flagged && !tiles[qr][qc].visible {
                tiles[qr][qc].visible = true;
                let ghost t = g[qr as int][qc as int];
                proof {
                    assert(grid_view(*tiles) =~= set_tile(
                        g,
                        qr as int,
                        qc as int,
                        Tile { visible: true, ..t },
                    ));
                }
                if tiles[qr][qc].value == MINE_VALUE {
                    proof {
                        assert(pos(q) == nb[k as int]);
                        assert(chord_from(cfg, g, nb, k as int) == (grid_view(*tiles), true));
                    }
                    return Some(GameOver);
                }
                if tiles[qr][qc].value == 0 {
                    flood_fill(game_config, &q, tiles);
                }
            }
            k = k + 1;
        }
    }
    None
}

} // verus!
