use vstd::prelude::*;

use crate::adjacency::{adjacent, lemma_neighbors, neighbors, span};
use crate::board::{all_resolved, flag_count, is_blank, is_won, row_flags, set_tile, shaped, Tile};
use crate::mines::mine_positions;
use crate::config::{GameConfig, MINE_VALUE};
use crate::expand::{chord_from, expansion, flagged_neighbors, flood_path, flood_reaches, flooded};

verus! {

/// On a board of at least 3x3, a corner has 3 neighbors, a tile on an edge
/// but not in a corner has 5, and an interior tile has 8.
pub proof fn lemma_adjacency_cardinality(cfg: GameConfig, r: int, c: int)
    requires
        cfg.row_count >= 3,
        cfg.col_count >= 3,
        cfg.inside(r, c),
    ensures
        (r == 0 || r == cfg.row_count - 1) && (c == 0 || c == cfg.col_count - 1) ==> neighbors(
            cfg,
            r,
            c,
        ).len() == 3,
        ((r == 0 || r == cfg.row_count - 1) != (c == 0 || c == cfg.col_count - 1)) ==> neighbors(
            cfg,
            r,
            c,
        ).len() == 5,
        0 < r < cfg.row_count - 1 && 0 < c < cfg.col_count - 1 ==> neighbors(cfg, r, c).len() == 8,
{
    lemma_neighbors(cfg, r, c);
    let rs = span(r, cfg.row_count as int);
    let cs = span(c, cfg.col_count as int);
    assert(rs == 2 || rs == 3);
    assert(cs == 2 || cs == 3);
    assert(rs * cs == if rs == 2 {
        if cs == 2 {
            4int
        } else {
            6int
        }
    } else {
        if cs == 2 {
            6int
        } else {
            9int
        }
    }) by (nonlinear_arith)
        requires
            rs == 2 || rs == 3,
            cs == 2 || cs == 3,
    ;
}

/// A freshly created board is never won when mines are expected.
pub proof fn lemma_fresh_board_not_won(cfg: GameConfig, g: Seq<Seq<Tile>>)
    requires
        cfg.wf(),
        cfg.mine_count > 0,
        is_blank(cfg, g),
    ensures
        !is_won(cfg, g),
{
    assert(cfg.inside(0, 0));
    assert(g[0][0] == Tile::blank());
    assert(0 < g[0].len());
    assert(!(g[0][0].flagged || g[0][0].visible));
    assert(!all_resolved(g));
}

/// Chebyshev distance between two coordinates.
spec fn distance(a: (int, int), b: (int, int)) -> nat {
    let dr = if a.0 >= b.0 { a.0 - b.0 } else { b.0 - a.0 };
    let dc = if a.1 >= b.1 { a.1 - b.1 } else { b.1 - a.1 };
    (if dr >= dc { dr } else { dc }) as nat
}

/// Every tile of the board holds 0, carries no flag, and all but `s` are hidden.
spec fn empty_hidden(cfg: GameConfig, g: Seq<Seq<Tile>>, s: (int, int)) -> bool {
    forall|r: int, c: int|
        cfg.inside(r, c) ==> {
            &&& (#[trigger] g[r][c]).value == 0
            &&& !g[r][c].flagged
            &&& (r, c) != s ==> !g[r][c].visible
        }
}

proof fn lemma_reach_all(cfg: GameConfig, g: Seq<Seq<Tile>>, s: (int, int), q: (int, int))
    requires
        cfg.inside(s.0, s.1),
        cfg.inside(q.0, q.1),
        q != s,
        empty_hidden(cfg, g, s),
    ensures
        flood_reaches(cfg, g, s, q),
    decreases distance(s, q),
{
    if adjacent(s, q) {
        let path = seq![s, q];
        assert(path[1] == q);
        assert(flood_path(cfg, g, path));
    } else {
        let step = |x: int, y: int| if x < y { x + 1 } else if x > y { x - 1 } else { x };
        let p = (step(q.0, s.0), step(q.1, s.1));
        assert(distance(s, p) < distance(s, q));
        lemma_reach_all(cfg, g, s, p);
        let path0 = choose|path: Seq<(int, int)>|
            #[trigger] flood_path(cfg, g, path) && path[0] == s && path.last() == p;
        let path = path0.push(q);
        assert(path[path.len() - 1] == q);
        assert(path[path.len() - 2] == p);
        assert forall|i: int| 0 <= i < path.len() - 1 implies adjacent(#[trigger] path[i], path[i + 1])
            && g[path[i].0][path[i].1].value == 0 by {
            if i < path.len() - 2 {
                assert(path[i] == path0[i]);
                assert(path[i + 1] == path0[i + 1]);
            }
        }
        assert forall|i: int| 1 <= i < path.len() implies !g[(#[trigger] path[i]).0][path[i].1].flagged
            && !g[path[i].0][path[i].1].visible by {
            if i < path.len() - 1 {
                assert(path[i] == path0[i]);
            }
        }
        assert forall|i: int| 0 <= i < path.len() implies cfg.inside(#[trigger] path[i].0, path[i].1) by {
            if i < path.len() - 1 {
                assert(path[i] == path0[i]);
            }
        }
        assert(flood_path(cfg, g, path));
    }
}

/// On a board without mines, flags or revealed tiles, revealing any tile
/// (shown or not) floods the whole board and hits nothing.
pub proof fn lemma_flood_clears_empty_board(cfg: GameConfig, g: Seq<Seq<Tile>>, r: int, c: int)
    requires
        cfg.wf(),
        shaped(cfg, g),
        cfg.inside(r, c),
        forall|a: int, b: int|
            cfg.inside(a, b) ==> {
                &&& (#[trigger] g[a][b]).value == 0
                &&& !g[a][b].flagged
                &&& (a, b) != (r, c) ==> !g[a][b].visible
            },
    ensures
        !expansion(cfg, g, r, c).1,
        forall|a: int, b: int| cfg.inside(a, b) ==> (#[trigger] expansion(cfg, g, r, c).0[a][b]).visible,
{
    let s = (r, c);
    assert(empty_hidden(cfg, g, s));
    let f = flooded(cfg, g, s);
    assert forall|a: int, b: int| cfg.inside(a, b) implies (#[trigger] f[a][b]).visible by {
        if (a, b) != s {
            lemma_reach_all(cfg, g, s, (a, b));
        } else if !g[a][b].visible {
            // leave the start and come back to it
            let n = if r + 1 < cfg.row_count { (r + 1, c) } else { (r - 1, c) };
            lemma_reach_all(cfg, g, s, n);
            let path = seq![s, n, s];
            assert(path[1] == n && path[2] == s);
            assert(flood_path(cfg, g, path));
            assert(flood_reaches(cfg, g, s, s));
        }
    }
}

/// `g2` keeps the shape, values and flags of `g` and shows all it shows.
spec fn keeps(cfg: GameConfig, g: Seq<Seq<Tile>>, g2: Seq<Seq<Tile>>) -> bool {
    &&& shaped(cfg, g2)
    &&& forall|a: int, b: int|
        cfg.inside(a, b) ==> {
            &&& (#[trigger] g2[a][b]).value == g[a][b].value
            &&& g2[a][b].flagged == g[a][b].flagged
            &&& (g[a][b].visible ==> g2[a][b].visible)
        }
}

proof fn lemma_chord_from(cfg: GameConfig, g: Seq<Seq<Tile>>, nb: Seq<(int, int)>, k: int)
    requires
        shaped(cfg, g),
        0 <= k,
        forall|j: int| 0 <= j < nb.len() ==> cfg.inside(#[trigger] nb[j].0, nb[j].1),
        forall|j: int|
            k <= j < nb.len() && !g[nb[j].0][nb[j].1].flagged ==> (#[trigger] g[nb[j].0][nb[j].1]).value
                != MINE_VALUE,
    ensures
        !chord_from(cfg, g, nb, k).1,
        keeps(cfg, g, chord_from(cfg, g, nb, k).0),
        forall|j: int|
            k <= j < nb.len() && !g[nb[j].0][nb[j].1].flagged ==> (#[trigger] chord_from(
                cfg,
                g,
                nb,
                k,
            ).0[nb[j].0][nb[j].1]).visible,
    decreases nb.len() - k,
{
    if k < nb.len() {
        let q = nb[k];
        let t = g[q.0][q.1];
        assert(cfg.inside(q.0, q.1));
        let next = if t.flagged || t.visible {
            g
        } else {
            let g1 = set_tile(g, q.0, q.1, Tile { visible: true, ..t });
            if t.value == 0 {
                flooded(cfg, g1, q)
            } else {
                g1
            }
        };
        assert(keeps(cfg, g, next)) by {
            if !(t.flagged || t.visible) {
                let g1 = set_tile(g, q.0, q.1, Tile { visible: true, ..t });
                assert forall|r: int| 0 <= r < g1.len() implies #[trigger] g1[r].len() == cfg.col_count by {
                    assert(g[r].len() == cfg.col_count);
                }
                assert(keeps(cfg, g, g1));
                if t.value == 0 {
                    let f = flooded(cfg, g1, q);
                    assert forall|r: int| 0 <= r < f.len() implies #[trigger] f[r].len() == cfg.col_count by {
                        assert(g1[r].len() == cfg.col_count);
                    }
                }
            }
        }
        assert(!t.flagged ==> next[q.0][q.1].visible);
        assert(chord_from(cfg, g, nb, k) == chord_from(cfg, next, nb, k + 1));
        lemma_chord_from(cfg, next, nb, k + 1);
        let fin = chord_from(cfg, next, nb, k + 1).0;
        assert forall|j: int|
            k <= j < nb.len() && !g[nb[j].0][nb[j].1].flagged implies (#[trigger] fin[nb[j].0][nb[j].1]).visible by {
            assert(cfg.inside(nb[j].0, nb[j].1));
            if j > k {
                assert(next[nb[j].0][nb[j].1].flagged == g[nb[j].0][nb[j].1].flagged);
            }
        }
    }
}

/// A chord on a numbered tile whose flagged neighbors match its number,
/// with every mine around it flagged, shows every unflagged neighbor and
/// hits nothing; when the flags do not match its number, nothing changes.
pub proof fn lemma_chord_reveal(cfg: GameConfig, g: Seq<Seq<Tile>>, r: int, c: int)
    requires
        cfg.wf(),
        shaped(cfg, g),
        cfg.inside(r, c),
        g[r][c].value > 0,
    ensures
        flagged_neighbors(cfg, g, r, c) != g[r][c].value ==> expansion(cfg, g, r, c) == (g, false),
        flagged_neighbors(cfg, g, r, c) == g[r][c].value && (forall|q: (int, int)|
            cfg.inside(q.0, q.1) && adjacent((r, c), q) && !g[q.0][q.1].flagged
                ==> #[trigger] g[q.0][q.1].value != MINE_VALUE) ==> {
            &&& !expansion(cfg, g, r, c).1
            &&& forall|q: (int, int)|
                cfg.inside(q.0, q.1) && adjacent((r, c), q) && !g[q.0][q.1].flagged
                    ==> (#[trigger] expansion(cfg, g, r, c).0[q.0][q.1]).visible
        },
{
    let nb = neighbors(cfg, r, c);
    if flagged_neighbors(cfg, g, r, c) == g[r][c].value && (forall|q: (int, int)|
        cfg.inside(q.0, q.1) && adjacent((r, c), q) && !g[q.0][q.1].flagged
            ==> #[trigger] g[q.0][q.1].value != MINE_VALUE) {
        lemma_neighbors(cfg, r, c);
        assert forall|j: int| 0 <= j < nb.len() && !g[nb[j].0][nb[j].1].flagged implies (#[trigger] g[nb[j].0][nb[j].1]).value
            != MINE_VALUE by {
            assert(cfg.inside(nb[j].0, nb[j].1) && adjacent((r, c), nb[j]));
        }
        lemma_chord_from(cfg, g, nb, 0);
        let fin = chord_from(cfg, g, nb, 0).0;
        assert forall|q: (int, int)|
            cfg.inside(q.0, q.1) && adjacent((r, c), q) && !g[q.0][q.1].flagged implies (#[trigger] fin[q.0][q.1]).visible by {
            assert(nb.contains(q));
            let j = choose|j: int| 0 <= j < nb.len() && nb[j] == q;
            assert(!g[nb[j].0][nb[j].1].flagged);
        }
    }
}

/// Flagged tiles of one row, placed in row `i`.
spec fn row_flag_set(row: Seq<Tile>, i: int) -> Set<(int, int)> {
    Set::new(|p: (int, int)| p.0 == i && 0 <= p.1 < row.len() && row[p.1].flagged)
}

/// Flagged tiles of the board.
spec fn grid_flag_set(g: Seq<Seq<Tile>>) -> Set<(int, int)> {
    Set::new(|p: (int, int)| 0 <= p.0 < g.len() && 0 <= p.1 < g[p.0].len() && g[p.0][p.1].flagged)
}

proof fn lemma_row_flag_set(row: Seq<Tile>, i: int)
    ensures
        row_flag_set(row, i).finite(),
        row_flag_set(row, i).len() == row_flags(row),
    decreases row.len(),
{
    let pred = |t: Tile| t.flagged;
    if row.len() == 0 {
        assert(row_flag_set(row, i) =~= Set::empty());
        assert(row.filter(pred) =~= Seq::<Tile>::empty()) by {
            reveal(Seq::filter);
        }
    } else {
        let prev = row.drop_last();
        lemma_row_flag_set(prev, i);
        assert(row =~= prev.push(row.last()));
        prev.lemma_filter_push(row.last(), pred);
        if row.last().flagged {
            assert(row_flag_set(row, i) =~= row_flag_set(prev, i).insert((i, row.len() - 1)));
            assert(!row_flag_set(prev, i).contains((i, row.len() - 1)));
        } else {
            assert(row_flag_set(row, i) =~= row_flag_set(prev, i));
        }
    }
}

proof fn lemma_grid_flag_set(g: Seq<Seq<Tile>>)
    ensures
        grid_flag_set(g).finite(),
        grid_flag_set(g).len() == flag_count(g),
    decreases g.len(),
{
    if g.len() == 0 {
        assert(grid_flag_set(g) =~= Set::empty());
    } else {
        let prev = g.drop_last();
        let n = g.len() - 1;
        lemma_grid_flag_set(prev);
        lemma_row_flag_set(g.last(), n);
        assert(grid_flag_set(g) =~= grid_flag_set(prev) + row_flag_set(g.last(), n));
        assert(grid_flag_set(prev).disjoint(row_flag_set(g.last(), n)));
        vstd::set_lib::lemma_set_disjoint_lens(grid_flag_set(prev), row_flag_set(g.last(), n));
    }
}

/// Where no tile is both shown and flagged, no mine is shown, and the board
/// holds `mine_count` mines, the win check holds exactly when every tile
/// without a mine is shown and the flags number `mine_count`. It never holds
/// while a tile is neither shown nor flagged.
pub proof fn lemma_win_detection(cfg: GameConfig, g: Seq<Seq<Tile>>)
    requires
        cfg.wf(),
        shaped(cfg, g),
        forall|r: int, c: int| cfg.inside(r, c) ==> !((#[trigger] g[r][c]).visible && g[r][c].flagged),
        forall|r: int, c: int|
            cfg.inside(r, c) && (#[trigger] g[r][c]).visible ==> g[r][c].value != MINE_VALUE,
        mine_positions(cfg, g).finite(),
        mine_positions(cfg, g).len() == cfg.mine_count,
    ensures
        is_won(cfg, g) <==> ((forall|r: int, c: int|
            cfg.inside(r, c) && #[trigger] g[r][c].value != MINE_VALUE ==> g[r][c].visible)
            && flag_count(g) == cfg.mine_count),
        !all_resolved(g) ==> !is_won(cfg, g),
{
    let flags = grid_flag_set(g);
    let mines = mine_positions(cfg, g);
    lemma_grid_flag_set(g);
    let all_shown = forall|r: int, c: int|
        cfg.inside(r, c) && #[trigger] g[r][c].value != MINE_VALUE ==> g[r][c].visible;
    if is_won(cfg, g) {
        assert forall|r: int, c: int| cfg.inside(r, c) && #[trigger] g[r][c].value != MINE_VALUE implies g[r][c].visible by {
            if !g[r][c].visible {
                assert(g[r][c].flagged || g[r][c].visible);
                assert(!mines.contains((r, c)));
                assert forall|p: (int, int)| #[trigger] mines.insert((r, c)).contains(p) implies flags.contains(p) by {
                    if p != (r, c) {
                        assert(g[p.0][p.1].flagged || g[p.0][p.1].visible);
                    }
                }
                vstd::set_lib::lemma_len_subset(mines.insert((r, c)), flags);
            }
        }
    }
    if all_shown && flag_count(g) == cfg.mine_count {
        assert(flags.subset_of(mines)) by {
            assert forall|p: (int, int)| #[trigger] flags.contains(p) implies mines.contains(p) by {
                assert(cfg.inside(p.0, p.1));
                assert(!g[p.0][p.1].visible);
            }
        }
        assert forall|r: int, c: int| 0 <= r < g.len() && 0 <= c < g[r].len() implies #[trigger] g[r][c].flagged
            || g[r][c].visible by {
            assert(cfg.inside(r, c));
            if g[r][c].value == MINE_VALUE && !g[r][c].flagged {
                assert(mines.contains((r, c)));
                assert(flags.subset_of(mines.remove((r, c))));
                vstd::set_lib::lemma_len_subset(flags, mines.remove((r, c)));
            }
        }
    }
}

} // verus!
