use vstd::prelude::*;

use crate::adjacency::{
    adjacent, index_to_position, lemma_index, lemma_neighbors, lemma_position_of, neighbors,
    position_to_index, surrounding_indices,
};
use crate::board::{grid_view, shaped, Position, Tile};
use crate::config::{GameConfig, MINE_VALUE};
use crate::expand::{expand_selection, expansion, flooded};

verus! {

/// Number of mines among the neighbors of `(r, c)`.
pub open spec fn mines_around(cfg: GameConfig, g: Seq<Seq<Tile>>, r: int, c: int) -> int {
    neighbors(cfg, r, c).filter(|q: (int, int)| g[q.0][q.1].value == MINE_VALUE).len() as int
}

/// The tiles of the board that hold a mine.
pub open spec fn mine_positions(cfg: GameConfig, g: Seq<Seq<Tile>>) -> Set<(int, int)> {
    Set::new(|p: (int, int)| cfg.inside(p.0, p.1) && g[p.0][p.1].value == MINE_VALUE)
}

/// Whether `q` is the first move `f` or one of its neighbors.
pub open spec fn in_safe_zone(f: (int, int), q: (int, int)) -> bool {
    q == f || adjacent(f, q)
}

/// The board `g0` with the values of `g`, and the tile `f` shown.
pub open spec fn prepared(g0: Seq<Seq<Tile>>, g: Seq<Seq<Tile>>, f: (int, int)) -> Seq<Seq<Tile>> {
    Seq::new(
        g0.len(),
        |r: int|
            Seq::new(
                g0[r].len(),
                |c: int|
                    Tile {
                        value: g[r][c].value,
                        visible: g0[r][c].visible || (r, c) == f,
                        flagged: g0[r][c].flagged,
                    },
            ),
    )
}

/// Indices below `length` that are not in `excluded`.
pub open spec fn eligible(length: int, excluded: Seq<usize>) -> Set<int> {
    Set::new(|i: int| 0 <= i < length && !excluded.contains(i as usize))
}

proof fn lemma_filter_congruent<A>(s: Seq<A>, p1: spec_fn(A) -> bool, p2: spec_fn(A) -> bool)
    requires
        forall|i: int| 0 <= i < s.len() ==> p1(#[trigger] s[i]) == p2(s[i]),
    ensures
        s.filter(p1) == s.filter(p2),
    decreases s.len(),
{
    reveal(Seq::filter);
    if s.len() > 0 {
        let rest = s.drop_last();
        assert forall|i: int| 0 <= i < rest.len() implies p1(#[trigger] rest[i]) == p2(rest[i]) by {
            assert(rest[i] == s[i]);
        }
        lemma_filter_congruent(rest, p1, p2);
    }
}

/// Two boards with mines in the same places count the same mines around a tile.
proof fn lemma_mines_around_same(cfg: GameConfig, g1: Seq<Seq<Tile>>, g2: Seq<Seq<Tile>>, r: int, c: int)
    requires
        cfg.inside(r, c),
        forall|a: int, b: int|
            cfg.inside(a, b) ==> (#[trigger] g1[a][b].value == MINE_VALUE) == (g2[a][b].value
                == MINE_VALUE),
    ensures
        mines_around(cfg, g1, r, c) == mines_around(cfg, g2, r, c),
{
    lemma_neighbors(cfg, r, c);
    let nb = neighbors(cfg, r, c);
    let p1 = |q: (int, int)| g1[q.0][q.1].value == MINE_VALUE;
    let p2 = |q: (int, int)| g2[q.0][q.1].value == MINE_VALUE;
    assert forall|i: int| 0 <= i < nb.len() implies p1(#[trigger] nb[i]) == p2(nb[i]) by {
        assert(cfg.inside(nb[i].0, nb[i].1));
    }
    lemma_filter_congruent(nb, p1, p2);
}

/// Whether `x` occurs in `v`.
fn holds(v: &Vec<usize>, x: usize) -> (found: bool)
    ensures
        found == v@.contains(x),
{
    let mut k: usize = 0;
    while k < v.len()
        invariant
            k <= v@.len(),
            forall|j: int| 0 <= j < k ==> v@[j] != x,
        decreases v@.len() - k,
    {
        if v[k] == x {
            return true;
        }
        k = k + 1;
    }
    false
}

/// Sampling weight of a tile: none inside the safe zone, one elsewhere.
fn mine_weight(excluded: &Vec<usize>, index: usize) -> (w: u32)
    ensures
        w == if excluded@.contains(index) { 0u32 } else { 1u32 },
{
    if holds(excluded, index) {
        0
    } else {
        1
    }
}

/// Relies on `rand::seq::index::sample_weighted` (rand 0.9), driven by the
/// thread-local generator of `rand::rng`: it returns distinct indices below
/// `length`, each of positive weight, as many as `amount` or as there are
/// indices of positive weight, whichever is fewer. The weights are `u32`,
/// never negative or NaN, so its one error, `InvalidWeight`, cannot occur;
/// for `length` up to `u32::MAX` it asserts `amount <= u32::MAX`, which
/// `amount <= length` gives.
#[verifier::external_body]
fn sample_mines(length: usize, excluded: &Vec<usize>, amount: usize) -> (picked: Vec<usize>)
    requires
        amount <= length,
    ensures
        picked@.no_duplicates(),
        forall|k: int|
            0 <= k < picked@.len() ==> #[trigger] picked@[k] < length && !excluded@.contains(
                picked@[k],
            ),
        picked@.len() == if amount <= eligible(length as int, excluded@).len() {
            amount as int
        } else {
            eligible(length as int, excluded@).len() as int
        },
{
    let weight = |index: usize| mine_weight(excluded, index);
    match rand::seq::index::sample_weighted(&mut rand::rng(), length, weight, amount) {
        Ok(indices) => indices.into_vec(),
        Err(_) => Vec::new(),
    }
}

/// Gives every tile the value `-1` where its index is in `mines`, else 0.
fn lay_mines(game_config: &GameConfig, mines: &Vec<usize>, tiles: &mut Vec<Vec<Tile>>)
    requires
        game_config.wf(),
        shaped(*game_config, grid_view(*old(tiles))),
    ensures
        shaped(*game_config, grid_view(*final(tiles))),
        forall|r: int, c: int|
            game_config.inside(r, c) ==> {
                let t = #[trigger] grid_view(*final(tiles))[r][c];
                let t0 = grid_view(*old(tiles))[r][c];
                &&& t.value == if mines@.contains(game_config.index_of(r, c) as usize) {
                    MINE_VALUE
                } else {
                    0
                }
                &&& t.visible == t0.visible
                &&& t.flagged == t0.flagged
            },
{
    let ghost cfg = *game_config;
    let ghost g0 = grid_view(*tiles);
    let mut i: usize = 0;
    while i < game_config.row_count
        invariant
            cfg == *game_config,
            cfg.wf(),
            g0 == grid_view(*old(tiles)),
            shaped(cfg, g0),
            shaped(cfg, grid_view(*tiles)),
            i <= cfg.row_count,
            forall|r: int, c: int|
                cfg.inside(r, c) ==> {
                    let t = #[trigger] grid_view(*tiles)[r][c];
                    let t0 = g0[r][c];
                    &&& r < i ==> t.value == if mines@.contains(cfg.index_of(r, c) as usize) {
                        MINE_VALUE
                    } else {
                        0
                    }
                    &&& r >= i ==> t.value == t0.value
                    &&& t.visible == t0.visible
                    &&& t.flagged == t0.flagged
                },
        decreases cfg.row_count - i,
    {
        let mut j: usize = 0;
        while j < game_config.col_count
            invariant
                cfg == *game_config,
                cfg.wf(),
                g0 == grid_view(*old(tiles)),
                shaped(cfg, g0),
                shaped(cfg, grid_view(*tiles)),
                i < cfg.row_count,
                j <= cfg.col_count,
                forall|r: int, c: int|
                    cfg.inside(r, c) ==> {
                        let t = #[trigger] grid_view(*tiles)[r][c];
                        let t0 = g0[r][c];
                        &&& (r < i || (r == i && c < j)) ==> t.value == if mines@.contains(
                            cfg.index_of(r, c) as usize,
                        ) {
                            MINE_VALUE
                        } else {
                            0
                        }
                        &&& (r > i || (r == i && c >= j)) ==> t.value == t0.value
                        &&& t.visible == t0.visible
                        &&& t.flagged == t0.flagged
                    },
            decreases cfg.col_count - j,
        {
            let index = position_to_index(game_config, &Position { row: i as i32, col: j as i32 });
            let value: i32 = if holds(mines, index) {
                MINE_VALUE
            } else {
                0
            };
            let ghost g = grid_view(*tiles);
            proof {
                assert(tiles@[i as int]@ == g[i as int]);
            }
            tiles[i][j].value = value;
            proof {
                let g1 = grid_view(*tiles);
                assert forall|r: int| 0 <= r < g1.len() implies #[trigger] g1[r].len() == cfg.col_count by {
                    assert(g[r].len() == cfg.col_count);
                }
                assert forall|r: int, c: int| cfg.inside(r, c) && (r != i || c != j) implies #[trigger] g1[r][c] == g[r][c] by {
                }
            }
            j = j + 1;
        }
        i = i + 1;
    }
}

/// Number of mines among the neighbors of `position`.
fn count_mines_around(game_config: &GameConfig, position: &Position, tiles: &Vec<Vec<Tile>>) -> (n: i32)
    requires
        game_config.wf(),
        shaped(*game_config, grid_view(*tiles)),
        game_config.inside(position.row as int, position.col as int),
    ensures
        n == mines_around(*game_config, grid_view(*tiles), position.row as int, position.col as int),
        0 <= n <= 8,
{
    let ghost cfg = *game_config;
    let ghost g = grid_view(*tiles);
    let ghost nb = neighbors(cfg, position.row as int, position.col as int);
    let ghost mp = |q: (int, int)| g[q.0][q.1].value == MINE_VALUE;
    let around = surrounding_indices(game_config, position);
    proof {
        lemma_neighbors(cfg, position.row as int, position.col as int);
    }
    let mut n: i32 = 0;
    let mut k: usize = 0;
    while k < around.len()
        invariant
            cfg == *game_config,
            cfg.wf(),
            g == grid_view(*tiles),
            shaped(cfg, g),
            nb == neighbors(cfg, position.row as int, position.col as int),
            mp == (|q: (int, int)| g[q.0][q.1].value == MINE_VALUE),
            around@.len() == nb.len(),
            nb.len() <= 8,
            forall|m: int|
                0 <= m < around@.len() ==> around@[m] as int == cfg.index_of(
                    #[trigger] nb[m].0,
                    nb[m].1,
                ),
            forall|m: int| 0 <= m < nb.len() ==> cfg.inside(#[trigger] nb[m].0, nb[m].1),
            k <= around@.len(),
            n == nb.take(k as int).filter(mp).len(),
        decreases around@.len() - k,
    {
        proof {
            lemma_index(cfg, nb[k as int].0, nb[k as int].1);
            assert(nb.take(k + 1) == nb.take(k as int).push(nb[k as int]));
            nb.take(k as int).lemma_filter_push(nb[k as int], mp);
            nb.take(k as int).lemma_filter_len(mp);
        }
        let q = index_to_position(game_config, around[k]);
        proof {
            assert(tiles@[q.row as int]@ == g[q.row as int]);
        }
        if tiles[q.row as usize][q.col as usize].value == MINE_VALUE {
            n = n + 1;
        }
        k = k + 1;
    }
    proof {
        assert(nb.take(k as int) == nb);
    }
    n
}

/// Writes into every tile without a mine the number of mines around it.
fn number_tiles(game_config: &GameConfig, tiles: &mut Vec<Vec<Tile>>)
    requires
        game_config.wf(),
        shaped(*game_config, grid_view(*old(tiles))),
    ensures
        shaped(*game_config, grid_view(*final(tiles))),
        forall|r: int, c: int|
            game_config.inside(r, c) ==> {
                let t = #[trigger] grid_view(*final(tiles))[r][c];
                let t0 = grid_view(*old(tiles))[r][c];
                &&& t0.value == MINE_VALUE ==> t.value == MINE_VALUE
                &&& t0.value != MINE_VALUE ==> t.value == mines_around(
                    *game_config,
                    grid_view(*old(tiles)),
                    r,
                    c,
                )
                &&& t.visible == t0.visible
                &&& t.flagged == t0.flagged
            },
{
    let ghost cfg = *game_config;
    let ghost g0 = grid_view(*tiles);
    let mut i: usize = 0;
    while i < game_config.row_count
        invariant
            cfg == *game_config,
            cfg.wf(),
            g0 == grid_view(*old(tiles)),
            shaped(cfg, g0),
            shaped(cfg, grid_view(*tiles)),
            i <= cfg.row_count,
            forall|r: int, c: int|
                cfg.inside(r, c) ==> {
                    let t = #[trigger] grid_view(*tiles)[r][c];
                    let t0 = g0[r][c];
                    &&& t0.value == MINE_VALUE ==> t.value == MINE_VALUE
                    &&& (r < i && t0.value != MINE_VALUE) ==> t.value == mines_around(cfg, g0, r, c)
                    &&& r >= i ==> t.value == t0.value
                    &&& t.visible == t0.visible
                    &&& t.flagged == t0.flagged
                },
        decreases cfg.row_count - i,
    {
        let mut j: usize = 0;
        while j < game_config.col_count
            invariant
                cfg == *game_config,
                cfg.wf(),
                g0 == grid_view(*old(tiles)),
                shaped(cfg, g0),
                shaped(cfg, grid_view(*tiles)),
                i < cfg.row_count,
                j <= cfg.col_count,
                forall|r: int, c: int|
                    cfg.inside(r, c) ==> {
                        let t = #[trigger] grid_view(*tiles)[r][c];
                        let t0 = g0[r][c];
                        &&& t0.value == MINE_VALUE ==> t.value == MINE_VALUE
                        &&& ((r < i || (r == i && c < j)) && t0.value != MINE_VALUE) ==> t.value
                            == mines_around(cfg, g0, r, c)
                        &&& (r > i || (r == i && c >= j)) ==> t.value == t0.value
                        &&& t.visible == t0.visible
                        &&& t.flagged == t0.flagged
                    },
            decreases cfg.col_count - j,
        {
            let ghost g = grid_view(*tiles);
            proof {
                assert(tiles@[i as int]@ == g[i as int]);
            }
            if tiles[i][j].value != MINE_VALUE {
                let position = Position { row: i as i32, col: j as i32 };
                let n = count_mines_around(game_config, &position, tiles);
                proof {
                    assert forall|a: int, b: int| cfg.inside(a, b) implies (#[trigger] g[a][b].value
                        == MINE_VALUE) == (g0[a][b].value == MINE_VALUE) by {
                        if g[a][b].value == MINE_VALUE && g0[a][b].value != MINE_VALUE {
                            if a < i || (a == i && b < j) {
                                lemma_neighbors(cfg, a, b);
                                neighbors(cfg, a, b).lemma_filter_len(
                                    |q: (int, int)| g0[q.0][q.1].value == MINE_VALUE,
                                );
                            }
                        }
                    }
                    lemma_mines_around_same(cfg, g, g0, i as int, j as int);
                }
                tiles[i][j].value = n;
                proof {
                    let g1 = grid_view(*tiles);
                    assert forall|r: int| 0 <= r < g1.len() implies #[trigger] g1[r].len() == cfg.col_count by {
                        assert(g[r].len() == cfg.col_count);
                    }
                    assert forall|r: int, c: int| cfg.inside(r, c) && (r != i || c != j) implies #[trigger] g1[r][c] == g[r][c] by {
                    }
                }
            }
            j = j + 1;
        }
        i = i + 1;
    }
}

/// The cells outside a duplicate-free list of indices below `length` number
/// `length` minus the list's length.
proof fn lemma_eligible_len(length: int, excluded: Seq<usize>)
    requires
        0 <= length <= usize::MAX,
        excluded.no_duplicates(),
        forall|k: int| 0 <= k < excluded.len() ==> #[trigger] excluded[k] < length,
    ensures
        eligible(length, excluded).finite(),
        eligible(length, excluded).len() == length - excluded.len(),
{
    let range = vstd::set_lib::set_int_range(0, length);
    let e = eligible(length, excluded);
    let ints = excluded.map_values(|u: usize| u as int);
    let t = ints.to_set();
    vstd::set_lib::lemma_int_range(0, length);
    assert(ints.no_duplicates()) by {
        assert forall|a: int, b: int| 0 <= a < ints.len() && 0 <= b < ints.len() && a != b implies ints[a] != ints[b] by {
            assert(excluded[a] != excluded[b]);
        }
    }
    ints.unique_seq_to_set();
    assert forall|i: int| #[trigger] t.contains(i) implies range.contains(i) by {
        let k = choose|k: int| 0 <= k < ints.len() && ints[k] == i;
        assert(excluded[k] < length);
    }
    assert forall|i: int| #[trigger] t.contains(i) <==> (0 <= i < length && excluded.contains(i as usize)) by {
        if t.contains(i) {
            let k = choose|k: int| 0 <= k < ints.len() && ints[k] == i;
            assert(excluded[k] < length);
            assert(excluded[k] == i as usize);
        }
        if 0 <= i < length && excluded.contains(i as usize) {
            let k = choose|k: int| 0 <= k < excluded.len() && excluded[k] == i as usize;
            assert(ints[k] == i);
        }
    }
    vstd::set_lib::lemma_len_subset(t, range);
    vstd::set_lib::lemma_len_subset(e, range);
    assert(e.disjoint(t));
    assert(e + t =~= range);
    vstd::set_lib::lemma_set_disjoint_lens(e, t);
}

/// Places `mine_count` mines at random outside the safe zone of `first_move`
/// (the tile and its neighbors), numbers every other tile with the mines
/// around it, shows `first_move` and floods from it. Flags are kept.
pub fn fill_grid(game_config: &GameConfig, first_move: Position, tiles: &mut Vec<Vec<Tile>>)
    requires
        game_config.wf(),
        shaped(*game_config, grid_view(*old(tiles))),
        game_config.inside(first_move.row as int, first_move.col as int),
        game_config.mine_count + neighbors(
            *game_config,
            first_move.row as int,
            first_move.col as int,
        ).len() + 1 <= game_config.cell_count(),
    ensures
        shaped(*game_config, grid_view(*final(tiles))),
        forall|r: int, c: int|
            game_config.inside(r, c) && in_safe_zone(
                (first_move.row as int, first_move.col as int),
                (r, c),
            ) ==> #[trigger] grid_view(*final(tiles))[r][c].value != MINE_VALUE,
        forall|r: int, c: int|
            game_config.inside(r, c) && #[trigger] grid_view(*final(tiles))[r][c].value
                != MINE_VALUE ==> grid_view(*final(tiles))[r][c].value == mines_around(
                *game_config,
                grid_view(*final(tiles)),
                r,
                c,
            ),
        mine_positions(*game_config, grid_view(*final(tiles))).finite(),
        mine_positions(*game_config, grid_view(*final(tiles))).len() == game_config.mine_count,
        grid_view(*final(tiles)) == flooded(
            *game_config,
            prepared(
                grid_view(*old(tiles)),
                grid_view(*final(tiles)),
                (first_move.row as int, first_move.col as int),
            ),
            (first_move.row as int, first_move.col as int),
        ),
{
    let ghost cfg = *game_config;
    let ghost g0 = grid_view(*tiles);
    let ghost f = (first_move.row as int, first_move.col as int);
    let ghost nb = neighbors(cfg, f.0, f.1);
    let mut safe = surrounding_indices(game_config, &first_move);
    let first_index = position_to_index(game_config, &first_move);
    safe.push(first_index);
    let length = game_config.row_count * game_config.col_count;
    proof {
        lemma_neighbors(cfg, f.0, f.1);
        lemma_index(cfg, f.0, f.1);
        assert forall|k: int| 0 <= k < safe@.len() implies #[trigger] safe@[k] < length
            && (k < nb.len() ==> safe@[k] == cfg.index_of(nb[k].0, nb[k].1)) by {
            if k < nb.len() {
                lemma_index(cfg, nb[k].0, nb[k].1);
            }
        }
        assert(safe@.no_duplicates()) by {
            assert forall|a: int, b: int| 0 <= a < safe@.len() && 0 <= b < safe@.len() && a != b
                implies safe@[a] != safe@[b] by {
                if a < nb.len() {
                    lemma_index(cfg, nb[a].0, nb[a].1);
                }
                if b < nb.len() {
                    lemma_index(cfg, nb[b].0, nb[b].1);
                }
            }
        }
        lemma_eligible_len(length as int, safe@);
    }
    let mines = sample_mines(length, &safe, game_config.mine_count);
    lay_mines(game_config, &mines, tiles);
    let ghost g_laid = grid_view(*tiles);
    number_tiles(game_config, tiles);
    let ghost g_num = grid_view(*tiles);
    proof {
        // the safe zone holds no mine
        assert forall|r: int, c: int| cfg.inside(r, c) && in_safe_zone(f, (r, c)) implies #[trigger] g_num[r][c].value
            != MINE_VALUE by {
            lemma_index(cfg, r, c);
            if (r, c) != f {
                assert(nb.contains((r, c)));
            }
            let k: int = if (r, c) == f {
                nb.len() as int
            } else {
                choose|k: int| 0 <= k < nb.len() && nb[k] == (r, c)
            };
            assert(safe@[k] as int == cfg.index_of(r, c));
            if mines@.contains(cfg.index_of(r, c) as usize) {
                let m = choose|m: int| 0 <= m < mines@.len() && mines@[m] == cfg.index_of(r, c) as usize;
                assert(!safe@.contains(mines@[m]));
            }
            assert(g_laid[r][c].value != MINE_VALUE);
        }
        // the first move holds 0
        let mp = |q: (int, int)| g_laid[q.0][q.1].value == MINE_VALUE;
        assert(g_num[f.0][f.1].value == 0) by {
            let fl = nb.filter(mp);
            if fl.len() > 0 {
                nb.lemma_filter_pred(mp, 0);
                nb.lemma_filter_contains_rev(mp, fl[0]);
                let k = choose|k: int| 0 <= k < nb.len() && nb[k] == fl[0];
                assert(in_safe_zone(f, nb[k]));
                assert(g_num[nb[k].0][nb[k].1].value != MINE_VALUE);
            }
        }
    }
    let row = first_move.row as usize;
    let col = first_move.col as usize;
    proof {
        assert(tiles@[row as int]@ == g_num[row as int]);
    }
    tiles[row][col].visible = true;
    let ghost g_shown = grid_view(*tiles);
    proof {
        assert forall|r: int| 0 <= r < g_shown.len() implies #[trigger] g_shown[r].len() == cfg.col_count by {
            assert(g_num[r].len() == cfg.col_count);
        }
    }
    let outcome = expand_selection(game_config, &first_move, tiles);
    proof {
        assert(g_shown =~~= prepared(g0, g_num, f));
        assert(!expansion(cfg, g_shown, f.0, f.1).1);
        assert(outcome is None);
        let g = grid_view(*tiles);
        assert forall|r: int, c: int| cfg.inside(r, c) implies (#[trigger] g[r][c]).value == g_num[r][c].value by {
            assert(g[r][c] == flooded(cfg, g_shown, f)[r][c]);
        }
        assert(prepared(g0, g, f) =~~= prepared(g0, g_num, f));
        assert forall|r: int, c: int|
            cfg.inside(r, c) && #[trigger] g[r][c].value != MINE_VALUE implies g[r][c].value
                == mines_around(cfg, g, r, c) by {
            lemma_mines_around_same(cfg, g, g_laid, r, c);
        }
        // the mines are exactly the sampled indices
        let cols = cfg.col_count as int;
        let placed = mines@.map_values(|i: usize| ((i as int) / cols, (i as int) % cols));
        assert forall|p: (int, int)| #[trigger] mine_positions(cfg, g).contains(p) <==> placed.contains(p) by {
            if mine_positions(cfg, g).contains(p) {
                lemma_index(cfg, p.0, p.1);
                let m = choose|m: int| 0 <= m < mines@.len() && mines@[m] == cfg.index_of(p.0, p.1) as usize;
                assert(placed[m] == p);
            }
            if placed.contains(p) {
                let m = choose|m: int| 0 <= m < placed.len() && placed[m] == p;
                lemma_position_of(cfg, mines@[m] as int);
                assert(mines@.contains(cfg.index_of(p.0, p.1) as usize));
            }
        }
        assert(placed.no_duplicates()) by {
            assert forall|a: int, b: int| 0 <= a < placed.len() && 0 <= b < placed.len() && a != b
                implies placed[a] != placed[b] by {
                lemma_position_of(cfg, mines@[a] as int);
                lemma_position_of(cfg, mines@[b] as int);
            }
        }
        placed.unique_seq_to_set();
        assert(mine_positions(cfg, g) =~= placed.to_set());
    }
}

} // verus!
