use crate::board::{lemma_neighbor, pass, pass_upto, GameView, Direction};
use vstd::prelude::*;

verus! {

proof fn lemma_pass_upto_empty(cells: Seq<Option<usize>>, n: int, k: nat, d: Direction)
    requires
        0 < n,
        cells.len() == n * n,
        k <= n * n,
        forall|i: int| 0 <= i < cells.len() ==> #[trigger] cells[i] is None,
    ensures
        pass_upto(cells, n, k, d) == (cells, 0nat),
    decreases k,
{
    if k > 0 {
        lemma_pass_upto_empty(cells, n, (k - 1) as nat, d);
        lemma_neighbor(n, k - 1, d);
    }
}

/// Shifting an empty grid changes no cell and adds nothing to the score.
pub proof fn lemma_shift_empty_grid(cells: Seq<Option<usize>>, n: int, d: Direction)
    requires
        0 < n,
        cells.len() == n * n,
        forall|i: int| 0 <= i < cells.len() ==> #[trigger] cells[i] is None,
    ensures
        pass(cells, n, d).0 == cells,
        pass(cells, n, d).1 == 0,
{
    lemma_pass_upto_empty(cells, n, (n * n) as nat, d);
}

/// A spawn on a full grid leaves the cells and the score as they were.
pub proof fn lemma_spawn_full_grid(pre: GameView, post: GameView)
    requires
        forall|i: int| 0 <= i < pre.cells.len() ==> #[trigger] pre.cells[i] is Some,
        pre.spawns_into(post),
    ensures
        post.cells == pre.cells,
        post.score == pre.score,
{
}

/// A spawn on a grid with one empty cell `e` fills that cell with a 2 or a 4,
/// and the score grows by exactly that value.
pub proof fn lemma_spawn_one_empty_cell(pre: GameView, post: GameView, e: int)
    requires
        0 <= e < pre.cells.len(),
        pre.cells[e] is None,
        forall|i: int| 0 <= i < pre.cells.len() && i != e ==> #[trigger] pre.cells[i] is Some,
        pre.spawns_into(post),
    ensures
        post.cells == pre.cells.update(e, post.cells[e]),
        post.cells[e] == Some(2usize) || post.cells[e] == Some(4usize),
        post.score == pre.score + post.cells[e]->0,
{
    assert(pre.has_empty());
    let k = choose|k: int|
        0 <= k < pre.cells.len() && #[trigger] pre.cells[k] is None && (post == pre.with_tile(k, 2)
            || post == pre.with_tile(k, 4));
    assert(k == e);
    assert(post.cells =~= pre.cells.update(e, post.cells[e]));
}

/// Score accounting over passes: each pass adds the same amount to the score
/// and to the total of merged values and leaves the total of spawned values
/// alone, so a score equal to spawned plus merged stays equal to it.
pub proof fn lemma_passes_keep_accounting(g: GameView, d: Direction, t: nat)
    requires
        g.score == g.spawned + g.merged,
    ensures
        g.after_passes(d, t).score == g.after_passes(d, t).spawned + g.after_passes(d, t).merged,
        g.after_passes(d, t).spawned == g.spawned,
        g.after_passes(d, t).score - g.score == g.after_passes(d, t).merged - g.merged,
    decreases t,
{
    if t > 0 {
        lemma_passes_keep_accounting(g, d, (t - 1) as nat);
    }
}

/// Score accounting over a spawn: the score and the total of spawned values
/// grow by the same amount, the value placed (none on a full grid), and the
/// total of merged values stays.
pub proof fn lemma_spawn_keeps_accounting(pre: GameView, post: GameView)
    requires
        pre.score == pre.spawned + pre.merged,
        pre.spawns_into(post),
    ensures
        post.score == post.spawned + post.merged,
        post.merged == pre.merged,
        post.score - pre.score == post.spawned - pre.spawned,
        post.spawned - pre.spawned == 0 || post.spawned - pre.spawned == 2 || post.spawned
            - pre.spawned == 4,
{
}

} // verus!
