use vstd::arithmetic::div_mod::{lemma_fundamental_div_mod, lemma_mod_pos_bound};
use crate::random::{choose_from, gen_ratio};
use rand::rngs::StdRng;
use vstd::prelude::*;

verus! {

/// A direction of a shift, in the engine's own coordinates.
#[derive(Clone, Copy, Debug, PartialEq, Eq, Structural)]
pub enum Direction {
    Up,
    Down,
    Left,
    Right,
}

/// The value of a cell as a natural number: zero for an empty cell.
pub open spec fn cell_value(c: Option<usize>) -> nat {
    match c {
        Some(v) => v as nat,
        None => 0,
    }
}

/// `v` is a power of two (1, 2, 4, ...).
pub open spec fn is_pow2(v: nat) -> bool
    decreases v,
{
    if v <= 1 {
        v == 1
    } else {
        v % 2 == 0 && is_pow2((v / 2) as nat)
    }
}

/// A value that a tile may hold: a power of two, at least 2.
pub open spec fn valid_tile(v: nat) -> bool {
    v >= 2 && is_pow2(v)
}

/// Every tile of `cells` holds a valid value.
pub open spec fn tiles_valid(cells: Seq<Option<usize>>) -> bool {
    forall|i: int| 0 <= i < cells.len() && (#[trigger] cells[i]) is Some ==> valid_tile(
        cells[i]->0 as nat,
    )
}

/// The sum of the values of all tiles in `cells`.
pub open spec fn total(cells: Seq<Option<usize>>) -> nat
    decreases cells.len(),
{
    if cells.len() == 0 {
        0
    } else {
        total(cells.drop_last()) + cell_value(cells.last())
    }
}

/// The cell one step away from (`row`, `col`) against the direction of travel
/// `d`: the cell from which a shift in direction `d` pulls or merges a tile.
/// `Up` and `Down` step along the column index, `Left` and `Right` along the
/// row index; the engine's axes are transposed against the screen.
pub open spec fn adjacent(n: int, row: int, col: int, d: Direction) -> Option<(int, int)> {
    match d {
        Direction::Up => if col > 0 { Some((row, col - 1)) } else { None },
        Direction::Down => if col + 1 < n { Some((row, col + 1)) } else { None },
        Direction::Left => if row > 0 { Some((row - 1, col)) } else { None },
        Direction::Right => if row + 1 < n { Some((row + 1, col)) } else { None },
    }
}

/// The row-major index of the neighbor of cell `k` on an `n`-wide grid.
pub open spec fn neighbor(n: int, k: int, d: Direction) -> Option<int> {
    match adjacent(n, k / n, k % n, d) {
        Some((x, y)) => Some(x * n + y),
        None => None,
    }
}

/// The rule applied at cell `k` during a pass: the cells afterwards, and what
/// the score gains (the value of the doubled tile if two tiles merged).
pub open spec fn step(cells: Seq<Option<usize>>, n: int, k: int, d: Direction) -> (
    Seq<Option<usize>>,
    nat,
) {
    match neighbor(n, k, d) {
        None => (cells, 0),
        Some(m) => match cells[m] {
            None => (cells, 0),
            Some(v) => match cells[k] {
                None => (cells.update(m, None).update(k, Some(v)), 0),
                Some(r) => if r == v {
                    (cells.update(m, None).update(k, Some((2 * v) as usize)), 2 * v as nat)
                } else {
                    (cells, 0)
                },
            },
        },
    }
}

/// The first `k` cells of a pass in row-major order, applied one after the
/// other to the grid as each leaves it: the cells afterwards and the total gain.
pub open spec fn pass_upto(cells: Seq<Option<usize>>, n: int, k: nat, d: Direction) -> (
    Seq<Option<usize>>,
    nat,
)
    decreases k,
{
    if k == 0 {
        (cells, 0)
    } else {
        let prev = pass_upto(cells, n, (k - 1) as nat, d);
        let next = step(prev.0, n, k - 1, d);
        (next.0, prev.1 + next.1)
    }
}

/// One whole pass over an `n` by `n` grid.
pub open spec fn pass(cells: Seq<Option<usize>>, n: int, d: Direction) -> (
    Seq<Option<usize>>,
    nat,
) {
    pass_upto(cells, n, (n * n) as nat, d)
}

/// `v` is the value of a tile of `cells`, or double such a value.
pub open spec fn present_or_doubled(cells: Seq<Option<usize>>, v: nat) -> bool {
    exists|m: int|
        0 <= m < cells.len() && (#[trigger] cells[m]) is Some && (v == cells[m]->0 as nat || v
            == 2 * (cells[m]->0 as nat))
}

/// Row and column of cell `k` lie in the grid and give `k` back.
pub proof fn lemma_cell_index(n: int, k: int)
    requires
        0 < n,
        0 <= k < n * n,
    ensures
        k == (k / n) * n + k % n,
        0 <= k / n < n,
        0 <= k % n < n,
{
    lemma_fundamental_div_mod(k, n);
    lemma_mod_pos_bound(k, n);
    let q = k / n;
    let r = k % n;
    assert(q * n == n * q) by (nonlinear_arith);
    assert(0 <= q < n) by (nonlinear_arith)
        requires
            k == n * q + r,
            0 <= r < n,
            0 <= k < n * n,
    ;
}

/// The neighbor of a cell is a cell of the grid; it comes before the cell in
/// row-major order for `Up` and `Left`, after it for `Down` and `Right`.
pub proof fn lemma_neighbor(n: int, k: int, d: Direction)
    requires
        0 < n,
        0 <= k < n * n,
    ensures
        neighbor(n, k, d) is Some ==> {
            let m = neighbor(n, k, d)->0;
            &&& 0 <= m < n * n
            &&& (d == Direction::Up || d == Direction::Left) ==> m < k
            &&& (d == Direction::Down || d == Direction::Right) ==> m > k
        },
{
    lemma_cell_index(n, k);
    let row = k / n;
    let col = k % n;
    match adjacent(n, row, col, d) {
        Some((x, y)) => {
            assert(0 <= x < n && 0 <= y < n);
            assert(0 <= x * n + y < n * n) by (nonlinear_arith)
                requires
                    0 <= x < n,
                    0 <= y < n,
            ;
            assert(x * n + y == k - n || x * n + y == k + n || x * n + y == k - 1 || x * n + y
                == k + 1) by (nonlinear_arith)
                requires
                    k == row * n + col,
                    (x == row - 1 && y == col) || (x == row + 1 && y == col) || (x == row && y
                        == col - 1) || (x == row && y == col + 1),
            ;
            if d == Direction::Left {
                assert((row - 1) * n + col == k - n) by (nonlinear_arith)
                    requires
                        k == row * n + col,
                ;
            } else if d == Direction::Right {
                assert((row + 1) * n + col == k + n) by (nonlinear_arith)
                    requires
                        k == row * n + col,
                ;
            }
        },
        None => {},
    }
}

proof fn lemma_total_update(cells: Seq<Option<usize>>, i: int, c: Option<usize>)
    requires
        0 <= i < cells.len(),
    ensures
        total(cells.update(i, c)) + cell_value(cells[i]) == total(cells) + cell_value(c),
    decreases cells.len(),
{
    let s = cells.update(i, c);
    if i == cells.len() - 1 {
        assert(s.drop_last() =~= cells.drop_last());
    } else {
        lemma_total_update(cells.drop_last(), i, c);
        assert(s.drop_last() =~= cells.drop_last().update(i, c));
    }
}

proof fn lemma_cell_le_total(cells: Seq<Option<usize>>, i: int)
    requires
        0 <= i < cells.len(),
    ensures
        cell_value(cells[i]) <= total(cells),
    decreases cells.len(),
{
    if i < cells.len() - 1 {
        lemma_cell_le_total(cells.drop_last(), i);
    }
}

/// The mathematical state of a game.
pub struct GameView {
    /// Width and height of the grid.
    pub size: nat,
    /// The cells in row-major order: cell (row, col) is at `row * size + col`.
    pub cells: Seq<Option<usize>>,
    /// The score so far.
    pub score: nat,
    /// The sum of all values that spawns have placed.
    pub spawned: nat,
    /// The sum of all values that merges have produced.
    pub merged: nat,
}

impl GameView {
    /// The grid is square and holds valid tiles; the tiles add up to what was
    /// spawned, and the score is what was spawned plus what merges produced.
    pub open spec fn well_formed(self) -> bool {
        &&& self.size > 0
        &&& self.cells.len() == self.size * self.size
        &&& tiles_valid(self.cells)
        &&& total(self.cells) == self.spawned
        &&& self.score == self.spawned + self.merged
    }

    /// A pass cannot overflow the score: it gains at most the sum of the
    /// tiles for each cell it visits.
    pub open spec fn room_for_shift(self) -> bool {
        self.score + self.cells.len() * self.spawned <= usize::MAX
    }
}

/// A square grid of tiles and the score of the game played on it.
pub struct Game {
    size: usize,
    cells: Vec<Option<usize>>,
    score: usize,
    spawned: Ghost<nat>,
    merged: Ghost<nat>,
}

impl View for Game {
    type V = GameView;

    closed spec fn view(&self) -> GameView {
        GameView {
            size: self.size as nat,
            cells: self.cells@,
            score: self.score as nat,
            spawned: self.spawned@,
            merged: self.merged@,
        }
    }
}

/// The cell from which a shift in direction `d` pulls into (`row`, `col`) on a
/// `size`-wide grid, if it lies on the grid.
pub fn adj_indices(row: usize, col: usize, d: Direction, size: usize) -> (r: Option<(usize, usize)>)
    requires
        row < size,
        col < size,
    ensures
        adjacent(size as int, row as int, col as int, d) == match r {
            Some((x, y)) => Some((x as int, y as int)),
            None => None::<(int, int)>,
        },
{
    match d {
        Direction::Up => if col > 0 {
            Some((row, col - 1))
        } else {
            None
        },
        Direction::Down => if col + 1 < size {
            Some((row, col + 1))
        } else {
            None
        },
        Direction::Left => if row > 0 {
            Some((row - 1, col))
        } else {
            None
        },
        Direction::Right => if row + 1 < size {
            Some((row + 1, col))
        } else {
            None
        },
    }
}

impl Game {
    /// The game's state is well formed (see `GameView::well_formed`).
    pub closed spec fn wf(&self) -> bool {
        self@.well_formed()
    }

    /// The shift rule at cell `k` alone.
    fn shift_cell(&mut self, k: usize, d: Direction)
        requires
            old(self).wf(),
            k < old(self)@.cells.len(),
            old(self)@.score + old(self)@.spawned <= usize::MAX,
        ensures
            final(self).wf(),
            final(self)@.size == old(self)@.size,
            final(self)@.spawned == old(self)@.spawned,
            final(self)@.cells == step(old(self)@.cells, old(self)@.size as int, k as int, d).0,
            final(self)@.score == old(self)@.score + step(
                old(self)@.cells,
                old(self)@.size as int,
                k as int,
                d,
            ).1,
            final(self)@.merged == old(self)@.merged + step(
                old(self)@.cells,
                old(self)@.size as int,
                k as int,
                d,
            ).1,
            step(old(self)@.cells, old(self)@.size as int, k as int, d).1 <= old(self)@.spawned,
    {
        let n = self.size;
        let ghost before = self.cells@;
        proof {
            lemma_cell_index(n as int, k as int);
            lemma_neighbor(n as int, k as int, d);
        }
        let len = self.cells.len();
        let row = k / n;
        let col = k % n;
        if let Some((x, y)) = adj_indices(row, col, d, n) {
            proof {
                assert(neighbor(n as int, k as int, d) == Some(x * n + y));
                assert(0 <= x * n + y < len);
                assert(0 <= x * n) by (nonlinear_arith)
                    requires
                        0 <= x,
                        0 <= n,
                ;
            }
            let m = x * n + y;
            if let Some(v) = self.cells[m] {
                match self.cells[k] {
                    None => {
                        self.cells.set(m, None);
                        self.cells.set(k, Some(v));
                        proof {
                            lemma_total_update(before, m as int, None);
                            lemma_total_update(before.update(m as int, None), k as int, Some(v));
                        }
                    },
                    Some(r) => {
                        if r == v {
                            self.cells.set(m, None);
                            proof {
                                lemma_total_update(before, m as int, None);
                                lemma_cell_le_total(self.cells@, k as int);
                            }
                            let doubled = v * 2;
                            self.cells.set(k, Some(doubled));
                            self.score = self.score + doubled;
                            self.merged = Ghost(self.merged@ + doubled as nat);
                            proof {
                                lemma_total_update(
                                    before.update(m as int, None),
                                    k as int,
                                    Some(doubled),
                                );
                                assert(is_pow2(doubled as nat));
                            }
                        }
                    },
                }
            }
        }
    }

    /// One pass of the shift rule in direction `d`, cell by cell in row-major
    /// order on the grid as it is being changed: a tile merges with an equal
    /// neighbor (the neighbor empties, the tile doubles, the score gains the
    /// doubled value), and an empty cell pulls in its neighbor's tile.
    pub fn shift(&mut self, d: Direction)
        requires
            old(self).wf(),
            old(self)@.room_for_shift(),
        ensures
            final(self).wf(),
            final(self)@.size == old(self)@.size,
            final(self)@.cells == pass(old(self)@.cells, old(self)@.size as int, d).0,
            final(self)@.score == old(self)@.score + pass(
                old(self)@.cells,
                old(self)@.size as int,
                d,
            ).1,
            final(self)@.spawned == old(self)@.spawned,
            final(self)@.merged == old(self)@.merged + pass(
                old(self)@.cells,
                old(self)@.size as int,
                d,
            ).1,
            final(self)@.score <= old(self)@.score + old(self)@.cells.len() * old(self)@.spawned,
            forall|i: int|
                0 <= i < final(self)@.cells.len() && (#[trigger] final(self)@.cells[i]) is Some
                    ==> present_or_doubled(old(self)@.cells, final(self)@.cells[i]->0 as nat),
    {
        let len = self.cells.len();
        let ghost n = self.size as int;
        let ghost c0 = self@.cells;
        let ghost s0 = self@.spawned;
        let ghost score0 = self@.score;
        let ghost merged0 = self@.merged;
        let mut k: usize = 0;
        while k < len
            invariant
                0 <= k <= len,
                self.wf(),
                self@.size == n,
                len == self@.cells.len(),
                c0.len() == len,
                self@.cells == pass_upto(c0, n, k as nat, d).0,
                self@.score == score0 + pass_upto(c0, n, k as nat, d).1,
                self@.merged == merged0 + pass_upto(c0, n, k as nat, d).1,
                self@.spawned == s0,
                pass_upto(c0, n, k as nat, d).1 <= k * s0,
                score0 + len * s0 <= usize::MAX,
                forall|i: int|
                    k <= i < len ==> #[trigger] self@.cells[i] == c0[i] || self@.cells[i] is None,
                forall|i: int|
                    0 <= i < len && (#[trigger] self@.cells[i]) is Some ==> present_or_doubled(
                        c0,
                        self@.cells[i]->0 as nat,
                    ),
            decreases len - k,
        {
            let ghost before = self@.cells;
            proof {
                assert((k + 1) * s0 == k * s0 + s0) by (nonlinear_arith);
                assert((k + 1) * s0 <= len * s0) by (nonlinear_arith)
                    requires
                        k + 1 <= len,
                ;
                lemma_neighbor(n, k as int, d);
            }
            self.shift_cell(k, d);
            proof {
                let after = self@.cells;
                assert forall|i: int| k + 1 <= i < len implies #[trigger] after[i] == c0[i]
                    || after[i] is None by {
                    assert(before[i] == c0[i] || before[i] is None);
                }
                assert forall|i: int|
                    0 <= i < len && (#[trigger] after[i]) is Some implies present_or_doubled(
                        c0,
                        after[i]->0 as nat,
                    ) by {
                    if i != k {
                        if after[i] == before[i] {
                            assert(before[i] is Some);
                        }
                    } else {
                        let m = neighbor(n, k as int, d)->0;
                        if after[i] != before[i] && before[i] is None {
                            assert(before[m] is Some);
                        } else if after[i] != before[i] {
                            if d == Direction::Up || d == Direction::Left {
                                assert(c0[k as int] == before[k as int]);
                            } else {
                                assert(c0[m] == before[m]);
                            }
                        } else {
                            assert(before[i] is Some);
                        }
                    }
                }
            }
            k += 1;
        }
        proof {
            assert(len * s0 == k * s0);
        }
    }

    /// An empty `size` by `size` grid with score zero.
    pub fn new(size: usize) -> (r: Game)
        requires
            0 < size,
            size * size <= usize::MAX,
        ensures
            r.wf(),
            r@.size == size,
            r@.cells == Seq::new((size * size) as nat, |i: int| None::<usize>),
            r@.score == 0,
            r@.spawned == 0,
            r@.merged == 0,
    {
        let len = size * size;
        let mut cells: Vec<Option<usize>> = Vec::new();
        let mut i: usize = 0;
        while i < len
            invariant
                i <= len,
                cells@ == Seq::new(i as nat, |j: int| None::<usize>),
            decreases len - i,
        {
            cells.push(None);
            i += 1;
            assert(cells@ =~= Seq::new(i as nat, |j: int| None::<usize>));
        }
        proof {
            lemma_total_empty(cells@);
        }
        Game { size, cells, score: 0, spawned: Ghost(0), merged: Ghost(0) }
    }

    /// Width and height of the grid.
    pub fn size(&self) -> (r: usize)
        ensures
            r == self@.size,
    {
        self.size
    }

    /// The score so far.
    pub fn score(&self) -> (r: usize)
        ensures
            r == self@.score,
    {
        self.score
    }

    /// The cell at (`row`, `col`).
    pub fn cell(&self, row: usize, col: usize) -> (r: Option<usize>)
        requires
            self.wf(),
            row < self@.size,
            col < self@.size,
        ensures
            r == self@.cells[row * self@.size + col],
    {
        proof {
            lemma_row_col_index(self.size as int, row as int, col as int);
        }
        let len = self.cells.len();
        self.cells[row * self.size + col]
    }

    /// The indices of the empty cells, in row-major order.
    pub fn empty_cells(&self) -> (r: Vec<usize>)
        ensures
            r@ == empty_upto(self@.cells, self@.cells.len()),
    {
        let mut r: Vec<usize> = Vec::new();
        let mut k: usize = 0;
        while k < self.cells.len()
            invariant
                k <= self.cells@.len(),
                r@ == empty_upto(self.cells@, k as nat),
            decreases self.cells@.len() - k,
        {
            if self.cells[k].is_none() {
                r.push(k);
            }
            k += 1;
        }
        r
    }

    /// Puts a tile of value 2 (when `two`) or 4 into cell (`row`, `col`) if it
    /// is empty, and adds that value to the score; an occupied cell is left as
    /// it is.
    pub fn place_tile(&mut self, row: usize, col: usize, two: bool)
        requires
            old(self).wf(),
            row < old(self)@.size,
            col < old(self)@.size,
            old(self)@.score + 4 <= usize::MAX,
        ensures
            final(self).wf(),
            ({
                let k = row * old(self)@.size + col;
                if old(self)@.cells[k] is None {
                    final(self)@ == old(self)@.with_tile(k, if two { 2 } else { 4 })
                } else {
                    final(self)@ == old(self)@
                }
            }),
    {
        proof {
            lemma_row_col_index(self.size as int, row as int, col as int);
        }
        let len = self.cells.len();
        let k = row * self.size + col;
        if self.cells[k].is_none() {
            let v: usize = if two { 2 } else { 4 };
            let ghost before = self.cells@;
            self.cells.set(k, Some(v));
            self.score = self.score + v;
            self.spawned = Ghost(self.spawned@ + v as nat);
            proof {
                lemma_total_update(before, k as int, Some(v));
                assert(is_pow2(1));
                assert(is_pow2(2));
                assert(is_pow2(4));
                assert(self@ == old(self)@.with_tile(k as int, v as nat));
            }
        }
    }
}

/// Cell (`row`, `col`) of a `size`-wide grid lies in it.
proof fn lemma_row_col_index(size: int, row: int, col: int)
    requires
        0 <= row < size,
        0 <= col < size,
    ensures
        0 <= row * size <= row * size + col < size * size,
{
    assert(0 <= row * size <= row * size + col < size * size) by (nonlinear_arith)
        requires
            0 <= row < size,
            0 <= col < size,
    ;
}

proof fn lemma_total_empty(cells: Seq<Option<usize>>)
    requires
        forall|i: int| 0 <= i < cells.len() ==> cells[i] is None,
    ensures
        total(cells) == 0,
    decreases cells.len(),
{
    if cells.len() > 0 {
        lemma_total_empty(cells.drop_last());
    }
}

/// The indices of the empty cells among the first `k`, in ascending order.
pub open spec fn empty_upto(cells: Seq<Option<usize>>, k: nat) -> Seq<usize>
    decreases k,
{
    if k == 0 {
        seq![]
    } else {
        let s = empty_upto(cells, (k - 1) as nat);
        if cells[k - 1] is None {
            s.push((k - 1) as usize)
        } else {
            s
        }
    }
}

/// An index is listed exactly when it is the index of an empty cell.
pub proof fn lemma_empty_upto(cells: Seq<Option<usize>>, k: nat)
    requires
        k <= cells.len() <= usize::MAX + 1,
    ensures
        forall|x: usize| #[trigger]
            empty_upto(cells, k).contains(x) <==> (x < k && cells[x as int] is None),
    decreases k,
{
    if k > 0 {
        lemma_empty_upto(cells, (k - 1) as nat);
        let s = empty_upto(cells, (k - 1) as nat);
        assert forall|x: usize| #[trigger]
            empty_upto(cells, k).contains(x) <==> (x < k && cells[x as int] is None) by {
            assert(s.contains(x) <==> (x < k - 1 && cells[x as int] is None));
            if cells[k - 1] is None {
                if x == k - 1 {
                    assert(s.push(x)[s.len() as int] == x);
                } else if s.push((k - 1) as usize).contains(x) {
                    let j = choose|j: int| 0 <= j < s.len() + 1 && #[trigger] s.push((k - 1) as usize)[j] == x;
                    assert(s[j] == x);
                } else if s.contains(x) {
                    let j = choose|j: int| 0 <= j < s.len() && #[trigger] s[j] == x;
                    assert(s.push((k - 1) as usize)[j] == x);
                }
            }
        }
    }
}

impl GameView {
    /// The state after a tile of value `v` is put into empty cell `k`.
    pub open spec fn with_tile(self, k: int, v: nat) -> GameView {
        GameView {
            cells: self.cells.update(k, Some(v as usize)),
            score: self.score + v,
            spawned: self.spawned + v,
            ..self
        }
    }

    /// Some cell of the grid is empty.
    pub open spec fn has_empty(self) -> bool {
        exists|i: int| 0 <= i < self.cells.len() && #[trigger] self.cells[i] is None
    }

    /// `post` is what a spawn may leave: nothing changes on a full grid;
    /// otherwise a 2 or a 4 fills one empty cell and is added to the score.
    pub open spec fn spawns_into(self, post: GameView) -> bool {
        if !self.has_empty() {
            post == self
        } else {
            exists|k: int|
                0 <= k < self.cells.len() && #[trigger] self.cells[k] is None && (post
                    == self.with_tile(k, 2) || post == self.with_tile(k, 4))
        }
    }
}

impl GameView {
    /// The state after `t` passes in direction `d`.
    pub open spec fn after_passes(self, d: Direction, t: nat) -> GameView
        decreases t,
    {
        if t == 0 {
            self
        } else {
            let p = self.after_passes(d, (t - 1) as nat);
            let r = pass(p.cells, p.size as int, d);
            GameView { cells: r.0, score: p.score + r.1, merged: p.merged + r.1, ..p }
        }
    }

    /// A whole move (`size - 1` passes and a spawn) cannot overflow the score.
    pub open spec fn room_for_move(self) -> bool {
        self.score + (self.size - 1) * self.cells.len() * self.spawned + 4 <= usize::MAX
    }
}

impl Game {
    /// Fills one empty cell, picked uniformly among the empty cells in
    /// row-major order, with a 2 (chance three in four) or a 4, and adds the
    /// value to the score. A full grid is left as it is.
    pub fn spawn_random_tile(&mut self, rng: &mut StdRng)
        requires
            old(self).wf(),
            old(self)@.score + 4 <= usize::MAX,
        ensures
            final(self).wf(),
            old(self)@.spawns_into(final(self)@),
    {
        let empty = self.empty_cells();
        let len = self.cells.len();
        let ghost cells = self@.cells;
        proof {
            lemma_empty_upto(cells, cells.len());
        }
        match choose_from(&empty, rng) {
            None => {
                assert forall|i: int| 0 <= i < cells.len() implies !(#[trigger] cells[i] is None) by {
                    if cells[i] is None {
                        assert(empty@.contains(i as usize));
                    }
                }
            },
            Some(k) => {
                let two = gen_ratio(rng, 3, 4);
                let n = self.size;
                proof {
                    lemma_cell_index(n as int, k as int);
                }
                self.place_tile(k / n, k % n, two);
            },
        }
    }

    /// The score is small enough that a whole move cannot overflow it.
    pub fn can_move(&self) -> (r: bool)
        requires
            self.wf(),
        ensures
            r == (self@.score + (self@.size - 1) * self@.cells.len() * self@.score + 4
                <= usize::MAX),
            r ==> self@.room_for_move(),
    {
        let len = self.cells.len();
        let n = self.size;
        proof {
            assert(0 <= (self@.size - 1) * self@.cells.len() * self@.spawned <= (self@.size - 1)
                * self@.cells.len() * self@.score) by (nonlinear_arith)
                requires
                    self@.size >= 1,
                    self@.spawned <= self@.score,
            ;
        }
        match (n - 1).checked_mul(len) {
            None => {
                proof {
                    assert((self@.size - 1) * self@.cells.len() * 0 == 0) by (nonlinear_arith);
                    if self@.score > 0 {
                        assert((self@.size - 1) * self@.cells.len() * self@.score >= (self@.size
                            - 1) * self@.cells.len()) by (nonlinear_arith)
                            requires
                                self@.score >= 1,
                                self@.size >= 1,
                        ;
                    }
                }
                self.score == 0
            },
            Some(a) => match a.checked_mul(self.score) {
                None => false,
                Some(b) => match b.checked_add(self.score) {
                    None => false,
                    Some(c) => c <= usize::MAX - 4,
                },
            },
        }
    }

    /// One move in direction `d`: `size - 1` passes, then a spawn.
    pub fn play_move(&mut self, d: Direction, rng: &mut StdRng)
        requires
            old(self).wf(),
            old(self)@.room_for_move(),
        ensures
            final(self).wf(),
            old(self)@.after_passes(d, (old(self)@.size - 1) as nat).spawns_into(final(self)@),
    {
        let ghost g0 = self@;
        let ghost len = self@.cells.len();
        let ghost s0 = self@.spawned;
        let passes = self.size - 1;
        let mut t: usize = 0;
        while t < passes
            invariant
                t <= passes,
                passes == g0.size - 1,
                self.wf(),
                self@ == g0.after_passes(d, t as nat),
                self@.size == g0.size,
                self@.cells.len() == len,
                self@.spawned == s0,
                self@.score <= g0.score + t * len * s0,
                g0.room_for_move(),
                g0.spawned == s0,
                g0.cells.len() == len,
            decreases passes - t,
        {
            proof {
                assert(t * len * s0 + len * s0 == (t + 1) * len * s0) by (nonlinear_arith);
                assert((t + 1) * len * s0 <= passes * len * s0) by (nonlinear_arith)
                    requires
                        t + 1 <= passes,
                ;
            }
            self.shift(d);
            t += 1;
        }
        proof {
            assert(t * len * s0 <= passes * len * s0);
        }
        self.spawn_random_tile(rng);
    }
}

} // verus!
