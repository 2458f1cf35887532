//! Board engine: grid state, mine layout, reveal/chord/flag operations
//! and the board lifecycle state machine.
use vstd::prelude::*;

use crate::random::random_below;

verus! {

/// One cell of a board grid, either still hidden (possibly flagged),
/// a disclosed mine, or a revealed cell with its adjacent-mine count.
#[derive(Copy, Clone, Debug, PartialEq, Eq, Structural)]
pub enum Entry {
    Unknown { flagged: bool },
    Mine,
    Revealed { num_mines: u8 },
}

impl Entry {
    pub fn is_unknown(&self) -> (r: bool)
        ensures
            r == (*self is Unknown),
    {
        match self {
            Entry::Unknown { .. } => true,
            _ => false,
        }
    }

    pub fn is_flagged(&self) -> (r: bool)
        ensures
            r == (*self matches Entry::Unknown { flagged: true }),
    {
        match self {
            Entry::Unknown { flagged: true } => true,
            _ => false,
        }
    }

    pub fn is_mine(&self) -> (r: bool)
        ensures
            r == (*self is Mine),
    {
        match self {
            Entry::Mine => true,
            _ => false,
        }
    }
}

/// Lifecycle of one board: `Uninitialized` until the first reveal
/// generates the true layout, then `Ongoing` until a terminal `Lost`
/// or `Won` state.
#[derive(Copy, Clone, Debug, PartialEq, Eq, Structural)]
pub enum BoardState {
    Uninitialized,
    Ongoing,
    Lost,
    Won,
}

/// A rectangular grid of `h` rows, each of width `w`.
pub open spec fn rect<T>(g: Seq<Seq<T>>, h: int, w: int) -> bool {
    &&& g.len() == h
    &&& forall|i: int| 0 <= i < h ==> (#[trigger] g[i]).len() == w
}

/// The mathematical contents of a grid held as a vector of row vectors.
pub open spec fn gview<T>(g: Vec<Vec<T>>) -> Seq<Seq<T>> {
    Seq::new(g@.len(), |i: int| g@[i]@)
}

pub open spec fn revealed_ind(e: Entry) -> nat {
    if e is Revealed {
        1
    } else {
        0
    }
}

pub open spec fn mine_ind(e: Entry) -> nat {
    if e is Mine {
        1
    } else {
        0
    }
}

/// Number of `Revealed` cells in one row.
pub open spec fn row_revealed_count(row: Seq<Entry>) -> nat
    decreases row.len(),
{
    if row.len() == 0 {
        0
    } else {
        row_revealed_count(row.drop_last()) + revealed_ind(row.last())
    }
}

/// Number of `Revealed` cells in a whole grid.
pub open spec fn grid_revealed_count(g: Seq<Seq<Entry>>) -> nat
    decreases g.len(),
{
    if g.len() == 0 {
        0
    } else {
        grid_revealed_count(g.drop_last()) + row_revealed_count(g.last())
    }
}

/// Number of `Mine` cells in one row.
pub open spec fn row_mine_count(row: Seq<Entry>) -> nat
    decreases row.len(),
{
    if row.len() == 0 {
        0
    } else {
        row_mine_count(row.drop_last()) + mine_ind(row.last())
    }
}

/// Number of `Mine` cells in a whole grid.
pub open spec fn grid_mine_count(g: Seq<Seq<Entry>>) -> nat
    decreases g.len(),
{
    if g.len() == 0 {
        0
    } else {
        grid_mine_count(g.drop_last()) + row_mine_count(g.last())
    }
}

proof fn lemma_row_revealed_update(row: Seq<Entry>, j: int, v: Entry)
    requires
        0 <= j < row.len(),
    ensures
        row_revealed_count(row.update(j, v)) == row_revealed_count(row) + revealed_ind(v)
            - revealed_ind(row[j]),
    decreases row.len(),
{
    let row2 = row.update(j, v);
    if j == row.len() - 1 {
        assert(row2.drop_last() =~= row.drop_last());
    } else {
        assert(row2.drop_last() =~= row.drop_last().update(j, v));
        lemma_row_revealed_update(row.drop_last(), j, v);
    }
}

proof fn lemma_grid_revealed_update(g: Seq<Seq<Entry>>, i: int, j: int, v: Entry)
    requires
        0 <= i < g.len(),
        0 <= j < g[i].len(),
    ensures
        grid_revealed_count(g.update(i, g[i].update(j, v))) == grid_revealed_count(g)
            + revealed_ind(v) - revealed_ind(g[i][j]),
    decreases g.len(),
{
    let g2 = g.update(i, g[i].update(j, v));
    if i == g.len() - 1 {
        assert(g2.drop_last() =~= g.drop_last());
        lemma_row_revealed_update(g[i], j, v);
    } else {
        assert(g2.drop_last() =~= g.drop_last().update(i, g[i].update(j, v)));
        assert(g2.last() =~= g.last());
        lemma_grid_revealed_update(g.drop_last(), i, j, v);
    }
}

proof fn lemma_row_mine_update(row: Seq<Entry>, j: int, v: Entry)
    requires
        0 <= j < row.len(),
    ensures
        row_mine_count(row.update(j, v)) == row_mine_count(row) + mine_ind(v) - mine_ind(row[j]),
    decreases row.len(),
{
    let row2 = row.update(j, v);
    if j == row.len() - 1 {
        assert(row2.drop_last() =~= row.drop_last());
    } else {
        assert(row2.drop_last() =~= row.drop_last().update(j, v));
        lemma_row_mine_update(row.drop_last(), j, v);
    }
}

proof fn lemma_grid_mine_update(g: Seq<Seq<Entry>>, i: int, j: int, v: Entry)
    requires
        0 <= i < g.len(),
        0 <= j < g[i].len(),
    ensures
        grid_mine_count(g.update(i, g[i].update(j, v))) == grid_mine_count(g) + mine_ind(v)
            - mine_ind(g[i][j]),
    decreases g.len(),
{
    let g2 = g.update(i, g[i].update(j, v));
    if i == g.len() - 1 {
        assert(g2.drop_last() =~= g.drop_last());
        lemma_row_mine_update(g[i], j, v);
    } else {
        assert(g2.drop_last() =~= g.drop_last().update(i, g[i].update(j, v)));
        assert(g2.last() =~= g.last());
        lemma_grid_mine_update(g.drop_last(), i, j, v);
    }
}

proof fn lemma_row_counts_zero(row: Seq<Entry>)
    requires
        forall|j: int| 0 <= j < row.len() ==> (#[trigger] row[j]) is Unknown,
    ensures
        row_revealed_count(row) == 0,
        row_mine_count(row) == 0,
    decreases row.len(),
{
    if row.len() > 0 {
        lemma_row_counts_zero(row.drop_last());
    }
}

proof fn lemma_grid_counts_zero(g: Seq<Seq<Entry>>)
    requires
        forall|i: int, j: int|
            0 <= i < g.len() && 0 <= j < g[i].len() ==> (#[trigger] g[i][j]) is Unknown,
    ensures
        grid_revealed_count(g) == 0,
        grid_mine_count(g) == 0,
    decreases g.len(),
{
    if g.len() > 0 {
        lemma_row_counts_zero(g.last());
        lemma_grid_counts_zero(g.drop_last());
    }
}

/// In a row where every cell is either a mine or revealed, the two
/// counts partition the row.
proof fn lemma_row_partition(row: Seq<Entry>)
    requires
        forall|j: int| 0 <= j < row.len() ==> !((#[trigger] row[j]) is Unknown),
    ensures
        row_revealed_count(row) + row_mine_count(row) == row.len(),
    decreases row.len(),
{
    if row.len() > 0 {
        lemma_row_partition(row.drop_last());
    }
}

proof fn lemma_grid_partition(g: Seq<Seq<Entry>>, h: int, w: int)
    requires
        rect(g, h, w),
        forall|i: int, j: int|
            0 <= i < h && 0 <= j < w ==> !((#[trigger] g[i][j]) is Unknown),
    ensures
        grid_revealed_count(g) + grid_mine_count(g) == h * w,
    decreases g.len(),
{
    if g.len() > 0 {
        lemma_row_partition(g.last());
        lemma_grid_partition(g.drop_last(), h - 1, w);
        assert((h - 1) * w == h * w - w) by (nonlinear_arith);
    } else {
        assert(h * w == 0) by (nonlinear_arith)
            requires
                h == 0,
        ;
    }
}

proof fn lemma_row_revealed_pointwise_le(r1: Seq<Entry>, r2: Seq<Entry>)
    requires
        r1.len() == r2.len(),
        forall|j: int|
            0 <= j < r1.len() ==> ((#[trigger] r1[j]) is Revealed ==> (#[trigger] r2[j])
                is Revealed),
    ensures
        row_revealed_count(r1) <= row_revealed_count(r2),
    decreases r1.len(),
{
    if r1.len() > 0 {
        lemma_row_revealed_pointwise_le(r1.drop_last(), r2.drop_last());
    }
}

/// If every revealed cell of `g1` is revealed in `g2` too, `g1` has no
/// more revealed cells than `g2`.
proof fn lemma_grid_revealed_pointwise_le(g1: Seq<Seq<Entry>>, g2: Seq<Seq<Entry>>, h: int, w: int)
    requires
        rect(g1, h, w),
        rect(g2, h, w),
        forall|i: int, j: int|
            0 <= i < h && 0 <= j < w ==> ((#[trigger] g1[i][j]) is Revealed ==> (#[trigger] g2[i][j])
                is Revealed),
    ensures
        grid_revealed_count(g1) <= grid_revealed_count(g2),
    decreases g1.len(),
{
    if g1.len() > 0 {
        lemma_row_revealed_pointwise_le(g1.last(), g2.last());
        lemma_grid_revealed_pointwise_le(g1.drop_last(), g2.drop_last(), h - 1, w);
    }
}

/// Adjacency in the 8-connected grid; a coordinate is not adjacent to
/// itself.
pub open spec fn is_adjacent(a: (u16, u16), b: (u16, u16)) -> bool {
    &&& a.0 as int - b.0 as int <= 1
    &&& b.0 as int - a.0 as int <= 1
    &&& a.1 as int - b.1 as int <= 1
    &&& b.1 as int - a.1 as int <= 1
    &&& a != b
}

/// 1 when the cell at `(i, j)` exists and is a mine, 0 otherwise.
pub open spec fn mine_at(t: Seq<Seq<Entry>>, i: int, j: int, h: int, w: int) -> nat {
    if 0 <= i < h && 0 <= j < w && t[i][j] is Mine {
        1
    } else {
        0
    }
}

/// Number of mines among the up-to-8 neighbors of `(i, j)`.
pub open spec fn adjacent_mine_count(t: Seq<Seq<Entry>>, i: int, j: int, h: int, w: int) -> nat {
    mine_at(t, i - 1, j - 1, h, w) + mine_at(t, i - 1, j, h, w) + mine_at(t, i - 1, j + 1, h, w)
        + mine_at(t, i, j - 1, h, w) + mine_at(t, i, j + 1, h, w) + mine_at(t, i + 1, j - 1, h, w)
        + mine_at(t, i + 1, j, h, w) + mine_at(t, i + 1, j + 1, h, w)
}

/// A fully generated true layout: every cell is a mine or carries its
/// exact adjacent-mine count, and the total number of mines is `m`.
pub open spec fn layout_wf(t: Seq<Seq<Entry>>, h: int, w: int, m: int) -> bool {
    &&& rect(t, h, w)
    &&& forall|i: int, j: int|
        0 <= i < h && 0 <= j < w ==> match #[trigger] t[i][j] {
            Entry::Unknown { .. } => false,
            Entry::Mine => true,
            Entry::Revealed { num_mines } => num_mines == adjacent_mine_count(t, i, j, h, w),
        }
    &&& grid_mine_count(t) == m
}

/// The cleared-cell counter never exceeds the win threshold: every
/// revealed cell discloses a non-mine cell of the true layout, and the
/// true layout has exactly `num_mines` mines.
pub proof fn lemma_cleared_le_threshold(b: MultiplayerBoard)
    requires
        b.wf_core(),
        b.true_board is Some,
    ensures
        b.entries_cleared <= b.threshold(),
{
    let h = b.height as int;
    let w = b.width as int;
    let rev = gview(b.revealed_board);
    let t = gview(b.true_board.unwrap());
    assert forall|i: int, j: int|
        0 <= i < h && 0 <= j < w implies ((#[trigger] rev[i][j]) is Revealed ==> (
    #[trigger] t[i][j]) is Revealed) by {
        assert(b.rev_at(i, j) == rev[i][j]);
        assert(b.true_at(i, j) == t[i][j]);
        if rev[i][j] is Revealed {
            assert(!(b.rev_at(i, j) is Unknown));
        }
    }
    lemma_grid_revealed_pointwise_le(rev, t, h, w);
    assert forall|i: int, j: int|
        0 <= i < h && 0 <= j < w implies !((#[trigger] t[i][j]) is Unknown) by {}
    lemma_grid_partition(t, h, w);
}

/// The cell count of a board with u16 sides fits comfortably in u32.
pub open spec fn width_times_height_fits(w: u16, h: u16) -> bool {
    (w as int * h as int) <= 0xfffe0001
}

/// Mid-cascade bookkeeping: how the current board, the changed list
/// and the work list relate to the board as it stood when the reveal
/// began.
pub open spec fn cascade_core_inv(
    pre: MultiplayerBoard,
    cur: MultiplayerBoard,
    changed: Seq<(u16, u16)>,
    unchecked: Seq<(u16, u16)>,
    rc: (u16, u16),
    pid: u8,
) -> bool {
    let h = pre.height as int;
    let w = pre.width as int;
    &&& cur.wf_core()
    &&& cur.board_state is Ongoing
    &&& cur.width == pre.width
    &&& cur.height == pre.height
    &&& cur.num_mines == pre.num_mines
    &&& cur.true_board == pre.true_board
    &&& changed.len() >= 1
    &&& changed[0] == rc
    &&& changed.no_duplicates()
    &&& forall|k: int|
        0 <= k < changed.len() ==> (#[trigger] changed[k]).0 < pre.height && changed[k].1
            < pre.width && pre.rev_at(changed[k].0 as int, changed[k].1 as int) is Unknown
            && cur.rev_at(changed[k].0 as int, changed[k].1 as int) is Revealed && cur.rev_at(
            changed[k].0 as int,
            changed[k].1 as int,
        ) == cur.true_at(changed[k].0 as int, changed[k].1 as int)
    &&& forall|a: int, b: int|
        #![trigger cur.rev_at(a, b)]
        0 <= a < h && 0 <= b < w && !changed.contains(((a as u16), (b as u16))) ==> cur.rev_at(
            a,
            b,
        ) == pre.rev_at(a, b) && cur.id_at(a, b) == pre.id_at(a, b)
    &&& cur.entries_cleared == pre.entries_cleared + changed.len()
    &&& cur.id_at(rc.0 as int, rc.1 as int) == pid
    &&& forall|k: int|
        1 <= k < changed.len() ==> cur.id_at(
            (#[trigger] changed[k]).0 as int,
            changed[k].1 as int,
        ) == 0
    &&& forall|k: int| 0 <= k < unchecked.len() ==> changed.contains(#[trigger] unchecked[k])
    &&& unchecked.no_duplicates()
    &&& forall|k: int|
        #![trigger changed[k]]
        1 <= k < changed.len() ==> exists|m2: int|
            0 <= m2 < changed.len() && is_adjacent(changed[k], #[trigger] changed[m2])
                && cur.rev_at(changed[m2].0 as int, changed[m2].1 as int) == (Entry::Revealed {
                num_mines: 0,
            })
    &&& ((cur.true_at(rc.0 as int, rc.1 as int) matches Entry::Revealed { num_mines: nn } && nn
        != 0) ==> changed.len() == 1)
    &&& cur.entries_cleared <= pre.width as int * pre.height as int
}

/// Every zero-count cell of the changed list that has left the work
/// list has no hidden neighbor left, except possibly the one cell
/// `exc` still being processed.
pub open spec fn cascade_closed_except(
    cur: MultiplayerBoard,
    changed: Seq<(u16, u16)>,
    unchecked: Seq<(u16, u16)>,
    exc: Option<(u16, u16)>,
) -> bool {
    forall|k: int, a: int, b: int|
        #![trigger changed[k], cur.rev_at(a, b)]
        0 <= k < changed.len() && 0 <= a < cur.height as int && 0 <= b < cur.width as int
            && cur.rev_at(changed[k].0 as int, changed[k].1 as int) == (Entry::Revealed {
            num_mines: 0,
        }) && !unchecked.contains(changed[k]) && exc != Some(changed[k]) && is_adjacent(
            ((a as u16), (b as u16)),
            changed[k],
        ) ==> !(cur.rev_at(a, b) is Unknown)
}

/// What one successful reveal of the hidden cell `c` does, judged
/// against the true layout of the post-state: a clicked mine is
/// disclosed alone and loses the board; a safe click reveals the cell
/// and its zero-count cascade, credits the clicked cell to `pid` and
/// the cascade to nobody, and wins the board exactly when the cleared
/// counter reaches the threshold.
pub open spec fn reveal_effect(
    pre: MultiplayerBoard,
    post: MultiplayerBoard,
    changed: Seq<(u16, u16)>,
    c: (u16, u16),
    pid: u8,
) -> bool {
    let ci = c.0 as int;
    let cj = c.1 as int;
    &&& post.width == pre.width
    &&& post.height == pre.height
    &&& post.num_mines == pre.num_mines
    &&& if post.true_at(ci, cj) is Mine {
        &&& post.board_state is Lost
        &&& changed.len() == 1
        &&& changed[0] == c
        &&& post.entries_cleared == pre.entries_cleared
        &&& gview(post.revealed_board) == set2(gview(pre.revealed_board), ci, cj, Entry::Mine)
        &&& gview(post.player_ids) == set2(gview(pre.player_ids), ci, cj, pid)
    } else {
        &&& (post.board_state is Ongoing || post.board_state is Won)
        &&& (post.board_state is Won <==> post.entries_cleared == post.threshold())
        &&& changed.len() >= 1
        &&& changed[0] == c
        &&& changed.no_duplicates()
        &&& post.entries_cleared == pre.entries_cleared + changed.len()
        &&& forall|k: int|
            0 <= k < changed.len() ==> (#[trigger] changed[k]).0 < pre.height && changed[k].1
                < pre.width && pre.rev_at(changed[k].0 as int, changed[k].1 as int) is Unknown
                && post.rev_at(changed[k].0 as int, changed[k].1 as int) is Revealed && post.rev_at(
                changed[k].0 as int,
                changed[k].1 as int,
            ) == post.true_at(changed[k].0 as int, changed[k].1 as int)
        &&& forall|a: int, b: int|
            #![trigger post.rev_at(a, b)]
            0 <= a < pre.height as int && 0 <= b < pre.width as int && !changed.contains(
                ((a as u16), (b as u16)),
            ) ==> post.rev_at(a, b) == pre.rev_at(a, b) && post.id_at(a, b) == pre.id_at(a, b)
        &&& post.id_at(ci, cj) == pid
        &&& forall|k: int|
            1 <= k < changed.len() ==> post.id_at(
                (#[trigger] changed[k]).0 as int,
                changed[k].1 as int,
            ) == 0
        &&& forall|k: int, a: int, b: int|
            #![trigger changed[k], post.rev_at(a, b)]
            0 <= k < changed.len() && 0 <= a < pre.height as int && 0 <= b < pre.width as int
                && post.rev_at(changed[k].0 as int, changed[k].1 as int) == (Entry::Revealed {
                num_mines: 0,
            }) && is_adjacent(((a as u16), (b as u16)), changed[k]) ==> !(post.rev_at(a, b)
                is Unknown)
        &&& forall|k: int|
            #![trigger changed[k]]
            1 <= k < changed.len() ==> exists|m: int|
                0 <= m < changed.len() && is_adjacent(changed[k], #[trigger] changed[m])
                    && post.rev_at(changed[m].0 as int, changed[m].1 as int) == (Entry::Revealed {
                    num_mines: 0,
                })
        &&& (post.true_at(ci, cj) matches Entry::Revealed { num_mines } && num_mines != 0
            ==> changed.len() == 1)
    }
}

/// The shared board: client-visible revealed layout, server-private
/// true layout, per-cell attribution and the lifecycle state.
pub struct MultiplayerBoard {
    pub width: u16,
    pub height: u16,
    pub num_mines: u32,
    pub entries_cleared: u32,
    pub board_state: BoardState,
    pub true_board: Option<Vec<Vec<Entry>>>,
    pub revealed_board: Vec<Vec<Entry>>,
    pub player_ids: Vec<Vec<u8>>,
}

impl MultiplayerBoard {
    pub open spec fn size(self) -> int {
        self.width as int * self.height as int
    }

    /// Number of cleared cells at which the board is won.
    pub open spec fn threshold(self) -> int {
        self.size() - self.num_mines as int
    }

    pub open spec fn coord_in_bounds(self, c: (u16, u16)) -> bool {
        c.0 < self.height && c.1 < self.width
    }

    pub open spec fn rev_at(self, i: int, j: int) -> Entry {
        gview(self.revealed_board)[i][j]
    }

    pub open spec fn id_at(self, i: int, j: int) -> u8 {
        gview(self.player_ids)[i][j]
    }

    pub open spec fn true_at(self, i: int, j: int) -> Entry {
        gview(self.true_board.unwrap())[i][j]
    }

    /// Structural well-formedness: rectangular grids, a true layout
    /// exactly when the board has left `Uninitialized`, the revealed
    /// layout a faithful disclosure of the true one, the cleared-cell
    /// counter equal to the number of revealed cells, no attribution
    /// on untouched cells, and the win state tied to the threshold.
    /// Holds of every intermediate state inside an operation too.
    pub open spec fn wf_core(self) -> bool {
        let h = self.height as int;
        let w = self.width as int;
        &&& self.width >= 1
        &&& self.height >= 1
        &&& self.num_mines as int <= self.size()
        &&& rect(gview(self.revealed_board), h, w)
        &&& rect(gview(self.player_ids), h, w)
        &&& (self.board_state is Uninitialized <==> self.true_board is None)
        &&& (self.true_board is Some ==> layout_wf(
            gview(self.true_board.unwrap()),
            h,
            w,
            self.num_mines as int,
        ))
        &&& forall|i: int, j: int|
            0 <= i < h && 0 <= j < w ==> (!((#[trigger] self.rev_at(i, j)) is Unknown)
                ==> self.true_board is Some && self.rev_at(i, j) == self.true_at(i, j))
        &&& self.entries_cleared == grid_revealed_count(gview(self.revealed_board))
        &&& forall|i: int, j: int|
            0 <= i < h && 0 <= j < w ==> ((#[trigger] self.rev_at(i, j)) == (Entry::Unknown {
                flagged: false,
            }) ==> self.id_at(i, j) == 0)
        &&& (self.board_state is Won ==> self.entries_cleared == self.threshold())
    }

    /// Full well-formedness, as every public operation leaves the
    /// board: additionally, a board that can still be played (or was
    /// lost) on a layout with at least one safe cell sits strictly
    /// below the win threshold, so the win transition can never have
    /// been missed.
    pub open spec fn wf(self) -> bool {
        &&& self.wf_core()
        &&& (!(self.board_state is Won) && (self.num_mines as int) < self.size()
            ==> self.entries_cleared < self.threshold())
    }

    /// A board is won exactly when the cleared-cell counter reaches
    /// `width x height - num_mines`, and never earlier. On the
    /// degenerate all-mines board the threshold is zero from the
    /// start, yet any reveal loses, so the law asks for at least one
    /// safe cell.
    pub proof fn lemma_win_iff_threshold(self)
        requires
            self.wf(),
            (self.num_mines as int) < self.size(),
        ensures
            self.board_state is Won <==> self.entries_cleared == self.threshold(),
    {
    }

    /// A fresh board: everything hidden, no true layout yet.
    pub fn new(width: u16, height: u16, num_mines: u32) -> (board: MultiplayerBoard)
        requires
            width >= 1,
            height >= 1,
            num_mines <= width as int * height as int,
        ensures
            board.wf(),
            board.width == width,
            board.height == height,
            board.num_mines == num_mines,
            board.entries_cleared == 0,
            board.board_state is Uninitialized,
            board.true_board is None,
            forall|i: int, j: int|
                0 <= i < height as int && 0 <= j < width as int ==> (#[trigger] board.rev_at(i, j))
                    == (Entry::Unknown { flagged: false }),
            forall|i: int, j: int|
                0 <= i < height as int && 0 <= j < width as int ==> (#[trigger] board.id_at(i, j))
                    == 0,
    {
        let revealed_board = filled_grid(Entry::Unknown { flagged: false }, width, height);
        let player_ids = filled_grid(0u8, width, height);
        let board = MultiplayerBoard {
            width,
            height,
            num_mines,
            entries_cleared: 0,
            board_state: BoardState::Uninitialized,
            true_board: None,
            revealed_board,
            player_ids,
        };
        proof {
            lemma_grid_counts_zero(gview(board.revealed_board));
        }
        board
    }

    pub fn width(&self) -> (r: u16)
        ensures
            r == self.width,
    {
        self.width
    }

    pub fn height(&self) -> (r: u16)
        ensures
            r == self.height,
    {
        self.height
    }

    pub fn num_mines(&self) -> (r: u32)
        ensures
            r == self.num_mines,
    {
        self.num_mines
    }

    pub fn board_state(&self) -> (r: &BoardState)
        ensures
            r == self.board_state,
    {
        &self.board_state
    }

    pub fn revealed_board(&self) -> (r: &Vec<Vec<Entry>>)
        ensures
            r == self.revealed_board,
    {
        &self.revealed_board
    }

    pub fn player_ids(&self) -> (r: &Vec<Vec<u8>>)
        ensures
            r == self.player_ids,
    {
        &self.player_ids
    }

    /// The server-private entry at `coords`, or `None` while the true
    /// layout has not been generated yet.
    pub fn true_entry_at(&self, coords: (u16, u16)) -> (r: Option<Entry>)
        requires
            self.wf_core(),
            self.coord_in_bounds(coords),
        ensures
            match r {
                Some(e) => self.true_board is Some && e == self.true_at(
                    coords.0 as int,
                    coords.1 as int,
                ),
                None => self.true_board is None,
            },
    {
        if let Some(ref true_board) = self.true_board {
            Some(true_board[coords.0 as usize][coords.1 as usize])
        } else {
            None
        }
    }

    pub fn revealed_entry_at(&self, coords: (u16, u16)) -> (r: Entry)
        requires
            self.wf_core(),
            self.coord_in_bounds(coords),
        ensures
            r == self.rev_at(coords.0 as int, coords.1 as int),
    {
        self.revealed_board[coords.0 as usize][coords.1 as usize]
    }

    pub fn player_at(&self, coords: (u16, u16)) -> (r: u8)
        requires
            self.wf_core(),
            self.coord_in_bounds(coords),
        ensures
            r == self.id_at(coords.0 as int, coords.1 as int),
    {
        proof {
            assert(gview(self.player_ids)[coords.0 as int] == self.player_ids@[coords.0 as int]@);
        }
        self.player_ids[coords.0 as usize][coords.1 as usize]
    }

    /// The true entry at in-bounds `coords` once the layout exists.
    fn true_cell(&self, coords: (u16, u16)) -> (r: Entry)
        requires
            self.wf_core(),
            self.true_board is Some,
            self.coord_in_bounds(coords),
        ensures
            r == self.true_at(coords.0 as int, coords.1 as int),
    {
        match &self.true_board {
            Some(t) => {
                proof {
                    assert(gview(*t)[coords.0 as int] == t@[coords.0 as int]@);
                }
                t[coords.0 as usize][coords.1 as usize]
            },
            None => vstd::pervasive::unreached(),
        }
    }

    /// Reveals one hidden non-mine cell: copies the true value into
    /// the revealed layout, credits `attr`, and counts the cell as
    /// cleared.
    fn disclose_safe_cell(&mut self, c: (u16, u16), attr: u8)
        requires
            old(self).wf_core(),
            old(self).board_state is Ongoing,
            old(self).coord_in_bounds(c),
            old(self).rev_at(c.0 as int, c.1 as int) is Unknown,
            !(old(self).true_at(c.0 as int, c.1 as int) is Mine),
        ensures
            final(self).wf_core(),
            final(self).board_state is Ongoing,
            final(self).width == old(self).width,
            final(self).height == old(self).height,
            final(self).num_mines == old(self).num_mines,
            final(self).true_board == old(self).true_board,
            final(self).entries_cleared == old(self).entries_cleared + 1,
            final(self).rev_at(c.0 as int, c.1 as int) == old(self).true_at(
                c.0 as int,
                c.1 as int,
            ),
            final(self).rev_at(c.0 as int, c.1 as int) is Revealed,
            final(self).id_at(c.0 as int, c.1 as int) == attr,
            forall|a: int, b: int|
                #![trigger final(self).rev_at(a, b)]
                #![trigger final(self).id_at(a, b)]
                0 <= a < old(self).height as int && 0 <= b < old(self).width as int && !(a == c.0
                    as int && b == c.1 as int) ==> final(self).rev_at(a, b) == old(self).rev_at(
                    a,
                    b,
                ) && final(self).id_at(a, b) == old(self).id_at(a, b),
    {
        let ghost h = self.height as int;
        let ghost w = self.width as int;
        let fi = c.0 as usize;
        let fj = c.1 as usize;
        let tv = self.true_cell(c);
        proof {
            lemma_cleared_le_threshold(*self);
            assert(width_times_height_fits(self.width, self.height)) by (nonlinear_arith)
                requires
                    self.width <= 0xffff,
                    self.height <= 0xffff,
            ;
            assert(gview(self.revealed_board)[c.0 as int] == self.revealed_board@[c.0 as int]@);
            assert(gview(self.player_ids)[c.0 as int] == self.player_ids@[c.0 as int]@);
        }
        let ghost orev = gview(self.revealed_board);
        let ghost oids = gview(self.player_ids);
        set_cell(&mut self.revealed_board, fi, fj, tv);
        set_cell(&mut self.player_ids, fi, fj, attr);
        self.entries_cleared = self.entries_cleared + 1;
        proof {
            lemma_grid_revealed_update(orev, c.0 as int, c.1 as int, tv);
            lemma_set2_pointwise(orev, h, w, c.0 as int, c.1 as int, tv);
            lemma_set2_pointwise(oids, h, w, c.0 as int, c.1 as int, attr);
            assert forall|k: int, l: int|
                0 <= k < h && 0 <= l < w && !(k == c.0 as int && l == c.1 as int) implies #[trigger] self.rev_at(
                k,
                l,
            ) == old(self).rev_at(k, l) && #[trigger] self.id_at(k, l) == old(self).id_at(
                k,
                l,
            ) by {
                assert(gview(self.revealed_board)[k][l] == set2(orev, c.0 as int, c.1 as int, tv)[k][l]);
                assert(gview(self.player_ids)[k][l] == set2(oids, c.0 as int, c.1 as int, attr)[k][l]);
            }
            assert(self.rev_at(c.0 as int, c.1 as int) == tv);
            assert(self.id_at(c.0 as int, c.1 as int) == attr);
            assert forall|k: int, l: int|
                0 <= k < h && 0 <= l < w && !((#[trigger] self.rev_at(k, l))
                    is Unknown) implies self.true_board is Some && self.rev_at(k, l)
                == self.true_at(k, l) by {
                if !(k == c.0 as int && l == c.1 as int) {
                    assert(self.rev_at(k, l) == old(self).rev_at(k, l));
                }
            }
            assert(self.wf_core());
        }
    }

    /// Moves an ongoing board to `Won` exactly when the cleared-cell
    /// counter has reached the win threshold.
    fn mark_won_if_threshold(&mut self)
        requires
            old(self).wf_core(),
            old(self).board_state is Ongoing,
        ensures
            final(self).wf(),
            final(self).width == old(self).width,
            final(self).height == old(self).height,
            final(self).num_mines == old(self).num_mines,
            final(self).true_board == old(self).true_board,
            final(self).entries_cleared == old(self).entries_cleared,
            final(self).revealed_board == old(self).revealed_board,
            final(self).player_ids == old(self).player_ids,
            final(self).board_state == (if old(self).entries_cleared == old(self).threshold() {
                BoardState::Won
            } else {
                BoardState::Ongoing
            }),
            forall|k: int, l: int|
                #![trigger final(self).rev_at(k, l)]
                #![trigger final(self).id_at(k, l)]
                final(self).rev_at(k, l) == old(self).rev_at(k, l) && final(self).id_at(k, l)
                    == old(self).id_at(k, l) && final(self).true_at(k, l) == old(self).true_at(
                    k,
                    l,
                ),
    {
        proof {
            assert(width_times_height_fits(self.width, self.height)) by (nonlinear_arith)
                requires
                    self.width <= 0xffff,
                    self.height <= 0xffff,
            ;
        }
        let size: u32 = (self.width as u32) * (self.height as u32);
        if self.entries_cleared == size - self.num_mines {
            let ghost before = *self;
            self.board_state = BoardState::Won;
            proof {
                assert forall|k: int, l: int|
                    #![trigger self.rev_at(k, l)]
                    #![trigger self.id_at(k, l)]
                    self.rev_at(k, l) == before.rev_at(k, l) && self.id_at(k, l) == before.id_at(
                    k,
                    l,
                ) && self.true_at(k, l) == before.true_at(k, l) by {}
                assert(self.wf());
            }
        } else {
            proof {
                lemma_cleared_le_threshold(*self);
                assert(self.wf());
            }
        }
    }

    /// Discloses a clicked mine and loses the board: the single
    /// changed cell is the mine itself, credited to the clicker.
    #[verifier::rlimit(100)]
    #[verifier::spinoff_prover]
    fn disclose_mine(&mut self, c: (u16, u16), player_id: u8)
        requires
            old(self).wf_core(),
            old(self).board_state is Ongoing,
            old(self).coord_in_bounds(c),
            old(self).rev_at(c.0 as int, c.1 as int) is Unknown,
            old(self).true_at(c.0 as int, c.1 as int) is Mine,
            (old(self).num_mines as int) < old(self).size() ==> old(self).entries_cleared < old(self).threshold(),
        ensures
            final(self).wf(),
            final(self).true_board == old(self).true_board,
            forall|k: int, l: int|
                #![trigger final(self).true_at(k, l)]
                final(self).true_at(k, l) == old(self).true_at(k, l),
            reveal_effect(*old(self), *final(self), seq![c], c, player_id),
    {
        let ghost h = self.height as int;
        let ghost w = self.width as int;
        let ri = c.0 as usize;
        let rj = c.1 as usize;
        proof {
            assert(gview(self.revealed_board)[ri as int] == self.revealed_board@[ri as int]@);
            assert(gview(self.player_ids)[ri as int] == self.player_ids@[ri as int]@);
        }
        let ghost orev = gview(self.revealed_board);
        let ghost oids = gview(self.player_ids);
        set_cell(&mut self.revealed_board, ri, rj, Entry::Mine);
        set_cell(&mut self.player_ids, ri, rj, player_id);
        self.board_state = BoardState::Lost;
        proof {
            lemma_grid_revealed_update(orev, ri as int, rj as int, Entry::Mine);
            lemma_set2_pointwise(orev, h, w, ri as int, rj as int, Entry::Mine);
            lemma_set2_pointwise(oids, h, w, ri as int, rj as int, player_id);
            assert forall|k: int, l: int|
                0 <= k < h && 0 <= l < w && !(k == ri as int && l == rj as int) implies #[trigger] self.rev_at(
                k,
                l,
            ) == old(self).rev_at(k, l) && #[trigger] self.id_at(k, l) == old(self).id_at(
                k,
                l,
            ) by {
                assert(gview(self.revealed_board)[k][l] == set2(
                    orev,
                    ri as int,
                    rj as int,
                    Entry::Mine,
                )[k][l]);
                assert(gview(self.player_ids)[k][l] == set2(
                    oids,
                    ri as int,
                    rj as int,
                    player_id,
                )[k][l]);
            }
            assert(self.rev_at(ri as int, rj as int) == Entry::Mine);
            assert forall|k: int, l: int|
                0 <= k < h && 0 <= l < w && !((#[trigger] self.rev_at(k, l))
                    is Unknown) implies self.true_board is Some && self.rev_at(k, l)
                == self.true_at(k, l) by {
                if !(k == ri as int && l == rj as int) {
                    assert(self.rev_at(k, l) == old(self).rev_at(k, l));
                }
            }
            assert(self.wf());
            assert forall|k: int, l: int| #[trigger] self.true_at(k, l) == old(self).true_at(
                k,
                l,
            ) by {}
        }
    }

    /// Reveals every still-hidden neighbor of the zero-count cell `c`
    /// popped from the work list, keeping the cascade bookkeeping.
    #[verifier::loop_isolation(false)]
    #[verifier::rlimit(100)]
    #[verifier::spinoff_prover]
    fn cascade_neighbors(
        &mut self,
        Ghost(pre): Ghost<MultiplayerBoard>,
        c: (u16, u16),
        reveal_coords: (u16, u16),
        player_id: u8,
        changed: &mut Vec<(u16, u16)>,
        unchecked: &mut Vec<(u16, u16)>,
    )
        requires
            cascade_core_inv(
                pre,
                *old(self),
                old(changed)@,
                old(unchecked)@,
                reveal_coords,
                player_id,
            ),
            cascade_closed_except(*old(self), old(changed)@, old(unchecked)@, Some(c)),
            old(changed)@.contains(c),
            !old(unchecked)@.contains(c),
            old(self).rev_at(c.0 as int, c.1 as int) == (Entry::Revealed { num_mines: 0 }),
            c.0 < old(self).height,
            c.1 < old(self).width,
        ensures
            cascade_core_inv(
                pre,
                *final(self),
                final(changed)@,
                final(unchecked)@,
                reveal_coords,
                player_id,
            ),
            cascade_closed_except(*final(self), final(changed)@, final(unchecked)@, None),
            final(self).entries_cleared >= old(self).entries_cleared,
            final(self).entries_cleared - old(self).entries_cleared == final(unchecked)@.len()
                - old(unchecked)@.len(),
    {
        let ghost h = pre.height as int;
        let ghost w = pre.width as int;
        let ghost cleared0 = self.entries_cleared;
        let ghost ulen0 = unchecked@.len();
        let adj = adjacent_coords(c, self.width, self.height);
        let mut m: usize = 0;
        while m < adj.len()
            invariant
                m <= adj@.len(),
                cascade_core_inv(pre, *self, changed@, unchecked@, reveal_coords, player_id),
                cascade_closed_except(*self, changed@, unchecked@, Some(c)),
                c.0 < self.height,
                c.1 < self.width,
                self.rev_at(c.0 as int, c.1 as int) == (Entry::Revealed { num_mines: 0 }),
                changed@.contains(c),
                !unchecked@.contains(c),
                forall|q: int|
                    0 <= q < m ==> !(self.rev_at(
                        (#[trigger] adj@[q]).0 as int,
                        adj@[q].1 as int,
                    ) is Unknown),
                self.entries_cleared >= cleared0,
                self.entries_cleared - cleared0 == unchecked@.len() - ulen0,
            decreases adj@.len() - m,
        {
                    let nc = adj[m];
                    proof {
                        assert(adj@[m as int].0 < self.height && adj@[m as int].1 < self.width
                            && is_adjacent(adj@[m as int], c));
                    }
                    if self.revealed_entry_at(nc).is_unknown() {
                        proof {
                            let t = gview(self.true_board.unwrap());
                            let tci = c.0 as int;
                            let tcj = c.1 as int;
                            assert(self.true_at(tci, tcj) == (Entry::Revealed { num_mines: 0 }));
                            assert(t[tci][tcj] == (Entry::Revealed { num_mines: 0 }));
                            assert(adjacent_mine_count(t, tci, tcj, h, w) == 0);
                            assert(mine_at(t, tci - 1, tcj - 1, h, w) == 0);
                            assert(mine_at(t, tci - 1, tcj, h, w) == 0);
                            assert(mine_at(t, tci - 1, tcj + 1, h, w) == 0);
                            assert(mine_at(t, tci, tcj - 1, h, w) == 0);
                            assert(mine_at(t, tci, tcj + 1, h, w) == 0);
                            assert(mine_at(t, tci + 1, tcj - 1, h, w) == 0);
                            assert(mine_at(t, tci + 1, tcj, h, w) == 0);
                            assert(mine_at(t, tci + 1, tcj + 1, h, w) == 0);
                            assert(mine_at(t, nc.0 as int, nc.1 as int, h, w) == 0);
                            assert(!(self.true_at(nc.0 as int, nc.1 as int) is Mine));
                            if changed@.contains(nc) {
                                let q = choose|q: int|
                                    0 <= q < changed@.len() && changed@[q] == nc;
                            }
                            assert(!changed@.contains(nc));
                        }
                        let ghost chprev = changed@;
                        let ghost uprev = unchecked@;
                        let ghost selfpre = *self;
                        self.disclose_safe_cell(nc, 0);
                        changed.push(nc);
                        unchecked.push(nc);
                        proof {
                            lemma_push_keeps(chprev, changed@, nc);
                            lemma_push_no_dup(chprev, nc);
                            lemma_push_keeps(uprev, unchecked@, nc);
                            assert(changed@[chprev.len() as int] == nc);
                            assert forall|a: int, b: int|
                                #![trigger self.rev_at(a, b)]
                                0 <= a < self.height as int && 0 <= b < self.width as int
                                    && !changed@.contains(
                                ((a as u16), (b as u16)),
                            ) implies self.rev_at(a, b) == pre.rev_at(a, b) && self.id_at(
                                a,
                                b,
                            ) == pre.id_at(a, b) by {
                                let cu = ((a as u16), (b as u16));
                                assert(!chprev.contains(cu));
                                assert(!(a == nc.0 as int && b == nc.1 as int));
                            }
                            assert forall|k: int|
                                0 <= k < changed@.len() implies (#[trigger] changed@[k]).0
                                < self.height && changed@[k].1 < self.width && pre.rev_at(
                                changed@[k].0 as int,
                                changed@[k].1 as int,
                            ) is Unknown && self.rev_at(changed@[k].0 as int, changed@[k].1 as int)
                                is Revealed && self.rev_at(
                                changed@[k].0 as int,
                                changed@[k].1 as int,
                            ) == self.true_at(changed@[k].0 as int, changed@[k].1 as int) by {
                                if k < chprev.len() as int {
                                    assert(changed@[k] == chprev[k]);
                                    assert(changed@[k] != nc);
                                }
                            }
                            lemma_cleared_le_threshold(*self);
                            assert(c != nc);
                            assert(!uprev.contains(nc)) by {
                                if uprev.contains(nc) {
                                    let q = choose|q: int| 0 <= q < uprev.len() && uprev[q] == nc;
                                    assert(chprev.contains(uprev[q]));
                                }
                            }
                            lemma_push_no_dup(uprev, nc);
                            assert(!unchecked@.contains(c)) by {
                                if unchecked@.contains(c) {
                                    let q = choose|q: int|
                                        0 <= q < unchecked@.len() && unchecked@[q] == c;
                                    if q < uprev.len() as int {
                                        assert(uprev[q] == c);
                                    } else {
                                        assert(unchecked@[q] == nc);
                                    }
                                }
                            }
                            assert(self.rev_at(c.0 as int, c.1 as int) == (Entry::Revealed {
                                num_mines: 0,
                            }));
                            assert forall|k: int, a: int, b: int|
                                #![trigger changed@[k], self.rev_at(a, b)]
                                0 <= k < changed@.len() && 0 <= a < h && 0 <= b < w
                                    && self.rev_at(changed@[k].0 as int, changed@[k].1 as int)
                                    == (Entry::Revealed { num_mines: 0 }) && !unchecked@.contains(
                                    changed@[k],
                                ) && changed@[k] != c && is_adjacent(
                                    ((a as u16), (b as u16)),
                                    changed@[k],
                                ) implies !(self.rev_at(a, b) is Unknown) by {
                                assert(unchecked@.contains(nc));
                                assert(changed@[k] != nc);
                                assert(k < chprev.len() as int);
                                assert(changed@[k] == chprev[k]);
                                assert(!uprev.contains(chprev[k])) by {
                                    if uprev.contains(chprev[k]) {
                                        let q = choose|q: int|
                                            0 <= q < uprev.len() && uprev[q] == chprev[k];
                                        assert(unchecked@[q] == chprev[k]);
                                    }
                                }
                                assert(selfpre.rev_at(chprev[k].0 as int, chprev[k].1 as int)
                                    == self.rev_at(changed@[k].0 as int, changed@[k].1 as int));
                                assert(!(selfpre.rev_at(a, b) is Unknown) || (a == nc.0 as int && b
                                    == nc.1 as int));
                            }
                            assert forall|k: int|
                                #![trigger changed@[k]]
                                1 <= k < changed@.len() implies exists|m2: int|
                                    0 <= m2 < changed@.len() && is_adjacent(
                                        changed@[k],
                                        changed@[m2],
                                    ) && self.rev_at(changed@[m2].0 as int, changed@[m2].1 as int)
                                        == (Entry::Revealed { num_mines: 0 }) by {
                                if k == chprev.len() as int {
                                    let mc = choose|mc: int|
                                        0 <= mc < chprev.len() && chprev[mc] == c;
                                    assert(changed@[mc] == chprev[mc]);
                                    assert(is_adjacent(nc, c));
                                    assert(0 <= mc < changed@.len() && is_adjacent(
                                        changed@[k],
                                        changed@[mc],
                                    ) && self.rev_at(changed@[mc].0 as int, changed@[mc].1 as int)
                                        == (Entry::Revealed { num_mines: 0 }));
                                } else {
                                    let m2 = choose|m2: int|
                                        0 <= m2 < chprev.len() && is_adjacent(
                                            chprev[k],
                                            chprev[m2],
                                        ) && selfpre.rev_at(
                                            chprev[m2].0 as int,
                                            chprev[m2].1 as int,
                                        ) == (Entry::Revealed { num_mines: 0 });
                                    assert(chprev[m2] != nc);
                                    assert(self.rev_at(chprev[m2].0 as int, chprev[m2].1 as int)
                                        == selfpre.rev_at(
                                        chprev[m2].0 as int,
                                        chprev[m2].1 as int,
                                    ));
                                    assert(0 <= m2 < changed@.len() && is_adjacent(
                                        changed@[k],
                                        changed@[m2],
                                    ) && self.rev_at(changed@[m2].0 as int, changed@[m2].1 as int)
                                        == (Entry::Revealed { num_mines: 0 }));
                                }
                            }
                            assert((self.true_at(
                                reveal_coords.0 as int,
                                reveal_coords.1 as int,
                            ) matches Entry::Revealed { num_mines: nn } && nn != 0)
                                ==> changed@.len() == 1) by {
                                if chprev.len() == 1 {
                                    let q = choose|q: int| 0 <= q < chprev.len() && chprev[q] == c;
                                    assert(c == chprev[0]);
                                    assert(c == reveal_coords);
                                    assert(selfpre.rev_at(c.0 as int, c.1 as int)
                                        == selfpre.true_at(c.0 as int, c.1 as int));
                                    assert(self.true_at(
                                        reveal_coords.0 as int,
                                        reveal_coords.1 as int,
                                    ) == (Entry::Revealed { num_mines: 0 }));
                                }
                            }
                        }
                    }
                    m = m + 1;
                }
                proof {
                    assert forall|a: int, b: int|
                        0 <= a < h && 0 <= b < w && is_adjacent(
                            ((a as u16), (b as u16)),
                            c,
                        ) implies !(self.rev_at(a, b) is Unknown) by {
                        let cu = ((a as u16), (b as u16));
                        assert(adj@.contains(cu));
                        let q = choose|q: int| 0 <= q < adj@.len() && adj@[q] == cu;
                        assert(!(self.rev_at(adj@[q].0 as int, adj@[q].1 as int) is Unknown));
                    }
                    assert forall|k: int, a: int, b: int|
                        #![trigger changed@[k], self.rev_at(a, b)]
                        0 <= k < changed@.len() && 0 <= a < h && 0 <= b < w && self.rev_at(
                            changed@[k].0 as int,
                            changed@[k].1 as int,
                        ) == (Entry::Revealed { num_mines: 0 }) && !unchecked@.contains(
                            changed@[k],
                        ) && is_adjacent(((a as u16), (b as u16)), changed@[k]) implies !(
                    self.rev_at(a, b) is Unknown) by {
                        if changed@[k] == c {
                            assert(is_adjacent(((a as u16), (b as u16)), c));
                        }
                    }
                }
    }

    /// Reveals a hidden cell on an ongoing board and runs the
    /// zero-count flood cascade.
    #[verifier::rlimit(100)]
    #[verifier::spinoff_prover]
    fn reveal_ongoing(&mut self, reveal_coords: (u16, u16), player_id: u8) -> (changed: Vec<
        (u16, u16),
    >)
        requires
            old(self).wf_core(),
            old(self).board_state is Ongoing,
            old(self).coord_in_bounds(reveal_coords),
            (old(self).num_mines as int) < old(self).size() ==> old(self).entries_cleared < old(self).threshold(),
        ensures
            final(self).wf(),
            final(self).width == old(self).width,
            final(self).height == old(self).height,
            final(self).num_mines == old(self).num_mines,
            final(self).true_board == old(self).true_board,
            forall|k: int, l: int|
                #![trigger final(self).true_at(k, l)]
                final(self).true_at(k, l) == old(self).true_at(k, l),
            if old(self).rev_at(reveal_coords.0 as int, reveal_coords.1 as int) is Unknown {
                reveal_effect(*old(self), *final(self), changed@, reveal_coords, player_id)
            } else {
                *final(self) == *old(self) && changed@.len() == 0
            },
    {
        let ghost h = self.height as int;
        let ghost w = self.width as int;
        let ri = reveal_coords.0 as usize;
        let rj = reveal_coords.1 as usize;
        if !self.revealed_entry_at(reveal_coords).is_unknown() {
            return Vec::new();
        }
        let tv = self.true_cell(reveal_coords);
        if tv.is_mine() {
            self.disclose_mine(reveal_coords, player_id);
            let mut changed: Vec<(u16, u16)> = Vec::new();
            changed.push(reveal_coords);
            proof {
                assert(changed@ =~= seq![reveal_coords]);
            }
            return changed;
        }
        self.disclose_safe_cell(reveal_coords, player_id);
        let mut changed: Vec<(u16, u16)> = Vec::new();
        changed.push(reveal_coords);
        let mut unchecked: Vec<(u16, u16)> = Vec::new();
        unchecked.push(reveal_coords);
        proof {
            lemma_cleared_le_threshold(*self);
            assert(changed@[0] == reveal_coords);
            assert(unchecked@[0] == reveal_coords);
            assert forall|a: int, b: int|
                #![trigger self.rev_at(a, b)]
                0 <= a < h && 0 <= b < w && !changed@.contains(
                ((a as u16), (b as u16)),
            ) implies self.rev_at(a, b) == old(self).rev_at(a, b) && self.id_at(a, b) == old(self).id_at(a, b) by {
                if a == reveal_coords.0 as int && b == reveal_coords.1 as int {
                    assert(changed@[0] == ((a as u16), (b as u16)));
                    assert(changed@.contains(((a as u16), (b as u16))));
                }
            }
            assert forall|k: int|
                0 <= k < unchecked@.len() implies changed@.contains(
                #[trigger] unchecked@[k],
            ) by {
                assert(unchecked@[k] == reveal_coords);
                assert(changed@[0] == reveal_coords);
            }
            assert(unchecked@.contains(reveal_coords)) by {
                assert(unchecked@[0] == reveal_coords);
            }
            assert forall|k: int, a: int, b: int|
                #![trigger changed@[k], self.rev_at(a, b)]
                0 <= k < changed@.len() && 0 <= a < h && 0 <= b < w && self.rev_at(
                    changed@[k].0 as int,
                    changed@[k].1 as int,
                ) == (Entry::Revealed { num_mines: 0 }) && !unchecked@.contains(changed@[k])
                    && is_adjacent(((a as u16), (b as u16)), changed@[k]) implies !(self.rev_at(
                a,
                b,
            ) is Unknown) by {
                assert(changed@[k] == reveal_coords);
                assert(unchecked@.contains(changed@[k]));
            }
        }
        let ghost fnpre = *old(self);
        proof {
            assert(cascade_core_inv(fnpre, *self, changed@, unchecked@, reveal_coords, player_id));
            assert(cascade_closed_except(*self, changed@, unchecked@, None));
        }
        while unchecked.len() > 0
            invariant
                fnpre == *old(self),
                cascade_core_inv(fnpre, *self, changed@, unchecked@, reveal_coords, player_id),
                cascade_closed_except(*self, changed@, unchecked@, None),
            decreases self.width as int * self.height as int - self.entries_cleared,
                unchecked@.len(),
        {
            let ghost upre = unchecked@;
            let c = unchecked.pop().unwrap();
            proof {
                assert(changed@.contains(c));
                let ci = choose|ci: int| 0 <= ci < changed@.len() && changed@[ci] == c;
                assert(changed@[ci].0 < self.height && changed@[ci].1 < self.width);
                assert(unchecked@ =~= upre.drop_last());
                assert(!unchecked@.contains(c)) by {
                    if unchecked@.contains(c) {
                        let q = choose|q: int| 0 <= q < unchecked@.len() && unchecked@[q] == c;
                        assert(upre[q] == upre[upre.len() - 1]);
                    }
                }
                assert forall|k: int, a: int, b: int|
                    #![trigger changed@[k], self.rev_at(a, b)]
                    0 <= k < changed@.len() && 0 <= a < self.height as int && 0 <= b < self.width
                        as int && self.rev_at(changed@[k].0 as int, changed@[k].1 as int) == (
                Entry::Revealed { num_mines: 0 }) && !unchecked@.contains(changed@[k])
                        && Some(changed@[k]) != Some(c) && is_adjacent(
                        ((a as u16), (b as u16)),
                        changed@[k],
                    ) implies !(self.rev_at(a, b) is Unknown) by {
                    assert(!upre.contains(changed@[k])) by {
                        if upre.contains(changed@[k]) {
                            let q = choose|q: int| 0 <= q < upre.len() && upre[q] == changed@[k];
                            if q < upre.len() - 1 {
                                assert(unchecked@[q] == changed@[k]);
                            }
                        }
                    }
                }
                assert(cascade_closed_except(*self, changed@, unchecked@, Some(c)));
            }
            let e = self.revealed_entry_at(c);
            if let Entry::Revealed { num_mines: 0 } = e {
                self.cascade_neighbors(
                    Ghost(fnpre),
                    c,
                    reveal_coords,
                    player_id,
                    &mut changed,
                    &mut unchecked,
                );
            } else {
                proof {
                    assert forall|k: int, a: int, b: int|
                        #![trigger changed@[k], self.rev_at(a, b)]
                        0 <= k < changed@.len() && 0 <= a < self.height as int && 0 <= b
                            < self.width as int && self.rev_at(
                            changed@[k].0 as int,
                            changed@[k].1 as int,
                        ) == (Entry::Revealed { num_mines: 0 }) && !unchecked@.contains(
                            changed@[k],
                        ) && is_adjacent(((a as u16), (b as u16)), changed@[k]) implies !(
                    self.rev_at(a, b) is Unknown) by {
                        assert(self.rev_at(c.0 as int, c.1 as int) == e);
                        if changed@[k] != c {
                            assert(!upre.contains(changed@[k])) by {
                                if upre.contains(changed@[k]) {
                                    let q = choose|q: int|
                                        0 <= q < upre.len() && upre[q] == changed@[k];
                                    if q < upre.len() - 1 {
                                        assert(unchecked@[q] == changed@[k]);
                                    }
                                }
                            }
                        }
                    }
                    assert(cascade_closed_except(*self, changed@, unchecked@, None));
                }
            }
        }
        proof {
            lemma_cleared_le_threshold(*self);
        }
        self.mark_won_if_threshold();
        proof {
            assert forall|k: int, l: int| #[trigger] self.true_at(k, l) == old(self).true_at(
                k,
                l,
            ) by {}
        }
        changed
    }

    /// Reveals the given square and returns the list of coordinates
    /// whose revealed entry changed. The first reveal of a board
    /// generates the true layout with `reveal_coords` as the safe
    /// first click; on a finished board the call does nothing.
    /// Generates the true layout for the first click and moves the
    /// board to `Ongoing`: the whole board is mined when the count
    /// fills it; otherwise the click is spared, and its whole
    /// neighborhood too when the density permits.
    #[verifier::rlimit(100)]
    #[verifier::spinoff_prover]
    fn generate_layout(&mut self, reveal_coords: (u16, u16))
        requires
            old(self).wf(),
            old(self).board_state is Uninitialized,
            old(self).coord_in_bounds(reveal_coords),
        ensures
            final(self).wf_core(),
            final(self).board_state is Ongoing,
            final(self).width == old(self).width,
            final(self).height == old(self).height,
            final(self).num_mines == old(self).num_mines,
            final(self).revealed_board == old(self).revealed_board,
            final(self).player_ids == old(self).player_ids,
            final(self).entries_cleared == old(self).entries_cleared,
            final(self).true_board is Some,
            forall|k: int, l: int|
                #![trigger final(self).rev_at(k, l)]
                0 <= k < old(self).height as int && 0 <= l < old(self).width as int ==> final(self).rev_at(k, l) is Unknown,
            ((old(self).num_mines as int) + neighbor_count(
                reveal_coords,
                old(self).height as int,
                old(self).width as int,
            ) + 1 <= old(self).size() ==> forall|cc: (u16, u16)|
                cc.0 < old(self).height && cc.1 < old(self).width && (is_adjacent(
                    cc,
                    reveal_coords,
                ) || cc == reveal_coords) ==> !((#[trigger] final(self).true_at(
                    cc.0 as int,
                    cc.1 as int,
                )) is Mine)),
            ((old(self).num_mines as int) == old(self).size() ==> final(self).true_at(
                reveal_coords.0 as int,
                reveal_coords.1 as int,
            ) is Mine),
            ((old(self).num_mines as int) < old(self).size() ==> !(final(self).true_at(
                reveal_coords.0 as int,
                reveal_coords.1 as int,
            ) is Mine)),
    {
        let mines = sample_mines(self.width, self.height, reveal_coords, self.num_mines);
        let t = layout_from_mines(self.width, self.height, &mines);
        self.true_board = Some(t);
        self.board_state = BoardState::Ongoing;
        proof {
            assert forall|k: int, l: int|
                #![trigger self.rev_at(k, l)]
                #![trigger self.id_at(k, l)]
                0 <= k < self.height as int && 0 <= l < self.width as int implies self.rev_at(
                k,
                l,
            ) is Unknown && self.id_at(k, l) == old(self).id_at(k, l) && self.rev_at(k, l) == old(self).rev_at(k, l) by {
                assert(self.rev_at(k, l) == old(self).rev_at(k, l));
                assert(self.id_at(k, l) == old(self).id_at(k, l));
                if !(old(self).rev_at(k, l) is Unknown) {
                    assert(old(self).true_board is Some);
                }
            }
            assert(mines@.len() == self.num_mines);
            assert(gview(self.true_board.unwrap()) == gview(t));
            assert(layout_wf(
                gview(self.true_board.unwrap()),
                self.height as int,
                self.width as int,
                self.num_mines as int,
            ));
            assert(self.wf_core());
            let tv = gview(self.true_board.unwrap());
            assert forall|cc: (u16, u16)|
                cc.0 < self.height && cc.1 < self.width implies ((tv[cc.0 as int][cc.1 as int]
                is Mine) <==> mines@.contains(cc)) by {
                assert(gview(t)[cc.0 as int][cc.1 as int] == tv[cc.0 as int][cc.1 as int]);
            }
            if (old(self).num_mines as int) == old(self).size() {
                assert(mines@.contains(reveal_coords));
            }
            if (old(self).num_mines as int) < old(self).size() {
                if mines@.contains(reveal_coords) {
                    let q = choose|q: int| 0 <= q < mines@.len() && mines@[q] == reveal_coords;
                }
                assert(!(self.true_at(reveal_coords.0 as int, reveal_coords.1 as int) is Mine));
            }
            if (old(self).num_mines as int) + neighbor_count(
                reveal_coords,
                old(self).height as int,
                old(self).width as int,
            ) + 1 <= old(self).size() {
                assert forall|cc: (u16, u16)|
                    cc.0 < old(self).height && cc.1 < old(self).width && (is_adjacent(
                        cc,
                        reveal_coords,
                    ) || cc == reveal_coords) implies !((#[trigger] self.true_at(
                    cc.0 as int,
                    cc.1 as int,
                )) is Mine) by {
                    if mines@.contains(cc) {
                        let q = choose|q: int| 0 <= q < mines@.len() && mines@[q] == cc;
                    }
                }
            }
        }
    }

    #[verifier::rlimit(100)]
    #[verifier::spinoff_prover]
    pub fn reveal_square(&mut self, reveal_coords: (u16, u16), player_id: u8) -> (changed: Vec<
        (u16, u16),
    >)
        requires
            old(self).wf(),
            old(self).coord_in_bounds(reveal_coords),
        ensures
            final(self).wf(),
            final(self).width == old(self).width,
            final(self).height == old(self).height,
            final(self).num_mines == old(self).num_mines,
            (old(self).board_state is Lost || old(self).board_state is Won) ==> (*final(self)
                == *old(self) && changed@.len() == 0),
            old(self).board_state is Ongoing ==> (final(self).true_board == old(self).true_board
                && (if old(self).rev_at(reveal_coords.0 as int, reveal_coords.1 as int)
                is Unknown {
                reveal_effect(*old(self), *final(self), changed@, reveal_coords, player_id)
            } else {
                *final(self) == *old(self) && changed@.len() == 0
            })),
            old(self).board_state is Uninitialized ==> (final(self).true_board is Some
                && reveal_effect(*old(self), *final(self), changed@, reveal_coords, player_id) && (
            (old(self).num_mines as int) + neighbor_count(
                reveal_coords,
                old(self).height as int,
                old(self).width as int,
            ) + 1 <= old(self).size() ==> forall|cc: (u16, u16)|
                cc.0 < old(self).height && cc.1 < old(self).width && (is_adjacent(
                    cc,
                    reveal_coords,
                ) || cc == reveal_coords) ==> !((#[trigger] final(self).true_at(
                    cc.0 as int,
                    cc.1 as int,
                )) is Mine)) && ((old(self).num_mines as int) == old(self).size()
                ==> final(self).true_at(reveal_coords.0 as int, reveal_coords.1 as int) is Mine)
                && ((old(self).num_mines as int) < old(self).size() ==> !(final(self).true_at(
                reveal_coords.0 as int,
                reveal_coords.1 as int,
            ) is Mine))),
    {
        match self.board_state {
            BoardState::Uninitialized => {
                self.generate_layout(reveal_coords);
                let changed = self.reveal_ongoing(reveal_coords, player_id);
                changed
            },
            BoardState::Ongoing => self.reveal_ongoing(reveal_coords, player_id),
            BoardState::Lost | BoardState::Won => Vec::new(),
        }
    }

    /// Chording: when a revealed cell has exactly as many flagged
    /// neighbors as its own adjacent-mine count, reveals every hidden
    /// unflagged neighbor. If any of those reveals uncovers a mine,
    /// the returned list holds exactly the newly uncovered mine
    /// coordinates; otherwise it holds exactly the cells whose
    /// revealed entry changed.
    #[verifier::rlimit(100)]
    #[verifier::spinoff_prover]
    pub fn chord_square(&mut self, chord_coords: (u16, u16), player_id: u8) -> (changed: Vec<
        (u16, u16),
    >)
        requires
            old(self).wf(),
            old(self).coord_in_bounds(chord_coords),
        ensures
            final(self).wf(),
            final(self).width == old(self).width,
            final(self).height == old(self).height,
            final(self).num_mines == old(self).num_mines,
            final(self).true_board == old(self).true_board,
            !(old(self).board_state is Ongoing) ==> (*final(self) == *old(self) && changed@.len()
                == 0),
            (old(self).board_state is Ongoing && !(old(self).rev_at(
                chord_coords.0 as int,
                chord_coords.1 as int,
            ) is Revealed)) ==> (*final(self) == *old(self) && changed@.len() == 0),
            (old(self).board_state is Ongoing && (old(self).rev_at(
                chord_coords.0 as int,
                chord_coords.1 as int,
            ) matches Entry::Revealed { num_mines } && num_mines as nat != adjacent_flag_count(
                gview(old(self).revealed_board),
                chord_coords.0 as int,
                chord_coords.1 as int,
                old(self).height as int,
                old(self).width as int,
            ))) ==> (*final(self) == *old(self) && changed@.len() == 0),
            forall|a: int, b: int|
                #![trigger final(self).rev_at(a, b)]
                0 <= a < old(self).height as int && 0 <= b < old(self).width as int ==> ((final(self).rev_at(a, b) != old(self).rev_at(a, b) ==> old(self).rev_at(a, b) is Unknown
                    && !(final(self).rev_at(a, b) is Unknown) && final(self).rev_at(a, b) == final(self).true_at(a, b)) && (final(self).rev_at(a, b) == old(self).rev_at(a, b) ==> final(self).id_at(a, b) == old(self).id_at(a, b))),
            (old(self).board_state is Ongoing && (old(self).rev_at(
                chord_coords.0 as int,
                chord_coords.1 as int,
            ) matches Entry::Revealed { num_mines } && num_mines as nat == adjacent_flag_count(
                gview(old(self).revealed_board),
                chord_coords.0 as int,
                chord_coords.1 as int,
                old(self).height as int,
                old(self).width as int,
            )) && final(self).board_state is Ongoing) ==> forall|a: (u16, u16)|
                a.0 < old(self).height && a.1 < old(self).width && is_adjacent(a, chord_coords)
                    && old(self).rev_at(a.0 as int, a.1 as int) == (Entry::Unknown {
                    flagged: false,
                }) ==> !((#[trigger] final(self).rev_at(a.0 as int, a.1 as int)) is Unknown) && !(
                final(self).true_at(a.0 as int, a.1 as int) is Mine),
            (old(self).board_state is Ongoing && final(self).board_state is Lost) ==> (
            changed@.len() >= 1 && changed@.len() < 255 && changed@.no_duplicates() && (forall|
                k: int,
            |
                0 <= k < changed@.len() ==> (#[trigger] changed@[k]).0 < old(self).height
                    && changed@[k].1 < old(self).width && old(self).rev_at(
                    changed@[k].0 as int,
                    changed@[k].1 as int,
                ) == (Entry::Unknown { flagged: false }) && is_adjacent(
                    changed@[k],
                    chord_coords,
                ) && final(self).rev_at(changed@[k].0 as int, changed@[k].1 as int)
                    is Mine) && (forall|a: int, b: int|
                #![trigger final(self).rev_at(a, b)]
                0 <= a < old(self).height as int && 0 <= b < old(self).width as int && old(self).rev_at(a, b) is Unknown && final(self).rev_at(a, b) is Mine
                    ==> changed@.contains(((a as u16), (b as u16))))),
            (old(self).board_state is Ongoing && !(final(self).board_state is Lost)) ==> (
            changed@.no_duplicates() && final(self).entries_cleared == old(self).entries_cleared
                + changed@.len() && (forall|k: int|
                0 <= k < changed@.len() ==> (#[trigger] changed@[k]).0 < old(self).height
                    && changed@[k].1 < old(self).width && old(self).rev_at(
                    changed@[k].0 as int,
                    changed@[k].1 as int,
                ) is Unknown && final(self).rev_at(changed@[k].0 as int, changed@[k].1 as int)
                    is Revealed) && (forall|a: int, b: int|
                #![trigger final(self).rev_at(a, b)]
                0 <= a < old(self).height as int && 0 <= b < old(self).width as int
                    && !changed@.contains(((a as u16), (b as u16))) ==> final(self).rev_at(a, b)
                    == old(self).rev_at(a, b) && final(self).id_at(a, b) == old(self).id_at(
                    a,
                    b,
                )) && (changed@.len() == 0 ==> *final(self) == *old(self)) && (changed@.len() >= 1
                ==> (final(self).board_state is Won
                <==> final(self).entries_cleared == final(self).threshold()))),
    {
        let ghost h = self.height as int;
        let ghost w = self.width as int;
        match self.board_state {
            BoardState::Uninitialized | BoardState::Lost | BoardState::Won => Vec::new(),
            BoardState::Ongoing => {
                let e = self.revealed_entry_at(chord_coords);
                if let Entry::Revealed { num_mines } = e {
                    let num_flags = count_adjacent_flags(
                        &self.revealed_board,
                        chord_coords.0,
                        chord_coords.1,
                        self.width,
                        self.height,
                    );
                    if num_mines != num_flags {
                        return Vec::new();
                    }
                    let adj = adjacent_coords(chord_coords, self.width, self.height);
                    let mut changed: Vec<(u16, u16)> = Vec::new();
                    let mut mines: Vec<(u16, u16)> = Vec::new();
                    let mut m: usize = 0;
                    while m < adj.len()
                        invariant
                            m <= adj@.len(),
                            self.wf(),
                            self.width == old(self).width,
                            self.height == old(self).height,
                            self.num_mines == old(self).num_mines,
                            self.true_board == old(self).true_board,
                            h == self.height as int,
                            w == self.width as int,
                            old(self).wf(),
                            old(self).board_state is Ongoing,
                            chord_coords.0 < self.height,
                            chord_coords.1 < self.width,
                            forall|k: int|
                                0 <= k < adj@.len() ==> (#[trigger] adj@[k]).0 < self.height
                                    && adj@[k].1 < self.width && is_adjacent(
                                    adj@[k],
                                    chord_coords,
                                ),
                            forall|cc: (u16, u16)|
                                cc.0 < self.height && cc.1 < self.width && is_adjacent(
                                    cc,
                                    chord_coords,
                                ) ==> adj@.contains(cc),
                            adj@.no_duplicates(),
                            changed@.no_duplicates(),
                            forall|k: int|
                                0 <= k < changed@.len() ==> (#[trigger] changed@[k]).0
                                    < self.height && changed@[k].1 < self.width && old(self).rev_at(changed@[k].0 as int, changed@[k].1 as int) is Unknown
                                    && !(self.rev_at(changed@[k].0 as int, changed@[k].1 as int)
                                    is Unknown) && self.rev_at(
                                    changed@[k].0 as int,
                                    changed@[k].1 as int,
                                ) == self.true_at(changed@[k].0 as int, changed@[k].1 as int),
                            self.board_state is Ongoing ==> forall|q: int|
                                0 <= q < m && old(self).rev_at(
                                    (#[trigger] adj@[q]).0 as int,
                                    adj@[q].1 as int,
                                ) == (Entry::Unknown { flagged: false }) ==> !(self.rev_at(
                                    adj@[q].0 as int,
                                    adj@[q].1 as int,
                                ) is Unknown) && !(self.true_at(adj@[q].0 as int, adj@[q].1 as int)
                                    is Mine),
                            forall|a: int, b: int|
                                #![trigger self.rev_at(a, b)]
                                0 <= a < h && 0 <= b < w && !changed@.contains(
                                    ((a as u16), (b as u16)),
                                ) ==> self.rev_at(a, b) == old(self).rev_at(a, b) && self.id_at(
                                    a,
                                    b,
                                ) == old(self).id_at(a, b),
                            !(self.board_state is Lost) ==> (self.board_state is Ongoing
                                || self.board_state is Won) && self.entries_cleared == old(self).entries_cleared + changed@.len() && mines@.len() == 0 && (forall|
                                k: int,
                            |
                                0 <= k < changed@.len() ==> self.rev_at(
                                    (#[trigger] changed@[k]).0 as int,
                                    changed@[k].1 as int,
                                ) is Revealed) && (changed@.len() == 0 ==> *self == *old(self)
                                && self.board_state is Ongoing) && (changed@.len() >= 1 ==> (
                            self.board_state is Won <==> self.entries_cleared
                                == self.threshold())),
                            self.board_state is Lost ==> (mines@.len() == 1
                                && mines@.no_duplicates() && (forall|k: int|
                                0 <= k < mines@.len() ==> (#[trigger] mines@[k]).0 < self.height
                                    && mines@[k].1 < self.width && old(self).rev_at(
                                    mines@[k].0 as int,
                                    mines@[k].1 as int,
                                ) == (Entry::Unknown { flagged: false }) && is_adjacent(
                                    mines@[k],
                                    chord_coords,
                                ) && self.rev_at(mines@[k].0 as int, mines@[k].1 as int)
                                    is Mine) && (forall|a: int, b: int|
                                #![trigger self.rev_at(a, b)]
                                0 <= a < h && 0 <= b < w && old(self).rev_at(a, b) is Unknown
                                    && self.rev_at(a, b) is Mine ==> mines@.contains(
                                    ((a as u16), (b as u16))))),
                        decreases adj@.len() - m,
                    {
                        let nc = adj[m];
                        let re = self.revealed_entry_at(nc);
                        if re.is_unknown() && !re.is_flagged() {
                            let was_lost = match self.board_state {
                                BoardState::Lost => true,
                                _ => false,
                            };
                            let ghost pre_call = *self;
                            let ghost chprev = changed@;
                            let new_changed = self.reveal_square(nc, player_id);
                            let now_lost = match self.board_state {
                                BoardState::Lost => true,
                                _ => false,
                            };
                            proof {
                                assert forall|k: int|
                                    0 <= k < new_changed@.len() implies !chprev.contains(
                                    #[trigger] new_changed@[k],
                                ) by {
                                    if chprev.contains(new_changed@[k]) {
                                        let q = choose|q: int|
                                            0 <= q < chprev.len() && chprev[q]
                                                == new_changed@[k];
                                    }
                                }
                                lemma_concat_facts(chprev, new_changed@);
                            }
                            if now_lost && !was_lost {
                                let mc = new_changed[0];
                                mines.push(mc);
                                proof {
                                    assert(mines@.len() == 1);
                                    assert(mines@[0] == mc);
                                    assert(mc == nc);
                                    assert(pre_call.rev_at(nc.0 as int, nc.1 as int) == old(self).rev_at(nc.0 as int, nc.1 as int)) by {
                                        if chprev.contains(nc) {
                                            let q = choose|q: int|
                                                0 <= q < chprev.len() && chprev[q] == nc;
                                        }
                                    }
                                    assert(old(self).rev_at(nc.0 as int, nc.1 as int) == (
                                    Entry::Unknown { flagged: false }));
                                    assert(is_adjacent(nc, chord_coords));
                                }
                            }
                            append_all(&mut changed, &new_changed);
                            proof {
                                assert forall|a: int, b: int|
                                    #![trigger self.rev_at(a, b)]
                                    0 <= a < h && 0 <= b < w && !changed@.contains(
                                    ((a as u16), (b as u16)),
                                ) implies self.rev_at(a, b) == old(self).rev_at(a, b)
                                    && self.id_at(a, b) == old(self).id_at(a, b) by {
                                    let cu = ((a as u16), (b as u16));
                                    assert(!chprev.contains(cu));
                                    assert(!new_changed@.contains(cu));
                                    if self.board_state is Lost && !(pre_call.board_state
                                        is Lost) {
                                        assert(new_changed@[0] == nc);
                                        assert(!(a == nc.0 as int && b == nc.1 as int));
                                        lemma_set2_pointwise(
                                            gview(pre_call.revealed_board),
                                            h,
                                            w,
                                            nc.0 as int,
                                            nc.1 as int,
                                            Entry::Mine,
                                        );
                                        lemma_set2_pointwise(
                                            gview(pre_call.player_ids),
                                            h,
                                            w,
                                            nc.0 as int,
                                            nc.1 as int,
                                            player_id,
                                        );
                                        assert(gview(self.revealed_board)[a][b] == gview(
                                            pre_call.revealed_board,
                                        )[a][b]);
                                        assert(gview(self.player_ids)[a][b] == gview(
                                            pre_call.player_ids,
                                        )[a][b]);
                                        assert(self.rev_at(a, b) == pre_call.rev_at(a, b));
                                        assert(self.id_at(a, b) == pre_call.id_at(a, b));
                                    }
                                }
                                if self.board_state is Lost && !(pre_call.board_state
                                    is Lost) {
                                    assert forall|a: int, b: int|
                                        #![trigger self.rev_at(a, b)]
                                        0 <= a < h && 0 <= b < w && old(self).rev_at(a, b)
                                            is Unknown && self.rev_at(a, b)
                                            is Mine implies mines@.contains(
                                        ((a as u16), (b as u16)),
                                    ) by {
                                        let cu = ((a as u16), (b as u16));
                                        if !(a == nc.0 as int && b == nc.1 as int) {
                                            if chprev.contains(cu) {
                                                let q = choose|q: int|
                                                    0 <= q < chprev.len() && chprev[q] == cu;
                                                assert(pre_call.rev_at(a, b) is Revealed);
                                            } else {
                                                assert(pre_call.rev_at(a, b) == self.rev_at(
                                                    a,
                                                    b,
                                                ));
                                            }
                                        } else {
                                            assert(mines@[0] == cu);
                                        }
                                    }
                                }
                            }
                        }
                        proof {
                            if self.board_state is Ongoing {
                                assert forall|q: int|
                                    0 <= q < m + 1 && old(self).rev_at(
                                        (#[trigger] adj@[q]).0 as int,
                                        adj@[q].1 as int,
                                    ) == (Entry::Unknown { flagged: false }) implies !(
                                self.rev_at(adj@[q].0 as int, adj@[q].1 as int) is Unknown) && !(
                                self.true_at(adj@[q].0 as int, adj@[q].1 as int) is Mine) by {
                                    let cu = adj@[q];
                                    if self.rev_at(cu.0 as int, cu.1 as int) != old(self).rev_at(
                                        cu.0 as int,
                                        cu.1 as int,
                                    ) {
                                        assert(changed@.contains(cu));
                                        let kk = choose|kk: int|
                                            0 <= kk < changed@.len() && changed@[kk] == cu;
                                        assert(self.rev_at(cu.0 as int, cu.1 as int)
                                            is Revealed);
                                        assert(self.rev_at(cu.0 as int, cu.1 as int)
                                            == self.true_at(cu.0 as int, cu.1 as int));
                                    } else {
                                        if q == m as int {
                                            assert(self.rev_at(cu.0 as int, cu.1 as int) == e);
                                        }
                                    }
                                }
                            }
                        }
                        m = m + 1;
                    }
                    if mines.len() == 0 {
                        changed
                    } else {
                        proof {
                            assert(self.board_state is Lost);
                        }
                        mines
                    }
                } else {
                    Vec::new()
                }
            },
        }
    }

    /// Toggles the flag on a hidden cell. Returns true exactly when
    /// the board is still mutable and the cell was flaggable; flagging
    /// attributes the cell to `player_id`, unflagging clears the
    /// attribution.
    pub fn toggle_flag_square(&mut self, coords: (u16, u16), player_id: u8) -> (r: bool)
        requires
            old(self).wf(),
            old(self).coord_in_bounds(coords),
        ensures
            final(self).wf(),
            final(self).width == old(self).width,
            final(self).height == old(self).height,
            final(self).num_mines == old(self).num_mines,
            final(self).board_state == old(self).board_state,
            final(self).true_board == old(self).true_board,
            final(self).entries_cleared == old(self).entries_cleared,
            r == ((old(self).board_state is Uninitialized || old(self).board_state is Ongoing)
                && old(self).rev_at(coords.0 as int, coords.1 as int) is Unknown),
            !r ==> *final(self) == *old(self),
            r ==> gview(final(self).revealed_board) == flag_flip_rev(
                gview(old(self).revealed_board),
                coords.0 as int,
                coords.1 as int,
            ),
            r ==> gview(final(self).player_ids) == flag_flip_ids(
                gview(old(self).revealed_board),
                gview(old(self).player_ids),
                coords.0 as int,
                coords.1 as int,
                player_id,
            ),
    {
        let i = coords.0 as usize;
        let j = coords.1 as usize;
        proof {
            assert(gview(self.revealed_board)[i as int] == self.revealed_board@[i as int]@);
            assert(gview(self.player_ids)[i as int] == self.player_ids@[i as int]@);
        }
        match self.board_state {
            BoardState::Uninitialized | BoardState::Ongoing => {
                let e = self.revealed_board[i][j];
                if let Entry::Unknown { flagged } = e {
                    let newly_flagged = !flagged;
                    let ghost old_rev = gview(self.revealed_board);
                    let ghost old_ids = gview(self.player_ids);
                    set_cell(
                        &mut self.revealed_board,
                        i,
                        j,
                        Entry::Unknown { flagged: newly_flagged },
                    );
                    set_cell(
                        &mut self.player_ids,
                        i,
                        j,
                        if newly_flagged {
                            player_id
                        } else {
                            0
                        },
                    );
                    proof {
                        let fi = i as int;
                        let fj = j as int;
                        let h = self.height as int;
                        let w = self.width as int;
                        let v = Entry::Unknown { flagged: newly_flagged };
                        lemma_grid_revealed_update(old_rev, fi, fj, v);
                        lemma_set2_pointwise(old_rev, h, w, fi, fj, v);
                        lemma_set2_pointwise(
                            old_ids,
                            h,
                            w,
                            fi,
                            fj,
                            if newly_flagged {
                                player_id
                            } else {
                                0u8
                            },
                        );
                        assert forall|k: int, l: int|
                            0 <= k < h && 0 <= l < w && !(k == fi && l == fj) implies #[trigger] self.rev_at(
                            k,
                            l,
                        ) == old(self).rev_at(k, l) && #[trigger] self.id_at(k, l) == old(self).id_at(k, l) by {
                            assert(gview(self.revealed_board)[k][l] == set2(old_rev, fi, fj, v)[k][l]);
                        }
                        assert(self.rev_at(fi, fj) == v);
                        assert forall|k: int, l: int|
                            0 <= k < h && 0 <= l < w && !((#[trigger] self.rev_at(k, l))
                                is Unknown) implies self.true_board is Some && self.rev_at(k, l)
                            == self.true_at(k, l) by {
                            assert(!(k == fi && l == fj));
                            assert(self.rev_at(k, l) == old(self).rev_at(k, l));
                            assert(self.true_board == old(self).true_board);
                        }
                        assert(self.wf());
                    }
                    true
                } else {
                    false
                }
            },
            BoardState::Lost | BoardState::Won => false,
        }
    }

    /// Whether a board of these dimensions can be played: positive
    /// sides, each at most 100 (a rendering policy), and no more mines
    /// than cells.
    pub fn possible_config(width: u16, height: u16, num_mines: u32) -> (r: bool)
        ensures
            r == (width >= 1 && height >= 1 && width <= 100 && height <= 100 && num_mines
                <= width as int * height as int),
    {
        if width < 1 || height < 1 {
            false
        } else if width > 100 || height > 100 {
            false
        } else {
            proof {
                assert(width as int * height as int <= 100 * 100) by (nonlinear_arith)
                    requires
                        width <= 100,
                        height <= 100,
                ;
            }
            num_mines <= (width as u32) * (height as u32)
        }
    }
}

/// A grid with the cell at `(i, j)` replaced by `v`.
pub open spec fn set2<T>(g: Seq<Seq<T>>, i: int, j: int, v: T) -> Seq<Seq<T>> {
    g.update(i, g[i].update(j, v))
}

/// Point update of a rectangular grid: the chosen cell takes the new
/// value, every other cell keeps its own.
pub proof fn lemma_set2_pointwise<T>(g: Seq<Seq<T>>, h: int, w: int, i: int, j: int, v: T)
    requires
        rect(g, h, w),
        0 <= i < h,
        0 <= j < w,
    ensures
        rect(set2(g, i, j, v), h, w),
        set2(g, i, j, v)[i][j] == v,
        forall|k: int, l: int|
            #![trigger set2(g, i, j, v)[k][l]]
            0 <= k < h && 0 <= l < w && !(k == i && l == j) ==> set2(g, i, j, v)[k][l] == g[k][l],
{
}

/// A hidden cell with its flag flipped.
pub open spec fn flag_flip_rev(rev: Seq<Seq<Entry>>, i: int, j: int) -> Seq<Seq<Entry>> {
    set2(rev, i, j, Entry::Unknown { flagged: !rev[i][j]->flagged })
}

/// Attribution after a flag flip: the actor when the flag goes up,
/// nobody when it comes down.
pub open spec fn flag_flip_ids(
    rev: Seq<Seq<Entry>>,
    ids: Seq<Seq<u8>>,
    i: int,
    j: int,
    pid: u8,
) -> Seq<Seq<u8>> {
    set2(
        ids,
        i,
        j,
        if rev[i][j]->flagged {
            0u8
        } else {
            pid
        },
    )
}

/// Toggling a flag twice on an untouched hidden cell restores both the
/// revealed layout and the attribution grid, whoever performed either
/// toggle.
pub proof fn lemma_flag_toggle_twice(
    rev: Seq<Seq<Entry>>,
    ids: Seq<Seq<u8>>,
    i: int,
    j: int,
    p1: u8,
    p2: u8,
    h: int,
    w: int,
)
    requires
        rect(rev, h, w),
        rect(ids, h, w),
        0 <= i < h,
        0 <= j < w,
        rev[i][j] == (Entry::Unknown { flagged: false }),
        ids[i][j] == 0,
    ensures
        flag_flip_rev(flag_flip_rev(rev, i, j), i, j) == rev,
        flag_flip_ids(flag_flip_rev(rev, i, j), flag_flip_ids(rev, ids, i, j, p1), i, j, p2)
            == ids,
{
    let rev1 = flag_flip_rev(rev, i, j);
    let ids1 = flag_flip_ids(rev, ids, i, j, p1);
    assert(flag_flip_rev(rev1, i, j) =~~= rev);
    assert(flag_flip_ids(rev1, ids1, i, j, p2) =~~= ids);
}

/// Replaces the cell at `(i, j)` of a grid of rows.
fn set_cell<T>(g: &mut Vec<Vec<T>>, i: usize, j: usize, v: T)
    requires
        i < old(g)@.len(),
        j < old(g)@[i as int]@.len(),
    ensures
        gview(*final(g)) == set2(gview(*old(g)), i as int, j as int, v),
        final(g)@.len() == old(g)@.len(),
        forall|k: int|
            0 <= k < old(g)@.len() ==> (#[trigger] final(g)@[k])@.len() == old(g)@[k]@.len(),
{
    g[i][j] = v;
    proof {
        assert(gview(*g) =~= set2(gview(*old(g)), i as int, j as int, v));
    }
}

/// Whether `a` equals `b` or touches it in the 8-connected grid.
pub fn adjacent(a: (u16, u16), b: (u16, u16)) -> (r: bool)
    ensures
        r == (is_adjacent(a, b) || a == b),
{
    let idist = if a.0 >= b.0 {
        a.0 - b.0
    } else {
        b.0 - a.0
    };
    let jdist = if a.1 >= b.1 {
        a.1 - b.1
    } else {
        b.1 - a.1
    };
    idist <= 1 && jdist <= 1
}

/// 1 when `(i, j)` lies on an `h` x `w` board, 0 otherwise.
pub open spec fn nbr_ind(i: int, j: int, h: int, w: int) -> nat {
    if 0 <= i < h && 0 <= j < w {
        1
    } else {
        0
    }
}

/// How many of the up-to-8 neighbors of `c` exist on the board.
pub open spec fn neighbor_count(c: (u16, u16), h: int, w: int) -> nat {
    let i = c.0 as int;
    let j = c.1 as int;
    nbr_ind(i - 1, j - 1, h, w) + nbr_ind(i - 1, j, h, w) + nbr_ind(i - 1, j + 1, h, w) + nbr_ind(
        i,
        j - 1,
        h,
        w,
    ) + nbr_ind(i, j + 1, h, w) + nbr_ind(i + 1, j - 1, h, w) + nbr_ind(i + 1, j, h, w) + nbr_ind(
        i + 1,
        j + 1,
        h,
        w,
    )
}

/// The coordinates adjacent to `coords` on a `height` x `width` board:
/// exactly the in-bounds 8-neighbors, each listed once.
pub fn adjacent_coords(coords: (u16, u16), width: u16, height: u16) -> (r: Vec<(u16, u16)>)
    requires
        width >= 1,
        height >= 1,
        coords.0 < height,
        coords.1 < width,
    ensures
        r@.no_duplicates(),
        forall|k: int|
            0 <= k < r@.len() ==> (#[trigger] r@[k]).0 < height && r@[k].1 < width && is_adjacent(
                r@[k],
                coords,
            ),
        forall|c: (u16, u16)|
            c.0 < height && c.1 < width && is_adjacent(c, coords) ==> r@.contains(c),
        r@.len() == neighbor_count(coords, height as int, width as int),
{
    let (ci, cj) = coords;
    let mut r: Vec<(u16, u16)> = Vec::new();
    if ci > 0 && cj > 0 {
        let v = (ci - 1, cj - 1);
        let ghost s = r@;
        r.push(v);
        proof {
            lemma_push_keeps(s, r@, v);
            lemma_push_no_dup(s, v);
        }
    }
    if ci > 0 {
        let v = (ci - 1, cj);
        let ghost s = r@;
        r.push(v);
        proof {
            lemma_push_keeps(s, r@, v);
            lemma_push_no_dup(s, v);
        }
    }
    if ci > 0 && cj + 1 < width {
        let v = (ci - 1, cj + 1);
        let ghost s = r@;
        r.push(v);
        proof {
            lemma_push_keeps(s, r@, v);
            lemma_push_no_dup(s, v);
        }
    }
    if cj > 0 {
        let v = (ci, cj - 1);
        let ghost s = r@;
        r.push(v);
        proof {
            lemma_push_keeps(s, r@, v);
            lemma_push_no_dup(s, v);
        }
    }
    if cj + 1 < width {
        let v = (ci, cj + 1);
        let ghost s = r@;
        r.push(v);
        proof {
            lemma_push_keeps(s, r@, v);
            lemma_push_no_dup(s, v);
        }
    }
    if ci + 1 < height && cj > 0 {
        let v = (ci + 1, cj - 1);
        let ghost s = r@;
        r.push(v);
        proof {
            lemma_push_keeps(s, r@, v);
            lemma_push_no_dup(s, v);
        }
    }
    if ci + 1 < height {
        let v = (ci + 1, cj);
        let ghost s = r@;
        r.push(v);
        proof {
            lemma_push_keeps(s, r@, v);
            lemma_push_no_dup(s, v);
        }
    }
    if ci + 1 < height && cj + 1 < width {
        let v = (ci + 1, cj + 1);
        let ghost s = r@;
        r.push(v);
        proof {
            lemma_push_keeps(s, r@, v);
            lemma_push_no_dup(s, v);
        }
    }
    proof {
        assert forall|c: (u16, u16)|
            c.0 < height && c.1 < width && is_adjacent(c, coords) implies r@.contains(c) by {
            assert(c.0 as int == ci as int - 1 || c.0 == ci || c.0 as int == ci as int + 1);
            assert(c.1 as int == cj as int - 1 || c.1 == cj || c.1 as int == cj as int + 1);
        }
    }
    r
}

/// Elements already in a sequence stay in it after a push, and the
/// pushed element joins it.
proof fn lemma_push_keeps<T>(s1: Seq<T>, s2: Seq<T>, v: T)
    requires
        s2 == s1.push(v),
    ensures
        forall|x: T| s1.contains(x) ==> #[trigger] s2.contains(x),
        s2.contains(v),
{
    assert forall|x: T| s1.contains(x) implies s2.contains(x) by {
        let k = choose|k: int| 0 <= k < s1.len() && s1[k] == x;
        assert(s2[k] == x);
    }
    assert(s2[s1.len() as int] == v);
}

/// Pushing a fresh element keeps a duplicate-free sequence
/// duplicate-free.
proof fn lemma_push_no_dup<T>(s: Seq<T>, v: T)
    requires
        s.no_duplicates(),
        !s.contains(v),
    ensures
        s.push(v).no_duplicates(),
{
    let t = s.push(v);
    assert forall|a: int, b: int|
        0 <= a < t.len() && 0 <= b < t.len() && a != b implies t[a] != t[b] by {
        if a < s.len() && b < s.len() {
            assert(t[a] == s[a] && t[b] == s[b]);
        } else if a == s.len() {
            assert(t[a] == v);
            if t[b] == v {
                assert(s[b] == v);
                assert(s.contains(v));
            }
        } else {
            assert(t[b] == v);
            if t[a] == v {
                assert(s[a] == v);
                assert(s.contains(v));
            }
        }
    }
}

/// What `swap_remove` leaves behind: one occurrence of the chosen
/// element gone, everything else kept, no duplicate introduced.
proof fn lemma_swap_remove_facts<T>(s: Seq<T>, i: int)
    requires
        0 <= i < s.len(),
    ensures
        s.update(i, s.last()).drop_last().len() == s.len() - 1,
        forall|x: T|
            s.contains(x) && x != s[i] ==> #[trigger] s.update(i, s.last()).drop_last().contains(
                x,
            ),
        forall|k: int|
            0 <= k < s.len() - 1 ==> s.contains(#[trigger] s.update(i, s.last()).drop_last()[k]),
        s.no_duplicates() ==> s.update(i, s.last()).drop_last().no_duplicates(),
        s.no_duplicates() ==> !s.update(i, s.last()).drop_last().contains(s[i]),
{
    let t = s.update(i, s.last()).drop_last();
    assert forall|x: T| s.contains(x) && x != s[i] implies t.contains(x) by {
        let k = choose|k: int| 0 <= k < s.len() && s[k] == x;
        if k == s.len() - 1 {
            assert(i != s.len() - 1);
            assert(t[i] == x);
        } else if k != i {
            assert(t[k] == x);
        }
    }
    assert forall|k: int| 0 <= k < t.len() implies s.contains(t[k]) by {
        if k == i {
            assert(t[k] == s[s.len() - 1]);
        } else {
            assert(t[k] == s[k]);
        }
    }
    if s.no_duplicates() {
        assert forall|a: int, b: int|
            0 <= a < t.len() && 0 <= b < t.len() && a != b implies t[a] != t[b] by {
            if a == i {
                assert(t[a] == s[s.len() - 1] && t[b] == s[b]);
            } else if b == i {
                assert(t[b] == s[s.len() - 1] && t[a] == s[a]);
            } else {
                assert(t[a] == s[a] && t[b] == s[b]);
            }
        }
        if t.contains(s[i]) {
            let k = choose|k: int| 0 <= k < t.len() && t[k] == s[i];
            if k == i {
                assert(s[s.len() - 1] == s[i]);
                assert(i == s.len() - 1);
            } else {
                assert(s[k] == s[i]);
            }
        }
    }
}

/// Every cell of a `height` x `width` board, row-major, each exactly
/// once.
#[verifier::loop_isolation(false)]
fn all_cells(width: u16, height: u16) -> (r: Vec<(u16, u16)>)
    requires
        width >= 1,
        height >= 1,
    ensures
        r@.len() == height as int * width as int,
        r@.no_duplicates(),
        forall|k: int|
            0 <= k < r@.len() ==> (#[trigger] r@[k]).0 < height && r@[k].1 < width,
        forall|c: (u16, u16)| c.0 < height && c.1 < width ==> r@.contains(c),
{
    let mut r: Vec<(u16, u16)> = Vec::new();
    let mut i: u16 = 0;
    while i < height
        invariant
            i <= height,
            r@.len() == i as int * width as int,
            r@.no_duplicates(),
            forall|k: int|
                0 <= k < r@.len() ==> (#[trigger] r@[k]).0 < i && r@[k].1 < width,
            forall|c: (u16, u16)| c.0 < i && c.1 < width ==> r@.contains(c),
        decreases height - i,
    {
        let mut j: u16 = 0;
        while j < width
            invariant
                j <= width,
                r@.len() == i as int * width as int + j as int,
                r@.no_duplicates(),
                forall|k: int|
                    0 <= k < r@.len() ==> ((#[trigger] r@[k]).0 < i || (r@[k].0 == i && r@[k].1
                        < j)) && r@[k].1 < width,
                forall|c: (u16, u16)|
                    (c.0 < i || (c.0 == i && c.1 < j)) && c.1 < width ==> r@.contains(c),
            decreases width - j,
        {
            let ghost s = r@;
            proof {
                if s.contains((i, j)) {
                    let k = choose|k: int| 0 <= k < s.len() && s[k] == (i, j);
                }
            }
            r.push((i, j));
            proof {
                lemma_push_keeps(s, r@, (i, j));
                lemma_push_no_dup(s, (i, j));
            }
            j = j + 1;
        }
        i = i + 1;
        proof {
            assert(i as int * width as int == (i - 1) as int * width as int + width as int)
                by (nonlinear_arith);
        }
    }
    r
}

/// The position of a cell known to be in the list.
#[verifier::loop_isolation(false)]
fn index_of_cell(v: &Vec<(u16, u16)>, c: (u16, u16)) -> (idx: usize)
    requires
        v@.contains(c),
    ensures
        idx < v@.len(),
        v@[idx as int] == c,
{
    let mut k: usize = 0;
    while k < v.len()
        invariant
            k <= v@.len(),
            forall|m: int| 0 <= m < k ==> v@[m] != c,
        decreases v@.len() - k,
    {
        let e = v[k];
        if e.0 == c.0 && e.1 == c.1 {
            return k;
        }
        k = k + 1;
    }
    proof {
        let m = choose|m: int| 0 <= m < v@.len() && v@[m] == c;
        assert(false);
    }
    vstd::pervasive::unreached()
}

/// Picks the mine cells for a new layout: the whole board when the
/// requested count fills it; otherwise a uniform draw that spares the
/// first click, and its whole neighborhood when the density permits.
#[verifier::loop_isolation(false)]
fn sample_mines(width: u16, height: u16, first_click: (u16, u16), num_mines: u32) -> (mines: Vec<
    (u16, u16),
>)
    requires
        width >= 1,
        height >= 1,
        first_click.0 < height,
        first_click.1 < width,
        num_mines as int <= width as int * height as int,
    ensures
        mines@.len() == num_mines,
        mines@.no_duplicates(),
        forall|k: int|
            0 <= k < mines@.len() ==> (#[trigger] mines@[k]).0 < height && mines@[k].1 < width,
        (num_mines as int) == width as int * height as int ==> forall|c: (u16, u16)|
            c.0 < height && c.1 < width ==> mines@.contains(c),
        (num_mines as int) < width as int * height as int ==> forall|k: int|
            0 <= k < mines@.len() ==> (#[trigger] mines@[k]) != first_click,
        (num_mines as int) + neighbor_count(first_click, height as int, width as int) + 1 <= width
            as int * height as int ==> forall|k: int|
            0 <= k < mines@.len() ==> !is_adjacent(#[trigger] mines@[k], first_click),
{
    proof {
        assert(width as int * height as int <= 0xffff * 0xffff) by (nonlinear_arith)
            requires
                width <= 0xffff,
                height <= 0xffff,
        ;
    }
    let size: u32 = (width as u32) * (height as u32);
    let mut candidates = all_cells(width, height);
    if num_mines >= size {
        return candidates;
    }
    let nbrs = adjacent_coords(first_click, width, height);
    let full_exclusion: bool = (num_mines as u64) + (nbrs.len() as u64) + 1 <= (size as u64);
    let idx0 = index_of_cell(&candidates, first_click);
    let ghost c0 = candidates@;
    let _ = candidates.swap_remove(idx0);
    proof {
        lemma_swap_remove_facts(c0, idx0 as int);
        assert forall|k: int|
            0 <= k < candidates@.len() implies ((#[trigger] candidates@[k]).0 < height
            && candidates@[k].1 < width && candidates@[k] != first_click) by {
            assert(c0.contains(candidates@[k]));
            let m = choose|m: int| 0 <= m < c0.len() && c0[m] == candidates@[k];
        }
        assert forall|c: (u16, u16)|
            c.0 < height && c.1 < width && c != first_click implies candidates@.contains(c) by {
            assert(c0.contains(c));
        }
    }
    if full_exclusion {
        let mut m: usize = 0;
        while m < nbrs.len()
            invariant
                m <= nbrs@.len(),
                candidates@.len() == height as int * width as int - 1 - m,
                candidates@.no_duplicates(),
                forall|k: int|
                    0 <= k < candidates@.len() ==> (#[trigger] candidates@[k]).0 < height
                        && candidates@[k].1 < width && candidates@[k] != first_click,
                forall|k: int| 0 <= k < m ==> !candidates@.contains(#[trigger] nbrs@[k]),
                forall|c: (u16, u16)|
                    c.0 < height && c.1 < width && c != first_click && !nbrs@.subrange(
                        0,
                        m as int,
                    ).contains(c) ==> candidates@.contains(c),
            decreases nbrs@.len() - m,
        {
            proof {
                if nbrs@.subrange(0, m as int).contains(nbrs@[m as int]) {
                    let k = choose|k: int|
                        0 <= k < m && nbrs@.subrange(0, m as int)[k] == nbrs@[m as int];
                }
                assert(candidates@.contains(nbrs@[m as int]));
            }
            let idx = index_of_cell(&candidates, nbrs[m]);
            let ghost cprev = candidates@;
            let _ = candidates.swap_remove(idx);
            proof {
                lemma_swap_remove_facts(cprev, idx as int);
                assert(nbrs@.subrange(0, m as int + 1) =~= nbrs@.subrange(0, m as int).push(
                    nbrs@[m as int],
                ));
                assert forall|k: int|
                    0 <= k < candidates@.len() implies ((#[trigger] candidates@[k]).0 < height
                    && candidates@[k].1 < width && candidates@[k] != first_click) by {
                    assert(cprev.contains(candidates@[k]));
                    let q = choose|q: int| 0 <= q < cprev.len() && cprev[q] == candidates@[k];
                }
                assert forall|k: int|
                    0 <= k < m as int + 1 implies !candidates@.contains(#[trigger] nbrs@[k]) by {
                    if k < m as int {
                        if candidates@.contains(nbrs@[k]) {
                            let q = choose|q: int|
                                0 <= q < candidates@.len() && candidates@[q] == nbrs@[k];
                            assert(cprev.contains(nbrs@[k]));
                        }
                    }
                }
                assert forall|c: (u16, u16)|
                    c.0 < height && c.1 < width && c != first_click && !nbrs@.subrange(
                    0,
                    m as int + 1,
                ).contains(c) implies candidates@.contains(c) by {
                    assert(!nbrs@.subrange(0, m as int).contains(c)) by {
                        if nbrs@.subrange(0, m as int).contains(c) {
                            let q = choose|q: int|
                                0 <= q < m as int && nbrs@.subrange(0, m as int)[q] == c;
                            assert(nbrs@.subrange(0, m as int + 1)[q] == c);
                        }
                    }
                    assert(cprev.contains(c));
                    assert(c != cprev[idx as int]) by {
                        assert(nbrs@.subrange(0, m as int + 1)[m as int] == nbrs@[m as int]);
                    }
                }
            }
            m = m + 1;
        }
        proof {
            assert forall|k: int|
                0 <= k < candidates@.len() implies !is_adjacent(
                #[trigger] candidates@[k],
                first_click,
            ) by {
                let c = candidates@[k];
                if is_adjacent(c, first_click) {
                    assert(nbrs@.contains(c));
                    let q = choose|q: int| 0 <= q < nbrs@.len() && nbrs@[q] == c;
                    assert(!candidates@.contains(nbrs@[q]));
                    assert(candidates@[k] == nbrs@[q]);
                }
            }
        }
    }
    let ghost n0 = candidates@.len() as int;
    proof {
        assert(n0 >= num_mines as int);
    }
    let mut mines: Vec<(u16, u16)> = Vec::new();
    while mines.len() < num_mines as usize
        invariant
            mines@.len() <= num_mines,
            candidates@.len() + mines@.len() == n0,
            candidates@.no_duplicates(),
            mines@.no_duplicates(),
            forall|k: int|
                0 <= k < mines@.len() ==> !candidates@.contains(#[trigger] mines@[k]),
            forall|k: int|
                0 <= k < candidates@.len() ==> (#[trigger] candidates@[k]).0 < height
                    && candidates@[k].1 < width && candidates@[k] != first_click && (full_exclusion
                    ==> !is_adjacent(candidates@[k], first_click)),
            forall|k: int|
                0 <= k < mines@.len() ==> (#[trigger] mines@[k]).0 < height && mines@[k].1 < width
                    && mines@[k] != first_click && (full_exclusion ==> !is_adjacent(
                    mines@[k],
                    first_click,
                )),
        decreases num_mines - mines@.len(),
    {
        let idx = random_below(candidates.len());
        let ghost cprev = candidates@;
        let c = candidates.swap_remove(idx);
        proof {
            lemma_swap_remove_facts(cprev, idx as int);
            if mines@.contains(c) {
                let k = choose|k: int| 0 <= k < mines@.len() && mines@[k] == c;
            }
        }
        let ghost mprev = mines@;
        mines.push(c);
        proof {
            lemma_push_keeps(mprev, mines@, c);
            lemma_push_no_dup(mprev, c);
            assert forall|k: int|
                0 <= k < mines@.len() implies !candidates@.contains(#[trigger] mines@[k]) by {
                if k < mprev.len() as int {
                    if candidates@.contains(mprev[k]) {
                        let q = choose|q: int|
                            0 <= q < candidates@.len() && candidates@[q] == mprev[k];
                        assert(cprev.contains(mprev[k]));
                    }
                }
            }
        }
    }
    proof {
        if full_exclusion {
            assert(num_mines as int + neighbor_count(first_click, height as int, width as int) + 1
                <= width as int * height as int);
        }
    }
    mines
}

/// The entry at `(i, j)` of a grid of rows.
fn grid_cell(t: &Vec<Vec<Entry>>, i: u16, j: u16) -> (r: Entry)
    requires
        (i as int) < gview(*t).len(),
        (j as int) < gview(*t)[i as int].len(),
    ensures
        r == gview(*t)[i as int][j as int],
{
    proof {
        assert(gview(*t)[i as int] == t@[i as int]@);
    }
    t[i as usize][j as usize]
}

/// Counts the mines among the up-to-8 neighbors of `(ci, cj)`.
fn count_adjacent_mines(t: &Vec<Vec<Entry>>, ci: u16, cj: u16, width: u16, height: u16) -> (n: u8)
    requires
        rect(gview(*t), height as int, width as int),
        ci < height,
        cj < width,
    ensures
        n as nat == adjacent_mine_count(gview(*t), ci as int, cj as int, height as int, width as int),
        n <= 8,
{
    let mut n: u8 = 0;
    if ci > 0 && cj > 0 {
        if grid_cell(t, ci - 1, cj - 1).is_mine() {
            n = n + 1;
        }
    }
    if ci > 0 {
        if grid_cell(t, ci - 1, cj).is_mine() {
            n = n + 1;
        }
    }
    if ci > 0 && cj + 1 < width {
        if grid_cell(t, ci - 1, cj + 1).is_mine() {
            n = n + 1;
        }
    }
    if cj > 0 {
        if grid_cell(t, ci, cj - 1).is_mine() {
            n = n + 1;
        }
    }
    if cj + 1 < width {
        if grid_cell(t, ci, cj + 1).is_mine() {
            n = n + 1;
        }
    }
    if ci + 1 < height && cj > 0 {
        if grid_cell(t, ci + 1, cj - 1).is_mine() {
            n = n + 1;
        }
    }
    if ci + 1 < height {
        if grid_cell(t, ci + 1, cj).is_mine() {
            n = n + 1;
        }
    }
    if ci + 1 < height && cj + 1 < width {
        if grid_cell(t, ci + 1, cj + 1).is_mine() {
            n = n + 1;
        }
    }
    n
}

/// 1 when the cell at `(i, j)` exists and carries a flag, 0 otherwise.
pub open spec fn flag_at(rev: Seq<Seq<Entry>>, i: int, j: int, h: int, w: int) -> nat {
    if 0 <= i < h && 0 <= j < w && (rev[i][j] matches Entry::Unknown { flagged: true }) {
        1
    } else {
        0
    }
}

/// Number of flagged cells among the up-to-8 neighbors of `(i, j)`.
pub open spec fn adjacent_flag_count(rev: Seq<Seq<Entry>>, i: int, j: int, h: int, w: int) -> nat {
    flag_at(rev, i - 1, j - 1, h, w) + flag_at(rev, i - 1, j, h, w) + flag_at(rev, i - 1, j + 1, h, w)
        + flag_at(rev, i, j - 1, h, w) + flag_at(rev, i, j + 1, h, w) + flag_at(rev, i + 1, j - 1, h, w)
        + flag_at(rev, i + 1, j, h, w) + flag_at(rev, i + 1, j + 1, h, w)
}

/// Counts the flags among the up-to-8 neighbors of `(ci, cj)`.
fn count_adjacent_flags(g: &Vec<Vec<Entry>>, ci: u16, cj: u16, width: u16, height: u16) -> (n: u8)
    requires
        rect(gview(*g), height as int, width as int),
        ci < height,
        cj < width,
    ensures
        n as nat == adjacent_flag_count(gview(*g), ci as int, cj as int, height as int, width as int),
        n <= 8,
{
    let mut n: u8 = 0;
    if ci > 0 && cj > 0 {
        if grid_cell(g, ci - 1, cj - 1).is_flagged() {
            n = n + 1;
        }
    }
    if ci > 0 {
        if grid_cell(g, ci - 1, cj).is_flagged() {
            n = n + 1;
        }
    }
    if ci > 0 && cj + 1 < width {
        if grid_cell(g, ci - 1, cj + 1).is_flagged() {
            n = n + 1;
        }
    }
    if cj > 0 {
        if grid_cell(g, ci, cj - 1).is_flagged() {
            n = n + 1;
        }
    }
    if cj + 1 < width {
        if grid_cell(g, ci, cj + 1).is_flagged() {
            n = n + 1;
        }
    }
    if ci + 1 < height && cj > 0 {
        if grid_cell(g, ci + 1, cj - 1).is_flagged() {
            n = n + 1;
        }
    }
    if ci + 1 < height {
        if grid_cell(g, ci + 1, cj).is_flagged() {
            n = n + 1;
        }
    }
    if ci + 1 < height && cj + 1 < width {
        if grid_cell(g, ci + 1, cj + 1).is_flagged() {
            n = n + 1;
        }
    }
    n
}

/// Membership and duplicate-freeness over a concatenation.
proof fn lemma_concat_facts<T>(s1: Seq<T>, s2: Seq<T>)
    ensures
        forall|x: T| #[trigger] (s1 + s2).contains(x) <==> s1.contains(x) || s2.contains(x),
        (s1.no_duplicates() && s2.no_duplicates() && (forall|k: int|
            0 <= k < s2.len() ==> !s1.contains(#[trigger] s2[k]))) ==> (s1 + s2).no_duplicates(),
{
    assert forall|x: T| #[trigger] (s1 + s2).contains(x) <==> s1.contains(x) || s2.contains(
        x,
    ) by {
        if (s1 + s2).contains(x) {
            let k = choose|k: int| 0 <= k < (s1 + s2).len() && (s1 + s2)[k] == x;
            if k < s1.len() {
                assert(s1[k] == x);
            } else {
                assert(s2[k - s1.len()] == x);
            }
        }
        if s1.contains(x) {
            let k = choose|k: int| 0 <= k < s1.len() && s1[k] == x;
            assert((s1 + s2)[k] == x);
        }
        if s2.contains(x) {
            let k = choose|k: int| 0 <= k < s2.len() && s2[k] == x;
            assert((s1 + s2)[s1.len() + k] == x);
        }
    }
    if s1.no_duplicates() && s2.no_duplicates() && (forall|k: int|
        0 <= k < s2.len() ==> !s1.contains(#[trigger] s2[k])) {
        assert forall|a: int, b: int|
            0 <= a < (s1 + s2).len() && 0 <= b < (s1 + s2).len() && a != b implies (s1 + s2)[a]
            != (s1 + s2)[b] by {
            if a < s1.len() && b < s1.len() {
            } else if a >= s1.len() && b >= s1.len() {
                assert((s1 + s2)[a] == s2[a - s1.len()]);
                assert((s1 + s2)[b] == s2[b - s1.len()]);
            } else if a < s1.len() {
                assert((s1 + s2)[b] == s2[b - s1.len()]);
                if (s1 + s2)[a] == (s1 + s2)[b] {
                    assert(s1.contains(s2[b - s1.len()]));
                }
            } else {
                assert((s1 + s2)[a] == s2[a - s1.len()]);
                if (s1 + s2)[a] == (s1 + s2)[b] {
                    assert(s1.contains(s2[a - s1.len()]));
                }
            }
        }
    }
}

/// Appends every element of `src` to `dst`, in order.
fn append_all(dst: &mut Vec<(u16, u16)>, src: &Vec<(u16, u16)>)
    ensures
        final(dst)@ == old(dst)@ + src@,
{
    let mut q: usize = 0;
    while q < src.len()
        invariant
            q <= src@.len(),
            dst@ =~= old(dst)@ + src@.subrange(0, q as int),
        decreases src@.len() - q,
    {
        dst.push(src[q]);
        proof {
            assert(dst@ =~= old(dst)@ + src@.subrange(0, q as int + 1));
        }
        q = q + 1;
    }
    proof {
        assert(src@.subrange(0, src@.len() as int) =~= src@);
        assert(dst@ =~= old(dst)@ + src@);
    }
}

/// Two grids with mines in the same places give every cell the same
/// adjacent-mine count.
proof fn lemma_adj_count_same(
    t1: Seq<Seq<Entry>>,
    t2: Seq<Seq<Entry>>,
    h: int,
    w: int,
    a: int,
    b: int,
)
    requires
        rect(t1, h, w),
        rect(t2, h, w),
        forall|i: int, j: int|
            #![trigger t1[i][j], t2[i][j]]
            0 <= i < h && 0 <= j < w ==> ((t1[i][j] is Mine) <==> (t2[i][j] is Mine)),
    ensures
        adjacent_mine_count(t1, a, b, h, w) == adjacent_mine_count(t2, a, b, h, w),
{
}

/// True layout built from a chosen mine set: the listed cells become
/// mines, every other cell records its exact adjacent-mine count.
#[verifier::loop_isolation(false)]
fn layout_from_mines(width: u16, height: u16, mines: &Vec<(u16, u16)>) -> (t: Vec<Vec<Entry>>)
    requires
        width >= 1,
        height >= 1,
        mines@.no_duplicates(),
        forall|k: int|
            0 <= k < mines@.len() ==> (#[trigger] mines@[k]).0 < height && mines@[k].1 < width,
    ensures
        layout_wf(gview(t), height as int, width as int, mines@.len() as int),
        forall|i: int, j: int|
            #![trigger gview(t)[i][j]]
            0 <= i < height as int && 0 <= j < width as int ==> ((gview(t)[i][j] is Mine)
                <==> mines@.contains((i as u16, j as u16))),
{
    let ghost h = height as int;
    let ghost w = width as int;
    let mut t = filled_grid(Entry::Unknown { flagged: false }, width, height);
    proof {
        lemma_grid_counts_zero(gview(t));
    }
    let mut k: usize = 0;
    while k < mines.len()
        invariant
            k <= mines@.len(),
            rect(gview(t), h, w),
            forall|i: int, j: int|
                #![trigger gview(t)[i][j]]
                0 <= i < h && 0 <= j < w ==> ((gview(t)[i][j] is Mine) <==> mines@.subrange(
                    0,
                    k as int,
                ).contains((i as u16, j as u16))),
            forall|i: int, j: int|
                #![trigger gview(t)[i][j]]
                0 <= i < h && 0 <= j < w ==> (gview(t)[i][j] is Mine || gview(t)[i][j]
                    == (Entry::Unknown { flagged: false })),
            grid_mine_count(gview(t)) == k,
        decreases mines@.len() - k,
    {
        let c = mines[k];
        let ghost tprev = gview(t);
        proof {
            if mines@.subrange(0, k as int).contains(c) {
                let q = choose|q: int|
                    0 <= q < k && mines@.subrange(0, k as int)[q] == c;
            }
        }
        proof {
            assert(gview(t)[c.0 as int] == t@[c.0 as int]@);
        }
        set_cell(&mut t, c.0 as usize, c.1 as usize, Entry::Mine);
        proof {
            lemma_set2_pointwise(tprev, h, w, c.0 as int, c.1 as int, Entry::Mine);
            lemma_grid_mine_update(tprev, c.0 as int, c.1 as int, Entry::Mine);
            assert(mines@.subrange(0, k as int + 1) =~= mines@.subrange(0, k as int).push(c));
            assert forall|i: int, j: int|
                #![trigger gview(t)[i][j]]
                0 <= i < h && 0 <= j < w implies ((gview(t)[i][j] is Mine) <==> mines@.subrange(
                0,
                k as int + 1,
            ).contains((i as u16, j as u16))) by {
                let cc = (i as u16, j as u16);
                if i == c.0 as int && j == c.1 as int {
                    assert(mines@.subrange(0, k as int + 1).contains(cc)) by {
                        assert(mines@.subrange(0, k as int + 1)[k as int] == c);
                    }
                } else {
                    if mines@.subrange(0, k as int + 1).contains(cc) && !mines@.subrange(
                        0,
                        k as int,
                    ).contains(cc) {
                        let q = choose|q: int|
                            0 <= q < k + 1 && #[trigger] mines@.subrange(0, k as int + 1)[q]
                                == cc;
                        assert(q == k);
                    }
                    if mines@.subrange(0, k as int).contains(cc) {
                        let q = choose|q: int|
                            0 <= q < k && mines@.subrange(0, k as int)[q] == cc;
                        assert(mines@.subrange(0, k as int + 1)[q] == cc);
                    }
                }
            }
        }
        k = k + 1;
    }
    proof {
        assert forall|i: int, j: int|
            #![trigger gview(t)[i][j]]
            0 <= i < h && 0 <= j < w implies ((gview(t)[i][j] is Mine) <==> mines@.contains(
            (i as u16, j as u16),
        )) by {
            assert(mines@.subrange(0, mines@.len() as int) =~= mines@);
        }
    }
    let mut i: u16 = 0;
    while i < height
        invariant
            i <= height,
            rect(gview(t), h, w),
            forall|a: int, b: int|
                #![trigger gview(t)[a][b]]
                0 <= a < h && 0 <= b < w ==> ((gview(t)[a][b] is Mine) <==> mines@.contains(
                    (a as u16, b as u16),
                )),
            grid_mine_count(gview(t)) == mines@.len(),
            forall|a: int, b: int|
                #![trigger gview(t)[a][b]]
                0 <= a < h && 0 <= b < w && !(gview(t)[a][b] is Mine) ==> (if a < i as int {
                    gview(t)[a][b] matches Entry::Revealed { num_mines: n } && n
                        == adjacent_mine_count(gview(t), a, b, h, w)
                } else {
                    gview(t)[a][b] == (Entry::Unknown { flagged: false })
                }),
        decreases height - i,
    {
        let mut j: u16 = 0;
        while j < width
            invariant
                j <= width,
                rect(gview(t), h, w),
                forall|a: int, b: int|
                    #![trigger gview(t)[a][b]]
                    0 <= a < h && 0 <= b < w ==> ((gview(t)[a][b] is Mine) <==> mines@.contains(
                        (a as u16, b as u16),
                    )),
                grid_mine_count(gview(t)) == mines@.len(),
                forall|a: int, b: int|
                    #![trigger gview(t)[a][b]]
                    0 <= a < h && 0 <= b < w && !(gview(t)[a][b] is Mine) ==> (if a < i as int || (
                    a == i as int && b < j as int) {
                        gview(t)[a][b] matches Entry::Revealed { num_mines: n } && n
                            == adjacent_mine_count(gview(t), a, b, h, w)
                    } else {
                        gview(t)[a][b] == (Entry::Unknown { flagged: false })
                    }),
            decreases width - j,
        {
            let e = grid_cell(&t, i, j);
            if !e.is_mine() {
                let n = count_adjacent_mines(&t, i, j, width, height);
                let ghost tprev = gview(t);
                proof {
                    assert(gview(t)[i as int] == t@[i as int]@);
                }
                set_cell(&mut t, i as usize, j as usize, Entry::Revealed { num_mines: n });
                proof {
                    lemma_set2_pointwise(
                        tprev,
                        h,
                        w,
                        i as int,
                        j as int,
                        Entry::Revealed { num_mines: n },
                    );
                    lemma_grid_mine_update(
                        tprev,
                        i as int,
                        j as int,
                        Entry::Revealed { num_mines: n },
                    );
                    assert forall|a: int, b: int|
                        #![trigger gview(t)[a][b]]
                        0 <= a < h && 0 <= b < w && !(gview(t)[a][b] is Mine) && (a < i as int || (
                    a == i as int && b < j as int + 1)) implies (gview(t)[a][b] matches
                    Entry::Revealed { num_mines: nn } && nn == adjacent_mine_count(
                        gview(t),
                        a,
                        b,
                        h,
                        w,
                    )) by {
                        lemma_adj_count_same(tprev, gview(t), h, w, a, b);
                    }
                }
            }
            j = j + 1;
        }
        i = i + 1;
    }
    t
}

/// A row of `width` copies of `val`.
fn filled_row<T: Copy>(val: T, width: u16) -> (r: Vec<T>)
    ensures
        r@ == Seq::new(width as nat, |j: int| val),
{
    let mut r: Vec<T> = Vec::new();
    let mut j: usize = 0;
    while j < width as usize
        invariant
            j <= width as usize,
            r@ =~= Seq::new(j as nat, |k: int| val),
        decreases width as usize - j,
    {
        r.push(val);
        j = j + 1;
        proof {
            assert(r@ =~= Seq::new(j as nat, |k: int| val));
        }
    }
    proof {
        assert(r@ =~= Seq::new(width as nat, |j: int| val));
    }
    r
}

/// A `height` x `width` grid of copies of `val`.
fn filled_grid<T: Copy>(val: T, width: u16, height: u16) -> (g: Vec<Vec<T>>)
    ensures
        rect(gview(g), height as int, width as int),
        forall|i: int, j: int|
            0 <= i < height as int && 0 <= j < width as int ==> gview(g)[i][j] == val,
{
    let mut g: Vec<Vec<T>> = Vec::new();
    let mut i: usize = 0;
    while i < height as usize
        invariant
            i <= height as usize,
            g@.len() == i,
            forall|k: int| 0 <= k < i as int ==> (#[trigger] g@[k])@ =~= Seq::new(
                width as nat,
                |j: int| val,
            ),
        decreases height as usize - i,
    {
        g.push(filled_row(val, width));
        i = i + 1;
    }
    g
}

} // verus!
