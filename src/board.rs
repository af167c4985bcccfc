//! The 4x4 grid, the four moves over it, and loss detection.

use vstd::prelude::*;
use crate::line::{
    count_tiles, gain, line_gain, occupied, lemma_slide_count, lemma_total_append, merges, move_and_combine, slide,
    total, values,
};

verus! {

/// A player's command: one of the four directions, or quitting.
#[derive(Clone, Copy, Debug, PartialEq, Eq, Structural)]
pub enum Move {
    Up,
    Left,
    Down,
    Right,
    Quit,
}

/// The grid, row by row: the cell in row `y` and column `x` is
/// `cells[4 * y + x]`, and 0 is an empty cell.
#[derive(Clone, Copy, Debug)]
pub struct Board {
    pub cells: [usize; 16],
}

impl View for Board {
    type V = Seq<int>;

    open spec fn view(&self) -> Seq<int> {
        values(self.cells@)
    }
}

/// The cell at place `j` of line `k` when moving toward `d`: place 0 is the
/// cell at the edge that the tiles move to.
pub open spec fn cell_index(d: Move, k: int, j: int) -> int {
    match d {
        Move::Up => 4 * j + k,
        Move::Down => 4 * (3 - j) + k,
        Move::Left => 4 * k + j,
        Move::Right => 4 * k + 3 - j,
        Move::Quit => 0,
    }
}

/// The line of cell `i` when moving toward `d`.
pub open spec fn line_of(d: Move, i: int) -> int {
    match d {
        Move::Up | Move::Down => i % 4,
        _ => i / 4,
    }
}

/// The place of cell `i` in its line when moving toward `d`.
pub open spec fn pos_of(d: Move, i: int) -> int {
    match d {
        Move::Up => i / 4,
        Move::Down => 3 - i / 4,
        Move::Left => i % 4,
        _ => 3 - i % 4,
    }
}

/// Line `k` of grid `b`, with its front toward `d`.
pub open spec fn board_line(b: Seq<int>, d: Move, k: int) -> Seq<int> {
    Seq::new(4, |j: int| b[cell_index(d, k, j)])
}

/// Grid `b` after every line slides toward `d`.
pub open spec fn moved(b: Seq<int>, d: Move) -> Seq<int> {
    Seq::new(16, |i: int| slide(board_line(b, d, line_of(d, i)))[pos_of(d, i)])
}

/// What the first `k` lines gain when they slide toward `d`.
pub open spec fn lines_gain(b: Seq<int>, d: Move, k: int) -> int
    decreases k,
{
    if k <= 0 {
        0
    } else {
        lines_gain(b, d, k - 1) + gain(board_line(b, d, k - 1))
    }
}

/// What a move toward `d` adds to the score.
pub open spec fn move_gain(b: Seq<int>, d: Move) -> int {
    lines_gain(b, d, 4)
}

/// The tiles that a move toward `d` creates by merges, line by line.
pub open spec fn move_merges(b: Seq<int>, d: Move) -> Seq<int> {
    merges(board_line(b, d, 0)) + merges(board_line(b, d, 1)) + merges(board_line(b, d, 2))
        + merges(board_line(b, d, 3))
}

/// No cell of the grid is empty.
pub open spec fn full(b: Seq<int>) -> bool {
    forall|i: int| 0 <= i < 16 ==> b[i] != 0
}

/// Cell `i` holds the same value as its right or its lower neighbour.
pub open spec fn pair_at(b: Seq<int>, i: int) -> bool {
    (i % 4 < 3 && b[i] == b[i + 1]) || (i < 12 && b[i] == b[i + 4])
}

/// Two cells next to each other in a row or a column hold the same value.
pub open spec fn has_neighbours(b: Seq<int>) -> bool {
    exists|i: int| 0 <= i < 16 && #[trigger] pair_at(b, i)
}

/// No move can change the grid any more.
pub open spec fn over(b: Seq<int>) -> bool {
    full(b) && !has_neighbours(b)
}

pub proof fn lemma_coords(d: Move, i: int)
    requires
        d != Move::Quit,
        0 <= i < 16,
    ensures
        0 <= line_of(d, i) < 4,
        0 <= pos_of(d, i) < 4,
        cell_index(d, line_of(d, i), pos_of(d, i)) == i,
{
}

pub proof fn lemma_index(d: Move, k: int, j: int)
    requires
        d != Move::Quit,
        0 <= k < 4,
        0 <= j < 4,
    ensures
        0 <= cell_index(d, k, j) < 16,
        line_of(d, cell_index(d, k, j)) == k,
        pos_of(d, cell_index(d, k, j)) == j,
{
}

proof fn lemma_lines_gain_mono(b: Seq<int>, d: Move, k: int, m: int)
    requires
        b.len() == 16,
        d != Move::Quit,
        forall|i: int| 0 <= i < 16 ==> b[i] >= 0,
        0 <= k <= m <= 4,
    ensures
        0 <= lines_gain(b, d, k) <= lines_gain(b, d, m),
    decreases m,
{
    if m > 0 {
        lemma_lines_gain_mono(b, d, if k < m { k } else { m - 1 }, m - 1);
        let line = board_line(b, d, m - 1);
        assert forall|j: int| 0 <= j < 4 implies #[trigger] line[j] >= 0 by {
            lemma_index(d, m - 1, j);
        }
        crate::line::lemma_gain_nonneg(board_line(b, d, m - 1));
    }
}

/// Slides every line of `board` toward `mv`; returns the new grid and
/// `score` plus what the merges created.
pub fn play_move(board: &Board, score: usize, mv: Move) -> (r: (Board, usize))
    requires
        mv != Move::Quit,
        score + move_gain(board@, mv) <= usize::MAX,
    ensures
        r.0@ == moved(board@, mv),
        r.1 == score + move_gain(board@, mv),
{
    let ghost b = board@;
    let ghost target = moved(b, mv);
    let mut cells = board.cells;
    let mut s = score;
    let mut k: usize = 0;
    assert forall|i: int| 0 <= i < 16 implies b[i] >= 0 by {}
    while k < 4
        invariant
            k <= 4,
            mv != Move::Quit,
            b == board@,
            target == moved(b, mv),
            b.len() == 16,
            score + move_gain(b, mv) <= usize::MAX,
            forall|i: int| 0 <= i < 16 ==> b[i] >= 0,
            forall|i: int| 0 <= i < 16 && line_of(mv, i) < k ==> cells[i] as int == target[i],
            forall|i: int| 0 <= i < 16 && line_of(mv, i) >= k ==> cells[i] == board.cells[i],
            s == score + lines_gain(b, mv, k as int),
        decreases 4 - k,
    {
        let i0 = cell_at(mv, k, 0);
        let i1 = cell_at(mv, k, 1);
        let i2 = cell_at(mv, k, 2);
        let i3 = cell_at(mv, k, 3);
        proof {
            lemma_index(mv, k as int, 0);
            lemma_index(mv, k as int, 1);
            lemma_index(mv, k as int, 2);
            lemma_index(mv, k as int, 3);
            lemma_lines_gain_mono(b, mv, k + 1, 4);
        }
        let tiles: [usize; 4] = [cells[i0], cells[i1], cells[i2], cells[i3]];
        assert(values(tiles@) =~= board_line(b, mv, k as int));
        let (merged, ns) = move_and_combine(&tiles, s);
        cells[i0] = merged[0];
        cells[i1] = merged[1];
        cells[i2] = merged[2];
        cells[i3] = merged[3];
        s = ns;
        assert forall|i: int| 0 <= i < 16 && line_of(mv, i) == k implies cells[i] as int
            == target[i] by {
            lemma_coords(mv, i);
        }
        k = k + 1;
    }
    let r = Board { cells };
    assert(r@ =~= target);
    (r, s)
}

/// Whether two cells next to each other in a row or a column hold the
/// same value.
pub fn combinable(board: &Board) -> (r: bool)
    ensures
        r == has_neighbours(board@),
{
    let mut i: usize = 0;
    while i < 16
        invariant
            i <= 16,
            forall|m: int| 0 <= m < i ==> !#[trigger] pair_at(board@, m),
        decreases 16 - i,
    {
        if (i % 4 < 3 && board.cells[i] == board.cells[i + 1]) || (i < 12 && board.cells[i]
            == board.cells[i + 4]) {
            assert(pair_at(board@, i as int));
            return true;
        }
        i = i + 1;
    }
    false
}

/// Whether the game is lost: no cell is empty and no two neighbouring
/// cells hold the same value, so no move changes the grid.
pub fn game_over(board: &Board) -> (r: bool)
    ensures
        r == over(board@),
{
    let mut i: usize = 0;
    while i < 16
        invariant
            i <= 16,
            forall|m: int| 0 <= m < i ==> board@[m] != 0,
        decreases 16 - i,
    {
        if board.cells[i] == 0 {
            assert(board@[i as int] == 0);
            assert(!full(board@));
            return false;
        }
        i = i + 1;
    }
    !combinable(board)
}

/// Whether two grids hold the same value in every cell.
pub fn same_board(a: &Board, b: &Board) -> (r: bool)
    ensures
        r == (a@ == b@),
{
    let mut i: usize = 0;
    while i < 16
        invariant
            i <= 16,
            forall|m: int| 0 <= m < i ==> a@[m] == b@[m],
        decreases 16 - i,
    {
        if a.cells[i] != b.cells[i] {
            assert(a@[i as int] != b@[i as int]);
            return false;
        }
        i = i + 1;
    }
    assert(a@ =~= b@);
    true
}

/// Line `k` of the moved grid is line `k` of the grid, slid.
pub proof fn lemma_moved_line(b: Seq<int>, d: Move, k: int)
    requires
        d != Move::Quit,
        0 <= k < 4,
    ensures
        board_line(moved(b, d), d, k) == slide(board_line(b, d, k)),
{
    assert forall|j: int| 0 <= j < 4 implies #[trigger] board_line(moved(b, d), d, k)[j] == slide(
        board_line(b, d, k),
    )[j] by {
        lemma_index(d, k, j);
    }
    assert(board_line(moved(b, d), d, k) =~= slide(board_line(b, d, k)));
}

proof fn lemma_count4(s: Seq<int>)
    ensures
        count_tiles(s, 4) == occupied(s[0]) + occupied(s[1]) + occupied(s[2]) + occupied(s[3]),
{
    reveal_with_fuel(count_tiles, 5);
}

pub proof fn lemma_count16(b: Seq<int>)
    ensures
        count_tiles(b, 16) == occupied(b[0]) + occupied(b[1]) + occupied(b[2]) + occupied(b[3])
            + occupied(b[4]) + occupied(b[5]) + occupied(b[6]) + occupied(b[7]) + occupied(b[8])
            + occupied(b[9]) + occupied(b[10]) + occupied(b[11]) + occupied(b[12]) + occupied(
            b[13],
        ) + occupied(b[14]) + occupied(b[15]),
{
    reveal_with_fuel(count_tiles, 17);
}

proof fn lemma_count_by_lines(b: Seq<int>, d: Move)
    requires
        d != Move::Quit,
        b.len() == 16,
    ensures
        count_tiles(b, 16) == count_tiles(board_line(b, d, 0), 4) + count_tiles(
            board_line(b, d, 1),
            4,
        ) + count_tiles(board_line(b, d, 2), 4) + count_tiles(board_line(b, d, 3), 4),
{
    lemma_count16(b);
    let l0 = board_line(b, d, 0);
    let l1 = board_line(b, d, 1);
    let l2 = board_line(b, d, 2);
    let l3 = board_line(b, d, 3);
    lemma_count4(l0);
    lemma_count4(l1);
    lemma_count4(l2);
    lemma_count4(l3);
    let o = |i: int| occupied(b[i]);
    match d {
        Move::Up => {
            assert(count_tiles(l0, 4) == o(0) + o(4) + o(8) + o(12));
            assert(count_tiles(l1, 4) == o(1) + o(5) + o(9) + o(13));
            assert(count_tiles(l2, 4) == o(2) + o(6) + o(10) + o(14));
            assert(count_tiles(l3, 4) == o(3) + o(7) + o(11) + o(15));
        },
        Move::Down => {
            assert(count_tiles(l0, 4) == o(12) + o(8) + o(4) + o(0));
            assert(count_tiles(l1, 4) == o(13) + o(9) + o(5) + o(1));
            assert(count_tiles(l2, 4) == o(14) + o(10) + o(6) + o(2));
            assert(count_tiles(l3, 4) == o(15) + o(11) + o(7) + o(3));
        },
        Move::Left => {
            assert(count_tiles(l0, 4) == o(0) + o(1) + o(2) + o(3));
            assert(count_tiles(l1, 4) == o(4) + o(5) + o(6) + o(7));
            assert(count_tiles(l2, 4) == o(8) + o(9) + o(10) + o(11));
            assert(count_tiles(l3, 4) == o(12) + o(13) + o(14) + o(15));
        },
        _ => {
            assert(count_tiles(l0, 4) == o(3) + o(2) + o(1) + o(0));
            assert(count_tiles(l1, 4) == o(7) + o(6) + o(5) + o(4));
            assert(count_tiles(l2, 4) == o(11) + o(10) + o(9) + o(8));
            assert(count_tiles(l3, 4) == o(15) + o(14) + o(13) + o(12));
        },
    }
}

/// The score that a move adds is the sum of the tiles that its merges
/// create.
pub proof fn lemma_move_score(b: Seq<int>, d: Move)
    ensures
        move_gain(b, d) == total(move_merges(b, d)),
{
    reveal_with_fuel(lines_gain, 5);
    let m0 = merges(board_line(b, d, 0));
    let m1 = merges(board_line(b, d, 1));
    let m2 = merges(board_line(b, d, 2));
    let m3 = merges(board_line(b, d, 3));
    lemma_total_append(m0, m1);
    lemma_total_append(m0 + m1, m2);
    lemma_total_append(m0 + m1 + m2, m3);
}

/// A move frees one cell per merge: the occupied cells after it are those
/// before, less the number of merges.
pub proof fn lemma_move_count(b: Seq<int>, d: Move)
    requires
        d != Move::Quit,
        b.len() == 16,
    ensures
        count_tiles(moved(b, d), 16) == count_tiles(b, 16) - move_merges(b, d).len(),
{
    lemma_count_by_lines(b, d);
    lemma_count_by_lines(moved(b, d), d);
    lemma_moved_line(b, d, 0);
    lemma_moved_line(b, d, 1);
    lemma_moved_line(b, d, 2);
    lemma_moved_line(b, d, 3);
    lemma_slide_count(board_line(b, d, 0));
    lemma_slide_count(board_line(b, d, 1));
    lemma_slide_count(board_line(b, d, 2));
    lemma_slide_count(board_line(b, d, 3));
    assert(count_tiles(board_line(moved(b, d), d, 0), 4) == count_tiles(board_line(b, d, 0), 4)
        - merges(board_line(b, d, 0)).len());
    assert(count_tiles(board_line(moved(b, d), d, 1), 4) == count_tiles(board_line(b, d, 1), 4)
        - merges(board_line(b, d, 1)).len());
    assert(count_tiles(board_line(moved(b, d), d, 2), 4) == count_tiles(board_line(b, d, 2), 4)
        - merges(board_line(b, d, 2)).len());
    assert(count_tiles(board_line(moved(b, d), d, 3), 4) == count_tiles(board_line(b, d, 3), 4)
        - merges(board_line(b, d, 3)).len());
}

/// A lost grid stays as it is: no move changes it or adds to the score.
pub proof fn lemma_over_stays(b: Seq<int>, d: Move)
    requires
        d != Move::Quit,
        b.len() == 16,
        over(b),
    ensures
        moved(b, d) == b,
        move_gain(b, d) == 0,
{
    reveal_with_fuel(lines_gain, 5);
    assert forall|k: int| 0 <= k < 4 implies slide(#[trigger] board_line(b, d, k)) == board_line(
        b,
        d,
        k,
    ) && gain(board_line(b, d, k)) == 0 by {
        let line = board_line(b, d, k);
        assert forall|j: int| 0 <= j < 4 implies #[trigger] line[j] != 0 by {
            lemma_index(d, k, j);
        }
        lemma_index(d, k, 0);
        lemma_index(d, k, 1);
        lemma_index(d, k, 2);
        lemma_index(d, k, 3);
        assert forall|j: int| 0 <= j < 3 implies #[trigger] line[j] != line[j + 1] by {
            lemma_index(d, k, j);
            lemma_index(d, k, j + 1);
            let x = cell_index(d, k, j);
            let y = cell_index(d, k, j + 1);
            assert(!pair_at(b, if x < y { x } else { y }));
        }
        assert(line[0] != line[1] && line[1] != line[2] && line[2] != line[3]);
        crate::line::lemma_settled_line(line);
    }
    assert forall|i: int| 0 <= i < 16 implies #[trigger] moved(b, d)[i] == b[i] by {
        lemma_coords(d, i);
    }
    assert(moved(b, d) =~= b);
}

/// A move that changes the grid leaves at least one empty cell.
pub proof fn lemma_changed_has_room(b: Seq<int>, d: Move)
    requires
        d != Move::Quit,
        b.len() == 16,
        moved(b, d) != b,
    ensures
        !full(moved(b, d)),
{
    if full(moved(b, d)) {
        assert forall|k: int| 0 <= k < 4 implies slide(#[trigger] board_line(b, d, k))
            == board_line(b, d, k) by {
            lemma_moved_line(b, d, k);
            let line = board_line(moved(b, d), d, k);
            assert forall|j: int| 0 <= j < 4 implies #[trigger] line[j] != 0 by {
                lemma_index(d, k, j);
            }
            crate::line::lemma_full_slide(board_line(b, d, k));
        }
        assert forall|i: int| 0 <= i < 16 implies #[trigger] moved(b, d)[i] == b[i] by {
            lemma_coords(d, i);
        }
        assert(moved(b, d) =~= b);
    }
}

/// Whether a move toward `mv` keeps the score within `usize`.
pub fn move_fits(board: &Board, score: usize, mv: Move) -> (r: bool)
    requires
        mv != Move::Quit,
    ensures
        r == (score + move_gain(board@, mv) <= usize::MAX),
{
    let ghost b = board@;
    let mut total: u128 = score as u128;
    let mut k: usize = 0;
    proof {
        assert forall|i: int| 0 <= i < 16 implies b[i] >= 0 by {}
        lemma_lines_gain_mono(b, mv, 0, 4);
    }
    while k < 4
        invariant
            k <= 4,
            mv != Move::Quit,
            b == board@,
            b.len() == 16,
            forall|i: int| 0 <= i < 16 ==> b[i] >= 0,
            total == score + lines_gain(b, mv, k as int),
            total <= usize::MAX as int * (1 + 4 * k),
        decreases 4 - k,
    {
        let i0 = cell_at(mv, k, 0);
        let i1 = cell_at(mv, k, 1);
        let i2 = cell_at(mv, k, 2);
        let i3 = cell_at(mv, k, 3);
        proof {
            lemma_index(mv, k as int, 0);
            lemma_index(mv, k as int, 1);
            lemma_index(mv, k as int, 2);
            lemma_index(mv, k as int, 3);
            lemma_lines_gain_mono(b, mv, k as int, k + 1);
        }
        let tiles: [usize; 4] = [board.cells[i0], board.cells[i1], board.cells[i2], board.cells[i3]];
        assert(values(tiles@) =~= board_line(b, mv, k as int));
        let g = line_gain(&tiles);
        proof {
            let m = usize::MAX as int;
            let kk = k as int;
            assert(total + g <= m * (1 + 4 * (kk + 1))) by (nonlinear_arith)
                requires
                    total <= m * (1 + 4 * kk),
                    g <= 4 * m,
            ;
            assert(m * (1 + 4 * (kk + 1)) <= m * 17) by (nonlinear_arith)
                requires
                    kk < 4,
                    m >= 0,
            ;
        }
        total = total + g;
        k = k + 1;
    }
    total <= usize::MAX as u128
}

fn cell_at(d: Move, k: usize, j: usize) -> (r: usize)
    requires
        d != Move::Quit,
        k < 4,
        j < 4,
    ensures
        r as int == cell_index(d, k as int, j as int),
{
    match d {
        Move::Up => 4 * j + k,
        Move::Down => 4 * (3 - j) + k,
        Move::Left => 4 * k + j,
        _ => 4 * k + 3 - j,
    }
}

} // verus!
