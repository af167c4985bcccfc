//! New tiles, the opening grid, and one turn of play.

use vstd::prelude::*;
use rand::seq::SliceRandom;
use rand::Rng;
use crate::board::{
    full, game_over, lemma_changed_has_room, lemma_count16, lemma_move_count, move_gain,
    move_merges, moved, over, play_move, same_board, Board, Move,
};
use crate::line::count_tiles;

verus! {

/// The value of a new tile for a roll in `0..10`: 4 for one roll, 2 for the
/// other nine.
pub open spec fn tile_of_roll(roll: int) -> int {
    if roll == 1 {
        4
    } else {
        2
    }
}

/// `after` is `before` with one tile of 2 or 4 put in a cell that was empty.
pub open spec fn spawned(before: Seq<int>, after: Seq<int>) -> bool {
    exists|p: int|
        0 <= p < 16 && before[p] == 0 && (after == before.update(p, 2) || after == before.update(
            p,
            4,
        ))
}

/// Relies on rand's `SliceRandom::choose` with the thread-local generator:
/// `None` for an empty slice, else one of its elements.
#[verifier::external_body]
fn choose_cell(cells: &Vec<usize>) -> (r: Option<usize>)
    ensures
        cells@.len() == 0 <==> r.is_none(),
        r matches Some(c) ==> cells@.contains(c),
{
    let mut rng = rand::thread_rng();
    cells.choose(&mut rng).copied()
}

/// Relies on rand's `Rng::gen_range` over `0..10` with the thread-local
/// generator: a number below 10.
#[verifier::external_body]
fn roll_tenths() -> (r: usize)
    ensures
        r < 10,
{
    rand::thread_rng().gen_range(0..10)
}

/// The value of a new tile for `roll`: 4 when it is 1, else 2.
pub fn tile_for_roll(roll: usize) -> (r: usize)
    ensures
        r as int == tile_of_roll(roll as int),
{
    if roll == 1 {
        4
    } else {
        2
    }
}

/// The empty cells of `board`, in increasing order.
pub fn blank_spaces(board: &Board) -> (r: Vec<usize>)
    ensures
        forall|j: int| 0 <= j < r@.len() ==> r@[j] < 16 && board@[r@[j] as int] == 0,
        forall|j: int, m: int| 0 <= j < m < r@.len() ==> r@[j] < r@[m],
        forall|i: int| 0 <= i < 16 && board@[i] == 0 ==> r@.contains(i as usize),
{
    let mut r: Vec<usize> = Vec::new();
    let mut i: usize = 0;
    while i < 16
        invariant
            i <= 16,
            forall|j: int| 0 <= j < r@.len() ==> r@[j] < i && board@[r@[j] as int] == 0,
            forall|j: int, m: int| 0 <= j < m < r@.len() ==> r@[j] < r@[m],
            forall|c: int| 0 <= c < i && board@[c] == 0 ==> r@.contains(c as usize),
        decreases 16 - i,
    {
        if board.cells[i] == 0 {
            let ghost prev = r@;
            r.push(i);
            assert(r@[prev.len() as int] == i);
            assert(forall|c: int| 0 <= c < i && board@[c] == 0 ==> prev.contains(c as usize)
                ==> r@.contains(c as usize)) by {
                assert forall|c: int| 0 <= c < i && board@[c] == 0 && prev.contains(
                    c as usize,
                ) implies r@.contains(c as usize) by {
                    let w = choose|w: int| 0 <= w < prev.len() && prev[w] == c as usize;
                    assert(r@[w] == c as usize);
                }
            }
        }
        i = i + 1;
    }
    r
}

/// Puts the tile that `roll` gives into the empty cell `pos`.
pub fn place_tile(board: &mut Board, pos: usize, roll: usize)
    requires
        pos < 16,
        old(board)@[pos as int] == 0,
    ensures
        final(board)@ == old(board)@.update(pos as int, tile_of_roll(roll as int)),
{
    let v = tile_for_roll(roll);
    board.cells[pos] = v;
    assert(final(board)@ =~= old(board)@.update(pos as int, tile_of_roll(roll as int)));
}

/// Puts a 2 or, one time in ten, a 4 into an empty cell chosen at random.
pub fn add_random_tile(board: &mut Board)
    requires
        !full(old(board)@),
    ensures
        spawned(old(board)@, final(board)@),
{
    let blanks = blank_spaces(board);
    let ghost i = choose|i: int| 0 <= i < 16 && old(board)@[i] == 0;
    assert(blanks@.contains(i as usize));
    let pick = choose_cell(&blanks);
    match pick {
        Some(pos) => {
            let roll = roll_tenths();
            let ghost w = choose|w: int| 0 <= w < blanks@.len() && blanks@[w] == pos;
            place_tile(board, pos, roll);
            assert(old(board)@[pos as int] == 0);
        },
        None => {},
    }
}

/// A new tile takes one more cell.
pub proof fn lemma_spawn_count(before: Seq<int>, after: Seq<int>)
    requires
        before.len() == 16,
        spawned(before, after),
    ensures
        count_tiles(after, 16) == count_tiles(before, 16) + 1,
{
    let p = choose|p: int|
        0 <= p < 16 && before[p] == 0 && (after == before.update(p, 2) || after == before.update(
            p,
            4,
        ));
    lemma_count_update(before, p, after[p], 16);
}

proof fn lemma_count_update(s: Seq<int>, p: int, v: int, n: int)
    requires
        0 <= p < s.len(),
        0 <= n <= s.len(),
        s[p] == 0,
        v != 0,
    ensures
        count_tiles(s.update(p, v), n) == count_tiles(s, n) + if p < n {
            1int
        } else {
            0
        },
    decreases n,
{
    if n > 0 {
        lemma_count_update(s, p, v, n - 1);
    }
}

/// A turn that changes the grid takes one cell less per merge, and one
/// more for the new tile.
pub proof fn lemma_turn_count(b: Seq<int>, d: Move, after: Seq<int>)
    requires
        d != Move::Quit,
        b.len() == 16,
        spawned(moved(b, d), after),
    ensures
        count_tiles(after, 16) == count_tiles(b, 16) - move_merges(b, d).len() + 1,
{
    lemma_move_count(b, d);
    lemma_spawn_count(moved(b, d), after);
}

/// A grid with two tiles of 2 or 4 in cells chosen at random, the others
/// empty.
pub fn setup() -> (r: Board)
    ensures
        count_tiles(r@, 16) == 2,
        forall|i: int| 0 <= i < 16 ==> r@[i] == 0 || r@[i] == 2 || r@[i] == 4,
{
    let mut board = Board { cells: [0; 16] };
    let ghost start = board@;
    assert(start[0] == 0);
    add_random_tile(&mut board);
    let ghost mid = board@;
    proof {
        lemma_count16(start);
        lemma_spawn_count(start, mid);
        assert(mid.len() == 16);
    }
    assert(!full(mid)) by {
        if full(mid) {
            lemma_count16(mid);
        }
    }
    add_random_tile(&mut board);
    proof {
        lemma_spawn_count(mid, board@);
    }
    board
}

/// One turn: `None` when the player quits or the game is lost; else the
/// grid after the move, with a new tile where the move changed it, and the
/// new score.
pub fn play_turn(board: &Board, score: usize, mv: Move) -> (r: Option<(Board, usize)>)
    requires
        mv != Move::Quit ==> score + move_gain(board@, mv) <= usize::MAX,
    ensures
        r.is_none() <==> (mv == Move::Quit || over(board@)),
        r matches Some((b, s)) ==> {
            &&& s == score + move_gain(board@, mv)
            &&& moved(board@, mv) == board@ ==> b@ == board@
            &&& moved(board@, mv) != board@ ==> spawned(moved(board@, mv), b@)
        },
{
    if mv == Move::Quit || game_over(board) {
        return None;
    }
    let (mut next, s) = play_move(board, score, mv);
    if !same_board(&next, board) {
        proof {
            lemma_changed_has_room(board@, mv);
        }
        add_random_tile(&mut next);
    }
    Some((next, s))
}

} // verus!
