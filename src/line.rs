//! One line of four cells: compaction toward the front, then pairwise merging.

use vstd::prelude::*;

verus! {

/// The values of a line of cells, as integers.
pub open spec fn values(t: Seq<usize>) -> Seq<int> {
    t.map_values(|x: usize| x as int)
}

/// 1 for an occupied cell, 0 for an empty one.
pub open spec fn occupied(x: int) -> int {
    if x != 0 {
        1
    } else {
        0
    }
}

/// The number of occupied cells among the first `n` of `s`.
pub open spec fn count_tiles(s: Seq<int>, n: int) -> int
    decreases n,
{
    if n <= 0 {
        0
    } else {
        count_tiles(s, n - 1) + occupied(s[n - 1])
    }
}

/// The sum of the values of `s`.
pub open spec fn total(s: Seq<int>) -> int
    decreases s.len(),
{
    if s.len() == 0 {
        0
    } else {
        total(s.drop_last()) + s.last()
    }
}

/// The non-zero values of `s`, in their order.
pub open spec fn nonzero(s: Seq<int>) -> Seq<int>
    decreases s.len(),
{
    if s.len() == 0 {
        seq![]
    } else if s.last() == 0 {
        nonzero(s.drop_last())
    } else {
        nonzero(s.drop_last()).push(s.last())
    }
}

/// The first four non-zero values of `s`, padded with empty cells to four.
pub open spec fn compact(s: Seq<int>) -> Seq<int> {
    (nonzero(s) + seq![0int, 0, 0, 0]).take(4)
}

/// A merge of two equal tiles of value `x` creates one tile of `2 * x`;
/// two empty cells create nothing.
pub open spec fn merged_pair(x: int) -> Seq<int> {
    if x != 0 {
        seq![2 * x]
    } else {
        seq![]
    }
}

/// Merges a compacted line front to back: each tile merges at most once,
/// with its neighbour toward the back.
pub open spec fn merge_pairs(c: Seq<int>) -> Seq<int> {
    let (a, b, x, d) = (c[0], c[1], c[2], c[3]);
    if a == b && x == d {
        seq![2 * a, 2 * x, 0, 0]
    } else if a == b {
        seq![2 * a, x, d, 0]
    } else if b == x {
        seq![a, 2 * b, d, 0]
    } else if x == d {
        seq![a, b, 2 * x, 0]
    } else {
        c
    }
}

/// The tiles that `merge_pairs` creates on a compacted line, front to back.
pub open spec fn merged_tiles(c: Seq<int>) -> Seq<int> {
    let (a, b, x, d) = (c[0], c[1], c[2], c[3]);
    if a == b && x == d {
        merged_pair(a) + merged_pair(x)
    } else if a == b {
        merged_pair(a)
    } else if b == x {
        merged_pair(b)
    } else if x == d {
        merged_pair(x)
    } else {
        seq![]
    }
}

/// A line after it is compacted and merged toward its front.
pub open spec fn slide(s: Seq<int>) -> Seq<int> {
    merge_pairs(compact(s))
}

/// The tiles that sliding `s` creates by merges.
pub open spec fn merges(s: Seq<int>) -> Seq<int> {
    merged_tiles(compact(s))
}

/// What sliding `s` adds to the score.
pub open spec fn gain(s: Seq<int>) -> int {
    total(merges(s))
}

/// `n` empty cells.
pub open spec fn empties(n: int) -> Seq<int> {
    Seq::new(n as nat, |j: int| 0int)
}

/// Where the run of occupied cells at the front of a four-cell line ends.
pub open spec fn front_len(t: Seq<int>) -> int {
    if t[0] == 0 {
        0
    } else if t[1] == 0 {
        1
    } else if t[2] == 0 {
        2
    } else if t[3] == 0 {
        3
    } else {
        4
    }
}

/// A four-cell line whose tiles all stand at its front, with no gap.
pub open spec fn packed(t: Seq<int>) -> bool {
    &&& t.len() == 4
    &&& forall|j: int| front_len(t) <= j < 4 ==> t[j] == 0
}

/// Two neighbouring cells of `t` hold the same tile.
pub open spec fn has_pair(t: Seq<int>) -> bool {
    exists|j: int| 0 <= j < 3 && #[trigger] t[j] != 0 && t[j] == t[j + 1]
}

proof fn lemma_nonzero_append(a: Seq<int>, b: Seq<int>)
    ensures
        nonzero(a + b) == nonzero(a) + nonzero(b),
    decreases b.len(),
{
    if b.len() == 0 {
        assert(a + b =~= a);
        assert(nonzero(a) + nonzero(b) =~= nonzero(a));
    } else {
        lemma_nonzero_append(a, b.drop_last());
        assert((a + b).drop_last() =~= a + b.drop_last());
        if b.last() != 0 {
            assert(nonzero(a) + nonzero(b.drop_last()).push(b.last()) =~= (nonzero(a) + nonzero(
                b.drop_last(),
            )).push(b.last()));
        }
    }
}

proof fn lemma_nonzero_of_tiles(p: Seq<int>)
    requires
        forall|j: int| 0 <= j < p.len() ==> p[j] != 0,
    ensures
        nonzero(p) == p,
    decreases p.len(),
{
    if p.len() > 0 {
        lemma_nonzero_of_tiles(p.drop_last());
        assert(p.drop_last().push(p.last()) =~= p);
    }
}

proof fn lemma_nonzero_of_empties(n: int)
    requires
        n >= 0,
    ensures
        nonzero(empties(n)) == Seq::<int>::empty(),
    decreases n,
{
    if n > 0 {
        lemma_nonzero_of_empties(n - 1);
        assert(empties(n).drop_last() =~= empties(n - 1));
    }
}

/// A packed line: its tiles, then empty cells.
proof fn lemma_packed_parts(t: Seq<int>)
    requires
        packed(t),
    ensures
        t == t.take(front_len(t)) + empties(4 - front_len(t)),
        nonzero(t) == t.take(front_len(t)),
        compact(t) == t,
{
    let k = front_len(t);
    let p = t.take(k);
    assert(t =~= p + empties(4 - k));
    lemma_nonzero_append(p, empties(4 - k));
    lemma_nonzero_of_tiles(p);
    lemma_nonzero_of_empties(4 - k);
    assert(nonzero(t) =~= p);
    assert(compact(t) =~= t);
}

proof fn lemma_count_prefix(s: Seq<int>, n: int)
    requires
        0 <= n <= s.len(),
    ensures
        count_tiles(s, n) == nonzero(s.take(n)).len(),
    decreases n,
{
    if n > 0 {
        lemma_count_prefix(s, n - 1);
        assert(s.take(n).drop_last() =~= s.take(n - 1));
    }
}

/// Compacting a four-cell line packs it and keeps its tiles.
proof fn lemma_compact_packed(s: Seq<int>)
    requires
        s.len() == 4,
    ensures
        packed(compact(s)),
        nonzero(compact(s)) == nonzero(s),
        count_tiles(compact(s), 4) == count_tiles(s, 4),
{
    let nz = nonzero(s);
    lemma_nonzero_nonneg(s);
    let c = compact(s);
    assert(c =~= nz + empties(4 - nz.len()));
    assert(forall|j: int| 0 <= j < nz.len() ==> c[j] != 0);
    assert(front_len(c) == nz.len());
    lemma_packed_parts(c);
    assert(c.take(front_len(c)) =~= nz);
    lemma_count_prefix(s, 4);
    lemma_count_prefix(c, 4);
    assert(s.take(4) =~= s);
    assert(c.take(4) =~= c);
}

/// Merging a packed line keeps it packed, and frees one cell per merge.
proof fn lemma_merge_packed(c: Seq<int>)
    requires
        packed(c),
    ensures
        packed(merge_pairs(c)),
        count_tiles(merge_pairs(c), 4) == count_tiles(c, 4) - merged_tiles(c).len(),
{
    reveal_with_fuel(count_tiles, 5);
}

/// Compacting is idempotent: compacting a compacted line changes nothing,
/// and sliding a compacted line gives what sliding the line itself gives.
pub proof fn lemma_compact_idempotent(s: Seq<int>)
    requires
        s.len() == 4,
    ensures
        compact(compact(s)) == compact(s),
        slide(compact(s)) == slide(s),
{
    lemma_compact_packed(s);
    lemma_packed_parts(compact(s));
}

/// Sliding a line whose slid result holds no two equal neighbouring tiles
/// is idempotent: a second slide changes nothing and gains nothing.
pub proof fn lemma_slide_idempotent(s: Seq<int>)
    requires
        s.len() == 4,
        !has_pair(slide(s)),
    ensures
        slide(slide(s)) == slide(s),
        gain(slide(s)) == 0,
{
    lemma_compact_packed(s);
    lemma_merge_packed(compact(s));
    lemma_packed_parts(slide(s));
    let t = slide(s);
    assert(!(0 <= 0 < 3 && t[0] != 0 && t[0] == t[1]));
    assert(!(0 <= 1 < 3 && t[1] != 0 && t[1] == t[2]));
    assert(!(0 <= 2 < 3 && t[2] != 0 && t[2] == t[3]));
    assert(merge_pairs(t) =~= t);
    lemma_gain_cases(t);
}

/// Each merge on a line frees exactly one cell: the occupied cells after a
/// slide are those before, less the number of merges.
pub proof fn lemma_slide_count(s: Seq<int>)
    requires
        s.len() == 4,
    ensures
        count_tiles(slide(s), 4) == count_tiles(s, 4) - merges(s).len(),
{
    lemma_compact_packed(s);
    lemma_merge_packed(compact(s));
}

proof fn lemma_total_small(x: int, y: int)
    ensures
        total(seq![x]) == x,
        total(seq![x, y]) == x + y,
        total(Seq::<int>::empty()) == 0,
{
    reveal_with_fuel(total, 3);
    assert(seq![x].drop_last() =~= Seq::<int>::empty());
    assert(seq![x, y].drop_last() =~= seq![x]);
}

/// The gain of a line, case by case.
proof fn lemma_gain_cases(s: Seq<int>)
    ensures
        ({
            let c = compact(s);
            let (a, b, x, d) = (c[0], c[1], c[2], c[3]);
            gain(s) == if a == b && x == d {
                2 * a + 2 * x
            } else if a == b {
                2 * a
            } else if b == x {
                2 * b
            } else if x == d {
                2 * x
            } else {
                0
            }
        }),
{
    let c = compact(s);
    let (a, b, x, d) = (c[0], c[1], c[2], c[3]);
    lemma_total_small(2 * a, 2 * x);
    lemma_total_small(2 * b, 0);
    lemma_total_small(2 * x, 0);
    if a == b && x == d {
        if a != 0 && x != 0 {
            assert(merged_pair(a) + merged_pair(x) =~= seq![2 * a, 2 * x]);
        } else if a != 0 {
            assert(merged_pair(a) + merged_pair(x) =~= seq![2 * a]);
        } else if x != 0 {
            assert(merged_pair(a) + merged_pair(x) =~= seq![2 * x]);
        } else {
            assert(merged_pair(a) + merged_pair(x) =~= Seq::<int>::empty());
        }
    }
}

proof fn lemma_nonzero_nonneg(s: Seq<int>)
    ensures
        nonzero(s).len() <= s.len(),
        forall|i: int| 0 <= i < nonzero(s).len() ==> nonzero(s)[i] != 0,
    decreases s.len(),
{
    if s.len() > 0 {
        lemma_nonzero_nonneg(s.drop_last());
    }
}

proof fn lemma_nonzero_from(s: Seq<int>)
    requires
        forall|j: int| 0 <= j < s.len() ==> s[j] >= 0,
    ensures
        forall|j: int| 0 <= j < nonzero(s).len() ==> nonzero(s)[j] >= 0,
    decreases s.len(),
{
    if s.len() > 0 {
        let p = s.drop_last();
        assert(forall|j: int| 0 <= j < p.len() ==> p[j] == s[j]);
        lemma_nonzero_from(p);
        assert(s.last() >= 0);
        if s.last() != 0 {
            let q = nonzero(p);
            assert(nonzero(s) == q.push(s.last()));
            assert(forall|j: int| 0 <= j < q.len() ==> q.push(s.last())[j] == q[j]);
        }
    }
}

/// Sliding a line of values that are not negative gains nothing negative.
pub proof fn lemma_gain_nonneg(s: Seq<int>)
    requires
        forall|j: int| 0 <= j < s.len() ==> s[j] >= 0,
    ensures
        gain(s) >= 0,
        forall|j: int| 0 <= j < 4 ==> compact(s)[j] >= 0,
{
    lemma_nonzero_from(s);
    lemma_gain_cases(s);
}

pub proof fn lemma_total_append(a: Seq<int>, b: Seq<int>)
    ensures
        total(a + b) == total(a) + total(b),
    decreases b.len(),
{
    if b.len() == 0 {
        assert(a + b =~= a);
    } else {
        lemma_total_append(a, b.drop_last());
        assert((a + b).drop_last() =~= a + b.drop_last());
    }
}

/// A line with no empty cell and no two equal neighbours does not change.
pub proof fn lemma_settled_line(s: Seq<int>)
    requires
        s.len() == 4,
        forall|j: int| 0 <= j < 4 ==> s[j] != 0,
        s[0] != s[1] && s[1] != s[2] && s[2] != s[3],
    ensures
        slide(s) == s,
        gain(s) == 0,
        merges(s).len() == 0,
{
    lemma_packed_parts(s);
    lemma_gain_cases(s);
}

/// A line that a slide leaves with no empty cell did not change.
pub proof fn lemma_full_slide(s: Seq<int>)
    requires
        s.len() == 4,
        forall|j: int| 0 <= j < 4 ==> slide(s)[j] != 0,
    ensures
        slide(s) == s,
{
    reveal_with_fuel(count_tiles, 5);
    lemma_slide_count(s);
    lemma_compact_packed(s);
    let c = compact(s);
    lemma_packed_parts(c);
    assert(forall|j: int| 0 <= j < 4 ==> s[j] != 0);
    lemma_packed_parts(s);
    assert(merge_pairs(c) =~= c);
}

/// The first four non-zero values of `tiles`, in order, padded with empty
/// cells.
pub fn compact_line(tiles: &[usize]) -> (c: [usize; 4])
    ensures
        values(c@) == compact(values(tiles@)),
{
    let ghost s = values(tiles@);
    let mut c: [usize; 4] = [0, 0, 0, 0];
    let mut n: usize = 0;
    let mut i: usize = 0;
    while i < tiles.len()
        invariant
            0 <= i <= tiles.len(),
            s == values(tiles@),
            n <= 4,
            n as int == if nonzero(s.take(i as int)).len() < 4 {
                nonzero(s.take(i as int)).len()
            } else {
                4
            },
            values(c@) =~= compact(s.take(i as int)),
        decreases tiles.len() - i,
    {
        let ghost before = s.take(i as int);
        let x = tiles[i];
        assert(s.take(i + 1).drop_last() =~= before);
        assert(s.take(i + 1).last() == x as int);
        proof {
            lemma_nonzero_nonneg(before);
        }
        if x != 0 && n < 4 {
            assert(nonzero(s.take(i + 1)) == nonzero(before).push(x as int));
            let ghost nz = nonzero(before);
            assert(forall|j: int| 0 <= j < 4 ==> compact(before)[j] == if j < nz.len() {
                nz[j]
            } else {
                0
            });
            assert(forall|j: int| 0 <= j < 4 ==> compact(s.take(i + 1))[j] == if j < nz.len() {
                nz[j]
            } else if j == nz.len() {
                x as int
            } else {
                0
            });
            let ghost prev = c@;
            c[n] = x;
            assert(forall|j: int| 0 <= j < 4 ==> values(c@)[j] == if j == n as int {
                x as int
            } else {
                values(prev)[j]
            });
            n = n + 1;
            assert(values(c@) =~= compact(s.take(i + 1)));
        } else if x == 0 {
            assert(nonzero(s.take(i + 1)) == nonzero(before));
        } else {
            assert(nonzero(s.take(i + 1)) == nonzero(before).push(x as int));
            assert(compact(s.take(i + 1)) =~= compact(before));
        }
        i = i + 1;
    }
    assert(s.take(tiles.len() as int) =~= s);
    c
}

/// What sliding `tiles` adds to the score, in a type wide enough for any
/// line.
pub fn line_gain(tiles: &[usize]) -> (g: u128)
    ensures
        g == gain(values(tiles@)),
        g <= 4 * usize::MAX,
{
    let ghost s = values(tiles@);
    let c = compact_line(tiles);
    proof {
        lemma_gain_cases(s);
    }
    let (a, b, x, d) = (c[0] as u128, c[1] as u128, c[2] as u128, c[3] as u128);
    if a == b && x == d {
        a * 2 + x * 2
    } else if a == b {
        a * 2
    } else if b == x {
        b * 2
    } else if x == d {
        x * 2
    } else {
        0
    }
}

/// Compacts `tiles` toward the front and merges equal neighbours once each,
/// front to back; returns the new line and `score` plus the merged values.
pub fn move_and_combine(tiles: &[usize], score: usize) -> (r: ([usize; 4], usize))
    requires
        score + gain(values(tiles@)) <= usize::MAX,
    ensures
        values(r.0@) == slide(values(tiles@)),
        r.1 == score + gain(values(tiles@)),
{
    let ghost s = values(tiles@);
    let c = compact_line(tiles);
    proof {
        lemma_gain_cases(s);
    }
    let (a, b, x, d) = (c[0], c[1], c[2], c[3]);
    let r = if a == b && x == d {
        ([a * 2, x * 2, 0, 0], score + a * 2 + x * 2)
    } else if a == b {
        ([a * 2, x, d, 0], score + a * 2)
    } else if b == x {
        ([a, b * 2, d, 0], score + b * 2)
    } else if x == d {
        ([a, b, x * 2, 0], score + x * 2)
    } else {
        ([a, b, x, d], score)
    };
    assert(values(r.0@) =~= slide(s));
    r
}

} // verus!
