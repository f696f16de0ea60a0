//! One line of the board: four cells read from the edge that the tiles move
//! toward. Sliding a line is the whole of the game's mechanics; a move applies
//! it to each of the four lines that run along the chosen direction.
//!
//! The model is a `Seq<nat>` (0 is an empty cell), of any length: nothing in
//! the definitions depends on the board's size.

use vstd::prelude::*;

verus! {

/// The non-empty cells of a line, in their order.
pub open spec fn tiles(line: Seq<nat>) -> Seq<nat>
    decreases line.len(),
{
    if line.len() == 0 {
        Seq::empty()
    } else if line[0] == 0 {
        tiles(line.skip(1))
    } else {
        seq![line[0]] + tiles(line.skip(1))
    }
}

/// Merges equal neighbours pairwise, starting at the leading edge. A tile that
/// came out of a merge does not merge again.
pub open spec fn merged(t: Seq<nat>) -> Seq<nat>
    decreases t.len(),
{
    if t.len() == 0 {
        Seq::empty()
    } else if t.len() >= 2 && t[0] == t[1] {
        seq![2 * t[0]] + merged(t.skip(2))
    } else {
        seq![t[0]] + merged(t.skip(1))
    }
}

/// The sum of the tiles that `merged` creates.
pub open spec fn merge_gain(t: Seq<nat>) -> nat
    decreases t.len(),
{
    if t.len() == 0 {
        0
    } else if t.len() >= 2 && t[0] == t[1] {
        2 * t[0] + merge_gain(t.skip(2))
    } else {
        merge_gain(t.skip(1))
    }
}

/// The line after a move toward its leading edge: the tiles merged and packed
/// against the edge, the rest empty.
pub open spec fn slide(line: Seq<nat>) -> Seq<nat> {
    let m = merged(tiles(line));
    Seq::new(
        line.len(),
        |i: int|
            if i < m.len() {
                m[i]
            } else {
                0
            },
    )
}

/// What a move toward the leading edge adds to the score on this line.
pub open spec fn gain(line: Seq<nat>) -> nat {
    merge_gain(tiles(line))
}

/// No cell of the line is empty.
pub open spec fn full(line: Seq<nat>) -> bool {
    forall|i: int| 0 <= i < line.len() ==> line[i] != 0
}

/// No two neighbouring cells of the line are equal.
pub open spec fn no_equal_neighbours(line: Seq<nat>) -> bool {
    forall|i: int, j: int| 0 <= i < line.len() && j == i + 1 && j < line.len() ==> line[i] != line[j]
}

/// The cells of an array as a line.
pub open spec fn cells(row: [u32; 4]) -> Seq<nat> {
    Seq::new(4, |i: int| row[i] as nat)
}

pub proof fn lemma_tiles_at(line: Seq<nat>, k: int)
    requires
        0 <= k < line.len(),
    ensures
        tiles(line.skip(k)) == if line[k] == 0 {
            tiles(line.skip(k + 1))
        } else {
            seq![line[k]] + tiles(line.skip(k + 1))
        },
{
    assert(line.skip(k).skip(1) =~= line.skip(k + 1));
}

pub proof fn lemma_merged_two(p: nat, t: nat, rest: Seq<nat>)
    ensures
        merged(seq![p] + (seq![t] + rest)) == if p == t {
            seq![2 * p] + merged(rest)
        } else {
            seq![p] + merged(seq![t] + rest)
        },
        merge_gain(seq![p] + (seq![t] + rest)) == if p == t {
            2 * p + merge_gain(rest)
        } else {
            merge_gain(seq![t] + rest)
        },
{
    let s = seq![p] + (seq![t] + rest);
    assert(s.skip(2) =~= rest);
    assert(s.skip(1) =~= seq![t] + rest);
}

pub proof fn lemma_merged_one(p: nat)
    ensures
        merged(seq![p]) == seq![p],
        merge_gain(seq![p]) == 0,
{
    let s = seq![p];
    assert(s.skip(1) =~= Seq::<nat>::empty());
    assert(merged(s.skip(1)) =~= Seq::<nat>::empty());
    assert(merge_gain(s.skip(1)) == 0);
    assert(seq![p] + Seq::<nat>::empty() =~= seq![p]);
}

pub proof fn lemma_tiles_len(line: Seq<nat>)
    ensures
        tiles(line).len() <= line.len(),
        tiles(line).len() == line.len() ==> tiles(line) == line,
        full(line) ==> tiles(line) == line,
        forall|i: int| 0 <= i < tiles(line).len() ==> tiles(line)[i] != 0,
    decreases line.len(),
{
    if line.len() > 0 {
        let rest = line.skip(1);
        lemma_tiles_len(rest);
        if line[0] != 0 {
            if tiles(rest).len() == rest.len() {
                assert(seq![line[0]] + rest =~= line);
            }
            if full(line) {
                assert(forall|i: int| 0 <= i < rest.len() ==> rest[i] == line[i + 1]);
                assert(full(rest));
            }
        }
    } else {
        assert(tiles(line) =~= line);
    }
}

pub proof fn lemma_merged_len(t: Seq<nat>)
    ensures
        merged(t).len() <= t.len(),
        merged(t).len() == t.len() ==> merged(t) == t && merge_gain(t) == 0,
        no_equal_neighbours(t) ==> merged(t) == t && merge_gain(t) == 0,
    decreases t.len(),
{
    if t.len() == 0 {
        assert(merged(t) =~= t);
    } else if t.len() >= 2 && t[0] == t[1] {
        lemma_merged_len(t.skip(2));
    } else {
        let rest = t.skip(1);
        lemma_merged_len(rest);
        if merged(rest) == rest {
            assert(seq![t[0]] + rest =~= t);
        }
        if no_equal_neighbours(t) {
            assert forall|i: int, j: int|
                0 <= i < rest.len() && j == i + 1 && j < rest.len() implies rest[i] != rest[j] by {
                assert(rest[i] == t[i + 1]);
                assert(rest[j] == t[j + 1]);
            }
        }
    }
}

/// A line without an empty cell and without two equal neighbours stays as it
/// is, and nothing is gained.
pub proof fn lemma_slide_fixed(line: Seq<nat>)
    requires
        full(line),
        no_equal_neighbours(line),
    ensures
        slide(line) == line,
        gain(line) == 0,
{
    lemma_tiles_len(line);
    lemma_merged_len(line);
    assert(slide(line) =~= line);
}

/// A line that a move changes has an empty cell at its far end afterwards.
pub proof fn lemma_slide_frees_a_cell(line: Seq<nat>)
    requires
        line.len() > 0,
        slide(line) != line,
    ensures
        slide(line)[line.len() - 1] == 0,
{
    let t = tiles(line);
    lemma_tiles_len(line);
    lemma_merged_len(t);
    if merged(t).len() == line.len() {
        assert(slide(line) =~= line);
    }
}

/// A line with an empty cell that is nearer to the leading edge than some
/// tile changes: the tile slides.
pub proof fn lemma_gap_slides(line: Seq<nat>, i: int, j: int)
    requires
        0 <= i < j < line.len(),
        line[i] == 0,
        line[j] != 0,
    ensures
        slide(line) != line,
{
    let m = merged(tiles(line));
    lemma_tiles_len(line);
    lemma_merged_nonzero(tiles(line));
    if slide(line) == line {
        assert(slide(line)[i] == 0);
        if i < m.len() {
            assert(m[i] != 0);
        }
        assert(slide(line)[j] == 0);
    }
}

/// Where two neighbours are equal, merging makes the tiles fewer.
pub proof fn lemma_pair_merges(t: Seq<nat>, i: int)
    requires
        0 <= i,
        i + 1 < t.len(),
        t[i] == t[i + 1],
    ensures
        merged(t).len() < t.len(),
    decreases t.len(),
{
    if t[0] == t[1] {
        lemma_merged_len(t.skip(2));
    } else {
        let rest = t.skip(1);
        assert(rest[i - 1] == t[i] && rest[i] == t[i + 1]);
        lemma_pair_merges(rest, i - 1);
    }
}

/// A line without an empty cell in which two neighbours are equal changes:
/// the two merge.
pub proof fn lemma_full_pair_slides(line: Seq<nat>, i: int)
    requires
        full(line),
        0 <= i,
        i + 1 < line.len(),
        line[i] == line[i + 1],
    ensures
        slide(line) != line,
{
    lemma_tiles_len(line);
    lemma_pair_merges(line, i);
    assert(slide(line)[line.len() - 1] == 0);
}

/// A line that a move leaves as it is gains nothing.
pub proof fn lemma_slide_same_gains_nothing(line: Seq<nat>)
    requires
        slide(line) == line,
    ensures
        gain(line) == 0,
{
    let t = tiles(line);
    let m = merged(t);
    lemma_tiles_len(line);
    lemma_merged_len(t);
    lemma_tiles_len(slide(line));
    if m.len() < t.len() {
        // the slid line would hold fewer tiles than the line itself
        lemma_merged_nonzero(t);
        lemma_tiles_of_packed(m, line.len());
        assert(tiles(slide(line)).len() == m.len());
    }
}

/// The tiles of a packed line are the tiles it was packed from.
pub proof fn lemma_tiles_of_packed(m: Seq<nat>, len: nat)
    requires
        m.len() <= len,
        forall|i: int| 0 <= i < m.len() ==> m[i] != 0,
    ensures
        tiles(Seq::new(len, |i: int| if i < m.len() { m[i] } else { 0 })) == m,
    decreases len,
{
    let packed = Seq::new(len, |i: int| if i < m.len() { m[i] } else { 0 });
    if len == 0 {
        assert(m =~= Seq::<nat>::empty());
    } else if m.len() == 0 {
        let rest = Seq::new((len - 1) as nat, |i: int| if i < m.len() { m[i] } else { 0 });
        assert(packed.skip(1) =~= rest);
        lemma_tiles_of_packed(m, (len - 1) as nat);
    } else {
        let m1 = m.skip(1);
        let rest = Seq::new((len - 1) as nat, |i: int| if i < m1.len() { m1[i] } else { 0 });
        assert(packed.skip(1) =~= rest);
        lemma_tiles_of_packed(m1, (len - 1) as nat);
        assert(seq![m[0]] + m1 =~= m);
    }
}

pub proof fn lemma_merged_nonzero(t: Seq<nat>)
    requires
        forall|i: int| 0 <= i < t.len() ==> t[i] != 0,
    ensures
        forall|i: int| 0 <= i < merged(t).len() ==> merged(t)[i] != 0,
    decreases t.len(),
{
    if t.len() == 0 {
    } else {
        let rest = if t.len() >= 2 && t[0] == t[1] {
            t.skip(2)
        } else {
            t.skip(1)
        };
        lemma_merged_nonzero(rest);
        assert forall|i: int| 0 <= i < merged(t).len() implies merged(t)[i] != 0 by {
            if i > 0 {
                assert(merged(t)[i] == merged(rest)[i - 1]);
            }
        }
    }
}

/// What is pending while a line is scanned: the tile that still waits for an
/// equal neighbour, if there is one.
pub open spec fn pending(prev: Option<u32>) -> Seq<nat> {
    match prev {
        Some(p) => seq![p as nat],
        None => Seq::empty(),
    }
}

/// Slides one row toward its first cell: the new row, and what the merges are
/// worth.
pub fn slide_row(row: &[u32; 4]) -> (res: ([u32; 4], u32))
    requires
        forall|i: int| 0 <= i < 4 ==> slide(cells(*row))[i] <= u32::MAX,
        gain(cells(*row)) <= u32::MAX,
    ensures
        cells(res.0) == slide(cells(*row)),
        res.1 == gain(cells(*row)),
{
    let ghost line = cells(*row);
    let mut out = [0u32;4];
    let mut index: usize = 0;
    let mut prev: Option<u32> = None;
    let mut gained: u32 = 0;
    let mut k: usize = 0;
    proof {
        assert(line.skip(0) =~= line);
        assert(Seq::new(0, |j: int| out[j] as nat) + (pending(prev) + tiles(line)) =~= tiles(line));
        assert(pending(prev) + tiles(line) =~= tiles(line));
        lemma_tiles_len(line);
    }
    while k < 4
        invariant
            line == cells(*row),
            k <= 4,
            index + pending(prev).len() <= k,
            prev matches Some(p) ==> p != 0,
            forall|j: int| index <= j < 4 ==> out[j] == 0,
            merged(tiles(line)) == Seq::new(index as nat, |j: int| out[j] as nat) + merged(
                pending(prev) + tiles(line.skip(k as int)),
            ),
            merge_gain(tiles(line)) == gained + merge_gain(
                pending(prev) + tiles(line.skip(k as int)),
            ),
            forall|i: int| 0 <= i < 4 ==> slide(line)[i] <= u32::MAX,
            gain(line) <= u32::MAX,
        decreases 4 - k,
    {
        let tile = row[k];
        let ghost rest = tiles(line.skip(k as int + 1));
        let ghost done = Seq::new(index as nat, |j: int| out[j] as nat);
        proof {
            lemma_tiles_at(line, k as int);
        }
        if tile != 0 {
            match prev {
                Some(p) => {
                    proof {
                        lemma_merged_two(p as nat, tile as nat, rest);
                        assert(pending(prev) + (seq![tile as nat] + rest) =~= seq![p as nat] + (
                        seq![tile as nat] + rest));
                    }
                    if p == tile {
                        proof {
                            let m = merged(tiles(line));
                            assert(m == done + (seq![2 * (p as nat)] + merged(rest)));
                            assert(m[index as int] == 2 * p);
                            assert(slide(line)[index as int] == m[index as int]);
                        }
                        out[index] = tile * 2;
                        gained = gained + tile * 2;
                        prev = None;
                        index = index + 1;
                        proof {
                            assert(pending(prev) + rest =~= rest);
                            assert(Seq::new(index as nat, |j: int| out[j] as nat) =~= done + seq![
                                2 * (p as nat),
                            ]);
                            assert(done + (seq![2 * (p as nat)] + merged(rest)) =~= (done + seq![
                                2 * (p as nat),
                            ]) + merged(rest));
                        }
                    } else {
                        out[index] = p;
                        prev = Some(tile);
                        index = index + 1;
                        proof {
                            assert(pending(prev) + rest =~= seq![tile as nat] + rest);
                            assert(Seq::new(index as nat, |j: int| out[j] as nat) =~= done + seq![
                                p as nat,
                            ]);
                            assert(done + (seq![p as nat] + merged(seq![tile as nat] + rest)) =~= (
                            done + seq![p as nat]) + merged(seq![tile as nat] + rest));
                        }
                    }
                },
                None => {
                    proof {
                        assert(pending(prev) + (seq![tile as nat] + rest) =~= seq![tile as nat]
                            + rest);
                    }
                    prev = Some(tile);
                    proof {
                        assert(pending(prev) + rest =~= seq![tile as nat] + rest);
                    }
                },
            }
        }
        k = k + 1;
    }
    let ghost done = Seq::new(index as nat, |j: int| out[j] as nat);
    proof {
        assert(line.skip(4) =~= Seq::<nat>::empty());
        assert(pending(prev) + tiles(line.skip(4)) =~= pending(prev));
    }
    if let Some(p) = prev {
        proof {
            lemma_merged_one(p as nat);
        }
        out[index] = p;
        proof {
            assert(merged(tiles(line)) =~= Seq::new((index + 1) as nat, |j: int| out[j] as nat));
        }
    } else {
        proof {
            assert(merged(tiles(line)) =~= done);
        }
    }
    proof {
        assert(cells(out) =~= slide(line));
    }
    (out, gained)
}

} // verus!
