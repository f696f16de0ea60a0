//! Why the numbers of a game stay small.
//!
//! A tile of 2^k is made of two tiles of half its value, which lay on the
//! board side by side: the larger a tile, the more room its making took. Two
//! measures of a line carry that argument through a move: how many of its
//! cells hold at least a given value, and what its tiles are worth, which is
//! the most that the merges behind them can have added to the score.

use crate::row::{gain, lemma_merged_nonzero, lemma_tiles_len, lemma_tiles_of_packed, merge_gain, merged, slide, tiles};
use vstd::arithmetic::power2::{lemma2_to64, lemma_pow2_strictly_increases, lemma_pow2_unfold, pow2};
use vstd::prelude::*;

verus! {

/// An empty cell, or a power of two from 2 upward.
pub open spec fn is_tile(v: nat) -> bool {
    v == 0 || exists|k: nat| k >= 1 && v == #[trigger] pow2(k)
}

/// Every cell of the line is empty or holds a power of two from 2 upward.
pub open spec fn all_tiles(line: Seq<nat>) -> bool {
    forall|i: int| 0 <= i < line.len() ==> is_tile(#[trigger] line[i])
}

/// 1 if a cell that holds `v` holds `least` or more, else 0.
#[verifier::opaque]
pub open spec fn counts(v: nat, least: nat) -> nat {
    if v >= least {
        1
    } else {
        0
    }
}

/// How many cells of the line hold `least` or more.
pub open spec fn count_at_least(line: Seq<nat>, least: nat) -> nat
    decreases line.len(),
{
    if line.len() == 0 {
        0
    } else {
        counts(line[0], least) + count_at_least(line.skip(1), least)
    }
}

/// What a tile is worth: its own value for the merge that made it, and what
/// its two halves were worth. A 2 is worth 2, so that every tile of the
/// opening board counts; a 4 is worth 8, an 8 is worth 24.
#[verifier::opaque]
pub open spec fn worth(v: nat) -> nat
    decreases v,
{
    if v < 2 {
        0
    } else {
        2 * worth(v / 2) + v
    }
}

/// What the tiles of a line are worth together.
pub open spec fn total_worth(line: Seq<nat>) -> nat
    decreases line.len(),
{
    if line.len() == 0 {
        0
    } else {
        worth(line[0]) + total_worth(line.skip(1))
    }
}

pub proof fn lemma_is_tile_small()
    ensures
        is_tile(0),
        is_tile(2),
        is_tile(4),
{
    lemma2_to64();
    assert(2 == pow2(1));
    assert(4 == pow2(2));
}

pub proof fn lemma_is_tile_double(v: nat)
    requires
        is_tile(v),
        v != 0,
    ensures
        is_tile(2 * v),
{
    let k = choose|k: nat| k >= 1 && v == #[trigger] pow2(k);
    lemma_pow2_unfold(k + 1);
    assert(2 * v == pow2(k + 1));
}

pub proof fn lemma_worth_double(v: nat)
    requires
        v >= 1,
    ensures
        worth(2 * v) == 2 * worth(v) + 2 * v,
{
    reveal(worth);
    assert((2 * v) / 2 == v);
}

pub proof fn lemma_worth_small()
    ensures
        worth(0) == 0,
        worth(2) == 2,
        worth(4) == 8,
{
    reveal_with_fuel(worth, 3);
}

/// A tile below 2^k is worth at most k times 2^k.
pub proof fn lemma_worth_bound(v: nat, k: nat)
    requires
        v < pow2(k),
    ensures
        worth(v) <= k * pow2(k),
    decreases k,
{
    reveal(worth);
    lemma2_to64();
    if v < 2 {
        assert(0 <= k * pow2(k)) by (nonlinear_arith);
    } else {
        if k == 0 {
            assert(false);
        } else {
            lemma_pow2_unfold(k);
            let half = pow2((k - 1) as nat);
            lemma_worth_bound(v / 2, (k - 1) as nat);
            assert(2 * ((k - 1) * half) + 2 * half == k * (2 * half)) by (nonlinear_arith);
        }
    }
}

/// Whether a cell with this value is empty or holds a power of two from 2
/// upward.
pub fn is_tile_value(v: u32) -> (ok: bool)
    ensures
        ok == is_tile(v as nat),
{
    if v == 0 {
        return true;
    }
    let mut p: u32 = 2;
    let mut k: u32 = 1;
    proof {
        lemma2_to64();
    }
    while k < 31
        invariant
            1 <= k <= 31,
            p == pow2(k as nat),
            forall|j: nat| 1 <= j < k ==> v != pow2(j),
            pow2(31) == 0x80000000,
        decreases 31 - k,
    {
        if v == p {
            return true;
        }
        proof {
            lemma_pow2_unfold((k + 1) as nat);
            if k < 30 {
                lemma_pow2_strictly_increases((k + 1) as nat, 31);
            }
        }
        p = p * 2;
        k = k + 1;
    }
    if v == p {
        return true;
    }
    proof {
        assert forall|j: nat| j >= 1 implies v != #[trigger] pow2(j) by {
            if j > 32 {
                lemma_pow2_strictly_increases(32, j);
            }
        }
    }
    false
}

/// What a tile with this value is worth.
pub fn worth_of(v: u32) -> (w: u64)
    ensures
        w == worth(v as nat),
        w <= 0x20_0000_0000,
    decreases v,
{
    proof {
        reveal(worth);
        lemma2_to64();
        lemma_worth_bound(v as nat, 32);
    }
    if v < 2 {
        0
    } else {
        let half = worth_of(v / 2);
        2 * half + v as u64
    }
}

pub proof fn lemma_measures_cons(x: nat, s: Seq<nat>, least: nat)
    ensures
        count_at_least(seq![x] + s, least) == counts(x, least) + count_at_least(s, least),
        total_worth(seq![x] + s) == worth(x) + total_worth(s),
{
    assert((seq![x] + s).skip(1) =~= s);
}

/// The measures of a line of four cells, cell by cell.
pub proof fn lemma_measures_of_four(s: Seq<nat>, least: nat)
    requires
        s.len() == 4,
    ensures
        count_at_least(s, least) == counts(s[0], least) + counts(s[1], least) + counts(
            s[2],
            least,
        ) + counts(s[3], least),
        total_worth(s) == worth(s[0]) + worth(s[1]) + worth(s[2]) + worth(s[3]),
{
    reveal_with_fuel(count_at_least, 5);
    reveal_with_fuel(total_worth, 5);
}

/// A line read from its other end has the same measures.
pub proof fn lemma_measures_reversed(a: Seq<nat>, b: Seq<nat>, least: nat)
    requires
        a.len() == 4,
        b.len() == 4,
        forall|k: int| 0 <= k < 4 ==> b[k] == a[3 - k],
    ensures
        count_at_least(b, least) == count_at_least(a, least),
        total_worth(b) == total_worth(a),
{
    lemma_measures_of_four(a, least);
    lemma_measures_of_four(b, least);
}

pub proof fn lemma_count_bounds(s: Seq<nat>, least: nat)
    ensures
        count_at_least(s, least) <= s.len(),
        count_at_least(s, least) == 0 ==> forall|i: int| 0 <= i < s.len() ==> s[i] < least,
    decreases s.len(),
{
    reveal(counts);
    if s.len() > 0 {
        let rest = s.skip(1);
        lemma_count_bounds(rest, least);
        if count_at_least(s, least) == 0 {
            assert forall|i: int| 0 <= i < s.len() implies s[i] < least by {
                if i > 0 {
                    assert(s[i] == rest[i - 1]);
                }
            }
        }
    }
}

/// Empty cells count for nothing and are worth nothing.
pub proof fn lemma_measures_of_tiles(line: Seq<nat>, least: nat)
    requires
        least >= 1,
    ensures
        count_at_least(tiles(line), least) == count_at_least(line, least),
        total_worth(tiles(line)) == total_worth(line),
        all_tiles(line) ==> all_tiles(tiles(line)),
    decreases line.len(),
{
    reveal(counts);
    lemma_worth_small();
    if line.len() > 0 {
        let rest = line.skip(1);
        lemma_measures_of_tiles(rest, least);
        if line[0] != 0 {
            lemma_measures_cons(line[0], tiles(rest), least);
        }
        if all_tiles(line) {
            assert forall|i: int| 0 <= i < rest.len() implies is_tile(#[trigger] rest[i]) by {
                assert(rest[i] == line[i + 1]);
            }
            assert forall|i: int| 0 <= i < tiles(line).len() implies is_tile(
                #[trigger] tiles(line)[i],
            ) by {
                if line[0] != 0 {
                    if i > 0 {
                        assert(tiles(line)[i] == tiles(rest)[i - 1]);
                    } else {
                        assert(tiles(line)[0] == line[0]);
                    }
                }
            }
        }
    }
}

/// Merging: a merged tile of `2 * least` or more takes two tiles of `least`
/// or more away; the merged tiles are worth what the tiles were worth and what
/// the merges added to the score.
pub proof fn lemma_measures_of_merged(t: Seq<nat>, least: nat)
    requires
        forall|i: int| 0 <= i < t.len() ==> t[i] != 0,
    ensures
        2 * count_at_least(merged(t), 2 * least) <= count_at_least(t, least) + count_at_least(
            t,
            2 * least,
        ),
        total_worth(merged(t)) == total_worth(t) + merge_gain(t),
        all_tiles(t) ==> all_tiles(merged(t)),
    decreases t.len(),
{
    reveal(counts);
    if t.len() == 0 {
    } else if t.len() >= 2 && t[0] == t[1] {
        let rest = t.skip(2);
        let mid = t.skip(1);
        assert(mid.skip(1) =~= rest);
        assert(mid[0] == t[1]);
        lemma_measures_of_merged(rest, least);
        lemma_measures_cons(2 * t[0], merged(rest), 2 * least);
        lemma_worth_double(t[0]);
        assert(count_at_least(mid, least) == counts(t[1], least) + count_at_least(rest, least));
        assert(count_at_least(mid, 2 * least) == counts(t[1], 2 * least) + count_at_least(
            rest,
            2 * least,
        ));
        assert(total_worth(mid) == worth(t[1]) + total_worth(rest));
        if all_tiles(t) {
            assert forall|i: int| 0 <= i < rest.len() implies is_tile(#[trigger] rest[i]) by {
                assert(rest[i] == t[i + 2]);
            }
            assert(is_tile(t[0]));
            lemma_is_tile_double(t[0]);
            assert forall|i: int| 0 <= i < merged(t).len() implies is_tile(
                #[trigger] merged(t)[i],
            ) by {
                if i > 0 {
                    assert(merged(t)[i] == merged(rest)[i - 1]);
                }
            }
        }
    } else {
        let rest = t.skip(1);
        lemma_measures_of_merged(rest, least);
        lemma_measures_cons(t[0], merged(rest), 2 * least);
        if all_tiles(t) {
            assert forall|i: int| 0 <= i < rest.len() implies is_tile(#[trigger] rest[i]) by {
                assert(rest[i] == t[i + 1]);
            }
            assert(is_tile(t[0]));
            assert forall|i: int| 0 <= i < merged(t).len() implies is_tile(
                #[trigger] merged(t)[i],
            ) by {
                if i > 0 {
                    assert(merged(t)[i] == merged(rest)[i - 1]);
                }
            }
        }
    }
}

/// The tiles of a slid line are the merged tiles of the line.
pub proof fn lemma_tiles_of_slide(line: Seq<nat>)
    ensures
        tiles(slide(line)) == merged(tiles(line)),
{
    let m = merged(tiles(line));
    lemma_tiles_len(line);
    lemma_merged_nonzero(tiles(line));
    crate::row::lemma_merged_len(tiles(line));
    lemma_tiles_of_packed(m, line.len());
}

/// A move and the measures of one line.
pub proof fn lemma_measures_of_slide(line: Seq<nat>, least: nat)
    requires
        least >= 1,
    ensures
        2 * count_at_least(slide(line), 2 * least) <= count_at_least(line, least) + count_at_least(
            line,
            2 * least,
        ),
        total_worth(slide(line)) == total_worth(line) + gain(line),
        all_tiles(line) ==> all_tiles(slide(line)),
{
    let t = tiles(line);
    let m = merged(t);
    lemma_tiles_len(line);
    lemma_tiles_of_slide(line);
    lemma_measures_of_tiles(line, least);
    lemma_measures_of_tiles(line, 2 * least);
    lemma_measures_of_merged(t, least);
    lemma_measures_of_tiles(slide(line), 2 * least);
    if all_tiles(line) {
        assert forall|i: int| 0 <= i < slide(line).len() implies is_tile(
            #[trigger] slide(line)[i],
        ) by {
            if i < m.len() {
                assert(is_tile(m[i]));
            }
        }
    }
}

} // verus!
