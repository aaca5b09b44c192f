//! The winning-line table: the 69 four-in-a-row masks of the 6×7 grid
//! (24 horizontal, 21 vertical, 12 diagonal-up, 12 diagonal-down) and,
//! per cell, the 128-bit index of every line passing through that cell.

use vstd::prelude::*;
use crate::bits::{occ64, occ128, lemma_bit64_01, lemma_bit128_01, lemma_set128_get,
    lemma_line_mask_bits};

verus! {

/// How many four-in-a-row lines the 6×7 grid has.
pub const NUM_LINES: usize = 69;

/// The mask of a four-cell line starting at bit `k` with stride `s`.
pub open spec fn line_mask(k: int, s: int) -> u64 {
    (1u64 << (k as u64)) | (1u64 << ((k + s) as u64)) | (1u64 << ((k + 2 * s) as u64)) | (1u64 << ((
    k + 3 * s) as u64))
}

/// The starting bit index of line `i` of the table.
pub open spec fn line_start(i: int) -> int {
    if i < 24 {
        (i / 4) * 7 + (i % 4)
    } else if i < 45 {
        i - 24
    } else if i < 57 {
        ((i - 45) / 4) * 7 + ((i - 45) % 4)
    } else {
        ((i - 57) / 4) * 7 + ((i - 57) % 4) + 3
    }
}

/// The bit stride of line `i`: 1 horizontal, 7 vertical, 8 diagonal-up,
/// 6 diagonal-down.
pub open spec fn line_step(i: int) -> int {
    if i < 24 {
        1
    } else if i < 45 {
        7
    } else if i < 57 {
        8
    } else {
        6
    }
}

/// The mask of line `i` of the table.
pub open spec fn table_line(i: int) -> u64 {
    line_mask(line_start(i), line_step(i))
}

/// Every line of the table runs in one of the four directions, starts
/// on the grid, stays on the grid, and does not wrap across a row edge.
pub proof fn lemma_line_geometry(i: int)
    requires
        0 <= i < 69,
    ensures
        ({
            let k = line_start(i);
            let s = line_step(i);
            &&& s == 1 || s == 7 || s == 8 || s == 6
            &&& 0 <= k && k + 3 * s < 42
            &&& (s == 1 ==> k % 7 <= 3)
            &&& (s == 7 ==> k / 7 <= 2)
            &&& (s == 8 ==> k % 7 <= 3 && k / 7 <= 2)
            &&& (s == 6 ==> k % 7 >= 3 && k / 7 <= 2)
        }),
{
    if i < 24 {
        let r = i / 4;
        let c = i % 4;
        assert(0 <= r <= 5 && 0 <= c <= 3);
        assert((r * 7 + c) % 7 == c && (r * 7 + c) / 7 == r && r * 7 + c + 3 < 42) by (
        nonlinear_arith)
            requires
                0 <= r <= 5 && 0 <= c <= 3,
        ;
    } else if i < 45 {
        let k = i - 24;
        assert(0 <= k <= 20);
    } else if i < 57 {
        let j = i - 45;
        let r = j / 4;
        let c = j % 4;
        assert(0 <= r <= 2 && 0 <= c <= 3);
        assert((r * 7 + c) % 7 == c && (r * 7 + c) / 7 == r && r * 7 + c + 24 < 42) by (
        nonlinear_arith)
            requires
                0 <= r <= 2 && 0 <= c <= 3,
        ;
    } else {
        let j = i - 57;
        let r = j / 4;
        let c = j % 4;
        assert(0 <= r <= 2 && 0 <= c <= 3);
        assert((r * 7 + c + 3) % 7 == c + 3 && (r * 7 + c + 3) / 7 == r && r * 7 + c + 3 + 18 < 42)
            by (nonlinear_arith)
            requires
                0 <= r <= 2 && 0 <= c <= 3,
        ;
    }
}

/// Every line mask of the table has exactly four set bits: the four
/// contiguous cells of the line, and nothing else.
pub proof fn lemma_line_four_bits(i: int)
    requires
        0 <= i < 69,
    ensures
        ({
            let k = line_start(i);
            let s = line_step(i);
            &&& forall|j: int|
                0 <= j < 64 ==> (occ64(table_line(i), j) <==> (j == k || j == k + s || j == k + 2
                    * s || j == k + 3 * s))
            &&& k < k + s < k + 2 * s < k + 3 * s < 42
        }),
{
    lemma_line_geometry(i);
    let k = line_start(i);
    let s = line_step(i);
    assert forall|j: int|
        0 <= j < 64 implies (occ64(table_line(i), j) <==> (j == k || j == k + s || j == k + 2 * s
        || j == k + 3 * s)) by {
        lemma_line_mask_bits(k as u64, s as u64, j as u64);
        lemma_bit64_01(table_line(i), j as u64);
    }
}

/// A line mask of the table is never zero.
pub proof fn lemma_line_nonzero(i: int)
    requires
        0 <= i < 69,
    ensures
        table_line(i) != 0,
{
    lemma_line_four_bits(i);
    let k = line_start(i);
    assert(occ64(table_line(i), k));
    if table_line(i) == 0 {
        assert(forall|j: u64| (0u64 >> j) & 1u64 == 0u64) by (bit_vector);
    }
}

/// The winning-line table: `lines[i]` is the mask of line `i`, and
/// `cells[k]` has bit `i` set exactly when line `i` passes through the
/// cell with bit index `k`.
pub struct LineTable {
    pub lines: Vec<u64>,
    pub cells: Vec<u128>,
}

impl LineTable {
    pub open spec fn wf(self) -> bool {
        &&& self.lines@.len() == 69
        &&& forall|i: int| 0 <= i < 69 ==> self.lines@[i] == table_line(i)
        &&& self.cells@.len() == 42
        &&& forall|k: int, i: int|
            0 <= k < 42 && 0 <= i < 128 ==> (#[trigger] occ128(self.cells@[k], i) <==> (i < 69
                && occ64(table_line(i), k)))
    }

    /// Builds the table: exactly 69 lines, then the per-cell index
    /// derived from them.
    pub fn new() -> (r: LineTable)
        ensures
            r.wf(),
            r.lines@.len() == 69,
    {
        let mut lines: Vec<u64> = Vec::new();
        // horizontal lines, stride 1
        for row in 0..6u64
            invariant
                lines@.len() == row * 4,
                forall|j: int| 0 <= j < lines@.len() ==> lines@[j] == table_line(j),
        {
            for col in 0..4u64
                invariant
                    row < 6,
                    lines@.len() == row * 4 + col,
                    forall|j: int| 0 <= j < lines@.len() ==> lines@[j] == table_line(j),
            {
                let k = row * 7 + col;
                let ghost j0 = lines@.len() as int;
                lines.push(line_mask_exec(k, 1));
                proof {
                    assert(j0 / 4 == row && j0 % 4 == col) by (nonlinear_arith)
                        requires
                            j0 == row * 4 + col && row < 6 && col < 4,
                    ;
                    assert(line_start(j0) == k && line_step(j0) == 1);
                }
            }
        }
        // vertical lines, stride 7
        for row in 0..3u64
            invariant
                lines@.len() == 24 + row * 7,
                forall|j: int| 0 <= j < lines@.len() ==> lines@[j] == table_line(j),
        {
            for col in 0..7u64
                invariant
                    row < 3,
                    lines@.len() == 24 + row * 7 + col,
                    forall|j: int| 0 <= j < lines@.len() ==> lines@[j] == table_line(j),
            {
                let k = row * 7 + col;
                let ghost j0 = lines@.len() as int;
                lines.push(line_mask_exec(k, 7));
                proof {
                    assert(line_start(j0) == k && line_step(j0) == 7);
                }
            }
        }
        // diagonal-up lines, stride 8
        for row in 0..3u64
            invariant
                lines@.len() == 45 + row * 4,
                forall|j: int| 0 <= j < lines@.len() ==> lines@[j] == table_line(j),
        {
            for col in 0..4u64
                invariant
                    row < 3,
                    lines@.len() == 45 + row * 4 + col,
                    forall|j: int| 0 <= j < lines@.len() ==> lines@[j] == table_line(j),
            {
                let k = row * 7 + col;
                let ghost j0 = lines@.len() as int;
                lines.push(line_mask_exec(k, 8));
                proof {
                    assert((j0 - 45) / 4 == row && (j0 - 45) % 4 == col) by (nonlinear_arith)
                        requires
                            j0 == 45 + row * 4 + col && row < 3 && col < 4,
                    ;
                    assert(line_start(j0) == k && line_step(j0) == 8);
                }
            }
        }
        // diagonal-down lines, stride 6, starting three cells in
        for row in 0..3u64
            invariant
                lines@.len() == 57 + row * 4,
                forall|j: int| 0 <= j < lines@.len() ==> lines@[j] == table_line(j),
        {
            for col in 0..4u64
                invariant
                    row < 3,
                    lines@.len() == 57 + row * 4 + col,
                    forall|j: int| 0 <= j < lines@.len() ==> lines@[j] == table_line(j),
            {
                let k = row * 7 + col + 3;
                let ghost j0 = lines@.len() as int;
                lines.push(line_mask_exec(k, 6));
                proof {
                    assert((j0 - 57) / 4 == row && (j0 - 57) % 4 == col) by (nonlinear_arith)
                        requires
                            j0 == 57 + row * 4 + col && row < 3 && col < 4,
                    ;
                    assert(line_start(j0) == k && line_step(j0) == 6);
                }
            }
        }
        // the per-cell index of lines through each cell
        let mut cells: Vec<u128> = Vec::new();
        for k in 0..42u64
            invariant
                lines@.len() == 69,
                forall|j: int| 0 <= j < 69 ==> lines@[j] == table_line(j),
                cells@.len() == k,
                forall|kk: int, i: int|
                    0 <= kk < k && 0 <= i < 128 ==> (#[trigger] occ128(cells@[kk], i) <==> (i < 69
                        && occ64(table_line(i), kk))),
        {
            let mut m: u128 = 0;
            proof {
                assert(forall|j: u128| (0u128 >> j) & 1u128 == 0u128) by (bit_vector);
            }
            for i in 0..69usize
                invariant
                    lines@.len() == 69,
                    forall|j: int| 0 <= j < 69 ==> lines@[j] == table_line(j),
                    k < 42,
                    forall|j: int|
                        0 <= j < 128 ==> (#[trigger] occ128(m, j) <==> (j < i && occ64(
                            table_line(j),
                            k as int,
                        ))),
            {
                let line = lines[i];
                proof {
                    lemma_bit64_01(line, k);
                }
                if (line >> k) & 1u64 == 1u64 {
                    let ghost m0 = m;
                    m = m | (1u128 << (i as u128));
                    proof {
                        assert forall|j: int|
                            0 <= j < 128 implies (#[trigger] occ128(m, j) <==> (j < i + 1 && occ64(
                            table_line(j),
                            k as int,
                        ))) by {
                            lemma_set128_get(m0, i as u128, j as u128);
                            lemma_bit128_01(m0, j as u128);
                            assert(occ128(m0, j) <==> (j < i && occ64(table_line(j), k as int)));
                        }
                    }
                }
            }
            cells.push(m);
        }
        LineTable { lines, cells }
    }
}

/// Builds the mask of the four-cell line starting at bit `k` with
/// stride `s`.
fn line_mask_exec(k: u64, s: u64) -> (r: u64)
    requires
        s >= 1,
        k + 3 * s < 42,
    ensures
        r == line_mask(k as int, s as int),
{
    (1u64 << k) | (1u64 << (k + s)) | (1u64 << (k + 2 * s)) | (1u64 << (k + 3 * s))
}


/// How many of the first `n` lines of the table pass through the cell
/// with bit index `k`.
pub open spec fn lines_through_upto(k: int, n: int) -> nat
    decreases n,
{
    if n <= 0 {
        0
    } else {
        lines_through_upto(k, n - 1) + if occ64(table_line(n - 1), k) {
            1nat
        } else {
            0nat
        }
    }
}

/// How many bits of `m` below position `n` are set.
pub open spec fn ones128_upto(m: u128, n: int) -> nat
    decreases n,
{
    if n <= 0 {
        0
    } else {
        ones128_upto(m, n - 1) + if occ128(m, n - 1) {
            1nat
        } else {
            0nat
        }
    }
}

/// A range of line indices free of lines through `k` adds nothing to
/// the count.
proof fn lemma_lines_through_none(k: int, a: int, b: int)
    requires
        a <= b,
        forall|i: int| a <= i < b ==> !occ64(table_line(i), k),
    ensures
        lines_through_upto(k, b) == lines_through_upto(k, a),
    decreases b - a,
{
    if a < b {
        lemma_lines_through_none(k, a, b - 1);
    }
}

/// If every line through `k` in the index range lies among the listed
/// candidates, the range holds at most that many such lines.
proof fn lemma_lines_through_candidates(k: int, a: int, b: int, cands: Seq<int>)
    requires
        a <= b,
        forall|p: int, q: int| 0 <= p < q < cands.len() ==> cands[p] <= cands[q],
        forall|i: int| a <= i < b && occ64(table_line(i), k) ==> cands.contains(i),
    ensures
        lines_through_upto(k, b) <= lines_through_upto(k, a) + cands.len(),
    decreases cands.len(), b - a,
{
    if cands.len() == 0 {
        assert forall|i: int| a <= i < b implies !occ64(table_line(i), k) by {
            if occ64(table_line(i), k) {
                assert(cands.contains(i));
            }
        }
        lemma_lines_through_none(k, a, b);
    } else {
        let y = cands.last();
        let rest = cands.drop_last();
        assert forall|i: int| #[trigger] cands.contains(i) && i != y implies rest.contains(i) by {
            let pp = choose|pp: int| 0 <= pp < cands.len() && cands[pp] == i;
            assert(pp < cands.len() - 1);
            assert(rest[pp] == i);
        }
        assert forall|p: int, q: int| 0 <= p < q < rest.len() implies rest[p] <= rest[q] by {
            assert(rest[p] == cands[p] && rest[q] == cands[q]);
        }
        if a <= y < b {
            assert forall|i: int| a <= i < y && occ64(table_line(i), k) implies rest.contains(
                i,
            ) by {
                assert(cands.contains(i));
            }
            lemma_lines_through_candidates(k, a, y, rest);
            assert forall|i: int| y + 1 <= i < b implies !occ64(table_line(i), k) by {
                if occ64(table_line(i), k) {
                    assert(cands.contains(i));
                    let pp = choose|pp: int| 0 <= pp < cands.len() && cands[pp] == i;
                    assert(cands[pp] <= y);
                }
            }
            lemma_lines_through_none(k, y + 1, b);
            assert(lines_through_upto(k, y + 1) <= lines_through_upto(k, y) + 1);
        } else {
            assert forall|i: int| a <= i < b && occ64(table_line(i), k) implies rest.contains(
                i,
            ) by {
                assert(cands.contains(i));
            }
            lemma_lines_through_candidates(k, a, b, rest);
        }
    }
}

/// At most 13 of the 69 winning lines pass through any one cell: up to
/// four horizontal, and up to three in each remaining direction.
pub proof fn lemma_lines_through_cell(k: int)
    requires
        0 <= k < 42,
    ensures
        lines_through_upto(k, 69) <= 13,
{
    let kr = k / 7;
    let kc = k % 7;
    assert(0 <= kr <= 5 && 0 <= kc <= 6 && k == kr * 7 + kc) by (nonlinear_arith)
        requires
            0 <= k < 42 && kr == k / 7 && kc == k % 7,
    ;
    // horizontal: the start column ranges over at most four offsets
    let ch = seq![kr * 4 + kc - 3, kr * 4 + kc - 2, kr * 4 + kc - 1, kr * 4 + kc];
    assert forall|i: int| 0 <= i < 24 && occ64(table_line(i), k) implies ch.contains(i) by {
        lemma_line_four_bits(i);
        lemma_line_geometry(i);
        let st = line_start(i);
        assert(k == st || k == st + 1 || k == st + 2 || k == st + 3);
        let t: int = if k == st {
            0
        } else if k == st + 1 {
            1
        } else if k == st + 2 {
            2
        } else {
            3
        };
        assert(st == (i / 4) * 7 + (i % 4) && i % 4 <= 3);
        assert(k / 7 == i / 4 && k % 7 == i % 4 + t) by (nonlinear_arith)
            requires
                k == (i / 4) * 7 + (i % 4) + t && 0 <= i % 4 <= 3 && 0 <= t < 4 && 0 <= i < 24,
        ;
        assert(i == (i / 4) * 4 + i % 4) by (nonlinear_arith);
        assert(i == kr * 4 + kc - t);
        assert(ch[3 - t] == i);
    }
    lemma_lines_through_candidates(k, 0, 24, ch);
    // vertical: the start row is 0, 1 or 2
    let cv = seq![24 + 0 * 7 + kc, 24 + 1 * 7 + kc, 24 + 2 * 7 + kc];
    assert forall|i: int| 24 <= i < 45 && occ64(table_line(i), k) implies cv.contains(i) by {
        lemma_line_four_bits(i);
        lemma_line_geometry(i);
        let st = line_start(i);
        assert(k == st || k == st + 7 || k == st + 14 || k == st + 21);
        let t: int = if k == st {
            0
        } else if k == st + 7 {
            1
        } else if k == st + 14 {
            2
        } else {
            3
        };
        assert(st == i - 24 && st / 7 <= 2);
        assert(k / 7 == st / 7 + t && k % 7 == st % 7) by (nonlinear_arith)
            requires
                k == st + 7 * t && 0 <= st && st / 7 <= 2 && st % 7 == st - (st / 7) * 7 && 0 <= st
                    % 7 < 7 && 0 <= t < 4,
        ;
        assert(st == (st / 7) * 7 + st % 7) by (nonlinear_arith);
        assert(i == 24 + (st / 7) * 7 + kc);
        assert(cv[st / 7] == i);
    }
    lemma_lines_through_candidates(k, 24, 45, cv);
    // diagonal-up: the start row is 0, 1 or 2
    let cu = seq![45 + 5 * 0 + kc - kr, 45 + 5 * 1 + kc - kr, 45 + 5 * 2 + kc - kr];
    assert forall|i: int| 45 <= i < 57 && occ64(table_line(i), k) implies cu.contains(i) by {
        lemma_line_four_bits(i);
        lemma_line_geometry(i);
        let st = line_start(i);
        assert(k == st || k == st + 8 || k == st + 16 || k == st + 24);
        let t: int = if k == st {
            0
        } else if k == st + 8 {
            1
        } else if k == st + 16 {
            2
        } else {
            3
        };
        let r0 = (i - 45) / 4;
        let c0 = (i - 45) % 4;
        assert(st == r0 * 7 + c0 && 0 <= r0 <= 2 && 0 <= c0 <= 3);
        assert(k / 7 == r0 + t && k % 7 == c0 + t) by (nonlinear_arith)
            requires
                k == r0 * 7 + c0 + 8 * t && 0 <= r0 <= 2 && 0 <= c0 <= 3 && 0 <= t < 4 && k < 42,
        ;
        assert(i == 45 + r0 * 4 + c0) by (nonlinear_arith)
            requires
                r0 == (i - 45) / 4 && c0 == (i - 45) % 4 && 45 <= i < 57,
        ;
        assert(i == 45 + 5 * r0 + kc - kr);
        assert(cu[r0] == i);
    }
    lemma_lines_through_candidates(k, 45, 57, cu);
    // diagonal-down: the start row is 0, 1 or 2
    let cd = seq![54 + 3 * 0 + kc + kr, 54 + 3 * 1 + kc + kr, 54 + 3 * 2 + kc + kr];
    assert forall|i: int| 57 <= i < 69 && occ64(table_line(i), k) implies cd.contains(i) by {
        lemma_line_four_bits(i);
        lemma_line_geometry(i);
        let st = line_start(i);
        assert(k == st || k == st + 6 || k == st + 12 || k == st + 18);
        let t: int = if k == st {
            0
        } else if k == st + 6 {
            1
        } else if k == st + 12 {
            2
        } else {
            3
        };
        let r0 = (i - 57) / 4;
        let c0 = (i - 57) % 4;
        assert(st == r0 * 7 + c0 + 3 && 0 <= r0 <= 2 && 0 <= c0 <= 3);
        assert(k / 7 == r0 + t && k % 7 == c0 + 3 - t) by (nonlinear_arith)
            requires
                k == r0 * 7 + c0 + 3 + 6 * t && 0 <= r0 <= 2 && 0 <= c0 <= 3 && 0 <= t < 4 && k
                    < 42,
        ;
        assert(i == 57 + r0 * 4 + c0) by (nonlinear_arith)
            requires
                r0 == (i - 57) / 4 && c0 == (i - 57) % 4 && 57 <= i < 69,
        ;
        assert(i == 54 + 3 * r0 + kc + kr);
        assert(cd[r0] == i);
    }
    lemma_lines_through_candidates(k, 57, 69, cd);
}


/// The set bits of a cell's line index below `n` number exactly the
/// lines through the cell with index below `min(n, 69)`.
proof fn lemma_cell_ones_count(t: LineTable, k: int, n: int)
    requires
        t.wf(),
        0 <= k < 42,
        0 <= n <= 128,
    ensures
        ones128_upto(t.cells@[k], n) == lines_through_upto(
            k,
            if n < 69 {
                n
            } else {
                69
            },
        ),
    decreases n,
{
    if n > 0 {
        lemma_cell_ones_count(t, k, n - 1);
        assert(occ128(t.cells@[k], n - 1) <==> (n - 1 < 69 && occ64(table_line(n - 1), k)));
    }
}

/// The cardinality clause on the per-cell line index: the bits of
/// `cells[k]` number exactly the lines through the cell, never more
/// than 13.
pub proof fn lemma_cell_index_cardinality(t: LineTable, k: int)
    requires
        t.wf(),
        0 <= k < 42,
    ensures
        ones128_upto(t.cells@[k], 128) == lines_through_upto(k, 69),
        ones128_upto(t.cells@[k], 128) <= 13,
{
    lemma_cell_ones_count(t, k, 128);
    lemma_lines_through_cell(k);
}

} // verus!
