use vstd::arithmetic::div_mod::{lemma_fundamental_div_mod, lemma_mod_pos_bound};
use vstd::prelude::*;

use crate::GRID_WIDTH;

verus! {

/// The source cell that cell `j` of a grid scaled up by `scale` comes from: the scaled
/// grid is `GRID_WIDTH * scale` cells wide, and each source cell becomes a
/// `scale x scale` block.
pub open spec fn source_index(j: int, scale: int) -> int {
    let row = j / (GRID_WIDTH as int * scale);
    let col = j % (GRID_WIDTH as int * scale);
    (row / scale) * GRID_WIDTH as int + col / scale
}

/// The display level of a count: its share of the largest count, on a scale of 0 to 255.
pub open spec fn height_level(p: u32, max: u32) -> u8 {
    let m: int = if max == 0 { 1 } else { max as int };
    let level: int = p as int * 255 / m;
    if level > 255 { 255u8 } else { level as u8 }
}

/// The largest entry of a non-empty sequence.
pub open spec fn is_max(v: Seq<u32>, m: u32) -> bool {
    &&& forall|i: int| 0 <= i < v.len() ==> v[i] <= m
    &&& exists|i: int| 0 <= i < v.len() && v[i] == m
}

/// The source cell of every scaled cell lies in a grid of `rows` full rows.
proof fn lemma_source_in_range(j: int, scale: int, rows: int)
    requires
        scale > 0,
        rows >= 0,
        0 <= j < rows * GRID_WIDTH as int * scale * scale,
    ensures
        0 <= source_index(j, scale) < rows * GRID_WIDTH as int,
{
    let w = GRID_WIDTH as int * scale;
    lemma_fundamental_div_mod(j, w);
    lemma_mod_pos_bound(j, w);
    let q = j / w;
    let c = j % w;
    assert(0 <= q < rows * scale) by (nonlinear_arith)
        requires
            j == w * q + c,
            0 <= c < w,
            0 <= j < rows * 128 * scale * scale,
            w == 128 * scale,
            scale > 0,
    ;
    lemma_fundamental_div_mod(q, scale);
    lemma_mod_pos_bound(q, scale);
    let qr = q / scale;
    assert(0 <= qr < rows) by (nonlinear_arith)
        requires
            q == scale * qr + q % scale,
            0 <= q % scale < scale,
            0 <= q < rows * scale,
            scale > 0,
    ;
    lemma_fundamental_div_mod(c, scale);
    lemma_mod_pos_bound(c, scale);
    let cc = c / scale;
    assert(0 <= cc < 128) by (nonlinear_arith)
        requires
            c == scale * cc + c % scale,
            0 <= c % scale < scale,
            0 <= c < 128 * scale,
            scale > 0,
    ;
}

/// Scales a grid of `GRID_WIDTH`-cell rows up by `scale`: every cell becomes a
/// `scale x scale` block of the same value. Beside the scaled grid comes, for every
/// scaled cell, the index of the source cell it came from.
pub fn visual_rescale_vec_by<T: Copy>(fp_vec: &[T], scale: u32) -> (r: (Vec<T>, Vec<usize>))
    requires
        fp_vec@.len() as int % GRID_WIDTH as int == 0 || scale <= 1,
        fp_vec@.len() * scale * scale <= usize::MAX,
    ensures
        r.0@.len() == fp_vec@.len() * scale * scale,
        r.1@.len() == fp_vec@.len() * scale * scale,
        forall|j: int|
            0 <= j < r.0@.len() ==> 0 <= source_index(j, scale as int) < fp_vec@.len() && r.1@[j]
                as int == source_index(j, scale as int) && r.0@[j] == fp_vec@[source_index(
                j,
                scale as int,
            )],
{
    let ghost rows: int = fp_vec@.len() as int / GRID_WIDTH as int;
    let s = scale as usize;
    assert(fp_vec@.len() * s <= fp_vec@.len() * s * s) by (nonlinear_arith)
        requires
            s >= 0,
    ;
    let total = fp_vec.len() * s * s;
    let mut new_vec: Vec<T> = Vec::new();
    let mut ref_vec: Vec<usize> = Vec::new();
    let mut j: usize = 0;
    while j < total
        invariant
            total == fp_vec@.len() * scale * scale,
            s == scale,
            fp_vec@.len() as int % GRID_WIDTH as int == 0 || scale <= 1,
            rows == fp_vec@.len() as int / GRID_WIDTH as int,
            j <= total,
            new_vec@.len() == j,
            ref_vec@.len() == j,
            forall|i: int|
                0 <= i < j ==> 0 <= source_index(i, scale as int) < fp_vec@.len() && ref_vec@[i]
                    as int == source_index(i, scale as int) && new_vec@[i] == fp_vec@[source_index(
                    i,
                    scale as int,
                )],
        decreases total - j,
    {
        assert(s > 0 && fp_vec@.len() <= total) by (nonlinear_arith)
            requires
                j < total,
                total == fp_vec@.len() * s * s,
        ;
        proof {
            if s == 1 {
                lemma_fundamental_div_mod(j as int, GRID_WIDTH as int);
                assert(source_index(j as int, 1) == j as int);
            } else {
                assert(fp_vec@.len() == rows * 128);
                lemma_source_in_range(j as int, s as int, rows);
                assert(GRID_WIDTH * s <= total) by (nonlinear_arith)
                    requires
                        fp_vec@.len() >= 128,
                        s >= 1,
                        total == fp_vec@.len() * s * s,
                ;
            }
        }
        let width = GRID_WIDTH * s;
        assert(j as int / width as int / s as int * 128 + (j as int % width as int) / s as int
            == source_index(j as int, s as int));
        assert(0 <= (j as int % width as int) / s as int) by {
            lemma_mod_pos_bound(j as int, width as int);
        }
        let row = j / width / s;
        let col = (j % width) / s;
        assert(row * 128 + col == source_index(j as int, s as int));
        assert(row * 128 + col < fp_vec@.len());
        let src = row * GRID_WIDTH + col;
        new_vec.push(fp_vec[src]);
        ref_vec.push(src);
        j = j + 1;
    }
    (new_vec, ref_vec)
}

/// The display level of every count relative to the largest one; `None` for an empty
/// grid, which has no largest count.
pub fn height_levels(fp_vec: &[u32]) -> (r: Option<Vec<u8>>)
    ensures
        fp_vec@.len() == 0 <==> r is None,
        r matches Some(levels) ==> levels@.len() == fp_vec@.len() && exists|m: u32|
            is_max(fp_vec@, m) && forall|i: int|
                0 <= i < fp_vec@.len() ==> levels@[i] == height_level(fp_vec@[i], m),
{
    let n = fp_vec.len();
    if n == 0 {
        return None;
    }
    let mut max: u32 = fp_vec[0];
    let mut i: usize = 1;
    assert(fp_vec@.take(1)[0] == max);
    while i < n
        invariant
            n == fp_vec@.len(),
            1 <= i <= n,
            is_max(fp_vec@.take(i as int), max),
        decreases n - i,
    {
        if fp_vec[i] > max {
            max = fp_vec[i];
        }
        proof {
            let prev = fp_vec@.take(i as int);
            let next = fp_vec@.take(i as int + 1);
            assert forall|w: int| 0 <= w < prev.len() implies next[w] == prev[w] by {}
            assert(next[i as int] == fp_vec@[i as int]);
        }
        i = i + 1;
    }
    assert(fp_vec@.take(n as int) =~= fp_vec@);
    let divisor: u64 = if max == 0 { 1 } else { max as u64 };
    let mut levels: Vec<u8> = Vec::new();
    let mut k: usize = 0;
    while k < n
        invariant
            n == fp_vec@.len(),
            k <= n,
            is_max(fp_vec@, max),
            divisor == if max == 0 { 1 } else { max as u64 },
            levels@.len() == k,
            forall|w: int| 0 <= w < k ==> levels@[w] == height_level(fp_vec@[w], max),
        decreases n - k,
    {
        let scaled: u64 = fp_vec[k] as u64 * 255 / divisor;
        let level: u8 = if scaled > 255 { 255 } else { scaled as u8 };
        levels.push(level);
        k = k + 1;
    }
    Some(levels)
}

/// The color of a cell of a binary grid: white for an empty cell, black for an active one.
pub fn monochrome_pixel(p: u8) -> (r: [u8; 3])
    ensures
        p == 0 ==> r@ == seq![255u8, 255u8, 255u8],
        p != 0 ==> r@ == seq![0u8, 0u8, 0u8],
{
    let r = if p == 0 { [255u8, 255u8, 255u8] } else { [0u8, 0u8, 0u8] };
    assert(r@ =~= if p == 0 { seq![255u8, 255u8, 255u8] } else { seq![0u8, 0u8, 0u8] });
    r
}

} // verus!
