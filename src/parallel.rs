//! The fork-join strategy: the image is cut into bands, one row of blocks
//! each; every band is moved into a buffer of its own, the bands are scanned
//! in parallel, and their bytes are written back in place. A task owns its
//! band outright, so no two tasks can touch the same pixel.

use vstd::prelude::*;
use rayon::iter::{IntoParallelRefMutIterator, ParallelIterator};
use crate::buffer::PixelBuffer;
use crate::grid::extent;
use crate::scan::{band_hi, band_lo, lemma_band_scan_agrees, remove_noise_blocks, scanned};

verus! {

/// Relies on rayon's `par_iter_mut().for_each`: the closure runs exactly once
/// on each element of the vector, and every run has finished when the call
/// returns. Each run is the verified sequential scan of one band.
#[verifier::external_body]
fn scan_bands(bands: &mut Vec<PixelBuffer>, block_size: usize, fill_percent: u8)
    requires
        block_size > 0,
        forall|t: int| 0 <= t < old(bands)@.len() ==> old(bands)@[t].wf(),
    ensures
        final(bands)@.len() == old(bands)@.len(),
        forall|t: int|
            0 <= t < old(bands)@.len() ==> (#[trigger] final(bands)@[t]).width == old(bands)@[t].width
                && final(bands)@[t].height == old(bands)@[t].height && final(bands)@[t].bytes@
                == scanned(
                old(bands)@[t].bytes@,
                old(bands)@[t].width as nat,
                old(bands)@[t].height as nat,
                block_size as nat,
                fill_percent as nat,
            ),
{
    bands.par_iter_mut().for_each(|band| remove_noise_blocks(band, block_size, fill_percent));
}

/// `b` holds band `u` of the `w` by `h` image `bytes`, as it is in `bytes`.
pub open spec fn is_band(b: PixelBuffer, bytes: Seq<u8>, w: nat, h: nat, bs: nat, u: nat) -> bool {
    &&& u * bs < h
    &&& b.width == w
    &&& b.height == extent(h, bs, u)
    &&& b.bytes@ == bytes.subrange(band_lo(w, bs, u) as int, band_hi(w, h, bs, u) as int)
}

/// `b` holds band `u` of the `w` by `h` image `bytes`, scanned on its own.
pub open spec fn is_scanned_band(
    b: PixelBuffer,
    bytes: Seq<u8>,
    w: nat,
    h: nat,
    bs: nat,
    pct: nat,
    u: nat,
) -> bool {
    &&& u * bs < h
    &&& b.width == w
    &&& b.height == extent(h, bs, u)
    &&& b.bytes@ == scanned(
        bytes.subrange(band_lo(w, bs, u) as int, band_hi(w, h, bs, u) as int),
        w,
        extent(h, bs, u),
        bs,
        pct,
    )
}

/// A copy of `src[lo .. hi]`.
fn copy_range(src: &Vec<u8>, lo: usize, hi: usize) -> (r: Vec<u8>)
    requires
        lo <= hi <= src@.len(),
    ensures
        r@ == src@.subrange(lo as int, hi as int),
{
    let mut r: Vec<u8> = Vec::new();
    let mut k: usize = lo;
    while k < hi
        invariant
            lo <= k <= hi <= src@.len(),
            r@ == src@.subrange(lo as int, k as int),
        decreases hi - k,
    {
        r.push(src[k]);
        k = k + 1;
    }
    r
}

/// Same result as `remove_noise_blocks`, computed with the bands of blocks
/// scanned in parallel.
pub fn remove_noise_blocks_parallel(buffer: &mut PixelBuffer, block_size: usize, fill_percent: u8)
    requires
        old(buffer).wf(),
        block_size > 0,
    ensures
        final(buffer).width == old(buffer).width,
        final(buffer).height == old(buffer).height,
        final(buffer).bytes@ == scanned(
            old(buffer).bytes@,
            old(buffer).width as nat,
            old(buffer).height as nat,
            block_size as nat,
            fill_percent as nat,
        ),
{
    let ghost orig = buffer.bytes@;
    let ghost w = buffer.width as nat;
    let ghost h = buffer.height as nat;
    let ghost bs = block_size as nat;
    let ghost pct = fill_percent as nat;
    let ghost target = scanned(orig, w, h, bs, pct);
    let n = buffer.bytes.len();
    if n == 0 {
        assert(buffer.bytes@ =~= target);
        return;
    }
    let width = buffer.width;
    let height = buffer.height;
    proof {
        assert(width >= 1 && height >= 1) by (nonlinear_arith)
            requires width * height * 4 == n, n > 0;
        assert(width * 4 <= width * height * 4) by (nonlinear_arith)
            requires height >= 1;
    }
    let row_bytes = width * 4;
    // Cut the image into bands.
    let mut bands: Vec<PixelBuffer> = Vec::new();
    let mut y0: usize = 0;
    let ghost mut j: nat = 0;
    while y0 < height
        invariant
            buffer.bytes@ == orig,
            buffer.width == width,
            buffer.height == height,
            w == width,
            h == height,
            bs == block_size,
            block_size > 0,
            n == orig.len(),
            n == w * h * 4,
            row_bytes == w * 4,
            y0 <= h,
            y0 < h ==> y0 == j * bs,
            y0 == h ==> j * bs >= h,
            bands@.len() == j,
            forall|t: int| 0 <= t < j ==> is_band(#[trigger] bands@[t], orig, w, h, bs, t as nat),
            forall|t: int| 0 <= t < j ==> (#[trigger] bands@[t]).wf(),
        decreases height - y0,
    {
        let rows = if height - y0 < block_size { height - y0 } else { block_size };
        proof {
            assert((y0 + rows) * (w * 4) <= h * (w * 4)) by (nonlinear_arith)
                requires y0 + rows <= h;
            assert(h * (w * 4) == n) by (nonlinear_arith)
                requires n == w * h * 4;
            assert(y0 * (w * 4) <= (y0 + rows) * (w * 4)) by (nonlinear_arith);
            assert(y0 * (w * 4) == band_lo(w, bs, j)) by (nonlinear_arith)
                requires y0 == j * bs;
            assert((y0 + rows) * (w * 4) == band_hi(w, h, bs, j)) by (nonlinear_arith)
                requires y0 == j * bs, rows == extent(h, bs, j);
            assert((y0 + rows) * (w * 4) - y0 * (w * 4) == w * rows * 4) by (nonlinear_arith);
            assert(rows == extent(h, bs, j));
        }
        let lo = y0 * row_bytes;
        let hi = (y0 + rows) * row_bytes;
        let part = copy_range(&buffer.bytes, lo, hi);
        let ghost prev = bands@;
        bands.push(PixelBuffer { width, height: rows, bytes: part });
        proof {
            assert(bands@[j as int].wf());
            assert(is_band(bands@[j as int], orig, w, h, bs, j));
            assert forall|t: int| 0 <= t < j + 1 implies is_band(#[trigger] bands@[t], orig, w, h, bs, t as nat)
                && bands@[t].wf() by {
                if t < j {
                    assert(bands@[t] == prev[t]);
                }
            }
            if y0 + rows < h {
                assert(rows == block_size);
                assert((j + 1) * bs == j * bs + bs) by (nonlinear_arith);
            } else {
                assert((j + 1) * bs == j * bs + bs) by (nonlinear_arith);
            }
            j = j + 1;
        }
        y0 = y0 + rows;
    }
    let ghost nb = j;
    let ghost before = bands@;
    scan_bands(&mut bands, block_size, fill_percent);
    proof {
        assert forall|u: int| 0 <= u < nb implies is_scanned_band(
            #[trigger] bands@[u],
            orig,
            w,
            h,
            bs,
            pct,
            u as nat,
        ) by {
            assert(is_band(before[u], orig, w, h, bs, u as nat));
        }
    }
    // Write the scanned bands back in place.
    let mut t: usize = 0;
    let mut y0: usize = 0;
    while t < bands.len()
        invariant
            buffer.wf(),
            buffer.width == width,
            buffer.height == height,
            w == width,
            h == height,
            bs == block_size,
            pct == fill_percent,
            block_size > 0,
            n == orig.len(),
            buffer.bytes@.len() == n,
            n == w * h * 4,
            row_bytes == w * 4,
            target == scanned(orig, w, h, bs, pct),
            bands@.len() == nb,
            nb * bs >= h,
            t <= nb,
            y0 <= h,
            t < nb ==> y0 == t * bs,
            t == nb ==> y0 == h,
            forall|u: int|
                0 <= u < nb ==> is_scanned_band(#[trigger] bands@[u], orig, w, h, bs, pct, u as nat),
            forall|k: int|
                0 <= k < n ==> buffer.bytes@[k] == if k < y0 * (w * 4) {
                    target[k]
                } else {
                    orig[k]
                },
        decreases nb - t,
    {
        let band = &bands[t];
        let rows = band.height;
        proof {
            assert(is_scanned_band(bands@[t as int], orig, w, h, bs, pct, t as nat));
            lemma_band_scan_agrees(orig, w, h, bs, pct, t as nat);
            assert(y0 * (w * 4) == band_lo(w, bs, t as nat)) by (nonlinear_arith)
                requires y0 == t * bs;
            assert((y0 + rows) * (w * 4) == band_hi(w, h, bs, t as nat)) by (nonlinear_arith)
                requires y0 == t * bs, rows == extent(h, bs, t as nat);
            assert((y0 + rows) * (w * 4) <= h * (w * 4)) by (nonlinear_arith)
                requires y0 + rows <= h;
            assert(h * (w * 4) == n) by (nonlinear_arith)
                requires n == w * h * 4;
            assert((y0 + rows) * (w * 4) == y0 * (w * 4) + rows * (w * 4)) by (nonlinear_arith);
            assert(rows * (w * 4) == w * rows * 4) by (nonlinear_arith);
        }
        let lo = y0 * row_bytes;
        let len = band.bytes.len();
        let mut s: usize = 0;
        while s < len
            invariant
                buffer.bytes@.len() == n,
                buffer.width == width,
                buffer.height == height,
                len == band.bytes@.len(),
                lo + len <= n,
                s <= len,
                forall|q: int| 0 <= q < len ==> band.bytes@[q] == target[lo + q],
                forall|k: int|
                    0 <= k < n ==> buffer.bytes@[k] == if k < lo + s {
                        target[k]
                    } else {
                        orig[k]
                    },
            decreases len - s,
        {
            buffer.bytes.set(lo + s, band.bytes[s]);
            s = s + 1;
        }
        proof {
            assert((y0 + rows) * (w * 4) == lo + len);
            assert(rows == extent(h, bs, t as nat));
            assert((t + 1) * bs == t * bs + bs) by (nonlinear_arith);
            if t + 1 < nb {
                assert(is_scanned_band(bands@[t + 1], orig, w, h, bs, pct, (t + 1) as nat));
                assert((t + 1) * bs < h);
                assert(rows == block_size);
            } else {
                assert(y0 + rows == h);
            }
        }
        y0 = y0 + rows;
        t = t + 1;
    }
    proof {
        assert(h * (w * 4) == n) by (nonlinear_arith)
            requires n == w * h * 4;
    }
    assert(buffer.bytes@ =~= target);
}

} // verus!
