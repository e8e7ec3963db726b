//! The block scanner: tiles the image and blanks every block that is noise,
//! either block by block or with bands of blocks handled in parallel.

use vstd::prelude::*;
use crate::block::{erase_block, erased, is_dark, is_noise, lemma_dark_count_frame, should_discard};
use crate::buffer::{
    byte_in_region, col_of, lemma_coords_of_offset, lemma_offset_coords, row_of, byte_offset,
    PixelBuffer, Region, BLANK,
};
use crate::grid::{block_of, extent, grid_block, lemma_axis_block, lemma_start_within, starts};

verus! {

/// The bytes after the scan: each byte becomes blank when the block holding its
/// pixel is noise in the input, and keeps its value otherwise.
pub open spec fn scanned(bytes: Seq<u8>, w: nat, h: nat, bs: nat, percent: nat) -> Seq<u8> {
    Seq::new(
        bytes.len(),
        |k: int|
            if is_noise(bytes, w, block_of(w, h, bs, col_of(w, k as nat), row_of(w, k as nat)), percent) {
                BLANK
            } else {
                bytes[k]
            },
    )
}

/// Tiles the buffer into blocks of `block_size` (the last row and column
/// clipped) and blanks every block whose share of dark pixels is strictly
/// above `fill_percent` / 100; the other blocks are left as they are.
pub fn remove_noise_blocks(buffer: &mut PixelBuffer, block_size: usize, fill_percent: u8)
    requires
        old(buffer).wf(),
        block_size > 0,
    ensures
        final(buffer).width == old(buffer).width,
        final(buffer).height == old(buffer).height,
        final(buffer).bytes@ == scanned(
            old(buffer).bytes@,
            old(buffer).width as nat,
            old(buffer).height as nat,
            block_size as nat,
            fill_percent as nat,
        ),
{
    let ghost orig = buffer.bytes@;
    let ghost w = buffer.width as nat;
    let ghost h = buffer.height as nat;
    let ghost bs = block_size as nat;
    let ghost pct = fill_percent as nat;
    let ghost target = scanned(orig, w, h, bs, pct);
    let n = buffer.bytes.len();
    if n == 0 {
        assert(buffer.bytes@ =~= target);
        return;
    }
    let width = buffer.width;
    let height = buffer.height;
    proof {
        assert(width >= 1 && height >= 1) by (nonlinear_arith)
            requires width * height * 4 == n, n > 0;
        assert(width <= width * height && height <= width * height) by (nonlinear_arith)
            requires width >= 1, height >= 1;
    }
    let nx = width / block_size + 1;
    let ny = height / block_size + 1;
    let mut j: usize = 0;
    while j < ny
        invariant
            buffer.wf(),
            buffer.width == width,
            buffer.height == height,
            w == width,
            h == height,
            bs == block_size,
            pct == fill_percent,
            block_size > 0,
            n == orig.len(),
            buffer.bytes@.len() == n,
            nx == starts(w, bs),
            ny == starts(h, bs),
            target == scanned(orig, w, h, bs, pct),
            j <= ny,
            forall|k: int|
                0 <= k < n ==> buffer.bytes@[k] == if row_of(w, k as nat) / bs < j {
                    target[k]
                } else {
                    orig[k]
                },
        decreases ny - j,
    {
        let mut i: usize = 0;
        while i < nx
            invariant
                buffer.wf(),
                buffer.width == width,
                buffer.height == height,
                w == width,
                h == height,
                bs == block_size,
                pct == fill_percent,
                block_size > 0,
                n == orig.len(),
                buffer.bytes@.len() == n,
                nx == starts(w, bs),
                ny == starts(h, bs),
                target == scanned(orig, w, h, bs, pct),
                j < ny,
                i <= nx,
                forall|k: int|
                    0 <= k < n ==> buffer.bytes@[k] == if row_of(w, k as nat) / bs < j || (row_of(
                        w,
                        k as nat,
                    ) / bs == j && col_of(w, k as nat) / bs < i) {
                        target[k]
                    } else {
                        orig[k]
                    },
            decreases nx - i,
        {
            let region = grid_block(width, height, block_size, i, j);
            let ghost cur = buffer.bytes@;
            proof {
                // The block's own pixels are still as in the input.
                assert forall|x: nat, y: nat| region.contains(x, y) implies is_dark(cur, w, x, y)
                    == is_dark(orig, w, x, y) by {
                    lemma_offset_coords(w, h, x, y, 3);
                    lemma_axis_block(w, bs, i as nat, x);
                    lemma_axis_block(h, bs, j as nat, y);
                }
                lemma_dark_count_frame(cur, orig, w, region);
            }
            // Empty blocks at the far edges are skipped.
            let discard = region.width > 0 && region.height > 0 && should_discard(
                buffer,
                &region,
                fill_percent,
            );
            if discard {
                erase_block(buffer, &region);
            }
            proof {
                assert(discard == is_noise(orig, w, region, pct));
                assert(!discard ==> buffer.bytes@ == cur);
                assert(discard ==> buffer.bytes@ == erased(cur, w, region));
                assert forall|k: int| 0 <= k < n implies buffer.bytes@[k] == if row_of(w, k as nat)
                    / bs < j || (row_of(w, k as nat) / bs == j && col_of(w, k as nat) / bs < i
                    + 1) {
                    target[k]
                } else {
                    orig[k]
                } by {
                    lemma_coords_of_offset(w, h, k as nat);
                    let x = col_of(w, k as nat);
                    let y = row_of(w, k as nat);
                    lemma_axis_block(w, bs, i as nat, x);
                    lemma_axis_block(h, bs, j as nat, y);
                    if y / bs == j && x / bs == i {
                        assert(byte_in_region(w, region, k as nat));
                        assert(block_of(w, h, bs, x, y) == region);
                        assert(cur[k] == orig[k]);
                        if discard {
                            assert(buffer.bytes@[k] == erased(cur, w, region)[k]);
                        }
                    } else {
                        assert(!byte_in_region(w, region, k as nat));
                    }
                }
            }
            i = i + 1;
        }
        proof {
            assert forall|k: int| 0 <= k < n implies buffer.bytes@[k] == if row_of(w, k as nat) / bs
                < j + 1 {
                target[k]
            } else {
                orig[k]
            } by {
                lemma_coords_of_offset(w, h, k as nat);
                let x = col_of(w, k as nat);
                vstd::arithmetic::div_mod::lemma_div_is_ordered(x as int, w as int, bs as int);
            }
        }
        j = j + 1;
    }
    proof {
        assert forall|k: int| 0 <= k < n implies buffer.bytes@[k] == target[k] by {
            lemma_coords_of_offset(w, h, k as nat);
            let y = row_of(w, k as nat);
            vstd::arithmetic::div_mod::lemma_div_is_ordered(y as int, h as int, bs as int);
        }
    }
    assert(buffer.bytes@ =~= target);
}

} // verus!

verus! {

/// First byte of band `j`: the band is the `j`-th row of blocks.
pub open spec fn band_lo(w: nat, bs: nat, j: nat) -> nat {
    j * bs * w * 4
}

/// One past the last byte of band `j`.
pub open spec fn band_hi(w: nat, h: nat, bs: nat, j: nat) -> nat {
    (j * bs + extent(h, bs, j)) * w * 4
}

proof fn lemma_band_dark_rows(
    bytes: Seq<u8>,
    w: nat,
    h: nat,
    bs: nat,
    j: nat,
    lr: Region,
    gr: Region,
    m: nat,
)
    requires
        bs > 0,
        bytes.len() == w * h * 4,
        j * bs < h,
        lr.x == gr.x,
        lr.width == gr.width,
        lr.x + lr.width <= w,
        lr.y == 0,
        gr.y == j * bs,
        m <= extent(h, bs, j),
    ensures
        crate::block::rows_dark(bytes.subrange(band_lo(w, bs, j) as int, band_hi(w, h, bs, j) as int), w, lr, m)
            == crate::block::rows_dark(bytes, w, gr, m),
    decreases m,
{
    if m > 0 {
        lemma_band_dark_rows(bytes, w, h, bs, j, lr, gr, (m - 1) as nat);
        let y = (m - 1) as nat;
        lemma_band_dark_row(bytes, w, h, bs, j, lr.x as nat, y, lr.width as nat);
    }
}

proof fn lemma_band_dark_row(bytes: Seq<u8>, w: nat, h: nat, bs: nat, j: nat, x0: nat, y: nat, n: nat)
    requires
        bs > 0,
        bytes.len() == w * h * 4,
        j * bs < h,
        x0 + n <= w,
        y < extent(h, bs, j),
    ensures
        crate::block::row_dark(bytes.subrange(band_lo(w, bs, j) as int, band_hi(w, h, bs, j) as int), w, x0, y, n)
            == crate::block::row_dark(bytes, w, x0, y + j * bs, n),
    decreases n,
{
    if n > 0 {
        lemma_band_dark_row(bytes, w, h, bs, j, x0, y, (n - 1) as nat);
        let x = (x0 + n - 1) as nat;
        let lo = band_lo(w, bs, j);
        let hi = band_hi(w, h, bs, j);
        let rows = extent(h, bs, j);
        assert(lo + byte_offset(w, x, y, 3) == byte_offset(w, x, y + j * bs, 3)) by (nonlinear_arith)
            requires lo == j * bs * w * 4;
        lemma_offset_coords(w, rows, x, y, 3);
        assert(lo + rows * w * 4 == hi) by (nonlinear_arith)
            requires lo == j * bs * w * 4, hi == (j * bs + rows) * w * 4;
        assert(hi <= w * h * 4) by (nonlinear_arith)
            requires hi == (j * bs + rows) * w * 4, j * bs + rows <= h;
        assert(rows * w * 4 == w * rows * 4) by (nonlinear_arith);
    }
}

/// Scanning one band of the image (a row of blocks) on its own yields exactly
/// the bytes that scanning the whole image yields there. Bands are disjoint
/// and cover the image, so handling them separately, in any order or at
/// once, gives the same output as the sequential scan.
pub proof fn lemma_band_scan_agrees(bytes: Seq<u8>, w: nat, h: nat, bs: nat, percent: nat, j: nat)
    requires
        bs > 0,
        w <= usize::MAX,
        h <= usize::MAX,
        bytes.len() == w * h * 4,
        j * bs < h,
    ensures
        scanned(
            bytes.subrange(band_lo(w, bs, j) as int, band_hi(w, h, bs, j) as int),
            w,
            extent(h, bs, j),
            bs,
            percent,
        ) == scanned(bytes, w, h, bs, percent).subrange(
            band_lo(w, bs, j) as int,
            band_hi(w, h, bs, j) as int,
        ),
{
    let lo = band_lo(w, bs, j);
    let hi = band_hi(w, h, bs, j);
    let rows = extent(h, bs, j);
    let band = bytes.subrange(lo as int, hi as int);
    assert(lo + rows * w * 4 == hi) by (nonlinear_arith)
        requires lo == j * bs * w * 4, hi == (j * bs + rows) * w * 4;
    assert(hi <= w * h * 4) by (nonlinear_arith)
        requires hi == (j * bs + rows) * w * 4, j * bs + rows <= h;
    assert(rows * w * 4 == w * rows * 4) by (nonlinear_arith);
    let whole = scanned(bytes, w, h, bs, percent);
    let part = scanned(band, w, rows, bs, percent);
    assert forall|t: int| 0 <= t < part.len() implies part[t] == whole[lo + t] by {
        lemma_coords_of_offset(w, rows, t as nat);
        let x = col_of(w, t as nat);
        let y = row_of(w, t as nat);
        let c = (t % 4) as nat;
        let gy = y + j * bs;
        assert(lo + t == (gy * w + x) * 4 + c) by (nonlinear_arith)
            requires lo == j * bs * w * 4, t == (y * w + x) * 4 + c, gy == y + j * bs;
        assert(gy < h);
        lemma_offset_coords(w, h, x, gy, c);
        // Both scans put the pixel in the same block.
        lemma_axis_block(rows, bs, 0, y);
        lemma_axis_block(h, bs, j, gy);
        assert(extent(rows, bs, 0) == rows);
        let lr = block_of(w, rows, bs, x, y);
        let gr = block_of(w, h, bs, x, gy);
        assert(y / bs == 0);
        assert(gy / bs == j);
        assert(lr.y == 0);
        assert(gr.y == j * bs);
        vstd::arithmetic::div_mod::lemma_div_is_ordered(x as int, w as int, bs as int);
        lemma_start_within(w, bs, x / bs);
        lemma_band_dark_rows(bytes, w, h, bs, j, lr, gr, rows);
    }
    assert(part =~= whole.subrange(lo as int, hi as int));
}

} // verus!
