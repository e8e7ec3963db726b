//! Decisions and edits on one block: counting its dark pixels, deciding
//! whether it is noise, and blanking it.

use vstd::prelude::*;
use crate::buffer::{
    byte_in_region, byte_offset, col_of, lemma_coords_of_offset, lemma_offset_coords, row_of,
    PixelBuffer, Region, BLANK,
};

verus! {

/// Pixel `(x, y)` carries the dark marker: its alpha byte is 0. Binarization
/// forces the alpha byte like every other byte, so after it the alpha byte
/// alone tells dark from light; an explicit per-pixel flag would be cleaner.
pub open spec fn is_dark(bytes: Seq<u8>, w: nat, x: nat, y: nat) -> bool {
    bytes[byte_offset(w, x, y, 3) as int] == 0
}

/// Dark pixels among columns `x0 .. x0 + n` of row `y`.
pub open spec fn row_dark(bytes: Seq<u8>, w: nat, x0: nat, y: nat, n: nat) -> nat
    decreases n,
{
    if n == 0 {
        0
    } else {
        row_dark(bytes, w, x0, y, (n - 1) as nat) + if is_dark(bytes, w, (x0 + n - 1) as nat, y) {
            1nat
        } else {
            0nat
        }
    }
}

/// Dark pixels in the first `m` rows of region `r`.
pub open spec fn rows_dark(bytes: Seq<u8>, w: nat, r: Region, m: nat) -> nat
    decreases m,
{
    if m == 0 {
        0
    } else {
        rows_dark(bytes, w, r, (m - 1) as nat) + row_dark(
            bytes,
            w,
            r.x as nat,
            (r.y + m - 1) as nat,
            r.width as nat,
        )
    }
}

/// Dark pixels in region `r` of a buffer `w` pixels wide.
pub open spec fn dark_count(bytes: Seq<u8>, w: nat, r: Region) -> nat {
    rows_dark(bytes, w, r, r.height as nat)
}

/// The region is noise: it has pixels, and the share of dark ones is strictly
/// above `percent` / 100.
pub open spec fn is_noise(bytes: Seq<u8>, w: nat, r: Region, percent: nat) -> bool {
    !r.is_empty() && dark_count(bytes, w, r) * 100 > percent * r.area()
}

/// The bytes after every pixel of `r` is set to blank.
pub open spec fn erased(bytes: Seq<u8>, w: nat, r: Region) -> Seq<u8> {
    Seq::new(bytes.len(), |k: int| if byte_in_region(w, r, k as nat) { BLANK } else { bytes[k] })
}

proof fn lemma_row_dark_bound(bytes: Seq<u8>, w: nat, x0: nat, y: nat, n: nat)
    ensures
        row_dark(bytes, w, x0, y, n) <= n,
    decreases n,
{
    if n > 0 {
        lemma_row_dark_bound(bytes, w, x0, y, (n - 1) as nat);
    }
}

proof fn lemma_rows_dark_bound(bytes: Seq<u8>, w: nat, r: Region, m: nat)
    ensures
        rows_dark(bytes, w, r, m) <= m * r.width,
    decreases m,
{
    if m > 0 {
        lemma_rows_dark_bound(bytes, w, r, (m - 1) as nat);
        lemma_row_dark_bound(bytes, w, r.x as nat, (r.y + m - 1) as nat, r.width as nat);
        assert(m * r.width == (m - 1) * r.width + r.width) by (nonlinear_arith);
    }
}

proof fn lemma_row_dark_frame(b1: Seq<u8>, b2: Seq<u8>, w: nat, x0: nat, y: nat, n: nat)
    requires
        forall|x: nat| x0 <= x < x0 + n ==> is_dark(b1, w, x, y) == is_dark(b2, w, x, y),
    ensures
        row_dark(b1, w, x0, y, n) == row_dark(b2, w, x0, y, n),
    decreases n,
{
    if n > 0 {
        lemma_row_dark_frame(b1, b2, w, x0, y, (n - 1) as nat);
        assert(is_dark(b1, w, (x0 + n - 1) as nat, y) == is_dark(b2, w, (x0 + n - 1) as nat, y));
    }
}

proof fn lemma_rows_dark_frame(b1: Seq<u8>, b2: Seq<u8>, w: nat, r: Region, m: nat)
    requires
        m <= r.height,
        forall|x: nat, y: nat| r.contains(x, y) ==> is_dark(b1, w, x, y) == is_dark(b2, w, x, y),
    ensures
        rows_dark(b1, w, r, m) == rows_dark(b2, w, r, m),
    decreases m,
{
    if m > 0 {
        lemma_rows_dark_frame(b1, b2, w, r, (m - 1) as nat);
        let y = (r.y + m - 1) as nat;
        assert forall|x: nat| r.x <= x < r.x + r.width implies is_dark(b1, w, x, y) == is_dark(
            b2,
            w,
            x,
            y,
        ) by {
            assert(r.contains(x, y));
        }
        lemma_row_dark_frame(b1, b2, w, r.x as nat, y, r.width as nat);
    }
}

/// The dark count of a region reads only the region's own pixels.
pub proof fn lemma_dark_count_frame(b1: Seq<u8>, b2: Seq<u8>, w: nat, r: Region)
    requires
        forall|x: nat, y: nat| r.contains(x, y) ==> is_dark(b1, w, x, y) == is_dark(b2, w, x, y),
    ensures
        dark_count(b1, w, r) == dark_count(b2, w, r),
{
    lemma_rows_dark_frame(b1, b2, w, r, r.height as nat);
}

/// Byte `k` lies in the run of bytes of columns `x0 .. x0 + n` of row `y`
/// exactly when its pixel is one of those.
pub proof fn lemma_row_run(w: nat, h: nat, x0: nat, y: nat, n: nat, k: nat)
    requires
        y < h,
        x0 + n <= w,
        k < w * h * 4,
    ensures
        (row_of(w, k) == y && x0 <= col_of(w, k) < x0 + n) <==> (byte_offset(w, x0, y, 0) <= k
            < byte_offset(w, x0, y, 0) + 4 * n),
{
    let start = byte_offset(w, x0, y, 0);
    lemma_coords_of_offset(w, h, k);
    let x = col_of(w, k);
    let yy = row_of(w, k);
    let c = k % 4;
    if yy == y && x0 <= x < x0 + n {
        assert(k == (y * w + x) * 4 + c);
        assert(start == (y * w + x0) * 4);
        assert((y * w + x) * 4 + c - (y * w + x0) * 4 == (x - x0) * 4 + c) by (nonlinear_arith);
    }
    if start <= k < start + 4 * n {
        let d = ((k - start) / 4) as nat;
        let c2 = ((k - start) % 4) as nat;
        vstd::arithmetic::div_mod::lemma_fundamental_div_mod((k - start) as int, 4);
        assert(d < n);
        assert(k == byte_offset(w, x0 + d, y, c2)) by (nonlinear_arith)
            requires
                k - start == d * 4 + c2,
                start == (y * w + x0) * 4,
        ;
        lemma_offset_coords(w, h, x0 + d, y, c2);
    }
}

/// A block is noise when the share of its pixels whose alpha byte is 0 is
/// strictly above `fill_percent` / 100. An empty region never is.
pub fn should_discard(buffer: &PixelBuffer, region: &Region, fill_percent: u8) -> (r: bool)
    requires
        buffer.wf(),
        region.fits(buffer.width as nat, buffer.height as nat),
    ensures
        r == is_noise(buffer.bytes@, buffer.width as nat, *region, fill_percent as nat),
{
    let ghost bytes = buffer.bytes@;
    let ghost bw = buffer.width as nat;
    let ghost bh = buffer.height as nat;
    let blen = buffer.bytes.len();
    if region.width == 0 || region.height == 0 {
        return false;
    }
    let w = region.width;
    let h = region.height;
    proof {
        assert(w * h <= bw * bh) by (nonlinear_arith)
            requires w <= bw, h <= bh;
        assert(bw * bh <= bw * bh * 4) by (nonlinear_arith);
    }
    let mut count: usize = 0;
    let mut yy: usize = 0;
    while yy < h
        invariant
            buffer.wf(),
            bytes == buffer.bytes@,
            bw == buffer.width,
            bh == buffer.height,
            w == region.width,
            h == region.height,
            region.fits(bw, bh),
            yy <= h,
            count == rows_dark(bytes, bw, *region, yy as nat),
            count <= yy * w,
            w * h <= bw * bh,
            blen == bytes.len(),
        decreases h - yy,
    {
        let y = region.y + yy;
        let mut xx: usize = 0;
        let ghost before = count;
        while xx < w
            invariant
                buffer.wf(),
                bytes == buffer.bytes@,
                bw == buffer.width,
                bh == buffer.height,
                w == region.width,
                h == region.height,
                region.fits(bw, bh),
                yy < h,
                y == region.y + yy,
                xx <= w,
                before == rows_dark(bytes, bw, *region, yy as nat),
                count == before + row_dark(bytes, bw, region.x as nat, y as nat, xx as nat),
                before <= yy * w,
                w * h <= bw * bh,
                blen == bytes.len(),
            decreases w - xx,
        {
            let x = region.x + xx;
            proof {
                lemma_offset_coords(bw, bh, x as nat, y as nat, 3);
                assert(y * bw <= (y * bw + x) * 4 + 3) by (nonlinear_arith);
                assert(y * bw + x <= (y * bw + x) * 4 + 3) by (nonlinear_arith);
                lemma_row_dark_bound(bytes, bw, region.x as nat, y as nat, xx as nat);
                assert((yy + 1) * w == yy * w + w) by (nonlinear_arith);
                assert(yy * w + w <= h * w) by (nonlinear_arith)
                    requires yy < h;
                assert(h * w == w * h) by (nonlinear_arith);
            }
            let idx = (y * buffer.width + x) * 4 + 3;
            if buffer.bytes[idx] == 0 {
                count = count + 1;
            }
            xx = xx + 1;
        }
        proof {
            lemma_row_dark_bound(bytes, bw, region.x as nat, y as nat, w as nat);
            assert((yy + 1) * w == yy * w + w) by (nonlinear_arith);
        }
        yy = yy + 1;
    }
    proof {
        assert(count <= h * w);
        assert(h * w == w * h) by (nonlinear_arith);
    }
    let area = w * h;
    assert(count <= area);
    assert(area <= u64::MAX);
    let p: u128 = fill_percent as u128;
    let a: u128 = area as u128;
    proof {
        assert(p * a <= 255 * 0xffff_ffff_ffff_ffff) by (nonlinear_arith)
            requires p <= 255, a <= 0xffff_ffff_ffff_ffff;
    }
    (count as u128) * 100 > p * a
}

/// Sets every byte of every pixel of `region` to 255, the blank value; all
/// other bytes keep their value.
pub fn erase_block(buffer: &mut PixelBuffer, region: &Region)
    requires
        old(buffer).wf(),
        region.fits(old(buffer).width as nat, old(buffer).height as nat),
    ensures
        final(buffer).width == old(buffer).width,
        final(buffer).height == old(buffer).height,
        final(buffer).bytes@ == erased(old(buffer).bytes@, old(buffer).width as nat, *region),
{
    let ghost orig = buffer.bytes@;
    let ghost bw = buffer.width as nat;
    let ghost bh = buffer.height as nat;
    let ghost r = *region;
    let n = buffer.bytes.len();
    if region.width == 0 || region.height == 0 {
        assert(buffer.bytes@ =~= erased(orig, bw, r));
        return;
    }
    let mut yy: usize = 0;
    while yy < region.height
        invariant
            buffer.bytes@.len() == orig.len(),
            n == orig.len(),
            orig.len() == bw * bh * 4,
            bw == buffer.width,
            bh == buffer.height,
            r == *region,
            region.fits(bw, bh),
            yy <= region.height,
            region.width > 0,
            forall|k: int|
                0 <= k < n ==> buffer.bytes@[k] == if byte_in_region(bw, r, k as nat) && row_of(
                    bw,
                    k as nat,
                ) < region.y + yy {
                    BLANK
                } else {
                    orig[k]
                },
        decreases region.height - yy,
    {
        let y = region.y + yy;
        proof {
            lemma_offset_coords(bw, bh, region.x as nat, y as nat, 0);
            assert(y * bw <= y * bw * 4) by (nonlinear_arith);
            assert(region.x + region.width <= bw);
            assert((y * bw + region.x) * 4 + region.width * 4 <= (y + 1) * bw * 4) by (nonlinear_arith)
                requires region.x + region.width <= bw;
            assert((y + 1) * bw * 4 <= bh * bw * 4) by (nonlinear_arith)
                requires y < bh;
            assert(bh * bw * 4 == bw * bh * 4) by (nonlinear_arith);
        }
        let start = (y * buffer.width + region.x) * 4;
        let end = start + region.width * 4;
        let mut t: usize = start;
        while t < end
            invariant
                buffer.bytes@.len() == orig.len(),
                n == orig.len(),
                orig.len() == bw * bh * 4,
                bw == buffer.width,
                bh == buffer.height,
                r == *region,
                region.fits(bw, bh),
                yy < region.height,
                y == region.y + yy,
                start == byte_offset(bw, region.x as nat, y as nat, 0),
                end == start + 4 * region.width,
                end <= n,
                start <= t <= end,
                forall|k: int|
                    0 <= k < n ==> buffer.bytes@[k] == if (byte_in_region(bw, r, k as nat) && row_of(
                        bw,
                        k as nat,
                    ) < region.y + yy) || (start <= k < t) {
                        BLANK
                    } else {
                        orig[k]
                    },
            decreases end - t,
        {
            buffer.bytes.set(t, BLANK);
            t = t + 1;
        }
        proof {
            assert forall|k: int| 0 <= k < n implies buffer.bytes@[k] == if byte_in_region(
                bw,
                r,
                k as nat,
            ) && row_of(bw, k as nat) < region.y + yy + 1 {
                BLANK
            } else {
                orig[k]
            } by {
                lemma_row_run(bw, bh, region.x as nat, y as nat, region.width as nat, k as nat);
            }
        }
        yy = yy + 1;
    }
    proof {
        assert forall|k: int| 0 <= k < n implies buffer.bytes@[k] == erased(orig, bw, r)[k] by {
            lemma_coords_of_offset(bw, bh, k as nat);
        }
    }
    assert(buffer.bytes@ =~= erased(orig, bw, r));
}

proof fn lemma_row_dark_uniform(bytes: Seq<u8>, w: nat, x0: nat, y: nat, n: nat, dark: bool)
    requires
        forall|x: nat| x0 <= x < x0 + n ==> is_dark(bytes, w, x, y) == dark,
    ensures
        row_dark(bytes, w, x0, y, n) == if dark { n } else { 0 },
    decreases n,
{
    if n > 0 {
        lemma_row_dark_uniform(bytes, w, x0, y, (n - 1) as nat, dark);
        assert(is_dark(bytes, w, (x0 + n - 1) as nat, y) == dark);
    }
}

proof fn lemma_rows_dark_uniform(bytes: Seq<u8>, w: nat, r: Region, m: nat, dark: bool)
    requires
        m <= r.height,
        forall|x: nat, y: nat| r.contains(x, y) ==> is_dark(bytes, w, x, y) == dark,
    ensures
        rows_dark(bytes, w, r, m) == if dark { m * r.width } else { 0 },
    decreases m,
{
    if m > 0 {
        lemma_rows_dark_uniform(bytes, w, r, (m - 1) as nat, dark);
        let y = (r.y + m - 1) as nat;
        assert forall|x: nat| r.x <= x < r.x + r.width implies is_dark(bytes, w, x, y) == dark by {
            assert(r.contains(x, y));
        }
        lemma_row_dark_uniform(bytes, w, r.x as nat, y, r.width as nat, dark);
        assert(m * r.width == (m - 1) * r.width + r.width) by (nonlinear_arith);
    }
}

/// A block with pixels, all of them dark, is noise for every fill percentage
/// below 100.
pub proof fn lemma_all_dark_is_noise(bytes: Seq<u8>, w: nat, r: Region, percent: nat)
    requires
        !r.is_empty(),
        forall|x: nat, y: nat| r.contains(x, y) ==> is_dark(bytes, w, x, y),
        percent < 100,
    ensures
        is_noise(bytes, w, r, percent),
{
    lemma_rows_dark_uniform(bytes, w, r, r.height as nat, true);
    let a = r.area();
    assert(a == r.height * r.width) by (nonlinear_arith)
        requires a == r.width * r.height;
    assert(a > 0) by (nonlinear_arith)
        requires a == r.width * r.height, r.width > 0, r.height > 0;
    assert(a * 100 > percent * a) by (nonlinear_arith)
        requires a > 0, percent < 100;
}

/// A block without a dark pixel is never noise for a positive fill
/// percentage.
pub proof fn lemma_no_dark_is_kept(bytes: Seq<u8>, w: nat, r: Region, percent: nat)
    requires
        forall|x: nat, y: nat| r.contains(x, y) ==> !is_dark(bytes, w, x, y),
        percent > 0,
    ensures
        !is_noise(bytes, w, r, percent),
{
    lemma_rows_dark_uniform(bytes, w, r, r.height as nat, false);
}

} // verus!
