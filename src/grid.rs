//! The tiling of an image into blocks: starting at the origin, one block every
//! `bs` pixels along each axis, the last row and column clipped to the image.

use vstd::prelude::*;
use crate::buffer::Region;

verus! {

/// Length along an axis of extent `d` of the `i`-th block of nominal size
/// `bs`: `bs`, or what remains of the axis when less.
pub open spec fn extent(d: nat, bs: nat, i: nat) -> nat {
    if i * bs >= d {
        0
    } else if d - i * bs < bs {
        (d - i * bs) as nat
    } else {
        bs
    }
}

/// Number of block starts along an axis of extent `d`: `0, bs, 2 * bs, ...`
/// up to and including `d`.
pub open spec fn starts(d: nat, bs: nat) -> nat {
    d / bs + 1
}

/// The block in column `i` and row `j` of the grid.
pub open spec fn grid_region(w: nat, h: nat, bs: nat, i: nat, j: nat) -> Region {
    Region {
        x: (i * bs) as usize,
        y: (j * bs) as usize,
        width: extent(w, bs, i) as usize,
        height: extent(h, bs, j) as usize,
    }
}

/// The block that holds pixel `(x, y)`.
pub open spec fn block_of(w: nat, h: nat, bs: nat, x: nat, y: nat) -> Region {
    grid_region(w, h, bs, x / bs, y / bs)
}

/// Every block of the grid, row of blocks by row of blocks, each row from left
/// to right; empty blocks at the far edges included.
pub open spec fn grid(w: nat, h: nat, bs: nat) -> Seq<Region> {
    Seq::new(
        starts(w, bs) * starts(h, bs),
        |k: int| grid_region(w, h, bs, (k % starts(w, bs) as int) as nat, (k / starts(w, bs) as int) as nat),
    )
}

/// Along one axis, coordinate `x` falls in block `i` exactly when it lies in
/// that block's span.
pub proof fn lemma_axis_block(d: nat, bs: nat, i: nat, x: nat)
    requires
        bs > 0,
        x < d,
    ensures
        (x / bs == i) <==> (i * bs <= x < i * bs + extent(d, bs, i)),
{
    vstd::arithmetic::div_mod::lemma_fundamental_div_mod(x as int, bs as int);
    let q = x / bs;
    let r = x % bs;
    assert(0 <= r < bs);
    assert(x == q * bs + r) by (nonlinear_arith)
        requires x == bs * q + r;
    if q == i {
        assert(i * bs <= x < i * bs + bs);
    } else if q < i {
        assert(q * bs + r < i * bs) by (nonlinear_arith)
            requires q < i, r < bs;
    } else {
        assert(q * bs >= (i + 1) * bs) by (nonlinear_arith)
            requires q >= i + 1, bs > 0;
        assert((i + 1) * bs == i * bs + bs) by (nonlinear_arith);
    }
}

/// A block start that exists along an axis lies within it.
pub proof fn lemma_start_within(d: nat, bs: nat, i: nat)
    requires
        bs > 0,
        i < starts(d, bs),
    ensures
        i * bs <= d,
        i * bs + extent(d, bs, i) <= d,
{
    vstd::arithmetic::div_mod::lemma_fundamental_div_mod(d as int, bs as int);
    let q = d / bs;
    assert(i * bs <= q * bs) by (nonlinear_arith)
        requires i <= q;
}

/// The block in column `i` and row `j` of the grid over a `width` by `height`
/// image.
pub fn grid_block(width: usize, height: usize, block_size: usize, i: usize, j: usize) -> (r: Region)
    requires
        block_size > 0,
        i < starts(width as nat, block_size as nat),
        j < starts(height as nat, block_size as nat),
    ensures
        r == grid_region(width as nat, height as nat, block_size as nat, i as nat, j as nat),
        r.fits(width as nat, height as nat),
{
    proof {
        lemma_start_within(width as nat, block_size as nat, i as nat);
        lemma_start_within(height as nat, block_size as nat, j as nat);
    }
    let x = i * block_size;
    let y = j * block_size;
    let bw = if width - x < block_size { width - x } else { block_size };
    let bh = if height - y < block_size { height - y } else { block_size };
    Region { x, y, width: bw, height: bh }
}

/// Every block of the grid over a `width` by `height` image, in the order of
/// `grid`: rows of blocks from the top, each from the left. Where an extent
/// is a multiple of `block_size` the last row or column holds empty blocks.
pub fn block_grid(width: usize, height: usize, block_size: usize) -> (r: Vec<Region>)
    requires
        block_size > 0,
    ensures
        r@ == grid(width as nat, height as nat, block_size as nat),
{
    let ghost w = width as nat;
    let ghost h = height as nat;
    let ghost bs = block_size as nat;
    let ghost nx = starts(w, bs);
    let ghost ny = starts(h, bs);
    let ghost g = grid(w, h, bs);
    let last_i = width / block_size;
    let last_j = height / block_size;
    let mut v: Vec<Region> = Vec::new();
    let mut j: usize = 0;
    loop
        invariant_except_break
            j <= last_j,
            v@ == g.take(j * nx),
        invariant
            w == width,
            h == height,
            bs == block_size,
            block_size > 0,
            nx == starts(w, bs),
            ny == starts(h, bs),
            last_i == width / block_size,
            last_j == height / block_size,
            g == grid(w, h, bs),
        ensures
            v@ == g,
        decreases last_j - j,
    {
        let mut i: usize = 0;
        loop
            invariant_except_break
                i <= last_i,
                j <= last_j,
                v@ == g.take(j * nx + i),
            invariant
                w == width,
                h == height,
                bs == block_size,
                block_size > 0,
                nx == starts(w, bs),
                ny == starts(h, bs),
                last_i == width / block_size,
                last_j == height / block_size,
                g == grid(w, h, bs),
                j <= last_j,
            ensures
                v@ == g.take((j + 1) * nx),
            decreases last_i - i,
        {
            proof {
                assert(j * nx + i < nx * ny) by (nonlinear_arith)
                    requires i < nx, j < ny;
                vstd::arithmetic::div_mod::lemma_fundamental_div_mod_converse(
                    (j * nx + i) as int, nx as int, j as int, i as int);
            }
            let region = grid_block(width, height, block_size, i, j);
            v.push(region);
            assert(v@ =~= g.take(j * nx + i + 1));
            if i == last_i {
                assert((j + 1) * nx == j * nx + i + 1) by (nonlinear_arith)
                    requires nx == i + 1;
                break;
            }
            i = i + 1;
        }
        if j == last_j {
            assert((j + 1) * nx == nx * ny) by (nonlinear_arith)
                requires ny == j + 1;
            assert(v@ =~= g);
            break;
        }
        j = j + 1;
    }
    v
}

/// Position in `grid` of the block that holds pixel `(x, y)`.
pub open spec fn block_index(w: nat, bs: nat, x: nat, y: nat) -> int {
    ((y / bs) * starts(w, bs) + x / bs) as int
}

/// Sum of the extents of the first `n` blocks along an axis.
pub open spec fn axis_total(d: nat, bs: nat, n: nat) -> nat
    decreases n,
{
    if n == 0 {
        0
    } else {
        axis_total(d, bs, (n - 1) as nat) + extent(d, bs, (n - 1) as nat)
    }
}

/// Sum of the areas of the regions in `s`.
pub open spec fn total_area(s: Seq<Region>) -> nat
    decreases s.len(),
{
    if s.len() == 0 {
        0
    } else {
        total_area(s.drop_last()) + s.last().area()
    }
}

proof fn lemma_axis_total(d: nat, bs: nat, n: nat)
    requires
        bs > 0,
    ensures
        axis_total(d, bs, n) == if n * bs <= d { n * bs } else { d },
    decreases n,
{
    if n > 0 {
        let m = (n - 1) as nat;
        lemma_axis_total(d, bs, m);
        let a = m * bs;
        assert(n * bs == a + bs) by (nonlinear_arith)
            requires n == m + 1, a == m * bs;
        assert(axis_total(d, bs, n) == axis_total(d, bs, m) + extent(d, bs, m));
        if a >= d {
            assert(extent(d, bs, m) == 0);
        } else if d - a < bs {
            assert(extent(d, bs, m) == d - a);
        } else {
            assert(extent(d, bs, m) == bs);
        }
    } else {
        assert(0 * bs == 0);
    }
}

proof fn lemma_axis_total_full(d: nat, bs: nat)
    requires
        bs > 0,
    ensures
        axis_total(d, bs, starts(d, bs)) == d,
{
    lemma_axis_total(d, bs, starts(d, bs));
    vstd::arithmetic::div_mod::lemma_fundamental_div_mod(d as int, bs as int);
    let q = d / bs;
    let r = d % bs;
    assert((q + 1) * bs > d) by (nonlinear_arith)
        requires d == bs * q + r, r < bs;
}

proof fn lemma_grid_area_prefix(w: nat, h: nat, bs: nat, k: nat)
    requires
        bs > 0,
        w <= usize::MAX,
        h <= usize::MAX,
        k <= starts(w, bs) * starts(h, bs),
    ensures
        total_area(grid(w, h, bs).take(k as int)) == w * axis_total(h, bs, k / starts(w, bs))
            + extent(h, bs, k / starts(w, bs)) * axis_total(w, bs, k % starts(w, bs)),
    decreases k,
{
    let nx = starts(w, bs);
    let g = grid(w, h, bs);
    if k == 0 {
        assert(g.take(0) =~= Seq::<Region>::empty());
        assert(0nat / nx == 0 && 0nat % nx == 0) by (nonlinear_arith)
            requires nx > 0;
        assert(w * 0 == 0);
        assert(extent(h, bs, 0) * 0 == 0);
    } else {
        let m = (k - 1) as nat;
        lemma_grid_area_prefix(w, h, bs, m);
        let i = m % nx;
        let j = m / nx;
        vstd::arithmetic::div_mod::lemma_fundamental_div_mod(m as int, nx as int);
        assert(g.take(k as int).drop_last() =~= g.take(m as int));
        assert(j < starts(h, bs)) by (nonlinear_arith)
            requires m == nx * j + i, i >= 0, m < nx * starts(h, bs), nx > 0;
        lemma_start_within(w, bs, i);
        lemma_start_within(h, bs, j);
        let r = g[m as int];
        assert(r.area() == extent(w, bs, i) * extent(h, bs, j));
        let ew = extent(w, bs, i);
        let eh = extent(h, bs, j);
        assert(total_area(g.take(k as int)) == total_area(g.take(m as int)) + r.area());
        if i + 1 < nx {
            assert(k == nx * j + (i + 1));
            vstd::arithmetic::div_mod::lemma_fundamental_div_mod_converse(k as int, nx as int, j as int, (i + 1) as int);
            assert(eh * axis_total(w, bs, i) + ew * eh == eh * (axis_total(w, bs, i) + ew)) by (nonlinear_arith);
            assert(axis_total(w, bs, i + 1) == axis_total(w, bs, i) + ew);
            assert(k / nx == j && k % nx == i + 1);
            assert(total_area(g.take(m as int)) == w * axis_total(h, bs, j) + eh * axis_total(w, bs, i));
        } else {
            assert(k == (j + 1) * nx) by (nonlinear_arith)
                requires k == m + 1, m == nx * j + i, i + 1 == nx;
            vstd::arithmetic::div_mod::lemma_fundamental_div_mod_converse(k as int, nx as int, (j + 1) as int, 0);
            lemma_axis_total_full(w, bs);
            assert(axis_total(w, bs, nx) == axis_total(w, bs, i) + ew);
            assert(w * axis_total(h, bs, j) + eh * axis_total(w, bs, i) + ew * eh
                == w * (axis_total(h, bs, j) + eh)) by (nonlinear_arith)
                requires axis_total(w, bs, i) + ew == w;
            assert(axis_total(h, bs, j + 1) == axis_total(h, bs, j) + eh);
            assert(k / nx == j + 1 && k % nx == 0);
            assert(axis_total(w, bs, 0) == 0);
            assert(extent(h, bs, j + 1) * 0 == 0);
        }
    }
}

/// For a positive block size the grid partitions the image: every block lies
/// within it, every pixel of it lies in exactly one block, and the areas of
/// the blocks add up to `w * h`.
pub proof fn lemma_grid_partitions(w: nat, h: nat, bs: nat)
    requires
        bs > 0,
        w <= usize::MAX,
        h <= usize::MAX,
    ensures
        forall|k: int| 0 <= k < grid(w, h, bs).len() ==> (#[trigger] grid(w, h, bs)[k]).fits(w, h),
        forall|x: nat, y: nat|
            x < w && y < h ==> 0 <= #[trigger] block_index(w, bs, x, y) < grid(w, h, bs).len()
                && grid(w, h, bs)[block_index(w, bs, x, y)].contains(x, y),
        forall|k1: int, k2: int, x: nat, y: nat|
            0 <= k1 < grid(w, h, bs).len() && 0 <= k2 < grid(w, h, bs).len() && #[trigger] grid(
                w,
                h,
                bs,
            )[k1].contains(x, y) && #[trigger] grid(w, h, bs)[k2].contains(x, y) ==> k1 == k2,
        total_area(grid(w, h, bs)) == w * h,
{
    let nx = starts(w, bs);
    let ny = starts(h, bs);
    let g = grid(w, h, bs);
    assert forall|k: int| 0 <= k < g.len() implies (#[trigger] g[k]).fits(w, h) by {
        vstd::arithmetic::div_mod::lemma_fundamental_div_mod(k, nx as int);
        let i = (k % nx as int) as nat;
        let j = (k / nx as int) as nat;
        assert(j < ny) by (nonlinear_arith)
            requires k == nx * j + i, i >= 0, k < nx * ny, nx > 0;
        lemma_start_within(w, bs, i);
        lemma_start_within(h, bs, j);
    }
    assert forall|x: nat, y: nat| x < w && y < h implies 0 <= #[trigger] block_index(w, bs, x, y)
        < g.len() && g[block_index(w, bs, x, y)].contains(x, y) by {
        let i = x / bs;
        let j = y / bs;
        vstd::arithmetic::div_mod::lemma_div_is_ordered(x as int, w as int, bs as int);
        vstd::arithmetic::div_mod::lemma_div_is_ordered(y as int, h as int, bs as int);
        let k = j * nx + i;
        assert(k < nx * ny) by (nonlinear_arith)
            requires i < nx, j < ny, k == j * nx + i;
        vstd::arithmetic::div_mod::lemma_fundamental_div_mod_converse(k as int, nx as int, j as int, i as int);
        lemma_axis_block(w, bs, i, x);
        lemma_axis_block(h, bs, j, y);
        lemma_start_within(w, bs, i);
        lemma_start_within(h, bs, j);
        assert(g[k as int].contains(x, y));
    }
    assert forall|k1: int, k2: int, x: nat, y: nat|
        0 <= k1 < g.len() && 0 <= k2 < g.len() && #[trigger] g[k1].contains(x, y)
            && #[trigger] g[k2].contains(x, y) implies k1 == k2 by {
        vstd::arithmetic::div_mod::lemma_fundamental_div_mod(k1, nx as int);
        vstd::arithmetic::div_mod::lemma_fundamental_div_mod(k2, nx as int);
        let i1 = (k1 % nx as int) as nat;
        let j1 = (k1 / nx as int) as nat;
        let i2 = (k2 % nx as int) as nat;
        let j2 = (k2 / nx as int) as nat;
        assert(j1 < ny) by (nonlinear_arith)
            requires k1 == nx * j1 + i1, i1 >= 0, k1 < nx * ny, nx > 0;
        assert(j2 < ny) by (nonlinear_arith)
            requires k2 == nx * j2 + i2, i2 >= 0, k2 < nx * ny, nx > 0;
        lemma_start_within(w, bs, i1);
        lemma_start_within(h, bs, j1);
        lemma_start_within(w, bs, i2);
        lemma_start_within(h, bs, j2);
        lemma_axis_block(w, bs, i1, x);
        lemma_axis_block(h, bs, j1, y);
        lemma_axis_block(w, bs, i2, x);
        lemma_axis_block(h, bs, j2, y);
    }
    lemma_grid_area_prefix(w, h, bs, nx * ny);
    vstd::arithmetic::div_mod::lemma_fundamental_div_mod_converse((nx * ny) as int, nx as int, ny as int, 0);
    assert(g.take((nx * ny) as int) =~= g);
    lemma_axis_total_full(h, bs);
    vstd::arithmetic::div_mod::lemma_fundamental_div_mod(h as int, bs as int);
    let q = h / bs;
    let rem = h % bs;
    assert(ny * bs >= h) by (nonlinear_arith)
        requires ny == q + 1, h == bs * q + rem, rem < bs;
    assert(extent(h, bs, ny) == 0);
    assert((nx * ny) / nx == ny && (nx * ny) % nx == 0);
    assert(axis_total(w, bs, 0) == 0);
    assert(total_area(g) == w * axis_total(h, bs, ny) + 0 * axis_total(w, bs, 0));
}

} // verus!
