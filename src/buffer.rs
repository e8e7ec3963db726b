//! The pixel buffer, rectangular regions of it, and the arithmetic that maps
//! pixel coordinates to byte offsets.

use vstd::prelude::*;

verus! {

/// Bytes per pixel: red, green, blue, alpha.
pub const CHANNELS: usize = 4;

/// The value every byte of an erased pixel takes.
pub const BLANK: u8 = 255;

/// A grid of `width` by `height` RGBA pixels, stored row-major, four bytes each.
pub struct PixelBuffer {
    pub width: usize,
    pub height: usize,
    pub bytes: Vec<u8>,
}

/// An axis-aligned rectangle of pixels: columns `x .. x + width`, rows
/// `y .. y + height`.
#[derive(Clone, Copy, Debug, PartialEq, Eq, Structural)]
pub struct Region {
    pub x: usize,
    pub y: usize,
    pub width: usize,
    pub height: usize,
}

/// Offset of byte `c` of pixel `(x, y)` in a row-major buffer `w` pixels wide.
pub open spec fn byte_offset(w: nat, x: nat, y: nat, c: nat) -> nat {
    (y * w + x) * 4 + c
}

/// Column of the pixel that byte `k` belongs to.
pub open spec fn col_of(w: nat, k: nat) -> nat {
    (k / 4) % w
}

/// Row of the pixel that byte `k` belongs to.
pub open spec fn row_of(w: nat, k: nat) -> nat {
    (k / 4) / w
}

impl PixelBuffer {
    /// The byte count matches the dimensions.
    pub open spec fn wf(&self) -> bool {
        self.bytes@.len() == self.width * self.height * 4
    }

    /// Builds a buffer from its parts; `None` when the byte count is not
    /// `width * height * 4`.
    pub fn from_parts(width: usize, height: usize, bytes: Vec<u8>) -> (r: Option<PixelBuffer>)
        ensures
            r is Some <==> bytes@.len() == width * height * 4,
            r matches Some(b) ==> b.width == width && b.height == height && b.bytes@ == bytes@
                && b.wf(),
    {
        let blen = bytes.len();
        let wh = width.checked_mul(height);
        match wh {
            None => {
                proof {
                    assert(blen == bytes@.len());
                    assert(width * height * 4 >= width * height) by (nonlinear_arith);
                }
                None
            },
            Some(n) => {
                match n.checked_mul(CHANNELS) {
                    None => None,
                    Some(len) => {
                        if len == blen {
                            Some(PixelBuffer { width, height, bytes })
                        } else {
                            None
                        }
                    },
                }
            },
        }
    }
}

impl Region {
    /// Pixel `(x, y)` lies inside the region.
    pub open spec fn contains(self, x: nat, y: nat) -> bool {
        self.x <= x < self.x + self.width && self.y <= y < self.y + self.height
    }

    /// The region has no pixels.
    pub open spec fn is_empty(self) -> bool {
        self.width == 0 || self.height == 0
    }

    /// Number of pixels in the region.
    pub open spec fn area(self) -> nat {
        (self.width * self.height) as nat
    }

    /// The region lies within a `w` by `h` image.
    pub open spec fn fits(self, w: nat, h: nat) -> bool {
        self.x + self.width <= w && self.y + self.height <= h
    }
}

/// Byte `k` of a buffer `w` pixels wide belongs to a pixel of `r`.
pub open spec fn byte_in_region(w: nat, r: Region, k: nat) -> bool {
    r.contains(col_of(w, k), row_of(w, k))
}

/// The coordinates of byte `c` of pixel `(x, y)` read back from its offset.
pub proof fn lemma_offset_coords(w: nat, h: nat, x: nat, y: nat, c: nat)
    requires
        x < w,
        y < h,
        c < 4,
    ensures
        byte_offset(w, x, y, c) / 4 == y * w + x,
        col_of(w, byte_offset(w, x, y, c)) == x,
        row_of(w, byte_offset(w, x, y, c)) == y,
        byte_offset(w, x, y, c) < w * h * 4,
        byte_offset(w, x, y, c) % 4 == c,
{
    let k = byte_offset(w, x, y, c);
    let p = y * w + x;
    assert(k == p * 4 + c);
    vstd::arithmetic::div_mod::lemma_fundamental_div_mod_converse(k as int, 4, p as int, c as int);
    vstd::arithmetic::div_mod::lemma_fundamental_div_mod_converse(p as int, w as int, y as int, x as int);
    assert(y * w + x < w * h) by (nonlinear_arith)
        requires x < w, y < h;
    assert(p * 4 + c < w * h * 4) by (nonlinear_arith)
        requires p < w * h, c < 4;
}

/// A byte offset inside a `w` by `h` buffer splits into a pixel and a channel.
pub proof fn lemma_coords_of_offset(w: nat, h: nat, k: nat)
    requires
        k < w * h * 4,
    ensures
        col_of(w, k) < w,
        row_of(w, k) < h,
        k == byte_offset(w, col_of(w, k), row_of(w, k), k % 4),
{
    let p = k / 4;
    assert(w > 0) by (nonlinear_arith)
        requires k < w * h * 4;
    vstd::arithmetic::div_mod::lemma_fundamental_div_mod(k as int, 4);
    vstd::arithmetic::div_mod::lemma_fundamental_div_mod(p as int, w as int);
    assert(p < w * h) by (nonlinear_arith)
        requires p == k / 4, k < w * h * 4;
    vstd::arithmetic::div_mod::lemma_mod_bound(p as int, w as int);
    let q = p / w;
    assert(q < h) by (nonlinear_arith)
        requires p == w * q + p % w, p % w >= 0, p < w * h, w > 0;
    let x = p % w;
    let c = k % 4;
    assert(k == (q * w + x) * 4 + c) by (nonlinear_arith)
        requires k == 4 * p + c, p == w * q + x;
}

} // verus!
