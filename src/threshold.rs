//! Global binarization of every byte against one cutoff.

use vstd::prelude::*;
use crate::buffer::PixelBuffer;

verus! {

/// What one byte becomes: 255 above the cutoff, 0 otherwise.
pub open spec fn binarize_byte(b: u8, cutoff: u8) -> u8 {
    if b > cutoff { 255 } else { 0 }
}

/// Every byte of `s` binarized.
pub open spec fn binarized(s: Seq<u8>, cutoff: u8) -> Seq<u8> {
    Seq::new(s.len(), |i: int| binarize_byte(s[i], cutoff))
}

/// Replaces every byte of the buffer, whatever its channel, by 255 when it is
/// strictly greater than `cutoff` and by 0 otherwise.
pub fn binarize(buffer: &mut PixelBuffer, cutoff: u8)
    ensures
        final(buffer).width == old(buffer).width,
        final(buffer).height == old(buffer).height,
        final(buffer).bytes@ == binarized(old(buffer).bytes@, cutoff),
{
    let n = buffer.bytes.len();
    let mut i: usize = 0;
    while i < n
        invariant
            n == buffer.bytes@.len(),
            buffer.width == old(buffer).width,
            buffer.height == old(buffer).height,
            buffer.bytes@.len() == old(buffer).bytes@.len(),
            i <= n,
            forall|k: int| 0 <= k < i ==> buffer.bytes@[k] == binarize_byte(old(buffer).bytes@[k], cutoff),
            forall|k: int| i <= k < n ==> buffer.bytes@[k] == old(buffer).bytes@[k],
        decreases n - i,
    {
        let b = buffer.bytes[i];
        let v: u8 = if b > cutoff { 255 } else { 0 };
        buffer.bytes.set(i, v);
        i = i + 1;
    }
    assert(buffer.bytes@ =~= binarized(old(buffer).bytes@, cutoff));
}

/// Binarizing twice with one cutoff gives what binarizing once gives: 0 and
/// 255 are fixed points of the rule for every cutoff.
pub proof fn lemma_binarize_idempotent(s: Seq<u8>, cutoff: u8)
    ensures
        binarized(binarized(s, cutoff), cutoff) == binarized(s, cutoff),
{
    assert(binarized(binarized(s, cutoff), cutoff) =~= binarized(s, cutoff));
}

} // verus!
