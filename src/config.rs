//! The run's configuration and the whole pipeline over one page.

use vstd::prelude::*;
use crate::buffer::PixelBuffer;
use crate::parallel::remove_noise_blocks_parallel;
use crate::scan::scanned;
use crate::threshold::{binarize, binarized};

verus! {

/// What one run applies to every page: the binarization cutoff, the nominal
/// block edge length, and the fill percentage above which a block is noise.
#[derive(Clone, Copy, Debug, PartialEq, Eq, Structural)]
pub struct ScanConfig {
    pub cutoff: u8,
    pub block_size: usize,
    pub fill_percent: u8,
}

impl ScanConfig {
    /// A usable configuration: blocks have a positive size.
    pub open spec fn wf(&self) -> bool {
        self.block_size > 0
    }

    /// A configuration; `None` for a block size of zero, which could not tile
    /// the image.
    pub fn new(cutoff: u8, block_size: usize, fill_percent: u8) -> (r: Option<ScanConfig>)
        ensures
            r is Some <==> block_size > 0,
            r matches Some(c) ==> c.cutoff == cutoff && c.block_size == block_size
                && c.fill_percent == fill_percent && c.wf(),
    {
        if block_size == 0 {
            None
        } else {
            Some(ScanConfig { cutoff, block_size, fill_percent })
        }
    }
}

/// The bytes of a page after the pipeline: binarized, then, when `cleanup`
/// holds, cleared of noise blocks.
pub open spec fn page_result(bytes: Seq<u8>, w: nat, h: nat, config: ScanConfig, cleanup: bool) -> Seq<
    u8,
> {
    let b = binarized(bytes, config.cutoff);
    if cleanup {
        scanned(b, w, h, config.block_size as nat, config.fill_percent as nat)
    } else {
        b
    }
}

/// Runs the pipeline on a decoded, grayscale page: binarizes it, then, unless
/// `cleanup` is false, blanks the noise blocks (bands of blocks in parallel).
pub fn scan_page(buffer: &mut PixelBuffer, config: &ScanConfig, cleanup: bool)
    requires
        old(buffer).wf(),
        config.wf(),
    ensures
        final(buffer).width == old(buffer).width,
        final(buffer).height == old(buffer).height,
        final(buffer).bytes@ == page_result(
            old(buffer).bytes@,
            old(buffer).width as nat,
            old(buffer).height as nat,
            *config,
            cleanup,
        ),
{
    binarize(buffer, config.cutoff);
    if cleanup {
        remove_noise_blocks_parallel(buffer, config.block_size, config.fill_percent);
    }
}

} // verus!
