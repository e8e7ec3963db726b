use scanner::block::{erase_block, should_discard};
use scanner::buffer::{PixelBuffer, Region};
use scanner::config::{scan_page, ScanConfig};
use scanner::grid::{block_grid, grid_block};
use scanner::parallel::remove_noise_blocks_parallel;
use scanner::scan::remove_noise_blocks;
use scanner::size::{is_size, parse_size};
use scanner::threshold::binarize;

fn filled(width: usize, height: usize, value: u8) -> PixelBuffer {
    PixelBuffer::from_parts(width, height, vec![value; width * height * 4]).unwrap()
}

fn set_pixel(buf: &mut PixelBuffer, x: usize, y: usize, value: u8) {
    let start = (y * buf.width + x) * 4;
    for c in 0..4 {
        buf.bytes[start + c] = value;
    }
}

fn pattern(width: usize, height: usize) -> PixelBuffer {
    let mut bytes = Vec::new();
    for y in 0..height {
        for x in 0..width {
            let v = ((x * 7 + y * 13 + (x * y) % 11) % 256) as u8;
            let g = if (x / 5 + y / 3) % 3 == 0 { v / 4 } else { v };
            bytes.extend_from_slice(&[g, g, g, g]);
        }
    }
    PixelBuffer::from_parts(width, height, bytes).unwrap()
}

#[test]
fn all_dark_page_is_blanked() {
    let mut buf = filled(100, 100, 0);
    binarize(&mut buf, 150);
    remove_noise_blocks(&mut buf, 50, 80);
    assert!(buf.bytes.iter().all(|&b| b == 255));
    assert_eq!(buf.bytes.len(), 100 * 100 * 4);
}

#[test]
fn all_dark_page_is_blanked_in_parallel() {
    let mut buf = filled(100, 100, 0);
    binarize(&mut buf, 150);
    remove_noise_blocks_parallel(&mut buf, 50, 80);
    assert!(buf.bytes.iter().all(|&b| b == 255));
}

#[test]
fn single_dark_pixel_is_kept() {
    let mut buf = filled(100, 100, 200);
    set_pixel(&mut buf, 0, 0, 10);
    binarize(&mut buf, 150);
    let binarized = buf.bytes.clone();
    remove_noise_blocks(&mut buf, 50, 80);
    assert_eq!(buf.bytes, binarized);
    assert_eq!(&buf.bytes[0..4], &[0, 0, 0, 0]);
    assert_eq!(&buf.bytes[4..8], &[255, 255, 255, 255]);
}

#[test]
fn binarize_maps_each_byte() {
    let mut buf = PixelBuffer::from_parts(2, 1, vec![0, 120, 121, 255, 119, 200, 1, 120]).unwrap();
    binarize(&mut buf, 120);
    assert_eq!(buf.bytes, vec![0, 0, 255, 255, 0, 255, 0, 0]);
    assert_eq!((buf.width, buf.height), (2, 1));
}

#[test]
fn binarize_twice_is_binarize_once() {
    for cutoff in [0u8, 1, 120, 254, 255] {
        let mut once = pattern(13, 9);
        binarize(&mut once, cutoff);
        let mut twice = PixelBuffer::from_parts(13, 9, once.bytes.clone()).unwrap();
        binarize(&mut twice, cutoff);
        assert_eq!(once.bytes, twice.bytes);
    }
}

#[test]
fn cutoff_255_makes_everything_dark() {
    let mut buf = PixelBuffer::from_parts(1, 1, vec![255, 255, 0, 128]).unwrap();
    binarize(&mut buf, 255);
    assert_eq!(buf.bytes, vec![0, 0, 0, 0]);
}

#[test]
fn grid_of_exact_multiple_holds_empty_edge_blocks() {
    let g = block_grid(100, 100, 50);
    assert_eq!(g.len(), 9);
    assert_eq!(g[0], Region { x: 0, y: 0, width: 50, height: 50 });
    assert_eq!(g[1], Region { x: 50, y: 0, width: 50, height: 50 });
    assert_eq!(g[2], Region { x: 100, y: 0, width: 0, height: 50 });
    assert_eq!(g[3], Region { x: 0, y: 50, width: 50, height: 50 });
    assert_eq!(g[4], Region { x: 50, y: 50, width: 50, height: 50 });
    assert_eq!(g[8], Region { x: 100, y: 100, width: 0, height: 0 });
    let non_empty: Vec<&Region> = g.iter().filter(|r| r.width > 0 && r.height > 0).collect();
    assert_eq!(non_empty.len(), 4);
}

#[test]
fn grid_clips_last_row_and_column() {
    let g = block_grid(105, 70, 50);
    assert_eq!(g.len(), 6);
    assert_eq!(g[2], Region { x: 100, y: 0, width: 5, height: 50 });
    assert_eq!(g[5], Region { x: 100, y: 50, width: 5, height: 20 });
    assert_eq!(grid_block(105, 70, 50, 1, 1), Region { x: 50, y: 50, width: 50, height: 20 });
}

#[test]
fn grid_partitions_the_image() {
    for (w, h, bs) in [(105usize, 70usize, 50usize), (7, 3, 1), (10, 10, 3), (1, 1, 9), (64, 48, 16)] {
        let g = block_grid(w, h, bs);
        let total: usize = g.iter().map(|r| r.width * r.height).sum();
        assert_eq!(total, w * h);
        for y in 0..h {
            for x in 0..w {
                let holders = g
                    .iter()
                    .filter(|r| r.x <= x && x < r.x + r.width && r.y <= y && y < r.y + r.height)
                    .count();
                assert_eq!(holders, 1);
            }
        }
        for r in &g {
            assert!(r.x + r.width <= w && r.y + r.height <= h);
        }
    }
}

#[test]
fn fully_dark_block_is_noise_below_100_percent() {
    let buf = filled(4, 4, 0);
    let r = Region { x: 1, y: 1, width: 2, height: 3 };
    assert!(should_discard(&buf, &r, 0));
    assert!(should_discard(&buf, &r, 99));
    assert!(!should_discard(&buf, &r, 100));
}

#[test]
fn light_block_is_never_noise() {
    let buf = filled(4, 4, 255);
    let r = Region { x: 0, y: 0, width: 4, height: 4 };
    assert!(!should_discard(&buf, &r, 1));
    assert!(!should_discard(&buf, &r, 0));
}

#[test]
fn empty_region_is_never_noise() {
    let buf = filled(4, 4, 0);
    assert!(!should_discard(&buf, &Region { x: 4, y: 0, width: 0, height: 4 }, 0));
    assert!(!should_discard(&buf, &Region { x: 0, y: 4, width: 4, height: 0 }, 0));
}

#[test]
fn fill_ratio_is_compared_strictly() {
    // 2 of 4 pixels dark: 50 %.
    let mut buf = filled(2, 2, 255);
    set_pixel(&mut buf, 0, 0, 0);
    set_pixel(&mut buf, 1, 1, 0);
    let r = Region { x: 0, y: 0, width: 2, height: 2 };
    assert!(should_discard(&buf, &r, 49));
    assert!(!should_discard(&buf, &r, 50));
}

#[test]
fn only_alpha_marks_a_dark_pixel() {
    let buf = PixelBuffer::from_parts(1, 1, vec![0, 0, 0, 255]).unwrap();
    assert!(!should_discard(&buf, &Region { x: 0, y: 0, width: 1, height: 1 }, 0));
    let buf = PixelBuffer::from_parts(1, 1, vec![255, 255, 255, 0]).unwrap();
    assert!(should_discard(&buf, &Region { x: 0, y: 0, width: 1, height: 1 }, 0));
}

#[test]
fn erase_touches_only_the_region() {
    let mut buf = pattern(6, 5);
    let before = buf.bytes.clone();
    let r = Region { x: 2, y: 1, width: 3, height: 2 };
    erase_block(&mut buf, &r);
    for y in 0..5 {
        for x in 0..6 {
            for c in 0..4 {
                let k = (y * 6 + x) * 4 + c;
                if x >= 2 && x < 5 && y >= 1 && y < 3 {
                    assert_eq!(buf.bytes[k], 255);
                } else {
                    assert_eq!(buf.bytes[k], before[k]);
                }
            }
        }
    }
}

#[test]
fn erase_of_empty_region_changes_nothing() {
    let mut buf = pattern(3, 3);
    let before = buf.bytes.clone();
    erase_block(&mut buf, &Region { x: 3, y: 0, width: 0, height: 3 });
    assert_eq!(buf.bytes, before);
}

#[test]
fn sequential_and_parallel_agree() {
    for (w, h, bs, pct) in [(37usize, 29usize, 8usize, 40u8), (50, 50, 50, 10), (17, 40, 7, 0), (9, 9, 1, 50), (5, 3, 20, 30)] {
        let mut a = pattern(w, h);
        binarize(&mut a, 100);
        let mut b = PixelBuffer::from_parts(w, h, a.bytes.clone()).unwrap();
        let input = a.bytes.clone();
        remove_noise_blocks(&mut a, bs, pct);
        remove_noise_blocks_parallel(&mut b, bs, pct);
        assert_eq!(a.bytes, b.bytes);
        assert_eq!((b.width, b.height), (w, h));
        if pct == 0 {
            assert_ne!(a.bytes, input);
        }
    }
}

#[test]
fn scan_erases_exactly_the_noisy_blocks() {
    // Two blocks of 2x2: the left one fully dark, the right one with one dark pixel.
    let mut buf = filled(4, 2, 255);
    for (x, y) in [(0, 0), (1, 0), (0, 1), (1, 1), (3, 1)] {
        set_pixel(&mut buf, x, y, 0);
    }
    remove_noise_blocks(&mut buf, 2, 50);
    for (x, y, v) in [(0, 0, 255), (1, 1, 255), (2, 0, 255), (3, 1, 0)] {
        assert_eq!(buf.bytes[(y * 4 + x) * 4 + 3], v);
    }
}

#[test]
fn scan_of_empty_buffer_is_a_no_op() {
    let mut buf = PixelBuffer::from_parts(0, 5, Vec::new()).unwrap();
    remove_noise_blocks(&mut buf, 3, 10);
    remove_noise_blocks_parallel(&mut buf, 3, 10);
    assert!(buf.bytes.is_empty());
}

#[test]
fn scan_page_binarizes_then_cleans() {
    let config = ScanConfig::new(150, 50, 80).unwrap();
    let mut buf = filled(100, 100, 0);
    scan_page(&mut buf, &config, true);
    assert!(buf.bytes.iter().all(|&b| b == 255));
    let mut kept = filled(100, 100, 0);
    scan_page(&mut kept, &config, false);
    assert!(kept.bytes.iter().all(|&b| b == 0));
}

#[test]
fn zero_block_size_is_rejected() {
    assert_eq!(ScanConfig::new(120, 0, 80), None);
    let c = ScanConfig::new(120, 50, 80).unwrap();
    assert_eq!((c.cutoff, c.block_size, c.fill_percent), (120, 50, 80));
}

#[test]
fn from_parts_checks_the_length() {
    assert!(PixelBuffer::from_parts(2, 2, vec![0; 15]).is_none());
    assert!(PixelBuffer::from_parts(2, 2, vec![0; 16]).is_some());
    assert!(PixelBuffer::from_parts(usize::MAX, 2, Vec::new()).is_none());
}

#[test]
fn parse_size_reads_two_numbers() {
    assert_eq!(parse_size("640x480"), (640, 480));
    assert_eq!(parse_size("+1x+2"), (1, 2));
    assert_eq!(parse_size("007x0"), (7, 0));
    assert_eq!(parse_size("4294967295x1"), (4294967295, 1));
    assert_eq!(parse_size("0x4294967295"), (0, 4294967295));
    assert!(is_size("640x480"));
}

#[test]
fn parse_size_rejects_malformed_text() {
    assert!(!is_size("640"));
    assert!(!is_size("x480"));
    assert!(!is_size("640x"));
    assert!(!is_size("1x2x3"));
    assert!(!is_size("4294967296x1"));
    assert!(!is_size("-1x2"));
    assert!(!is_size("+x2"));
    assert!(!is_size("1 x2"));
    assert!(!is_size(""));
}
