use dd_ng::proto::Range;
use dd_ng::ranges::{compute_ranges, compute_ranges_aligned};

fn range(offset: u64, length: u64) -> Range {
    Range { offset, length }
}

#[test]
fn ranges_are_even() {
    assert_eq!(
        compute_ranges(10, 3),
        vec![range(0, 4), range(4, 3), range(7, 3)]
    );
    assert_eq!(compute_ranges(9, 3), vec![range(0, 3), range(3, 3), range(6, 3)]);
    assert_eq!(compute_ranges(0, 2), vec![range(0, 0), range(0, 0)]);
    assert_eq!(compute_ranges(1, 3), vec![range(0, 1), range(1, 0), range(1, 0)]);
    assert_eq!(compute_ranges(u64::MAX, 1), vec![range(0, u64::MAX)]);
}

#[test]
fn aligned_ranges_start_at_blocks() {
    assert_eq!(
        compute_ranges_aligned(10000, 2, 4096),
        vec![range(0, 4096), range(4096, 5904)]
    );
    assert_eq!(
        compute_ranges_aligned(4096 * 5, 3, 4096),
        vec![range(0, 8192), range(8192, 8192), range(16384, 4096)]
    );
    assert_eq!(
        compute_ranges_aligned(100, 3, 4096),
        vec![range(0, 0), range(0, 0), range(0, 100)]
    );
}

#[test]
fn ranges_tile_the_input() {
    for total in [0u64, 1, 4095, 4096, 4097, 1 << 20, 32212254720] {
        for n in [1u32, 2, 3, 7, 8, 64] {
            for ranges in [
                compute_ranges(total, n),
                compute_ranges_aligned(total, n, 4096),
            ] {
                assert_eq!(ranges.len(), n as usize);
                let mut at = 0;
                for r in &ranges {
                    assert_eq!(r.offset, at);
                    at += r.length;
                }
                assert_eq!(at, total);
            }
            for r in compute_ranges_aligned(total, n, 4096) {
                assert_eq!(r.offset % 4096, 0);
            }
        }
    }
}
