use ivf_clusterer::heap::{sort_entries, MaxHeap};
use ivf_clusterer::single::{nearer, Single};

/// Patterns at and around every boundary: zeros, subnormals, ones, infinities and
/// NaNs, of both signs.
fn patterns() -> Vec<u32> {
    let magnitudes = [
        0u32, 1, 2, 0x007f_ffff, 0x0080_0000, 0x0080_0001, 0x3c23_d70a, 0x3f7f_ffff, 0x3f80_0000,
        0x3f80_0001, 0x4040_0000, 0x7f7f_ffff, 0x7f80_0000, 0x7f80_0001, 0x7fc0_0000, 0x7fff_ffff,
    ];
    magnitudes
        .iter()
        .flat_map(|&m| [m, m | 0x8000_0000])
        .collect()
}

fn entry(x: f32, i: u32) -> (Single, u32) {
    (Single { bits: x.to_bits() }, i)
}

#[test]
fn comparisons_are_those_of_numbers() {
    for a in patterns() {
        for b in patterns() {
            let (x, y) = (Single { bits: a }, Single { bits: b });
            let (fx, fy) = (f32::from_bits(a), f32::from_bits(b));
            assert_eq!(x.below(y), fx < fy, "{a:#x} < {b:#x}");
            assert_eq!(x.at_most(y), fx <= fy, "{a:#x} <= {b:#x}");
        }
    }
}

#[test]
fn keys_order_as_the_total_order_does() {
    for a in patterns() {
        for b in patterns() {
            let (x, y) = (Single { bits: a }, Single { bits: b });
            let order = f32::from_bits(a).total_cmp(&f32::from_bits(b));
            assert_eq!(x.total_key().cmp(&y.total_key()), order, "{a:#x} {b:#x}");
        }
    }
}

#[test]
fn nearer_goes_by_distance_and_then_by_index() {
    assert!(nearer(entry(1.0, 9), entry(2.0, 0)));
    assert!(!nearer(entry(2.0, 0), entry(1.0, 9)));
    assert!(nearer(entry(1.0, 3), entry(1.0, 4)));
    assert!(!nearer(entry(1.0, 4), entry(1.0, 4)));
    assert!(nearer(entry(-0.0, 7), entry(0.0, 2)));
    assert!(nearer(entry(f32::INFINITY, 7), entry(f32::NAN, 2)));
}

#[test]
fn sorting_agrees_with_a_comparison_sort() {
    let mut entries: Vec<(Single, u32)> = Vec::new();
    let mut state = 12345u64;
    for i in 0..500u32 {
        state = state.wrapping_mul(6364136223846793005).wrapping_add(1442695040888963407);
        let all = patterns();
        let bits = all[(state >> 33) as usize % all.len()];
        entries.push((Single { bits }, i % 50));
    }
    let mut expected = entries.clone();
    expected.sort_by(|a, b| {
        f32::from_bits(a.0.bits)
            .total_cmp(&f32::from_bits(b.0.bits))
            .then_with(|| a.1.cmp(&b.1))
    });
    assert_eq!(sort_entries(entries), expected);
    assert_eq!(sort_entries(Vec::new()), Vec::new());
}

#[test]
fn a_heap_gives_the_farthest_first() {
    let mut heap = MaxHeap::new();
    assert_eq!(heap.pop(), None);
    assert_eq!(heap.peek(), None);
    for (x, i) in [(3.0, 1), (1.0, 2), (4.0, 3), (1.0, 0), (5.0, 4), (4.0, 9)] {
        heap.push(entry(x, i));
    }
    assert_eq!(heap.len(), 6);
    assert_eq!(heap.peek(), Some(entry(5.0, 4)));
    assert_eq!(heap.pop(), Some(entry(5.0, 4)));
    assert_eq!(heap.pop(), Some(entry(4.0, 9)));
    assert_eq!(heap.len(), 4);
    assert_eq!(
        heap.into_sorted_vec(),
        vec![entry(1.0, 0), entry(1.0, 2), entry(3.0, 1), entry(4.0, 3)]
    );
}
