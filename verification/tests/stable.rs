use stable_bloom_filter::stable::{stable_k, StableBloomFilter};
use stable_bloom_filter::Filter;

// The number of hash functions that suits a classical Bloom filter with the
// given rate of false positives.
fn optimal_k(fp_rate: f64) -> usize {
    (1.0 / fp_rate).log2().ceil() as usize
}

// The number of cells to evict per insertion for which a stable filter
// settles at the given rate of false positives.
fn optimal_stable_p(m: usize, k: usize, d: u8, fp_rate: f64) -> usize {
    let max = (2_u64.pow(u32::from(d)) - 1) as f64;
    let sub_denom = (1.0 - fp_rate.powf(1.0 / (k as f64))).powf(1.0 / max);
    let denom = (1.0 / sub_denom - 1.0) * (1.0 / (k as f64) - 1.0 / (m as f64));

    let mut p = (1.0 / denom) as usize;

    if p == 0 {
        p = 1;
    }

    p
}

// A stable filter of m cells of d bits for the given rate.
fn stable_filter(m: usize, d: u8, fp_rate: f64) -> StableBloomFilter {
    let k = stable_k(optimal_k(fp_rate), m);
    StableBloomFilter::new(m, d, k, optimal_stable_p(m, k, d, fp_rate))
}

// A stable filter of m one-bit cells for the given rate.
fn default_filter(m: usize, fp_rate: f64) -> StableBloomFilter {
    let k = stable_k(optimal_k(fp_rate), m);
    StableBloomFilter::new_default(m, k, optimal_stable_p(m, k, 1, fp_rate))
}

// The share of zero cells at which a filter settles.
fn stable_point(f: &StableBloomFilter) -> f64 {
    if f.p() == 0 {
        return 0.0;
    }
    let sub_denom = (f.p() as f64) * ((1.0 / (f.k() as f64)) - (1.0 / (f.cells() as f64)));
    let denom = 1.0 + 1.0 / sub_denom;
    let base = 1.0 / denom;

    base.powf(f64::from(f.max()))
}

fn round(val: f64, round_on: f64, places: usize) -> f64 {
    let pow = (10.0_f64).powf(places as f64);
    let digit = pow * val;
    let div = digit - digit.floor();
    let round = if div >= round_on {
        digit.ceil()
    } else {
        digit.floor()
    };

    round / pow
}

fn cells_of(f: &StableBloomFilter) -> Vec<u8> {
    let mut cells = Vec::new();
    for i in 0..f.cells() {
        cells.push(f.buckets().get(i));
    }
    cells
}

// A classical filter has p = 0, max = 1 and k hash functions.
#[test]
fn test_new_unstable() {
    let k = optimal_k(0.1);
    let f = StableBloomFilter::new_unstable(100, k);

    assert_eq!(k, 4);
    assert_eq!(f.k(), k);
    assert_eq!(f.cells(), 100);
    assert_eq!(f.p(), 0);
    assert_eq!(f.max(), 1);
}

// cells() is the number of cells, m.
#[test]
fn test_cells() {
    let f = stable_filter(100, 1, 0.1);

    assert_eq!(f.cells(), 100);
}

// k() is the number of hash functions.
#[test]
fn test_k() {
    let f = stable_filter(100, 1, 0.01);
    assert_eq!(f.k(), 3);
}

// test, add and test_and_add work together.
#[test]
fn test_test_and_add() {
    let mut f = default_filter(10_000, 0.01);
    assert!(!f.test(b"a"));

    f.add(b"a");
    assert!(f.test(b"a"));

    assert!(f.test_and_add(b"a"));

    assert!(!f.test_and_add(b"b"));
    assert!(f.test(b"a"));

    assert!(f.test(b"b"));

    assert!(!f.test(b"c"));

    for i in 0..1_000_000 {
        f.test_and_add(i.to_string().as_bytes());
    }

    // `a` should have been evicted.
    assert!(!f.test(b"a"));
}

// After many insertions the share of zero cells is the stable point.
#[test]
fn test_stable_point() {
    let mut f = stable_filter(1000, 1, 0.1);
    for i in 0..1_000_000 {
        f.add(i.to_string().as_bytes());
    }

    let mut zero = 0;
    for i in 0..f.cells() {
        if f.buckets().get(i) == 0 {
            zero += 1;
        }
    }

    let actual = round(f64::from(zero) / (f.cells() as f64), 0.5, 1);
    let expected = round(stable_point(&f), 0.5, 1);

    assert!((actual - expected).abs() <= f64::EPSILON);
}

// Reset sets every cell to zero.
#[test]
fn test_reset() {
    let mut f = default_filter(1000, 0.01);

    for i in 0..1000 {
        f.add(i.to_string().as_bytes());
    }

    f.reset();

    for i in 0..f.cells() {
        assert_eq!(f.buckets().get(i), 0);
    }
}

#[test]
fn stable_k_halves_and_clamps() {
    assert_eq!(stable_k(7, 100), 3);
    assert_eq!(stable_k(4, 100), 2);
    assert_eq!(stable_k(1, 100), 1);
    assert_eq!(stable_k(0, 100), 1);
    assert_eq!(stable_k(20, 4), 4);
    assert_eq!(stable_k(20, 10), 10);
    assert_eq!(stable_k(20, 11), 10);
    assert_eq!(stable_k(8, 0), 1);
    assert_eq!(stable_k(usize::MAX, usize::MAX), usize::MAX / 2);
}

#[test]
fn new_takes_parameters_as_given() {
    let f = stable_filter(100, 1, 0.1);
    assert_eq!(f.k(), std::cmp::max(1, std::cmp::min(100, optimal_k(0.1) / 2)));
    assert_eq!(f.k(), 2);
    assert_eq!(f.p(), optimal_stable_p(100, f.k(), 1, 0.1));
    assert_eq!(f.p(), 4);
    assert!(f.p() >= 1);
    assert_eq!(f.max(), 1);

    let f = StableBloomFilter::new(9, 3, 2, 5);
    assert_eq!(f.cells(), 9);
    assert_eq!(f.k(), 2);
    assert_eq!(f.p(), 5);
    assert_eq!(f.max(), 7);
    assert_eq!(cells_of(&f), vec![0u8; 9]);

    let f = default_filter(10_000, 0.01);
    assert_eq!(f.k(), 3);
    assert_eq!(f.p(), 10);
    assert_eq!(f.max(), 1);
    assert_eq!(f.cells(), 10_000);
}

#[test]
fn hash_kernel_splits_the_digest() {
    let f = StableBloomFilter::new(16, 1, 3, 2);
    assert_eq!(f.hash_kernel(b"a"), (0x8601_ec8c, 0xaf63_dc4c));
    assert_eq!(f.hash_kernel(b"hello"), (0x80aa_bd0b, 0xa430_d846));
    assert_eq!(f.hash_kernel(b""), (0x8422_2325, 0xcbf2_9ce4));
    // The kernel does not depend on what was hashed before.
    assert_eq!(f.hash_kernel(b"a"), (0x8601_ec8c, 0xaf63_dc4c));
}

#[test]
fn empty_filter_reports_nothing() {
    let f = StableBloomFilter::new(64, 2, 3, 4);
    assert!(!f.test(b"a"));
    assert!(!f.test(b""));
    assert!(!f.test(b"anything at all"));
    let f = StableBloomFilter::new_unstable(1, 1);
    assert!(!f.test(b"a"));
}

#[test]
fn add_then_test_is_true() {
    let mut f = StableBloomFilter::new(50, 3, 4, 7);
    for i in 0..500 {
        let element = i.to_string();
        f.add(element.as_bytes());
        assert!(f.test(element.as_bytes()));
    }
    let mut f = StableBloomFilter::new(3, 1, 3, 3);
    for i in 0..50 {
        let element = i.to_string();
        assert!(f.add(element.as_bytes()).test(element.as_bytes()));
    }
}

// The cells of "a" among 7 are 2, 1, 0 and 6; those of "b" are 5, 2, 6, 3.
#[test]
fn add_at_evicts_then_marks() {
    let mut f = StableBloomFilter::new(7, 2, 4, 3);
    f.add_at(b"a", 0);
    assert_eq!(cells_of(&f), vec![3, 3, 3, 0, 0, 0, 3]);
    f.decrement_at(5);
    assert_eq!(cells_of(&f), vec![2, 3, 3, 0, 0, 0, 2]);
    f.decrement_at(6);
    assert_eq!(cells_of(&f), vec![1, 2, 3, 0, 0, 0, 1]);
    f.add_at(b"b", 2);
    assert_eq!(cells_of(&f), vec![1, 2, 3, 3, 0, 3, 3]);
    assert_eq!(f.k(), 4);
    assert_eq!(f.p(), 3);
    assert_eq!(f.cells(), 7);
    assert_eq!(f.max(), 3);
}

// A run of seven cells over three cells passes the cell it starts at three
// times and the other two twice.
#[test]
fn decrement_at_wraps_round_more_than_once() {
    let mut f = StableBloomFilter::new(3, 3, 2, 7);
    f.add_at(b"a", 0);
    assert_eq!(cells_of(&f), vec![0, 7, 0]);
    f.add_at(b"hello", 0);
    assert_eq!(cells_of(&f), vec![7, 5, 0]);
    f.decrement_at(1);
    assert_eq!(cells_of(&f), vec![5, 2, 0]);
    f.decrement_at(2);
    assert_eq!(cells_of(&f), vec![3, 0, 0]);
}

// A filter of eight-bit cells into which elements were inserted until no
// cell was zero any more.
fn filled(m: usize, k: usize, p: usize) -> StableBloomFilter {
    let mut f = StableBloomFilter::new(m, 8, k, p);
    let mut i = 0;
    while cells_of(&f).iter().any(|c| *c == 0) {
        assert!(i < 10_000);
        f.add_at(i.to_string().as_bytes(), 0);
        i += 1;
    }
    f
}

#[test]
fn decrement_at_touches_p_cells_each_by_one() {
    let m = 10;
    for offset in 0..m {
        let mut f = filled(m, 3, 4);
        let before = cells_of(&f);
        f.decrement_at(offset);
        let after = cells_of(&f);
        let mut touched = 0;
        for c in 0..m {
            if (c + m - offset) % m < 4 {
                assert_eq!(after[c], before[c] - 1);
                touched += 1;
            } else {
                assert_eq!(after[c], before[c]);
            }
        }
        assert_eq!(touched, 4);
    }
}

#[test]
fn decrement_on_zero_cells_changes_nothing() {
    let mut f = StableBloomFilter::new(12, 4, 2, 30);
    f.decrement_at(7);
    assert_eq!(cells_of(&f), vec![0u8; 12]);
    f.decrement();
    assert_eq!(cells_of(&f), vec![0u8; 12]);
}

#[test]
fn unstable_filter_never_evicts() {
    let mut f = StableBloomFilter::new_unstable(64, 3);
    f.add(b"a");
    let before = cells_of(&f);
    f.decrement();
    f.decrement_at(12);
    assert_eq!(cells_of(&f), before);
    for i in 0..1000 {
        f.add(i.to_string().as_bytes());
    }
    assert!(f.test(b"a"));
    assert_eq!(f.p(), 0);
    assert_eq!(stable_point(&f), 0.0);
    assert_eq!((1.0 - stable_point(&f)).powf(f.k() as f64), 1.0);
}

// A random eviction of one cell lowers exactly one cell by one, and in the
// long run every cell is chosen.
#[test]
fn decrement_starts_at_any_of_the_cells() {
    let m = 4;
    let mut f = filled(m, 3, 1);
    let mut chosen = vec![false; m];
    for _ in 0..200 {
        let before = cells_of(&f);
        f.decrement();
        let after = cells_of(&f);
        let mut lowered = 0;
        for c in 0..m {
            if after[c] != before[c] {
                assert_eq!(after[c], before[c] - 1);
                chosen[c] = true;
                lowered += 1;
            }
        }
        assert_eq!(lowered, 1);
    }
    assert_eq!(chosen, vec![true; m]);
}

// A random run as long as the filter passes every cell once, wherever it
// starts.
#[test]
fn decrement_of_a_full_round_lowers_every_cell() {
    for _ in 0..50 {
        let mut f = filled(8, 2, 8);
        let before = cells_of(&f);
        f.decrement();
        let after = cells_of(&f);
        for c in 0..8 {
            assert_eq!(after[c], before[c] - 1);
        }
    }
}

// The cells of "a" among 16 are 12, 8 and 4; those of "b" are 5, 1 and 13;
// those of "c" are 2, 14 and 10.
#[test]
fn test_and_add_at_reports_the_state_before() {
    let mut f = StableBloomFilter::new(16, 1, 3, 2);
    assert!(!f.test_and_add_at(b"a", 0));
    assert_eq!(cells_of(&f), vec![0, 0, 0, 0, 1, 0, 0, 0, 1, 0, 0, 0, 1, 0, 0, 0]);
    assert!(f.test(b"a"));
    assert!(f.test_and_add_at(b"a", 0));
    assert!(!f.test_and_add_at(b"b", 2));
    assert_eq!(cells_of(&f), vec![0, 1, 0, 0, 1, 1, 0, 0, 1, 0, 0, 0, 1, 1, 0, 0]);
    assert!(f.test(b"a"));
    assert!(f.test(b"b"));
    assert!(!f.test(b"c"));

    // The run over cells 12 and 13 takes one cell from each element.
    f.decrement_at(12);
    assert_eq!(cells_of(&f), vec![0, 1, 0, 0, 1, 1, 0, 0, 1, 0, 0, 0, 0, 0, 0, 0]);
    assert!(!f.test(b"a"));
    assert!(!f.test(b"b"));

    // The eviction may clear a cell that was just inspected: it is set again.
    f.add_at(b"a", 2);
    assert!(f.test_and_add_at(b"a", 12));
    assert_eq!(cells_of(&f), vec![0, 1, 0, 0, 1, 1, 0, 0, 1, 0, 0, 0, 1, 0, 0, 0]);
    assert!(f.test(b"a"));

    // The run wraps round from the last cell to the first.
    assert!(!f.test_and_add_at(b"b", 15));
    assert_eq!(cells_of(&f), vec![0, 1, 0, 0, 1, 1, 0, 0, 1, 0, 0, 0, 1, 1, 0, 0]);
}

#[test]
fn reset_keeps_the_parameters() {
    let mut f = StableBloomFilter::new(20, 2, 3, 5);
    f.add(b"a");
    f.add(b"b");
    assert!(f.test(b"b"));
    assert!(!f.reset().test(b"b"));
    assert_eq!(cells_of(&f), vec![0u8; 20]);
    assert_eq!(f.cells(), 20);
    assert_eq!(f.k(), 3);
    assert_eq!(f.p(), 5);
    assert_eq!(f.max(), 3);
    f.add(b"a");
    assert!(f.test(b"a"));
}

// With cells of no width nothing can be stored.
#[test]
fn filter_of_cells_without_width_holds_nothing() {
    let mut f = StableBloomFilter::new(10, 0, 2, 1);
    assert_eq!(f.max(), 0);
    f.add(b"a");
    assert!(!f.test(b"a"));
    assert!(!f.test_and_add(b"a"));
}

// A filter that addresses no cell per element takes everything for a member.
#[test]
fn filter_without_hash_functions_accepts_everything() {
    let mut f = StableBloomFilter::new_unstable(10, 0);
    assert!(f.test(b"a"));
    assert!(f.test_and_add(b"b"));
    assert_eq!(cells_of(&f), vec![0u8; 10]);
}
