//! Percentiles, tables and numbers in words.

use systems_study::stats::{csv_row, median, summarise, Stats, Summary};
use systems_study::text::{csv_key, push_decimal, push_hexadecimal};

/// The nearest rank, by rounding in floating point.
fn rounded(sorted: &[u64], p: f64) -> u64 {
    sorted[((sorted.len() - 1) as f64 * p).round() as usize]
}

#[test]
fn percentiles_are_those_of_the_nearest_rank() {
    let mut v: Vec<u64> = (0..=1000).rev().collect();
    let s = Stats::from(&mut v);
    assert_eq!(
        s,
        Stats { n: 1001, min: 0, p50: 500, p90: 900, p99: 990, p999: 999, max: 1000 }
    );
    assert_eq!(v, (0..=1000).collect::<Vec<u64>>());
}

#[test]
fn ranks_round_as_floating_point_does() {
    for n in 1..=3000usize {
        let sorted: Vec<u64> = (0..n as u64).map(|x| x * 3).collect();
        let mut v = sorted.clone();
        v.reverse();
        let s = Stats::from(&mut v);
        assert_eq!(s.n, n);
        assert_eq!(s.p50, rounded(&sorted, 0.50), "{n}");
        assert_eq!(s.p90, rounded(&sorted, 0.90), "{n}");
        assert_eq!(s.p99, rounded(&sorted, 0.99), "{n}");
        assert_eq!(s.p999, rounded(&sorted, 0.999), "{n}");
        assert_eq!(v, sorted);
    }
}

#[test]
fn one_sample_is_every_percentile() {
    let s = Stats::from(&mut [7]);
    assert_eq!(s, Stats { n: 1, min: 7, p50: 7, p90: 7, p99: 7, p999: 7, max: 7 });
}

#[test]
fn the_order_of_the_samples_does_not_matter() {
    let mut a = [9, 1, 5, 5, 3, 200, 0];
    let mut b = [0, 5, 200, 3, 9, 5, 1];
    assert_eq!(Stats::from(&mut a), Stats::from(&mut b));
    assert_eq!(a, b);
    assert_eq!(a, [0, 1, 3, 5, 5, 9, 200]);
}

#[test]
fn percentiles_ascend() {
    let mut v: Vec<u64> = (0..777u64).map(|x| x.wrapping_mul(2_654_435_761) % 1013).collect();
    let s = Stats::from(&mut v);
    assert!(s.min <= s.p50 && s.p50 <= s.p90 && s.p90 <= s.p99);
    assert!(s.p99 <= s.p999 && s.p999 <= s.max);
}

#[test]
fn a_short_table_has_two_percentiles() {
    let mut v: Vec<u64> = (1..=100).rev().collect();
    assert_eq!(summarise(&mut v), Summary { p50: 51, p99: 99 });
}

#[test]
fn the_median_of_an_even_number_is_the_later_of_two() {
    assert_eq!(median(&mut [4, 1, 3, 2]), 3);
    assert_eq!(median(&mut [30, 10, 20]), 20);
    assert_eq!(median(&mut [5]), 5);
}

#[test]
fn rows_and_keys_need_no_quoting() {
    assert_eq!(csv_row("io_exit", 0, 1234), "io_exit,0,1234");
    assert_eq!(csv_row("walk_4_desc", 10, u64::MAX), "walk_4_desc,10,18446744073709551615");
    assert_eq!(
        csv_key("uffd batch=1, SMT sibling (spin)"),
        "uffd_batch_1__SMT_sibling__spin_"
    );
    assert_eq!(csv_key("naïve_9"), "na_ve_9");
    assert_eq!(csv_key(""), "");
}

#[test]
fn numbers_are_written_as_the_standard_library_writes_them() {
    for n in [0, 1, 9, 10, 255, 256, 65535, 1_000_000, u64::MAX] {
        let mut s = String::from("n=");
        push_decimal(&mut s, n);
        assert_eq!(s, format!("n={n}"));
        let mut s = String::from("n=");
        push_hexadecimal(&mut s, n);
        assert_eq!(s, format!("n={n:#x}"));
    }
}
