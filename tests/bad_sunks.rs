use sunkmap::bad::{bad_from_coverage, filter_bad_sunks, sunk_coverage, BadSunk};
use sunkmap::map::ReadSunk;

fn cov(ctg: usize, group: u64, count: u64) -> BadSunk {
    BadSunk { ctg, group, count }
}

fn rows_with(counts: &[(usize, u64, u64)]) -> Vec<ReadSunk> {
    let mut rows = Vec::new();
    let mut read = 0;
    for &(ctg, group, n) in counts {
        for _ in 0..n {
            rows.push(ReadSunk { read, rpos: 1, ctg, cpos: group, group });
            read += 1;
        }
    }
    rows
}

#[test]
fn bad_sunk_filter() {
    let table = vec![cov(0, 1, 10), cov(0, 2, 11), cov(0, 3, 10), cov(0, 4, 50), cov(0, 5, 1)];
    assert_eq!(bad_from_coverage(&table), vec![cov(0, 4, 50), cov(0, 5, 1)]);
}

#[test]
fn coverage_counts_rows_per_id() {
    let rows = rows_with(&[(1, 7, 30), (0, 9, 4), (0, 3, 1), (0, 7, 3), (0, 8, 3)]);
    assert_eq!(
        sunk_coverage(&rows),
        vec![cov(0, 3, 1), cov(0, 7, 3), cov(0, 8, 3), cov(0, 9, 4), cov(1, 7, 30)]
    );
    assert_eq!(filter_bad_sunks(&rows), vec![cov(0, 3, 1), cov(1, 7, 30)]);
}

#[test]
fn mode_tie_takes_the_smaller_coverage() {
    let table = vec![cov(0, 1, 5), cov(0, 2, 5), cov(0, 3, 20), cov(0, 4, 20)];
    assert_eq!(bad_from_coverage(&table), vec![cov(0, 3, 20), cov(0, 4, 20)]);
}

#[test]
fn without_mode_only_low_coverage_is_bad() {
    let table = vec![cov(0, 1, 1), cov(0, 2, 2), cov(2, 2, 2)];
    assert_eq!(bad_from_coverage(&table), vec![cov(0, 1, 1)]);
    assert_eq!(bad_from_coverage(&Vec::new()), vec![]);
}

#[test]
fn tail_cut_is_exact() {
    // Mode 4: the cut is 4 + 4 * 2 = 12; 12 stays, 13 is bad.
    let table = vec![cov(0, 1, 4), cov(0, 2, 4), cov(0, 3, 12), cov(0, 4, 13)];
    assert_eq!(bad_from_coverage(&table), vec![cov(0, 4, 13)]);
}
