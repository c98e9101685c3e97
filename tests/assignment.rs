use sunkmap::assign::{assign_read_to_ctg_w_ort, Assignment, Strand};
use sunkmap::map::ReadSunk;

const A: usize = 0;
const B: usize = 1;

fn rs(read: usize, rpos: u64, ctg: usize, cpos: u64, group: u64) -> ReadSunk {
    ReadSunk { read, rpos, ctg, cpos, group }
}

fn asg(read: usize, ctg: usize, n: u64, ort: Strand) -> Assignment {
    Assignment { read, ctg, sunks_within_bandwidth: n, ort }
}

#[test]
fn single_contig_forward_read() {
    let rows = vec![rs(1, 5, A, 10, 10), rs(1, 6, A, 11, 10), rs(1, 7, A, 12, 10), rs(1, 45, A, 50, 50)];
    assert_eq!(assign_read_to_ctg_w_ort(&rows, None, None), vec![asg(1, A, 4, Strand::Plus)]);
}

#[test]
fn reverse_complement_read() {
    let rows = vec![rs(2, 50, A, 50, 50), rs(2, 88, A, 12, 10), rs(2, 89, A, 11, 10), rs(2, 90, A, 10, 10)];
    assert_eq!(assign_read_to_ctg_w_ort(&rows, None, None), vec![asg(2, A, 4, Strand::Minus)]);
}

#[test]
fn two_contigs_ambiguous() {
    let rows = vec![
        rs(3, 5, A, 105, 105),
        rs(3, 9, B, 509, 509),
        rs(3, 20, A, 120, 120),
        rs(3, 30, B, 530, 530),
        rs(3, 40, A, 140, 140),
        rs(3, 60, A, 160, 160),
    ];
    assert_eq!(assign_read_to_ctg_w_ort(&rows, None, None), vec![asg(3, A, 4, Strand::Plus)]);
}

#[test]
fn below_threshold() {
    let rows = vec![rs(4, 5, A, 105, 105)];
    assert_eq!(assign_read_to_ctg_w_ort(&rows, None, None), vec![]);
    // Two in-band SUNKs pass the default threshold of one.
    let rows = vec![rs(4, 5, A, 105, 105), rs(4, 25, A, 125, 125)];
    assert_eq!(assign_read_to_ctg_w_ort(&rows, None, None), vec![asg(4, A, 2, Strand::Plus)]);
    assert_eq!(assign_read_to_ctg_w_ort(&rows, None, Some(2)), vec![]);
}

#[test]
fn bandwidth_is_strict() {
    // Offsets 0, 0 and 2500: the median is 0 and 2500 is not within 2500.
    let rows = vec![rs(5, 10, A, 10, 10), rs(5, 20, A, 20, 20), rs(5, 30, A, 2530, 2530)];
    assert_eq!(assign_read_to_ctg_w_ort(&rows, None, None), vec![asg(5, A, 2, Strand::Plus)]);
    assert_eq!(assign_read_to_ctg_w_ort(&rows, Some(2501), None), vec![asg(5, A, 3, Strand::Plus)]);
}

#[test]
fn even_median_is_the_mean_of_the_middle_pair() {
    // Offsets 0, 10, 20, 30: median 15; with bandwidth 10 only 10 and 20 are in.
    let rows = vec![rs(6, 10, A, 10, 1), rs(6, 20, A, 30, 2), rs(6, 30, A, 50, 3), rs(6, 40, A, 70, 4)];
    assert_eq!(assign_read_to_ctg_w_ort(&rows, Some(10), Some(0)), vec![asg(6, A, 2, Strand::Plus)]);
}

#[test]
fn tie_goes_to_the_lower_contig_and_reads_stay_unique() {
    let rows = vec![
        rs(7, 5, B, 105, 105),
        rs(7, 6, A, 206, 206),
        rs(7, 25, B, 125, 125),
        rs(7, 26, A, 226, 226),
        rs(8, 1, A, 1, 1),
        rs(9, 3, B, 13, 13),
        rs(9, 8, B, 18, 18),
        rs(9, 9, B, 19, 19),
    ];
    assert_eq!(
        assign_read_to_ctg_w_ort(&rows, None, None),
        vec![asg(7, A, 2, Strand::Plus), asg(9, B, 3, Strand::Plus)]
    );
}

#[test]
fn mixed_direction_is_minus() {
    // Contig positions ascend while read positions descend.
    let rows = vec![rs(10, 90, A, 10, 10), rs(10, 80, A, 20, 20), rs(10, 70, A, 30, 30)];
    assert_eq!(assign_read_to_ctg_w_ort(&rows, None, None), vec![asg(10, A, 3, Strand::Minus)]);
}
