use sunkmap::assign::{Assignment, Strand};
use sunkmap::map::{get_good_read_sunks, map_sunks_to_reads, ReadSunk};
use sunkmap::sunks::{get_sunk_positions, SunkError, SunkRow};

fn code(s: &str) -> u64 {
    s.bytes().fold(0u64, |acc, b| {
        acc * 4
            + match b {
                b'A' => 0,
                b'C' => 1,
                b'G' => 2,
                _ => 3,
            }
    })
}

fn revcomp(s: &str) -> String {
    s.chars()
        .rev()
        .map(|c| match c {
            'A' => 'T',
            'C' => 'G',
            'G' => 'C',
            _ => 'A',
        })
        .collect()
}

fn random_dna(len: usize, seed: u64) -> String {
    let mut state = seed;
    (0..len)
        .map(|_| {
            state = state.wrapping_mul(6364136223846793005).wrapping_add(1442695040888963407);
            b"ACGT"[(state >> 33) as usize % 4] as char
        })
        .collect()
}

fn rs(read: usize, rpos: u64, ctg: usize, cpos: u64, group: u64) -> ReadSunk {
    ReadSunk { read, rpos, ctg, cpos, group }
}

#[test]
fn mapping_needs_sunks() {
    let reads = vec![b"ACGT".to_vec()];
    assert_eq!(map_sunks_to_reads(&reads, &Vec::new(), 2), Err(SunkError::EmptySunkSet));
}

#[test]
fn mapping_finds_both_strands() {
    let sunks = vec![SunkRow { ctg: 1, cpos: 7, kmer: code("CC"), group: 5 }];
    // GG is the reverse complement of CC; it ends the third window.
    let reads = vec![b"TTGGA".to_vec(), b"ACCA".to_vec(), b"TTTT".to_vec()];
    let rows = map_sunks_to_reads(&reads, &sunks, 2).unwrap();
    assert_eq!(rows, vec![rs(0, 3, 1, 7, 5), rs(1, 2, 1, 7, 5)]);
}

#[test]
fn mapping_keeps_group_anchor() {
    // Two SUNKs of one group seen in one read: the row of the lowest contig
    // position stays, with its own read position.
    let sunks = vec![
        SunkRow { ctg: 0, cpos: 10, kmer: code("AC"), group: 10 },
        SunkRow { ctg: 0, cpos: 11, kmer: code("CA"), group: 10 },
        SunkRow { ctg: 0, cpos: 40, kmer: code("GA"), group: 40 },
    ];
    let reads = vec![b"CAGAAC".to_vec()];
    let rows = map_sunks_to_reads(&reads, &sunks, 2).unwrap();
    assert_eq!(rows, vec![rs(0, 3, 0, 40, 40), rs(0, 5, 0, 10, 10)]);
}

#[test]
fn mapping_a_read_of_the_assembly() {
    let contig = random_dna(300, 21);
    let sunks = get_sunk_positions(&vec![contig.as_bytes().to_vec()], 20, true).unwrap();
    assert_eq!(sunks.len(), 281);
    let fwd = contig[50..150].to_string();
    let rev = revcomp(&contig[50..150]);
    let reads = vec![fwd.as_bytes().to_vec(), rev.as_bytes().to_vec()];
    let rows = map_sunks_to_reads(&reads, &sunks, 20).unwrap();
    // All SUNKs of the contig form one group; each read keeps its anchor.
    assert_eq!(rows, vec![rs(0, 1, 0, 51, 1), rs(1, 81, 0, 51, 1)]);
}

#[test]
fn good_read_sunks_follow_assignment() {
    let rows = vec![rs(0, 1, 0, 10, 10), rs(0, 5, 1, 20, 20), rs(1, 3, 1, 30, 30), rs(2, 4, 0, 5, 5)];
    let best = vec![
        Assignment { read: 0, ctg: 1, sunks_within_bandwidth: 2, ort: Strand::Plus },
        Assignment { read: 1, ctg: 1, sunks_within_bandwidth: 3, ort: Strand::Minus },
    ];
    assert_eq!(get_good_read_sunks(&rows, &best), vec![rs(0, 5, 1, 20, 20), rs(1, 3, 1, 30, 30)]);
}
