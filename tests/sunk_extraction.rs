use sunkmap::sunks::{get_kmer_counts_pos, get_sunk_positions, SunkRow};

fn seqs(list: &[&str]) -> Vec<Vec<u8>> {
    list.iter().map(|s| s.as_bytes().to_vec()).collect()
}

/// Two-bit code of a k-mer string, first base most significant.
fn code(s: &str) -> u64 {
    s.bytes().fold(0u64, |acc, b| {
        acc * 4
            + match b {
                b'A' => 0,
                b'C' => 1,
                b'G' => 2,
                _ => 3,
            }
    })
}

fn revcomp_code(c: u64, k: usize) -> u64 {
    let mut out = 0u64;
    let mut x = c;
    for _ in 0..k {
        out = out * 4 + (3 - (x & 3));
        x >>= 2;
    }
    out
}

/// A deterministic pseudo-random nucleotide string.
fn random_dna(len: usize, seed: u64) -> String {
    let mut state = seed;
    (0..len)
        .map(|_| {
            state = state.wrapping_mul(6364136223846793005).wrapping_add(1442695040888963407);
            b"ACGT"[(state >> 33) as usize % 4] as char
        })
        .collect()
}

#[test]
fn kmer_counts_and_first_positions() {
    let m = get_kmer_counts_pos(&b"AAAC".to_vec(), 2);
    assert_eq!(m.len(), 4);
    assert_eq!(m[&code("AA")], (2, 1));
    assert_eq!(m[&code("TT")], (2, 1));
    assert_eq!(m[&code("AC")], (1, 3));
    assert_eq!(m[&code("GT")], (1, 3));
}

#[test]
fn kmer_counts_skip_non_bases() {
    let m = get_kmer_counts_pos(&b"ANA".to_vec(), 2);
    assert!(m.is_empty());
    let m = get_kmer_counts_pos(&b"acN".to_vec(), 2);
    assert_eq!(m[&code("AC")], (1, 1));
}

#[test]
fn sunks_keep_globally_unique_kmers() {
    // AA, TT, AC, GT and the palindrome TA occur twice overall; only GG/CC
    // at the start of the second contig is unique.
    let rows = get_sunk_positions(&seqs(&["AAAC", "GGTA"]), 2, true).unwrap();
    assert_eq!(rows, vec![SunkRow { ctg: 1, cpos: 1, kmer: code("CC"), group: 1 }]);
}

#[test]
fn sunks_without_canonical_keep_both_strands() {
    let rows = get_sunk_positions(&seqs(&["AAAC", "GGTA"]), 2, false).unwrap();
    assert_eq!(
        rows,
        vec![
            SunkRow { ctg: 1, cpos: 1, kmer: code("GG"), group: 1 },
            SunkRow { ctg: 1, cpos: 1, kmer: code("CC"), group: 1 },
        ]
    );
}

#[test]
fn sunks_of_empty_assembly() {
    assert_eq!(get_sunk_positions(&Vec::new(), 20, true).unwrap(), vec![]);
    assert_eq!(get_sunk_positions(&seqs(&[""]), 20, true).unwrap(), vec![]);
}

#[test]
fn sunk_groups_follow_runs_of_adjacent_positions() {
    // Three unique blocks separated by `N`: each block is one run.
    let a = random_dna(30, 1);
    let b = random_dna(25, 2);
    let c = random_dna(22, 3);
    let contig = format!("{a}N{b}N{c}");
    let rows = get_sunk_positions(&seqs(&[&contig]), 20, true).unwrap();
    assert_eq!(rows.len(), 11 + 6 + 3);
    let starts: Vec<u64> = rows.iter().map(|r| r.cpos).collect();
    let expected: Vec<u64> = (1..=11).chain(32..=37).chain(58..=60).collect();
    assert_eq!(starts, expected);
    for r in &rows {
        let g = if r.cpos <= 11 {
            1
        } else if r.cpos <= 37 {
            32
        } else {
            58
        };
        assert_eq!(r.group, g);
    }
}

#[test]
fn canonical_sunks_are_closed_under_reverse_complement() {
    let genome = seqs(&[&random_dna(400, 7), &random_dna(300, 8)]);
    let rows = get_sunk_positions(&genome, 20, true).unwrap();
    assert!(!rows.is_empty());
    let labels: std::collections::HashSet<u64> = rows.iter().map(|r| r.kmer).collect();
    for r in &rows {
        let rc = revcomp_code(r.kmer, 20);
        assert!(r.kmer <= rc);
        assert!(!labels.contains(&rc) || rc == r.kmer);
    }
    for w in rows.windows(2) {
        assert!((w[0].ctg, w[0].cpos) < (w[1].ctg, w[1].cpos));
    }
}

#[test]
fn every_sunk_occurs_once_in_the_assembly() {
    let a = random_dna(120, 11);
    let genome = seqs(&[&a, &a[40..80], &random_dna(90, 12)]);
    let rows = get_sunk_positions(&genome, 20, true).unwrap();
    let text: Vec<String> = genome.iter().map(|s| String::from_utf8(s.clone()).unwrap()).collect();
    for r in &rows {
        let mut count = 0;
        for s in &text {
            for i in 0..=(s.len().saturating_sub(20)) {
                if s.len() >= 20 {
                    let c = code(&s[i..i + 20]);
                    if c == r.kmer {
                        count += 1;
                    }
                    if revcomp_code(c, 20) == r.kmer {
                        count += 1;
                    }
                }
            }
        }
        assert_eq!(count, 1);
    }
    // The copied stretch of the first contig yields no SUNK there.
    assert!(rows.iter().all(|r| r.ctg != 1));
    assert!(rows.iter().all(|r| r.ctg != 0 || r.cpos < 41 || r.cpos > 61));
    assert!(rows.iter().any(|r| r.ctg == 0 && r.cpos == 40));
    assert!(rows.iter().any(|r| r.ctg == 0 && r.cpos == 62));
}
