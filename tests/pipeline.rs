use sunkmap::assign::assign_read_to_ctg_w_ort;
use sunkmap::bad::filter_bad_sunks;
use sunkmap::graph::create_sunk_graph;
use sunkmap::map::{get_good_read_sunks, map_sunks_to_reads};
use sunkmap::sunks::get_sunk_positions;

fn random_dna(len: usize, seed: u64) -> String {
    let mut state = seed;
    (0..len)
        .map(|_| {
            state = state.wrapping_mul(6364136223846793005).wrapping_add(1442695040888963407);
            b"ACGT"[(state >> 33) as usize % 4] as char
        })
        .collect()
}

/// Every stage's table, from one assembly and one read set.
fn run() -> String {
    let a = random_dna(120, 31);
    let b = random_dna(90, 32);
    // Runs of unique sequence separated by `N`, so that groups differ.
    let contig = format!("{}N{}N{}", &a[..40], &a[40..80], &a[80..]);
    let assembly = vec![contig.as_bytes().to_vec(), b.as_bytes().to_vec()];
    let reads: Vec<Vec<u8>> = vec![
        contig[5..115].as_bytes().to_vec(),
        b[10..80].as_bytes().to_vec(),
        contig[30..100].as_bytes().to_vec(),
    ];
    let sunks = get_sunk_positions(&assembly, 20, true).unwrap();
    let mapped = map_sunks_to_reads(&reads, &sunks, 20).unwrap();
    let best = assign_read_to_ctg_w_ort(&mapped, None, None);
    let good = get_good_read_sunks(&mapped, &best);
    let bad = filter_bad_sunks(&good);
    let g = create_sunk_graph(0, &mapped, &vec![20000, 20000, 20000], &bad);
    format!("{sunks:?}\n{mapped:?}\n{best:?}\n{good:?}\n{bad:?}\n{:?} {:?} {:?}", g.reads, g.ids, g.bed)
}

#[test]
fn stages_are_deterministic() {
    let first = run();
    assert_eq!(first, run());
    assert!(first.contains("Plus"));
}

#[test]
fn pipeline_assigns_reads_to_their_contigs() {
    let a = random_dna(120, 31);
    let contig = format!("{}N{}N{}", &a[..40], &a[40..80], &a[80..]);
    let b = random_dna(90, 32);
    let assembly = vec![contig.as_bytes().to_vec(), b.as_bytes().to_vec()];
    let reads: Vec<Vec<u8>> = vec![contig[5..115].as_bytes().to_vec(), b[10..80].as_bytes().to_vec()];
    let sunks = get_sunk_positions(&assembly, 20, true).unwrap();
    let mapped = map_sunks_to_reads(&reads, &sunks, 20).unwrap();
    let best = assign_read_to_ctg_w_ort(&mapped, None, None);
    // Read 0 spans three groups of contig 0; read 1 sits in the single run of
    // contig 1 and so has one row only.
    assert_eq!(best.len(), 1);
    assert_eq!((best[0].read, best[0].ctg, best[0].sunks_within_bandwidth), (0, 0, 3));
}
