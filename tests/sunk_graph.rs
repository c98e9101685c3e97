use sunkmap::bad::BadSunk;
use sunkmap::graph::{
    create_sunk_graph, get_contig_sunk_graph_components, get_read_largest_sunk_graph_component, BedRow,
};
use sunkmap::map::ReadSunk;

fn rs(read: usize, rpos: u64, cpos: u64, id: u64) -> ReadSunk {
    ReadSunk { read, rpos, ctg: 0, cpos, group: id }
}

fn sorted(mut v: Vec<u64>) -> Vec<u64> {
    v.sort();
    v
}

fn one_read_rows(read: usize) -> Vec<ReadSunk> {
    (1..=4).map(|id| rs(read, 1000 * id + 17, 1000 * id, id)).collect()
}

#[test]
fn graph_components() {
    let rows = one_read_rows(0);
    let c = get_read_largest_sunk_graph_component(&rows).unwrap();
    assert_eq!(sorted(c), vec![1, 2, 3, 4]);
    let g = create_sunk_graph(0, &rows, &vec![20000], &Vec::new());
    assert_eq!(g.bed, vec![BedRow { ctg: 0, st: 1, end: 4, sunks: 4 }]);
    assert_eq!(g.reads, vec![0, 0, 0, 0]);
    assert_eq!(sorted(g.ids), vec![1, 2, 3, 4]);
}

#[test]
fn no_pair_in_band() {
    // Read distances twice the contig distances.
    let rows = vec![rs(0, 100, 100, 1), rs(0, 300, 200, 2), rs(0, 500, 300, 3)];
    assert_eq!(get_read_largest_sunk_graph_component(&rows), None);
    // Ratios of exactly 0.9 or 1.1 are out of band.
    let rows = vec![rs(0, 100, 100, 1), rs(0, 190, 200, 2)];
    assert_eq!(get_read_largest_sunk_graph_component(&rows), None);
    let rows = vec![rs(0, 100, 100, 1), rs(0, 210, 200, 2)];
    assert_eq!(get_read_largest_sunk_graph_component(&rows), None);
    let rows = vec![rs(0, 100, 100, 1), rs(0, 209, 200, 2)];
    assert_eq!(sorted(get_read_largest_sunk_graph_component(&rows).unwrap()), vec![1, 2]);
}

#[test]
fn largest_of_two_components() {
    let rows = vec![
        rs(0, 100, 100, 1),
        rs(0, 200, 200, 2),
        rs(0, 5000, 1000, 5),
        rs(0, 5100, 1100, 6),
        rs(0, 5200, 1200, 7),
    ];
    assert_eq!(sorted(get_read_largest_sunk_graph_component(&rows).unwrap()), vec![5, 6, 7]);
}

#[test]
fn minority_direction_is_dropped() {
    // Ids 1..3 ascend on the read; id 9 sits in band with 3 but descending.
    let rows = vec![rs(0, 100, 100, 1), rs(0, 200, 200, 2), rs(0, 300, 300, 3), rs(0, 200, 400, 9)];
    assert_eq!(sorted(get_read_largest_sunk_graph_component(&rows).unwrap()), vec![1, 2, 3]);
}

#[test]
fn contig_components_to_bed() {
    let rnames = vec![0, 0, 0, 1, 1, 2, 2];
    let ids = vec![1, 2, 3, 3, 4, 9, 10];
    assert_eq!(
        get_contig_sunk_graph_components(5, &rnames, &ids),
        vec![BedRow { ctg: 5, st: 1, end: 4, sunks: 4 }]
    );
    assert_eq!(get_contig_sunk_graph_components(5, &Vec::new(), &Vec::new()), vec![]);
}

#[test]
fn graph_drops_bad_short_and_other_contig_rows() {
    let mut rows = one_read_rows(0);
    rows.extend(one_read_rows(1));
    rows.push(ReadSunk { read: 0, rpos: 9017, ctg: 3, cpos: 9000, group: 9 });
    let bad = vec![BadSunk { ctg: 0, group: 4, count: 99 }];
    // Read 1 is too short.
    let g = create_sunk_graph(0, &rows, &vec![20000, 10000], &bad);
    assert_eq!(g.reads, vec![0, 0, 0]);
    assert_eq!(sorted(g.ids), vec![1, 2, 3]);
    assert_eq!(g.bed, vec![BedRow { ctg: 0, st: 1, end: 3, sunks: 3 }]);
    // A read with a single id contributes nothing.
    let rows = vec![rs(0, 100, 100, 1), rs(0, 101, 101, 1)];
    let g = create_sunk_graph(0, &rows, &vec![20000], &Vec::new());
    assert!(g.reads.is_empty() && g.bed.is_empty());
}

#[test]
fn dropping_an_id_only_shrinks_components() {
    let rnames = vec![0, 0, 0, 1, 1];
    let ids = vec![1, 2, 3, 3, 4];
    assert_eq!(
        get_contig_sunk_graph_components(0, &rnames, &ids),
        vec![BedRow { ctg: 0, st: 1, end: 4, sunks: 4 }]
    );
    // Without id 3 the component splits into {1, 2} and {4}.
    assert_eq!(get_contig_sunk_graph_components(0, &vec![0, 0, 1], &vec![1, 2, 4]), vec![]);
}
