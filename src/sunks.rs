use std::collections::HashMap;
use vstd::prelude::*;

use crate::kmer::{kmer_windows, lemma_windows_bounds, start_of, windows, Window};

verus! {

broadcast use vstd::std_specs::hash::group_hash_axioms;

/// Times code `c` occurs among the strands of the windows `ws`.
pub open spec fn occ(ws: Seq<Window>, c: u64) -> nat
    decreases ws.len(),
{
    if ws.len() == 0 {
        0
    } else {
        let w = ws.last();
        occ(ws.drop_last(), c) + (if w.1 == c {
            1nat
        } else {
            0nat
        }) + (if w.2 == c {
            1nat
        } else {
            0nat
        })
    }
}

/// Times code `c` occurs among the strands of all windows of all sequences.
pub open spec fn occ_all(wss: Seq<Seq<Window>>, c: u64) -> nat
    decreases wss.len(),
{
    if wss.len() == 0 {
        0
    } else {
        occ_all(wss.drop_last(), c) + occ(wss.last(), c)
    }
}

pub open spec fn seq_windows(seqs: Seq<Vec<u8>>, k: int) -> Seq<Seq<Window>> {
    seqs.map_values(|s: Vec<u8>| windows(s@, k))
}

/// Number of times k-mer `c` occurs, on either strand, across all sequences.
pub open spec fn global_count(seqs: Seq<Vec<u8>>, k: int, c: u64) -> nat {
    occ_all(seq_windows(seqs, k), c)
}

pub open spec fn min2(n: nat) -> nat {
    if n >= 2 {
        2
    } else {
        n
    }
}

/// The labels that one window contributes to the SUNK table: each strand
/// that is unique genome-wide; with `canonical`, only the smaller code when
/// both strands are.
pub open spec fn window_labels(w: Window, x_unique: bool, y_unique: bool, canonical: bool) -> Seq<
    u64,
> {
    if canonical && x_unique && y_unique {
        seq![if w.1 <= w.2 { w.1 } else { w.2 }]
    } else {
        (if x_unique {
            seq![w.1]
        } else {
            Seq::empty()
        }) + (if y_unique {
            seq![w.2]
        } else {
            Seq::empty()
        })
    }
}

pub open spec fn labels_of(seqs: Seq<Vec<u8>>, k: int, canonical: bool, w: Window) -> Seq<u64> {
    window_labels(
        w,
        global_count(seqs, k, w.1) == 1,
        global_count(seqs, k, w.2) == 1,
        canonical,
    )
}

/// `(ctg, cpos, kmer)` rows that window `w` of sequence `i` contributes.
pub open spec fn window_rows(seqs: Seq<Vec<u8>>, k: int, canonical: bool, i: int, w: Window) -> Seq<
    (usize, u64, u64),
> {
    labels_of(seqs, k, canonical, w).map_values(
        |c: u64| (i as usize, start_of(w.0 as int, k) as u64, c),
    )
}

pub open spec fn rows_in(
    seqs: Seq<Vec<u8>>,
    k: int,
    canonical: bool,
    i: int,
    ws: Seq<Window>,
) -> Seq<(usize, u64, u64)>
    decreases ws.len(),
{
    if ws.len() == 0 {
        Seq::empty()
    } else {
        rows_in(seqs, k, canonical, i, ws.drop_last()) + window_rows(
            seqs,
            k,
            canonical,
            i,
            ws.last(),
        )
    }
}

pub open spec fn rows_upto(seqs: Seq<Vec<u8>>, k: int, canonical: bool, n: int) -> Seq<
    (usize, u64, u64),
>
    decreases n,
{
    if n <= 0 {
        Seq::empty()
    } else {
        rows_upto(seqs, k, canonical, n - 1) + rows_in(
            seqs,
            k,
            canonical,
            n - 1,
            windows(seqs[n - 1]@, k),
        )
    }
}

/// The SUNK table without its groups: sequence by sequence, window by
/// window, the labels of each window at the window's one-based start.
pub open spec fn sunk_rows(seqs: Seq<Vec<u8>>, k: int, canonical: bool) -> Seq<(usize, u64, u64)> {
    rows_upto(seqs, k, canonical, seqs.len() as int)
}


/// One SUNK of the assembly: its contig (index of the sequence), the
/// one-based position of its first base, its k-mer code and its group, the
/// position of the first SUNK of the run of adjacent SUNKs it belongs to.
#[derive(Clone, Copy, Debug, PartialEq, Eq)]
pub struct SunkRow {
    pub ctg: usize,
    pub cpos: u64,
    pub kmer: u64,
    pub group: u64,
}

#[derive(Clone, Copy, Debug, PartialEq, Eq)]
pub enum SunkError {
    /// A sequence is longer than a 32-bit position can address.
    SequenceTooLong,
    /// No SUNK was given to map.
    EmptySunkSet,
}

/// Row `j` starts a new run of adjacent SUNKs.
pub open spec fn run_start(rows: Seq<SunkRow>, j: int) -> bool {
    j == 0 || rows[j].ctg != rows[j - 1].ctg || rows[j].cpos > rows[j - 1].cpos + 1
}

/// `rows` is the SUNK table of `seqs`: the rows of `sunk_rows` in order, each
/// with the group of its run.
pub open spec fn sunk_table(seqs: Seq<Vec<u8>>, k: int, canonical: bool, rows: Seq<SunkRow>) -> bool {
    let base = sunk_rows(seqs, k, canonical);
    &&& rows.len() == base.len()
    &&& forall|j: int|
        0 <= j < rows.len() ==> (#[trigger] rows[j].ctg, rows[j].cpos, rows[j].kmer) == base[j]
    &&& forall|j: int|
        0 <= j < rows.len() ==> #[trigger] rows[j].group == if run_start(rows, j) {
            rows[j].cpos
        } else {
            rows[j - 1].group
        }
}

/// Where a row of the SUNK table comes from: a window of its contig that
/// starts at its position and whose labels hold its k-mer.
pub open spec fn from_window(seqs: Seq<Vec<u8>>, k: int, canonical: bool, row: (usize, u64, u64)) -> bool {
    &&& row.0 < seqs.len()
    &&& exists|t: int|
        0 <= t < windows(seqs[row.0 as int]@, k).len() && {
            let w = #[trigger] windows(seqs[row.0 as int]@, k)[t];
            start_of(w.0 as int, k) == row.1 && labels_of(seqs, k, canonical, w).contains(row.2)
        }
}

fn bump(counts: &mut HashMap<u64, u64>, c: u64)
    requires
        forall|d: u64| old(counts)@.contains_key(d) ==> old(counts)@[d] <= 2,
    ensures
        final(counts)@ == old(counts)@.insert(
            c,
            min2(
                (if old(counts)@.contains_key(c) {
                    old(counts)@[c] as nat
                } else {
                    0nat
                }) + 1,
            ) as u64,
        ),
{
    let v: u64 = match counts.get(&c) {
        Some(v) => *v,
        None => 0,
    };
    let nv: u64 = if v >= 2 {
        2
    } else {
        v + 1
    };
    counts.insert(c, nv);
}

/// Counts, capped at 2, of every k-mer code over both strands of every
/// window of every sequence.
fn count_kmers(seqs: &Vec<Vec<u8>>, k: usize) -> (counts: HashMap<u64, u64>)
    requires
        1 <= k <= 31,
    ensures
        forall|c: u64|
            (#[trigger] counts@.contains_key(c) <==> global_count(seqs@, k as int, c) > 0) && (
            counts@.contains_key(c) ==> counts@[c] == min2(global_count(seqs@, k as int, c))),
{
    let mut counts: HashMap<u64, u64> = HashMap::new();
    let n = seqs.len();
    let mut i: usize = 0;
    while i < n
        invariant
            n == seqs.len(),
            0 <= i <= n,
            1 <= k <= 31,
            forall|c: u64|
                (#[trigger] counts@.contains_key(c) <==> occ_all(
                    seq_windows(seqs@.take(i as int), k as int),
                    c,
                ) > 0) && (counts@.contains_key(c) ==> counts@[c] == min2(
                    occ_all(seq_windows(seqs@.take(i as int), k as int), c),
                )),
        decreases n - i,
    {
        let ws = kmer_windows(k, &seqs[i]);
        let ghost before = seq_windows(seqs@.take(i as int), k as int);
        let mut t: usize = 0;
        while t < ws.len()
            invariant
                1 <= k <= 31,
                0 <= t <= ws.len(),
                forall|c: u64|
                    (#[trigger] counts@.contains_key(c) <==> occ_all(before, c) + occ(
                        ws@.take(t as int),
                        c,
                    ) > 0) && (counts@.contains_key(c) ==> counts@[c] == min2(
                        occ_all(before, c) + occ(ws@.take(t as int), c),
                    )),
            decreases ws.len() - t,
        {
            let w = ws[t];
            assert(ws@.take(t + 1).drop_last() =~= ws@.take(t as int));
            bump(&mut counts, w.1);
            bump(&mut counts, w.2);
            t += 1;
        }
        assert(ws@.take(ws.len() as int) =~= ws@);
        assert(seq_windows(seqs@.take(i + 1), k as int).drop_last() =~= before);
        i += 1;
    }
    assert(seqs@.take(n as int) =~= seqs@);
    counts
}


pub open spec fn pos_le(a: (usize, u64, u64), b: (usize, u64, u64)) -> bool {
    a.0 < b.0 || (a.0 == b.0 && a.1 <= b.1)
}

pub open spec fn pos_lt(a: (usize, u64, u64), b: (usize, u64, u64)) -> bool {
    a.0 < b.0 || (a.0 == b.0 && a.1 < b.1)
}

pub open spec fn key_of(r: SunkRow) -> (usize, u64, u64) {
    (r.ctg, r.cpos, r.kmer)
}

/// A label of a window is one of its strands, unique genome-wide; with
/// `canonical`, a window whose two strands are both unique gives the
/// smaller one only.
pub proof fn lemma_label_of_window(seqs: Seq<Vec<u8>>, k: int, canonical: bool, w: Window, c: u64)
    requires
        labels_of(seqs, k, canonical, w).contains(c),
    ensures
        (c == w.1 && global_count(seqs, k, w.1) == 1) || (c == w.2 && global_count(seqs, k, w.2)
            == 1),
        canonical && global_count(seqs, k, w.1) == 1 && global_count(seqs, k, w.2) == 1 ==> c == (
        if w.1 <= w.2 {
            w.1
        } else {
            w.2
        }),
        canonical ==> labels_of(seqs, k, canonical, w).len() <= 1,
{
    let l = labels_of(seqs, k, canonical, w);
    let j = choose|j: int| 0 <= j < l.len() && l[j] == c;
}

fn labels_exec(
    seqs: &Vec<Vec<u8>>,
    k: usize,
    counts: &HashMap<u64, u64>,
    w: Window,
    canonical: bool,
) -> (r: Vec<u64>)
    requires
        forall|c: u64|
            (#[trigger] counts@.contains_key(c) <==> global_count(seqs@, k as int, c) > 0) && (
            counts@.contains_key(c) ==> counts@[c] == min2(global_count(seqs@, k as int, c))),
    ensures
        r@ == labels_of(seqs@, k as int, canonical, w),
{
    let xu = match counts.get(&w.1) {
        Some(v) => *v == 1,
        None => false,
    };
    let yu = match counts.get(&w.2) {
        Some(v) => *v == 1,
        None => false,
    };
    let mut r: Vec<u64> = Vec::new();
    if canonical && xu && yu {
        r.push(
            if w.1 <= w.2 {
                w.1
            } else {
                w.2
            },
        );
    } else {
        if xu {
            r.push(w.1);
        }
        if yu {
            r.push(w.2);
        }
    }
    assert(r@ =~= labels_of(seqs@, k as int, canonical, w));
    r
}

/// The SUNK table of an assembly (`seqs`, one entry per contig): every
/// window of `kmer_size` bases whose k-mer occurs once, on either strand,
/// across the whole assembly, at the one-based position of its first base,
/// ordered by contig and position, with the group of its run of adjacent
/// SUNKs. With `canonical`, a window whose two strands are both unique is
/// kept once, under the smaller code.
pub fn get_sunk_positions(seqs: &Vec<Vec<u8>>, kmer_size: usize, canonical: bool) -> (r: Result<
    Vec<SunkRow>,
    SunkError,
>)
    requires
        1 <= kmer_size <= 31,
    ensures
        r is Err <==> exists|i: int| 0 <= i < seqs.len() && #[trigger] seqs[i].len() > u32::MAX,
        r is Err ==> r == Err::<Vec<SunkRow>, SunkError>(SunkError::SequenceTooLong),
        r matches Ok(rows) ==> {
            &&& sunk_table(seqs@, kmer_size as int, canonical, rows@)
            &&& forall|j: int|
                0 <= j < rows.len() ==> from_window(
                    seqs@,
                    kmer_size as int,
                    canonical,
                    #[trigger] key_of(rows[j]),
                )
            &&& forall|j: int|
                0 <= j < rows.len() ==> global_count(seqs@, kmer_size as int, #[trigger] rows[j].kmer)
                    == 1
            &&& forall|j1: int, j2: int|
                0 <= j1 < j2 < rows.len() ==> pos_le(
                    #[trigger] key_of(rows[j1]),
                    #[trigger] key_of(rows[j2]),
                ) && (canonical ==> pos_lt(key_of(rows[j1]), key_of(rows[j2])))
            &&& forall|j: int| 0 <= j < rows.len() ==> 1 <= #[trigger] rows[j].group <= rows[j].cpos
        },
{
    let k = kmer_size;
    let n = seqs.len();
    let mut i: usize = 0;
    while i < n
        invariant
            n == seqs.len(),
            0 <= i <= n,
            forall|q: int| 0 <= q < i ==> #[trigger] seqs[q].len() <= u32::MAX,
        decreases n - i,
    {
        if seqs[i].len() > 4294967295 {
            return Err(SunkError::SequenceTooLong);
        }
        i += 1;
    }
    let counts = count_kmers(seqs, k);
    let mut base: Vec<(usize, u64, u64)> = Vec::new();
    let mut i: usize = 0;
    while i < n
        invariant
            n == seqs.len(),
            0 <= i <= n,
            1 <= k <= 31,
            forall|q: int| 0 <= q < n ==> #[trigger] seqs[q].len() <= u32::MAX,
            forall|c: u64|
                (#[trigger] counts@.contains_key(c) <==> global_count(seqs@, k as int, c) > 0) && (
                counts@.contains_key(c) ==> counts@[c] == min2(global_count(seqs@, k as int, c))),
            base@ == rows_upto(seqs@, k as int, canonical, i as int),
            forall|j: int|
                0 <= j < base.len() ==> from_window(seqs@, k as int, canonical, #[trigger] base[j]),
            forall|j: int| 0 <= j < base.len() ==> (#[trigger] base[j]).0 < i && base[j].1 >= 1,
            forall|j1: int, j2: int|
                0 <= j1 < j2 < base.len() ==> pos_le(#[trigger] base[j1], #[trigger] base[j2]) && (
                canonical ==> pos_lt(base[j1], base[j2])),
        decreases n - i,
    {
        let ws = kmer_windows(k, &seqs[i]);
        proof {
            assert(seqs[i as int].len() <= u32::MAX);
            lemma_windows_bounds(seqs[i as int]@, k as int);
        }
        let mut t: usize = 0;
        while t < ws.len()
            invariant
                n == seqs.len(),
                0 <= i < n,
                1 <= k <= 31,
                0 <= t <= ws.len(),
                ws@ == windows(seqs[i as int]@, k as int),
                seqs[i as int].len() <= u32::MAX,
                forall|q: int|
                    0 <= q < ws.len() ==> k - 1 <= #[trigger] ws[q].0 < seqs[i as int].len(),
                forall|q1: int, q2: int|
                    0 <= q1 < q2 < ws.len() ==> #[trigger] ws[q1].0 < #[trigger] ws[q2].0,
                forall|c: u64|
                    (#[trigger] counts@.contains_key(c) <==> global_count(seqs@, k as int, c) > 0)
                        && (counts@.contains_key(c) ==> counts@[c] == min2(
                        global_count(seqs@, k as int, c),
                    )),
                base@ == rows_upto(seqs@, k as int, canonical, i as int) + rows_in(
                    seqs@,
                    k as int,
                    canonical,
                    i as int,
                    ws@.take(t as int),
                ),
                forall|j: int|
                    0 <= j < base.len() ==> from_window(seqs@, k as int, canonical, #[trigger] base[j]),
                forall|j: int|
                    0 <= j < base.len() ==> ((#[trigger] base[j]).0 < i || (base[j].0 == i && t > 0
                        && base[j].1 <= start_of(ws[t - 1].0 as int, k as int))) && base[j].1 >= 1,
                forall|j1: int, j2: int|
                    0 <= j1 < j2 < base.len() ==> pos_le(#[trigger] base[j1], #[trigger] base[j2])
                        && (canonical ==> pos_lt(base[j1], base[j2])),
            decreases ws.len() - t,
        {
            let w = ws[t];
            let labels = labels_exec(seqs, k, &counts, w, canonical);
            proof {
                if canonical && labels.len() > 0 {
                    lemma_label_of_window(seqs@, k as int, canonical, w, labels[0]);
                }
            }
            let e: usize = w.0;
            assert(k - 1 <= e < seqs[i as int].len());
            assert(e < 4294967295usize);
            let start: u64 = (e + 1 - (k - 1)) as u64;
            let ghost mark = base.len();
            let ghost pre = base@;
            let mut l: usize = 0;
            while l < labels.len()
                invariant
                    0 <= l <= labels.len(),
                    n == seqs.len(),
                    0 <= i < n,
                    0 <= t < ws.len(),
                    ws@ == windows(seqs[i as int]@, k as int),
                    w == ws[t as int],
                    start == start_of(w.0 as int, k as int),
                    start >= 1,
                    labels@ == labels_of(seqs@, k as int, canonical, w),
                    canonical ==> labels.len() <= 1,
                    mark == pre.len(),
                    base@ == pre + labels@.take(l as int).map_values(
                        |c: u64| (i as usize, start, c),
                    ),
                    forall|j: int|
                        0 <= j < base.len() ==> from_window(seqs@, k as int, canonical, #[trigger] base[j]),
                    forall|j: int|
                        0 <= j < mark ==> ((#[trigger] base[j]).0 < i || (base[j].0 == i
                            && base[j].1 < start)) && base[j].1 >= 1,
                    forall|j: int|
                        mark <= j < base.len() ==> (#[trigger] base[j]).0 == i && base[j].1 == start,
                    forall|j1: int, j2: int|
                        0 <= j1 < j2 < base.len() ==> pos_le(#[trigger] base[j1], #[trigger] base[j2])
                            && (canonical ==> pos_lt(base[j1], base[j2])),
                decreases labels.len() - l,
            {
                let row = (i, start, labels[l]);
                proof {
                    let wi = windows(seqs[i as int]@, k as int);
                    assert(wi[t as int] == w);
                    assert(labels@[l as int] == labels[l as int]);
                    assert(labels_of(seqs@, k as int, canonical, w).contains(labels[l as int]));
                    assert(windows(seqs[row.0 as int]@, k as int)[t as int] == w);
                    assert(from_window(seqs@, k as int, canonical, row));
                }
                base.push(row);
                assert(labels@.take(l + 1).map_values(|c: u64| (i as usize, start, c))
                    =~= labels@.take(l as int).map_values(|c: u64| (i as usize, start, c)).push(row));
                l += 1;
            }
            proof {
                assert(labels@.take(labels.len() as int) =~= labels@);
                assert(ws@.take(t + 1).drop_last() =~= ws@.take(t as int));
                assert(ws@.take(t + 1).last() == w);
                assert(window_rows(seqs@, k as int, canonical, i as int, w) =~= labels@.map_values(
                    |c: u64| (i as usize, start, c),
                ));
                assert(base@ =~= rows_upto(seqs@, k as int, canonical, i as int) + rows_in(
                    seqs@,
                    k as int,
                    canonical,
                    i as int,
                    ws@.take(t + 1),
                ));
            }
            t += 1;
        }
        assert(ws@.take(ws.len() as int) =~= ws@);
        i += 1;
    }
    let mut rows: Vec<SunkRow> = Vec::new();
    let mut j: usize = 0;
    while j < base.len()
        invariant
            0 <= j <= base.len(),
            rows.len() == j,
            forall|q: int| 0 <= q < j ==> key_of(#[trigger] rows[q]) == base[q],
            forall|q: int| 0 <= q < base.len() ==> (#[trigger] base[q]).1 >= 1,
            forall|q: int|
                0 <= q < j ==> #[trigger] rows[q].group == if run_start(rows@, q) {
                    rows[q].cpos
                } else {
                    rows[q - 1].group
                },
            forall|q: int| 0 <= q < j ==> 1 <= #[trigger] rows[q].group <= rows[q].cpos,
            forall|j1: int, j2: int|
                0 <= j1 < j2 < base.len() ==> pos_le(#[trigger] base[j1], #[trigger] base[j2]),
        decreases base.len() - j,
    {
        let (c, p, m) = base[j];
        let g: u64 = if j == 0 {
            p
        } else {
            let prev = rows[j - 1];
            if c != prev.ctg || (p > prev.cpos && p - prev.cpos > 1) {
                p
            } else {
                assert(pos_le(base[j - 1], base[j as int]));
                prev.group
            }
        };
        let ghost old_rows = rows@;
        rows.push(SunkRow { ctg: c, cpos: p, kmer: m, group: g });
        assert forall|q: int| 0 <= q < j implies run_start(rows@, q) == run_start(old_rows, q) by {
            if q > 0 {
                assert(rows@[q - 1] == old_rows[q - 1]);
            }
            assert(rows@[q] == old_rows[q]);
        }
        j += 1;
    }
    proof {
        assert forall|q: int| 0 <= q < rows.len() implies global_count(
            seqs@,
            k as int,
            #[trigger] rows[q].kmer,
        ) == 1 by {
            assert(key_of(rows[q]) == base[q]);
            assert(from_window(seqs@, k as int, canonical, base[q]));
            let ri = base[q].0 as int;
            let t = choose|t: int|
                0 <= t < windows(seqs[ri]@, k as int).len() && {
                    let w = #[trigger] windows(seqs[ri]@, k as int)[t];
                    start_of(w.0 as int, k as int) == base[q].1 && labels_of(
                        seqs@,
                        k as int,
                        canonical,
                        w,
                    ).contains(base[q].2)
                };
            lemma_label_of_window(
                seqs@,
                k as int,
                canonical,
                windows(seqs[ri]@, k as int)[t],
                base[q].2,
            );
        }
    }
    Ok(rows)
}


pub open spec fn hits(w: Window, c: u64) -> nat {
    (if w.1 == c {
        1nat
    } else {
        0nat
    }) + (if w.2 == c {
        1nat
    } else {
        0nat
    })
}

proof fn lemma_occ_window(ws: Seq<Window>, t: int, c: u64)
    requires
        0 <= t < ws.len(),
    ensures
        occ(ws, c) >= hits(ws[t], c),
    decreases ws.len(),
{
    if t < ws.len() - 1 {
        lemma_occ_window(ws.drop_last(), t, c);
    }
}

proof fn lemma_occ_two_windows(ws: Seq<Window>, t1: int, t2: int, c: u64)
    requires
        0 <= t1 < t2 < ws.len(),
    ensures
        occ(ws, c) >= hits(ws[t1], c) + hits(ws[t2], c),
    decreases ws.len(),
{
    if t2 < ws.len() - 1 {
        lemma_occ_two_windows(ws.drop_last(), t1, t2, c);
    } else {
        lemma_occ_window(ws.drop_last(), t1, c);
    }
}

proof fn lemma_occ_all_seq(wss: Seq<Seq<Window>>, i: int, c: u64)
    requires
        0 <= i < wss.len(),
    ensures
        occ_all(wss, c) >= occ(wss[i], c),
    decreases wss.len(),
{
    if i < wss.len() - 1 {
        lemma_occ_all_seq(wss.drop_last(), i, c);
    }
}

proof fn lemma_occ_all_two_seqs(wss: Seq<Seq<Window>>, i1: int, i2: int, c: u64)
    requires
        0 <= i1 < i2 < wss.len(),
    ensures
        occ_all(wss, c) >= occ(wss[i1], c) + occ(wss[i2], c),
    decreases wss.len(),
{
    if i2 < wss.len() - 1 {
        lemma_occ_all_two_seqs(wss.drop_last(), i1, i2, c);
    } else {
        lemma_occ_all_seq(wss.drop_last(), i1, c);
    }
}

/// Two different windows that both hold k-mer `c` make its count at least 2.
proof fn lemma_two_places(
    seqs: Seq<Vec<u8>>,
    k: int,
    i1: int,
    t1: int,
    i2: int,
    t2: int,
    c: u64,
)
    requires
        0 <= i1 < seqs.len(),
        0 <= i2 < seqs.len(),
        0 <= t1 < windows(seqs[i1]@, k).len(),
        0 <= t2 < windows(seqs[i2]@, k).len(),
        i1 != i2 || t1 != t2,
        hits(windows(seqs[i1]@, k)[t1], c) >= 1,
        hits(windows(seqs[i2]@, k)[t2], c) >= 1,
    ensures
        global_count(seqs, k, c) >= 2,
{
    let wss = seq_windows(seqs, k);
    assert(wss[i1] == windows(seqs[i1]@, k));
    assert(wss[i2] == windows(seqs[i2]@, k));
    if i1 == i2 {
        if t1 < t2 {
            lemma_occ_two_windows(wss[i1], t1, t2, c);
        } else {
            lemma_occ_two_windows(wss[i1], t2, t1, c);
        }
        lemma_occ_all_seq(wss, i1, c);
    } else {
        lemma_occ_window(wss[i1], t1, c);
        lemma_occ_window(wss[i2], t2, c);
        if i1 < i2 {
            lemma_occ_all_two_seqs(wss, i1, i2, c);
        } else {
            lemma_occ_all_two_seqs(wss, i2, i1, c);
        }
    }
}

/// The SUNK set is closed under canonicalisation: in a table built with
/// `canonical`, no window of the assembly has both of its strands retained,
/// so the reverse complement of a retained k-mer is never retained on its
/// own.
pub proof fn lemma_canonical_no_revcomp_pair(
    seqs: Seq<Vec<u8>>,
    k: int,
    rows: Seq<SunkRow>,
    i: int,
    t: int,
    j1: int,
    j2: int,
)
    requires
        forall|j: int| 0 <= j < rows.len() ==> from_window(seqs, k, true, #[trigger] key_of(rows[j])),
        0 <= i < seqs.len(),
        0 <= t < windows(seqs[i]@, k).len(),
        0 <= j1 < rows.len(),
        0 <= j2 < rows.len(),
    ensures
        !(rows[j1].kmer == windows(seqs[i]@, k)[t].1 && rows[j2].kmer == windows(seqs[i]@, k)[t].2),
{
    let w = windows(seqs[i]@, k)[t];
    if rows[j1].kmer == w.1 && rows[j2].kmer == w.2 {
        let r1 = key_of(rows[j1]);
        let r2 = key_of(rows[j2]);
        assert(from_window(seqs, k, true, r1));
        assert(from_window(seqs, k, true, r2));
        let i1 = r1.0 as int;
        let i2 = r2.0 as int;
        let t1 = choose|t1: int|
            0 <= t1 < windows(seqs[i1]@, k).len() && {
                let w1 = #[trigger] windows(seqs[i1]@, k)[t1];
                start_of(w1.0 as int, k) == r1.1 && labels_of(seqs, k, true, w1).contains(r1.2)
            };
        let t2 = choose|t2: int|
            0 <= t2 < windows(seqs[i2]@, k).len() && {
                let w2 = #[trigger] windows(seqs[i2]@, k)[t2];
                start_of(w2.0 as int, k) == r2.1 && labels_of(seqs, k, true, w2).contains(r2.2)
            };
        let w1 = windows(seqs[i1]@, k)[t1];
        let w2 = windows(seqs[i2]@, k)[t2];
        lemma_label_of_window(seqs, k, true, w1, w.1);
        lemma_label_of_window(seqs, k, true, w2, w.2);
        if i1 != i || t1 != t {
            lemma_two_places(seqs, k, i1, t1, i, t, w.1);
        } else if i2 != i || t2 != t {
            lemma_two_places(seqs, k, i2, t2, i, t, w.2);
        } else {
            lemma_label_of_window(seqs, k, true, w, w.1);
            lemma_label_of_window(seqs, k, true, w, w.2);
            assert(w.1 == w.2);
            lemma_occ_window(windows(seqs[i]@, k), t, w.1);
            lemma_occ_all_seq(seq_windows(seqs, k), i, w.1);
            assert(seq_windows(seqs, k)[i] == windows(seqs[i]@, k));
        }
    }
}

/// Groups are the maximal runs of adjacent SUNKs: in a table built with
/// `canonical`, two neighbouring rows of one contig share a group exactly
/// when their positions are consecutive. As the rows are strictly ordered by
/// `(ctg, cpos)`, this fixes every group from the positions alone, whatever
/// sort by `(ctg, cpos)` is applied.
pub proof fn lemma_groups_are_runs(seqs: Seq<Vec<u8>>, k: int, rows: Seq<SunkRow>, j: int)
    requires
        sunk_table(seqs, k, true, rows),
        forall|j1: int, j2: int|
            0 <= j1 < j2 < rows.len() ==> pos_lt(#[trigger] key_of(rows[j1]), #[trigger] key_of(rows[j2])),
        forall|q: int| 0 <= q < rows.len() ==> 1 <= #[trigger] rows[q].group <= rows[q].cpos,
        0 < j < rows.len(),
        rows[j].ctg == rows[j - 1].ctg,
    ensures
        rows[j].group == rows[j - 1].group <==> rows[j].cpos == rows[j - 1].cpos + 1,
{
    assert(pos_lt(key_of(rows[j - 1]), key_of(rows[j])));
    assert(rows[j].group == if run_start(rows, j) {
        rows[j].cpos
    } else {
        rows[j - 1].group
    });
    assert(1 <= rows[j - 1].group <= rows[j - 1].cpos);
}


/// Index of the first window of `ws` that holds `c` on either strand.
pub open spec fn first_window(ws: Seq<Window>, c: u64) -> int
    decreases ws.len(),
{
    if ws.len() == 0 {
        0
    } else if occ(ws.drop_last(), c) > 0 {
        first_window(ws.drop_last(), c)
    } else {
        ws.len() - 1
    }
}

proof fn lemma_occ_bound(ws: Seq<Window>, c: u64)
    ensures
        occ(ws, c) <= 2 * ws.len(),
    decreases ws.len(),
{
    if ws.len() > 0 {
        lemma_occ_bound(ws.drop_last(), c);
    }
}

/// The k-mers of one sequence, both strands: for each k-mer, how often it
/// occurs and the one-based start of the first window that holds it.
pub fn get_kmer_counts_pos(seq: &Vec<u8>, kmer_size: usize) -> (m: HashMap<u64, (usize, usize)>)
    requires
        1 <= kmer_size <= 31,
        seq.len() < usize::MAX / 2,
    ensures
        forall|c: u64|
            #[trigger] m@.contains_key(c) <==> occ(windows(seq@, kmer_size as int), c) > 0,
        forall|c: u64|
            #[trigger] m@.contains_key(c) ==> m@[c] == (
                occ(windows(seq@, kmer_size as int), c) as usize,
                start_of(
                    windows(seq@, kmer_size as int)[first_window(
                        windows(seq@, kmer_size as int),
                        c,
                    )].0 as int,
                    kmer_size as int,
                ) as usize,
            ),
{
    let k = kmer_size;
    let ws = kmer_windows(k, seq);
    proof {
        lemma_windows_bounds(seq@, k as int);
    }
    let mut m: HashMap<u64, (usize, usize)> = HashMap::new();
    let mut t: usize = 0;
    while t < ws.len()
        invariant
            1 <= k <= 31,
            ws@ == windows(seq@, k as int),
            seq.len() < usize::MAX / 2,
            ws.len() <= seq.len(),
            forall|q: int| 0 <= q < ws.len() ==> k - 1 <= #[trigger] ws[q].0 < seq.len(),
            0 <= t <= ws.len(),
            forall|c: u64| #[trigger] m@.contains_key(c) <==> occ(ws@.take(t as int), c) > 0,
            forall|c: u64|
                #[trigger] m@.contains_key(c) ==> m@[c] == (
                    occ(ws@.take(t as int), c) as usize,
                    start_of(ws@[first_window(ws@.take(t as int), c)].0 as int, k as int) as usize,
                ) && 0 <= first_window(ws@.take(t as int), c) < t,
        decreases ws.len() - t,
    {
        let w = ws[t];
        let e: usize = w.0;
        assert(k - 1 <= e < seq.len());
        let start: usize = e + 1 - (k - 1);
        let ghost cur = ws@.take(t as int);
        let ghost next = ws@.take(t + 1);
        assert(next.drop_last() =~= cur);
        proof {
            lemma_occ_bound(cur, w.1);
            lemma_occ_bound(cur, w.2);
        }
        let a: (usize, usize) = match m.get(&w.1) {
            Some(v) => (v.0 + 1, v.1),
            None => (1, start),
        };
        m.insert(w.1, a);
        let b: (usize, usize) = match m.get(&w.2) {
            Some(v) => (v.0 + 1, v.1),
            None => (1, start),
        };
        m.insert(w.2, b);
        assert forall|c: u64| #[trigger] m@.contains_key(c) implies m@[c] == (
            occ(next, c) as usize,
            start_of(ws@[first_window(next, c)].0 as int, k as int) as usize,
        ) && 0 <= first_window(next, c) < t + 1 by {
            if occ(cur, c) > 0 {
                assert(first_window(next, c) == first_window(cur, c));
            }
        }
        t += 1;
    }
    assert(ws@.take(ws.len() as int) =~= ws@);
    m
}

} // verus!
