use std::collections::HashMap;
use vstd::prelude::*;

use crate::assign::Assignment;
use crate::kmer::{kmer_windows, lemma_windows_bounds, start_of, windows};
use crate::sunks::{hits, SunkError, SunkRow};
use crate::table::{
    lemma_perm_contains, lemma_perm_no_dup, lex4_le, lex4_lt, sort_keys, sorted4, Key4,
};

verus! {

broadcast use vstd::std_specs::hash::group_hash_axioms;

/// One SUNK seen in a read: the read (index of the sequence), the one-based
/// start of the k-mer in the read, and the SUNK's contig, position and group.
#[derive(Clone, Copy, Debug, PartialEq, Eq)]
pub struct ReadSunk {
    pub read: usize,
    pub rpos: u64,
    pub ctg: usize,
    pub cpos: u64,
    pub group: u64,
}

/// SUNK `s` occurs, on either strand, in window `t` of read `r`.
pub open spec fn is_hit(reads: Seq<Vec<u8>>, sunks: Seq<SunkRow>, k: int, r: int, s: int, t: int) -> bool {
    &&& 0 <= r < reads.len()
    &&& 0 <= s < sunks.len()
    &&& 0 <= t < windows(reads[r]@, k).len()
    &&& hits(windows(reads[r]@, k)[t], sunks[s].kmer) >= 1
}

pub open spec fn hit_rpos(reads: Seq<Vec<u8>>, k: int, r: int, t: int) -> int {
    start_of(windows(reads[r]@, k)[t].0 as int, k)
}

/// `row` records the occurrence of SUNK `s` in window `t` of read `r`.
pub open spec fn row_of_hit(
    row: ReadSunk,
    reads: Seq<Vec<u8>>,
    sunks: Seq<SunkRow>,
    k: int,
    r: int,
    s: int,
    t: int,
) -> bool {
    &&& is_hit(reads, sunks, k, r, s, t)
    &&& row.read == r
    &&& row.ctg == sunks[s].ctg
    &&& row.group == sunks[s].group
    &&& row.cpos == sunks[s].cpos
    &&& row.rpos == hit_rpos(reads, k, r, t)
}

/// `row` records some occurrence of a SUNK in read `r`.
pub open spec fn row_sound(row: ReadSunk, reads: Seq<Vec<u8>>, sunks: Seq<SunkRow>, k: int, r: int) -> bool {
    exists|s: int, t: int| row_of_hit(row, reads, sunks, k, r, s, t)
}

pub open spec fn tail_key(a: ReadSunk) -> Key4 {
    (a.rpos, a.ctg as u64, a.cpos, a.group)
}

/// Order of the mapped table: by read, then position in the read, contig,
/// position in the contig and group.
pub open spec fn row_lt(a: ReadSunk, b: ReadSunk) -> bool {
    a.read < b.read || (a.read == b.read && lex4_lt(tail_key(a), tail_key(b)))
}

/// `rows` is the SUNK table mapped onto `reads`: one row per read, contig
/// and group that any occurrence reaches, holding the occurrence of the
/// group that comes first by contig position and then read position,
/// ordered by `row_lt`.
pub open spec fn mapped_table(reads: Seq<Vec<u8>>, sunks: Seq<SunkRow>, k: int, rows: Seq<ReadSunk>) -> bool {
    &&& forall|q: int|
        0 <= q < rows.len() ==> row_sound(#[trigger] rows[q], reads, sunks, k, rows[q].read as int)
    &&& forall|r: int, s: int, t: int|
        #[trigger] is_hit(reads, sunks, k, r, s, t) ==> exists|q: int|
            0 <= q < rows.len() && (#[trigger] rows[q]).read == r && rows[q].ctg == sunks[s].ctg
                && rows[q].group == sunks[s].group && (rows[q].cpos < sunks[s].cpos || (
            rows[q].cpos == sunks[s].cpos && rows[q].rpos <= hit_rpos(reads, k, r, t)))
    &&& forall|q1: int, q2: int|
        0 <= q1 < rows.len() && 0 <= q2 < rows.len() && q1 != q2 && (#[trigger] rows[q1]).read
            == (#[trigger] rows[q2]).read && rows[q1].ctg == rows[q2].ctg ==> rows[q1].group
            != rows[q2].group
    &&& forall|q1: int, q2: int|
        0 <= q1 < q2 < rows.len() ==> row_lt(#[trigger] rows[q1], #[trigger] rows[q2])
}

/// Index of the SUNK table by k-mer code.
fn build_index(sunks: &Vec<SunkRow>) -> (m: HashMap<u64, Vec<usize>>)
    ensures
        forall|c: u64, q: int|
            #![trigger m@[c]@[q]]
            m@.contains_key(c) && 0 <= q < m@[c].len() ==> m@[c]@[q] < sunks.len() && sunks[m@[c]@[q] as int].kmer
                == c,
        forall|s: int|
            0 <= s < sunks.len() ==> m@.contains_key(#[trigger] sunks[s].kmer) && m@[sunks[s].kmer]@.contains(
                s as usize,
            ),
{
    let mut m: HashMap<u64, Vec<usize>> = HashMap::new();
    let mut s: usize = 0;
    while s < sunks.len()
        invariant
            0 <= s <= sunks.len(),
            forall|c: u64, q: int|
                #![trigger m@[c]@[q]]
                m@.contains_key(c) && 0 <= q < m@[c].len() ==> m@[c]@[q] < s && sunks[m@[c]@[q] as int].kmer
                    == c,
            forall|s2: int|
                0 <= s2 < s ==> m@.contains_key(#[trigger] sunks[s2].kmer) && m@[sunks[s2].kmer]@.contains(
                    s2 as usize,
                ),
        decreases sunks.len() - s,
    {
        let c = sunks[s].kmer;
        let mut v: Vec<usize> = match m.get(&c) {
            Some(v) => v.clone(),
            None => Vec::new(),
        };
        let ghost old_m = m@;
        let ghost old_v = v@;
        v.push(s);
        m.insert(c, v);
        assert forall|s2: int|
            0 <= s2 < s + 1 implies m@.contains_key(#[trigger] sunks[s2].kmer) && m@[sunks[s2].kmer]@.contains(
            s2 as usize,
        ) by {
            if s2 < s && sunks[s2].kmer == c {
                let q = choose|q: int| 0 <= q < old_v.len() && old_v[q] == s2 as usize;
                assert(m@[c]@[q] == s2 as usize);
            }
            if s2 == s {
                assert(m@[c]@[old_v.len() as int] == s);
            }
        }
        s += 1;
    }
    m
}

pub open spec fn hit_key(reads: Seq<Vec<u8>>, sunks: Seq<SunkRow>, k: int, r: int, s: int, t: int) -> Key4 {
    (sunks[s].ctg as u64, sunks[s].group, sunks[s].cpos, hit_rpos(reads, k, r, t) as u64)
}

/// `key` is the key of some occurrence of a SUNK in read `r`.
pub open spec fn sound_key(reads: Seq<Vec<u8>>, sunks: Seq<SunkRow>, k: int, r: int, key: Key4) -> bool {
    exists|s: int, t: int| is_hit(reads, sunks, k, r, s, t) && key == hit_key(reads, sunks, k, r, s, t)
}

/// Every occurrence of a SUNK in read `r`, as `(ctg, group, cpos, rpos)`.
fn read_hits(
    reads: &Vec<Vec<u8>>,
    r: usize,
    sunks: &Vec<SunkRow>,
    index: &HashMap<u64, Vec<usize>>,
    k: usize,
) -> (h: Vec<Key4>)
    requires
        1 <= k <= 31,
        r < reads.len(),
        reads[r as int].len() <= u32::MAX,
        forall|c: u64, q: int|
            #![trigger index@[c]@[q]]
            index@.contains_key(c) && 0 <= q < index@[c].len() ==> index@[c]@[q] < sunks.len()
                && sunks[index@[c]@[q] as int].kmer == c,
        forall|s: int|
            0 <= s < sunks.len() ==> index@.contains_key(#[trigger] sunks[s].kmer)
                && index@[sunks[s].kmer]@.contains(s as usize),
    ensures
        forall|q: int| 0 <= q < h.len() ==> sound_key(reads@, sunks@, k as int, r as int, #[trigger] h[q]),
        forall|s: int, t: int|
            #[trigger] is_hit(reads@, sunks@, k as int, r as int, s, t) ==> h@.contains(
                hit_key(reads@, sunks@, k as int, r as int, s, t),
            ),
{
    let ws = kmer_windows(k, &reads[r]);
    proof {
        lemma_windows_bounds(reads[r as int]@, k as int);
    }
    let mut h: Vec<Key4> = Vec::new();
    let mut t: usize = 0;
    while t < ws.len()
        invariant
            1 <= k <= 31,
            r < reads.len(),
            reads[r as int].len() <= u32::MAX,
            ws@ == windows(reads[r as int]@, k as int),
            forall|q: int| 0 <= q < ws.len() ==> k - 1 <= #[trigger] ws[q].0 < reads[r as int].len(),
            0 <= t <= ws.len(),
            forall|c: u64, q: int|
                #![trigger index@[c]@[q]]
                index@.contains_key(c) && 0 <= q < index@[c].len() ==> index@[c]@[q] < sunks.len()
                    && sunks[index@[c]@[q] as int].kmer == c,
            forall|s: int|
                0 <= s < sunks.len() ==> index@.contains_key(#[trigger] sunks[s].kmer)
                    && index@[sunks[s].kmer]@.contains(s as usize),
            forall|q: int| 0 <= q < h.len() ==> sound_key(reads@, sunks@, k as int, r as int, #[trigger] h[q]),
            forall|s: int, t2: int|
                0 <= t2 < t && #[trigger] is_hit(reads@, sunks@, k as int, r as int, s, t2) ==> h@.contains(
                    hit_key(reads@, sunks@, k as int, r as int, s, t2),
                ),
        decreases ws.len() - t,
    {
        let w = ws[t];
        let e: usize = w.0;
        assert(k - 1 <= e < reads[r as int].len());
        let rpos: u64 = (e + 1 - (k - 1)) as u64;
        let mut strand: usize = 0;
        while strand < 2
            invariant
                0 <= strand <= 2,
                0 <= t < ws.len(),
                w == ws[t as int],
                ws@ == windows(reads[r as int]@, k as int),
                r < reads.len(),
                rpos == hit_rpos(reads@, k as int, r as int, t as int),
                forall|c: u64, q: int|
                    #![trigger index@[c]@[q]]
                    index@.contains_key(c) && 0 <= q < index@[c].len() ==> index@[c]@[q] < sunks.len()
                        && sunks[index@[c]@[q] as int].kmer == c,
                forall|s: int|
                    0 <= s < sunks.len() ==> index@.contains_key(#[trigger] sunks[s].kmer)
                        && index@[sunks[s].kmer]@.contains(s as usize),
                forall|q: int| 0 <= q < h.len() ==> sound_key(reads@, sunks@, k as int, r as int, #[trigger] h[q]),
                forall|s: int, t2: int|
                    0 <= t2 < t && #[trigger] is_hit(reads@, sunks@, k as int, r as int, s, t2)
                        ==> h@.contains(hit_key(reads@, sunks@, k as int, r as int, s, t2)),
                forall|s: int|
                    0 <= s < sunks.len() && ((strand >= 1 && sunks[s].kmer == w.1) || (strand >= 2
                        && sunks[s].kmer == w.2)) ==> h@.contains(
                        #[trigger] hit_key(reads@, sunks@, k as int, r as int, s, t as int),
                    ),
            decreases 2 - strand,
        {
            let c: u64 = if strand == 0 {
                w.1
            } else {
                w.2
            };
            match index.get(&c) {
                Some(list) => {
                    let mut q: usize = 0;
                    while q < list.len()
                        invariant
                            0 <= q <= list.len(),
                            index@.contains_key(c),
                            list@ == index@[c]@,
                            0 <= t < ws.len(),
                            w == ws[t as int],
                            ws@ == windows(reads[r as int]@, k as int),
                            r < reads.len(),
                            c == w.1 || c == w.2,
                            rpos == hit_rpos(reads@, k as int, r as int, t as int),
                            forall|c: u64, q: int|
                                #![trigger index@[c]@[q]]
                                index@.contains_key(c) && 0 <= q < index@[c].len() ==> index@[c]@[q]
                                    < sunks.len() && sunks[index@[c]@[q] as int].kmer == c,
                            forall|q2: int| 0 <= q2 < h.len() ==> sound_key(reads@, sunks@, k as int, r as int, #[trigger] h[q2]),
                            forall|s: int, t2: int|
                                0 <= t2 < t && #[trigger] is_hit(reads@, sunks@, k as int, r as int, s, t2)
                                    ==> h@.contains(hit_key(reads@, sunks@, k as int, r as int, s, t2)),
                            forall|s: int|
                                0 <= s < sunks.len() && ((strand >= 1 && sunks[s].kmer == w.1) || (
                                strand >= 2 && sunks[s].kmer == w.2)) ==> h@.contains(
                                    #[trigger] hit_key(reads@, sunks@, k as int, r as int, s, t as int),
                                ),
                            forall|q2: int|
                                0 <= q2 < q ==> h@.contains(
                                    #[trigger] hit_key(reads@, sunks@, k as int, r as int, list@[q2] as int, t as int),
                                ),
                        decreases list.len() - q,
                    {
                        let s = list[q];
                        assert(index@[c]@[q as int] == s);
                        let sr = sunks[s];
                        let key: Key4 = (sr.ctg as u64, sr.group, sr.cpos, rpos);
                        proof {
                            assert(windows(reads[r as int]@, k as int)[t as int] == w);
                            assert(is_hit(reads@, sunks@, k as int, r as int, s as int, t as int));
                            assert(key == hit_key(reads@, sunks@, k as int, r as int, s as int, t as int));
                            assert(sound_key(reads@, sunks@, k as int, r as int, key));
                        }
                        let ghost old_h = h@;
                        h.push(key);
                        proof {
                            assert(h@[old_h.len() as int] == key);
                            assert forall|x: Key4| old_h.contains(x) implies h@.contains(x) by {
                                let i = choose|i: int| 0 <= i < old_h.len() && old_h[i] == x;
                                assert(h@[i] == x);
                            }
                        }
                        q += 1;
                    }
                    proof {
                        assert forall|s: int|
                            0 <= s < sunks.len() && sunks[s].kmer == c implies h@.contains(
                            #[trigger] hit_key(reads@, sunks@, k as int, r as int, s, t as int),
                        ) by {
                            assert(index@[sunks[s].kmer]@.contains(s as usize));
                            let q2 = choose|q2: int| 0 <= q2 < list.len() && list@[q2] == s as usize;
                            assert(list@[q2] as int == s);
                        }
                    }
                },
                None => {
                    assert forall|s: int| 0 <= s < sunks.len() implies sunks[s].kmer != c by {
                        assert(index@.contains_key(sunks[s].kmer));
                    }
                },
            }
            strand += 1;
        }
        proof {
            assert forall|s: int, t2: int|
                0 <= t2 < t + 1 && #[trigger] is_hit(reads@, sunks@, k as int, r as int, s, t2)
                    implies h@.contains(hit_key(reads@, sunks@, k as int, r as int, s, t2)) by {
                if t2 == t {
                    assert(windows(reads[r as int]@, k as int)[t2] == w);
                }
            }
        }
        t += 1;
    }
    h
}


/// Some key of `firsts` has the contig and group of `key` and comes no later.
pub open spec fn covered(firsts: Seq<Key4>, key: Key4) -> bool {
    exists|q: int|
        0 <= q < firsts.len() && (#[trigger] firsts[q]).0 == key.0 && firsts[q].1 == key.1
            && lex4_le(firsts[q], key)
}

/// The first key of each run of equal `(ctg, group)` in sorted keys.
fn first_of_runs(h: &Vec<Key4>) -> (res: Vec<Key4>)
    requires
        sorted4(h@),
    ensures
        forall|q: int| 0 <= q < res.len() ==> h@.contains(#[trigger] res[q]),
        forall|i: int| 0 <= i < h.len() ==> covered(res@, #[trigger] h[i]),
        forall|q1: int, q2: int|
            0 <= q1 < q2 < res.len() ==> (#[trigger] res[q1]).0 < (#[trigger] res[q2]).0 || (
            res[q1].0 == res[q2].0 && res[q1].1 < res[q2].1),
{
    let mut res: Vec<Key4> = Vec::new();
    let mut j: usize = 0;
    while j < h.len()
        invariant
            sorted4(h@),
            0 <= j <= h.len(),
            forall|q: int| 0 <= q < res.len() ==> h@.contains(#[trigger] res[q]),
            forall|i: int| 0 <= i < j ==> covered(res@, #[trigger] h[i]),
            forall|q1: int, q2: int|
                0 <= q1 < q2 < res.len() ==> (#[trigger] res[q1]).0 < (#[trigger] res[q2]).0 || (
                res[q1].0 == res[q2].0 && res[q1].1 < res[q2].1),
            j > 0 ==> res.len() > 0 && res[res.len() - 1].0 == h[j - 1].0 && res[res.len() - 1].1
                == h[j - 1].1 && lex4_le(res[res.len() - 1], h[j - 1]),
            j == 0 ==> res.len() == 0,
            res.len() > 0 ==> h@.contains(res[res.len() - 1]),
        decreases h.len() - j,
    {
        let cur = h[j];
        if j == 0 || cur.0 != h[j - 1].0 || cur.1 != h[j - 1].1 {
            let ghost old_res = res@;
            proof {
                if j > 0 {
                    assert(lex4_le(h[j - 1], h[j as int]));
                    let last = old_res[old_res.len() - 1];
                    assert forall|q: int| 0 <= q < old_res.len() implies old_res[q].0 < cur.0 || (
                    old_res[q].0 == cur.0 && old_res[q].1 < cur.1) by {
                        if q < old_res.len() - 1 {
                            assert(old_res[q].0 < last.0 || (old_res[q].0 == last.0 && old_res[q].1
                                < last.1));
                        }
                    }
                }
            }
            res.push(cur);
            proof {
                assert(h@[j as int] == cur);
                assert forall|i: int| 0 <= i < j + 1 implies covered(res@, #[trigger] h[i]) by {
                    if i < j {
                        assert(covered(old_res, h[i]));
                        let q = choose|q: int|
                            0 <= q < old_res.len() && (#[trigger] old_res[q]).0 == h[i].0
                                && old_res[q].1 == h[i].1 && lex4_le(old_res[q], h[i]);
                        assert(res@[q] == old_res[q]);
                    } else {
                        assert(res@[old_res.len() as int] == cur);
                    }
                }
            }
        } else {
            proof {
                assert(lex4_le(h[j - 1], h[j as int]));
                let q = res.len() - 1;
                assert(covered(res@, h[j as int])) by {
                    assert(res@[q as int].0 == h[j as int].0);
                }
            }
        }
        j += 1;
    }
    res
}

pub open spec fn swap_key(a: Key4) -> Key4 {
    (a.3, a.0, a.2, a.1)
}

/// The SUNK groups seen in read `r`, each at its first occurrence by contig
/// position and then read position, ordered by read position.
fn map_sunks_to_seq(
    reads: &Vec<Vec<u8>>,
    r: usize,
    sunks: &Vec<SunkRow>,
    index: &HashMap<u64, Vec<usize>>,
    k: usize,
) -> (out: Vec<ReadSunk>)
    requires
        1 <= k <= 31,
        r < reads.len(),
        reads[r as int].len() <= u32::MAX,
        forall|c: u64, q: int|
            #![trigger index@[c]@[q]]
            index@.contains_key(c) && 0 <= q < index@[c].len() ==> index@[c]@[q] < sunks.len()
                && sunks[index@[c]@[q] as int].kmer == c,
        forall|s: int|
            0 <= s < sunks.len() ==> index@.contains_key(#[trigger] sunks[s].kmer)
                && index@[sunks[s].kmer]@.contains(s as usize),
    ensures
        read_table(reads@, sunks@, k as int, r as int, out@),
{
    let ghost rs = reads@;
    let ghost ss = sunks@;
    proof {
        lemma_windows_bounds(reads[r as int]@, k as int);
    }
    let mut h = read_hits(reads, r, sunks, index, k);
    let ghost h0 = h@;
    sort_keys(&mut h);
    proof {
        assert forall|i: int| 0 <= i < h.len() implies sound_key(rs, ss, k as int, r as int, #[trigger] h[i]) by {
            lemma_perm_contains(h0, h@, i);
            let i0 = choose|i0: int| 0 <= i0 < h0.len() && h0[i0] == h[i];
        }
    }
    let firsts = first_of_runs(&h);
    let mut tails: Vec<Key4> = Vec::new();
    let mut q: usize = 0;
    while q < firsts.len()
        invariant
            0 <= q <= firsts.len(),
            tails.len() == q,
            forall|i: int| 0 <= i < q ==> #[trigger] tails[i] == swap_key(firsts[i]),
        decreases firsts.len() - q,
    {
        let f = firsts[q];
        tails.push((f.3, f.0, f.2, f.1));
        q += 1;
    }
    proof {
        assert(tails@.no_duplicates()) by {
            assert forall|a: int, b: int| 0 <= a < tails.len() && 0 <= b < tails.len() && a != b implies
                tails@[a] != tails@[b] by {
                assert(tails[a] == swap_key(firsts[a]));
                assert(tails[b] == swap_key(firsts[b]));
                if a < b {
                    assert(firsts[a].0 < firsts[b].0 || (firsts[a].0 == firsts[b].0 && firsts[a].1 < firsts[b].1));
                } else {
                    assert(firsts[b].0 < firsts[a].0 || (firsts[a].0 == firsts[b].0 && firsts[b].1 < firsts[a].1));
                }
            }
        }
    }
    let ghost t0 = tails@;
    sort_keys(&mut tails);
    proof {
        lemma_perm_no_dup(t0, tails@);
        assert forall|i: int| 0 <= i < tails.len() implies t0.contains(#[trigger] tails[i]) by {
            lemma_perm_contains(t0, tails@, i);
        }
    }
    let mut out: Vec<ReadSunk> = Vec::new();
    let mut q: usize = 0;
    while q < tails.len()
        invariant
            0 <= q <= tails.len(),
            out.len() == q,
            t0.len() == firsts.len(),
            forall|i: int|
                0 <= i < q ==> (#[trigger] out[i]).read == r && tail_key(out[i]) == tails[i],
            forall|i: int|
                0 <= i < q ==> row_sound(#[trigger] out[i], rs, ss, k as int, r as int),
            forall|i: int| 0 <= i < tails.len() ==> t0.contains(#[trigger] tails[i]),
            forall|i: int| 0 <= i < t0.len() ==> #[trigger] t0[i] == swap_key(firsts[i]),
            forall|i: int| 0 <= i < firsts.len() ==> h@.contains(#[trigger] firsts[i]),
            forall|i: int| 0 <= i < h.len() ==> sound_key(rs, ss, k as int, r as int, #[trigger] h[i]),
            forall|q: int|
                0 <= q < windows(rs[r as int]@, k as int).len() ==> k - 1 <= #[trigger] windows(
                    rs[r as int]@,
                    k as int,
                )[q].0 < rs[r as int].len(),
            rs[r as int].len() <= u32::MAX,
            rs == reads@,
            ss == sunks@,
        decreases tails.len() - q,
    {
        let t = tails[q];
        let ghost sw: int;
        let ghost tw: int;
        proof {
            let i = choose|i: int| 0 <= i < t0.len() && t0[i] == t;
            assert(h@.contains(firsts[i]));
            let j = choose|j: int| 0 <= j < h.len() && h@[j] == firsts[i];
            assert(sound_key(rs, ss, k as int, r as int, h[j]));
            let (s0, w0) = choose|s0: int, w0: int|
                is_hit(rs, ss, k as int, r as int, s0, w0) && h[j] == hit_key(
                    rs,
                    ss,
                    k as int,
                    r as int,
                    s0,
                    w0,
                );
            sw = s0;
            tw = w0;
            assert(k - 1 <= windows(rs[r as int]@, k as int)[tw].0 < rs[r as int].len());
        }
        let row = ReadSunk { read: r, rpos: t.0, ctg: t.1 as usize, cpos: t.2, group: t.3 };
        assert(row_of_hit(row, rs, ss, k as int, r as int, sw, tw));
        out.push(row);
        proof {
            assert forall|i: int|
                0 <= i < q + 1 implies row_sound(#[trigger] out[i], rs, ss, k as int, r as int) by {
                if i == q {
                    assert(row_of_hit(out[i], rs, ss, k as int, r as int, sw, tw));
                    assert(row_sound(out[i], rs, ss, k as int, r as int));
                }
            }
        }
        q += 1;
    }
    proof {
        assert forall|q1: int, q2: int|
            0 <= q1 < q2 < out.len() implies lex4_lt(
            tail_key(#[trigger] out[q1]),
            tail_key(#[trigger] out[q2]),
        ) by {
            assert(lex4_le(tails[q1], tails[q2]));
            assert(tails@[q1] != tails@[q2]);
        }
        assert forall|q1: int, q2: int|
            0 <= q1 < out.len() && 0 <= q2 < out.len() && q1 != q2 && (#[trigger] out[q1]).ctg
                == (#[trigger] out[q2]).ctg implies out[q1].group != out[q2].group by {
            let i1 = choose|i: int| 0 <= i < t0.len() && t0[i] == tails[q1];
            let i2 = choose|i: int| 0 <= i < t0.len() && t0[i] == tails[q2];
            assert(tails@[q1] != tails@[q2]);
            if out[q1].group == out[q2].group {
                if i1 < i2 {
                    assert(firsts[i1].0 < firsts[i2].0 || (firsts[i1].0 == firsts[i2].0
                        && firsts[i1].1 < firsts[i2].1));
                } else if i2 < i1 {
                    assert(firsts[i2].0 < firsts[i1].0 || (firsts[i1].0 == firsts[i2].0
                        && firsts[i2].1 < firsts[i1].1));
                }
            }
        }
        reveal(read_table);
        assert forall|s: int, t: int| #[trigger] is_hit(rs, ss, k as int, r as int, s, t) implies exists|q: int|
            0 <= q < out.len() && (#[trigger] out[q]).read == r && out[q].ctg == ss[s].ctg
                && out[q].group == ss[s].group && (out[q].cpos < ss[s].cpos || (out[q].cpos
                == ss[s].cpos && out[q].rpos <= hit_rpos(rs, k as int, r as int, t))) by {
            let key = hit_key(rs, ss, k as int, r as int, s, t);
            assert(h0.contains(key));
            let i0 = choose|i0: int| 0 <= i0 < h0.len() && h0[i0] == key;
            lemma_perm_contains(h@, h0, i0);
            let j = choose|j: int| 0 <= j < h.len() && h@[j] == key;
            assert(covered(firsts@, h[j]));
            let f = choose|f: int|
                0 <= f < firsts.len() && (#[trigger] firsts@[f]).0 == key.0 && firsts@[f].1 == key.1
                    && lex4_le(firsts@[f], key);
            assert(t0[f] == swap_key(firsts[f]));
            lemma_perm_contains(tails@, t0, f);
            let o = choose|o: int| 0 <= o < tails.len() && tails@[o] == t0[f];
            assert(tail_key(out[o]) == tails[o]);
            assert(k - 1 <= windows(rs[r as int]@, k as int)[t].0 < rs[r as int].len());
            assert(0 <= o < out.len() && out[o].read == r && out[o].ctg == ss[s].ctg
                && out[o].group == ss[s].group);
        }
    }
    out
}


/// Rows for read `r` alone, as `map_sunks_to_seq` gives them.
#[verifier::opaque]
pub open spec fn read_table(reads: Seq<Vec<u8>>, sunks: Seq<SunkRow>, k: int, r: int, out: Seq<ReadSunk>) -> bool {
    &&& forall|q: int| 0 <= q < out.len() ==> (#[trigger] out[q]).read == r
    &&& forall|q: int| 0 <= q < out.len() ==> row_sound(#[trigger] out[q], reads, sunks, k, r)
    &&& forall|s: int, t: int|
        #[trigger] is_hit(reads, sunks, k, r, s, t) ==> exists|q: int|
            0 <= q < out.len() && (#[trigger] out[q]).read == r && out[q].ctg == sunks[s].ctg
                && out[q].group == sunks[s].group && (out[q].cpos < sunks[s].cpos || (out[q].cpos
                == sunks[s].cpos && out[q].rpos <= hit_rpos(reads, k, r, t)))
    &&& forall|q1: int, q2: int|
        0 <= q1 < out.len() && 0 <= q2 < out.len() && q1 != q2 && (#[trigger] out[q1]).ctg == (
        #[trigger] out[q2]).ctg ==> out[q1].group != out[q2].group
    &&& forall|q1: int, q2: int|
        0 <= q1 < q2 < out.len() ==> lex4_lt(tail_key(#[trigger] out[q1]), tail_key(#[trigger] out[q2]))
}

/// The mapped table of the reads before `r`.
#[verifier::opaque]
pub open spec fn table_upto(reads: Seq<Vec<u8>>, sunks: Seq<SunkRow>, k: int, rows: Seq<ReadSunk>, r: int) -> bool {
    &&& forall|q: int| 0 <= q < rows.len() ==> (#[trigger] rows[q]).read < r
    &&& forall|q: int|
        0 <= q < rows.len() ==> row_sound(#[trigger] rows[q], reads, sunks, k, rows[q].read as int)
    &&& forall|r2: int, s: int, t: int|
        0 <= r2 < r && #[trigger] is_hit(reads, sunks, k, r2, s, t) ==> exists|q: int|
            0 <= q < rows.len() && (#[trigger] rows[q]).read == r2 && rows[q].ctg == sunks[s].ctg
                && rows[q].group == sunks[s].group && (rows[q].cpos < sunks[s].cpos || (rows[q].cpos
                == sunks[s].cpos && rows[q].rpos <= hit_rpos(reads, k, r2, t)))
    &&& forall|q1: int, q2: int|
        0 <= q1 < rows.len() && 0 <= q2 < rows.len() && q1 != q2 && (#[trigger] rows[q1]).read == (
        #[trigger] rows[q2]).read && rows[q1].ctg == rows[q2].ctg ==> rows[q1].group != rows[q2].group
    &&& forall|q1: int, q2: int|
        0 <= q1 < q2 < rows.len() ==> row_lt(#[trigger] rows[q1], #[trigger] rows[q2])
}

proof fn lemma_table_append(
    reads: Seq<Vec<u8>>,
    sunks: Seq<SunkRow>,
    k: int,
    rows: Seq<ReadSunk>,
    o: Seq<ReadSunk>,
    r: int,
)
    requires
        0 <= r,
        table_upto(reads, sunks, k, rows, r),
        read_table(reads, sunks, k, r, o),
    ensures
        table_upto(reads, sunks, k, rows + o, r + 1),
{
    reveal(table_upto);
    reveal(read_table);
    let all = rows + o;
    let m = rows.len() as int;
    assert forall|q: int| 0 <= q < all.len() implies (#[trigger] all[q]).read < r + 1 by {
        if q >= m {
            assert(all[q] == o[q - m]);
        }
    }
    assert forall|q: int|
        0 <= q < all.len() implies row_sound(#[trigger] all[q], reads, sunks, k, all[q].read as int) by {
        if q >= m {
            assert(all[q] == o[q - m]);
        } else {
            assert(all[q] == rows[q]);
        }
    }
    assert forall|r2: int, s: int, t: int|
        0 <= r2 < r + 1 && #[trigger] is_hit(reads, sunks, k, r2, s, t) implies exists|q: int|
        0 <= q < all.len() && (#[trigger] all[q]).read == r2 && all[q].ctg == sunks[s].ctg
            && all[q].group == sunks[s].group && (all[q].cpos < sunks[s].cpos || (all[q].cpos
            == sunks[s].cpos && all[q].rpos <= hit_rpos(reads, k, r2, t))) by {
        if r2 < r {
            let q = choose|q: int|
                0 <= q < rows.len() && (#[trigger] rows[q]).read == r2 && rows[q].ctg == sunks[s].ctg
                    && rows[q].group == sunks[s].group && (rows[q].cpos < sunks[s].cpos || (
                rows[q].cpos == sunks[s].cpos && rows[q].rpos <= hit_rpos(reads, k, r2, t)));
            assert(all[q] == rows[q]);
        } else {
            let q = choose|q: int|
                0 <= q < o.len() && (#[trigger] o[q]).read == r && o[q].ctg == sunks[s].ctg
                    && o[q].group == sunks[s].group && (o[q].cpos < sunks[s].cpos || (o[q].cpos
                    == sunks[s].cpos && o[q].rpos <= hit_rpos(reads, k, r2, t)));
            assert(all[m + q] == o[q]);
        }
    }
    assert forall|q1: int, q2: int|
        0 <= q1 < all.len() && 0 <= q2 < all.len() && q1 != q2 && (#[trigger] all[q1]).read == (
        #[trigger] all[q2]).read && all[q1].ctg == all[q2].ctg implies all[q1].group
        != all[q2].group by {
        if q1 >= m {
            assert(all[q1] == o[q1 - m]);
        } else {
            assert(all[q1] == rows[q1]);
        }
        if q2 >= m {
            assert(all[q2] == o[q2 - m]);
        } else {
            assert(all[q2] == rows[q2]);
        }
    }
    assert forall|q1: int, q2: int| 0 <= q1 < q2 < all.len() implies row_lt(
        #[trigger] all[q1],
        #[trigger] all[q2],
    ) by {
        if q1 >= m {
            assert(all[q1] == o[q1 - m]);
        } else {
            assert(all[q1] == rows[q1]);
        }
        if q2 >= m {
            assert(all[q2] == o[q2 - m]);
        } else {
            assert(all[q2] == rows[q2]);
        }
    }
}

/// Maps the SUNK table onto reads: every SUNK is looked up, on both strands,
/// in every read, and for each read, contig and group the occurrence that
/// comes first by contig position, then read position, is kept. Rows come
/// ordered by read, then read position.
pub fn map_sunks_to_reads(reads: &Vec<Vec<u8>>, sunks: &Vec<SunkRow>, kmer_size: usize) -> (res:
    Result<Vec<ReadSunk>, SunkError>)
    requires
        1 <= kmer_size <= 31,
    ensures
        sunks.len() == 0 ==> res == Err::<Vec<ReadSunk>, SunkError>(SunkError::EmptySunkSet),
        sunks.len() > 0 ==> (res is Err <==> exists|i: int|
            0 <= i < reads.len() && #[trigger] reads[i].len() > u32::MAX),
        sunks.len() > 0 && res is Err ==> res == Err::<Vec<ReadSunk>, SunkError>(
            SunkError::SequenceTooLong,
        ),
        res matches Ok(rows) ==> mapped_table(reads@, sunks@, kmer_size as int, rows@),
{
    let k = kmer_size;
    if sunks.len() == 0 {
        return Err(SunkError::EmptySunkSet);
    }
    let n = reads.len();
    let mut i: usize = 0;
    while i < n
        invariant
            n == reads.len(),
            0 <= i <= n,
            forall|q: int| 0 <= q < i ==> #[trigger] reads[q].len() <= u32::MAX,
            sunks.len() > 0,
        decreases n - i,
    {
        if reads[i].len() > 4294967295 {
            return Err(SunkError::SequenceTooLong);
        }
        i += 1;
    }
    let index = build_index(sunks);
    let mut rows: Vec<ReadSunk> = Vec::new();
    proof {
        reveal(table_upto);
    }
    let mut r: usize = 0;
    while r < n
        invariant
            n == reads.len(),
            0 <= r <= n,
            1 <= k <= 31,
            forall|q: int| 0 <= q < n ==> #[trigger] reads[q].len() <= u32::MAX,
            forall|c: u64, q: int|
                #![trigger index@[c]@[q]]
                index@.contains_key(c) && 0 <= q < index@[c].len() ==> index@[c]@[q] < sunks.len()
                    && sunks[index@[c]@[q] as int].kmer == c,
            forall|s: int|
                0 <= s < sunks.len() ==> index@.contains_key(#[trigger] sunks[s].kmer)
                    && index@[sunks[s].kmer]@.contains(s as usize),
            table_upto(reads@, sunks@, k as int, rows@, r as int),
            sunks.len() > 0,
        decreases n - r,
    {
        let mut out = map_sunks_to_seq(reads, r, sunks, &index, k);
        proof {
            lemma_table_append(reads@, sunks@, k as int, rows@, out@, r as int);
        }
        rows.append(&mut out);
        r += 1;
    }
    proof {
        reveal(table_upto);
    }
    Ok(rows)
}


/// Row `x` belongs to the contig its read was assigned to.
pub open spec fn joined(x: ReadSunk, best: Seq<Assignment>) -> bool {
    exists|q: int| 0 <= q < best.len() && (#[trigger] best[q]).read == x.read && best[q].ctg == x.ctg
}

pub open spec fn keep_joined(rows: Seq<ReadSunk>, best: Seq<Assignment>) -> Seq<ReadSunk>
    decreases rows.len(),
{
    if rows.len() == 0 {
        Seq::empty()
    } else {
        keep_joined(rows.drop_last(), best) + if joined(rows.last(), best) {
            seq![rows.last()]
        } else {
            Seq::empty()
        }
    }
}

/// The rows of the mapped table whose read is assigned to the row's contig,
/// in table order.
pub fn get_good_read_sunks(df_read_sunks: &Vec<ReadSunk>, df_best_reads_asm: &Vec<Assignment>) -> (out:
    Vec<ReadSunk>)
    requires
        forall|q1: int, q2: int|
            0 <= q1 < df_best_reads_asm.len() && 0 <= q2 < df_best_reads_asm.len() && q1 != q2
                ==> (#[trigger] df_best_reads_asm[q1]).read != (#[trigger] df_best_reads_asm[q2]).read,
    ensures
        out@ == keep_joined(df_read_sunks@, df_best_reads_asm@),
{
    let best = df_best_reads_asm;
    let mut m: HashMap<usize, usize> = HashMap::new();
    let mut q: usize = 0;
    while q < best.len()
        invariant
            0 <= q <= best.len(),
            forall|r: usize|
                #[trigger] m@.contains_key(r) <==> exists|q2: int| 0 <= q2 < q && (#[trigger] best[q2]).read == r,
            forall|q2: int| 0 <= q2 < q ==> m@[(#[trigger] best[q2]).read] == best[q2].ctg,
            forall|q1: int, q2: int|
                0 <= q1 < best.len() && 0 <= q2 < best.len() && q1 != q2 ==> (#[trigger] best[q1]).read
                    != (#[trigger] best[q2]).read,
        decreases best.len() - q,
    {
        let a = best[q];
        m.insert(a.read, a.ctg);
        proof {
            assert forall|r: usize|
                #[trigger] m@.contains_key(r) <==> exists|q2: int| 0 <= q2 < q + 1 && (#[trigger] best[q2]).read == r by {
                if r == a.read {
                    assert(best[q as int].read == r);
                }
            }
        }
        q += 1;
    }
    let rows = df_read_sunks;
    let mut out: Vec<ReadSunk> = Vec::new();
    let mut j: usize = 0;
    while j < rows.len()
        invariant
            0 <= j <= rows.len(),
            forall|r: usize|
                #[trigger] m@.contains_key(r) <==> exists|q2: int| 0 <= q2 < best.len() && (#[trigger] best[q2]).read == r,
            forall|q2: int| 0 <= q2 < best.len() ==> m@[(#[trigger] best[q2]).read] == best[q2].ctg,
            out@ == keep_joined(rows@.take(j as int), best@),
        decreases rows.len() - j,
    {
        let x = rows[j];
        assert(rows@.take(j + 1).drop_last() =~= rows@.take(j as int));
        let keep = match m.get(&x.read) {
            Some(c) => *c == x.ctg,
            None => false,
        };
        proof {
            if joined(x, best@) {
                let q2 = choose|q2: int| 0 <= q2 < best.len() && (#[trigger] best@[q2]).read == x.read && best@[q2].ctg == x.ctg;
                assert(m@.contains_key(x.read));
            }
            if m@.contains_key(x.read) {
                let q2 = choose|q2: int| 0 <= q2 < best.len() && (#[trigger] best[q2]).read == x.read;
                assert(m@[best[q2].read] == best[q2].ctg);
            }
        }
        if keep {
            out.push(x);
        }
        j += 1;
    }
    assert(rows@.take(rows.len() as int) =~= rows@);
    out
}

} // verus!
