use vstd::prelude::*;

use crate::map::{mapped_table, row_lt, ReadSunk};
use crate::sunks::SunkRow;
use crate::table::{ints, sort_ints};

verus! {

broadcast use vstd::seq_lib::group_to_multiset_ensures;

pub const DEFAULT_BANDWIDTH: u64 = 2500;

pub const DEFAULT_GOOD_SUNK_THR: u64 = 1;

/// Orientation of a read against its contig.
#[derive(Clone, Copy, Debug, PartialEq, Eq, Structural)]
pub enum Strand {
    Plus,
    Minus,
}

/// A read assigned to the contig that best supports it.
#[derive(Clone, Copy, Debug, PartialEq, Eq)]
pub struct Assignment {
    pub read: usize,
    pub ctg: usize,
    pub sunks_within_bandwidth: u64,
    pub ort: Strand,
}

/// The rows of read `r` on contig `c`, in table order.
pub open spec fn pick(rows: Seq<ReadSunk>, r: usize, c: usize) -> Seq<ReadSunk>
    decreases rows.len(),
{
    if rows.len() == 0 {
        Seq::empty()
    } else {
        let x = rows.last();
        pick(rows.drop_last(), r, c) + if x.read == r && x.ctg == c {
            seq![x]
        } else {
            Seq::empty()
        }
    }
}

/// Both axes ascend from the first row of the group to its last: the mean
/// of consecutive differences is positive on each.
pub open spec fn is_plus(g: Seq<ReadSunk>) -> bool {
    g.last().cpos > g[0].cpos && g.last().rpos > g[0].rpos
}

/// Offset of the read on the contig implied by one SUNK.
pub open spec fn apos(x: ReadSunk, plus: bool) -> int {
    if plus {
        x.cpos - x.rpos
    } else {
        x.cpos + x.rpos
    }
}

pub open spec fn apos_seq(g: Seq<ReadSunk>, plus: bool) -> Seq<int> {
    g.map_values(|x: ReadSunk| apos(x, plus))
}

/// Twice the median of `v`: the sum of its two middle values once sorted
/// (the same value twice when the length is odd).
pub open spec fn median2(v: Seq<int>) -> int {
    let s = v.sort();
    s[(s.len() - 1) / 2] + s[(s.len() / 2) as int]
}

pub open spec fn abs(x: int) -> int {
    if x < 0 {
        -x
    } else {
        x
    }
}

/// Rows of `g` whose offset lies strictly within `bw` of the median
/// (`m2` is twice the median).
pub open spec fn band_count(g: Seq<ReadSunk>, plus: bool, m2: int, bw: int) -> nat
    decreases g.len(),
{
    if g.len() == 0 {
        0
    } else {
        band_count(g.drop_last(), plus, m2, bw) + if abs(2 * apos(g.last(), plus) - m2) < 2 * bw {
            1nat
        } else {
            0nat
        }
    }
}

/// The number of SUNKs of a group within the bandwidth of its median offset.
pub open spec fn good_count(g: Seq<ReadSunk>, bw: int) -> nat {
    band_count(g, is_plus(g), median2(apos_seq(g, is_plus(g))), bw)
}

pub open spec fn strand_of(g: Seq<ReadSunk>) -> Strand {
    if is_plus(g) {
        Strand::Plus
    } else {
        Strand::Minus
    }
}

/// Contig `c` is the best for read `r`: it has at least two SUNKs of the
/// read, no contig with two or more has more SUNKs in band, and none with as
/// many has a lower index.
pub open spec fn best_ctg(rows: Seq<ReadSunk>, r: usize, c: usize, bw: int) -> bool {
    &&& pick(rows, r, c).len() >= 2
    &&& forall|c2: usize| #[trigger]
        pick(rows, r, c2).len() >= 2 ==> good_count(pick(rows, r, c2), bw) < good_count(
            pick(rows, r, c),
            bw,
        ) || (good_count(pick(rows, r, c2), bw) == good_count(pick(rows, r, c), bw) && c <= c2)
}

/// Rows are grouped by read, in ascending read order.
pub open spec fn by_read(rows: Seq<ReadSunk>) -> bool {
    forall|i: int, j: int| 0 <= i < j < rows.len() ==> (#[trigger] rows[i]).read <= (#[trigger] rows[j]).read
}


proof fn lemma_pick_skip(rows: Seq<ReadSunk>, r: usize, c: usize, from: int, to: int)
    requires
        0 <= from <= to <= rows.len(),
        forall|i: int| from <= i < to ==> (#[trigger] rows[i]).read != r,
    ensures
        pick(rows.take(to), r, c) == pick(rows.take(from), r, c),
    decreases to - from,
{
    if to > from {
        assert(rows.take(to).drop_last() =~= rows.take(to - 1));
        lemma_pick_skip(rows, r, c, from, to - 1);
    }
}

/// Every row of a group is a row of the table with that read and contig.
proof fn lemma_pick_rows(rows: Seq<ReadSunk>, r: usize, c: usize, j: int)
    requires
        0 <= j < pick(rows, r, c).len(),
    ensures
        exists|i: int| 0 <= i < rows.len() && #[trigger] rows[i] == pick(rows, r, c)[j],
        pick(rows, r, c)[j].read == r && pick(rows, r, c)[j].ctg == c,
    decreases rows.len(),
{
    let p = pick(rows.drop_last(), r, c);
    if j < p.len() {
        lemma_pick_rows(rows.drop_last(), r, c, j);
        let i = choose|i: int| 0 <= i < rows.drop_last().len() && #[trigger] rows.drop_last()[i] == p[j];
        assert(rows[i] == p[j]);
    } else {
        assert(rows[rows.len() - 1] == pick(rows, r, c)[j]);
    }
}

/// The rows of read `r` on contig `c`, read off the block `b .. e` that holds
/// all rows of read `r`.
fn group_of(rows: &Vec<ReadSunk>, b: usize, e: usize, r: usize, c: usize) -> (g: Vec<ReadSunk>)
    requires
        b <= e <= rows.len(),
        forall|i: int| 0 <= i < b ==> (#[trigger] rows[i]).read != r,
        forall|i: int| e <= i < rows.len() ==> (#[trigger] rows[i]).read != r,
    ensures
        g@ == pick(rows@, r, c),
{
    proof {
        lemma_pick_skip(rows@, r, c, 0, b as int);
        assert(rows@.take(0) =~= Seq::<ReadSunk>::empty());
    }
    let mut g: Vec<ReadSunk> = Vec::new();
    let mut j: usize = b;
    while j < e
        invariant
            b <= j <= e <= rows.len(),
            g@ == pick(rows@.take(j as int), r, c),
        decreases e - j,
    {
        let x = rows[j];
        assert(rows@.take(j + 1).drop_last() =~= rows@.take(j as int));
        if x.read == r && x.ctg == c {
            g.push(x);
        }
        j += 1;
    }
    proof {
        lemma_pick_skip(rows@, r, c, e as int, rows.len() as int);
        assert(rows@.take(rows.len() as int) =~= rows@);
    }
    g
}

/// SUNKs of a group within the bandwidth of its median offset, and the
/// group's orientation.
fn good_of(g: &Vec<ReadSunk>, bw: u64) -> (res: (u64, Strand))
    requires
        g.len() >= 2,
    ensures
        res.0 == good_count(g@, bw as int),
        res.1 == strand_of(g@),
{
    let n = g.len();
    let plus = g[n - 1].cpos > g[0].cpos && g[n - 1].rpos > g[0].rpos;
    let mut av: Vec<i128> = Vec::new();
    let mut j: usize = 0;
    while j < n
        invariant
            n == g.len(),
            0 <= j <= n,
            ints(av@) == apos_seq(g@, plus).take(j as int),
        decreases n - j,
    {
        let x = g[j];
        let a: i128 = if plus {
            x.cpos as i128 - x.rpos as i128
        } else {
            x.cpos as i128 + x.rpos as i128
        };
        assert(ints(av@).len() == av@.len());
        av.push(a);
        assert(apos_seq(g@, plus)[j as int] == apos(g@[j as int], plus));
        assert(a as int == apos(g@[j as int], plus));
        assert(av@.len() == j + 1);
        assert(av@[j as int] == a);
        assert(ints(av@).len() == av@.len());
        assert(ints(av@)[j as int] == a as int);
        assert(ints(av@) =~= apos_seq(g@, plus).take(j + 1));
        j += 1;
    }
    assert(apos_seq(g@, plus).take(n as int) =~= apos_seq(g@, plus));
    sort_ints(&mut av);
    let ghost sorted = apos_seq(g@, plus).sort();
    proof {
        apos_seq(g@, plus).lemma_sort_ensures();
        assert(sorted.to_multiset().len() == sorted.len());
        assert(apos_seq(g@, plus).to_multiset().len() == apos_seq(g@, plus).len());
        assert(ints(av@).len() == av.len());
        assert(sorted.len() == n);
        assert forall|i: int| 0 <= i < n implies -0x1_0000_0000_0000_0000 <= #[trigger] sorted[i]
            <= 0x2_0000_0000_0000_0000 by {
            assert(sorted.contains(sorted[i]));
            assert(sorted.to_multiset().count(sorted[i]) > 0);
            assert(apos_seq(g@, plus).contains(sorted[i]));
            let q = choose|q: int| 0 <= q < n && apos_seq(g@, plus)[q] == sorted[i];
            assert(apos_seq(g@, plus)[q] == apos(g@[q], plus));
        }
    }
    assert(av[((n - 1) / 2) as int] as int == sorted[(n - 1) / 2]);
    assert(av[(n / 2) as int] as int == sorted[(n / 2) as int]);
    let m2: i128 = av[(n - 1) / 2] + av[n / 2];
    let bw2: i128 = 2 * (bw as i128);
    let mut cnt: u64 = 0;
    let mut j: usize = 0;
    while j < n
        invariant
            n == g.len(),
            0 <= j <= n,
            cnt == band_count(g@.take(j as int), plus, m2 as int, bw as int),
            cnt <= j,
            bw2 == 2 * bw,
            -0x2_0000_0000_0000_0000 <= m2 <= 0x4_0000_0000_0000_0000,
        decreases n - j,
    {
        let x = g[j];
        let a: i128 = if plus {
            x.cpos as i128 - x.rpos as i128
        } else {
            x.cpos as i128 + x.rpos as i128
        };
        let d: i128 = 2 * a - m2;
        let ad: i128 = if d < 0 {
            -d
        } else {
            d
        };
        assert(g@.take(j + 1).drop_last() =~= g@.take(j as int));
        if ad < bw2 {
            cnt += 1;
        }
        j += 1;
    }
    assert(g@.take(n as int) =~= g@);
    let st = if plus {
        Strand::Plus
    } else {
        Strand::Minus
    };
    (cnt, st)
}


/// The best contig of the read whose rows are exactly `b .. e`, if any contig
/// holds two or more of its SUNKs, with its count and orientation.
fn best_for_block(rows: &Vec<ReadSunk>, b: usize, e: usize, bw: u64) -> (res: Option<(usize, u64, Strand)>)
    requires
        b < e <= rows.len(),
        forall|i: int| b <= i < e ==> (#[trigger] rows[i]).read == rows[b as int].read,
        forall|i: int| 0 <= i < b ==> (#[trigger] rows[i]).read != rows[b as int].read,
        forall|i: int| e <= i < rows.len() ==> (#[trigger] rows[i]).read != rows[b as int].read,
    ensures
        res is None ==> forall|c: usize| #[trigger] pick(rows@, rows[b as int].read, c).len() < 2,
        res matches Some(x) ==> best_ctg(rows@, rows[b as int].read, x.0, bw as int) && x.1
            == good_count(pick(rows@, rows[b as int].read, x.0), bw as int) && x.2 == strand_of(
            pick(rows@, rows[b as int].read, x.0),
        ),
{
    let r = rows[b].read;
    let ghost rs = rows@;
    let mut best: Option<(usize, u64, Strand)> = None;
    let mut p: usize = b;
    while p < e
        invariant
            b <= p <= e <= rows.len(),
            rs == rows@,
            r == rows[b as int].read,
            forall|i: int| b <= i < e ==> (#[trigger] rows[i]).read == r,
            forall|i: int| 0 <= i < b ==> (#[trigger] rows[i]).read != r,
            forall|i: int| e <= i < rows.len() ==> (#[trigger] rows[i]).read != r,
            best is None ==> forall|i: int|
                b <= i < p ==> pick(rs, r, (#[trigger] rs[i]).ctg).len() < 2,
            best matches Some(x) ==> {
                &&& pick(rs, r, x.0).len() >= 2
                &&& x.1 == good_count(pick(rs, r, x.0), bw as int)
                &&& x.2 == strand_of(pick(rs, r, x.0))
                &&& forall|i: int|
                    b <= i < p && pick(rs, r, (#[trigger] rs[i]).ctg).len() >= 2 ==> good_count(
                        pick(rs, r, rs[i].ctg),
                        bw as int,
                    ) < x.1 || (good_count(pick(rs, r, rs[i].ctg), bw as int) == x.1 && x.0
                        <= rs[i].ctg)
            },
        decreases e - p,
    {
        let c = rows[p].ctg;
        let g = group_of(rows, b, e, r, c);
        if g.len() >= 2 {
            let (cnt, st) = good_of(&g, bw);
            match best {
                None => {
                    best = Some((c, cnt, st));
                },
                Some(x) => {
                    if cnt > x.1 || (cnt == x.1 && c < x.0) {
                        best = Some((c, cnt, st));
                    }
                },
            }
        }
        p += 1;
    }
    proof {
        assert forall|c2: usize| #[trigger] pick(rs, r, c2).len() >= 2 implies exists|i: int|
            b <= i < e && rs[i].ctg == c2 by {
            lemma_pick_rows(rs, r, c2, 0);
            let i = choose|i: int| 0 <= i < rs.len() && #[trigger] rs[i] == pick(rs, r, c2)[0];
            assert(b <= i < e);
        }
    }
    best
}

pub open spec fn bw_of(bandwidth: Option<u64>) -> int {
    match bandwidth {
        Some(b) => b as int,
        None => DEFAULT_BANDWIDTH as int,
    }
}

pub open spec fn thr_of(threshold: Option<u64>) -> int {
    match threshold {
        Some(t) => t as int,
        None => DEFAULT_GOOD_SUNK_THR as int,
    }
}

/// Some contig holds two or more SUNKs of read `r`, more than `thr` of them
/// in band.
pub open spec fn assignable(rows: Seq<ReadSunk>, r: usize, bw: int, thr: int) -> bool {
    exists|c: usize| #[trigger] pick(rows, r, c).len() >= 2 && good_count(pick(rows, r, c), bw) > thr
}

pub open spec fn assigned(out: Seq<Assignment>, r: usize) -> bool {
    exists|q: int| 0 <= q < out.len() && (#[trigger] out[q]).read == r
}

/// Assigns each read to its best contig and orientation. For each read and
/// contig with at least two SUNKs, the orientation is `+` when contig and
/// read positions both ascend from the first row to the last, the offset of
/// each SUNK is `cpos - rpos` (`+`) or `cpos + rpos` (`-`), and the SUNKs
/// whose offset lies strictly within `bandwidth` of the median offset are
/// counted. Each read keeps the contig with the highest count, the earliest
/// in the table on a tie, if that count exceeds `good_sunk_threshold`.
/// Defaults: bandwidth 2500, threshold 1.
pub fn assign_read_to_ctg_w_ort(
    rows: &Vec<ReadSunk>,
    bandwidth: Option<u64>,
    good_sunk_threshold: Option<u64>,
) -> (out: Vec<Assignment>)
    requires
        by_read(rows@),
    ensures
        forall|q1: int, q2: int|
            0 <= q1 < q2 < out.len() ==> (#[trigger] out[q1]).read < (#[trigger] out[q2]).read,
        forall|q: int|
            0 <= q < out.len() ==> {
                let a = #[trigger] out[q];
                let g = pick(rows@, a.read, a.ctg);
                &&& best_ctg(rows@, a.read, a.ctg, bw_of(bandwidth))
                &&& a.sunks_within_bandwidth == good_count(g, bw_of(bandwidth))
                &&& a.ort == strand_of(g)
                &&& a.sunks_within_bandwidth > thr_of(good_sunk_threshold)
            },
        forall|r: usize|
            #[trigger] assigned(out@, r) <==> assignable(
                rows@,
                r,
                bw_of(bandwidth),
                thr_of(good_sunk_threshold),
            ),
{
    let bw: u64 = match bandwidth {
        Some(x) => x,
        None => DEFAULT_BANDWIDTH,
    };
    let thr: u64 = match good_sunk_threshold {
        Some(x) => x,
        None => DEFAULT_GOOD_SUNK_THR,
    };
    let ghost rs = rows@;
    let n = rows.len();
    let mut out: Vec<Assignment> = Vec::new();
    proof {
        assert forall|r2: usize| n > 0 && r2 < rows[0].read implies !assignable(rs, r2, bw as int, thr as int) by {
            assert forall|c: usize| #[trigger] pick(rs, r2, c).len() < 2 by {
                if pick(rs, r2, c).len() >= 2 {
                    lemma_pick_rows(rs, r2, c, 0);
                    let i = choose|i: int| 0 <= i < rs.len() && #[trigger] rs[i] == pick(rs, r2, c)[0];
                    if i > 0 {
                        assert(rs[0].read <= rs[i].read);
                    }
                }
            }
        }
        assert forall|r2: usize| n == 0 implies !assignable(rs, r2, bw as int, thr as int) by {
            assert forall|c: usize| #[trigger] pick(rs, r2, c).len() < 2 by {
                if pick(rs, r2, c).len() >= 2 {
                    lemma_pick_rows(rs, r2, c, 0);
                }
            }
        }
    }
    let mut b: usize = 0;
    while b < n
        invariant
            n == rows.len(),
            rs == rows@,
            by_read(rs),
            0 <= b <= n,
            bw == bw_of(bandwidth),
            thr == thr_of(good_sunk_threshold),
            b < n ==> forall|i: int| 0 <= i < b ==> (#[trigger] rows[i]).read < rows[b as int].read,
            b < n ==> forall|q: int| 0 <= q < out.len() ==> (#[trigger] out[q]).read < rows[b as int].read,
            forall|q1: int, q2: int|
                0 <= q1 < q2 < out.len() ==> (#[trigger] out[q1]).read < (#[trigger] out[q2]).read,
            forall|q: int|
                0 <= q < out.len() ==> {
                    let a = #[trigger] out[q];
                    let g = pick(rs, a.read, a.ctg);
                    &&& best_ctg(rs, a.read, a.ctg, bw as int)
                    &&& a.sunks_within_bandwidth == good_count(g, bw as int)
                    &&& a.ort == strand_of(g)
                    &&& a.sunks_within_bandwidth > thr
                },
            forall|r: usize|
                #[trigger] assigned(out@, r) <==> (assignable(rs, r, bw as int, thr as int) && (b
                    >= n || r < rows[b as int].read)),
        decreases n - b,
    {
        let r = rows[b].read;
        let mut e: usize = b + 1;
        while e < n && rows[e].read == r
            invariant
                b < e <= n,
                n == rows.len(),
                r == rows[b as int].read,
                forall|i: int| b <= i < e ==> (#[trigger] rows[i]).read == r,
            decreases n - e,
        {
            e += 1;
        }
        proof {
            assert forall|i: int| e <= i < n implies (#[trigger] rows[i]).read > r by {
                assert(rows[e as int].read != r);
                assert(rs[b as int].read <= rs[e as int].read);
                if i > e {
                    assert(rs[e as int].read <= rs[i].read);
                }
            }
            assert forall|i: int| 0 <= i < b implies (#[trigger] rows[i]).read != r by {}
        }
        let best = best_for_block(rows, b, e, bw);
        let ghost old_out = out@;
        match best {
            Some(x) => {
                if x.1 > thr {
                    out.push(Assignment { read: r, ctg: x.0, sunks_within_bandwidth: x.1, ort: x.2 });
                }
            },
            None => {},
        }
        proof {
            assert forall|r2: usize| (forall|i: int| 0 <= i < n ==> (#[trigger] rows[i]).read != r2)
                implies !assignable(rs, r2, bw as int, thr as int) by {
                assert forall|c: usize| #[trigger] pick(rs, r2, c).len() < 2 by {
                    if pick(rs, r2, c).len() >= 2 {
                        lemma_pick_rows(rs, r2, c, 0);
                    }
                }
            }
            assert forall|r2: usize|
                #[trigger] assigned(out@, r2) <==> (assignable(rs, r2, bw as int, thr as int) && (e
                    >= n || r2 < rows[e as int].read)) by {
                if r2 < r {
                    if assigned(out@, r2) {
                        let q = choose|q: int| 0 <= q < out.len() && (#[trigger] out@[q]).read == r2;
                        assert(q < old_out.len());
                        assert(assigned(old_out, r2));
                    }
                    if assigned(old_out, r2) {
                        let q = choose|q: int| 0 <= q < old_out.len() && (#[trigger] old_out[q]).read == r2;
                        assert(out@[q] == old_out[q]);
                    }
                } else if r2 == r {
                    if assigned(old_out, r2) {
                        let q = choose|q: int| 0 <= q < old_out.len() && (#[trigger] old_out[q]).read == r2;
                    }
                    if assignable(rs, r2, bw as int, thr as int) {
                        let c = choose|c: usize| #[trigger] pick(rs, r2, c).len() >= 2 && good_count(pick(rs, r2, c), bw as int) > thr;
                        assert(out@[old_out.len() as int].read == r);
                    }
                    if assigned(out@, r2) {
                        let q = choose|q: int| 0 <= q < out.len() && (#[trigger] out@[q]).read == r2;
                        assert(q == old_out.len());
                        let x = best->Some_0;
                        assert(pick(rs, r, x.0).len() >= 2 && good_count(pick(rs, r, x.0), bw as int) > thr);
                    }
                } else {
                    if assigned(out@, r2) {
                        let q = choose|q: int| 0 <= q < out.len() && (#[trigger] out@[q]).read == r2;
                        if q < old_out.len() {
                            assert(old_out[q].read < r);
                        }
                    }
                    if assigned(old_out, r2) {
                        let q = choose|q: int| 0 <= q < old_out.len() && (#[trigger] old_out[q]).read == r2;
                    }
                    if e >= n || r2 < rows[e as int].read {
                        assert forall|i: int| 0 <= i < n implies (#[trigger] rows[i]).read != r2 by {
                            if i >= e {
                                assert(rs[e as int].read <= rs[i].read);
                            }
                        }
                    }
                }
            }
            if e < n {
                assert forall|i: int| 0 <= i < e implies (#[trigger] rows[i]).read < rows[e as int].read by {
                    assert(rows[e as int].read > r);
                }
            }
        }
        b = e;
    }
    out
}


/// The table that `map_sunks_to_reads` returns is grouped by read, as
/// `assign_read_to_ctg_w_ort` requires.
pub proof fn lemma_mapped_table_by_read(reads: Seq<Vec<u8>>, sunks: Seq<SunkRow>, k: int, rows: Seq<ReadSunk>)
    requires
        mapped_table(reads, sunks, k, rows),
    ensures
        by_read(rows),
{
    assert forall|i: int, j: int| 0 <= i < j < rows.len() implies (#[trigger] rows[i]).read <= (#[trigger] rows[j]).read by {
        assert(row_lt(rows[i], rows[j]));
    }
}

} // verus!
