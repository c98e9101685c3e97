use std::collections::HashMap;
use vstd::prelude::*;

use crate::map::ReadSunk;
use crate::table::{lex4_le, sort_keys, sorted4, Key4};

verus! {

broadcast use {vstd::std_specs::hash::group_hash_axioms, vstd::seq_lib::group_to_multiset_ensures};

/// A SUNK group of a contig with its coverage: the number of read-SUNK rows
/// that carry it.
#[derive(Clone, Copy, Debug, PartialEq, Eq)]
pub struct BadSunk {
    pub ctg: usize,
    pub group: u64,
    pub count: u64,
}

/// Rows of `rows` that carry SUNK id `(c, g)`.
pub open spec fn id_count(rows: Seq<ReadSunk>, c: usize, g: u64) -> nat
    decreases rows.len(),
{
    if rows.len() == 0 {
        0
    } else {
        id_count(rows.drop_last(), c, g) + if rows.last().ctg == c && rows.last().group == g {
            1nat
        } else {
            0nat
        }
    }
}

pub open spec fn id_lt(a: BadSunk, b: BadSunk) -> bool {
    a.ctg < b.ctg || (a.ctg == b.ctg && a.group < b.group)
}

pub open spec fn listed_id(cov: Seq<BadSunk>, c: usize, g: u64) -> bool {
    exists|q: int| 0 <= q < cov.len() && (#[trigger] cov[q]).ctg == c && cov[q].group == g
}

/// `cov` is the coverage table of `rows`: each SUNK id that a row carries,
/// once, in id order, with the number of rows that carry it.
pub open spec fn coverage_table(rows: Seq<ReadSunk>, cov: Seq<BadSunk>) -> bool {
    &&& forall|q: int|
        0 <= q < cov.len() ==> (#[trigger] cov[q]).count == id_count(rows, cov[q].ctg, cov[q].group)
            && cov[q].count > 0
    &&& forall|i: int| 0 <= i < rows.len() ==> listed_id(cov, (#[trigger] rows[i]).ctg, rows[i].group)
    &&& forall|q1: int, q2: int| 0 <= q1 < q2 < cov.len() ==> id_lt(#[trigger] cov[q1], #[trigger] cov[q2])
}

pub open spec fn cnt_key(s: Seq<Key4>, v: Key4) -> nat
    decreases s.len(),
{
    if s.len() == 0 {
        0
    } else {
        cnt_key(s.drop_last(), v) + if s.last() == v {
            1nat
        } else {
            0nat
        }
    }
}

proof fn lemma_cnt_ms(s: Seq<Key4>, v: Key4)
    ensures
        cnt_key(s, v) == s.to_multiset().count(v),
    decreases s.len(),
{
    if s.len() > 0 {
        let p = s.drop_last();
        lemma_cnt_ms(p, v);
        assert(s =~= p.push(s.last()));
    }
}

/// No element from `m` on equals `v`: the count is that of the prefix.
proof fn lemma_cnt_tail(s: Seq<Key4>, v: Key4, m: int)
    requires
        0 <= m <= s.len(),
        forall|t: int| m <= t < s.len() ==> s[t] != v,
    ensures
        cnt_key(s, v) == cnt_key(s.take(m), v),
    decreases s.len() - m,
{
    if m < s.len() {
        let p = s.drop_last();
        assert(p.take(m) =~= s.take(m));
        lemma_cnt_tail(p, v, m);
    } else {
        assert(s.take(m) =~= s);
    }
}

pub open spec fn id_key(c: usize, g: u64) -> Key4 {
    (c as u64, g, 0, 0)
}

/// In a sequence whose elements equal `v` exactly on `a .. b`, `v` occurs
/// `b - a` times.
proof fn lemma_cnt_block(s: Seq<Key4>, v: Key4, a: int, b: int)
    requires
        0 <= a <= b <= s.len(),
        forall|t: int| 0 <= t < a ==> #[trigger] s[t] != v,
        forall|t: int| a <= t < b ==> #[trigger] s[t] == v,
        forall|t: int| b <= t < s.len() ==> #[trigger] s[t] != v,
    ensures
        cnt_key(s, v) == b - a,
    decreases s.len(),
{
    if s.len() > 0 {
        let p = s.drop_last();
        let l = s.len() - 1;
        assert(s.last() == s[l]);
        if l >= b {
            lemma_cnt_block(p, v, a, b);
        } else if l >= a {
            lemma_cnt_block(p, v, a, b - 1);
        } else {
            lemma_cnt_block(p, v, l, l);
        }
    }
}

/// The coverage table of the read-SUNK rows.
pub fn sunk_coverage(rows: &Vec<ReadSunk>) -> (cov: Vec<BadSunk>)
    ensures
        coverage_table(rows@, cov@),
{
    let mut keys: Vec<Key4> = Vec::new();
    let mut j: usize = 0;
    while j < rows.len()
        invariant
            0 <= j <= rows.len(),
            keys.len() == j,
            forall|c: usize, g: u64| #[trigger] id_count(rows@.take(j as int), c, g) == cnt_key(keys@, id_key(c, g)),
            forall|t: int| 0 <= t < j ==> #[trigger] keys[t] == id_key(rows[t].ctg, rows[t].group),
        decreases rows.len() - j,
    {
        let x = rows[j];
        let ghost old_keys = keys@;
        keys.push((x.ctg as u64, x.group, 0, 0));
        proof {
            assert(keys@.drop_last() =~= old_keys);
            assert(rows@.take(j + 1).drop_last() =~= rows@.take(j as int));
            assert forall|c: usize, g: u64| #[trigger] id_count(rows@.take(j + 1), c, g) == cnt_key(keys@, id_key(c, g)) by {
                assert(id_count(rows@.take(j as int), c, g) == cnt_key(old_keys, id_key(c, g)));
            }
        }
        j += 1;
    }
    assert(rows@.take(rows.len() as int) =~= rows@);
    let ghost k0 = keys@;
    sort_keys(&mut keys);
    let n = keys.len();
    proof {
        assert(n == k0.len()) by {
            assert(keys@.to_multiset().len() == k0.to_multiset().len());
        }
    }
    proof {
        assert forall|t: int| 0 <= t < n implies (#[trigger] keys[t]).2 == 0 && keys[t].3 == 0 && keys[t].0 <= usize::MAX
            && keys[t] == id_key(keys[t].0 as usize, keys[t].1) by {
            assert(keys@.contains(keys[t]));
            assert(keys@.to_multiset().count(keys[t]) > 0);
            assert(k0.contains(keys[t]));
            let u = choose|u: int| 0 <= u < k0.len() && k0[u] == keys[t];
        }
    }
    let mut cov: Vec<BadSunk> = Vec::new();
    let mut i0: usize = 0;
    while i0 < n
        invariant
            n == keys.len(),
            n == rows.len(),
            sorted4(keys@),
            0 <= i0 <= n,
            0 < i0 < n ==> keys[i0 - 1] != keys[i0 as int],
            k0.to_multiset() == keys@.to_multiset(),
            forall|c: usize, g: u64| #[trigger] id_count(rows@, c, g) == cnt_key(k0, id_key(c, g)),
            forall|t: int| 0 <= t < n ==> (#[trigger] keys[t]).2 == 0 && keys[t].3 == 0 && keys[t].0 <= usize::MAX
                && keys[t] == id_key(keys[t].0 as usize, keys[t].1),
            forall|q: int| 0 <= q < cov.len() ==> (#[trigger] cov[q]).count == id_count(rows@, cov[q].ctg, cov[q].group)
                && cov[q].count > 0,
            i0 < n ==> forall|q: int| 0 <= q < cov.len() ==> lex4_le(id_key((#[trigger] cov[q]).ctg, cov[q].group), keys[i0 as int])
                && id_key(cov[q].ctg, cov[q].group) != keys[i0 as int],
            forall|q1: int, q2: int| 0 <= q1 < q2 < cov.len() ==> id_lt(#[trigger] cov[q1], #[trigger] cov[q2]),
            forall|t: int| 0 <= t < i0 ==> listed_id(cov@, (#[trigger] keys[t]).0 as usize, keys[t].1),
        decreases n - i0,
    {
        let v = keys[i0];
        let mut e: usize = i0 + 1;
        while e < n && keys[e].0 == v.0 && keys[e].1 == v.1 && keys[e].2 == v.2 && keys[e].3 == v.3
            invariant
                i0 < e <= n,
                n == keys.len(),
                v == keys[i0 as int],
                forall|t: int| i0 <= t < e ==> #[trigger] keys[t] == v,
            decreases n - e,
        {
            e += 1;
        }
        proof {
            assert forall|t: int| 0 <= t < i0 implies #[trigger] keys[t] != v by {
                assert(lex4_le(keys[t], keys[i0 - 1]));
                assert(lex4_le(keys[i0 - 1], v));
            }
            assert forall|t: int| e <= t < n implies #[trigger] keys[t] != v by {
                assert(keys[e as int] != v);
                assert(lex4_le(v, keys[e as int]));
                assert(lex4_le(keys[e as int], keys[t]));
            }
            lemma_cnt_block(keys@, v, i0 as int, e as int);
            lemma_cnt_ms(keys@, v);
            lemma_cnt_ms(k0, v);
            assert(v == id_key(v.0 as usize, v.1));
            assert(id_count(rows@, v.0 as usize, v.1) == e - i0);
        }
        let ghost old_cov = cov@;
        cov.push(BadSunk { ctg: v.0 as usize, group: v.1, count: (e - i0) as u64 });
        proof {
            assert forall|q: int| 0 <= q < cov.len() implies (#[trigger] cov[q]).count == id_count(rows@, cov[q].ctg, cov[q].group)
                && cov[q].count > 0 by {
                if q < old_cov.len() {
                    assert(cov[q] == old_cov[q]);
                }
            }
            assert forall|q1: int, q2: int| 0 <= q1 < q2 < cov.len() implies id_lt(#[trigger] cov[q1], #[trigger] cov[q2]) by {
                assert(cov[q1] == old_cov[q1]);
                if q2 < old_cov.len() {
                    assert(cov[q2] == old_cov[q2]);
                } else {
                    assert(lex4_le(id_key(old_cov[q1].ctg, old_cov[q1].group), v));
                }
            }
            assert forall|t: int| 0 <= t < e implies listed_id(cov@, (#[trigger] keys[t]).0 as usize, keys[t].1) by {
                if t < i0 {
                    let q = choose|q: int| 0 <= q < old_cov.len() && (#[trigger] old_cov[q]).ctg == keys[t].0 as usize && old_cov[q].group == keys[t].1;
                    assert(cov@[q] == old_cov[q]);
                } else {
                    assert(cov@[old_cov.len() as int].ctg == keys[t].0 as usize);
                }
            }
            if e < n {
                assert(keys[e as int] != v);
                assert(keys[e - 1] == v);
                assert(lex4_le(v, keys[e as int]));
                assert forall|q: int| 0 <= q < cov.len() implies lex4_le(id_key((#[trigger] cov[q]).ctg, cov[q].group), keys[e as int])
                    && id_key(cov[q].ctg, cov[q].group) != keys[e as int] by {
                    if q < old_cov.len() {
                        assert(cov[q] == old_cov[q]);
                    } else {
                        assert(id_key(cov[q].ctg, cov[q].group) == v);
                    }
                }
            }
        }
        i0 = e;
    }
    proof {
        assert forall|i: int| 0 <= i < rows.len() implies listed_id(cov@, (#[trigger] rows@[i]).ctg, rows@[i].group) by {
            assert(k0[i] == id_key(rows[i].ctg, rows[i].group));
            assert(k0.contains(k0[i]));
            assert(k0.to_multiset().count(k0[i]) > 0);
            assert(keys@.contains(k0[i]));
            let u = choose|u: int| 0 <= u < n && keys@[u] == k0[i];
            assert(listed_id(cov@, keys[u].0 as usize, keys[u].1));
        }
    }
    cov
}


/// Number of ids whose coverage is `v`.
pub open spec fn freq(cov: Seq<BadSunk>, v: u64) -> nat
    decreases cov.len(),
{
    if cov.len() == 0 {
        0
    } else {
        freq(cov.drop_last(), v) + if cov.last().count == v {
            1nat
        } else {
            0nat
        }
    }
}

/// Some id has a coverage above 2.
pub open spec fn has_mode(cov: Seq<BadSunk>) -> bool {
    exists|q: int| 0 <= q < cov.len() && (#[trigger] cov[q]).count > 2
}

/// `m` is the mode of the coverages above 2: the most frequent, the
/// smallest of those on a tie.
pub open spec fn is_mode(cov: Seq<BadSunk>, m: u64) -> bool {
    &&& m > 2
    &&& exists|q: int| 0 <= q < cov.len() && (#[trigger] cov[q]).count == m
    &&& forall|q: int|
        0 <= q < cov.len() && (#[trigger] cov[q]).count > 2 ==> freq(cov, cov[q].count) < freq(cov, m) || (
        freq(cov, cov[q].count) == freq(cov, m) && m <= cov[q].count)
}

pub open spec fn mode_of(cov: Seq<BadSunk>) -> Option<u64> {
    if has_mode(cov) {
        Some(choose|m: u64| is_mode(cov, m))
    } else {
        None
    }
}

/// The mode is unique.
pub proof fn lemma_mode_unique(cov: Seq<BadSunk>, m1: u64, m2: u64)
    requires
        is_mode(cov, m1),
        is_mode(cov, m2),
    ensures
        m1 == m2,
{
    let q1 = choose|q: int| 0 <= q < cov.len() && (#[trigger] cov[q]).count == m1;
    let q2 = choose|q: int| 0 <= q < cov.len() && (#[trigger] cov[q]).count == m2;
}

/// A coverage below 2, or, with a mode `m`, above `m + 4 * sqrt(m)`; the
/// square root is compared exactly: `c > m && (c - m)^2 > 16 * m`.
pub open spec fn is_bad(c: u64, mode: Option<u64>) -> bool {
    c < 2 || match mode {
        Some(m) => c > m && (c - m) * (c - m) > 16 * m,
        None => false,
    }
}

pub open spec fn bad_rows(cov: Seq<BadSunk>, mode: Option<u64>) -> Seq<BadSunk>
    decreases cov.len(),
{
    if cov.len() == 0 {
        Seq::empty()
    } else {
        bad_rows(cov.drop_last(), mode) + if is_bad(cov.last().count, mode) {
            seq![cov.last()]
        } else {
            Seq::empty()
        }
    }
}

fn mode_exec(cov: &Vec<BadSunk>) -> (m: Option<u64>)
    ensures
        m == mode_of(cov@),
{
    let mut hist: HashMap<u64, u64> = HashMap::new();
    let mut j: usize = 0;
    while j < cov.len()
        invariant
            0 <= j <= cov.len(),
            forall|v: u64| #[trigger] hist@.contains_key(v) ==> hist@[v] == freq(cov@.take(j as int), v),
            forall|v: u64| !(#[trigger] hist@.contains_key(v)) ==> freq(cov@.take(j as int), v) == 0,
            forall|v: u64| #[trigger] freq(cov@.take(j as int), v) <= j,
        decreases cov.len() - j,
    {
        let c = cov[j].count;
        let cur: u64 = match hist.get(&c) {
            Some(f) => *f,
            None => 0,
        };
        proof {
            assert(cov@.take(j + 1).drop_last() =~= cov@.take(j as int));
            assert(freq(cov@.take(j as int), c) <= j);
        }
        hist.insert(c, cur + 1);
        proof {
            assert forall|v: u64| #[trigger] freq(cov@.take(j + 1), v) <= j + 1 by {
                assert(freq(cov@.take(j as int), v) <= j);
            }
        }
        j += 1;
    }
    assert(cov@.take(cov.len() as int) =~= cov@);
    let mut best: Option<(u64, u64)> = None;
    let mut q: usize = 0;
    while q < cov.len()
        invariant
            0 <= q <= cov.len(),
            forall|v: u64| #[trigger] hist@.contains_key(v) ==> hist@[v] == freq(cov@, v),
            forall|v: u64| !(#[trigger] hist@.contains_key(v)) ==> freq(cov@, v) == 0,
            best is None ==> forall|q2: int| 0 <= q2 < q ==> (#[trigger] cov[q2]).count <= 2,
            best matches Some(x) ==> {
                &&& x.0 > 2
                &&& x.1 == freq(cov@, x.0)
                &&& exists|q2: int| 0 <= q2 < cov.len() && (#[trigger] cov[q2]).count == x.0
                &&& forall|q2: int|
                    0 <= q2 < q && (#[trigger] cov[q2]).count > 2 ==> freq(cov@, cov[q2].count) < x.1 || (
                    freq(cov@, cov[q2].count) == x.1 && x.0 <= cov[q2].count)
            },
        decreases cov.len() - q,
    {
        let c = cov[q].count;
        if c > 2 {
            let f: u64 = match hist.get(&c) {
                Some(f) => *f,
                None => 0,
            };
            proof {
                assert(freq(cov@, c) > 0) by {
                    lemma_freq_pos(cov@, q as int);
                }
            }
            match best {
                None => {
                    best = Some((c, f));
                },
                Some(x) => {
                    if f > x.1 || (f == x.1 && c < x.0) {
                        best = Some((c, f));
                    }
                },
            }
        }
        q += 1;
    }
    match best {
        None => None,
        Some(x) => {
            proof {
                assert(is_mode(cov@, x.0));
                assert(has_mode(cov@));
                let m = choose|m: u64| is_mode(cov@, m);
                lemma_mode_unique(cov@, m, x.0);
            }
            Some(x.0)
        },
    }
}

proof fn lemma_freq_pos(cov: Seq<BadSunk>, q: int)
    requires
        0 <= q < cov.len(),
    ensures
        freq(cov, cov[q].count) > 0,
    decreases cov.len(),
{
    if q < cov.len() - 1 {
        lemma_freq_pos(cov.drop_last(), q);
        assert(cov.drop_last()[q] == cov[q]);
    }
}

/// The bad SUNKs of a coverage table, in table order: those whose coverage
/// is below 2 or above `m + 4 * sqrt(m)`, where `m` is the mode of the
/// coverages above 2 (the smallest on a tie; without any, only the first
/// rule applies).
pub fn bad_from_coverage(cov: &Vec<BadSunk>) -> (out: Vec<BadSunk>)
    ensures
        out@ == bad_rows(cov@, mode_of(cov@)),
{
    let mode = mode_exec(cov);
    let mut out: Vec<BadSunk> = Vec::new();
    let mut j: usize = 0;
    while j < cov.len()
        invariant
            0 <= j <= cov.len(),
            mode == mode_of(cov@),
            out@ == bad_rows(cov@.take(j as int), mode),
        decreases cov.len() - j,
    {
        let x = cov[j];
        let bad = if x.count < 2 {
            true
        } else {
            match mode {
                Some(m) => {
                    if x.count > m {
                        let d: u128 = (x.count - m) as u128;
                        assert(d * d <= 0xffff_ffff_ffff_ffffu128 * 0xffff_ffff_ffff_ffffu128) by (nonlinear_arith)
                            requires
                                d <= 0xffff_ffff_ffff_ffffu128,
                        ;
                        d * d > 16 * (m as u128)
                    } else {
                        false
                    }
                },
                None => false,
            }
        };
        assert(cov@.take(j + 1).drop_last() =~= cov@.take(j as int));
        if bad {
            out.push(x);
        }
        j += 1;
    }
    assert(cov@.take(cov.len() as int) =~= cov@);
    out
}

/// The bad SUNK ids of the read-SUNK rows (each row counts once towards its
/// id's coverage), with their coverage, in id order.
pub fn filter_bad_sunks(df_sunks: &Vec<ReadSunk>) -> (out: Vec<BadSunk>)
    ensures
        exists|cov: Seq<BadSunk>| coverage_table(df_sunks@, cov) && out@ == bad_rows(cov, mode_of(cov)),
{
    let cov = sunk_coverage(df_sunks);
    bad_from_coverage(&cov)
}

} // verus!
