use vstd::prelude::*;

verus! {

/// Two-bit code of a nucleotide byte: A = 0, C = 1, G = 2, T or U = 3, in
/// either case; anything else is not a base.
pub open spec fn base_code(b: u8) -> Option<int> {
    if b == 65u8 || b == 97u8 {
        Some(0)
    } else if b == 67u8 || b == 99u8 {
        Some(1)
    } else if b == 71u8 || b == 103u8 {
        Some(2)
    } else if b == 84u8 || b == 116u8 || b == 85u8 || b == 117u8 {
        Some(3)
    } else {
        None
    }
}

pub open spec fn is_base(b: u8) -> bool {
    base_code(b) is Some
}

/// Code of a k-mer read on its own strand: the first base is the most
/// significant digit in base 4.
pub open spec fn fwd_code(w: Seq<u8>) -> int
    decreases w.len(),
{
    if w.len() == 0 {
        0
    } else {
        4 * fwd_code(w.drop_last()) + base_code(w.last())->Some_0
    }
}

/// Code of the reverse complement of a k-mer.
pub open spec fn rc_code(w: Seq<u8>) -> int
    decreases w.len(),
{
    if w.len() == 0 {
        0
    } else {
        (3 - base_code(w[0])->Some_0) + 4 * rc_code(w.drop_first())
    }
}

/// A k-mer window of a sequence: the zero-based index of its last byte, the
/// code of its forward strand and the code of its reverse complement.
pub type Window = (usize, u64, u64);

/// The `k` bytes ending at index `end` are all bases.
pub open spec fn window_ok(s: Seq<u8>, end: int, k: int) -> bool {
    &&& k - 1 <= end < s.len()
    &&& forall|t: int| end - k < t <= end ==> is_base(#[trigger] s[t])
}

/// Every window of `k` consecutive bases of `s`, by increasing end index.
pub open spec fn windows(s: Seq<u8>, k: int) -> Seq<Window>
    decreases s.len(),
{
    if s.len() == 0 {
        Seq::empty()
    } else {
        let prev = windows(s.drop_last(), k);
        let e = s.len() - 1;
        if window_ok(s, e, k) {
            let w = s.subrange(e + 1 - k, e + 1);
            prev.push((e as usize, fwd_code(w) as u64, rc_code(w) as u64))
        } else {
            prev
        }
    }
}

/// One-based position of the first base of a window whose last byte has
/// zero-based index `end`.
pub open spec fn start_of(end: int, k: int) -> int {
    end + 2 - k
}

/// Windows come in strictly increasing order of their end, which lies in
/// `k - 1 .. s.len()`.
pub proof fn lemma_windows_bounds(s: Seq<u8>, k: int)
    requires
        s.len() <= usize::MAX,
    ensures
        forall|t: int|
            0 <= t < windows(s, k).len() ==> k - 1 <= #[trigger] windows(s, k)[t].0 < s.len(),
        forall|t1: int, t2: int|
            0 <= t1 < t2 < windows(s, k).len() ==> #[trigger] windows(s, k)[t1].0
                < #[trigger] windows(s, k)[t2].0,
        windows(s, k).len() <= s.len(),
    decreases s.len(),
{
    if s.len() > 0 {
        let prev = windows(s.drop_last(), k);
        lemma_windows_bounds(s.drop_last(), k);
        let e = s.len() - 1;
        if window_ok(s, e, k) {
            let cur = windows(s, k);
            assert forall|t: int| 0 <= t < cur.len() implies k - 1 <= #[trigger] cur[t].0 < s.len() by {
                if t < prev.len() {
                    assert(cur[t] == prev[t]);
                }
            }
            assert forall|t1: int, t2: int|
                0 <= t1 < t2 < cur.len() implies #[trigger] cur[t1].0 < #[trigger] cur[t2].0 by {
                assert(cur[t1] == prev[t1]);
                if t2 < prev.len() {
                    assert(cur[t2] == prev[t2]);
                }
            }
        }
    }
}

/// Relies on `kmers::Kmer::with_many_both_pos`: it calls back once for each
/// run of `k` consecutive bases, in order of position, with the zero-based
/// index of the run's last byte, the two-bit code of the run and the code of
/// its reverse complement; a byte that is not a base restarts the run.
#[verifier::external_body]
pub(crate) fn kmer_windows(k: usize, seq: &Vec<u8>) -> (r: Vec<Window>)
    requires
        1 <= k <= 31,
    ensures
        r@ == windows(seq@, k as int),
{
    let mut out: Vec<Window> = Vec::new();
    kmers::Kmer::with_many_both_pos(k, seq, |pos, x, y| out.push((pos, x.0, y.0)));
    out
}

} // verus!
