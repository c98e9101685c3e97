use vstd::prelude::*;

verus! {

broadcast use vstd::seq_lib::group_to_multiset_ensures;

/// A row key of four unsigned columns, compared column by column.
pub type Key4 = (u64, u64, u64, u64);

pub open spec fn lex4_le(a: Key4, b: Key4) -> bool {
    a.0 < b.0 || (a.0 == b.0 && (a.1 < b.1 || (a.1 == b.1 && (a.2 < b.2 || (a.2 == b.2
        && a.3 <= b.3)))))
}

pub open spec fn lex4_lt(a: Key4, b: Key4) -> bool {
    lex4_le(a, b) && a != b
}

pub open spec fn sorted4(s: Seq<Key4>) -> bool {
    forall|i: int, j: int| 0 <= i < j < s.len() ==> lex4_le(#[trigger] s[i], #[trigger] s[j])
}

/// Relies on `slice::sort`: it orders the keys ascending (tuples compare
/// column by column) and keeps every key.
#[verifier::external_body]
pub(crate) fn sort_keys(v: &mut Vec<Key4>)
    ensures
        final(v)@.to_multiset() == old(v)@.to_multiset(),
        sorted4(final(v)@),
{
    v.sort();
}

pub open spec fn ints(v: Seq<i128>) -> Seq<int> {
    v.map_values(|x: i128| x as int)
}

/// Relies on `slice::sort`: it puts the integers in ascending order, keeping
/// every one, so the result is the sorted arrangement of the input.
#[verifier::external_body]
pub(crate) fn sort_ints(v: &mut Vec<i128>)
    ensures
        ints(final(v)@) == ints(old(v)@).sort(),
{
    v.sort();
}

pub proof fn lemma_count_le_one<A>(s: Seq<A>, x: A)
    requires
        s.no_duplicates(),
    ensures
        s.to_multiset().count(x) <= 1,
    decreases s.len(),
{
    if s.len() > 0 {
        let p = s.drop_last();
        assert(s =~= p.push(s.last()));
        assert(p.no_duplicates());
        lemma_count_le_one(p, x);
        if x == s.last() {
            assert(!p.contains(x)) by {
                if p.contains(x) {
                    let i = choose|i: int| 0 <= i < p.len() && p[i] == x;
                    assert(s[i] == s[s.len() - 1]);
                }
            }
        }
    }
}

pub proof fn lemma_count_two<A>(s: Seq<A>, i: int, j: int)
    requires
        0 <= i < j < s.len(),
        s[i] == s[j],
    ensures
        s.to_multiset().count(s[i]) >= 2,
    decreases s.len(),
{
    let p = s.drop_last();
    assert(s =~= p.push(s.last()));
    if j < s.len() - 1 {
        lemma_count_two(p, i, j);
    } else {
        assert(p[i] == s[i]);
        assert(p.contains(s[i]));
    }
}

/// A permutation of a sequence without duplicates has none either.
pub proof fn lemma_perm_no_dup<A>(a: Seq<A>, b: Seq<A>)
    requires
        a.no_duplicates(),
        a.to_multiset() == b.to_multiset(),
    ensures
        b.no_duplicates(),
{
    assert forall|i: int, j: int| 0 <= i < b.len() && 0 <= j < b.len() && i != j implies b[i]
        != b[j] by {
        if b[i] == b[j] {
            if i < j {
                lemma_count_two(b, i, j);
            } else {
                lemma_count_two(b, j, i);
            }
            lemma_count_le_one(a, b[i]);
        }
    }
}

/// Every element of a permutation comes from the permuted sequence.
pub proof fn lemma_perm_contains<A>(a: Seq<A>, b: Seq<A>, i: int)
    requires
        a.to_multiset() == b.to_multiset(),
        0 <= i < b.len(),
    ensures
        a.contains(b[i]),
{
    assert(b.contains(b[i]));
    assert(b.to_multiset().count(b[i]) > 0);
    assert(a.to_multiset().count(b[i]) > 0);
}

} // verus!
