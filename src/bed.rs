use vstd::prelude::*;

verus! {

pub const TAB: u8 = 9;

/// Index of the first tab at or after `from`, or the length if none.
pub open spec fn next_tab(s: Seq<u8>, from: int) -> int
    decreases s.len() - from,
{
    if from >= s.len() {
        s.len() as int
    } else if s[from] == TAB {
        from
    } else {
        next_tab(s, from + 1)
    }
}

pub open spec fn is_digit(b: u8) -> bool {
    48 <= b <= 57
}

/// Decimal value of a string of digits.
pub open spec fn digits_value(d: Seq<u8>) -> int
    decreases d.len(),
{
    if d.len() == 0 {
        0
    } else {
        10 * digits_value(d.drop_last()) + (d.last() - 48)
    }
}

pub open spec fn all_digits(d: Seq<u8>) -> bool {
    d.len() > 0 && forall|i: int| 0 <= i < d.len() ==> is_digit(#[trigger] d[i])
}

/// A decimal `i32`: an optional `+` or `-`, then one or more digits, within
/// the range of `i32`.
pub open spec fn parse_i32(f: Seq<u8>) -> Option<i32> {
    let neg = f.len() > 0 && f[0] == 45u8;
    let signed = f.len() > 0 && (f[0] == 45u8 || f[0] == 43u8);
    let d = if signed {
        f.subrange(1, f.len() as int)
    } else {
        f
    };
    let v = if neg {
        -digits_value(d)
    } else {
        digits_value(d)
    };
    if all_digits(d) && i32::MIN <= v <= i32::MAX {
        Some(v as i32)
    } else {
        None
    }
}

/// One line of a BED file: region, start, stop and the remaining columns.
#[derive(Clone, Debug, PartialEq, Eq)]
pub struct BedLine {
    pub name: Vec<u8>,
    pub start: i32,
    pub stop: i32,
    pub rest: Vec<u8>,
}

#[derive(Clone, Copy, Debug, PartialEq, Eq)]
pub enum BedError {
    /// A start or stop column is not a decimal `i32`.
    BadPosition,
}

/// The columns of a line split at its first three tabs: the name, start and
/// stop columns and what follows the third tab (empty without one).
pub open spec fn bed_fields(s: Seq<u8>) -> (Seq<u8>, Seq<u8>, Seq<u8>, Seq<u8>) {
    let t1 = next_tab(s, 0);
    let t2 = next_tab(s, t1 + 1);
    let t3 = next_tab(s, t2 + 1);
    (
        s.subrange(0, t1),
        s.subrange(t1 + 1, t2),
        s.subrange(t2 + 1, t3),
        if t3 < s.len() {
            s.subrange(t3 + 1, s.len() as int)
        } else {
            Seq::empty()
        },
    )
}

/// The line has at least three columns.
pub open spec fn bed_has_fields(s: Seq<u8>) -> bool {
    next_tab(s, 0) < s.len() && next_tab(s, next_tab(s, 0) + 1) < s.len()
}

proof fn lemma_next_tab(s: Seq<u8>, from: int)
    requires
        0 <= from <= s.len(),
    ensures
        from <= next_tab(s, from) <= s.len(),
        next_tab(s, from) < s.len() ==> s[next_tab(s, from)] == TAB,
        forall|i: int| from <= i < next_tab(s, from) ==> s[i] != TAB,
    decreases s.len() - from,
{
    if from < s.len() && s[from] != TAB {
        lemma_next_tab(s, from + 1);
    }
}

fn find_tab(s: &Vec<u8>, from: usize) -> (r: usize)
    requires
        from <= s.len(),
    ensures
        r == next_tab(s@, from as int),
{
    let mut i = from;
    while i < s.len() && s[i] != TAB
        invariant
            from <= i <= s.len(),
            next_tab(s@, i as int) == next_tab(s@, from as int),
        decreases s.len() - i,
    {
        i += 1;
    }
    i
}

fn copy_range(s: &Vec<u8>, a: usize, b: usize) -> (r: Vec<u8>)
    requires
        a <= b <= s.len(),
    ensures
        r@ == s@.subrange(a as int, b as int),
{
    let mut r: Vec<u8> = Vec::new();
    let mut i = a;
    while i < b
        invariant
            a <= i <= b <= s.len(),
            r@ == s@.subrange(a as int, i as int),
        decreases b - i,
    {
        r.push(s[i]);
        assert(r@ =~= s@.subrange(a as int, i + 1));
        i += 1;
    }
    r
}

proof fn lemma_digits_grow(d: Seq<u8>, n: int)
    requires
        0 <= n <= d.len(),
        all_digits(d) || d.len() == 0 || forall|i: int| 0 <= i < d.len() ==> is_digit(#[trigger] d[i]),
    ensures
        digits_value(d.take(n)) <= digits_value(d),
        digits_value(d.take(n)) >= 0,
    decreases d.len() - n,
{
    if n < d.len() {
        let p = d.drop_last();
        assert(p.take(n) =~= d.take(n));
        assert forall|i: int| 0 <= i < p.len() implies is_digit(#[trigger] p[i]) by {
            assert(p[i] == d[i]);
        }
        lemma_digits_grow(p, n);
        assert(d.take(d.len() as int) =~= d);
        lemma_digits_nonneg(p);
    } else {
        assert(d.take(n) =~= d);
        lemma_digits_nonneg(d);
    }
}

proof fn lemma_digits_nonneg(d: Seq<u8>)
    requires
        forall|i: int| 0 <= i < d.len() ==> is_digit(#[trigger] d[i]),
    ensures
        digits_value(d) >= 0,
    decreases d.len(),
{
    if d.len() > 0 {
        let p = d.drop_last();
        assert forall|i: int| 0 <= i < p.len() implies is_digit(#[trigger] p[i]) by {
            assert(p[i] == d[i]);
        }
        lemma_digits_nonneg(p);
        assert(is_digit(d[d.len() - 1]));
    }
}

/// Parses `s[a .. b]` as a decimal `i32`, as `str::parse::<i32>` does.
fn parse_i32_range(s: &Vec<u8>, a: usize, b: usize) -> (r: Option<i32>)
    requires
        a <= b <= s.len(),
    ensures
        r == parse_i32(s@.subrange(a as int, b as int)),
{
    let ghost f = s@.subrange(a as int, b as int);
    let neg = a < b && s[a] == 45;
    let signed = a < b && (s[a] == 45 || s[a] == 43);
    let st = if signed {
        a + 1
    } else {
        a
    };
    let ghost d = s@.subrange(st as int, b as int);
    assert(d =~= if signed {
        f.subrange(1, f.len() as int)
    } else {
        f
    });
    if a < b {
        assert(f[0] == s@[a as int]);
    }
    assert(signed == (f.len() > 0 && (f[0] == 45u8 || f[0] == 43u8)));
    assert(neg == (f.len() > 0 && f[0] == 45u8));
    if st == b {
        return None;
    }
    let mut v: u64 = 0;
    let mut i = st;
    while i < b
        invariant
            st <= i <= b <= s.len(),
            d == s@.subrange(st as int, b as int),
            v == digits_value(d.take(i - st)),
            forall|t: int| 0 <= t < i - st ==> is_digit(#[trigger] d[t]),
            v <= 0x8000_0000,
            f == s@.subrange(a as int, b as int),
            d == (if signed {
                f.subrange(1, f.len() as int)
            } else {
                f
            }),
            signed == (f.len() > 0 && (f[0] == 45u8 || f[0] == 43u8)),
            neg == (f.len() > 0 && f[0] == 45u8),
        decreases b - i,
    {
        let c = s[i];
        assert(d[i - st] == c);
        if c < 48 || c > 57 {
            assert(!is_digit(d[i - st]));
            return None;
        }
        assert(d.take(i - st + 1).drop_last() =~= d.take(i - st));
        assert(d.take(i - st + 1).last() == c);
        let nv: u64 = 10 * v + (c - 48) as u64;
        if nv > 0x8000_0000 {
            proof {
                assert forall|t: int| 0 <= t < i - st + 1 implies is_digit(#[trigger] d.take(i - st + 1)[t]) by {
                    assert(d.take(i - st + 1)[t] == d[t]);
                }
                if all_digits(d) {
                    lemma_digits_grow(d, i - st + 1);
                }
            }
            return None;
        }
        v = nv;
        i += 1;
    }
    assert(d.take(b - st) =~= d);
    if neg {
        Some((0 - (v as i64)) as i32)
    } else if v > 0x7fff_ffff {
        None
    } else {
        Some(v as i32)
    }
}

/// Splits a BED line at its first three tabs: `None` when it has fewer than
/// three columns, an error when its start or stop is not a decimal `i32`.
pub fn parse_bed_line(line: &Vec<u8>) -> (r: Result<Option<BedLine>, BedError>)
    ensures
        !bed_has_fields(line@) ==> r == Ok::<Option<BedLine>, BedError>(None),
        bed_has_fields(line@) ==> {
            let (name, start, stop, rest) = bed_fields(line@);
            match (parse_i32(start), parse_i32(stop)) {
                (Some(a), Some(b)) => r matches Ok(Some(l)) && l.name@ == name && l.start == a && l.stop == b
                    && l.rest@ == rest,
                _ => r == Err::<Option<BedLine>, BedError>(BedError::BadPosition),
            }
        },
{
    let s = line;
    proof {
        lemma_next_tab(s@, 0);
    }
    let t1 = find_tab(s, 0);
    if t1 >= s.len() {
        return Ok(None);
    }
    proof {
        lemma_next_tab(s@, t1 + 1);
    }
    let t2 = find_tab(s, t1 + 1);
    if t2 >= s.len() {
        return Ok(None);
    }
    proof {
        lemma_next_tab(s@, t2 + 1);
    }
    let t3 = find_tab(s, t2 + 1);
    let start = parse_i32_range(s, t1 + 1, t2);
    let stop = parse_i32_range(s, t2 + 1, t3);
    match (start, stop) {
        (Some(a), Some(b)) => {
            let name = copy_range(s, 0, t1);
            let rest = if t3 < s.len() {
                copy_range(s, t3 + 1, s.len())
            } else {
                Vec::new()
            };
            proof {
                if t3 >= s.len() {
                    assert(rest@ =~= Seq::<u8>::empty());
                }
            }
            Ok(Some(BedLine { name, start: a, stop: b, rest }))
        },
        _ => Err(BedError::BadPosition),
    }
}

} // verus!
