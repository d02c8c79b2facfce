use vstd::prelude::*;

verus! {

/// ASCII whitespace: space, tab, line feed, vertical tab, form feed, carriage return.
pub open spec fn is_space(b: u8) -> bool {
    b == 32 || b == 9 || b == 10 || b == 11 || b == 12 || b == 13
}

pub open spec fn trim_start(s: Seq<u8>) -> Seq<u8>
    decreases s.len(),
{
    if s.len() > 0 && is_space(s[0]) {
        trim_start(s.skip(1))
    } else {
        s
    }
}

pub open spec fn trim_end(s: Seq<u8>) -> Seq<u8>
    decreases s.len(),
{
    if s.len() > 0 && is_space(s.last()) {
        trim_end(s.drop_last())
    } else {
        s
    }
}

/// `s` without its leading and trailing whitespace.
pub open spec fn trim(s: Seq<u8>) -> Seq<u8> {
    trim_end(trim_start(s))
}

/// The position of the first `b` in `s`, or the length of `s` where there is none.
pub open spec fn find(s: Seq<u8>, b: u8) -> nat
    decreases s.len(),
{
    if s.len() == 0 {
        0
    } else if s[0] == b {
        0
    } else {
        1 + find(s.skip(1), b)
    }
}

/// `s` begins with `p`.
pub open spec fn has_prefix(s: Seq<u8>, p: Seq<u8>) -> bool {
    p.len() <= s.len() && s.take(p.len() as int) == p
}

pub open spec fn is_digit(b: u8) -> bool {
    48 <= b <= 57
}

/// The number that the decimal digits `s` spell.
pub open spec fn digits_value(s: Seq<u8>) -> nat
    decreases s.len(),
{
    if s.len() == 0 {
        0
    } else {
        digits_value(s.drop_last()) * 10 + (s.last() - 48) as nat
    }
}

/// The value of `s` read as a non-empty run of decimal digits.
pub open spec fn decimal(s: Seq<u8>) -> Option<nat> {
    if s.len() > 0 && forall|i: int| 0 <= i < s.len() ==> is_digit(#[trigger] s[i]) {
        Some(digits_value(s))
    } else {
        None
    }
}

/// The value of `s` read as a decimal that fits in `u64`.
pub open spec fn decimal_u64(s: Seq<u8>) -> Option<u64> {
    match decimal(s) {
        Some(v) => if v <= u64::MAX {
            Some(v as u64)
        } else {
            None
        },
        None => None,
    }
}

/// The value of `s` read as a decimal that fits in `u32`.
pub open spec fn decimal_u32(s: Seq<u8>) -> Option<u32> {
    match decimal(s) {
        Some(v) => if v <= u32::MAX {
            Some(v as u32)
        } else {
            None
        },
        None => None,
    }
}

/// The lines of `s`: the pieces between line feeds. A final line feed ends the last
/// line and starts no new one.
pub open spec fn split_lines(s: Seq<u8>) -> Seq<Seq<u8>>
    decreases s.len(),
{
    if s.len() == 0 {
        seq![]
    } else {
        let c = find(s, 10);
        if c >= s.len() {
            seq![s]
        } else {
            seq![s.take(c as int)] + split_lines(s.skip(c as int + 1))
        }
    }
}

pub open spec fn is_blank(s: Seq<u8>) -> bool {
    forall|i: int| 0 <= i < s.len() ==> is_space(#[trigger] s[i])
}

pub fn is_space_byte(b: u8) -> (r: bool)
    ensures
        r == is_space(b),
{
    b == 32 || b == 9 || b == 10 || b == 11 || b == 12 || b == 13
}

/// Whether every byte of `s` is whitespace.
pub fn is_blank_line(s: &[u8]) -> (r: bool)
    ensures
        r == is_blank(s@),
{
    let mut i: usize = 0;
    while i < s.len()
        invariant
            0 <= i <= s@.len(),
            forall|k: int| 0 <= k < i ==> is_space(#[trigger] s@[k]),
        decreases s@.len() - i,
    {
        if !is_space_byte(s[i]) {
            return false;
        }
        i = i + 1;
    }
    true
}

/// `s` without its leading and trailing whitespace.
pub fn trim_bytes(s: &[u8]) -> (r: &[u8])
    ensures
        r@ == trim(s@),
{
    let n = s.len();
    let mut i: usize = 0;
    assert(s@.skip(0) =~= s@);
    while i < n && is_space_byte(s[i])
        invariant
            n == s@.len(),
            0 <= i <= n,
            trim_start(s@.skip(i as int)) == trim_start(s@),
        decreases n - i,
    {
        assert(s@.skip(i as int).skip(1) =~= s@.skip(i + 1));
        i = i + 1;
    }
    assert(trim_start(s@) == s@.skip(i as int));
    let mut j: usize = n;
    while j > i && is_space_byte(s[j - 1])
        invariant
            n == s@.len(),
            0 <= i <= j <= n,
            trim_end(s@.subrange(i as int, j as int)) == trim(s@),
        decreases j,
    {
        assert(s@.subrange(i as int, j as int).drop_last() =~= s@.subrange(i as int, j - 1));
        j = j - 1;
    }
    assert(s@.skip(i as int) =~= s@.subrange(i as int, n as int));
    &s[i..j]
}

proof fn lemma_find(s: Seq<u8>, b: u8)
    ensures
        find(s, b) <= s.len(),
        find(s, b) < s.len() ==> s[find(s, b) as int] == b,
        forall|k: int| 0 <= k < find(s, b) ==> s[k] != b,
    decreases s.len(),
{
    if s.len() > 0 && s[0] != b {
        lemma_find(s.skip(1), b);
        assert forall|k: int| 0 <= k < find(s, b) implies s[k] != b by {
            if k > 0 {
                assert(s[k] == s.skip(1)[k - 1]);
            }
        }
    }
}

/// The position of the first `b` at or after `from`, or the length of `s`.
pub fn find_byte(s: &[u8], from: usize, b: u8) -> (r: usize)
    requires
        from <= s@.len(),
    ensures
        r == from + find(s@.skip(from as int), b),
        from <= r <= s@.len(),
{
    let mut i: usize = from;
    while i < s.len() && s[i] != b
        invariant
            from <= i <= s@.len(),
            find(s@.skip(from as int), b) == (i - from) + find(s@.skip(i as int), b),
        decreases s@.len() - i,
    {
        assert(s@.skip(i as int).skip(1) =~= s@.skip(i + 1));
        i = i + 1;
    }
    i
}

/// `s` begins with `p`.
pub fn starts_with(s: &[u8], p: &[u8]) -> (r: bool)
    ensures
        r == has_prefix(s@, p@),
{
    if p.len() > s.len() {
        return false;
    }
    let mut i: usize = 0;
    while i < p.len()
        invariant
            p@.len() <= s@.len(),
            0 <= i <= p@.len(),
            forall|k: int| 0 <= k < i ==> s@[k] == p@[k],
        decreases p@.len() - i,
    {
        if s[i] != p[i] {
            assert(s@.take(p@.len() as int)[i as int] != p@[i as int]);
            return false;
        }
        i = i + 1;
    }
    assert(s@.take(p@.len() as int) =~= p@);
    true
}

proof fn lemma_digits_prefix_le(s: Seq<u8>, k: int)
    requires
        0 <= k <= s.len(),
    ensures
        digits_value(s.take(k)) <= digits_value(s),
    decreases s.len() - k,
{
    if k < s.len() {
        lemma_digits_prefix_le(s, k + 1);
        assert(s.take(k + 1).drop_last() =~= s.take(k));
    } else {
        assert(s.take(k) =~= s);
    }
}

/// Reads `s` as a decimal number; `None` where it is empty, holds another byte than a
/// digit, or does not fit in `u64`.
pub fn parse_u64(s: &[u8]) -> (r: Option<u64>)
    ensures
        r == decimal_u64(s@),
{
    if s.len() == 0 {
        return None;
    }
    let mut acc: u64 = 0;
    let mut i: usize = 0;
    while i < s.len()
        invariant
            0 <= i <= s@.len(),
            forall|k: int| 0 <= k < i ==> is_digit(#[trigger] s@[k]),
            acc == digits_value(s@.take(i as int)),
        decreases s@.len() - i,
    {
        let c = s[i];
        if c < 48 || c > 57 {
            return None;
        }
        assert(s@.take(i + 1).drop_last() =~= s@.take(i as int));
        let overflow = match acc.checked_mul(10) {
            Some(t) => match t.checked_add((c - 48) as u64) {
                Some(next) => {
                    acc = next;
                    false
                },
                None => true,
            },
            None => true,
        };
        if overflow {
            proof {
                assert(digits_value(s@.take(i + 1)) > u64::MAX);
                if decimal(s@) is Some {
                    lemma_digits_prefix_le(s@, i + 1);
                }
            }
            return None;
        }
        i = i + 1;
    }
    assert(s@.take(i as int) =~= s@);
    Some(acc)
}

/// Splits `s` into its lines, without the line feeds.
pub fn split_into_lines(s: &[u8]) -> (r: Vec<&[u8]>)
    ensures
        r@.map_values(|l: &[u8]| l@) == split_lines(s@),
{
    let mut lines: Vec<&[u8]> = Vec::new();
    let n = s.len();
    let mut p: usize = 0;
    assert(s@.skip(0) =~= s@);
    while p < n
        invariant
            n == s@.len(),
            p <= n,
            split_lines(s@) == lines@.map_values(|l: &[u8]| l@) + split_lines(s@.skip(p as int)),
        decreases n - p,
    {
        let ghost rest = s@.skip(p as int);
        let c = find_byte(s, p, 10);
        let line = &s[p..c];
        proof {
            lemma_find(rest, 10);
            assert(line@ =~= rest.take(find(rest, 10) as int));
        }
        let ghost before = lines@.map_values(|l: &[u8]| l@);
        lines.push(line);
        proof {
            assert(lines@.map_values(|l: &[u8]| l@) =~= before.push(line@));
        }
        if c >= n {
            proof {
                assert(line@ =~= rest);
                assert(split_lines(s@) =~= lines@.map_values(|l: &[u8]| l@));
            }
            return lines;
        }
        proof {
            assert(rest.skip(c - p + 1) =~= s@.skip(c + 1));
            assert(before + (seq![line@] + split_lines(s@.skip(c + 1))) =~= before.push(line@)
                + split_lines(s@.skip(c + 1)));
        }
        p = c + 1;
    }
    assert(s@.skip(p as int).len() == 0);
    assert(lines@.map_values(|l: &[u8]| l@) + seq![] =~= lines@.map_values(|l: &[u8]| l@));
    lines
}

/// Four decimal digits spell a number below 10,000.
pub proof fn lemma_four_digits_bound(s: Seq<u8>)
    requires
        s.len() == 4,
        forall|i: int| 0 <= i < s.len() ==> is_digit(#[trigger] s[i]),
    ensures
        digits_value(s) < 10000,
{
    let s3 = s.drop_last();
    let s2 = s3.drop_last();
    let s1 = s2.drop_last();
    let s0 = s1.drop_last();
    assert(s0.len() == 0);
    assert(digits_value(s0) == 0);
    assert(s1.last() == s[0] && s2.last() == s[1] && s3.last() == s[2]);
    assert(is_digit(s[0]) && is_digit(s[1]) && is_digit(s[2]) && is_digit(s[3]));
    assert(digits_value(s1) < 10);
    assert(digits_value(s2) < 100);
    assert(digits_value(s3) < 1000);
}

} // verus!
