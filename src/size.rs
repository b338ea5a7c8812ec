//! Reading a device size out of the text that the size query prints.
use crate::disks::ScanError;
use vstd::prelude::*;

verus! {

/// A byte that counts as white space around the number: the white space
/// characters of Latin-1.
pub open spec fn is_space(b: u8) -> bool {
    b == 9 || b == 10 || b == 11 || b == 12 || b == 13 || b == 32 || b == 0x85 || b == 0xa0
}

pub open spec fn is_digit(b: u8) -> bool {
    48 <= b <= 57
}

/// `s` without its leading white space.
pub open spec fn trim_start(s: Seq<u8>) -> Seq<u8>
    decreases s.len(),
{
    if s.len() > 0 && is_space(s[0]) {
        trim_start(s.drop_first())
    } else {
        s
    }
}

/// `s` without its trailing white space.
pub open spec fn trim_end(s: Seq<u8>) -> Seq<u8>
    decreases s.len(),
{
    if s.len() > 0 && is_space(s.last()) {
        trim_end(s.drop_last())
    } else {
        s
    }
}

/// The decimal value of a sequence of digits.
pub open spec fn digits_value(d: Seq<u8>) -> nat
    decreases d.len(),
{
    if d.len() == 0 {
        0
    } else {
        digits_value(d.drop_last()) * 10 + (d.last() - 48) as nat
    }
}

/// `t` without a leading `+`, if it has one.
pub open spec fn unsigned_part(t: Seq<u8>) -> Seq<u8> {
    if t.len() > 0 && t[0] == 43 {
        t.drop_first()
    } else {
        t
    }
}

/// The value of `d` where it is one decimal digit or more, else `None`.
pub open spec fn number_of(d: Seq<u8>) -> Option<nat> {
    if d.len() > 0 && forall|i: int| 0 <= i < d.len() ==> is_digit(#[trigger] d[i]) {
        Some(digits_value(d))
    } else {
        None
    }
}

/// The number that `s` spells: white space around it, an optional `+`, then
/// one decimal digit or more. `None` where `s` spells no number.
pub open spec fn size_value(s: Seq<u8>) -> Option<nat> {
    number_of(unsigned_part(trim_end(trim_start(s))))
}

/// A prefix of digits is worth no more than the whole.
proof fn lemma_prefix_value(d: Seq<u8>, j: int)
    requires
        0 <= j <= d.len(),
        forall|i: int| 0 <= i < d.len() ==> is_digit(#[trigger] d[i]),
    ensures
        digits_value(d.subrange(0, j)) <= digits_value(d),
    decreases d.len() - j,
{
    if j < d.len() {
        let a = d.subrange(0, j);
        let b = d.subrange(0, j + 1);
        assert(b.drop_last() =~= a);
        assert(digits_value(b) >= digits_value(a));
        lemma_prefix_value(d, j + 1);
    } else {
        assert(d.subrange(0, j) =~= d);
    }
}

/// Reads the size that the size query printed: a decimal number with white
/// space around it and an optional `+`. Text that spells no number, or one
/// past the largest `u64`, is a configuration error.
pub fn parse_size(s: &[u8]) -> (r: Result<u64, ScanError>)
    ensures
        r is Ok <==> (size_value(s@) is Some && size_value(s@)->0 <= u64::MAX),
        r matches Ok(v) ==> size_value(s@) == Some(v as nat),
        r is Err ==> r == Err::<u64, ScanError>(ScanError::Configuration),
{
    let n = s.len();
    let mut lo: usize = 0;
    assert(s@.subrange(0, n as int) =~= s@);
    while lo < n && (s[lo] == 9 || s[lo] == 10 || s[lo] == 11 || s[lo] == 12 || s[lo] == 13
        || s[lo] == 32 || s[lo] == 0x85 || s[lo] == 0xa0)
        invariant
            lo <= n == s@.len(),
            trim_start(s@) == trim_start(s@.subrange(lo as int, n as int)),
        decreases n - lo,
    {
        assert(s@.subrange(lo as int, n as int).drop_first() =~= s@.subrange(lo + 1, n as int));
        lo = lo + 1;
    }
    let ghost t = s@.subrange(lo as int, n as int);
    assert(trim_start(s@) == t);
    let mut hi: usize = n;
    while hi > lo && (s[hi - 1] == 9 || s[hi - 1] == 10 || s[hi - 1] == 11 || s[hi - 1] == 12
        || s[hi - 1] == 13 || s[hi - 1] == 32 || s[hi - 1] == 0x85 || s[hi - 1] == 0xa0)
        invariant
            lo <= hi <= n == s@.len(),
            t == s@.subrange(lo as int, n as int),
            trim_end(t) == trim_end(s@.subrange(lo as int, hi as int)),
        decreases hi - lo,
    {
        assert(s@.subrange(lo as int, hi as int).drop_last() =~= s@.subrange(
            lo as int,
            hi - 1,
        ));
        hi = hi - 1;
    }
    let ghost u = s@.subrange(lo as int, hi as int);
    assert(trim_end(trim_start(s@)) == u);
    let mut start: usize = lo;
    if start < hi && s[start] == 43 {
        start = start + 1;
    }
    let ghost d = s@.subrange(start as int, hi as int);
    assert(d =~= unsigned_part(u));
    assert(size_value(s@) == number_of(d));
    if start == hi {
        return Err(ScanError::Configuration);
    }
    let mut v: u64 = 0;
    let mut i: usize = start;
    while i < hi
        invariant
            start <= i <= hi <= n == s@.len(),
            d == s@.subrange(start as int, hi as int),
            size_value(s@) == number_of(d),
            v as nat == digits_value(d.subrange(0, i - start)),
            forall|j: int| 0 <= j < i - start ==> is_digit(#[trigger] d[j]),
        decreases hi - i,
    {
        let b = s[i];
        if b < 48 || b > 57 {
            assert(!is_digit(d[i - start]));
            return Err(ScanError::Configuration);
        }
        let digit = (b - 48) as u64;
        assert(d.subrange(0, i - start + 1).drop_last() =~= d.subrange(0, i - start));
        if v > (u64::MAX - digit) / 10 {
            proof {
                assert(digits_value(d.subrange(0, i - start + 1)) > u64::MAX);
                if forall|j: int| 0 <= j < d.len() ==> is_digit(#[trigger] d[j]) {
                    lemma_prefix_value(d, i - start + 1);
                }
            }
            return Err(ScanError::Configuration);
        }
        v = v * 10 + digit;
        i = i + 1;
    }
    assert(d.subrange(0, i - start) =~= d);
    Ok(v)
}

} // verus!
