//! Population counts of bytes, and a lookup table built once from them.
use vstd::prelude::*;

verus! {

/// The number of 1-bits in the binary representation of `n`, read off by
/// shifting and masking one bit at a time.
pub open spec fn popcount(n: nat) -> nat
    decreases n,
{
    if n == 0 {
        0
    } else {
        (n % 2) + popcount(n / 2)
    }
}

/// The population count of a byte is at most eight.
pub proof fn lemma_popcount_byte_bound(b: u8)
    ensures
        popcount(b as nat) <= 8,
{
    reveal_with_fuel(pow2, 9);
    assert(pow2(8) == 256);
    lemma_popcount_bound(b as nat, 8);
}

proof fn lemma_popcount_bound(n: nat, k: nat)
    requires
        n < pow2(k),
    ensures
        popcount(n) <= k,
    decreases k,
{
    if n != 0 {
        if k == 0 {
            assert(false);
        } else {
            assert(n / 2 < pow2((k - 1) as nat));
            lemma_popcount_bound(n / 2, (k - 1) as nat);
        }
    }
}

/// Two to the power `k`.
pub open spec fn pow2(k: nat) -> nat
    decreases k,
{
    if k == 0 {
        1
    } else {
        2 * pow2((k - 1) as nat)
    }
}

/// Counts the 1-bits of a byte by testing its lowest bit and shifting right
/// until nothing is left.
pub fn pop_count(b: u8) -> (r: u8)
    ensures
        r as nat == popcount(b as nat),
        r <= 8,
{
    let mut n: u8 = b;
    let mut c: u8 = 0;
    proof {
        lemma_popcount_byte_bound(b);
    }
    while n != 0
        invariant
            c as nat + popcount(n as nat) == popcount(b as nat),
            popcount(b as nat) <= 8,
        decreases n,
    {
        assert(n & 1 == n % 2) by (bit_vector);
        assert(n >> 1 == n / 2) by (bit_vector);
        c = c + (n & 1);
        n = n >> 1;
    }
    c
}

/// A table of the population count of every byte value, built once and then
/// shared by every scanner.
pub struct BitTable {
    table: Vec<u8>,
}

impl BitTable {
    /// Every entry holds the population count of its index.
    pub closed spec fn wf(&self) -> bool {
        &&& self.table@.len() == 256
        &&& forall|i: int| 0 <= i < 256 ==> self.table@[i] as nat == popcount(i as nat)
    }

    /// Builds the table of all 256 byte values.
    pub fn new() -> (t: BitTable)
        ensures
            t.wf(),
    {
        let mut table: Vec<u8> = Vec::new();
        let mut i: u32 = 0;
        while i < 256
            invariant
                i <= 256,
                table@.len() == i,
                forall|j: int| 0 <= j < i ==> table@[j] as nat == popcount(j as nat),
            decreases 256 - i,
        {
            let c = pop_count(i as u8);
            table.push(c);
            i = i + 1;
        }
        BitTable { table }
    }

    /// The population count of one byte, looked up in the table.
    pub fn count(&self, b: u8) -> (r: u8)
        requires
            self.wf(),
        ensures
            r as nat == popcount(b as nat),
            r <= 8,
    {
        proof {
            lemma_popcount_byte_bound(b);
        }
        self.table[b as usize]
    }

    /// The population count of each byte of `data`, in order.
    pub fn counts(&self, data: &[u8]) -> (r: Vec<u8>)
        requires
            self.wf(),
        ensures
            r@ == counts_of(data@),
    {
        let mut r: Vec<u8> = Vec::new();
        let mut i: usize = 0;
        while i < data.len()
            invariant
                self.wf(),
                i <= data@.len(),
                r@ == counts_of(data@.subrange(0, i as int)),
            decreases data@.len() - i,
        {
            let c = self.count(data[i]);
            proof {
                assert(data@.subrange(0, i + 1) == data@.subrange(0, i as int).push(data@[i as int]));
            }
            r.push(c);
            i = i + 1;
        }
        proof {
            assert(data@.subrange(0, i as int) == data@);
        }
        r
    }
}

/// The population count of each byte of `s`.
pub open spec fn counts_of(s: Seq<u8>) -> Seq<u8> {
    s.map_values(|b: u8| popcount(b as nat) as u8)
}

/// The sum of a sequence of counts.
pub open spec fn total(s: Seq<u8>) -> nat
    decreases s.len(),
{
    if s.len() == 0 {
        0
    } else {
        total(s.drop_last()) + s.last() as nat
    }
}

/// The number of 1-bits in all the bytes of `s` together.
pub open spec fn bits_in(s: Seq<u8>) -> nat {
    total(counts_of(s))
}

/// A total of counts that are each at most eight is at most eight times
/// their number.
pub proof fn lemma_total_bound(s: Seq<u8>)
    requires
        forall|i: int| 0 <= i < s.len() ==> s[i] <= 8,
    ensures
        total(s) <= 8 * s.len(),
    decreases s.len(),
{
    if s.len() > 0 {
        lemma_total_bound(s.drop_last());
    }
}

/// Sums a sequence of per-byte counts.
pub fn sum_counts(c: &[u8]) -> (r: u64)
    requires
        c@.len() <= u64::MAX / 8,
        forall|i: int| 0 <= i < c@.len() ==> c@[i] <= 8,
    ensures
        r as nat == total(c@),
{
    let mut r: u64 = 0;
    let mut i: usize = 0;
    while i < c.len()
        invariant
            i <= c@.len(),
            c@.len() <= u64::MAX / 8,
            forall|j: int| 0 <= j < c@.len() ==> c@[j] <= 8,
            r as nat == total(c@.subrange(0, i as int)),
            r <= 8 * i,
        decreases c@.len() - i,
    {
        proof {
            assert(c@.subrange(0, i + 1).drop_last() == c@.subrange(0, i as int));
        }
        r = r + c[i] as u64;
        i = i + 1;
    }
    proof {
        assert(c@.subrange(0, i as int) == c@);
    }
    r
}

} // verus!
