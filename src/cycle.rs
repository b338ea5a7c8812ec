//! Whole passes over a device whose content is known, and what the scan
//! reports on them.
use crate::bits::{counts_of, popcount, total};
use crate::disks::{
    changed_offsets, chunk_len, flip_offsets, lemma_num_chunks, num_chunks, DiskModel,
};
use vstd::prelude::*;

verus! {

/// The bytes that the next read returns from a device holding `content`.
pub open spec fn read_of(m: DiskModel, content: Seq<u8>) -> Seq<u8> {
    content.subrange(m.cursor as int, (m.cursor + m.read_len()) as int)
}

/// `n` reads in a row from a device holding `content`: the state after them,
/// and the offsets of the flips that they reported, in order.
pub open spec fn scan(m: DiskModel, content: Seq<u8>, n: nat) -> (DiskModel, Seq<nat>)
    decreases n,
{
    if n == 0 {
        (m, seq![])
    } else {
        let p = scan(m, content, (n - 1) as nat);
        (
            p.0.after_read(read_of(p.0, content)),
            p.1 + p.0.flips_found(read_of(p.0, content)),
        )
    }
}

/// Chunk `k` of `content`.
pub open spec fn chunk_at(content: Seq<u8>, size: nat, chunk: nat, k: nat) -> Seq<u8> {
    content.subrange((k * chunk) as int, (k * chunk + chunk_len(size, chunk, k * chunk)) as int)
}

/// Where the cursor stands after `j` reads from the start of a pass.
pub open spec fn cursor_after(size: nat, chunk: nat, j: nat) -> nat {
    if j < num_chunks(size, chunk) {
        j * chunk
    } else {
        0
    }
}

/// The flips reported over the first `j` chunks of a pass over `now`, when the
/// pass before it saw `before`.
pub open spec fn pass_flips(before: Seq<u8>, now: Seq<u8>, size: nat, chunk: nat, j: nat) -> Seq<
    nat,
>
    decreases j,
{
    if j == 0 {
        seq![]
    } else {
        let k = (j - 1) as nat;
        pass_flips(before, now, size, chunk, k) + flip_offsets(
            counts_of(chunk_at(before, size, chunk, k)),
            counts_of(chunk_at(now, size, chunk, k)),
            k * chunk,
        )
    }
}

/// One read at the start of chunk `j`: it covers that chunk and leaves the
/// cursor at the start of the next, or at zero after the last.
proof fn lemma_step_at(p: DiskModel, content: Seq<u8>, j: nat)
    requires
        p.wf(),
        content.len() == p.size,
        j < num_chunks(p.size, p.chunk),
        p.cursor == j * p.chunk,
    ensures
        p.index() == j,
        read_of(p, content) == chunk_at(content, p.size, p.chunk, j),
        read_of(p, content).len() == p.read_len(),
        p.next_cursor() == cursor_after(p.size, p.chunk, j + 1),
{
    vstd::arithmetic::div_mod::lemma_fundamental_div_mod_converse(
        p.cursor as int,
        p.chunk as int,
        j as int,
        0,
    );
    lemma_num_chunks(p.size, p.chunk, j + 1);
    assert((j + 1) * p.chunk == j * p.chunk + p.chunk) by (nonlinear_arith);
}

/// The first pass from a fresh state reports nothing and keeps the counts of
/// each chunk it read.
proof fn lemma_first_pass(device: Seq<char>, size: nat, chunk: nat, c: Seq<u8>, j: nat)
    requires
        size > 0,
        chunk > 0,
        c.len() == size,
        j <= num_chunks(size, chunk),
    ensures
        ({
            let p = scan(DiskModel::fresh(device, size, chunk), c, j);
            &&& p.0.wf()
            &&& p.1 == Seq::<nat>::empty()
            &&& p.0.size == size
            &&& p.0.chunk == chunk
            &&& p.0.cursor == cursor_after(size, chunk, j)
            &&& p.0.seen.len() == j
            &&& forall|k: int|
                0 <= k < j ==> #[trigger] p.0.seen[k] == counts_of(chunk_at(c, size, chunk, k as nat))
        }),
    decreases j,
{
    lemma_num_chunks(size, chunk, 0);
    if j > 0 {
        let k = (j - 1) as nat;
        lemma_first_pass(device, size, chunk, c, k);
        let p = scan(DiskModel::fresh(device, size, chunk), c, k).0;
        lemma_step_at(p, c, k);
        p.lemma_after_read_wf(read_of(p, c));
        let n = scan(DiskModel::fresh(device, size, chunk), c, j).0;
        assert forall|i: int| 0 <= i < j implies #[trigger] n.seen[i] == counts_of(
            chunk_at(c, size, chunk, i as nat),
        ) by {
            if i < k {
                assert(n.seen[i] == p.seen[i]);
            }
        }
    } else {
        assert(0 * chunk == 0);
    }
}

/// A later pass over `now`, after a pass that saw `before`: it reports the
/// flips of each chunk in turn and keeps the counts it read.
proof fn lemma_later_pass(m: DiskModel, before: Seq<u8>, now: Seq<u8>, j: nat)
    requires
        m.wf(),
        before.len() == m.size,
        now.len() == m.size,
        m.cursor == 0,
        m.seen.len() == num_chunks(m.size, m.chunk),
        forall|k: int|
            0 <= k < m.seen.len() ==> #[trigger] m.seen[k] == counts_of(
                chunk_at(before, m.size, m.chunk, k as nat),
            ),
        j <= num_chunks(m.size, m.chunk),
    ensures
        ({
            let p = scan(m, now, j);
            &&& p.0.wf()
            &&& p.0.size == m.size
            &&& p.0.chunk == m.chunk
            &&& p.0.cursor == cursor_after(m.size, m.chunk, j)
            &&& p.0.seen.len() == num_chunks(m.size, m.chunk)
            &&& forall|k: int|
                0 <= k < p.0.seen.len() ==> #[trigger] p.0.seen[k] == counts_of(
                    chunk_at(if k < j { now } else { before }, m.size, m.chunk, k as nat),
                )
            &&& p.1 == pass_flips(before, now, m.size, m.chunk, j)
        }),
    decreases j,
{
    lemma_num_chunks(m.size, m.chunk, 0);
    if j > 0 {
        let k = (j - 1) as nat;
        lemma_later_pass(m, before, now, k);
        let p = scan(m, now, k).0;
        lemma_step_at(p, now, k);
        p.lemma_after_read_wf(read_of(p, now));
        let n = scan(m, now, j).0;
        assert forall|i: int| 0 <= i < n.seen.len() implies #[trigger] n.seen[i] == counts_of(
            chunk_at(if i < j { now } else { before }, m.size, m.chunk, i as nat),
        ) by {
            if i != k {
                assert(n.seen[i] == p.seen[i]);
            }
        }
    } else {
        assert(0 * m.chunk == 0);
    }
}

/// Every read starts inside the device and ends at its end at the latest;
/// the cursor after it is inside the device again, and is zero once the end
/// was reached.
pub proof fn law_cursor_in_range(m: DiskModel, data: Seq<u8>)
    requires
        m.wf(),
        data.len() == m.read_len(),
    ensures
        m.cursor < m.size,
        m.cursor + m.read_len() <= m.size,
        m.after_read(data).cursor < m.size,
        m.cursor + m.read_len() == m.size ==> m.after_read(data).cursor == 0,
{
    m.lemma_after_read_wf(data);
}

/// Nothing is reported for a chunk whose counts did not change.
proof fn lemma_same_quiet(before: Seq<u8>, size: nat, chunk: nat, j: nat)
    ensures
        pass_flips(before, before, size, chunk, j) == Seq::<nat>::empty(),
    decreases j,
{
    if j > 0 {
        lemma_same_quiet(before, size, chunk, (j - 1) as nat);
        let c = counts_of(chunk_at(before, size, chunk, (j - 1) as nat));
        assert(flip_offsets(c, c, ((j - 1) as nat) * chunk) == Seq::<nat>::empty());
        assert(pass_flips(before, before, size, chunk, j) =~= Seq::<nat>::empty());
    }
}

/// Two full passes over a device whose content does not change: the second
/// pass reports no flip.
pub proof fn law_static_device_is_quiet(device: Seq<char>, size: nat, chunk: nat, content: Seq<u8>)
    requires
        size > 0,
        chunk > 0,
        content.len() == size,
    ensures
        ({
            let n = num_chunks(size, chunk);
            let first = scan(DiskModel::fresh(device, size, chunk), content, n).0;
            scan(first, content, n).1 == Seq::<nat>::empty()
        }),
{
    let n = num_chunks(size, chunk);
    lemma_first_pass(device, size, chunk, content, n);
    let first = scan(DiskModel::fresh(device, size, chunk), content, n).0;
    lemma_later_pass(first, content, content, n);
    lemma_same_quiet(content, size, chunk, n);
}

proof fn lemma_popcount_unfold(n: nat)
    ensures
        popcount(n) == n % 2 + popcount(n / 2),
{
    if n == 0 {
        assert(popcount(0) == 0);
    }
}

/// Flipping one bit of a byte moves its population count by exactly one.
pub proof fn lemma_flip_moves_count(x: u8, b: u8)
    requires
        b < 8,
    ensures
        popcount((x ^ (1u8 << b)) as nat) == popcount(x as nat) + 1 || popcount(x as nat)
            == popcount((x ^ (1u8 << b)) as nat) + 1,
    decreases b,
{
    let y = x ^ (1u8 << b);
    lemma_popcount_unfold(x as nat);
    lemma_popcount_unfold(y as nat);
    if b == 0 {
        assert(y % 2 != x % 2 && y / 2 == x / 2) by (bit_vector)
            requires
                y == x ^ (1u8 << b),
                b == 0,
        ;
    } else {
        let h = x / 2;
        let c = (b - 1) as u8;
        assert(y % 2 == x % 2 && y / 2 == h ^ (1u8 << c)) by (bit_vector)
            requires
                y == x ^ (1u8 << b),
                0 < b < 8,
                h == x / 2,
                c == b - 1,
        ;
        lemma_flip_moves_count(h, c);
    }
}

/// Replacing one count changes the total by the difference.
proof fn lemma_total_update(s: Seq<u8>, i: int, v: u8)
    requires
        0 <= i < s.len(),
    ensures
        total(s.update(i, v)) + s[i] == total(s) + v,
    decreases s.len(),
{
    let u = s.update(i, v);
    if i == s.len() - 1 {
        assert(u.drop_last() =~= s.drop_last());
    } else {
        assert(u.drop_last() =~= s.drop_last().update(i, v));
        lemma_total_update(s.drop_last(), i, v);
    }
}

/// Where `old` and `new` differ at `i` alone, the first `len` counts of
/// `new` report `base + i` when `i` lies among them, and nothing otherwise.
proof fn lemma_changed_single(old: Seq<u8>, new: Seq<u8>, base: nat, i: int, len: int)
    requires
        old.len() == new.len(),
        0 <= i < new.len(),
        0 <= len <= new.len(),
        old[i] != new[i],
        forall|j: int| 0 <= j < new.len() && j != i ==> old[j] == new[j],
    ensures
        changed_offsets(old, new.subrange(0, len), base) == (if i < len {
            seq![base + i as nat]
        } else {
            Seq::<nat>::empty()
        }),
    decreases len,
{
    let t = new.subrange(0, len);
    if len > 0 {
        assert(t.drop_last() =~= new.subrange(0, len - 1));
        lemma_changed_single(old, new, base, i, len - 1);
        assert(t[len - 1] == new[len - 1]);
        assert(changed_offsets(old, t, base) =~= (if i < len {
            seq![base + i as nat]
        } else {
            Seq::<nat>::empty()
        }));
    }
}

/// The chunk that holds offset `o` is `o / chunk`; no other chunk holds it.
proof fn lemma_owner_chunk(size: nat, chunk: nat, o: nat, k: nat)
    requires
        chunk > 0,
        o < size,
        k < num_chunks(size, chunk),
    ensures
        (k == o / chunk) <==> (k * chunk <= o < k * chunk + chunk_len(size, chunk, k * chunk)),
{
    vstd::arithmetic::div_mod::lemma_fundamental_div_mod(o as int, chunk as int);
    let q = o / chunk;
    if k < q {
        assert(k * chunk + chunk <= q * chunk) by (nonlinear_arith)
            requires
                k < q,
        ;
    } else if k > q {
        assert(k * chunk >= q * chunk + chunk) by (nonlinear_arith)
            requires
                k > q,
        ;
    }
    assert(q * chunk == chunk * q) by (nonlinear_arith);
}

/// A pass over `now`, where `now` differs from `before` at offset `o` alone
/// and there by one flipped bit, reports `o` once its chunk is passed.
proof fn lemma_pass_single(before: Seq<u8>, size: nat, chunk: nat, o: nat, b: u8, j: nat)
    requires
        size > 0,
        chunk > 0,
        before.len() == size,
        o < size,
        b < 8,
        j <= num_chunks(size, chunk),
    ensures
        pass_flips(before, before.update(o as int, before[o as int] ^ (1u8 << b)), size, chunk, j)
            == (if o / chunk < j {
            seq![o]
        } else {
            Seq::<nat>::empty()
        }),
    decreases j,
{
    let now = before.update(o as int, before[o as int] ^ (1u8 << b));
    if j > 0 {
        let k = (j - 1) as nat;
        lemma_pass_single(before, size, chunk, o, b, k);
        lemma_owner_chunk(size, chunk, o, k);
        lemma_num_chunks(size, chunk, k);
        let lo = k * chunk;
        let len = chunk_len(size, chunk, lo);
        let x = chunk_at(before, size, chunk, k);
        let y = chunk_at(now, size, chunk, k);
        let cx = counts_of(x);
        let cy = counts_of(y);
        if k == o / chunk {
            let i = o - lo;
            assert(y =~= x.update(i, before[o as int] ^ (1u8 << b)));
            assert(cy =~= cx.update(i, popcount((before[o as int] ^ (1u8 << b)) as nat) as u8));
            lemma_flip_moves_count(before[o as int], b);
            crate::bits::lemma_popcount_byte_bound(before[o as int]);
            crate::bits::lemma_popcount_byte_bound(before[o as int] ^ (1u8 << b));
            assert(x[i] == before[o as int]);
            assert(cx[i] as nat == popcount(before[o as int] as nat));
            assert(cy[i] as nat == popcount((before[o as int] ^ (1u8 << b)) as nat));
            lemma_total_update(cx, i, cy[i]);
            assert(total(cx) != total(cy));
            lemma_changed_single(cx, cy, lo, i, cy.len() as int);
            assert(cy.subrange(0, cy.len() as int) =~= cy);
            assert(lo + i == o);
            assert(pass_flips(before, now, size, chunk, j) =~= seq![o]);
        } else {
            assert(y =~= x);
            assert(flip_offsets(cx, cy, lo) == Seq::<nat>::empty());
            assert(pass_flips(before, now, size, chunk, j) =~= pass_flips(
                before,
                now,
                size,
                chunk,
                k,
            ));
        }
    }
}

/// A device whose content changes by one bit, at byte offset `o`, between
/// the first pass and the second: the second pass reports exactly one flip,
/// at `o`.
pub proof fn law_single_flip_located(
    device: Seq<char>,
    size: nat,
    chunk: nat,
    content: Seq<u8>,
    o: nat,
    bit: u8,
)
    requires
        size > 0,
        chunk > 0,
        content.len() == size,
        o < size,
        bit < 8,
    ensures
        ({
            let n = num_chunks(size, chunk);
            let first = scan(DiskModel::fresh(device, size, chunk), content, n).0;
            let changed = content.update(o as int, content[o as int] ^ (1u8 << bit));
            scan(first, changed, n).1 == seq![o]
        }),
{
    let n = num_chunks(size, chunk);
    let changed = content.update(o as int, content[o as int] ^ (1u8 << bit));
    lemma_first_pass(device, size, chunk, content, n);
    let first = scan(DiskModel::fresh(device, size, chunk), content, n).0;
    lemma_later_pass(first, content, changed, n);
    lemma_pass_single(content, size, chunk, o, bit, n);
    vstd::arithmetic::div_mod::lemma_fundamental_div_mod(o as int, chunk as int);
    lemma_num_chunks(size, chunk, o / chunk);
    assert((o / chunk) * chunk <= o) by (nonlinear_arith)
        requires
            o == chunk * (o / chunk) + o % chunk,
            o % chunk >= 0,
    ;
}

} // verus!
