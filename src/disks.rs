//! One device under watch: where the next read goes, what each chunk held on
//! the last pass, and which bytes changed since.
use crate::bits::{counts_of, sum_counts, total, BitTable};
use vstd::prelude::*;

verus! {

/// The chunk size used unless a device is given another.
pub const CHUNK_SIZE: usize = 8192;

/// The largest chunk size accepted.
pub const MAX_CHUNK_SIZE: usize = 1073741824;

/// Why a scan could not start or could not go on.
#[derive(Debug, Clone, Copy, PartialEq, Eq, Structural)]
pub enum ScanError {
    /// A size that is unreadable, zero, or a chunk size out of range.
    Configuration,
    /// The configured device at this index is a mounted filesystem source.
    MountConflict { index: usize },
    /// A read returned another length than the one requested.
    Read,
}

/// One byte whose population count changed since the last pass.
pub struct FlipEvent {
    pub device: String,
    pub offset: u64,
}

/// The lowercase hexadecimal digit of `d`, below sixteen.
pub open spec fn hex_digit(d: nat) -> char {
    seq!['0', '1', '2', '3', '4', '5', '6', '7', '8', '9', 'a', 'b', 'c', 'd', 'e', 'f'][d as int]
}

/// `n` in lowercase hexadecimal, without a prefix or leading zeros.
pub open spec fn hex_of(n: nat) -> Seq<char>
    decreases n,
{
    if n < 16 {
        seq![hex_digit(n)]
    } else {
        hex_of(n / 16).push(hex_digit(n % 16))
    }
}

/// Relies on std's `format!` with `{:x}`: lowercase hexadecimal digits,
/// no prefix, no leading zeros, and `0` for zero.
#[verifier::external_body]
fn hex_string(n: u64) -> (r: String)
    ensures
        r@ == hex_of(n as nat),
{
    format!("{:x}", n)
}

impl FlipEvent {
    /// The offset of the changed byte in lowercase hexadecimal.
    pub fn offset_hex(&self) -> (r: String)
        ensures
            r@ == hex_of(self.offset as nat),
    {
        hex_string(self.offset)
    }
}

/// What is kept of a chunk from the last pass: the count of each byte and
/// their sum.
pub struct ChunkSnapshot {
    total: u64,
    counts: Vec<u8>,
}

/// A scanner of one device: its path, the flips it counted, the device size,
/// the chunk size, the offset of the next read and the counts kept of each
/// chunk from the last pass.
pub struct Disk {
    pub device: String,
    pub bit_flips: u64,
    size_bytes: u64,
    chunk_size: usize,
    cursor: u64,
    snapshots: Vec<ChunkSnapshot>,
}

/// The state of a scan as plain mathematics: the device path, the flips
/// counted so far, the device size, the chunk size, the offset of the next
/// read and the per-byte counts seen for each chunk position so far (in order
/// from the first chunk).
pub struct DiskModel {
    pub device: Seq<char>,
    pub flips: nat,
    pub size: nat,
    pub chunk: nat,
    pub cursor: nat,
    pub seen: Seq<Seq<u8>>,
}

/// The number of chunks a device of `size` bytes is cut into; the last one
/// may be shorter than `chunk`.
pub open spec fn num_chunks(size: nat, chunk: nat) -> nat
    recommends
        chunk > 0,
{
    ((size + chunk - 1) as nat) / chunk
}

/// The length of the chunk that starts at `start`: a whole chunk, or what is
/// left of the device.
pub open spec fn chunk_len(size: nat, chunk: nat, start: nat) -> nat {
    if start + chunk <= size {
        chunk
    } else {
        (size - start) as nat
    }
}

/// The offsets (counted from `base`) of the bytes whose counts differ
/// between `old` and `new`, in increasing order.
pub open spec fn changed_offsets(old: Seq<u8>, new: Seq<u8>, base: nat) -> Seq<nat>
    decreases new.len(),
{
    if new.len() == 0 {
        seq![]
    } else {
        let last = (new.len() - 1) as int;
        changed_offsets(old, new.drop_last(), base) + if old[last] != new[last] {
            seq![base + last as nat]
        } else {
            seq![]
        }
    }
}

/// The flips reported when a chunk whose last counts were `old` now has
/// counts `new`: none while their sums agree, else each byte whose count
/// changed.
pub open spec fn flip_offsets(old: Seq<u8>, new: Seq<u8>, base: nat) -> Seq<nat> {
    if total(old) == total(new) {
        seq![]
    } else {
        changed_offsets(old, new, base)
    }
}

/// `n`, or the largest `u64` where `n` is larger.
pub open spec fn capped(n: nat) -> nat {
    if n > u64::MAX {
        u64::MAX as nat
    } else {
        n
    }
}

/// The offsets that a list of events reports, in order.
pub open spec fn offsets_of(events: Seq<FlipEvent>) -> Seq<nat> {
    events.map_values(|e: FlipEvent| e.offset as nat)
}

impl DiskModel {
    /// A scan that has read nothing yet.
    pub open spec fn fresh(device: Seq<char>, size: nat, chunk: nat) -> DiskModel {
        DiskModel { device, flips: 0, size, chunk, cursor: 0, seen: seq![] }
    }

    pub open spec fn wf(self) -> bool {
        &&& self.size > 0
        &&& 0 < self.chunk
        &&& self.cursor < self.size
        &&& self.cursor % self.chunk == 0
        &&& self.seen.len() <= num_chunks(self.size, self.chunk)
        &&& self.cursor / self.chunk <= self.seen.len()
        &&& self.seen.len() < num_chunks(self.size, self.chunk) ==> self.seen.len()
            == self.cursor / self.chunk
        &&& forall|k: int|
            0 <= k < self.seen.len() ==> (#[trigger] self.seen[k]).len() == chunk_len(
                self.size,
                self.chunk,
                (k * self.chunk) as nat,
            )
    }

    /// The position of the chunk the next read covers.
    pub open spec fn index(self) -> nat {
        self.cursor / self.chunk
    }

    /// How many bytes the next read takes.
    pub open spec fn read_len(self) -> nat {
        chunk_len(self.size, self.chunk, self.cursor)
    }

    /// Where the read after this one starts: the next chunk, or the start of
    /// the device once its end is reached.
    pub open spec fn next_cursor(self) -> nat {
        if self.cursor + self.read_len() >= self.size {
            0
        } else {
            self.cursor + self.read_len()
        }
    }

    /// The flips found when the next read returns `data`.
    pub open spec fn flips_found(self, data: Seq<u8>) -> Seq<nat> {
        if self.index() < self.seen.len() {
            flip_offsets(self.seen[self.index() as int], counts_of(data), self.cursor)
        } else {
            seq![]
        }
    }

    /// The state after the next read returns `data`: its counts replace what
    /// was kept for that chunk, the flips found are counted (up to the largest
    /// `u64`), and the cursor moves on.
    pub open spec fn after_read(self, data: Seq<u8>) -> DiskModel {
        DiskModel {
            flips: capped(self.flips + self.flips_found(data).len()),
            cursor: self.next_cursor(),
            seen: if self.index() < self.seen.len() {
                self.seen.update(self.index() as int, counts_of(data))
            } else {
                self.seen.push(counts_of(data))
            },
            ..self
        }
    }
}

/// Chunk `j` exists exactly when it starts before the end of the device.
pub proof fn lemma_num_chunks(size: nat, chunk: nat, j: nat)
    requires
        size > 0,
        chunk > 0,
    ensures
        (j < num_chunks(size, chunk)) <==> (j * chunk < size),
{
    let q = ((size - 1) as nat) / chunk;
    let r = ((size - 1) as nat) % chunk;
    vstd::arithmetic::div_mod::lemma_fundamental_div_mod((size - 1) as int, chunk as int);
    assert((size + chunk - 1) == (q + 1) * chunk + r) by (nonlinear_arith)
        requires
            size - 1 == chunk * q + r,
    {
    }
    vstd::arithmetic::div_mod::lemma_fundamental_div_mod_converse(
        (size + chunk - 1) as int,
        chunk as int,
        (q + 1) as int,
        r as int,
    );
    if j <= q {
        assert(j * chunk <= q * chunk) by (nonlinear_arith)
            requires
                j <= q,
        {
        }
    } else {
        assert(j * chunk >= (q + 1) * chunk) by (nonlinear_arith)
            requires
                j >= q + 1,
        {
        }
    }
}

/// A cursor on a chunk boundary is that chunk's index times the chunk size,
/// and the next boundary is one index further.
proof fn lemma_boundary(cursor: nat, chunk: nat)
    requires
        chunk > 0,
        cursor % chunk == 0,
    ensures
        cursor == (cursor / chunk) * chunk,
        cursor + chunk == (cursor / chunk + 1) * chunk,
        (cursor + chunk) / chunk == cursor / chunk + 1,
        (cursor + chunk) % chunk == 0,
{
    vstd::arithmetic::div_mod::lemma_fundamental_div_mod(cursor as int, chunk as int);
    let k = cursor / chunk;
    assert(cursor == k * chunk && cursor + chunk == (k + 1) * chunk) by (nonlinear_arith)
        requires
            cursor == chunk * k + cursor % chunk,
            cursor % chunk == 0,
    {
    }
    vstd::arithmetic::div_mod::lemma_fundamental_div_mod_converse(
        (cursor + chunk) as int,
        chunk as int,
        (k + 1) as int,
        0,
    );
}

impl DiskModel {
    /// A read of the length asked for keeps the state well formed: the cursor
    /// stays on a chunk boundary strictly inside the device.
    pub proof fn lemma_after_read_wf(self, data: Seq<u8>)
        requires
            self.wf(),
            data.len() == self.read_len(),
        ensures
            self.after_read(data).wf(),
    {
        let k = self.index();
        let n = self.after_read(data);
        lemma_boundary(self.cursor, self.chunk);
        lemma_num_chunks(self.size, self.chunk, k);
        lemma_num_chunks(self.size, self.chunk, k + 1);
        assert(counts_of(data).len() == data.len());
        if self.cursor + self.read_len() < self.size {
            assert(self.read_len() == self.chunk);
            assert(n.cursor == (k + 1) * self.chunk);
        } else {
            assert(n.cursor == 0);
            assert(0nat % self.chunk == 0);
            assert(0nat / self.chunk == 0);
        }
        assert forall|i: int| 0 <= i < n.seen.len() implies (#[trigger] n.seen[i]).len()
            == chunk_len(self.size, self.chunk, (i * self.chunk) as nat) by {
            if i != k {
                assert(n.seen[i] == self.seen[i]);
            } else {
                assert(n.seen[i] == counts_of(data));
                assert((i * self.chunk) as nat == self.cursor);
            }
        }
    }
}

impl View for Disk {
    type V = DiskModel;

    closed spec fn view(&self) -> DiskModel {
        DiskModel {
            device: self.device@,
            flips: self.bit_flips as nat,
            size: self.size_bytes as nat,
            chunk: self.chunk_size as nat,
            cursor: self.cursor as nat,
            seen: self.snapshots@.map_values(|s: ChunkSnapshot| s.counts@),
        }
    }
}

impl Disk {
    /// The model is well formed, each kept chunk holds counts of bytes with
    /// their sum, and the chunk size is in range.
    pub closed spec fn wf(&self) -> bool {
        &&& self@.wf()
        &&& self.chunk_size <= MAX_CHUNK_SIZE
        &&& forall|k: int|
            0 <= k < self.snapshots@.len() ==> {
                &&& (#[trigger] self.snapshots@[k]).total as nat == total(
                    self.snapshots@[k].counts@,
                )
                &&& forall|i: int|
                    0 <= i < self.snapshots@[k].counts@.len() ==> self.snapshots@[k].counts@[i]
                        <= 8
            }
    }

    /// A scanner for the device at `device`, of `size_bytes` bytes, read in
    /// chunks of `chunk_size` bytes. A device of no bytes, or a chunk size of
    /// zero or over the largest accepted, is refused.
    pub fn with_chunk_size(device: String, size_bytes: u64, chunk_size: usize) -> (r: Result<
        Disk,
        ScanError,
    >)
        ensures
            r is Err <==> (size_bytes == 0 || chunk_size == 0 || chunk_size > MAX_CHUNK_SIZE),
            r is Err ==> r == Err::<Disk, ScanError>(ScanError::Configuration),
            r matches Ok(d) ==> {
                &&& d.wf()
                &&& d@ == DiskModel::fresh(device@, size_bytes as nat, chunk_size as nat)
            },
    {
        if size_bytes == 0 || chunk_size == 0 || chunk_size > MAX_CHUNK_SIZE {
            return Err(ScanError::Configuration);
        }
        let d = Disk {
            device,
            bit_flips: 0,
            size_bytes,
            chunk_size,
            cursor: 0,
            snapshots: Vec::new(),
        };
        proof {
            assert(d@.seen =~= Seq::<Seq<u8>>::empty());
            assert(num_chunks(size_bytes as nat, chunk_size as nat) >= 1) by (nonlinear_arith)
                requires
                    size_bytes > 0,
                    chunk_size > 0,
            {
            }
        }
        Ok(d)
    }

    /// A scanner for the device at `device`, of `size_bytes` bytes, read in
    /// chunks of the default size. A device of no bytes is refused.
    pub fn new(device: String, size_bytes: u64) -> (r: Result<Disk, ScanError>)
        ensures
            r is Err <==> size_bytes == 0,
            r is Err ==> r == Err::<Disk, ScanError>(ScanError::Configuration),
            r matches Ok(d) ==> {
                &&& d.wf()
                &&& d@ == DiskModel::fresh(device@, size_bytes as nat, CHUNK_SIZE as nat)
            },
    {
        Disk::with_chunk_size(device, size_bytes, CHUNK_SIZE)
    }

    /// The size of the device in bytes.
    pub fn size_bytes(&self) -> (r: u64)
        ensures
            r as nat == self@.size,
    {
        self.size_bytes
    }

    /// The offset at which the next read starts.
    pub fn cursor(&self) -> (r: u64)
        ensures
            r as nat == self@.cursor,
    {
        self.cursor
    }

    /// How far the cursor stands into the device, in whole percent.
    pub fn progress_percent(&self) -> (r: u64)
        requires
            self.wf(),
        ensures
            r as nat == self@.cursor * 100 / self@.size,
            r < 100,
    {
        let p = (self.cursor as u128) * 100 / (self.size_bytes as u128);
        proof {
            let c = self.cursor as nat;
            let z = self.size_bytes as nat;
            assert(c * 100 < z * 100) by (nonlinear_arith)
                requires
                    c < z,
            {
            }
            vstd::arithmetic::div_mod::lemma_div_is_ordered((c * 100) as int, (z * 100 - 1) as int, z as int);
            assert((z * 100 - 1) as int / z as int == 99) by (nonlinear_arith)
                requires
                    z > 0,
            {
                vstd::arithmetic::div_mod::lemma_fundamental_div_mod_converse(
                    (z * 100 - 1) as int,
                    z as int,
                    99,
                    (z - 1) as int,
                );
            }
        }
        p as u64
    }

    /// Where the next read goes and how long it is. It never reaches past the
    /// end of the device: the last chunk is cut short there.
    pub fn next_read(&self) -> (r: (u64, usize))
        requires
            self.wf(),
        ensures
            r.0 as nat == self@.cursor,
            r.1 as nat == self@.read_len(),
            0 < r.1,
            r.0 + r.1 <= self@.size,
    {
        (self.cursor, self.read_len())
    }

    /// Takes the bytes that the read asked for by `next_read` returned, and
    /// compares their counts with those kept for the same chunk on the last
    /// pass. Returns the flips found, counts them, keeps the new counts and
    /// moves the cursor on. Bytes of another length are a read error, and
    /// leave the scan as it was.
    pub fn get_bit_flips(&mut self, table: &BitTable, data: &[u8]) -> (r: Result<
        Vec<FlipEvent>,
        ScanError,
    >)
        requires
            old(self).wf(),
            table.wf(),
        ensures
            final(self).wf(),
            r is Err <==> data@.len() != old(self)@.read_len(),
            r is Err ==> r == Err::<Vec<FlipEvent>, ScanError>(ScanError::Read) && final(self)@
                == old(self)@,
            r matches Ok(events) ==> {
                &&& final(self)@ == old(self)@.after_read(data@)
                &&& offsets_of(events@) == old(self)@.flips_found(data@)
                &&& forall|j: int| 0 <= j < events@.len() ==> (#[trigger] events@[j]).device@ == old(self)@.device
            },
    {
        let len = self.read_len();
        if data.len() != len {
            return Err(ScanError::Read);
        }
        let counts = table.counts(data);
        proof {
            assert forall|i: int| 0 <= i < counts@.len() implies counts@[i] <= 8 by {
                crate::bits::lemma_popcount_byte_bound(data@[i]);
            }
        }
        let sum = sum_counts(counts.as_slice());
        let ghost m = self@;
        proof {
            lemma_boundary(m.cursor, m.chunk);
            assert(m.seen.len() == self.snapshots@.len());
            if m.index() < m.seen.len() {
                assert(m.seen[m.index() as int] == self.snapshots@[m.index() as int].counts@);
                assert((m.index() as int * m.chunk) as nat == m.cursor);
            }
        }
        let k: usize = (self.cursor / (self.chunk_size as u64)) as usize;
        let mut events: Vec<FlipEvent> = Vec::new();
        if k < self.snapshots.len() {
            if self.snapshots[k].total != sum {
                events = changed_events(&self.device, &self.snapshots[k].counts, &counts, self.cursor);
            }
            self.snapshots[k] = ChunkSnapshot { total: sum, counts };
        } else {
            self.snapshots.push(ChunkSnapshot { total: sum, counts });
        }
        self.bit_flips = self.bit_flips.saturating_add(events.len() as u64);
        let end = self.cursor + len as u64;
        if end >= self.size_bytes {
            self.cursor = 0;
        } else {
            self.cursor = end;
        }
        proof {
            assert(self@.seen =~= m.after_read(data@).seen);
            m.lemma_after_read_wf(data@);
        }
        Ok(events)
    }

    fn read_len(&self) -> (r: usize)
        requires
            self.wf(),
        ensures
            r as nat == self@.read_len(),
            0 < r <= self.chunk_size,
    {
        let left = self.size_bytes - self.cursor;
        if self.chunk_size as u64 <= left {
            self.chunk_size
        } else {
            left as usize
        }
    }
}

/// One event for each byte whose count differs between `old` and `new`, at
/// its offset from `base`.
fn changed_events(device: &String, old: &Vec<u8>, new: &Vec<u8>, base: u64) -> (r: Vec<FlipEvent>)
    requires
        old@.len() == new@.len(),
        base + new@.len() <= u64::MAX,
    ensures
        offsets_of(r@) == changed_offsets(old@, new@, base as nat),
        forall|j: int| 0 <= j < r@.len() ==> (#[trigger] r@[j]).device@ == device@,
{
    let mut r: Vec<FlipEvent> = Vec::new();
    let mut i: usize = 0;
    while i < new.len()
        invariant
            i <= new@.len(),
            old@.len() == new@.len(),
            base + new@.len() <= u64::MAX,
            offsets_of(r@) == changed_offsets(old@, new@.subrange(0, i as int), base as nat),
            forall|j: int| 0 <= j < r@.len() ==> (#[trigger] r@[j]).device@ == device@,
        decreases new@.len() - i,
    {
        let ghost before = r@;
        proof {
            let s = new@.subrange(0, i + 1);
            assert(s.drop_last() =~= new@.subrange(0, i as int));
            assert(s[i as int] == new@[i as int]);
        }
        if old[i] != new[i] {
            r.push(FlipEvent { device: device.clone(), offset: base + i as u64 });
            proof {
                assert(offsets_of(r@) =~= offsets_of(before) + seq![(base + i) as nat]);
            }
        } else {
            proof {
                assert(offsets_of(r@) =~= offsets_of(before) + Seq::<nat>::empty());
            }
        }
        i = i + 1;
    }
    proof {
        assert(new@.subrange(0, i as int) =~= new@);
    }
    r
}

} // verus!
