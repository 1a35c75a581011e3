//! The addressable store and the read/write capability it offers.

use vstd::prelude::*;

use crate::snapshot::{decode, encode, push_be, read_be, record_fits, record_len, SnapshotError};

verus! {

/// A 16-bit bus address.
pub type Addr = u16;

/// One byte of memory.
pub type Byte = u8;

/// A wide address, as large as the host's pointer.
pub type Word = usize;

/// Byte reads. Every storage-like entity offers these; the defaults return 0.
/// `read` is the access a running program makes and may have side effects in an
/// implementor; `peek` only inspects. The `w` forms take a wide address.
pub trait MemRead {
    fn read(&mut self, addr: Addr) -> Byte {
        0
    }

    fn readw(&mut self, addr: Word) -> Byte {
        0
    }

    fn peek(&self, addr: Addr) -> Byte {
        0
    }

    fn peekw(&self, addr: Word) -> Byte {
        0
    }
}

/// Byte writes. The defaults do nothing; the `w` form takes a wide address.
pub trait MemWrite {
    fn write(&mut self, addr: Addr, val: Byte) {
    }

    fn writew(&mut self, addr: Word, val: Byte) {
    }
}

/// Splitting a store into fixed-size banks, done once when a cartridge is set up.
pub trait Bankable: Sized {
    type Item;

    /// The number of bytes held.
    spec fn length(&self) -> nat;

    /// Whether `banks` is `self` cut into consecutive pieces of `size` bytes.
    spec fn partitioned(&self, size: usize, banks: Seq<Self::Item>) -> bool;

    fn chunks(&self, size: usize) -> (r: Vec<Self::Item>)
        ensures
            self.partitioned(size, r@),
    ;

    fn len(&self) -> (r: usize)
        ensures
            r == self.length(),
    ;

    fn is_empty(&self) -> (r: bool)
        ensures
            r == (self.length() == 0),
    ;
}

/// The mathematical value of a [`Memory`]: its bytes and whether writes land.
pub ghost struct MemoryView {
    pub data: Seq<u8>,
    pub writable: bool,
}

/// The byte at `addr` once the address is mirrored into a buffer of `data.len()` bytes;
/// 0 for an empty buffer.
pub open spec fn mirrored(data: Seq<u8>, addr: int) -> u8 {
    if data.len() == 0 {
        0
    } else {
        data[addr % (data.len() as int)]
    }
}

/// A byte buffer of fixed length with a writability flag.
#[derive(Clone, Debug)]
pub struct Memory {
    data: Vec<Byte>,
    writable: bool,
}

impl View for Memory {
    type V = MemoryView;

    closed spec fn view(&self) -> MemoryView {
        MemoryView { data: self.data@, writable: self.writable }
    }
}

impl Default for Memory {
    /// An empty read-only store; nothing is drawn at random.
    fn default() -> (r: Self)
        ensures
            r@.data.len() == 0,
            !r@.writable,
    {
        Self { data: Vec::new(), writable: false }
    }
}

impl MemRead for Memory {
    fn read(&mut self, addr: Addr) -> (r: Byte)
        ensures
            r == mirrored(old(self)@.data, addr as int),
            *final(self) == *old(self),
    {
        self.peek(addr)
    }

    fn readw(&mut self, addr: Word) -> (r: Byte)
        ensures
            r == mirrored(old(self)@.data, addr as int),
            *final(self) == *old(self),
    {
        self.peekw(addr)
    }

    fn peek(&self, addr: Addr) -> (r: Byte)
        ensures
            r == mirrored(self@.data, addr as int),
    {
        self.peekw(addr as Word)
    }

    fn peekw(&self, addr: Word) -> (r: Byte)
        ensures
            r == mirrored(self@.data, addr as int),
    {
        if self.data.len() > 0 {
            self.data[addr % self.data.len()]
        } else {
            0
        }
    }
}

/// A fresh vector holding `bytes[lo..hi]`.
pub(crate) fn copy_range(bytes: &[Byte], lo: usize, hi: usize) -> (r: Vec<Byte>)
    requires
        lo <= hi <= bytes@.len(),
    ensures
        r@ == bytes@.subrange(lo as int, hi as int),
{
    let mut r: Vec<Byte> = Vec::with_capacity(hi - lo);
    let mut i: usize = lo;
    while i < hi
        invariant
            lo <= i <= hi <= bytes@.len(),
            r@ == bytes@.subrange(lo as int, i as int),
        decreases hi - i,
    {
        r.push(bytes[i]);
        i = i + 1;
        assert(r@ =~= bytes@.subrange(lo as int, i as int));
    }
    r
}

/// Whether [`Memory::with_capacity`] models power-on noise; when false it fills with zero.
pub const RANDOMIZE_RAM: bool = true;

/// The store after writing `val` at `addr`: the mirrored byte changes when the
/// store is writable and not empty, and nothing changes otherwise.
pub open spec fn written(m: MemoryView, addr: int, val: u8) -> MemoryView {
    if m.writable && m.data.len() > 0 {
        MemoryView { data: m.data.update(addr % (m.data.len() as int), val), writable: true }
    } else {
        m
    }
}

impl Memory {
    /// An empty writable store.
    pub fn new() -> (r: Self)
        ensures
            r@.data.len() == 0,
            r@.writable,
    {
        Self::with_capacity(0)
    }

    /// A writable store of `capacity` bytes, filled with zero or, when `randomize`
    /// holds, with random bytes.
    pub fn filled(capacity: usize, randomize: bool) -> (r: Self)
        ensures
            r@.data.len() == capacity,
            r@.writable,
            !randomize ==> r@.data == Seq::new(capacity as nat, |i: int| 0u8),
    {
        let mut data: Vec<Byte> = Vec::with_capacity(capacity);
        let mut i: usize = 0;
        if randomize {
            let mut rng = rand::thread_rng();
            while i < capacity
                invariant
                    i <= capacity,
                    data@.len() == i,
                decreases capacity - i,
            {
                data.push(crate::entropy::random_byte(&mut rng));
                i = i + 1;
            }
        } else {
            while i < capacity
                invariant
                    i <= capacity,
                    data@.len() == i,
                    forall|j: int| 0 <= j < i ==> data@[j] == 0u8,
                decreases capacity - i,
            {
                data.push(0);
                i = i + 1;
            }
        }
        assert(!randomize ==> data@ =~= Seq::new(capacity as nat, |i: int| 0u8));
        Self { data, writable: true }
    }

    /// A writable store of `capacity` bytes, filled as [`RANDOMIZE_RAM`] says.
    pub fn with_capacity(capacity: usize) -> (r: Self)
        ensures
            r@.data.len() == capacity,
            r@.writable,
    {
        Self::filled(capacity, RANDOMIZE_RAM)
    }

    /// A writable store holding exactly `bytes`.
    pub fn from_bytes(bytes: &[Byte]) -> (r: Self)
        ensures
            r@.data == bytes@,
            r@.writable,
    {
        Self { data: copy_range(bytes, 0, bytes.len()), writable: true }
    }

    /// A read-only store of `capacity` bytes, filled as [`Memory::with_capacity`] fills.
    pub fn rom(capacity: usize) -> (r: Self)
        ensures
            r@.data.len() == capacity,
            !r@.writable,
    {
        let mut rom = Self::with_capacity(capacity);
        rom.writable = false;
        rom
    }

    /// A read-only store holding exactly `bytes`.
    pub fn rom_from_bytes(bytes: &[Byte]) -> (r: Self)
        ensures
            r@.data == bytes@,
            !r@.writable,
    {
        Self { data: copy_range(bytes, 0, bytes.len()), writable: false }
    }

    /// A writable store of `capacity` bytes, filled as [`Memory::with_capacity`] fills.
    pub fn ram(capacity: usize) -> (r: Self)
        ensures
            r@.data.len() == capacity,
            r@.writable,
    {
        Self::with_capacity(capacity)
    }

    /// A writable store holding exactly `bytes`.
    pub fn ram_from_bytes(bytes: &[Byte]) -> (r: Self)
        ensures
            r@.data == bytes@,
            r@.writable,
    {
        Self::from_bytes(bytes)
    }

    /// The number of bytes held.
    pub fn len(&self) -> (r: usize)
        ensures
            r == self@.data.len(),
    {
        self.data.len()
    }

    /// Whether the store holds no byte.
    pub fn is_empty(&self) -> (r: bool)
        ensures
            r == (self@.data.len() == 0),
    {
        self.data.len() == 0
    }

    /// Whether writes land in this store.
    pub fn is_writable(&self) -> (r: bool)
        ensures
            r == self@.writable,
    {
        self.writable
    }
}

impl MemWrite for Memory {
    fn write(&mut self, addr: Addr, val: Byte)
        ensures
            final(self)@ == written(old(self)@, addr as int, val),
    {
        self.writew(addr as Word, val);
    }

    fn writew(&mut self, addr: Word, val: Byte)
        ensures
            final(self)@ == written(old(self)@, addr as int, val),
    {
        if self.writable && self.data.len() > 0 {
            let i = addr % self.data.len();
            self.data.set(i, val);
        }
    }
}


/// How many banks of `size` bytes a buffer of `len` bytes yields: a partial last
/// bank counts, and a size of 0 yields none.
pub open spec fn bank_count(len: nat, size: nat) -> nat {
    if size == 0 {
        0
    } else {
        ((len + size - 1) / size as int) as nat
    }
}

/// Bank `i` of `m` cut into banks of `size` bytes: the bytes from `i * size`
/// up to `(i + 1) * size` or the end, with the permission of `m`.
pub open spec fn bank_of(m: MemoryView, size: nat, i: int) -> MemoryView {
    let lo = i * size;
    let hi = if (i + 1) * size <= m.data.len() { (i + 1) * size } else { m.data.len() as int };
    MemoryView { data: m.data.subrange(lo, hi), writable: m.writable }
}

/// Whether `banks` is `m` cut into banks of `size` bytes, in order.
pub open spec fn is_partition(m: MemoryView, size: nat, banks: Seq<MemoryView>) -> bool {
    &&& banks.len() == bank_count(m.data.len(), size)
    &&& forall|i: int| 0 <= i < banks.len() ==> banks[i] == bank_of(m, size, i)
}

proof fn lemma_bank_count(len: nat, size: nat, k: nat)
    requires
        size > 0,
        k * size >= len,
        k == 0 || (k - 1) * size < len,
    ensures
        bank_count(len, size) == k,
{
    if k == 0 {
        assert(len == 0);
        assert((size - 1) / size as int == 0) by (nonlinear_arith)
            requires
                size > 0,
        ;
    } else {
        let n = len + size - 1;
        assert(k * size <= n < k * size + size) by (nonlinear_arith)
            requires
                k * size >= len,
                (k - 1) * size < len,
                n == len + size - 1,
                size > 0,
        ;
        assert(n / size as int == k) by (nonlinear_arith)
            requires
                k * size <= n < k * size + size,
                size > 0,
        ;
    }
}

impl Bankable for Memory {
    type Item = Memory;

    open spec fn length(&self) -> nat {
        self@.data.len()
    }

    open spec fn partitioned(&self, size: usize, banks: Seq<Memory>) -> bool {
        is_partition(self@, size as nat, banks.map_values(|b: Memory| b@))
    }

    fn chunks(&self, size: usize) -> (r: Vec<Memory>) {
        let mut chunks: Vec<Memory> = Vec::new();
        if size == 0 {
            assert(chunks@.map_values(|b: Memory| b@) =~= Seq::<MemoryView>::empty());
            return chunks;
        }
        let n = self.data.len();
        let mut start: usize = 0;
        while start < n
            invariant
                size > 0,
                n == self@.data.len(),
                start <= n,
                start <= chunks@.len() * size,
                start < n ==> start == chunks@.len() * size,
                forall|i: int| 0 <= i < chunks@.len() ==> chunks@[i]@ == bank_of(self@, size as nat, i),
                chunks@.len() == 0 || (chunks@.len() - 1) * size < n,
            decreases n - start,
        {
            let k = chunks.len();
            let end = if n - start > size { start + size } else { n };
            assert((k + 1) * size == k * size + size) by (nonlinear_arith);
            let chunk = Memory { data: copy_range(self.data.as_slice(), start, end), writable: self.writable };
            chunks.push(chunk);
            start = end;
            assert(chunks@.len() * size >= start) by (nonlinear_arith)
                requires
                    chunks@.len() == k + 1,
                    (k + 1) * size == k * size + size,
                    start <= k * size + size,
            ;
            assert(start < n ==> start == chunks@.len() * size);
        }
        proof {
            lemma_bank_count(n as nat, size as nat, chunks@.len());
            assert(chunks@.map_values(|b: Memory| b@).len() == chunks@.len());
        }
        chunks
    }

    fn len(&self) -> (r: usize) {
        Memory::len(self)
    }

    fn is_empty(&self) -> (r: bool) {
        Memory::is_empty(self)
    }
}


impl Memory {
    /// Appends the record of this store to `out`; fails, leaving `out` as it
    /// was, when the byte count does not fit in four bytes.
    pub fn save(&self, out: &mut Vec<Byte>) -> (r: Result<(), SnapshotError>)
        ensures
            r is Ok <==> self@.data.len() <= u32::MAX,
            r is Ok ==> final(out)@ == old(out)@ + encode(self@),
            r is Err ==> r == Err::<(), SnapshotError>(SnapshotError::TooLarge) && final(out)@
                == old(out)@,
    {
        if self.data.len() as u64 > 0xFFFF_FFFFu64 {
            return Err(SnapshotError::TooLarge);
        }
        push_be(out, self.data.len() as u32);
        let ghost head = out@;
        let mut i: usize = 0;
        while i < self.data.len()
            invariant
                i <= self@.data.len(),
                out@ == head + self@.data.subrange(0, i as int),
            decreases self@.data.len() - i,
        {
            out.push(self.data[i]);
            i = i + 1;
            assert(out@ =~= head + self@.data.subrange(0, i as int));
        }
        out.push(if self.writable { 1u8 } else { 0u8 });
        assert(self@.data.subrange(0, self@.data.len() as int) =~= self@.data);
        assert(final(out)@ =~= old(out)@ + encode(self@));
        Ok(())
    }

    /// Replaces this store, bytes, length and permission, with the record that
    /// starts at `input[at]`, and returns where that record ends. Fails, leaving
    /// the store as it was, when no whole record starts there.
    pub fn load(&mut self, input: &[Byte], at: usize) -> (r: Result<usize, SnapshotError>)
        ensures
            r is Ok <==> at <= input@.len() && record_fits(input@.subrange(at as int, input@.len() as int)),
            r is Ok ==> final(self)@ == decode(input@.subrange(at as int, input@.len() as int))
                && r->Ok_0 == at + record_len(input@.subrange(at as int, input@.len() as int)),
            r is Err ==> r == Err::<usize, SnapshotError>(SnapshotError::Truncated) && final(self)@
                == old(self)@,
    {
        let ghost rest = input@.subrange(at as int, input@.len() as int);
        if at > input.len() || input.len() - at < 4 {
            return Err(SnapshotError::Truncated);
        }
        let n = read_be(input, at);
        let left = (input.len() - at) as u64;
        if left < n + 5 {
            return Err(SnapshotError::Truncated);
        }
        let start = at + 4;
        let end = start + n as usize;
        proof {
            assert(rest[0] == input@[at as int]);
        }
        let data = copy_range(input, start, end);
        assert(data@ =~= rest.subrange(4, 4 + n as int));
        self.data = data;
        self.writable = input[end] != 0;
        Ok(end + 1)
    }
}

} // verus!
