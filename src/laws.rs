//! Properties that hold across calls: writes seen by reads, read-only stores
//! that no write changes, and banks that put their source back together.

use vstd::prelude::*;

use crate::memory::{bank_count, bank_of, is_partition, mirrored, written, MemoryView};

verus! {

/// The store after each write of `writes`, in order, lands or is ignored.
pub open spec fn written_all(m: MemoryView, writes: Seq<(int, u8)>) -> MemoryView
    decreases writes.len(),
{
    if writes.len() == 0 {
        m
    } else {
        let last = writes.last();
        written(written_all(m, writes.drop_last()), last.0, last.1)
    }
}

/// The bytes of `banks` laid end to end, in order.
pub open spec fn joined(banks: Seq<MemoryView>) -> Seq<u8>
    decreases banks.len(),
{
    if banks.len() == 0 {
        Seq::empty()
    } else {
        joined(banks.drop_last()) + banks.last().data
    }
}

/// In a writable, non-empty store, a read after a write at `addr` returns the
/// value written, at `addr` and at every address that mirrors onto it.
pub proof fn lemma_write_then_read(m: MemoryView, addr: int, val: u8)
    requires
        m.writable,
        m.data.len() > 0,
        addr >= 0,
    ensures
        mirrored(written(m, addr, val).data, addr) == val,
        forall|b: int|
            b >= 0 && b % (m.data.len() as int) == addr % (m.data.len() as int) ==> #[trigger] mirrored(
                written(m, addr, val).data,
                b,
            ) == val,
{
}

/// No sequence of writes changes a read-only store, so every read stays the same.
pub proof fn lemma_rom_ignores_writes(m: MemoryView, writes: Seq<(int, u8)>)
    requires
        !m.writable,
    ensures
        written_all(m, writes) == m,
        forall|a: int| #[trigger] mirrored(written_all(m, writes).data, a) == mirrored(m.data, a),
    decreases writes.len(),
{
    if writes.len() > 0 {
        lemma_rom_ignores_writes(m, writes.drop_last());
    }
}

/// Every bank cut from a store has the store's permission.
pub proof fn lemma_partition_keeps_permission(m: MemoryView, size: nat, banks: Seq<MemoryView>)
    requires
        is_partition(m, size, banks),
    ensures
        forall|i: int| 0 <= i < banks.len() ==> (#[trigger] banks[i]).writable == m.writable,
{
}

proof fn lemma_joined_prefix(m: MemoryView, size: nat, banks: Seq<MemoryView>, j: nat)
    requires
        size > 0,
        is_partition(m, size, banks),
        j <= banks.len(),
    ensures
        j * size <= m.data.len() ==> joined(banks.take(j as int)) == m.data.subrange(0, (j * size) as int),
        j * size > m.data.len() ==> joined(banks.take(j as int)) == m.data,
    decreases j,
{
    let n = m.data.len();
    if j == 0 {
        assert(banks.take(0) =~= Seq::<MemoryView>::empty());
        assert(m.data.subrange(0, 0) =~= Seq::<u8>::empty());
    } else {
        let k = (j - 1) as nat;
        lemma_joined_prefix(m, size, banks, k);
        assert(banks.take(j as int).drop_last() =~= banks.take(k as int));
        assert(banks.take(j as int).last() == banks[k as int]);
        assert(k * size < n) by (nonlinear_arith)
            requires
                size > 0,
                k < banks.len(),
                banks.len() == bank_count(n, size),
                bank_count(n, size) == (n + size - 1) / size as int,
        ;
        assert(j * size == k * size + size) by (nonlinear_arith)
            requires
                j == k + 1,
        ;
        let b = bank_of(m, size, k as int);
        assert(banks[k as int] == b);
        if j * size <= n {
            assert(m.data.subrange(0, (k * size) as int) + b.data =~= m.data.subrange(0, (j * size) as int));
        } else {
            assert(m.data.subrange(0, (k * size) as int) + b.data =~= m.data);
        }
    }
}

/// Laying the banks cut from a store end to end gives back its bytes, and their
/// number is the byte count divided by the bank size, rounded up.
pub proof fn lemma_partition_complete(m: MemoryView, size: nat, banks: Seq<MemoryView>)
    requires
        size > 0,
        is_partition(m, size, banks),
    ensures
        joined(banks) == m.data,
        banks.len() * size >= m.data.len(),
        banks.len() == 0 || (banks.len() - 1) * size < m.data.len(),
{
    let n = m.data.len();
    let c = banks.len();
    assert(c * size >= n && (c == 0 || (c - 1) * size < n)) by (nonlinear_arith)
        requires
            size > 0,
            c == (n + size - 1) / size as int,
    ;
    lemma_joined_prefix(m, size, banks, c);
    assert(banks.take(c as int) =~= banks);
    if c * size == n {
        assert(m.data.subrange(0, n as int) =~= m.data);
    }
}

} // verus!
