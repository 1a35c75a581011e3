//! The save-state record of a store.
//!
//! A record is the byte count as a 4-byte big-endian integer, the bytes, then one
//! flag byte: 1 for a writable store, 0 for a read-only one (any non-zero byte
//! reads back as writable). Records of several stores are concatenated in the
//! order their owner declares them.

use vstd::prelude::*;

use crate::memory::MemoryView;

verus! {

/// Why a record could not be written or read.
#[derive(Clone, Copy, Debug, PartialEq, Eq, Structural)]
pub enum SnapshotError {
    /// The store holds more bytes than a 4-byte count can record.
    TooLarge,
    /// The input ends before the record does.
    Truncated,
}

/// `n` as four big-endian bytes.
pub open spec fn be_bytes(n: nat) -> Seq<u8> {
    seq![
        (n / 0x1000000 % 0x100) as u8,
        (n / 0x10000 % 0x100) as u8,
        (n / 0x100 % 0x100) as u8,
        (n % 0x100) as u8,
    ]
}

/// The integer that the first four bytes of `s` hold, big-endian.
pub open spec fn be_value(s: Seq<u8>) -> nat {
    (s[0] * 0x1000000 + s[1] * 0x10000 + s[2] * 0x100 + s[3]) as nat
}

/// The flag byte of a store's permission.
pub open spec fn flag_byte(writable: bool) -> u8 {
    if writable {
        1
    } else {
        0
    }
}

/// The record of `m`.
pub open spec fn encode(m: MemoryView) -> Seq<u8> {
    be_bytes(m.data.len()) + m.data + seq![flag_byte(m.writable)]
}

/// Whether `s` starts with a whole record.
pub open spec fn record_fits(s: Seq<u8>) -> bool {
    s.len() >= 4 && s.len() >= 4 + be_value(s) + 1
}

/// The length of the record that `s` starts with.
pub open spec fn record_len(s: Seq<u8>) -> nat {
    4 + be_value(s) + 1
}

/// The store that the record at the start of `s` describes.
pub open spec fn decode(s: Seq<u8>) -> MemoryView {
    let n = be_value(s) as int;
    MemoryView { data: s.subrange(4, 4 + n), writable: s[4 + n] != 0 }
}

proof fn lemma_be_round_trip(n: nat)
    requires
        n <= u32::MAX,
    ensures
        be_value(be_bytes(n)) == n,
{
    let b = be_bytes(n);
    assert(b[0] == n / 0x1000000 % 0x100);
    assert(b[1] == n / 0x10000 % 0x100);
    assert(b[2] == n / 0x100 % 0x100);
    assert(b[3] == n % 0x100);
    assert(n / 0x1000000 % 0x100 * 0x1000000 + n / 0x10000 % 0x100 * 0x10000 + n / 0x100 % 0x100
        * 0x100 + n % 0x100 == n) by (nonlinear_arith)
        requires
            n <= u32::MAX,
    ;
}

/// A record read back yields the store that was saved, whatever follows it.
pub proof fn lemma_snapshot_round_trip(m: MemoryView, tail: Seq<u8>)
    requires
        m.data.len() <= u32::MAX,
    ensures
        record_fits(encode(m) + tail),
        record_len(encode(m) + tail) == encode(m).len(),
        decode(encode(m) + tail) == m,
{
    let s = encode(m) + tail;
    let n = m.data.len();
    lemma_be_round_trip(n);
    assert(s.subrange(0, 4) =~= be_bytes(n));
    assert(be_value(s) == be_value(be_bytes(n)));
    assert(s.subrange(4, 4 + n as int) =~= m.data);
    assert(s[4 + n as int] == flag_byte(m.writable));
}

/// Appends `n` as four big-endian bytes.
pub(crate) fn push_be(out: &mut Vec<u8>, n: u32)
    ensures
        final(out)@ == old(out)@ + be_bytes(n as nat),
{
    out.push((n / 0x1000000) as u8);
    out.push((n / 0x10000 % 0x100) as u8);
    out.push((n / 0x100 % 0x100) as u8);
    out.push((n % 0x100) as u8);
    assert(final(out)@ =~= old(out)@ + be_bytes(n as nat));
}

/// The big-endian integer in `input[at..at + 4]`.
pub(crate) fn read_be(input: &[u8], at: usize) -> (r: u64)
    requires
        at + 4 <= input@.len(),
    ensures
        r == be_value(input@.subrange(at as int, input@.len() as int)),
{
    let r = input[at] as u64 * 0x1000000 + input[at + 1] as u64 * 0x10000 + input[at + 2] as u64
        * 0x100 + input[at + 3] as u64;
    r
}


/// The records of `banks`, in order.
pub open spec fn encode_all(banks: Seq<MemoryView>) -> Seq<u8>
    decreases banks.len(),
{
    if banks.len() == 0 {
        Seq::empty()
    } else {
        encode_all(banks.drop_last()) + encode(banks.last())
    }
}

/// Where `k` consecutive records that start at `input[at]` end; `None` when
/// the input ends before them.
pub open spec fn records_end(input: Seq<u8>, at: nat, k: nat) -> Option<nat>
    decreases k,
{
    if k == 0 {
        if at <= input.len() {
            Some(at)
        } else {
            None
        }
    } else {
        match records_end(input, at, (k - 1) as nat) {
            Some(p) => if record_fits(input.subrange(p as int, input.len() as int)) {
                Some(p + record_len(input.subrange(p as int, input.len() as int)))
            } else {
                None
            },
            None => None,
        }
    }
}


/// The length of a whole record, count and flag byte included, given its first
/// four bytes; `None` when fewer than four are given. A reader of a stream uses
/// it to learn how many more bytes the record takes.
pub fn record_len_from_header(header: &[u8]) -> (r: Option<u64>)
    ensures
        r is Some <==> header@.len() >= 4,
        r is Some ==> r->Some_0 == record_len(header@),
{
    if header.len() < 4 {
        None
    } else {
        Some(read_be(header, 0) + 5)
    }
}

} // verus!
