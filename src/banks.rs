//! An ordered collection of banks cut from one store.

use vstd::prelude::*;

use crate::memory::{Bankable, MemRead, MemWrite, Memory, MemoryView};
use crate::snapshot::{decode, encode_all, records_end, SnapshotError};

verus! {

/// Banks of equal size (the last may be shorter) cut from a source at construction.
/// They are copies: writes to a bank never reach the source.
#[derive(Clone, Debug)]
pub struct Banks<T> where T: MemRead + MemWrite + Bankable {
    banks: Vec<T::Item>,
    size: usize,
}

impl<T> Banks<T> where T: MemRead + MemWrite + Bankable {
    /// The banks, in order.
    pub closed spec fn items(&self) -> Seq<T::Item> {
        self.banks@
    }

    /// The bank size requested at construction.
    pub closed spec fn bank_size(&self) -> usize {
        self.size
    }

    /// A collection with no bank.
    pub fn new() -> (r: Self)
        ensures
            r.items().len() == 0,
            r.bank_size() == 0,
    {
        Self { banks: Vec::new(), size: 0usize }
    }

    /// `data` cut into banks of `size` bytes; an empty source gives no bank.
    pub fn init(data: &T, size: usize) -> (r: Self)
        ensures
            data.length() > 0 ==> data.partitioned(size, r.items()),
            data.length() == 0 ==> r.items().len() == 0,
            r.bank_size() == size,
    {
        let mut banks: Vec<T::Item> = Vec::new();
        if data.len() > 0 {
            banks = data.chunks(size);
        }
        Self { banks, size }
    }
}

impl<T> Default for Banks<T> where T: MemRead + MemWrite + Bankable {
    /// A collection with no bank.
    fn default() -> (r: Self)
        ensures
            r.items().len() == 0,
            r.bank_size() == 0,
    {
        Self::new()
    }
}

impl<T> core::ops::Deref for Banks<T> where T: MemRead + MemWrite + Bankable {
    type Target = Vec<T::Item>;

    fn deref(&self) -> (r: &Vec<T::Item>)
        ensures
            r@ == self.items(),
    {
        &self.banks
    }
}

impl<T> core::ops::DerefMut for Banks<T> where T: MemRead + MemWrite + Bankable {
    fn deref_mut(&mut self) -> (r: &mut Vec<T::Item>)
        ensures
            r@ == old(self).items(),
            final(r)@ == final(self).items(),
            final(self).bank_size() == old(self).bank_size(),
    {
        &mut self.banks
    }
}


impl Banks<Memory> {
    /// The banks' values, in order.
    pub open spec fn views(&self) -> Seq<MemoryView> {
        self.items().map_values(|b: Memory| b@)
    }

    /// Appends the record of every bank, in index order; fails, leaving `out`
    /// as it was, when some bank is too large for a record.
    pub fn save(&self, out: &mut Vec<u8>) -> (r: Result<(), SnapshotError>)
        ensures
            r is Ok <==> forall|i: int| 0 <= i < self.views().len() ==> (#[trigger] self.views()[i]).data.len() <= u32::MAX,
            r is Ok ==> final(out)@ == old(out)@ + encode_all(self.views()),
            r is Err ==> r == Err::<(), SnapshotError>(SnapshotError::TooLarge) && final(out)@
                == old(out)@,
    {
        let mut i: usize = 0;
        while i < self.banks.len()
            invariant
                i <= self.banks@.len(),
                forall|j: int| 0 <= j < i ==> (#[trigger] self.views()[j]).data.len() <= u32::MAX,
            decreases self.banks@.len() - i,
        {
            assert(self.views()[i as int] == self.banks@[i as int]@);
            if self.banks[i].len() as u64 > 0xFFFF_FFFFu64 {
                return Err(SnapshotError::TooLarge);
            }
            i = i + 1;
        }
        let ghost head = out@;
        let mut i: usize = 0;
        while i < self.banks.len()
            invariant
                i <= self.banks@.len(),
                forall|j: int| 0 <= j < self.views().len() ==> (#[trigger] self.views()[j]).data.len() <= u32::MAX,
                out@ == head + encode_all(self.views().take(i as int)),
            decreases self.banks@.len() - i,
        {
            let ghost before = out@;
            let saved = self.banks[i].save(out);
            assert(saved is Ok) by {
                assert(self.views()[i as int] == self.banks@[i as int]@);
            }
            assert(self.views().take(i + 1).drop_last() =~= self.views().take(i as int));
            i = i + 1;
            assert(out@ =~= head + encode_all(self.views().take(i as int)));
        }
        assert(self.views().take(i as int) =~= self.views());
        Ok(())
    }

    /// Replaces every bank, in index order, with the records that start at
    /// `input[at]`, and returns where the last one ends. Fails, leaving the
    /// banks as they were, when the input ends before the last record does.
    pub fn load(&mut self, input: &[u8], at: usize) -> (r: Result<usize, SnapshotError>)
        ensures
            r is Ok <==> records_end(input@, at as nat, old(self).views().len()) is Some,
            r is Ok ==> {
                &&& r->Ok_0 == records_end(input@, at as nat, old(self).views().len())->Some_0
                &&& final(self).views().len() == old(self).views().len()
                &&& forall|i: int|
                    0 <= i < final(self).views().len() ==> #[trigger] final(self).views()[i] == decode(
                        input@.subrange(
                            records_end(input@, at as nat, i as nat)->Some_0 as int,
                            input@.len() as int,
                        ),
                    )
            },
            r is Err ==> r == Err::<usize, SnapshotError>(SnapshotError::Truncated) && *final(self)
                == *old(self),
            final(self).bank_size() == old(self).bank_size(),
    {
        if at > input.len() {
            proof {
                lemma_records_end_stops(input@, at as nat, 0, self.views().len());
            }
            return Err(SnapshotError::Truncated);
        }
        let count = self.banks.len();
        let mut loaded: Vec<Memory> = Vec::with_capacity(count);
        let mut pos: usize = at;
        let mut i: usize = 0;
        while i < count
            invariant
                count == self.banks@.len(),
                i <= count,
                loaded@.len() == i,
                records_end(input@, at as nat, i as nat) == Some(pos as nat),
                pos <= input@.len(),
                forall|j: int|
                    0 <= j < i ==> (#[trigger] loaded@[j])@ == decode(
                        input@.subrange(
                            records_end(input@, at as nat, j as nat)->Some_0 as int,
                            input@.len() as int,
                        ),
                    ),
            decreases count - i,
        {
            let mut bank = Memory::new();
            match bank.load(input, pos) {
                Ok(end) => {
                    pos = end;
                },
                Err(e) => {
                    assert(records_end(input@, at as nat, (i + 1) as nat) is None);
                    assert(records_end(input@, at as nat, count as nat) is None) by {
                        lemma_records_end_stops(input@, at as nat, (i + 1) as nat, count as nat);
                    }
                    return Err(e);
                },
            }
            loaded.push(bank);
            i = i + 1;
        }
        self.banks = loaded;
        assert(self.views().len() == count);
        Ok(pos)
    }
}

proof fn lemma_records_end_stops(input: Seq<u8>, at: nat, i: nat, k: nat)
    requires
        i <= k,
        records_end(input, at, i) is None,
    ensures
        records_end(input, at, k) is None,
    decreases k - i,
{
    if i < k {
        lemma_records_end_stops(input, at, i + 1, k);
    }
}

} // verus!
