//! The staging buffer: a byte store of fixed capacity with a write cursor,
//! in which the text of one field is laid out before it is displayed.

use crate::error::ErrorCode;
use vstd::prelude::*;

verus! {

/// A byte store of fixed capacity with a write cursor. Ranges of offsets into
/// it stay meaningful until the next `reset`.
pub struct StagingBuffer {
    data: Vec<u8>,
    index: usize,
}

impl StagingBuffer {
    #[verifier::type_invariant]
    spec fn inv(self) -> bool {
        self.index <= self.data@.len()
    }

    /// The whole store, written or not.
    pub closed spec fn bytes(&self) -> Seq<u8> {
        self.data@
    }

    /// The write cursor: the offset after the last write.
    pub closed spec fn cursor(&self) -> nat {
        self.index as nat
    }

    /// Number of bytes that the store holds.
    pub open spec fn capacity(&self) -> nat {
        self.bytes().len()
    }

    /// The bytes in front of the cursor.
    pub open spec fn staged(&self) -> Seq<u8> {
        self.bytes().take(self.cursor() as int)
    }

    /// A store of `capacity` zero bytes with the cursor at its start.
    pub fn new(capacity: usize) -> (buffer: Self)
        ensures
            buffer.bytes() == Seq::new(capacity as nat, |i: int| 0u8),
            buffer.cursor() == 0,
    {
        let mut data: Vec<u8> = Vec::new();
        let mut i: usize = 0;
        while i < capacity
            invariant
                i <= capacity,
                data@.len() == i,
                forall|j: int| 0 <= j < i ==> data@[j] == 0,
            decreases capacity - i,
        {
            data.push(0u8);
            i += 1;
        }
        assert(data@ =~= Seq::new(capacity as nat, |i: int| 0u8));
        StagingBuffer { data, index: 0 }
    }

    /// Number of bytes that the store holds.
    pub fn get_capacity(&self) -> (capacity: usize)
        ensures
            capacity == self.capacity(),
            self.cursor() <= capacity,
    {
        proof {
            use_type_invariant(self);
        }
        self.data.len()
    }

    /// The write cursor.
    pub fn get_index(&self) -> (index: usize)
        ensures
            index == self.cursor(),
            index <= self.capacity(),
    {
        proof {
            use_type_invariant(self);
        }
        self.index
    }

    /// The bytes from offset `from` up to, not including, offset `to`.
    pub fn read(&self, from: usize, to: usize) -> (bytes: &[u8])
        requires
            from <= to <= self.capacity(),
        ensures
            bytes@ == self.bytes().subrange(from as int, to as int),
    {
        vstd::slice::slice_subrange(self.data.as_slice(), from, to)
    }

    /// The bytes in front of the cursor.
    pub fn read_all(&self) -> (bytes: &[u8])
        ensures
            bytes@ == self.staged(),
    {
        proof {
            use_type_invariant(self);
        }
        vstd::slice::slice_subrange(self.data.as_slice(), 0, self.index)
    }

    /// Overwrites the bytes from offset `from` on with `data`; the cursor stays.
    pub fn update(&mut self, from: usize, data: &[u8])
        requires
            from + data@.len() <= old(self).capacity(),
        ensures
            final(self).bytes() == old(self).bytes().take(from as int) + data@ + old(
                self,
            ).bytes().skip(from + data@.len()),
            final(self).cursor() == old(self).cursor(),
    {
        proof {
            use_type_invariant(&*self);
        }
        let n: usize = data.len();
        let total: usize = self.data.len();
        let mut i: usize = 0;
        while i < n
            invariant
                n == data@.len(),
                total == self.data@.len(),
                from + n <= self.data@.len(),
                self.data@.len() == old(self).data@.len(),
                self.index == old(self).index,
                self.index <= self.data@.len(),
                i <= n,
                forall|j: int| 0 <= j < from ==> self.data@[j] == old(self).data@[j],
                forall|j: int|
                    from + i <= j < self.data@.len() ==> self.data@[j] == old(self).data@[j],
                forall|j: int| 0 <= j < i ==> self.data@[from + j] == data@[j],
            decreases n - i,
        {
            self.data[from + i] = data[i];
            i += 1;
        }
        assert(self.data@ =~= old(self).data@.take(from as int) + data@ + old(self).data@.skip(
            from + data@.len(),
        ));
    }

    /// Writes `data` from offset `from` on and moves the cursor behind it.
    /// Fails, and changes nothing, when `data` would reach beyond the capacity.
    pub fn write_from(&mut self, from: usize, data: &[u8]) -> (end: Result<usize, ErrorCode>)
        ensures
            end is Ok <==> from + data@.len() <= old(self).capacity(),
            end matches Ok(e) ==> {
                &&& e == from + data@.len()
                &&& final(self).cursor() == e
                &&& final(self).bytes() == old(self).bytes().take(from as int) + data@ + old(
                    self,
                ).bytes().skip(from + data@.len())
            },
            end matches Err(e) ==> e == ErrorCode::Overflow && final(self).bytes() == old(
                self,
            ).bytes() && final(self).cursor() == old(self).cursor(),
    {
        proof {
            use_type_invariant(&*self);
        }
        let capacity: usize = self.data.len();
        if from > capacity || data.len() > capacity - from {
            return Err(ErrorCode::Overflow);
        }
        self.update(from, data);
        self.index = from + data.len();
        Ok(self.index)
    }

    /// Writes `data` at the cursor and moves the cursor behind it. Fails, and
    /// changes nothing, when `data` would reach beyond the capacity.
    pub fn write(&mut self, data: &[u8]) -> (end: Result<usize, ErrorCode>)
        ensures
            end is Ok <==> old(self).cursor() + data@.len() <= old(self).capacity(),
            end matches Ok(e) ==> {
                &&& e == old(self).cursor() + data@.len()
                &&& final(self).cursor() == e
                &&& final(self).bytes() == old(self).staged() + data@ + old(self).bytes().skip(
                    e as int,
                )
            },
            end matches Err(e) ==> e == ErrorCode::Overflow && final(self).bytes() == old(
                self,
            ).bytes() && final(self).cursor() == old(self).cursor(),
    {
        let from: usize = self.get_index();
        self.write_from(from, data)
    }

    /// Moves the cursor back to the start. Every range handed out before is
    /// void from here on.
    pub fn reset(&mut self)
        ensures
            final(self).cursor() == 0,
            final(self).bytes() == old(self).bytes(),
    {
        self.index = 0;
    }
}

} // verus!
