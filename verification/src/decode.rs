//! Resumable decoding: the chunk of input at hand and the stage that a
//! decoder has reached in its value.

use vstd::prelude::*;

verus! {

/// How far the decoding of one value has come: `index` bytes of it are
/// stored. A stage whose `step` is `u16::MAX` says that the value is complete.
#[derive(Clone, Copy, Debug, PartialEq, Eq, Structural)]
pub struct DecodeStage {
    pub step: u16,
    pub index: u16,
}

impl DecodeStage {
    /// The stage of a value that is decoded in full.
    pub open spec fn complete_stage() -> DecodeStage {
        DecodeStage { step: u16::MAX, index: 0 }
    }

    /// The stage of a value of which nothing is decoded yet.
    pub open spec fn start_stage() -> DecodeStage {
        DecodeStage { step: 0, index: 0 }
    }

    /// The stage of a value that is decoded in full.
    pub fn complete() -> (stage: DecodeStage)
        ensures
            stage == Self::complete_stage(),
    {
        DecodeStage { step: u16::MAX, index: 0 }
    }

    /// Whether the value is decoded in full.
    #[verifier::when_used_as_spec(spec_is_complete)]
    pub fn is_complete(&self) -> (complete: bool)
        ensures
            complete == self.spec_is_complete(),
    {
        self.step == u16::MAX
    }

    pub open spec fn spec_is_complete(&self) -> bool {
        self.step == u16::MAX
    }
}

impl Default for DecodeStage {
    fn default() -> (stage: Self)
        ensures
            stage == Self::start_stage(),
    {
        DecodeStage { step: 0, index: 0 }
    }
}

/// A chunk of input and the position up to which it has been consumed.
pub struct Buffer<'a> {
    data: &'a [u8],
    index: usize,
}

impl<'a> Buffer<'a> {
    #[verifier::type_invariant]
    spec fn inv(self) -> bool {
        self.index <= self.data@.len()
    }

    /// The bytes that are not consumed yet.
    pub closed spec fn remaining(&self) -> Seq<u8> {
        self.data@.skip(self.index as int)
    }

    /// A buffer over `data`, of which nothing is consumed.
    pub fn new(data: &'a [u8]) -> (buffer: Self)
        ensures
            buffer.remaining() == data@,
    {
        Buffer { data, index: 0 }
    }

    /// Whether every byte is consumed.
    pub fn is_empty(&self) -> (empty: bool)
        ensures
            empty <==> self.remaining().len() == 0,
    {
        proof {
            use_type_invariant(self);
        }
        self.index == self.data.len()
    }

    /// Number of bytes that are not consumed yet.
    pub fn len(&self) -> (len: usize)
        ensures
            len == self.remaining().len(),
    {
        proof {
            use_type_invariant(self);
        }
        self.data.len() - self.index
    }

    /// The next byte, which stays in the buffer.
    pub fn peek_byte(&self) -> (byte: Option<u8>)
        ensures
            byte is Some <==> self.remaining().len() > 0,
            byte matches Some(b) ==> b == self.remaining()[0],
    {
        proof {
            use_type_invariant(self);
        }
        if self.index < self.data.len() {
            Some(self.data[self.index])
        } else {
            None
        }
    }

    /// Consumes the next byte.
    pub fn next_byte(&mut self) -> (byte: Option<u8>)
        ensures
            byte is Some <==> old(self).remaining().len() > 0,
            byte matches Some(b) ==> b == old(self).remaining()[0] && final(self).remaining()
                == old(self).remaining().skip(1),
            byte is None ==> final(self).remaining() == old(self).remaining(),
    {
        proof {
            use_type_invariant(&*self);
        }
        if self.index < self.data.len() {
            let byte: u8 = self.data[self.index];
            self.index += 1;
            assert(self.remaining() =~= old(self).remaining().skip(1));
            Some(byte)
        } else {
            None
        }
    }
}

} // verus!
