//! Chunks of the deniable channel and their wire flags.
//!
//! A chunk carries a slice of a deniable payload together with a flag:
//! `1` marks a dummy chunk (zero-filled cover traffic), `2` marks the final
//! chunk of a payload, and every value `<= 0` marks a data chunk whose value
//! is the chunk's rank within its payload (`0` first, then `-1`, and so on).

use vstd::prelude::*;

verus! {

/// Wire flag of a dummy chunk.
pub const DUMMY_FLAG: i32 = 1;

/// Wire flag of the final chunk of a payload.
pub const FINAL_FLAG: i32 = 2;

/// Classification of a chunk: a data chunk with its rank, a dummy chunk, or
/// the final chunk of a payload.
#[derive(Clone, Copy, PartialEq, Eq, Structural, Debug)]
pub enum ChunkType {
    Data(i32),
    Dummy,
    Final,
}

impl ChunkType {
    /// The wire flag that stands for this classification.
    pub open spec fn spec_flags(self) -> i32 {
        match self {
            ChunkType::Dummy => DUMMY_FLAG,
            ChunkType::Final => FINAL_FLAG,
            ChunkType::Data(rank) => rank,
        }
    }

    /// Classify a wire flag; `None` for the unassigned values above `2`.
    pub open spec fn spec_from_flags(flags: i32) -> Option<ChunkType> {
        if flags == DUMMY_FLAG {
            Some(ChunkType::Dummy)
        } else if flags == FINAL_FLAG {
            Some(ChunkType::Final)
        } else if flags <= 0 {
            Some(ChunkType::Data(flags))
        } else {
            None
        }
    }

    /// Classify a wire flag; a flag above `2` is a protocol violation and
    /// yields `None`.
    pub fn from_flags(flags: i32) -> (r: Option<ChunkType>)
        ensures
            r == ChunkType::spec_from_flags(flags),
    {
        if flags == DUMMY_FLAG {
            Some(ChunkType::Dummy)
        } else if flags == FINAL_FLAG {
            Some(ChunkType::Final)
        } else if flags <= 0 {
            Some(ChunkType::Data(flags))
        } else {
            None
        }
    }

    /// The wire flag that stands for this classification.
    pub fn flags(self) -> (r: i32)
        ensures
            r == self.spec_flags(),
    {
        match self {
            ChunkType::Dummy => DUMMY_FLAG,
            ChunkType::Final => FINAL_FLAG,
            ChunkType::Data(rank) => rank,
        }
    }
}

/// One chunk on the wire: a slice of payload bytes and the flag that
/// classifies it.
#[derive(Clone, PartialEq, Eq, Debug)]
pub struct DenimChunk {
    pub chunk: Vec<u8>,
    pub flags: i32,
}

impl DenimChunk {
    /// Whether the flag marks a dummy chunk.
    pub open spec fn spec_is_dummy(&self) -> bool {
        self.flags == DUMMY_FLAG
    }

    /// Whether the flag marks the final chunk of a payload.
    pub open spec fn spec_is_final(&self) -> bool {
        self.flags == FINAL_FLAG
    }

    /// Whether the flag marks a data chunk.
    pub open spec fn spec_is_data(&self) -> bool {
        self.flags <= 0
    }

    pub fn is_dummy(&self) -> (r: bool)
        ensures
            r == self.spec_is_dummy(),
    {
        self.flags == DUMMY_FLAG
    }

    pub fn is_final(&self) -> (r: bool)
        ensures
            r == self.spec_is_final(),
    {
        self.flags == FINAL_FLAG
    }

    pub fn is_data(&self) -> (r: bool)
        ensures
            r == self.spec_is_data(),
    {
        self.flags <= 0
    }
}

/// The bytes carried by the non-dummy chunks of a sequence, in order.
pub open spec fn emitted_bytes(chunks: Seq<DenimChunk>) -> Seq<u8>
    decreases chunks.len(),
{
    if chunks.len() == 0 {
        Seq::empty()
    } else if chunks.first().spec_is_dummy() {
        emitted_bytes(chunks.drop_first())
    } else {
        chunks.first().chunk@ + emitted_bytes(chunks.drop_first())
    }
}

} // verus!
