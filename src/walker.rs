//! The chunk walk over a whole RIFF buffer, as a mathematical model.
use vstd::prelude::*;
use crate::error::WavError;
use crate::le::le_u32_at;
use crate::text::lossy_text;

verus! {

/// The fixed 8-byte record in front of every chunk: a 4-byte tag and the
/// little-endian length of the payload that follows.
#[derive(Debug, Clone, Copy)]
pub struct ChunkHeader {
    pub chunk: [u8; 4],
    pub size: u32,
}

/// Where one chunk's payload lies in the buffer, with its tag text.
#[derive(Debug)]
pub struct ChunkInfo {
    pub name: String,
    pub tag: [u8; 4],
    pub data_offset: usize,
    pub data_length: usize,
}

/// A chunk as the walk finds it: its raw tag and its payload's place.
pub struct ChunkPlace {
    pub tag: Seq<u8>,
    pub offset: nat,
    pub length: nat,
}

impl ChunkInfo {
    pub open spec fn place(&self) -> ChunkPlace {
        ChunkPlace {
            tag: self.tag@,
            offset: self.data_offset as nat,
            length: self.data_length as nat,
        }
    }

    /// The name is the lossy text of the raw tag.
    pub open spec fn named_by_tag(&self) -> bool {
        self.name@ == lossy_text(self.tag@)
    }
}

/// `RIFF`
pub open spec fn riff_tag() -> Seq<u8> {
    seq![0x52u8, 0x49, 0x46, 0x46]
}

/// The payload length that the walk steps over for the header at `pos`: the
/// `RIFF` header's size covers the whole file, so only its 4-byte form type counts.
pub open spec fn payload_len(d: Seq<u8>, pos: int) -> nat {
    if d.subrange(pos, pos + 4) == riff_tag() {
        4
    } else {
        le_u32_at(d, pos + 4)
    }
}

/// `acc` followed by what `r` holds, or the failure of `r`.
pub open spec fn after<T>(acc: Seq<T>, r: Result<Seq<T>, WavError>) -> Result<Seq<T>, WavError> {
    match r {
        Ok(s) => Ok(acc + s),
        Err(e) => Err(e),
    }
}

/// The chunks from offset `pos` on: a header must fit wherever a chunk starts,
/// and chunks follow each other with no alignment padding.
pub open spec fn chunks_from(d: Seq<u8>, pos: nat) -> Result<Seq<ChunkPlace>, WavError>
    decreases d.len() - pos,
{
    if pos >= d.len() {
        Ok(Seq::empty())
    } else if d.len() - pos < 8 {
        Err(WavError::Malformed)
    } else {
        let len = payload_len(d, pos as int);
        let here = ChunkPlace { tag: d.subrange(pos as int, pos + 4int), offset: pos + 8, length: len };
        let next = pos + 8 + len;
        if next >= d.len() {
            Ok(seq![here])
        } else {
            after(seq![here], chunks_from(d, next))
        }
    }
}

/// All chunks of the buffer `d`, in file order.
pub open spec fn chunks_of(d: Seq<u8>) -> Result<Seq<ChunkPlace>, WavError> {
    chunks_from(d, 0)
}

/// Appending in two steps is appending once.
pub proof fn lemma_after_after<T>(acc: Seq<T>, mid: Seq<T>, r: Result<Seq<T>, WavError>)
    ensures
        after(acc, after(mid, r)) == after(acc + mid, r),
{
    if let Ok(s) = r {
        assert(acc + (mid + s) =~= (acc + mid) + s);
    }
}

pub fn same_tag(a: &[u8; 4], b: &[u8; 4]) -> (r: bool)
    ensures
        r == (a@ == b@),
{
    let r = a[0] == b[0] && a[1] == b[1] && a[2] == b[2] && a[3] == b[3];
    if r {
        assert(a@ =~= b@);
    }
    r
}

} // verus!
