//! Decoded chunk bodies, and their mathematical model.
use vstd::prelude::*;
use crate::error::WavError;
use crate::le::{le_u16_at, le_u32_at, push_u16_le, push_u32_le, read_u16_le, read_u32_le, u16_le_bytes, u32_le_bytes};
use crate::text::lossy_text;
use crate::walker::{after, riff_tag, ChunkPlace};

verus! {

/// The body of a `RIFF` chunk: the form type of the container.
#[derive(Debug, Clone, Copy)]
pub struct Riff {
    pub id: [u8; 4],
}

/// The 16-byte body of a `fmt ` chunk.
#[derive(Debug, Clone, Copy, PartialEq, Eq, Structural)]
pub struct Fmt {
    pub compression_code: u16,
    pub number_of_channels: u16,
    pub sampling_rate: u32,
    pub byte_rate: u32,
    pub block_align: u16,
    pub bits_per_sample: u16,
}

/// A decoded chunk. `Data` borrows the payload from the buffer.
#[derive(Debug)]
pub enum Chunk<'a> {
    Riff(Riff),
    Format(Fmt),
    List(Vec<(String, String)>),
    Data(&'a [u8]),
}

/// What a chunk's payload means, over raw bytes.
pub enum ChunkBody {
    Riff(Seq<u8>),
    Format(Fmt),
    List(Seq<(Seq<u8>, Seq<u8>)>),
    Data(Seq<u8>),
}

/// The 16 bytes that store `f`, field by field in little-endian order.
pub open spec fn fmt_bytes(f: Fmt) -> Seq<u8> {
    u16_le_bytes(f.compression_code as nat) + u16_le_bytes(f.number_of_channels as nat)
        + u32_le_bytes(f.sampling_rate as nat) + u32_le_bytes(f.byte_rate as nat) + u16_le_bytes(
        f.block_align as nat,
    ) + u16_le_bytes(f.bits_per_sample as nat)
}

impl Fmt {
    /// Reads the record from the first 16 bytes of `p`, at any alignment.
    pub fn from_le_bytes(p: &[u8]) -> (f: Fmt)
        requires
            16 <= p@.len(),
        ensures
            f == fmt_at(p@, 0),
    {
        Fmt {
            compression_code: read_u16_le(p, 0),
            number_of_channels: read_u16_le(p, 2),
            sampling_rate: read_u32_le(p, 4),
            byte_rate: read_u32_le(p, 8),
            block_align: read_u16_le(p, 12),
            bits_per_sample: read_u16_le(p, 14),
        }
    }

    /// The record as stored on disk.
    pub fn to_le_bytes(&self) -> (r: Vec<u8>)
        ensures
            r@ == fmt_bytes(*self),
    {
        let mut r: Vec<u8> = Vec::new();
        push_u16_le(&mut r, self.compression_code);
        push_u16_le(&mut r, self.number_of_channels);
        push_u32_le(&mut r, self.sampling_rate);
        push_u32_le(&mut r, self.byte_rate);
        push_u16_le(&mut r, self.block_align);
        push_u16_le(&mut r, self.bits_per_sample);
        assert(r@ =~= fmt_bytes(*self));
        r
    }
}

/// `fmt `
pub open spec fn fmt_tag() -> Seq<u8> {
    seq![0x66u8, 0x6d, 0x74, 0x20]
}

/// `LIST`
pub open spec fn list_tag() -> Seq<u8> {
    seq![0x4cu8, 0x49, 0x53, 0x54]
}

/// `data`
pub open spec fn data_tag() -> Seq<u8> {
    seq![0x64u8, 0x61, 0x74, 0x61]
}

/// `INFO`
pub open spec fn info_tag() -> Seq<u8> {
    seq![0x49u8, 0x4e, 0x46, 0x4f]
}

/// The `fmt ` record stored at offset `i` of `p`.
pub open spec fn fmt_at(p: Seq<u8>, i: int) -> Fmt {
    Fmt {
        compression_code: le_u16_at(p, i) as u16,
        number_of_channels: le_u16_at(p, i + 2) as u16,
        sampling_rate: le_u32_at(p, i + 4) as u32,
        byte_rate: le_u32_at(p, i + 8) as u32,
        block_align: le_u16_at(p, i + 12) as u16,
        bits_per_sample: le_u16_at(p, i + 14) as u16,
    }
}

/// Where the entry after an `INFO` entry at `pos` with declared value length
/// `n` starts: past the 8-byte key and length, the value, and one pad byte
/// when `n` is odd.
pub open spec fn next_entry(pos: int, n: int) -> int {
    pos + 8 + n + n % 2
}

/// The `INFO` entries of the payload `p` from offset `pos` on, as raw
/// (key, value) pairs. Key, length and the declared value bytes must lie in
/// the payload; the pad byte after the last value may be missing.
pub open spec fn entries_from(p: Seq<u8>, pos: nat) -> Result<Seq<(Seq<u8>, Seq<u8>)>, WavError>
    decreases p.len() - pos,
{
    if pos >= p.len() {
        Ok(Seq::empty())
    } else if p.len() - pos < 8 {
        Err(WavError::Malformed)
    } else {
        let n = le_u32_at(p, pos + 4int);
        if n == 0 || n > p.len() - (pos + 8) {
            Err(WavError::Malformed)
        } else {
            let entry = (p.subrange(pos as int, pos + 4int), p.subrange(pos + 8int, pos + 8 + n - 1int));
            let next = next_entry(pos as int, n as int);
            if next >= p.len() {
                Ok(seq![entry])
            } else {
                after(seq![entry], entries_from(p, next as nat))
            }
        }
    }
}

/// The entries of a `LIST` payload: `None` when it is not an `INFO` list.
pub open spec fn list_entries(p: Seq<u8>) -> Result<Option<Seq<(Seq<u8>, Seq<u8>)>>, WavError> {
    if p.len() < 4 {
        Err(WavError::Malformed)
    } else if p.subrange(0, 4) != info_tag() {
        Ok(None)
    } else {
        match entries_from(p, 4) {
            Ok(s) => Ok(Some(s)),
            Err(e) => Err(e),
        }
    }
}

/// The body that the entries of a `LIST` payload make.
pub open spec fn list_body(m: Result<Option<Seq<(Seq<u8>, Seq<u8>)>>, WavError>) -> Result<Option<ChunkBody>, WavError> {
    match m {
        Ok(Some(s)) => Ok(Some(ChunkBody::List(s))),
        Ok(None) => Ok(None),
        Err(e) => Err(e),
    }
}

/// What the chunk at `c` in the buffer `d` decodes to, dispatched on its raw tag.
pub open spec fn decode(d: Seq<u8>, c: ChunkPlace) -> Result<Option<ChunkBody>, WavError> {
    if c.offset + c.length > d.len() {
        Err(WavError::Malformed)
    } else {
        let p = d.subrange(c.offset as int, (c.offset + c.length) as int);
        if c.tag == riff_tag() {
            if p.len() < 4 {
                Err(WavError::Malformed)
            } else {
                Ok(Some(ChunkBody::Riff(p.subrange(0, 4))))
            }
        } else if c.tag == fmt_tag() {
            if p.len() < 16 {
                Err(WavError::Malformed)
            } else {
                Ok(Some(ChunkBody::Format(fmt_at(p, 0))))
            }
        } else if c.tag == list_tag() {
            list_body(list_entries(p))
        } else if c.tag == data_tag() {
            Ok(Some(ChunkBody::Data(p)))
        } else {
            Ok(None)
        }
    }
}

/// The index of the first chunk from `i` on whose tag reads as `name`.
pub open spec fn first_named(cs: Seq<ChunkPlace>, name: Seq<char>, i: nat) -> Option<nat>
    decreases cs.len() - i,
{
    if i >= cs.len() {
        None
    } else if lossy_text(cs[i as int].tag) == name {
        Some(i)
    } else {
        first_named(cs, name, i + 1)
    }
}

/// What looking a chunk up by name gives: the first chunk whose tag reads as
/// `name`, decoded, or `None` where there is none.
pub open spec fn decode_named(d: Seq<u8>, name: Seq<char>) -> Result<Option<ChunkBody>, WavError> {
    match crate::walker::chunks_of(d) {
        Err(e) => Err(e),
        Ok(cs) => match first_named(cs, name, 0) {
            None => Ok(None),
            Some(i) => decode(d, cs[i as int]),
        },
    }
}

/// The entries `v` are the lossy texts of the raw pairs `s`.
pub open spec fn entries_show(v: Seq<(String, String)>, s: Seq<(Seq<u8>, Seq<u8>)>) -> bool {
    &&& v.len() == s.len()
    &&& forall|i: int|
        0 <= i < v.len() ==> #[trigger] v[i].0@ == lossy_text(s[i].0) && v[i].1@ == lossy_text(
            s[i].1,
        )
}

pub open spec fn chunk_shows(c: Chunk, b: ChunkBody) -> bool {
    match (c, b) {
        (Chunk::Riff(r), ChunkBody::Riff(id)) => r.id@ == id,
        (Chunk::Format(f), ChunkBody::Format(g)) => f == g,
        (Chunk::List(v), ChunkBody::List(s)) => entries_show(v@, s),
        (Chunk::Data(x), ChunkBody::Data(y)) => x@ == y,
        _ => false,
    }
}

/// The decoded result `r` shows the model `m`: same outcome, same contents.
pub open spec fn decoded_as(r: Result<Option<Chunk>, WavError>, m: Result<Option<ChunkBody>, WavError>) -> bool {
    match (r, m) {
        (Ok(None), Ok(None)) => true,
        (Ok(Some(c)), Ok(Some(b))) => chunk_shows(c, b),
        (Err(e), Err(f)) => e == f,
        _ => false,
    }
}

} // verus!
