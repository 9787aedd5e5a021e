//! A RIFF/WAV buffer and the operations on it.
use vstd::prelude::*;
use crate::decoder::{
    data_tag, decode, decode_named, decoded_as, entries_from, entries_show, first_named,
    fmt_tag, info_tag, list_body, list_entries, list_tag, next_entry, Chunk, Fmt, Riff,
};
use crate::error::WavError;
use crate::le::read_u32_le;
use crate::text::{lossy_string, lossy_text};
use crate::walker::{after, lemma_after_after, payload_len, chunks_from, chunks_of, riff_tag, same_tag, ChunkHeader, ChunkInfo, ChunkPlace};

verus! {

/// A borrowed view of a whole RIFF/WAV file held in memory.
pub struct WAV<'a> {
    data: &'a [u8],
}

impl<'a> View for WAV<'a> {
    type V = Seq<u8>;

    closed spec fn view(&self) -> Seq<u8> {
        self.data@
    }
}

pub open spec fn places(v: Seq<ChunkInfo>) -> Seq<ChunkPlace> {
    v.map_values(|c: ChunkInfo| c.place())
}

impl<'a> WAV<'a> {
    pub fn from_data(data: &'a [u8]) -> (r: WAV<'a>)
        ensures
            r@ == data@,
    {
        WAV { data }
    }

    fn read_chunk_hdr(&self, position: usize) -> (h: ChunkHeader)
        requires
            position + 8 <= self@.len(),
        ensures
            h.chunk@ == self@.subrange(position as int, position + 4),
            h.size as nat == crate::le::le_u32_at(self@, position + 4),
    {
        let d = self.data;
        let chunk: [u8; 4] = [d[position], d[position + 1], d[position + 2], d[position + 3]];
        assert(chunk@ =~= self@.subrange(position as int, position + 4));
        ChunkHeader { chunk, size: read_u32_le(d, position + 4) }
    }

    /// The chunks of the buffer in file order, or `Malformed` where a chunk
    /// header is cut off by the end of the buffer.
    pub fn available_chunks(&self) -> (r: Result<Vec<ChunkInfo>, WavError>)
        ensures
            match r {
                Ok(v) => {
                    &&& chunks_of(self@) == Ok::<Seq<ChunkPlace>, WavError>(places(v@))
                    &&& forall|i: int| 0 <= i < v@.len() ==> (#[trigger] v@[i]).named_by_tag()
                    &&& forall|i: int|
                        0 <= i < v@.len() && (#[trigger] v@[i]).tag@ == riff_tag()
                            ==> v@[i].data_length == 4
                },
                Err(e) => chunks_of(self@) == Err::<Seq<ChunkPlace>, WavError>(e),
            },
    {
        let mut chunks: Vec<ChunkInfo> = Vec::new();
        let mut index: usize = 0;
        let len = self.data.len();
        let riff: [u8; 4] = [0x52, 0x49, 0x46, 0x46];
        assert(riff@ =~= riff_tag());
        while index < len
            invariant
                index <= len,
                len == self@.len(),
                riff@ == riff_tag(),
                chunks_of(self@) == after(places(chunks@), chunks_from(self@, index as nat)),
                forall|i: int| 0 <= i < chunks@.len() ==> (#[trigger] chunks@[i]).named_by_tag(),
                forall|i: int|
                    0 <= i < chunks@.len() && (#[trigger] chunks@[i]).tag@ == riff_tag()
                        ==> chunks@[i].data_length == 4,
            decreases len - index,
        {
            if len - index < 8 {
                return Err(WavError::Malformed);
            }
            let hdr = self.read_chunk_hdr(index);
            let body = index + 8;
            let size: usize = if same_tag(&hdr.chunk, &riff) {
                4
            } else {
                hdr.size as usize
            };
            let name = lossy_string(hdr.chunk.as_slice());
            let info = ChunkInfo { name, tag: hdr.chunk, data_offset: body, data_length: size };
            let ghost old_chunks = chunks@;
            chunks.push(info);
            proof {
                assert(places(chunks@) =~= places(old_chunks) + seq![info.place()]);
            }
            let ghost pos = index;
            if size >= len - body {
                index = len;
            } else {
                index = body + size;
            }
            proof {
                let d = self@;
                assert(size as nat == payload_len(d, pos as int));
                assert(info.place() == ChunkPlace {
                    tag: d.subrange(pos as int, pos + 4int),
                    offset: (pos + 8) as nat,
                    length: size as nat,
                });
                if index == len {
                    assert(chunks_from(d, pos as nat) == Ok::<Seq<ChunkPlace>, WavError>(
                        seq![info.place()],
                    ));
                    assert(seq![info.place()] + Seq::<ChunkPlace>::empty() =~= seq![info.place()]);
                } else {
                    assert(chunks_from(d, pos as nat) == after(
                        seq![info.place()],
                        chunks_from(d, index as nat),
                    ));
                }
                lemma_after_after(places(old_chunks), seq![info.place()], chunks_from(d, index as nat));
            }
        }
        proof {
            assert(places(chunks@) + Seq::<ChunkPlace>::empty() =~= places(chunks@));
        }
        Ok(chunks)
    }

    /// The entries of a `LIST` payload, or `None` where it is not an `INFO`
    /// list. Each entry is a 4-byte key, a little-endian length that counts
    /// the value's terminating null byte, the value, and a pad byte after an
    /// odd length.
    pub fn parse_list(&self, data: &'a [u8]) -> (r: Result<Option<Chunk<'a>>, WavError>)
        ensures
            decoded_as(r, list_body(list_entries(data@))),
    {
        let len = data.len();
        if len < 4 {
            return Err(WavError::Malformed);
        }
        if !(data[0] == 0x49 && data[1] == 0x4e && data[2] == 0x46 && data[3] == 0x4f) {
            proof {
                if data@.subrange(0, 4) == info_tag() {
                    assert(data@.subrange(0, 4)[0] == data@[0]);
                    assert(data@.subrange(0, 4)[1] == data@[1]);
                    assert(data@.subrange(0, 4)[2] == data@[2]);
                    assert(data@.subrange(0, 4)[3] == data@[3]);
                }
            }
            return Ok(None);
        }
        assert(data@.subrange(0, 4) =~= info_tag());
        let mut entries: Vec<(String, String)> = Vec::new();
        let ghost mut raw: Seq<(Seq<u8>, Seq<u8>)> = Seq::empty();
        let mut index: usize = 4;
        while index < len
            invariant
                4 <= index <= len,
                len == data@.len(),
                data@.subrange(0, 4) == info_tag(),
                entries_from(data@, 4) == after(raw, entries_from(data@, index as nat)),
                entries_show(entries@, raw),
            decreases len - index,
        {
            if len - index < 8 {
                assert(entries_from(data@, index as nat) == Err::<Seq<(Seq<u8>, Seq<u8>)>, WavError>(
                    WavError::Malformed,
                ));
                return Err(WavError::Malformed);
            }
            let n = read_u32_le(data, index + 4) as usize;
            let start = index + 8;
            if n == 0 || n > len - start {
                assert(entries_from(data@, index as nat) == Err::<Seq<(Seq<u8>, Seq<u8>)>, WavError>(
                    WavError::Malformed,
                ));
                return Err(WavError::Malformed);
            }
            let key = lossy_string(&data[index..index + 4]);
            let value = lossy_string(&data[start..start + n - 1]);
            let ghost entry = (
                data@.subrange(index as int, index + 4int),
                data@.subrange(start as int, start + n - 1int),
            );
            let ghost pos = index;
            let ghost old_raw = raw;
            let ghost old_entries = entries@;
            entries.push((key, value));
            proof {
                raw = raw.push(entry);
                assert(entries_show(entries@, raw)) by {
                    assert forall|i: int| 0 <= i < entries@.len() implies #[trigger] entries@[i].0@
                        == lossy_text(raw[i].0) && entries@[i].1@ == lossy_text(raw[i].1) by {
                        if i < old_raw.len() {
                            assert(entries@[i] == old_entries[i]);
                        }
                    }
                }
            }
            let pad = n % 2;
            if n + pad >= len - start {
                index = len;
            } else {
                index = start + n + pad;
            }
            proof {
                let p = data@;
                assert(next_entry(pos as int, n as int) == start + n + pad);
                if index == len {
                    assert(entries_from(p, pos as nat) == Ok::<Seq<(Seq<u8>, Seq<u8>)>, WavError>(
                        seq![entry],
                    ));
                    assert(seq![entry] + Seq::<(Seq<u8>, Seq<u8>)>::empty() =~= seq![entry]);
                } else {
                    assert(entries_from(p, pos as nat) == after(
                        seq![entry],
                        entries_from(p, index as nat),
                    ));
                }
                lemma_after_after(old_raw, seq![entry], entries_from(p, index as nat));
                assert(old_raw + seq![entry] =~= raw);
            }
        }
        proof {
            assert(raw + Seq::<(Seq<u8>, Seq<u8>)>::empty() =~= raw);
        }
        Ok(Some(Chunk::List(entries)))
    }

    /// The chunk described by `chunk`, decoded by its raw tag: `None` for a
    /// tag without a decoding, and `Malformed` where the payload, or the
    /// fixed record it must hold, lies outside the buffer.
    pub fn read_chunk(&self, chunk: &ChunkInfo) -> (r: Result<Option<Chunk<'a>>, WavError>)
        ensures
            decoded_as(r, decode(self@, chunk.place())),
    {
        let d = self.data;
        if chunk.data_length > d.len() || chunk.data_offset > d.len() - chunk.data_length {
            return Err(WavError::Malformed);
        }
        let data = &d[chunk.data_offset..chunk.data_offset + chunk.data_length];
        assert(data@ == self@.subrange(
            chunk.data_offset as int,
            chunk.data_offset + chunk.data_length,
        ));
        let riff: [u8; 4] = [0x52, 0x49, 0x46, 0x46];
        let fmt: [u8; 4] = [0x66, 0x6d, 0x74, 0x20];
        let list: [u8; 4] = [0x4c, 0x49, 0x53, 0x54];
        let data_id: [u8; 4] = [0x64, 0x61, 0x74, 0x61];
        assert(riff@ =~= riff_tag());
        assert(fmt@ =~= fmt_tag());
        assert(list@ =~= list_tag());
        assert(data_id@ =~= data_tag());
        if same_tag(&chunk.tag, &riff) {
            if data.len() < 4 {
                return Err(WavError::Malformed);
            }
            let id: [u8; 4] = [data[0], data[1], data[2], data[3]];
            assert(id@ =~= data@.subrange(0, 4));
            Ok(Some(Chunk::Riff(Riff { id })))
        } else if same_tag(&chunk.tag, &fmt) {
            if data.len() < 16 {
                return Err(WavError::Malformed);
            }
            Ok(Some(Chunk::Format(Fmt::from_le_bytes(data))))
        } else if same_tag(&chunk.tag, &list) {
            self.parse_list(data)
        } else if same_tag(&chunk.tag, &data_id) {
            Ok(Some(Chunk::Data(data)))
        } else {
            Ok(None)
        }
    }

    /// The first chunk whose name is `chunk_name`, decoded; `None` where no
    /// chunk has that name or its tag has no decoding.
    pub fn read_chunk_by_name(&self, chunk_name: &str) -> (r: Result<Option<Chunk<'a>>, WavError>)
        ensures
            decoded_as(r, decode_named(self@, chunk_name@)),
    {
        let chunks = match self.available_chunks() {
            Ok(v) => v,
            Err(e) => {
                return Err(e);
            },
        };
        let target = chunk_name.to_owned();
        let ghost cs = places(chunks@);
        let mut i: usize = 0;
        while i < chunks.len()
            invariant
                i <= chunks@.len(),
                cs == places(chunks@),
                target@ == chunk_name@,
                crate::walker::chunks_of(self@) == Ok::<Seq<ChunkPlace>, WavError>(cs),
                forall|j: int| 0 <= j < chunks@.len() ==> (#[trigger] chunks@[j]).named_by_tag(),
                first_named(cs, chunk_name@, 0) == first_named(cs, chunk_name@, i as nat),
            decreases chunks@.len() - i,
        {
            assert(cs[i as int] == chunks@[i as int].place());
            if chunks[i].name == target {
                return self.read_chunk(&chunks[i]);
            }
            i = i + 1;
        }
        Ok(None)
    }
}

} // verus!
