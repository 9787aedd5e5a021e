//! Properties of the chunk walk and of the decoders, stated over their models.
use vstd::prelude::*;
use crate::decoder::{
    decode, entries_from, fmt_at, fmt_bytes, fmt_tag, info_tag, list_entries, ChunkBody, Fmt,
};
use crate::error::WavError;
use crate::le::{
    lemma_le_u16_bytes_round_trip, lemma_le_u32_bytes_round_trip, lemma_u32_le_round_trip,
    le_u32_at, u32_le_bytes,
};
use crate::walker::{after, chunks_from, chunks_of, payload_len, riff_tag, ChunkInfo, ChunkPlace};
use crate::wav::places;

verus! {

/// Decoding a `fmt ` chunk that the walk found and storing the record again,
/// field by field in little-endian order, gives back the first 16 payload bytes.
pub proof fn lemma_fmt_round_trip(d: Seq<u8>, cs: Seq<ChunkPlace>, i: int, f: Fmt)
    requires
        chunks_of(d) == Ok::<Seq<ChunkPlace>, WavError>(cs),
        0 <= i < cs.len(),
        cs[i].tag == fmt_tag(),
        decode(d, cs[i]) == Ok::<Option<ChunkBody>, WavError>(Some(ChunkBody::Format(f))),
    ensures
        fmt_bytes(f) == d.subrange(cs[i].offset as int, cs[i].offset + 16int),
{
    let c = cs[i];
    let p = d.subrange(c.offset as int, (c.offset + c.length) as int);
    assert(c.tag != riff_tag()) by {
        assert(c.tag[0] != riff_tag()[0]);
    }
    assert(f == fmt_at(p, 0));
    lemma_le_u16_bytes_round_trip(p, 0);
    lemma_le_u16_bytes_round_trip(p, 2);
    lemma_le_u32_bytes_round_trip(p, 4);
    lemma_le_u32_bytes_round_trip(p, 8);
    lemma_le_u16_bytes_round_trip(p, 12);
    lemma_le_u16_bytes_round_trip(p, 14);
    assert(fmt_bytes(f) =~= p.subrange(0, 16));
    assert(p.subrange(0, 16) =~= d.subrange(c.offset as int, c.offset + 16int));
}

/// Two listings of the same buffer that both meet the walk's contract agree
/// chunk by chunk: same tags, names, offsets and lengths.
pub proof fn lemma_listing_deterministic(d: Seq<u8>, a: Seq<ChunkInfo>, b: Seq<ChunkInfo>)
    requires
        chunks_of(d) == Ok::<Seq<ChunkPlace>, WavError>(places(a)),
        chunks_of(d) == Ok::<Seq<ChunkPlace>, WavError>(places(b)),
        forall|i: int| 0 <= i < a.len() ==> (#[trigger] a[i]).named_by_tag(),
        forall|i: int| 0 <= i < b.len() ==> (#[trigger] b[i]).named_by_tag(),
    ensures
        a.len() == b.len(),
        forall|i: int|
            0 <= i < a.len() ==> {
                &&& (#[trigger] a[i]).tag@ == b[i].tag@
                &&& a[i].name@ == b[i].name@
                &&& a[i].data_offset == b[i].data_offset
                &&& a[i].data_length == b[i].data_length
            },
{
    assert(places(a).len() == places(b).len());
    assert forall|i: int| 0 <= i < a.len() implies {
        &&& (#[trigger] a[i]).tag@ == b[i].tag@
        &&& a[i].name@ == b[i].name@
        &&& a[i].data_offset == b[i].data_offset
        &&& a[i].data_length == b[i].data_length
    } by {
        assert(places(a)[i] == places(b)[i]);
    }
}

/// Every chunk that the walk finds from `pos` on starts past `pos`'s header,
/// and its header lies in the buffer.
pub proof fn lemma_offsets_after(d: Seq<u8>, pos: nat)
    ensures
        chunks_from(d, pos) is Ok ==> forall|j: int|
            0 <= j < chunks_from(d, pos)->Ok_0.len() ==> pos + 8 <= #[trigger] chunks_from(
                d,
                pos,
            )->Ok_0[j].offset <= d.len(),
    decreases d.len() - pos,
{
    if pos < d.len() && d.len() - pos >= 8 {
        let next = pos + 8 + payload_len(d, pos as int);
        if next < d.len() {
            lemma_offsets_after(d, next);
        }
    }
}

/// Every `RIFF` chunk that the walk finds from `pos` on has length 4.
pub proof fn lemma_riff_length_from(d: Seq<u8>, pos: nat)
    ensures
        chunks_from(d, pos) is Ok ==> forall|j: int|
            0 <= j < chunks_from(d, pos)->Ok_0.len() && (#[trigger] chunks_from(
                d,
                pos,
            )->Ok_0[j]).tag == riff_tag() ==> chunks_from(d, pos)->Ok_0[j].length == 4,
    decreases d.len() - pos,
{
    if pos < d.len() && d.len() - pos >= 8 {
        let next = pos + 8 + payload_len(d, pos as int);
        if next < d.len() {
            lemma_riff_length_from(d, next);
        }
    }
}

/// The `RIFF` chunk's length is its 4-byte form type, whatever size its
/// header declares.
pub proof fn lemma_riff_length(d: Seq<u8>, cs: Seq<ChunkPlace>, i: int)
    requires
        chunks_of(d) == Ok::<Seq<ChunkPlace>, WavError>(cs),
        0 <= i < cs.len(),
        cs[i].tag == riff_tag(),
    ensures
        cs[i].length == 4,
{
    lemma_riff_length_from(d, 0);
    assert(cs[i] == chunks_from(d, 0)->Ok_0[i]);
}

/// Cutting a buffer inside the header of one of its chunks makes the walk
/// fail, from any position that leads to that chunk.
pub proof fn lemma_cut_header_from(d: Seq<u8>, pos: nat, j: int, cut: nat)
    requires
        chunks_from(d, pos) is Ok,
        0 <= j < chunks_from(d, pos)->Ok_0.len(),
        chunks_from(d, pos)->Ok_0[j].offset - 8 < cut < chunks_from(d, pos)->Ok_0[j].offset,
    ensures
        chunks_from(d.subrange(0, cut as int), pos) is Err,
    decreases d.len() - pos,
{
    let e = d.subrange(0, cut as int);
    let cs = chunks_from(d, pos)->Ok_0;
    if j == 0 {
        assert(cs[0].offset == pos + 8);
        assert(pos + 8 <= d.len());
    } else {
        let next = pos + 8 + payload_len(d, pos as int);
        assert(next < d.len());
        assert(chunks_from(d, next) is Ok);
        let rest = chunks_from(d, next)->Ok_0;
        assert(cs =~= seq![cs[0]] + rest);
        assert(rest[j - 1] == cs[j]);
        lemma_offsets_after(d, next);
        assert(rest[j - 1].offset >= next + 8);
        assert(rest[j - 1].offset <= d.len());
        assert(e.subrange(pos as int, pos + 4int) =~= d.subrange(pos as int, pos + 4int));
        assert(payload_len(e, pos as int) == payload_len(d, pos as int));
        lemma_cut_header_from(d, next, j - 1, cut);
    }
}

/// Cutting a buffer inside the header of a chunk that its walk found makes
/// the walk report malformed input.
pub proof fn lemma_cut_header(d: Seq<u8>, j: int, cut: nat)
    requires
        chunks_of(d) is Ok,
        0 <= j < chunks_of(d)->Ok_0.len(),
        chunks_of(d)->Ok_0[j].offset - 8 < cut < chunks_of(d)->Ok_0[j].offset,
    ensures
        chunks_of(d.subrange(0, cut as int)) is Err,
{
    lemma_cut_header_from(d, 0, j, cut);
}

/// The bytes of one `INFO` entry: key, little-endian length counting the
/// terminating null byte, value, null byte, and a pad byte after an odd length.
pub open spec fn entry_bytes(k: Seq<u8>, v: Seq<u8>) -> Seq<u8> {
    let n = v.len() + 1;
    k + u32_le_bytes(n) + v + seq![0u8] + if n % 2 == 1 {
        seq![0u8]
    } else {
        Seq::empty()
    }
}

/// The bytes of a sequence of `INFO` entries, one after another.
pub open spec fn entries_bytes(es: Seq<(Seq<u8>, Seq<u8>)>) -> Seq<u8>
    decreases es.len(),
{
    if es.len() == 0 {
        Seq::empty()
    } else {
        entry_bytes(es[0].0, es[0].1) + entries_bytes(es.drop_first())
    }
}

/// Entries that can be stored: 4-byte keys, lengths that fit 32 bits.
pub open spec fn storable(es: Seq<(Seq<u8>, Seq<u8>)>) -> bool {
    forall|i: int| 0 <= i < es.len() ==> (#[trigger] es[i]).0.len() == 4 && es[i].1.len() + 1
        < 0x1_0000_0000
}

/// After the entry at `pos` with declared length `n`, the parser goes on one
/// byte past the value and its terminator when `n` is odd, and right after
/// them when `n` is even.
pub proof fn lemma_entry_padding(p: Seq<u8>, pos: nat)
    requires
        pos + 8 <= p.len(),
        0 < le_u32_at(p, pos + 4int) <= p.len() - (pos + 8),
    ensures
        ({
            let n = le_u32_at(p, pos + 4int);
            let next = if n % 2 == 1 {
                pos + 8 + n + 1
            } else {
                pos + 8 + n
            };
            let entry = (p.subrange(pos as int, pos + 4int), p.subrange(pos + 8int, pos + 8 + n - 1int));
            &&& next < p.len() ==> entries_from(p, pos) == after(seq![entry], entries_from(p, next))
            &&& next >= p.len() ==> entries_from(p, pos) == Ok::<Seq<(Seq<u8>, Seq<u8>)>, WavError>(seq![entry])
        }),
{
}

proof fn lemma_entry_bytes_len(k: Seq<u8>, v: Seq<u8>)
    requires
        k.len() == 4,
    ensures
        entry_bytes(k, v).len() == 8 + (v.len() + 1) + (v.len() + 1) % 2,
{
}

/// Parsing from the start of stored entries, after any prefix, gives them back.
proof fn lemma_entries_from_bytes(pre: Seq<u8>, es: Seq<(Seq<u8>, Seq<u8>)>)
    requires
        storable(es),
    ensures
        entries_from(pre + entries_bytes(es), pre.len()) == Ok::<Seq<(Seq<u8>, Seq<u8>)>, WavError>(es),
    decreases es.len(),
{
    let p = pre + entries_bytes(es);
    if es.len() == 0 {
        assert(p =~= pre);
        assert(es =~= Seq::<(Seq<u8>, Seq<u8>)>::empty());
    } else {
        let (k, v) = es[0];
        let rest = es.drop_first();
        assert(storable(rest)) by {
            assert forall|i: int| 0 <= i < rest.len() implies (#[trigger] rest[i]).0.len() == 4
                && rest[i].1.len() + 1 < 0x1_0000_0000 by {
                assert(rest[i] == es[i + 1]);
            }
        }
        assert(es[0].0.len() == 4);
        let eb = entry_bytes(k, v);
        let n = v.len() + 1;
        let pos = pre.len();
        lemma_entry_bytes_len(k, v);
        let pre2 = pre + eb;
        assert(p =~= pre2 + entries_bytes(rest));
        assert(p.subrange(pos + 4int, pos + 8int) =~= u32_le_bytes(n));
        lemma_u32_le_round_trip(n);
        assert(le_u32_at(p, pos + 4int) == le_u32_at(u32_le_bytes(n), 0)) by {
            let b = u32_le_bytes(n);
            assert(p[pos + 4int] == b[0]);
            assert(p[pos + 5int] == b[1]);
            assert(p[pos + 6int] == b[2]);
            assert(p[pos + 7int] == b[3]);
        }
        assert(p.subrange(pos as int, pos + 4int) =~= k);
        assert(p.subrange(pos + 8int, pos + 8 + n - 1int) =~= v);
        lemma_entries_from_bytes(pre2, rest);
        if rest.len() == 0 {
            assert(entries_bytes(rest) =~= Seq::<u8>::empty());
            assert(es =~= seq![(k, v)]);
        } else {
            lemma_entry_bytes_len(rest[0].0, rest[0].1);
            assert(es =~= seq![(k, v)] + rest);
        }
    }
}

/// An `INFO` payload built from storable (key, value) pairs parses back to
/// exactly those pairs, in order.
pub proof fn lemma_info_round_trip(es: Seq<(Seq<u8>, Seq<u8>)>)
    requires
        storable(es),
    ensures
        list_entries(info_tag() + entries_bytes(es)) == Ok::<Option<Seq<(Seq<u8>, Seq<u8>)>>, WavError>(Some(es)),
{
    let t = info_tag();
    let p = t + entries_bytes(es);
    assert(t.len() == 4);
    lemma_entries_from_bytes(t, es);
    assert(entries_from(p, 4) == Ok::<Seq<(Seq<u8>, Seq<u8>)>, WavError>(es));
    assert(p.subrange(0, 4) =~= t);
    assert(p.len() >= 4);
}

} // verus!
