use nwav::{Chunk, ChunkInfo, Fmt, WavError, WAV};

fn le32(x: u32) -> Vec<u8> {
    x.to_le_bytes().to_vec()
}

fn pcm_fmt_bytes() -> Vec<u8> {
    let mut b = Vec::new();
    b.extend_from_slice(&1u16.to_le_bytes());
    b.extend_from_slice(&2u16.to_le_bytes());
    b.extend_from_slice(&44100u32.to_le_bytes());
    b.extend_from_slice(&176400u32.to_le_bytes());
    b.extend_from_slice(&4u16.to_le_bytes());
    b.extend_from_slice(&16u16.to_le_bytes());
    b
}

fn pcm_file(audio: &[u8]) -> Vec<u8> {
    let mut b = Vec::new();
    b.extend_from_slice(b"RIFF");
    b.extend(le32(4 + 24 + 8 + audio.len() as u32));
    b.extend_from_slice(b"WAVE");
    b.extend_from_slice(b"fmt ");
    b.extend(le32(16));
    b.extend(pcm_fmt_bytes());
    b.extend_from_slice(b"data");
    b.extend(le32(audio.len() as u32));
    b.extend_from_slice(audio);
    b
}

fn info_entry(key: &[u8], value: &[u8]) -> Vec<u8> {
    let n = value.len() as u32 + 1;
    let mut b = key.to_vec();
    b.extend(le32(n));
    b.extend_from_slice(value);
    b.push(0);
    if n % 2 == 1 {
        b.push(0);
    }
    b
}

fn list_of(entries: &Vec<(String, String)>) -> Vec<(&str, &str)> {
    entries.iter().map(|(k, v)| (k.as_str(), v.as_str())).collect()
}

#[test]
fn pcm_file_walk_and_decode() {
    let audio = [1u8, 2, 3, 4, 5, 6, 7, 8];
    let buf = pcm_file(&audio);
    let wav = WAV::from_data(&buf);
    let chunks = wav.available_chunks().unwrap();
    assert_eq!(chunks.len(), 3);
    assert_eq!(chunks[0].name, "RIFF");
    assert_eq!((chunks[0].data_offset, chunks[0].data_length), (8, 4));
    assert_eq!(chunks[1].name, "fmt ");
    assert_eq!((chunks[1].data_offset, chunks[1].data_length), (20, 16));
    assert_eq!(chunks[2].name, "data");
    assert_eq!((chunks[2].data_offset, chunks[2].data_length), (44, 8));

    match wav.read_chunk(&chunks[1]) {
        Ok(Some(Chunk::Format(f))) => assert_eq!(
            f,
            Fmt {
                compression_code: 1,
                number_of_channels: 2,
                sampling_rate: 44100,
                byte_rate: 176400,
                block_align: 4,
                bits_per_sample: 16,
            }
        ),
        other => panic!("unexpected {:?}", other),
    }
    match wav.read_chunk(&chunks[2]) {
        Ok(Some(Chunk::Data(d))) => assert_eq!(d, &audio[..]),
        other => panic!("unexpected {:?}", other),
    }
    match wav.read_chunk(&chunks[0]) {
        Ok(Some(Chunk::Riff(r))) => assert_eq!(&r.id, b"WAVE"),
        other => panic!("unexpected {:?}", other),
    }
}

#[test]
fn fmt_round_trips_to_its_bytes() {
    let buf = pcm_file(&[0u8; 4]);
    let wav = WAV::from_data(&buf);
    let chunks = wav.available_chunks().unwrap();
    let fmt = chunks.iter().find(|c| c.name == "fmt ").unwrap();
    match wav.read_chunk(fmt) {
        Ok(Some(Chunk::Format(f))) => {
            assert_eq!(f.to_le_bytes(), buf[fmt.data_offset..fmt.data_offset + 16].to_vec());
            assert_eq!(f.to_le_bytes(), pcm_fmt_bytes());
        }
        other => panic!("unexpected {:?}", other),
    }
}

#[test]
fn fmt_reads_unaligned_fields() {
    let mut b = vec![0xAAu8];
    b.extend(pcm_fmt_bytes());
    let f = Fmt::from_le_bytes(&b[1..]);
    assert_eq!(f.sampling_rate, 44100);
    assert_eq!(f.byte_rate, 176400);
    assert_eq!(f.bits_per_sample, 16);
}

#[test]
fn enumerate_twice_gives_same_listing() {
    let buf = pcm_file(&[9u8, 8, 7]);
    let wav = WAV::from_data(&buf);
    let a = wav.available_chunks().unwrap();
    let b = wav.available_chunks().unwrap();
    assert_eq!(a.len(), b.len());
    for (x, y) in a.iter().zip(b.iter()) {
        assert_eq!(x.name, y.name);
        assert_eq!(x.tag, y.tag);
        assert_eq!(x.data_offset, y.data_offset);
        assert_eq!(x.data_length, y.data_length);
    }
}

#[test]
fn riff_length_ignores_declared_size() {
    for declared in [0u32, 4, 36, 0xFFFF_FFFF] {
        let mut buf = b"RIFF".to_vec();
        buf.extend(le32(declared));
        buf.extend_from_slice(b"WAVE");
        buf.extend_from_slice(b"junk");
        buf.extend(le32(2));
        buf.extend_from_slice(&[1, 2]);
        let wav = WAV::from_data(&buf);
        let chunks = wav.available_chunks().unwrap();
        assert_eq!(chunks.len(), 2);
        assert_eq!(chunks[0].data_length, 4);
        assert_eq!(chunks[1].name, "junk");
        assert_eq!(chunks[1].data_offset, 20);
    }
}

#[test]
fn empty_buffer_has_no_chunks() {
    let wav = WAV::from_data(&[]);
    assert_eq!(wav.available_chunks().unwrap().len(), 0);
}

#[test]
fn truncated_header_is_malformed() {
    let buf = b"RIFF\x10".to_vec();
    let wav = WAV::from_data(&buf);
    assert_eq!(wav.available_chunks().unwrap_err(), WavError::Malformed);

    let full = pcm_file(&[1u8, 2]);
    for cut in 37..43 {
        let wav = WAV::from_data(&full[..cut]);
        assert_eq!(wav.available_chunks().unwrap_err(), WavError::Malformed);
    }
}

#[test]
fn no_top_level_padding() {
    let mut buf = b"abcd".to_vec();
    buf.extend(le32(3));
    buf.extend_from_slice(&[1, 2, 3]);
    buf.extend_from_slice(b"efgh");
    buf.extend(le32(0));
    let wav = WAV::from_data(&buf);
    let chunks = wav.available_chunks().unwrap();
    assert_eq!(chunks.len(), 2);
    assert_eq!(chunks[1].data_offset, 19);
    assert_eq!(chunks[1].data_length, 0);
}

#[test]
fn payload_past_end_is_listed_but_not_decoded() {
    let mut buf = b"data".to_vec();
    buf.extend(le32(100));
    buf.extend_from_slice(&[1, 2, 3]);
    let wav = WAV::from_data(&buf);
    let chunks = wav.available_chunks().unwrap();
    assert_eq!(chunks.len(), 1);
    assert_eq!(chunks[0].data_length, 100);
    assert_eq!(wav.read_chunk(&chunks[0]).unwrap_err(), WavError::Malformed);
}

#[test]
fn lossy_tag_name() {
    let mut buf = vec![0xFFu8, b'a', b'b', b'c'];
    buf.extend(le32(0));
    let wav = WAV::from_data(&buf);
    let chunks = wav.available_chunks().unwrap();
    assert_eq!(chunks[0].name, "\u{FFFD}abc");
    assert_eq!(chunks[0].tag, [0xFF, b'a', b'b', b'c']);
    assert!(matches!(wav.read_chunk(&chunks[0]), Ok(None)));
}

#[test]
fn info_list_scenario() {
    let mut payload = b"INFO".to_vec();
    payload.extend_from_slice(b"INAM");
    payload.extend(le32(5));
    payload.extend_from_slice(b"Test\0");
    payload.push(0);
    payload.extend_from_slice(b"IART");
    payload.extend(le32(3));
    payload.extend_from_slice(b"Me\0");
    payload.push(0);
    let wav = WAV::from_data(&payload);
    match wav.parse_list(&payload) {
        Ok(Some(Chunk::List(v))) => assert_eq!(list_of(&v), vec![("INAM", "Test"), ("IART", "Me")]),
        other => panic!("unexpected {:?}", other),
    }
}

#[test]
fn info_list_recovers_built_entries() {
    let pairs: [(&[u8; 4], &str); 4] =
        [(b"INAM", "Title"), (b"IART", "Band"), (b"ICMT", ""), (b"IGNR", "Rock and roll")];
    let mut payload = b"INFO".to_vec();
    for (k, v) in pairs.iter() {
        payload.extend(info_entry(*k, v.as_bytes()));
    }
    let mut file = b"LIST".to_vec();
    file.extend(le32(payload.len() as u32));
    file.extend_from_slice(&payload);
    let wav = WAV::from_data(&file);
    let expected: Vec<(&str, &str)> =
        pairs.iter().map(|(k, v)| (std::str::from_utf8(*k).unwrap(), *v)).collect();
    match wav.read_chunk_by_name("LIST") {
        Ok(Some(Chunk::List(v))) => assert_eq!(list_of(&v), expected),
        other => panic!("unexpected {:?}", other),
    }
}

#[test]
fn pad_byte_follows_odd_length_only() {
    // "abc\0" has even declared length 4: no pad; "Test\0" has odd length 5: one pad.
    let mut payload = b"INFO".to_vec();
    payload.extend_from_slice(b"IKEY");
    payload.extend(le32(4));
    payload.extend_from_slice(b"abc\0");
    payload.extend_from_slice(b"INAM");
    payload.extend(le32(5));
    payload.extend_from_slice(b"Test\0");
    payload.push(0);
    payload.extend_from_slice(b"ISFT");
    payload.extend(le32(2));
    payload.extend_from_slice(b"x\0");
    let wav = WAV::from_data(&payload);
    match wav.parse_list(&payload) {
        Ok(Some(Chunk::List(v))) => {
            assert_eq!(list_of(&v), vec![("IKEY", "abc"), ("INAM", "Test"), ("ISFT", "x")])
        }
        other => panic!("unexpected {:?}", other),
    }
}

#[test]
fn missing_final_pad_is_tolerated() {
    let mut payload = b"INFO".to_vec();
    payload.extend_from_slice(b"INAM");
    payload.extend(le32(3));
    payload.extend_from_slice(b"ab\0");
    let wav = WAV::from_data(&payload);
    match wav.parse_list(&payload) {
        Ok(Some(Chunk::List(v))) => assert_eq!(list_of(&v), vec![("INAM", "ab")]),
        other => panic!("unexpected {:?}", other),
    }
}

#[test]
fn non_info_list_is_none() {
    let payload = b"adtlxxxx".to_vec();
    let wav = WAV::from_data(&payload);
    assert!(matches!(wav.parse_list(&payload), Ok(None)));
}

#[test]
fn malformed_info_lists() {
    let short = b"IN".to_vec();
    let wav = WAV::from_data(&short);
    assert_eq!(wav.parse_list(&short).unwrap_err(), WavError::Malformed);

    let mut zero = b"INFOINAM".to_vec();
    zero.extend(le32(0));
    assert_eq!(wav.parse_list(&zero).unwrap_err(), WavError::Malformed);

    let mut long = b"INFOINAM".to_vec();
    long.extend(le32(10));
    long.extend_from_slice(b"abc\0");
    assert_eq!(wav.parse_list(&long).unwrap_err(), WavError::Malformed);

    let cut = b"INFOINAM\x02\x00".to_vec();
    assert_eq!(wav.parse_list(&cut).unwrap_err(), WavError::Malformed);
}

#[test]
fn short_fixed_bodies_are_malformed() {
    let mut buf = b"fmt ".to_vec();
    buf.extend(le32(8));
    buf.extend_from_slice(&[0u8; 8]);
    let wav = WAV::from_data(&buf);
    let chunks = wav.available_chunks().unwrap();
    assert_eq!(wav.read_chunk(&chunks[0]).unwrap_err(), WavError::Malformed);

    let info = ChunkInfo { name: "RIFF".to_string(), tag: *b"RIFF", data_offset: 4, data_length: 2 };
    assert_eq!(wav.read_chunk(&info).unwrap_err(), WavError::Malformed);
}

#[test]
fn read_by_name() {
    let audio = [5u8, 6, 7];
    let buf = pcm_file(&audio);
    let wav = WAV::from_data(&buf);
    match wav.read_chunk_by_name("data") {
        Ok(Some(Chunk::Data(d))) => assert_eq!(d, &audio[..]),
        other => panic!("unexpected {:?}", other),
    }
    match wav.read_chunk_by_name("fmt ") {
        Ok(Some(Chunk::Format(f))) => assert_eq!(f.number_of_channels, 2),
        other => panic!("unexpected {:?}", other),
    }
    assert!(matches!(wav.read_chunk_by_name("fmt"), Ok(None)));
    assert!(matches!(wav.read_chunk_by_name("LIST"), Ok(None)));
    let broken = &buf[..3];
    let wav = WAV::from_data(broken);
    assert_eq!(wav.read_chunk_by_name("data").unwrap_err(), WavError::Malformed);
}

#[test]
fn read_by_name_takes_first_match() {
    let mut buf = b"data".to_vec();
    buf.extend(le32(1));
    buf.push(1);
    buf.extend_from_slice(b"data");
    buf.extend(le32(2));
    buf.extend_from_slice(&[2, 2]);
    let wav = WAV::from_data(&buf);
    match wav.read_chunk_by_name("data") {
        Ok(Some(Chunk::Data(d))) => assert_eq!(d, &[1u8][..]),
        other => panic!("unexpected {:?}", other),
    }
}
