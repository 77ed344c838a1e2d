use streamtune::records::{EqConfig, Metadata, Playlist};
use streamtune::varint::{read_varint, write_varint};
use streamtune::wire::{read_field, write_bytes_field, write_fixed64_field, Field};

fn varint(v: u64) -> Vec<u8> {
    let mut b = Vec::new();
    write_varint(&mut b, v);
    b
}

#[test]
fn varint_known_encodings() {
    assert_eq!(varint(0), vec![0]);
    assert_eq!(varint(1), vec![1]);
    assert_eq!(varint(127), vec![127]);
    assert_eq!(varint(128), vec![0x80, 0x01]);
    assert_eq!(varint(300), vec![0xAC, 0x02]);
    assert_eq!(varint(u64::MAX).len(), 10);
}

#[test]
fn varint_matches_prost() {
    for v in [0u64, 1, 127, 128, 255, 300, 16383, 16384, 1 << 35, u64::MAX - 1, u64::MAX] {
        let mut p = Vec::new();
        prost::encoding::encode_varint(v, &mut p);
        assert_eq!(varint(v), p);
        let mut slice: &[u8] = &p;
        assert_eq!(prost::encoding::decode_varint(&mut slice).unwrap(), v);
        assert_eq!(read_varint(&p, 0), Some((v, p.len())));
    }
}

#[test]
fn varint_read_back_with_trailing_bytes() {
    let mut b = varint(300);
    b.extend_from_slice(&[9, 9]);
    assert_eq!(read_varint(&b, 0), Some((300, 2)));
    assert_eq!(read_varint(&b, 2), Some((9, 3)));
}

#[test]
fn varint_rejects_truncated_and_overlong() {
    assert_eq!(read_varint(&[0x80], 0), None);
    assert_eq!(read_varint(&[], 0), None);
    // ten bytes whose last carries more than one bit: above u64::MAX
    let too_big = [0xFF, 0xFF, 0xFF, 0xFF, 0xFF, 0xFF, 0xFF, 0xFF, 0xFF, 0x02];
    assert_eq!(read_varint(&too_big, 0), None);
    let max = [0xFF, 0xFF, 0xFF, 0xFF, 0xFF, 0xFF, 0xFF, 0xFF, 0xFF, 0x01];
    assert_eq!(read_varint(&max, 0), Some((u64::MAX, 10)));
    // eleven bytes
    let eleven = [0x80, 0x80, 0x80, 0x80, 0x80, 0x80, 0x80, 0x80, 0x80, 0x80, 0x00];
    assert_eq!(read_varint(&eleven, 0), None);
    // a non-minimal encoding of 0 is still read
    assert_eq!(read_varint(&[0x80, 0x00], 0), Some((0, 2)));
}

#[test]
fn fields_read_back() {
    let mut b = Vec::new();
    write_bytes_field(&mut b, 1, b"abc");
    write_fixed64_field(&mut b, 4, 0x1122334455667788);
    assert_eq!(&b[..5], &[0x0A, 3, b'a', b'b', b'c']);
    match read_field(&b, 0) {
        Some((1, Field::Bytes(2, 5), 5)) => {}
        _ => panic!("bytes field"),
    }
    match read_field(&b, 5) {
        Some((4, Field::Fixed64(0x1122334455667788), 14)) => {}
        _ => panic!("fixed64 field"),
    }
}

#[test]
fn fields_rejected() {
    // field number 0
    assert!(read_field(&[0x02, 0], 0).is_none());
    // group start (wire type 3)
    assert!(read_field(&[0x0B], 0).is_none());
    // length past the end
    assert!(read_field(&[0x0A, 5, 1, 2], 0).is_none());
    // fixed32 reads
    match read_field(&[0x0D, 1, 0, 0, 0], 0) {
        Some((1, Field::Fixed32(1), 5)) => {}
        _ => panic!("fixed32 field"),
    }
}

fn sample_metadata() -> Metadata {
    Metadata {
        title: "Song".to_string(),
        artist: "The Band".to_string(),
        album: "Debut".to_string(),
        duration_bits: 3.5f64.to_bits(),
    }
}

#[test]
fn metadata_matches_protobuf_encoding() {
    let m = sample_metadata();
    let mut expected = Vec::new();
    prost::encoding::string::encode(1, &m.title, &mut expected);
    prost::encoding::string::encode(2, &m.artist, &mut expected);
    prost::encoding::string::encode(3, &m.album, &mut expected);
    prost::encoding::double::encode(4, &3.5f64, &mut expected);
    assert_eq!(m.encode_body(), expected);
    assert_eq!(m.encoded_len(), expected.len());
    let ld = m.encode_length_delimited();
    assert_eq!(ld[0] as usize, expected.len());
    assert_eq!(&ld[1..], &expected[..]);
}

#[test]
fn metadata_roundtrip() {
    let m = sample_metadata();
    let mut ld = m.encode_length_delimited();
    let n = ld.len();
    ld.extend_from_slice(&[1, 2, 3]);
    let (r, used) = Metadata::decode_length_delimited(&ld).unwrap();
    assert_eq!(used, n);
    assert_eq!(r.title, "Song");
    assert_eq!(r.artist, "The Band");
    assert_eq!(r.album, "Debut");
    assert_eq!(f64::from_bits(r.duration_bits), 3.5);
}

#[test]
fn metadata_defaults_left_out() {
    let m = Metadata { title: String::new(), artist: String::new(), album: String::new(), duration_bits: (-0.0f64).to_bits() };
    assert_eq!(m.encode_body(), Vec::<u8>::new());
    assert_eq!(m.encode_length_delimited(), vec![0]);
    let (r, _) = Metadata::decode_length_delimited(&[0]).unwrap();
    assert_eq!(r.duration_bits, 0);
    assert_eq!(r.title, "");
}

#[test]
fn metadata_unknown_fields_skipped_and_last_wins() {
    // field 9 varint, title "a", title "b"
    let body = [0x48, 5, 0x0A, 1, b'a', 0x0A, 1, b'b'];
    let r = Metadata::decode(&body).unwrap();
    assert_eq!(r.title, "b");
}

#[test]
fn metadata_errors() {
    // title with invalid UTF-8
    assert!(Metadata::decode(&[0x0A, 1, 0xFF]).is_none());
    // title with the wrong wire type
    assert!(Metadata::decode(&[0x08, 1]).is_none());
    // length prefix past the end
    assert!(Metadata::decode_length_delimited(&[5, 0x0A]).is_none());
}

#[test]
fn playlist_roundtrip() {
    let p = Playlist { track_keys: vec!["audio:a:b:c".to_string(), String::new(), "x".to_string()] };
    let mut expected = Vec::new();
    prost::encoding::string::encode_repeated(1, &p.track_keys, &mut expected);
    assert_eq!(p.encode_body(), expected);
    let ld = p.encode_length_delimited();
    let (r, used) = Playlist::decode_length_delimited(&ld).unwrap();
    assert_eq!(used, ld.len());
    assert_eq!(r.track_keys, p.track_keys);
    let empty = Playlist { track_keys: vec![] };
    assert_eq!(empty.encode_length_delimited(), vec![0]);
}

#[test]
fn eq_config_roundtrip() {
    let c = EqConfig { bass_bits: 3.0f64.to_bits(), mid_bits: 0.0f64.to_bits(), treble_bits: (-6.5f64).to_bits() };
    let mut expected = Vec::new();
    prost::encoding::double::encode(1, &3.0f64, &mut expected);
    prost::encoding::double::encode(3, &-6.5f64, &mut expected);
    assert_eq!(c.encode_body(), expected);
    let ld = c.encode_length_delimited();
    let (r, used) = EqConfig::decode_length_delimited(&ld).unwrap();
    assert_eq!(used, ld.len());
    assert_eq!(f64::from_bits(r.bass_bits), 3.0);
    assert_eq!(r.mid_bits, 0);
    assert_eq!(f64::from_bits(r.treble_bits), -6.5);
    assert!(EqConfig::decode(&[0x0A, 0]).is_none());
}

fn nested_groups(depth: usize) -> Vec<u8> {
    let mut b = Vec::new();
    for _ in 0..depth {
        b.push(0x4B); // field 9, start group
    }
    b.extend_from_slice(&[0x08, 0x00]); // field 1, varint 0
    for _ in 0..depth {
        b.push(0x4C); // field 9, end group
    }
    b
}

#[test]
fn unknown_groups_skipped() {
    let mut body = vec![0x4B, 0x08, 0x01, 0x4C];
    body.extend_from_slice(&[0x0A, 1, b'x']);
    let m = Metadata::decode(&body).unwrap();
    assert_eq!(m.title, "x");
    // an end-group key with another number
    assert!(Metadata::decode(&[0x4B, 0x54]).is_none());
    // an end-group key on its own
    assert!(Metadata::decode(&[0x4C]).is_none());
    // a group under a known field number
    assert!(Metadata::decode(&[0x0B, 0x0C]).is_none());
}

#[test]
fn group_nesting_limit() {
    for (depth, ok) in [(1usize, true), (98, true), (99, false)] {
        let body = nested_groups(depth);
        let mut ld = Vec::new();
        write_varint(&mut ld, body.len() as u64);
        ld.extend_from_slice(&body);
        assert_eq!(Metadata::decode_length_delimited(&ld).is_some(), ok, "depth {depth}");
    }
    // prost skips a group with a fresh context one level deeper than a
    // length-delimited read gives the fields of a message
    for (depth, ok) in [(99usize, true), (100, false)] {
        let body = nested_groups(depth);
        let mut slice: &[u8] = &body[1..];
        let r = prost::encoding::skip_field(
            prost::encoding::WireType::StartGroup,
            9,
            &mut slice,
            prost::encoding::DecodeContext::default(),
        );
        assert_eq!(r.is_ok(), ok, "prost depth {depth}");
    }
}
