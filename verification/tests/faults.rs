use prost::bytes::{Buf, BufMut};
use prost::encoding::{double, skip_field, string, DecodeContext, WireType};
use prost::{DecodeError, Message};

use streamtune::faults::{record_fault_text, RecordKind};
use streamtune::records::{EqConfig, Metadata, Playlist};

#[derive(Debug, Default, Clone, PartialEq)]
struct ProstMetadata {
    title: String,
    artist: String,
    album: String,
    duration: f64,
}

impl Message for ProstMetadata {
    fn encode_raw<B: BufMut>(&self, buf: &mut B) {
        if !self.title.is_empty() {
            string::encode(1, &self.title, buf);
        }
        if !self.artist.is_empty() {
            string::encode(2, &self.artist, buf);
        }
        if !self.album.is_empty() {
            string::encode(3, &self.album, buf);
        }
        if self.duration != 0.0 {
            double::encode(4, &self.duration, buf);
        }
    }

    fn merge_field<B: Buf>(
        &mut self,
        tag: u32,
        wire_type: WireType,
        buf: &mut B,
        ctx: DecodeContext,
    ) -> Result<(), DecodeError> {
        let named = |field: &'static str| {
            move |mut e: DecodeError| {
                e.push("Metadata", field);
                e
            }
        };
        match tag {
            1 => string::merge(wire_type, &mut self.title, buf, ctx).map_err(named("title")),
            2 => string::merge(wire_type, &mut self.artist, buf, ctx).map_err(named("artist")),
            3 => string::merge(wire_type, &mut self.album, buf, ctx).map_err(named("album")),
            4 => double::merge(wire_type, &mut self.duration, buf, ctx).map_err(named("duration")),
            _ => skip_field(wire_type, tag, buf, ctx),
        }
    }

    fn encoded_len(&self) -> usize {
        let mut v = Vec::new();
        self.encode_raw(&mut v);
        v.len()
    }

    fn clear(&mut self) {
        *self = Self::default();
    }
}

#[derive(Debug, Default, Clone, PartialEq)]
struct ProstPlaylist {
    track_keys: Vec<String>,
}

impl Message for ProstPlaylist {
    fn encode_raw<B: BufMut>(&self, buf: &mut B) {
        string::encode_repeated(1, &self.track_keys, buf);
    }

    fn merge_field<B: Buf>(
        &mut self,
        tag: u32,
        wire_type: WireType,
        buf: &mut B,
        ctx: DecodeContext,
    ) -> Result<(), DecodeError> {
        match tag {
            1 => string::merge_repeated(wire_type, &mut self.track_keys, buf, ctx).map_err(|mut e| {
                e.push("Playlist", "track_keys");
                e
            }),
            _ => skip_field(wire_type, tag, buf, ctx),
        }
    }

    fn encoded_len(&self) -> usize {
        string::encoded_len_repeated(1, &self.track_keys)
    }

    fn clear(&mut self) {
        self.track_keys.clear();
    }
}

#[derive(Debug, Default, Clone, PartialEq)]
struct ProstEq {
    bass: f64,
    mid: f64,
    treble: f64,
}

impl Message for ProstEq {
    fn encode_raw<B: BufMut>(&self, buf: &mut B) {
        if self.bass != 0.0 {
            double::encode(1, &self.bass, buf);
        }
        if self.mid != 0.0 {
            double::encode(2, &self.mid, buf);
        }
        if self.treble != 0.0 {
            double::encode(3, &self.treble, buf);
        }
    }

    fn merge_field<B: Buf>(
        &mut self,
        tag: u32,
        wire_type: WireType,
        buf: &mut B,
        ctx: DecodeContext,
    ) -> Result<(), DecodeError> {
        let named = |field: &'static str| {
            move |mut e: DecodeError| {
                e.push("EqConfig", field);
                e
            }
        };
        match tag {
            1 => double::merge(wire_type, &mut self.bass, buf, ctx).map_err(named("bass")),
            2 => double::merge(wire_type, &mut self.mid, buf, ctx).map_err(named("mid")),
            3 => double::merge(wire_type, &mut self.treble, buf, ctx).map_err(named("treble")),
            _ => skip_field(wire_type, tag, buf, ctx),
        }
    }

    fn encoded_len(&self) -> usize {
        let mut v = Vec::new();
        self.encode_raw(&mut v);
        v.len()
    }

    fn clear(&mut self) {
        *self = Self::default();
    }
}

fn prost_fault(k: RecordKind, bytes: &[u8]) -> Option<String> {
    let r = match k {
        RecordKind::Metadata => ProstMetadata::decode_length_delimited(bytes).map(|_| ()),
        RecordKind::Playlist => ProstPlaylist::decode_length_delimited(bytes).map(|_| ()),
        RecordKind::EqConfig => ProstEq::decode_length_delimited(bytes).map(|_| ()),
    };
    r.err().map(|e| e.to_string())
}

fn ours_decodes(k: RecordKind, bytes: &[u8]) -> bool {
    match k {
        RecordKind::Metadata => Metadata::decode_length_delimited(bytes).is_some(),
        RecordKind::Playlist => Playlist::decode_length_delimited(bytes).is_some(),
        RecordKind::EqConfig => EqConfig::decode_length_delimited(bytes).is_some(),
    }
}

fn check(k: RecordKind, bytes: &[u8]) {
    let expected = prost_fault(k, bytes);
    assert_eq!(record_fault_text(k, bytes), expected, "{:?} {:?}", k_name(k), bytes);
    assert_eq!(ours_decodes(k, bytes), expected.is_none(), "{:?} {:?}", k_name(k), bytes);
}

fn k_name(k: RecordKind) -> &'static str {
    match k {
        RecordKind::Metadata => "metadata",
        RecordKind::Playlist => "playlist",
        RecordKind::EqConfig => "eq",
    }
}

const KINDS: [RecordKind; 3] = [RecordKind::Metadata, RecordKind::Playlist, RecordKind::EqConfig];

#[test]
fn fault_texts_of_chosen_records() {
    let cases: Vec<Vec<u8>> = vec![
        vec![],
        vec![0x80],
        vec![5, 0x0A],
        vec![3, 0x0A, 1, 0xFF],
        vec![2, 0x0A, 0],
        vec![2, 0x08, 0],
        vec![1, 0x08],
        vec![2, 0x0A, 5, b'a', b'b', b'c', b'd', b'e'],
        vec![3, 0x0A, 1, b'a', b'z'],
        vec![2, 0x0E, 0],
        vec![1, 0x07],
        vec![1, 0x00],
        vec![6, 0x80, 0x80, 0x80, 0x80, 0x10, 0],
        vec![2, 0x21, 0],
        vec![9, 0x21, 0, 0, 0, 0, 0, 0, 0, 0],
        vec![2, 0x09, 0],
        vec![9, 0x09, 1, 2, 3, 4, 5, 6, 7, 8],
        vec![1, 0x0C],
        vec![2, 0x4B, 0x54],
        vec![4, 0x4B, 0x08, 0x01, 0x4C],
        vec![1, 0x4C],
        vec![3, 0x4D, 1, 2],
        vec![4, 0x2A, 2, 0xC3, 0xA9],
        vec![2, 0x0A, 2, 0xC3, 0xA9],
        vec![1, 0x0A, 1, 0xC3],
    ];
    for c in &cases {
        for k in KINDS {
            check(k, c);
        }
    }
}

#[test]
fn fault_texts_of_deep_groups() {
    for depth in [97usize, 98, 99, 100, 101] {
        let mut body = Vec::new();
        for _ in 0..depth {
            body.push(0x4B);
        }
        body.extend_from_slice(&[0x08, 0x00]);
        for _ in 0..depth {
            body.push(0x4C);
        }
        let mut rec = Vec::new();
        prost::encoding::encode_varint(body.len() as u64, &mut rec);
        rec.extend_from_slice(&body);
        for k in KINDS {
            check(k, &rec);
        }
    }
}

#[test]
fn fault_texts_of_mangled_records() {
    let m = ProstMetadata { title: "Tïtle".into(), artist: "A".into(), album: "B".into(), duration: 2.5 };
    let p = ProstPlaylist { track_keys: vec!["audio:a:b:c".into(), "x".into()] };
    let e = ProstEq { bass: 1.0, mid: -2.0, treble: 3.0 };
    let mut seeds = Vec::new();
    for msg in [m.encode_length_delimited_to_vec(), p.encode_length_delimited_to_vec(), e.encode_length_delimited_to_vec()] {
        let mut with_tail = msg.clone();
        with_tail.extend_from_slice(&[0x0A, 0x03, 0xFF, 0x41, 0x42, 0x12]);
        seeds.push(msg);
        seeds.push(with_tail);
    }
    let mut state: u64 = 0x2545_F491_4F6C_DD1D;
    let mut next = move || {
        state ^= state << 13;
        state ^= state >> 7;
        state ^= state << 17;
        state
    };
    for seed in &seeds {
        for k in KINDS {
            check(k, seed);
        }
        for _ in 0..400 {
            let mut b = seed.clone();
            let edits = 1 + (next() % 3) as usize;
            for _ in 0..edits {
                let r = next();
                match r % 4 {
                    0 if !b.is_empty() => {
                        let i = (next() as usize) % b.len();
                        b[i] = next() as u8;
                    }
                    1 if !b.is_empty() => {
                        let n = (next() as usize) % b.len();
                        b.truncate(n);
                    }
                    2 => {
                        let i = (next() as usize) % (b.len() + 1);
                        b.insert(i, next() as u8);
                    }
                    _ if !b.is_empty() => {
                        let i = (next() as usize) % b.len();
                        b.remove(i);
                    }
                    _ => {}
                }
            }
            for k in KINDS {
                check(k, &b);
            }
        }
    }
}
