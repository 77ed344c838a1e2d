//! The records the library stores, in protobuf's wire format: a track's
//! metadata, a playlist, and the equaliser settings. Each is written
//! length-delimited (its byte length as a varint, then its fields).
//!
//! Text fields are protobuf `string`s (fields omitted when empty), numbers
//! are protobuf `double`s held as their IEEE-754 bit patterns (fields
//! omitted when the value is zero, of either sign). Fields with unknown
//! numbers, groups among them, are skipped on reading; a known field number
//! with the wrong wire type, or text that is not UTF-8, is an error. Groups
//! may nest as deep as a length-delimited read allows (`nesting_budget`),
//! also where a whole buffer is read as one message body.

use vstd::bytes::*;
use vstd::prelude::*;
use vstd::utf8::*;

use crate::text::{text_from_bytes, utf8};
use crate::varint::{
    lemma_parse_len, lemma_varint_roundtrip, lemma_varint_shortest, read_varint, read_varint_spec,
    varint_bytes, write_varint,
};
use crate::wire::{
    append_bytes, bytes_field, fixed64_field, lemma_bytes_field_roundtrip, lemma_field_len,
    lemma_fixed64_field_roundtrip, parse_field_spec, read_field, write_bytes_field,
    write_fixed64_field, Field, WireValue,
};

verus! {

broadcast use vstd::utf8::group_utf8_lib;

/// Both bit patterns of a zero `double`.
pub open spec fn is_zero_bits(bits: u64) -> bool {
    bits == 0 || bits == 0x8000_0000_0000_0000
}

/// A `double` as it reads back after an encoding that leaves zeros out.
pub open spec fn stored_bits(bits: u64) -> u64 {
    if is_zero_bits(bits) { 0 } else { bits }
}

/// A text field; left out when empty.
pub open spec fn text_field(tag: nat, s: Seq<char>) -> Seq<u8> {
    if s.len() == 0 { Seq::empty() } else { bytes_field(tag, utf8(s)) }
}

/// A `double` field; left out when zero.
pub open spec fn double_field(tag: nat, bits: u64) -> Seq<u8> {
    if is_zero_bits(bits) { Seq::empty() } else { fixed64_field(tag, bits) }
}

/// A message prefixed with its length.
pub open spec fn length_delimited(body: Seq<u8>) -> Seq<u8> {
    varint_bytes(body.len()) + body
}

/// Text that a length-delimited field can carry.
pub open spec fn text_fits(s: Seq<char>) -> bool {
    utf8(s).len() <= u64::MAX
}

/// Reads a length-delimited message from the front of `s` with `decode`:
/// the message and the bytes taken, prefix included.
pub open spec fn read_length_delimited<T>(s: Seq<u8>, decode: spec_fn(Seq<u8>) -> Option<T>) -> Option<(T, nat)> {
    match read_varint_spec(s) {
        Some((l, n)) => if n + l <= s.len() {
            match decode(s.subrange(n as int, n + l)) {
                Some(m) => Some((m, (n + l) as nat)),
                None => None,
            }
        } else {
            None
        },
        None => None,
    }
}

/// Writes the text field with number `tag`, unless `s` is empty.
fn write_text_field(buf: &mut Vec<u8>, tag: u64, s: &String)
    requires
        tag < 0x2000_0000,
    ensures
        final(buf)@ == old(buf)@ + text_field(tag as nat, s@),
{
    if !s.as_str().is_empty() {
        write_bytes_field(buf, tag, s.as_str().as_bytes());
    } else {
        assert(old(buf)@ + text_field(tag as nat, s@) =~= old(buf)@);
    }
}

/// Writes the `double` field with number `tag`, unless it is zero.
fn write_double_field(buf: &mut Vec<u8>, tag: u64, bits: u64)
    requires
        tag < 0x2000_0000,
    ensures
        final(buf)@ == old(buf)@ + double_field(tag as nat, bits),
{
    if bits != 0 && bits != 0x8000_0000_0000_0000 {
        write_fixed64_field(buf, tag, bits);
    } else {
        assert(old(buf)@ + double_field(tag as nat, bits) =~= old(buf)@);
    }
}

/// Prefixes `body` with its length.
fn frame(body: Vec<u8>) -> (out: Vec<u8>)
    ensures
        out@ == length_delimited(body@),
{
    let mut out: Vec<u8> = Vec::new();
    write_varint(&mut out, body.len() as u64);
    append_bytes(&mut out, body.as_slice());
    proof {
        assert(out@ =~= length_delimited(body@));
    }
    out
}

/// The text a length-delimited field carries, or `None` where it is not
/// UTF-8.
fn read_text(buf: &[u8], start: usize, end: usize) -> (res: Option<String>)
    requires
        start <= end <= buf@.len(),
    ensures
        res is Some <==> valid_utf8(buf@.subrange(start as int, end as int)),
        res matches Some(s) ==> s@ == decode_utf8(buf@.subrange(start as int, end as int)),
{
    text_from_bytes(vstd::slice::slice_subrange(buf, start, end))
}

// ---------------------------------------------------------------------
// Track metadata
// ---------------------------------------------------------------------

/// A track's tags and length. `duration_bits` is the IEEE-754 bit pattern
/// of the duration in seconds.
pub struct Metadata {
    pub title: String,
    pub artist: String,
    pub album: String,
    pub duration_bits: u64,
}

#[verifier::ext_equal]
pub struct MetadataView {
    pub title: Seq<char>,
    pub artist: Seq<char>,
    pub album: Seq<char>,
    pub duration_bits: u64,
}

impl View for Metadata {
    type V = MetadataView;

    open spec fn view(&self) -> MetadataView {
        MetadataView {
            title: self.title@,
            artist: self.artist@,
            album: self.album@,
            duration_bits: self.duration_bits,
        }
    }
}

/// Field numbers: title 1, artist 2, album 3, duration 4.
pub open spec fn metadata_body(m: MetadataView) -> Seq<u8> {
    text_field(1, m.title) + text_field(2, m.artist) + text_field(3, m.album) + double_field(
        4,
        m.duration_bits,
    )
}

/// Metadata with every field at its default.
pub open spec fn empty_metadata() -> MetadataView {
    MetadataView {
        title: Seq::empty(),
        artist: Seq::empty(),
        album: Seq::empty(),
        duration_bits: 0,
    }
}

/// `m` as it reads back: a zero duration of either sign reads as `+0`.
pub open spec fn metadata_stored(m: MetadataView) -> MetadataView {
    MetadataView { duration_bits: stored_bits(m.duration_bits), ..m }
}

/// Applies one field read from the wire to `m`.
pub open spec fn apply_metadata_field(m: MetadataView, tag: u64, v: WireValue) -> Option<MetadataView> {
    if 1 <= tag <= 3 {
        match v {
            WireValue::Bytes(b) => if valid_utf8(b) {
                let t = decode_utf8(b);
                Some(
                    if tag == 1 {
                        MetadataView { title: t, ..m }
                    } else if tag == 2 {
                        MetadataView { artist: t, ..m }
                    } else {
                        MetadataView { album: t, ..m }
                    },
                )
            } else {
                None
            },
            _ => None,
        }
    } else if tag == 4 {
        match v {
            WireValue::Fixed64(x) => Some(MetadataView { duration_bits: x, ..m }),
            _ => None,
        }
    } else {
        Some(m)
    }
}

/// Reads the fields in `s` one after another into `m`.
pub open spec fn decode_metadata_fields(s: Seq<u8>, m: MetadataView) -> Option<MetadataView>
    decreases s.len(),
{
    if s.len() == 0 {
        Some(m)
    } else {
        match parse_field_spec(s) {
            Some((tag, v, n)) => {
                proof {
                    lemma_field_len(s);
                }
                match apply_metadata_field(m, tag, v) {
                    Some(m2) => decode_metadata_fields(s.skip(n as int), m2),
                    None => None,
                }
            },
            None => None,
        }
    }
}

/// The metadata message that is all of `s`.
pub open spec fn decode_metadata(s: Seq<u8>) -> Option<MetadataView> {
    decode_metadata_fields(s, empty_metadata())
}

/// A length-delimited metadata message at the front of `s`.
pub open spec fn read_metadata(s: Seq<u8>) -> Option<(MetadataView, nat)> {
    read_length_delimited(s, |b: Seq<u8>| decode_metadata(b))
}

proof fn lemma_apply_metadata_size(m: MetadataView, s: Seq<u8>)
    requires
        parse_field_spec(s) is Some,
        apply_metadata_field(m, parse_field_spec(s).unwrap().0, parse_field_spec(s).unwrap().1) is Some,
    ensures
        metadata_body(
            apply_metadata_field(m, parse_field_spec(s).unwrap().0, parse_field_spec(s).unwrap().1).unwrap(),
        ).len() <= metadata_body(m).len() + parse_field_spec(s).unwrap().2,
{
    let (tag, v, n) = parse_field_spec(s).unwrap();
    let m2 = apply_metadata_field(m, tag, v).unwrap();
    let (key, n1) = read_varint_spec(s).unwrap();
    lemma_parse_len(s);
    let rest = s.skip(n1 as int);
    lemma_auto_spec_u64_to_from_le_bytes();
    if 1 <= tag <= 3 {
        if let WireValue::Bytes(b) = v {
            let t = decode_utf8(b);
            assert(utf8(t) == b);
            let (l, n2) = read_varint_spec(rest).unwrap();
            lemma_varint_shortest(rest);
            assert(varint_bytes((tag * 8 + 2) as nat) == seq![(tag * 8 + 2) as u8]);
            assert(text_field(tag as nat, t).len() <= n);
        }
    } else if tag == 4 {
        assert(varint_bytes(33) == seq![33u8]);
        assert(double_field(4, m2.duration_bits).len() <= 9);
    }
}

proof fn lemma_decode_metadata_size(s: Seq<u8>, m: MetadataView)
    ensures
        decode_metadata_fields(s, m) matches Some(r) ==> metadata_body(r).len() <= s.len()
            + metadata_body(m).len(),
    decreases s.len(),
{
    if s.len() > 0 {
        if let Some((tag, v, n)) = parse_field_spec(s) {
            lemma_field_len(s);
            if let Some(m2) = apply_metadata_field(m, tag, v) {
                lemma_apply_metadata_size(m, s);
                lemma_decode_metadata_size(s.skip(n as int), m2);
            }
        }
    }
}

/// Writing out a decoded metadata message never takes more bytes than it
/// was read from.
pub proof fn lemma_metadata_reencode_len(s: Seq<u8>)
    ensures
        decode_metadata(s) matches Some(m) ==> metadata_body(m).len() <= s.len(),
        read_metadata(s) matches Some((m, n)) ==> metadata_body(m).len() <= n <= s.len(),
{
    lemma_decode_metadata_size(s, empty_metadata());
    assert(metadata_body(empty_metadata()) =~= Seq::<u8>::empty());
    if let Some((l, n)) = read_varint_spec(s) {
        lemma_parse_len(s);
        if n + l <= s.len() {
            let b = s.subrange(n as int, n + l);
            lemma_decode_metadata_size(b, empty_metadata());
        }
    }
}

impl Metadata {
    /// The message body, without its length prefix.
    pub fn encode_body(&self) -> (out: Vec<u8>)
        ensures
            out@ == metadata_body(self@),
    {
        let mut buf: Vec<u8> = Vec::new();
        write_text_field(&mut buf, 1, &self.title);
        write_text_field(&mut buf, 2, &self.artist);
        write_text_field(&mut buf, 3, &self.album);
        write_double_field(&mut buf, 4, self.duration_bits);
        proof {
            assert(buf@ =~= metadata_body(self@));
        }
        buf
    }

    /// The length of the message body, without its length prefix.
    pub fn encoded_len(&self) -> (n: usize)
        ensures
            n == metadata_body(self@).len(),
    {
        self.encode_body().len()
    }

    /// The message, prefixed with its length.
    pub fn encode_length_delimited(&self) -> (out: Vec<u8>)
        ensures
            out@ == length_delimited(metadata_body(self@)),
    {
        frame(self.encode_body())
    }

    /// Reads a metadata message that takes all of `buf`.
    pub fn decode(buf: &[u8]) -> (res: Option<Metadata>)
        ensures
            match decode_metadata(buf@) {
                Some(m) => res matches Some(r) && r@ == m,
                None => res is None,
            },
    {
        let mut m = Metadata {
            title: String::new(),
            artist: String::new(),
            album: String::new(),
            duration_bits: 0,
        };
        let mut pos: usize = 0;
        proof {
            assert(buf@.skip(0) =~= buf@);
        }
        while pos < buf.len()
            invariant
                pos <= buf@.len(),
                decode_metadata(buf@) == decode_metadata_fields(buf@.skip(pos as int), m@),
            decreases buf@.len() - pos,
        {
            let ghost s = buf@.skip(pos as int);
            let (tag, f, end) = match read_field(buf, pos) {
                Some(r) => r,
                None => return None,
            };
            proof {
                lemma_field_len(s);
                assert(buf@.skip(end as int) =~= s.skip(end - pos));
            }
            if 1 <= tag && tag <= 3 {
                match f {
                    Field::Bytes(a, b) => {
                        let t = match read_text(buf, a, b) {
                            Some(t) => t,
                            None => return None,
                        };
                        if tag == 1 {
                            m.title = t;
                        } else if tag == 2 {
                            m.artist = t;
                        } else {
                            m.album = t;
                        }
                    },
                    _ => return None,
                }
            } else if tag == 4 {
                match f {
                    Field::Fixed64(x) => {
                        m.duration_bits = x;
                    },
                    _ => return None,
                }
            }
            pos = end;
        }
        proof {
            assert(buf@.skip(pos as int).len() == 0);
        }
        Some(m)
    }

    /// Reads a length-delimited metadata message from the front of `buf`:
    /// the message and the number of bytes it takes, prefix included.
    pub fn decode_length_delimited(buf: &[u8]) -> (res: Option<(Metadata, usize)>)
        ensures
            match read_metadata(buf@) {
                Some((m, n)) => res matches Some((r, k)) && r@ == m && k == n,
                None => res is None,
            },
    {
        proof {
            assert(buf@.skip(0) =~= buf@);
        }
        let (len, start) = match read_varint(buf, 0) {
            Some(r) => r,
            None => return None,
        };
        if len as u128 > (buf.len() - start) as u128 {
            return None;
        }
        let end = start + len as usize;
        let body = vstd::slice::slice_subrange(buf, start, end);
        match Metadata::decode(body) {
            Some(m) => Some((m, end)),
            None => None,
        }
    }
}


/// Reading a message body whose first field is `f`: the field is applied,
/// then the rest is read.
proof fn lemma_metadata_step(f: Seq<u8>, rest: Seq<u8>, m: MetadataView, tag: u64, v: WireValue)
    requires
        f.len() > 0,
        parse_field_spec(f + rest) == Some((tag, v, f.len())),
    ensures
        decode_metadata_fields(f + rest, m) == match apply_metadata_field(m, tag, v) {
            Some(m2) => decode_metadata_fields(rest, m2),
            None => None,
        },
{
    assert((f + rest).skip(f.len() as int) =~= rest);
}

/// The text field `tag` of `m`, replaced by `t`.
spec fn with_text(m: MetadataView, tag: u64, t: Seq<char>) -> MetadataView {
    if tag == 1 {
        MetadataView { title: t, ..m }
    } else if tag == 2 {
        MetadataView { artist: t, ..m }
    } else {
        MetadataView { album: t, ..m }
    }
}

proof fn lemma_metadata_text_step(tag: u64, t: Seq<char>, rest: Seq<u8>, m: MetadataView)
    requires
        1 <= tag <= 3,
        t.len() > 0,
        utf8(t).len() <= u64::MAX,
    ensures
        decode_metadata_fields(text_field(tag as nat, t) + rest, m) == decode_metadata_fields(
            rest,
            with_text(m, tag, t),
        ),
{
    lemma_bytes_field_roundtrip(tag, utf8(t), rest);
    lemma_metadata_step(text_field(tag as nat, t), rest, m, tag, WireValue::Bytes(utf8(t)));
}

proof fn lemma_metadata_text_or_skip(tag: u64, t: Seq<char>, rest: Seq<u8>, m: MetadataView)
    requires
        1 <= tag <= 3,
        utf8(t).len() <= u64::MAX,
        t.len() == 0 ==> with_text(m, tag, t) == m,
    ensures
        decode_metadata_fields(text_field(tag as nat, t) + rest, m) == decode_metadata_fields(
            rest,
            with_text(m, tag, t),
        ),
{
    if t.len() > 0 {
        lemma_metadata_text_step(tag, t, rest, m);
    } else {
        assert(text_field(tag as nat, t) + rest =~= rest);
    }
}

proof fn lemma_metadata_body_decode(m: MetadataView)
    requires
        metadata_body(m).len() <= u64::MAX,
    ensures
        decode_metadata(metadata_body(m)) == Some(metadata_stored(m)),
{
    let t1 = text_field(1, m.title);
    let t2 = text_field(2, m.artist);
    let t3 = text_field(3, m.album);
    let d4 = double_field(4, m.duration_bits);
    let body = metadata_body(m);
    assert(body =~= t1 + (t2 + (t3 + d4)));
    if m.title.len() > 0 {
        assert(utf8(m.title).len() <= t1.len());
    }
    if m.artist.len() > 0 {
        assert(utf8(m.artist).len() <= t2.len());
    }
    if m.album.len() > 0 {
        assert(utf8(m.album).len() <= t3.len());
    }
    let m0 = empty_metadata();
    let m1 = with_text(m0, 1, m.title);
    let m2 = with_text(m1, 2, m.artist);
    let m3 = with_text(m2, 3, m.album);
    assert(m.title.len() == 0 ==> m1 =~= m0);
    assert(m.artist.len() == 0 ==> m2 =~= m1);
    assert(m.album.len() == 0 ==> m3 =~= m2);
    lemma_metadata_text_or_skip(1, m.title, t2 + (t3 + d4), m0);
    lemma_metadata_text_or_skip(2, m.artist, t3 + d4, m1);
    lemma_metadata_text_or_skip(3, m.album, d4, m2);
    if is_zero_bits(m.duration_bits) {
        assert(d4 =~= Seq::<u8>::empty());
        assert(m3 =~= metadata_stored(m));
    } else {
        lemma_fixed64_field_roundtrip(4, m.duration_bits, Seq::empty());
        assert(d4 + Seq::<u8>::empty() =~= d4);
        lemma_metadata_step(d4, Seq::empty(), m3, 4, WireValue::Fixed64(m.duration_bits));
        assert(MetadataView { duration_bits: m.duration_bits, ..m3 } =~= metadata_stored(m));
    }
}

/// A length-delimited message whose body `decode` reads as `v` reads back
/// as `v`, whatever follows it.
pub proof fn lemma_read_length_delimited<T>(
    body: Seq<u8>,
    rest: Seq<u8>,
    decode: spec_fn(Seq<u8>) -> Option<T>,
    v: T,
)
    requires
        body.len() <= u64::MAX,
        decode(body) == Some(v),
    ensures
        read_length_delimited(length_delimited(body) + rest, decode) == Some(
            (v, length_delimited(body).len()),
        ),
{
    let ld = length_delimited(body);
    lemma_varint_roundtrip(body.len() as u64, body + rest);
    assert(ld + rest =~= varint_bytes(body.len()) + (body + rest));
    let n = varint_bytes(body.len()).len();
    assert((ld + rest).subrange(n as int, (n + body.len()) as int) =~= body);
}

/// A metadata message reads back as written, a zero duration of either
/// sign as `+0`; and, length-delimited, whatever follows it.
pub proof fn lemma_metadata_roundtrip(m: MetadataView, rest: Seq<u8>)
    requires
        metadata_body(m).len() <= u64::MAX,
    ensures
        decode_metadata(metadata_body(m)) == Some(metadata_stored(m)),
        read_metadata(length_delimited(metadata_body(m)) + rest) == Some(
            (metadata_stored(m), length_delimited(metadata_body(m)).len()),
        ),
        metadata_body(metadata_stored(m)) == metadata_body(m),
{
    lemma_metadata_body_decode(m);
    lemma_read_length_delimited(
        metadata_body(m),
        rest,
        |b: Seq<u8>| decode_metadata(b),
        metadata_stored(m),
    );
    assert(metadata_body(metadata_stored(m)) =~= metadata_body(m));
}


// ---------------------------------------------------------------------
// Playlists
// ---------------------------------------------------------------------

/// A playlist: the store keys of its tracks, in order.
pub struct Playlist {
    pub track_keys: Vec<String>,
}

impl View for Playlist {
    type V = Seq<Seq<char>>;

    open spec fn view(&self) -> Seq<Seq<char>> {
        self.track_keys@.map_values(|k: String| k@)
    }
}

/// Field 1, repeated: one text field per key, empty keys included.
pub open spec fn playlist_body(keys: Seq<Seq<char>>) -> Seq<u8>
    decreases keys.len(),
{
    if keys.len() == 0 {
        Seq::empty()
    } else {
        bytes_field(1, utf8(keys[0])) + playlist_body(keys.drop_first())
    }
}

/// Keys that a length-delimited field can carry.
pub open spec fn keys_fit(keys: Seq<Seq<char>>) -> bool {
    forall|i: int| 0 <= i < keys.len() ==> #[trigger] utf8(keys[i]).len() <= u64::MAX
}

pub open spec fn apply_playlist_field(keys: Seq<Seq<char>>, tag: u64, v: WireValue) -> Option<Seq<Seq<char>>> {
    if tag == 1 {
        match v {
            WireValue::Bytes(b) => if valid_utf8(b) {
                Some(keys.push(decode_utf8(b)))
            } else {
                None
            },
            _ => None,
        }
    } else {
        Some(keys)
    }
}

pub open spec fn decode_playlist_fields(s: Seq<u8>, keys: Seq<Seq<char>>) -> Option<Seq<Seq<char>>>
    decreases s.len(),
{
    if s.len() == 0 {
        Some(keys)
    } else {
        match parse_field_spec(s) {
            Some((tag, v, n)) => {
                proof {
                    lemma_field_len(s);
                }
                match apply_playlist_field(keys, tag, v) {
                    Some(k2) => decode_playlist_fields(s.skip(n as int), k2),
                    None => None,
                }
            },
            None => None,
        }
    }
}

/// The playlist message that is all of `s`.
pub open spec fn decode_playlist(s: Seq<u8>) -> Option<Seq<Seq<char>>> {
    decode_playlist_fields(s, Seq::empty())
}

/// A length-delimited playlist message at the front of `s`.
pub open spec fn read_playlist(s: Seq<u8>) -> Option<(Seq<Seq<char>>, nat)> {
    read_length_delimited(s, |b: Seq<u8>| decode_playlist(b))
}

proof fn lemma_playlist_body_push(keys: Seq<Seq<char>>, k: Seq<char>)
    ensures
        playlist_body(keys.push(k)) == playlist_body(keys) + bytes_field(1, utf8(k)),
    decreases keys.len(),
{
    if keys.len() == 0 {
        assert(keys.push(k).drop_first() =~= Seq::<Seq<char>>::empty());
        assert(playlist_body(keys.push(k).drop_first()) == Seq::<u8>::empty());
        assert(keys.push(k)[0] == k);
        assert(keys =~= Seq::<Seq<char>>::empty());
        assert(playlist_body(keys.push(k)) =~= playlist_body(keys) + bytes_field(1, utf8(k)));
    } else {
        lemma_playlist_body_push(keys.drop_first(), k);
        assert(keys.push(k).drop_first() =~= keys.drop_first().push(k));
        assert(playlist_body(keys.push(k)) =~= playlist_body(keys) + bytes_field(1, utf8(k)));
    }
}

proof fn lemma_playlist_step(k: Seq<char>, tail: Seq<u8>, acc: Seq<Seq<char>>)
    requires
        utf8(k).len() <= u64::MAX,
    ensures
        decode_playlist_fields(bytes_field(1, utf8(k)) + tail, acc) == decode_playlist_fields(
            tail,
            acc.push(k),
        ),
{
    let f = bytes_field(1, utf8(k));
    lemma_bytes_field_roundtrip(1, utf8(k), tail);
    assert((f + tail).skip(f.len() as int) =~= tail);
}

proof fn lemma_playlist_decode_body(keys: Seq<Seq<char>>, rest: Seq<u8>, acc: Seq<Seq<char>>)
    requires
        keys_fit(keys),
    ensures
        decode_playlist_fields(playlist_body(keys) + rest, acc) == decode_playlist_fields(
            rest,
            acc + keys,
        ),
    decreases keys.len(),
{
    if keys.len() == 0 {
        assert(playlist_body(keys) + rest =~= rest);
        assert(acc + keys =~= acc);
    } else {
        let tail = playlist_body(keys.drop_first()) + rest;
        assert(playlist_body(keys) + rest =~= bytes_field(1, utf8(keys[0])) + tail);
        assert(utf8(keys[0]).len() <= u64::MAX);
        lemma_playlist_step(keys[0], tail, acc);
        assert(keys_fit(keys.drop_first())) by {
            assert forall|i: int| 0 <= i < keys.drop_first().len() implies #[trigger] utf8(
                keys.drop_first()[i],
            ).len() <= u64::MAX by {
                assert(keys.drop_first()[i] == keys[i + 1]);
            }
        }
        lemma_playlist_decode_body(keys.drop_first(), rest, acc.push(keys[0]));
        assert(acc.push(keys[0]) + keys.drop_first() =~= acc + keys);
    }
}

/// A playlist message reads back as written; and, length-delimited,
/// whatever follows it.
pub proof fn lemma_playlist_roundtrip(keys: Seq<Seq<char>>, rest: Seq<u8>)
    requires
        keys_fit(keys),
        playlist_body(keys).len() <= u64::MAX,
    ensures
        decode_playlist(playlist_body(keys)) == Some(keys),
        read_playlist(length_delimited(playlist_body(keys)) + rest) == Some(
            (keys, length_delimited(playlist_body(keys)).len()),
        ),
{
    lemma_playlist_decode_body(keys, Seq::empty(), Seq::empty());
    assert(playlist_body(keys) + Seq::<u8>::empty() =~= playlist_body(keys));
    assert(Seq::<Seq<char>>::empty() + keys =~= keys);
    lemma_read_length_delimited(playlist_body(keys), rest, |b: Seq<u8>| decode_playlist(b), keys);
}

impl Playlist {
    /// The message body, without its length prefix.
    pub fn encode_body(&self) -> (out: Vec<u8>)
        ensures
            out@ == playlist_body(self@),
    {
        let mut buf: Vec<u8> = Vec::new();
        let mut i: usize = 0;
        proof {
            assert(self@.take(0) =~= Seq::<Seq<char>>::empty());
        }
        while i < self.track_keys.len()
            invariant
                i <= self@.len(),
                self@.len() == self.track_keys@.len(),
                buf@ == playlist_body(self@.take(i as int)),
            decreases self@.len() - i,
        {
            let k = &self.track_keys[i];
            write_bytes_field(&mut buf, 1, k.as_str().as_bytes());
            proof {
                assert(self@.take(i as int + 1) =~= self@.take(i as int).push(k@));
                lemma_playlist_body_push(self@.take(i as int), k@);
            }
            i = i + 1;
        }
        proof {
            assert(self@.take(i as int) =~= self@);
        }
        buf
    }

    /// The message, prefixed with its length.
    pub fn encode_length_delimited(&self) -> (out: Vec<u8>)
        ensures
            out@ == length_delimited(playlist_body(self@)),
    {
        frame(self.encode_body())
    }

    /// Reads a playlist message that takes all of `buf`.
    pub fn decode(buf: &[u8]) -> (res: Option<Playlist>)
        ensures
            match decode_playlist(buf@) {
                Some(k) => res matches Some(r) && r@ == k,
                None => res is None,
            },
    {
        let mut keys: Vec<String> = Vec::new();
        let mut pos: usize = 0;
        proof {
            assert(buf@.skip(0) =~= buf@);
            assert(keys@.map_values(|k: String| k@) =~= Seq::<Seq<char>>::empty());
        }
        while pos < buf.len()
            invariant
                pos <= buf@.len(),
                decode_playlist(buf@) == decode_playlist_fields(
                    buf@.skip(pos as int),
                    keys@.map_values(|k: String| k@),
                ),
            decreases buf@.len() - pos,
        {
            let ghost s = buf@.skip(pos as int);
            let (tag, f, end) = match read_field(buf, pos) {
                Some(r) => r,
                None => return None,
            };
            proof {
                lemma_field_len(s);
                assert(buf@.skip(end as int) =~= s.skip(end - pos));
            }
            if tag == 1 {
                match f {
                    Field::Bytes(a, b) => {
                        let t = match read_text(buf, a, b) {
                            Some(t) => t,
                            None => return None,
                        };
                        let ghost before = keys@.map_values(|k: String| k@);
                        keys.push(t);
                        proof {
                            assert(keys@.map_values(|k: String| k@) =~= before.push(t@));
                        }
                    },
                    _ => return None,
                }
            }
            pos = end;
        }
        proof {
            assert(buf@.skip(pos as int).len() == 0);
        }
        Some(Playlist { track_keys: keys })
    }

    /// Reads a length-delimited playlist message from the front of `buf`.
    pub fn decode_length_delimited(buf: &[u8]) -> (res: Option<(Playlist, usize)>)
        ensures
            match read_playlist(buf@) {
                Some((k, n)) => res matches Some((r, m)) && r@ == k && m == n,
                None => res is None,
            },
    {
        proof {
            assert(buf@.skip(0) =~= buf@);
        }
        let (len, start) = match read_varint(buf, 0) {
            Some(r) => r,
            None => return None,
        };
        if len as u128 > (buf.len() - start) as u128 {
            return None;
        }
        let end = start + len as usize;
        let body = vstd::slice::slice_subrange(buf, start, end);
        match Playlist::decode(body) {
            Some(p) => Some((p, end)),
            None => None,
        }
    }
}

// ---------------------------------------------------------------------
// Equaliser settings
// ---------------------------------------------------------------------

/// Equaliser gains in dB, as IEEE-754 bit patterns.
#[derive(Clone, Copy)]
pub struct EqConfig {
    pub bass_bits: u64,
    pub mid_bits: u64,
    pub treble_bits: u64,
}

/// Field numbers: bass 1, mid 2, treble 3.
pub open spec fn eq_body(c: EqConfig) -> Seq<u8> {
    double_field(1, c.bass_bits) + double_field(2, c.mid_bits) + double_field(3, c.treble_bits)
}

pub open spec fn empty_eq() -> EqConfig {
    EqConfig { bass_bits: 0, mid_bits: 0, treble_bits: 0 }
}

/// `c` as it reads back: zeros of either sign read as `+0`.
pub open spec fn eq_stored(c: EqConfig) -> EqConfig {
    EqConfig {
        bass_bits: stored_bits(c.bass_bits),
        mid_bits: stored_bits(c.mid_bits),
        treble_bits: stored_bits(c.treble_bits),
    }
}

pub open spec fn apply_eq_field(c: EqConfig, tag: u64, v: WireValue) -> Option<EqConfig> {
    if 1 <= tag <= 3 {
        match v {
            WireValue::Fixed64(x) => Some(
                if tag == 1 {
                    EqConfig { bass_bits: x, ..c }
                } else if tag == 2 {
                    EqConfig { mid_bits: x, ..c }
                } else {
                    EqConfig { treble_bits: x, ..c }
                },
            ),
            _ => None,
        }
    } else {
        Some(c)
    }
}

pub open spec fn decode_eq_fields(s: Seq<u8>, c: EqConfig) -> Option<EqConfig>
    decreases s.len(),
{
    if s.len() == 0 {
        Some(c)
    } else {
        match parse_field_spec(s) {
            Some((tag, v, n)) => {
                proof {
                    lemma_field_len(s);
                }
                match apply_eq_field(c, tag, v) {
                    Some(c2) => decode_eq_fields(s.skip(n as int), c2),
                    None => None,
                }
            },
            None => None,
        }
    }
}

/// The equaliser message that is all of `s`.
pub open spec fn decode_eq(s: Seq<u8>) -> Option<EqConfig> {
    decode_eq_fields(s, empty_eq())
}

/// A length-delimited equaliser message at the front of `s`.
pub open spec fn read_eq(s: Seq<u8>) -> Option<(EqConfig, nat)> {
    read_length_delimited(s, |b: Seq<u8>| decode_eq(b))
}

proof fn lemma_eq_double_step(tag: u64, bits: u64, rest: Seq<u8>, c: EqConfig)
    requires
        1 <= tag <= 3,
    ensures
        decode_eq_fields(double_field(tag as nat, bits) + rest, c) == decode_eq_fields(
            rest,
            if is_zero_bits(bits) {
                c
            } else {
                apply_eq_field(c, tag, WireValue::Fixed64(bits)).unwrap()
            },
        ),
{
    if is_zero_bits(bits) {
        assert(double_field(tag as nat, bits) + rest =~= rest);
    } else {
        let f = double_field(tag as nat, bits);
        lemma_fixed64_field_roundtrip(tag, bits, rest);
        assert((f + rest).skip(f.len() as int) =~= rest);
    }
}

/// An equaliser message reads back as written, zeros of either sign as
/// `+0`; and, length-delimited, whatever follows it.
pub proof fn lemma_eq_roundtrip(c: EqConfig, rest: Seq<u8>)
    ensures
        decode_eq(eq_body(c)) == Some(eq_stored(c)),
        read_eq(length_delimited(eq_body(c)) + rest) == Some(
            (eq_stored(c), length_delimited(eq_body(c)).len()),
        ),
{
    let d1 = double_field(1, c.bass_bits);
    let d2 = double_field(2, c.mid_bits);
    let d3 = double_field(3, c.treble_bits);
    assert(eq_body(c) =~= d1 + (d2 + (d3 + Seq::<u8>::empty())));
    lemma_eq_double_step(1, c.bass_bits, d2 + (d3 + Seq::<u8>::empty()), empty_eq());
    let c1 = if is_zero_bits(c.bass_bits) { empty_eq() } else { EqConfig { bass_bits: c.bass_bits, ..empty_eq() } };
    lemma_eq_double_step(2, c.mid_bits, d3 + Seq::<u8>::empty(), c1);
    let c2 = if is_zero_bits(c.mid_bits) { c1 } else { EqConfig { mid_bits: c.mid_bits, ..c1 } };
    lemma_eq_double_step(3, c.treble_bits, Seq::<u8>::empty(), c2);
    lemma_auto_spec_u64_to_from_le_bytes();
    lemma_varint_roundtrip(9, Seq::empty());
    lemma_varint_roundtrip(17, Seq::empty());
    lemma_varint_roundtrip(25, Seq::empty());
    assert(eq_body(c).len() <= u64::MAX);
    lemma_read_length_delimited(eq_body(c), rest, |b: Seq<u8>| decode_eq(b), eq_stored(c));
}

impl EqConfig {
    /// The message body, without its length prefix.
    pub fn encode_body(&self) -> (out: Vec<u8>)
        ensures
            out@ == eq_body(*self),
    {
        let mut buf: Vec<u8> = Vec::new();
        write_double_field(&mut buf, 1, self.bass_bits);
        write_double_field(&mut buf, 2, self.mid_bits);
        write_double_field(&mut buf, 3, self.treble_bits);
        proof {
            assert(buf@ =~= eq_body(*self));
        }
        buf
    }

    /// The message, prefixed with its length.
    pub fn encode_length_delimited(&self) -> (out: Vec<u8>)
        ensures
            out@ == length_delimited(eq_body(*self)),
    {
        frame(self.encode_body())
    }

    /// Reads an equaliser message that takes all of `buf`.
    pub fn decode(buf: &[u8]) -> (res: Option<EqConfig>)
        ensures
            res == decode_eq(buf@),
    {
        let mut c = EqConfig { bass_bits: 0, mid_bits: 0, treble_bits: 0 };
        let mut pos: usize = 0;
        proof {
            assert(buf@.skip(0) =~= buf@);
        }
        while pos < buf.len()
            invariant
                pos <= buf@.len(),
                decode_eq(buf@) == decode_eq_fields(buf@.skip(pos as int), c),
            decreases buf@.len() - pos,
        {
            let ghost s = buf@.skip(pos as int);
            let (tag, f, end) = match read_field(buf, pos) {
                Some(r) => r,
                None => return None,
            };
            proof {
                lemma_field_len(s);
                assert(buf@.skip(end as int) =~= s.skip(end - pos));
            }
            if 1 <= tag && tag <= 3 {
                match f {
                    Field::Fixed64(x) => {
                        if tag == 1 {
                            c.bass_bits = x;
                        } else if tag == 2 {
                            c.mid_bits = x;
                        } else {
                            c.treble_bits = x;
                        }
                    },
                    _ => return None,
                }
            }
            pos = end;
        }
        proof {
            assert(buf@.skip(pos as int).len() == 0);
        }
        Some(c)
    }

    /// Reads a length-delimited equaliser message from the front of `buf`.
    pub fn decode_length_delimited(buf: &[u8]) -> (res: Option<(EqConfig, usize)>)
        ensures
            match read_eq(buf@) {
                Some((c, n)) => res == Some((c, n as usize)) && n <= buf@.len(),
                None => res is None,
            },
    {
        proof {
            assert(buf@.skip(0) =~= buf@);
        }
        let (len, start) = match read_varint(buf, 0) {
            Some(r) => r,
            None => return None,
        };
        if len as u128 > (buf.len() - start) as u128 {
            return None;
        }
        let end = start + len as usize;
        let body = vstd::slice::slice_subrange(buf, start, end);
        match EqConfig::decode(body) {
            Some(c) => Some((c, end)),
            None => None,
        }
    }
}

} // verus!
