//! Why a stored record does not decode, in the words protobuf decoders use
//! for it: the decoder reads the record's length prefix, then its fields
//! one after another from the whole buffer (a field may run past the
//! record's end, which is then reported), and stops at the first fault.
//! A fault inside a known field is prefixed with `<Record>.<field>: `.

use vstd::prelude::*;
use vstd::utf8::*;

use crate::records::{
    apply_eq_field, apply_metadata_field, apply_playlist_field, decode_eq_fields,
    decode_metadata_fields, decode_playlist_fields, empty_eq, empty_metadata, read_eq, read_metadata,
    read_playlist, EqConfig, MetadataView,
};
use crate::text::{push_char, string_from_str, text_from_bytes};
use crate::varint::{lemma_parse_len, read_varint, read_varint_spec, varint_parse};
use crate::wire::{group_spec, lemma_field_len, parse_field_spec, read_key_spec, skip_spec, WireValue};

verus! {

/// The stored records.
#[derive(Clone, Copy, PartialEq, Eq, Structural)]
pub enum RecordKind {
    Metadata,
    Playlist,
    EqConfig,
}

/// What a field number of a record holds.
pub enum FieldKind {
    Text,
    Double,
    Unknown,
}

/// Track metadata: text fields 1 to 3, a double in field 4. Playlists: a
/// repeated text field 1. Equaliser settings: doubles in fields 1 to 3.
pub open spec fn field_kind(k: RecordKind, tag: u64) -> FieldKind {
    match k {
        RecordKind::Metadata => if 1 <= tag <= 3 {
            FieldKind::Text
        } else if tag == 4 {
            FieldKind::Double
        } else {
            FieldKind::Unknown
        },
        RecordKind::Playlist => if tag == 1 {
            FieldKind::Text
        } else {
            FieldKind::Unknown
        },
        RecordKind::EqConfig => if 1 <= tag <= 3 {
            FieldKind::Double
        } else {
            FieldKind::Unknown
        },
    }
}

/// The record's name.
pub open spec fn record_name(k: RecordKind) -> Seq<char> {
    match k {
        RecordKind::Metadata => "Metadata"@,
        RecordKind::Playlist => "Playlist"@,
        RecordKind::EqConfig => "EqConfig"@,
    }
}

/// The name of a known field.
pub open spec fn field_name(k: RecordKind, tag: u64) -> Seq<char> {
    match k {
        RecordKind::Metadata => if tag == 1 {
            "title"@
        } else if tag == 2 {
            "artist"@
        } else if tag == 3 {
            "album"@
        } else {
            "duration"@
        },
        RecordKind::Playlist => "track_keys"@,
        RecordKind::EqConfig => if tag == 1 {
            "bass"@
        } else if tag == 2 {
            "mid"@
        } else {
            "treble"@
        },
    }
}

/// The name of a wire type.
pub open spec fn wire_name(w: nat) -> Seq<char> {
    if w == 0 {
        "Varint"@
    } else if w == 1 {
        "SixtyFourBit"@
    } else if w == 2 {
        "LengthDelimited"@
    } else if w == 3 {
        "StartGroup"@
    } else if w == 4 {
        "EndGroup"@
    } else {
        "ThirtyTwoBit"@
    }
}

/// The decimal digit for `d`.
pub open spec fn digit(d: nat) -> char {
    if d == 0 { '0' } else if d == 1 { '1' } else if d == 2 { '2' } else if d == 3 { '3' }
    else if d == 4 { '4' } else if d == 5 { '5' } else if d == 6 { '6' } else if d == 7 { '7' }
    else if d == 8 { '8' } else { '9' }
}

/// `n` written in decimal.
pub open spec fn decimal(n: nat) -> Seq<char>
    decreases n,
{
    if n < 10 {
        seq![digit(n)]
    } else {
        decimal(n / 10).push(digit(n % 10))
    }
}

pub open spec fn underflow() -> Seq<char> {
    "buffer underflow"@
}

pub open spec fn bad_varint() -> Seq<char> {
    "invalid varint"@
}

pub open spec fn bad_end_group() -> Seq<char> {
    "unexpected end group tag"@
}

/// A field key at the front of `s`: field number, wire type and bytes
/// taken; or the fault.
pub open spec fn key_fault(s: Seq<u8>) -> Result<(u64, nat, nat), Seq<char>> {
    match read_varint_spec(s) {
        None => Err(bad_varint()),
        Some((key, n)) => if key > u32::MAX {
            Err("invalid key value: "@ + decimal(key as nat))
        } else if key % 8 >= 6 {
            Err("invalid wire type value: "@ + decimal((key % 8) as nat))
        } else if key / 8 == 0 {
            Err("invalid tag value: 0"@)
        } else {
            Ok(((key / 8) as u64, (key % 8) as nat, n))
        },
    }
}

/// Skips the value of a field with wire type `wire` and number `tag` at the
/// front of `s`, `count` levels of nesting left: the bytes it takes, or the
/// fault.
pub open spec fn skip_fault(s: Seq<u8>, wire: nat, tag: u64, count: nat) -> Result<nat, Seq<char>>
    decreases s.len(), 1nat,
{
    if count == 0 {
        Err("recursion limit reached"@)
    } else if wire == 0 {
        match read_varint_spec(s) {
            Some((_, n)) => Ok(n),
            None => Err(bad_varint()),
        }
    } else if wire == 1 {
        if s.len() >= 8 { Ok(8nat) } else { Err(underflow()) }
    } else if wire == 2 {
        match read_varint_spec(s) {
            Some((l, n)) => if l <= s.len() - n { Ok((n + l) as nat) } else { Err(underflow()) },
            None => Err(bad_varint()),
        }
    } else if wire == 5 {
        if s.len() >= 4 { Ok(4nat) } else { Err(underflow()) }
    } else if wire == 3 {
        group_fault(s, tag, count)
    } else {
        Err(bad_end_group())
    }
}

/// Skips the fields of the group with number `tag` up to and including its
/// end-group key: the bytes they take, or the fault.
pub open spec fn group_fault(s: Seq<u8>, tag: u64, count: nat) -> Result<nat, Seq<char>>
    decreases s.len(), 0nat,
{
    match key_fault(s) {
        Err(e) => Err(e),
        Ok((t, w, n1)) => {
            proof {
                lemma_parse_len(s);
            }
            if w == 4 {
                if t == tag { Ok(n1) } else { Err(bad_end_group()) }
            } else {
                match skip_fault(s.skip(n1 as int), w, t, (count - 1) as nat) {
                    Err(e) => Err(e),
                    Ok(n2) => if n1 + n2 <= s.len() {
                        match group_fault(s.skip((n1 + n2) as int), tag, count) {
                            Ok(n3) => Ok(n1 + n2 + n3),
                            Err(e) => Err(e),
                        }
                    } else {
                        Err(underflow())
                    },
                }
            }
        },
    }
}

/// The value of a text field at the front of `s`: the bytes it takes, or
/// the fault.
pub open spec fn text_fault(s: Seq<u8>, wire: nat) -> Result<nat, Seq<char>> {
    if wire != 2 {
        Err("invalid wire type: "@ + wire_name(wire) + " (expected LengthDelimited)"@)
    } else {
        match read_varint_spec(s) {
            None => Err(bad_varint()),
            Some((l, n)) => if l > s.len() - n {
                Err(underflow())
            } else if !valid_utf8(s.subrange(n as int, n + l)) {
                Err("invalid string value: data is not UTF-8 encoded"@)
            } else {
                Ok((n + l) as nat)
            },
        }
    }
}

/// The value of a double field at the front of `s`: the bytes it takes, or
/// the fault.
pub open spec fn double_fault(s: Seq<u8>, wire: nat) -> Result<nat, Seq<char>> {
    if wire != 1 {
        Err("invalid wire type: "@ + wire_name(wire) + " (expected SixtyFourBit)"@)
    } else if s.len() < 8 {
        Err(underflow())
    } else {
        Ok(8nat)
    }
}

/// A fault inside a known field, named after the record and the field.
pub open spec fn in_field(k: RecordKind, tag: u64, r: Result<nat, Seq<char>>) -> Result<nat, Seq<char>> {
    match r {
        Ok(n) => Ok(n),
        Err(e) => Err(record_name(k) + "."@ + field_name(k, tag) + ": "@ + e),
    }
}

/// The value of field `tag` of a record `k` at the front of `s`: the bytes
/// it takes, or the fault. Unknown fields are skipped with the nesting
/// left inside a record.
pub open spec fn field_fault(k: RecordKind, tag: u64, wire: nat, s: Seq<u8>) -> Result<nat, Seq<char>> {
    match field_kind(k, tag) {
        FieldKind::Text => in_field(k, tag, text_fault(s, wire)),
        FieldKind::Double => in_field(k, tag, double_fault(s, wire)),
        FieldKind::Unknown => skip_fault(s, wire, tag, 99),
    }
}

/// Reads the fields of a record `k` from the front of `s` while more than
/// `limit` bytes are left; then exactly `limit` must be left.
pub open spec fn fields_fault(k: RecordKind, s: Seq<u8>, limit: nat) -> Result<(), Seq<char>>
    decreases s.len(),
{
    if s.len() <= limit {
        if s.len() == limit { Ok(()) } else { Err("delimited length exceeded"@) }
    } else {
        match key_fault(s) {
            Err(e) => Err(e),
            Ok((t, w, n1)) => {
                proof {
                    lemma_parse_len(s);
                }
                match field_fault(k, t, w, s.skip(n1 as int)) {
                    Err(e) => Err(e),
                    Ok(n2) => if n1 + n2 <= s.len() {
                        fields_fault(k, s.skip((n1 + n2) as int), limit)
                    } else {
                        Err(underflow())
                    },
                }
            },
        }
    }
}

/// Reads a length-delimited record `k` from the front of `s`: `Ok` where
/// it decodes, else the fault.
pub open spec fn record_fault(k: RecordKind, s: Seq<u8>) -> Result<(), Seq<char>> {
    match read_varint_spec(s) {
        None => Err(bad_varint()),
        Some((l, n)) => if l > s.len() - n {
            Err(underflow())
        } else {
            fields_fault(k, s.skip(n as int), (s.len() - n - l) as nat)
        },
    }
}

/// How the decoder describes a record `k` at the front of `s` that does
/// not decode.
pub open spec fn fault_description(k: RecordKind, s: Seq<u8>) -> Seq<char> {
    "failed to decode Protobuf message: "@ + match record_fault(k, s) {
        Err(e) => e,
        Ok(()) => Seq::empty(),
    }
}

/// The record `k` at the front of `s` decodes.
pub open spec fn record_decodes(k: RecordKind, s: Seq<u8>) -> bool {
    match k {
        RecordKind::Metadata => read_metadata(s) is Some,
        RecordKind::Playlist => read_playlist(s) is Some,
        RecordKind::EqConfig => read_eq(s) is Some,
    }
}

/// A field value fits what the record `k` expects under field number
/// `tag`.
pub open spec fn field_accepted(k: RecordKind, tag: u64, v: WireValue) -> bool {
    match field_kind(k, tag) {
        FieldKind::Text => v matches WireValue::Bytes(b) && valid_utf8(b),
        FieldKind::Double => v is Fixed64,
        FieldKind::Unknown => true,
    }
}

proof fn lemma_varint_prefix(s: Seq<u8>, l: int)
    requires
        varint_parse(s) matches Some((_, n)) && n <= l <= s.len(),
    ensures
        varint_parse(s.take(l)) == varint_parse(s),
    decreases s.len(),
{
    if s[0] >= 128 {
        lemma_parse_len(s.drop_first());
        assert(s.take(l).drop_first() =~= s.drop_first().take(l - 1));
        lemma_varint_prefix(s.drop_first(), l - 1);
    }
    assert(s.take(l)[0] == s[0]);
}

proof fn lemma_read_varint_prefix(s: Seq<u8>, l: int)
    requires
        read_varint_spec(s) matches Some((_, n)) && n <= l <= s.len(),
    ensures
        read_varint_spec(s.take(l)) == read_varint_spec(s),
{
    lemma_varint_prefix(s, l);
}

proof fn lemma_key_prefix(s: Seq<u8>, l: int)
    requires
        key_fault(s) matches Ok((_, _, n)) && n <= l <= s.len(),
    ensures
        key_fault(s) matches Ok((t, w, n)) && read_key_spec(s.take(l)) == Some((t, w, n)),
{
    lemma_read_varint_prefix(s, l);
}

proof fn lemma_skip_prefix(s: Seq<u8>, wire: nat, tag: u64, count: nat, l: int)
    requires
        skip_fault(s, wire, tag, count) matches Ok(n) && n <= l <= s.len(),
    ensures
        skip_spec(s.take(l), wire, tag, count) == Some(skip_fault(s, wire, tag, count)->Ok_0),
    decreases s.len(), 1nat,
{
    if wire == 0 || wire == 2 {
        lemma_parse_len(s);
        lemma_read_varint_prefix(s, l);
    } else if wire == 3 {
        lemma_group_prefix(s, tag, count, l);
    }
}

proof fn lemma_group_prefix(s: Seq<u8>, tag: u64, count: nat, l: int)
    requires
        group_fault(s, tag, count) matches Ok(n) && n <= l <= s.len(),
    ensures
        group_spec(s.take(l), tag, count) == Some(group_fault(s, tag, count)->Ok_0),
    decreases s.len(), 0nat,
{
    lemma_parse_len(s);
    let (t, w, n1) = key_fault(s)->Ok_0;
    lemma_key_prefix(s, l);
    let p = s.take(l);
    if w != 4 {
        let n2 = skip_fault(s.skip(n1 as int), w, t, (count - 1) as nat)->Ok_0;
        assert(p.skip(n1 as int) =~= s.skip(n1 as int).take(l - n1));
        lemma_skip_prefix(s.skip(n1 as int), w, t, (count - 1) as nat, l - n1);
        assert(p.skip((n1 + n2) as int) =~= s.skip((n1 + n2) as int).take(l - n1 - n2));
        lemma_group_prefix(s.skip((n1 + n2) as int), tag, count, l - n1 - n2);
    }
}

/// A field the fault walk reads whole within the first `l` bytes reads the
/// same from those bytes alone, and fits its record.
proof fn lemma_field_prefix(k: RecordKind, s: Seq<u8>, l: int)
    requires
        key_fault(s) matches Ok((t, w, n1)) && field_fault(k, t, w, s.skip(n1 as int)) matches Ok(n2)
            && n1 + n2 <= l <= s.len(),
    ensures
        key_fault(s) matches Ok((t, w, n1)) && field_fault(k, t, w, s.skip(n1 as int)) matches Ok(n2)
            && parse_field_spec(s.take(l)) matches Some((t2, v, n)) && t2 == t && n == n1 + n2
            && field_accepted(k, t, v),
{
    let (t, w, n1) = key_fault(s)->Ok_0;
    let n2 = field_fault(k, t, w, s.skip(n1 as int))->Ok_0;
    lemma_parse_len(s);
    lemma_key_prefix(s, l);
    let rest = s.skip(n1 as int);
    let p = s.take(l);
    assert(p.skip(n1 as int) =~= rest.take(l - n1));
    lemma_parse_len(rest);
    match field_kind(k, t) {
        FieldKind::Text => {
            lemma_read_varint_prefix(rest, l - n1);
            let (len, n) = read_varint_spec(rest).unwrap();
            assert(rest.take(l - n1).subrange(n as int, n + len) =~= rest.subrange(n as int, n + len));
        },
        FieldKind::Double => {},
        FieldKind::Unknown => {
            if w == 0 || w == 2 {
                lemma_read_varint_prefix(rest, l - n1);
            }
            if w == 3 {
                lemma_skip_prefix(rest, w, t, 99, l - n1);
            }
        },
    }
}

/// Where the fields read cleanly, exactly `limit` bytes were left, so at
/// least that many were there.
proof fn lemma_fields_len(k: RecordKind, s: Seq<u8>, limit: nat)
    requires
        fields_fault(k, s, limit) is Ok,
    ensures
        limit <= s.len(),
{
}

proof fn lemma_metadata_fields_ok(s: Seq<u8>, limit: nat, m: MetadataView)
    requires
        fields_fault(RecordKind::Metadata, s, limit) is Ok,
        limit <= s.len(),
    ensures
        decode_metadata_fields(s.take(s.len() - limit), m) is Some,
    decreases s.len(),
{
    let l = s.len() - limit;
    let body = s.take(l);
    if s.len() > limit {
        let (t, w, n1) = key_fault(s)->Ok_0;
        lemma_parse_len(s);
        let n2 = field_fault(RecordKind::Metadata, t, w, s.skip(n1 as int))->Ok_0;
        let r = s.skip((n1 + n2) as int);
        lemma_fields_len(RecordKind::Metadata, r, limit);
        lemma_field_prefix(RecordKind::Metadata, s, l);
        let (_, v, n) = parse_field_spec(body).unwrap();
        lemma_field_len(body);
        let m2 = apply_metadata_field(m, t, v).unwrap();
        assert(body.skip(n as int) =~= r.take(r.len() - limit));
        lemma_metadata_fields_ok(r, limit, m2);
    }
}

proof fn lemma_playlist_fields_ok(s: Seq<u8>, limit: nat, keys: Seq<Seq<char>>)
    requires
        fields_fault(RecordKind::Playlist, s, limit) is Ok,
        limit <= s.len(),
    ensures
        decode_playlist_fields(s.take(s.len() - limit), keys) is Some,
    decreases s.len(),
{
    let l = s.len() - limit;
    let body = s.take(l);
    if s.len() > limit {
        let (t, w, n1) = key_fault(s)->Ok_0;
        lemma_parse_len(s);
        let n2 = field_fault(RecordKind::Playlist, t, w, s.skip(n1 as int))->Ok_0;
        let r = s.skip((n1 + n2) as int);
        lemma_fields_len(RecordKind::Playlist, r, limit);
        lemma_field_prefix(RecordKind::Playlist, s, l);
        let (_, v, n) = parse_field_spec(body).unwrap();
        lemma_field_len(body);
        let k2 = apply_playlist_field(keys, t, v).unwrap();
        assert(body.skip(n as int) =~= r.take(r.len() - limit));
        lemma_playlist_fields_ok(r, limit, k2);
    }
}

proof fn lemma_eq_fields_ok(s: Seq<u8>, limit: nat, c: EqConfig)
    requires
        fields_fault(RecordKind::EqConfig, s, limit) is Ok,
        limit <= s.len(),
    ensures
        decode_eq_fields(s.take(s.len() - limit), c) is Some,
    decreases s.len(),
{
    let l = s.len() - limit;
    let body = s.take(l);
    if s.len() > limit {
        let (t, w, n1) = key_fault(s)->Ok_0;
        lemma_parse_len(s);
        let n2 = field_fault(RecordKind::EqConfig, t, w, s.skip(n1 as int))->Ok_0;
        let r = s.skip((n1 + n2) as int);
        lemma_fields_len(RecordKind::EqConfig, r, limit);
        lemma_field_prefix(RecordKind::EqConfig, s, l);
        let (_, v, n) = parse_field_spec(body).unwrap();
        lemma_field_len(body);
        let c2 = apply_eq_field(c, t, v).unwrap();
        assert(body.skip(n as int) =~= r.take(r.len() - limit));
        lemma_eq_fields_ok(r, limit, c2);
    }
}

/// A record that does not decode has a fault: the walk that describes
/// faults finds one wherever the decoder refuses.
pub proof fn lemma_undecodable_has_fault(k: RecordKind, s: Seq<u8>)
    requires
        !record_decodes(k, s),
    ensures
        record_fault(k, s) is Err,
{
    if let Some((l, n)) = read_varint_spec(s) {
        lemma_parse_len(s);
        if l <= s.len() - n {
            let r = s.skip(n as int);
            let limit = (s.len() - n - l) as nat;
            if fields_fault(k, r, limit) is Ok {
                assert(r.take(r.len() - limit) =~= s.subrange(n as int, n + l));
                match k {
                    RecordKind::Metadata => lemma_metadata_fields_ok(r, limit, empty_metadata()),
                    RecordKind::Playlist => lemma_playlist_fields_ok(r, limit, Seq::empty()),
                    RecordKind::EqConfig => lemma_eq_fields_ok(r, limit, empty_eq()),
                }
            }
        }
    }
}

fn digit_char(d: u64) -> (c: char)
    requires
        d < 10,
    ensures
        c == digit(d as nat),
{
    if d == 0 { '0' } else if d == 1 { '1' } else if d == 2 { '2' } else if d == 3 { '3' }
    else if d == 4 { '4' } else if d == 5 { '5' } else if d == 6 { '6' } else if d == 7 { '7' }
    else if d == 8 { '8' } else { '9' }
}

/// Appends `n` in decimal.
fn push_decimal(out: &mut String, n: u64)
    ensures
        final(out)@ == old(out)@ + decimal(n as nat),
    decreases n,
{
    if n >= 10 {
        push_decimal(out, n / 10);
    }
    let ghost before = out@;
    push_char(out, digit_char(n % 10));
    proof {
        if n >= 10 {
            assert(out@ =~= old(out)@ + decimal((n / 10) as nat).push(digit((n % 10) as nat)));
        } else {
            assert(out@ =~= old(out)@ + seq![digit(n as nat)]);
        }
    }
}

/// `msg` followed by `n` in decimal.
fn with_number(msg: &str, n: u64) -> (s: String)
    ensures
        s@ == msg@ + decimal(n as nat),
{
    let mut s = string_from_str(msg);
    push_decimal(&mut s, n);
    s
}

fn wire_name_str(w: u64) -> (s: &'static str)
    ensures
        s@ == wire_name(w as nat),
{
    if w == 0 {
        "Varint"
    } else if w == 1 {
        "SixtyFourBit"
    } else if w == 2 {
        "LengthDelimited"
    } else if w == 3 {
        "StartGroup"
    } else if w == 4 {
        "EndGroup"
    } else {
        "ThirtyTwoBit"
    }
}

fn record_name_str(k: RecordKind) -> (s: &'static str)
    ensures
        s@ == record_name(k),
{
    match k {
        RecordKind::Metadata => "Metadata",
        RecordKind::Playlist => "Playlist",
        RecordKind::EqConfig => "EqConfig",
    }
}

fn field_name_str(k: RecordKind, tag: u64) -> (s: &'static str)
    ensures
        s@ == field_name(k, tag),
{
    match k {
        RecordKind::Metadata => if tag == 1 {
            "title"
        } else if tag == 2 {
            "artist"
        } else if tag == 3 {
            "album"
        } else {
            "duration"
        },
        RecordKind::Playlist => "track_keys",
        RecordKind::EqConfig => if tag == 1 {
            "bass"
        } else if tag == 2 {
            "mid"
        } else {
            "treble"
        },
    }
}

/// Reads the key at `pos`: field number, wire type and the position just
/// after it; or the fault.
fn read_key_or_fault(buf: &[u8], pos: usize) -> (res: Result<(u64, u64, usize), String>)
    requires
        pos <= buf@.len(),
    ensures
        match key_fault(buf@.skip(pos as int)) {
            Ok((t, w, n)) => res matches Ok((rt, rw, end)) && rt == t && rw == w && end == pos + n,
            Err(e) => res matches Err(m) && m@ == e,
        },
        res matches Ok((_, _, end)) ==> pos < end <= buf@.len(),
{
    let (key, p1) = match read_varint(buf, pos) {
        Some(r) => r,
        None => return Err(string_from_str("invalid varint")),
    };
    if key > 0xFFFF_FFFF {
        return Err(with_number("invalid key value: ", key));
    }
    if key % 8 >= 6 {
        return Err(with_number("invalid wire type value: ", key % 8));
    }
    if key / 8 == 0 {
        return Err(string_from_str("invalid tag value: 0"));
    }
    Ok((key / 8, key % 8, p1))
}

/// Skips the value at `pos` of a field with wire type `wire` and number
/// `tag`: the position just after it, or the fault.
fn skip_or_fault(buf: &[u8], pos: usize, wire: u64, tag: u64, count: u64) -> (res: Result<usize, String>)
    requires
        pos <= buf@.len(),
    ensures
        match skip_fault(buf@.skip(pos as int), wire as nat, tag, count as nat) {
            Ok(n) => res matches Ok(e) && e == pos + n && e <= buf@.len(),
            Err(m) => res matches Err(r) && r@ == m,
        },
    decreases buf@.len() - pos, 1nat,
{
    let ghost s = buf@.skip(pos as int);
    if count == 0 {
        Err(string_from_str("recursion limit reached"))
    } else if wire == 0 {
        match read_varint(buf, pos) {
            Some((_, end)) => Ok(end),
            None => Err(string_from_str("invalid varint")),
        }
    } else if wire == 1 {
        if buf.len() - pos >= 8 { Ok(pos + 8) } else { Err(string_from_str("buffer underflow")) }
    } else if wire == 2 {
        match read_varint(buf, pos) {
            Some((l, p2)) => if l as u128 <= (buf.len() - p2) as u128 {
                Ok(p2 + l as usize)
            } else {
                Err(string_from_str("buffer underflow"))
            },
            None => Err(string_from_str("invalid varint")),
        }
    } else if wire == 5 {
        if buf.len() - pos >= 4 { Ok(pos + 4) } else { Err(string_from_str("buffer underflow")) }
    } else if wire == 3 {
        skip_group_or_fault(buf, pos, tag, count)
    } else {
        Err(string_from_str("unexpected end group tag"))
    }
}

/// Skips the fields of the group with number `tag` at `pos`, up to and
/// including its end-group key: the position just after it, or the fault.
fn skip_group_or_fault(buf: &[u8], pos: usize, tag: u64, count: u64) -> (res: Result<usize, String>)
    requires
        pos <= buf@.len(),
        count > 0,
    ensures
        match group_fault(buf@.skip(pos as int), tag, count as nat) {
            Ok(n) => res matches Ok(e) && e == pos + n && e <= buf@.len(),
            Err(m) => res matches Err(r) && r@ == m,
        },
    decreases buf@.len() - pos, 0nat,
{
    let ghost s0 = buf@.skip(pos as int);
    let mut p = pos;
    while p < buf.len() || p == buf.len()
        invariant
            pos <= p <= buf@.len(),
            count > 0,
            s0 == buf@.skip(pos as int),
            group_fault(s0, tag, count as nat) == match group_fault(buf@.skip(p as int), tag, count as nat) {
                Ok(n) => Ok((p - pos + n) as nat),
                Err(e) => Err::<nat, Seq<char>>(e),
            },
        decreases buf@.len() - p,
    {
        let ghost s = buf@.skip(p as int);
        proof {
            lemma_parse_len(s);
        }
        let (t, w, p1) = match read_key_or_fault(buf, p) {
            Ok(r) => r,
            Err(e) => return Err(e),
        };
        proof {
            assert(s.skip(p1 - p) =~= buf@.skip(p1 as int));
        }
        if w == 4 {
            if t == tag {
                return Ok(p1);
            } else {
                return Err(string_from_str("unexpected end group tag"));
            }
        }
        let p2 = match skip_or_fault(buf, p1, w, t, count - 1) {
            Ok(e) => e,
            Err(e) => return Err(e),
        };
        proof {
            assert(s.skip(p2 - p) =~= buf@.skip(p2 as int));
        }
        p = p2;
    }
    Err(string_from_str("buffer underflow"))
}

/// The value of a text field at `pos`: the position just after it, or the
/// fault.
fn text_or_fault(buf: &[u8], pos: usize, wire: u64) -> (res: Result<usize, String>)
    requires
        pos <= buf@.len(),
    ensures
        match text_fault(buf@.skip(pos as int), wire as nat) {
            Ok(n) => res matches Ok(e) && e == pos + n && e <= buf@.len(),
            Err(m) => res matches Err(r) && r@ == m,
        },
{
    let ghost s = buf@.skip(pos as int);
    if wire != 2 {
        let m = string_from_str("invalid wire type: ").concat(wire_name_str(wire)).concat(
            " (expected LengthDelimited)",
        );
        return Err(m);
    }
    let (l, p2) = match read_varint(buf, pos) {
        Some(r) => r,
        None => return Err(string_from_str("invalid varint")),
    };
    if l as u128 > (buf.len() - p2) as u128 {
        return Err(string_from_str("buffer underflow"));
    }
    let end = p2 + l as usize;
    proof {
        assert(s.subrange(p2 - pos, end - pos) =~= buf@.subrange(p2 as int, end as int));
    }
    match text_from_bytes(vstd::slice::slice_subrange(buf, p2, end)) {
        Some(_) => Ok(end),
        None => Err(string_from_str("invalid string value: data is not UTF-8 encoded")),
    }
}

/// The value of a double field at `pos`: the position just after it, or
/// the fault.
fn double_or_fault(buf: &[u8], pos: usize, wire: u64) -> (res: Result<usize, String>)
    requires
        pos <= buf@.len(),
    ensures
        match double_fault(buf@.skip(pos as int), wire as nat) {
            Ok(n) => res matches Ok(e) && e == pos + n && e <= buf@.len(),
            Err(m) => res matches Err(r) && r@ == m,
        },
{
    if wire != 1 {
        let m = string_from_str("invalid wire type: ").concat(wire_name_str(wire)).concat(
            " (expected SixtyFourBit)",
        );
        return Err(m);
    }
    if buf.len() - pos < 8 {
        return Err(string_from_str("buffer underflow"));
    }
    Ok(pos + 8)
}

/// The value at `pos` of field `tag` of a record `k`: the position just
/// after it, or the fault.
fn field_or_fault(k: RecordKind, tag: u64, wire: u64, buf: &[u8], pos: usize) -> (res: Result<usize, String>)
    requires
        pos <= buf@.len(),
    ensures
        match field_fault(k, tag, wire as nat, buf@.skip(pos as int)) {
            Ok(n) => res matches Ok(e) && e == pos + n && e <= buf@.len(),
            Err(m) => res matches Err(r) && r@ == m,
        },
{
    let known = match k {
        RecordKind::Metadata => 1 <= tag && tag <= 4,
        RecordKind::Playlist => tag == 1,
        RecordKind::EqConfig => 1 <= tag && tag <= 3,
    };
    if !known {
        return skip_or_fault(buf, pos, wire, tag, 99);
    }
    let is_text = match k {
        RecordKind::Metadata => tag <= 3,
        RecordKind::Playlist => true,
        RecordKind::EqConfig => false,
    };
    let r = if is_text {
        text_or_fault(buf, pos, wire)
    } else {
        double_or_fault(buf, pos, wire)
    };
    match r {
        Ok(e) => Ok(e),
        Err(e) => {
            let m = string_from_str(record_name_str(k)).concat(".").concat(
                field_name_str(k, tag),
            ).concat(": ").concat(e.as_str());
            Err(m)
        },
    }
}

/// Reads the fields of a record `k` from `pos` while more than `limit`
/// bytes are left; `Ok` where then exactly `limit` are left, else the
/// fault.
fn fields_or_fault(k: RecordKind, buf: &[u8], pos: usize, limit: usize) -> (res: Result<(), String>)
    requires
        pos <= buf@.len(),
    ensures
        match fields_fault(k, buf@.skip(pos as int), limit as nat) {
            Ok(()) => res is Ok,
            Err(m) => res matches Err(r) && r@ == m,
        },
{
    let ghost s0 = buf@.skip(pos as int);
    let mut p = pos;
    loop
        invariant
            pos <= p <= buf@.len(),
            s0 == buf@.skip(pos as int),
            fields_fault(k, s0, limit as nat) == fields_fault(k, buf@.skip(p as int), limit as nat),
        decreases buf@.len() - p,
    {
        let ghost s = buf@.skip(p as int);
        let left = buf.len() - p;
        if left <= limit {
            if left == limit {
                return Ok(());
            } else {
                return Err(string_from_str("delimited length exceeded"));
            }
        }
        proof {
            lemma_parse_len(s);
        }
        let (t, w, p1) = match read_key_or_fault(buf, p) {
            Ok(r) => r,
            Err(e) => return Err(e),
        };
        proof {
            assert(s.skip(p1 - p) =~= buf@.skip(p1 as int));
        }
        let p2 = match field_or_fault(k, t, w, buf, p1) {
            Ok(e) => e,
            Err(e) => return Err(e),
        };
        proof {
            assert(s.skip(p2 - p) =~= buf@.skip(p2 as int));
        }
        p = p2;
    }
}

/// Why the length-delimited record `k` at the front of `buf` does not
/// decode, as the decoder describes it; `None` where it decodes.
pub fn record_fault_text(k: RecordKind, buf: &[u8]) -> (res: Option<String>)
    ensures
        match record_fault(k, buf@) {
            Ok(()) => res is None,
            Err(_) => res matches Some(m) && m@ == fault_description(k, buf@),
        },
{
    let r = match read_varint(buf, 0) {
        None => Err(string_from_str("invalid varint")),
        Some((l, p)) => if l as u128 > (buf.len() - p) as u128 {
            Err(string_from_str("buffer underflow"))
        } else {
            proof {
                assert(buf@.skip(0) =~= buf@);
            }
            fields_or_fault(k, buf, p, buf.len() - p - l as usize)
        },
    };
    proof {
        assert(buf@.skip(0) =~= buf@);
    }
    match r {
        Ok(()) => None,
        Err(e) => Some(string_from_str("failed to decode Protobuf message: ").concat(e.as_str())),
    }
}

} // verus!
