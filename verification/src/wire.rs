//! Protobuf wire format at the level of single fields: a key (field number
//! and wire type) followed by a varint, a fixed 64-bit or 32-bit word, a
//! length-delimited run of bytes, or a group of fields closed by an
//! end-group key with the same field number.

use vstd::bytes::*;
use vstd::prelude::*;

use crate::varint::{
    lemma_parse_len, lemma_varint_roundtrip, read_varint, read_varint_spec, varint_bytes, write_varint,
};

verus! {

/// What one field carries, as the spec sees it. A group is skipped whole
/// and carries nothing.
pub enum WireValue {
    Varint(u64),
    Fixed64(u64),
    Fixed32(u32),
    Bytes(Seq<u8>),
    Group,
}

/// Protobuf's wire types.
pub open spec fn wire_varint() -> nat { 0 }
pub open spec fn wire_fixed64() -> nat { 1 }
pub open spec fn wire_bytes() -> nat { 2 }
pub open spec fn wire_start_group() -> nat { 3 }
pub open spec fn wire_end_group() -> nat { 4 }
pub open spec fn wire_fixed32() -> nat { 5 }

/// How deep groups may nest inside the fields of a length-delimited
/// message: a field inside that many groups is refused.
pub open spec fn nesting_budget() -> nat { 99 }

/// A field key at the front of `s`: field number, wire type, and bytes
/// taken. A key above `u32::MAX`, wire type 6 or 7, or field number 0 gives
/// `None`.
pub open spec fn read_key_spec(s: Seq<u8>) -> Option<(u64, nat, nat)> {
    match read_varint_spec(s) {
        Some((key, n)) => if key > u32::MAX || key % 8 >= 6 || key / 8 == 0 {
            None
        } else {
            Some(((key / 8) as u64, (key % 8) as nat, n))
        },
        None => None,
    }
}

/// Skips the value of a field with wire type `wire` and number `tag` at the
/// front of `s` (its key already read), with `budget` levels of nesting
/// left: the number of bytes the value takes. A group runs to the end-group
/// key with its own number; an end-group key here, or no budget left, gives
/// `None`.
pub open spec fn skip_spec(s: Seq<u8>, wire: nat, tag: u64, budget: nat) -> Option<nat>
    decreases s.len(), 1nat,
{
    if budget == 0 {
        None
    } else if wire == wire_varint() {
        match read_varint_spec(s) {
            Some((_, n)) => Some(n),
            None => None,
        }
    } else if wire == wire_fixed64() {
        if s.len() >= 8 { Some(8nat) } else { None }
    } else if wire == wire_bytes() {
        match read_varint_spec(s) {
            Some((l, n)) => if n + l <= s.len() { Some((n + l) as nat) } else { None },
            None => None,
        }
    } else if wire == wire_fixed32() {
        if s.len() >= 4 { Some(4nat) } else { None }
    } else if wire == wire_start_group() {
        group_spec(s, tag, budget)
    } else {
        None
    }
}

/// The fields of a group with number `tag`, up to and including its
/// end-group key: the number of bytes they take.
pub open spec fn group_spec(s: Seq<u8>, tag: u64, budget: nat) -> Option<nat>
    decreases s.len(), 0nat,
{
    match read_key_spec(s) {
        None => None,
        Some((t, w, n1)) => {
            proof {
                lemma_parse_len(s);
            }
            if w == wire_end_group() {
                if t == tag { Some(n1) } else { None }
            } else {
                match skip_spec(s.skip(n1 as int), w, t, (budget - 1) as nat) {
                    None => None,
                    Some(n2) => if n1 + n2 <= s.len() {
                        match group_spec(s.skip((n1 + n2) as int), tag, budget) {
                            Some(n3) => Some(n1 + n2 + n3),
                            None => None,
                        }
                    } else {
                        None
                    },
                }
            }
        },
    }
}

/// Reads one field from the front of `s`: its field number, what it
/// carries, and how many bytes it takes; `None` where the key is refused,
/// the field runs past the end of `s`, or it is an end-group key.
pub open spec fn parse_field_spec(s: Seq<u8>) -> Option<(u64, WireValue, nat)> {
    match read_key_spec(s) {
        None => None,
        Some((tag, wire, n1)) => {
            let rest = s.skip(n1 as int);
            if wire == wire_varint() {
                match read_varint_spec(rest) {
                    Some((v, n2)) => Some((tag, WireValue::Varint(v), n1 + n2)),
                    None => None,
                }
            } else if wire == wire_fixed64() {
                if rest.len() >= 8 {
                    Some((tag, WireValue::Fixed64(spec_u64_from_le_bytes(rest.take(8))), n1 + 8))
                } else {
                    None
                }
            } else if wire == wire_bytes() {
                match read_varint_spec(rest) {
                    Some((l, n2)) => if n2 + l <= rest.len() {
                        Some(
                            (
                                tag,
                                WireValue::Bytes(rest.subrange(n2 as int, n2 + l)),
                                (n1 + n2 + l) as nat,
                            ),
                        )
                    } else {
                        None
                    },
                    None => None,
                }
            } else if wire == wire_fixed32() {
                if rest.len() >= 4 {
                    Some((tag, WireValue::Fixed32(spec_u32_from_le_bytes(rest.take(4))), n1 + 4))
                } else {
                    None
                }
            } else if wire == wire_start_group() {
                match skip_spec(rest, wire, tag, nesting_budget()) {
                    Some(n2) => Some((tag, WireValue::Group, n1 + n2)),
                    None => None,
                }
            } else {
                None
            }
        },
    }
}

/// A skipped value lies inside what it is read from.
pub proof fn lemma_skip_len(s: Seq<u8>, wire: nat, tag: u64, budget: nat)
    ensures
        skip_spec(s, wire, tag, budget) matches Some(n) ==> n <= s.len(),
    decreases s.len(), 1nat,
{
    lemma_parse_len(s);
    if budget > 0 && wire == wire_start_group() {
        lemma_group_len(s, tag, budget);
    }
}

/// A skipped group lies inside what it is read from.
pub proof fn lemma_group_len(s: Seq<u8>, tag: u64, budget: nat)
    ensures
        group_spec(s, tag, budget) matches Some(n) ==> 1 <= n <= s.len(),
    decreases s.len(), 0nat,
{
    lemma_parse_len(s);
    if let Some((t, w, n1)) = read_key_spec(s) {
        if w != wire_end_group() {
            if let Some(n2) = skip_spec(s.skip(n1 as int), w, t, (budget - 1) as nat) {
                if n1 + n2 <= s.len() {
                    lemma_group_len(s.skip((n1 + n2) as int), tag, budget);
                }
            }
        }
    }
}

/// The bytes of a length-delimited field.
pub open spec fn bytes_field(tag: nat, b: Seq<u8>) -> Seq<u8> {
    varint_bytes(tag * 8 + 2) + varint_bytes(b.len()) + b
}

/// The bytes of a fixed 64-bit field.
pub open spec fn fixed64_field(tag: nat, v: u64) -> Seq<u8> {
    varint_bytes(tag * 8 + 1) + spec_u64_to_le_bytes(v)
}

/// A field as `read_field` hands it out; `Bytes` holds the bounds of the
/// run inside the buffer that was read.
pub enum Field {
    Varint(u64),
    Fixed64(u64),
    Fixed32(u32),
    Bytes(usize, usize),
    Group,
}

impl Field {
    /// What the field carries, read from `buf`.
    pub open spec fn value(self, buf: Seq<u8>) -> WireValue {
        match self {
            Field::Varint(v) => WireValue::Varint(v),
            Field::Fixed64(v) => WireValue::Fixed64(v),
            Field::Fixed32(v) => WireValue::Fixed32(v),
            Field::Bytes(a, b) => WireValue::Bytes(buf.subrange(a as int, b as int)),
            Field::Group => WireValue::Group,
        }
    }

    pub open spec fn within(self, len: nat) -> bool {
        match self {
            Field::Bytes(a, b) => a <= b <= len,
            _ => true,
        }
    }
}

/// Appends `bytes` to `buf`.
pub fn append_bytes(buf: &mut Vec<u8>, bytes: &[u8])
    ensures
        final(buf)@ == old(buf)@ + bytes@,
{
    let mut i: usize = 0;
    while i < bytes.len()
        invariant
            i <= bytes@.len(),
            buf@ == old(buf)@ + bytes@.take(i as int),
        decreases bytes@.len() - i,
    {
        proof {
            assert(bytes@.take(i as int + 1) =~= bytes@.take(i as int).push(bytes@[i as int]));
        }
        buf.push(bytes[i]);
        i = i + 1;
    }
    proof {
        assert(bytes@.take(i as int) =~= bytes@);
    }
}

/// Appends a length-delimited field with number `tag`.
pub fn write_bytes_field(buf: &mut Vec<u8>, tag: u64, bytes: &[u8])
    requires
        tag < 0x2000_0000,
    ensures
        final(buf)@ == old(buf)@ + bytes_field(tag as nat, bytes@),
{
    write_varint(buf, tag * 8 + 2);
    write_varint(buf, bytes.len() as u64);
    append_bytes(buf, bytes);
    proof {
        assert(final(buf)@ =~= old(buf)@ + bytes_field(tag as nat, bytes@));
    }
}

/// Appends a fixed 64-bit field with number `tag`.
pub fn write_fixed64_field(buf: &mut Vec<u8>, tag: u64, v: u64)
    requires
        tag < 0x2000_0000,
    ensures
        final(buf)@ == old(buf)@ + fixed64_field(tag as nat, v),
{
    write_varint(buf, tag * 8 + 1);
    let le = u64_to_le_bytes(v);
    append_bytes(buf, le.as_slice());
    proof {
        assert(final(buf)@ =~= old(buf)@ + fixed64_field(tag as nat, v));
    }
}

/// Reads the key at `pos`: field number, wire type, and the position just
/// after it.
pub fn read_key(buf: &[u8], pos: usize) -> (res: Option<(u64, u64, usize)>)
    requires
        pos <= buf@.len(),
    ensures
        match read_key_spec(buf@.skip(pos as int)) {
            Some((t, w, n)) => res matches Some((rt, rw, end)) && rt == t && rw == w && end == pos + n,
            None => res is None,
        },
        res matches Some((_, _, end)) ==> pos < end <= buf@.len(),
{
    let (key, p1) = match read_varint(buf, pos) {
        Some(r) => r,
        None => return None,
    };
    if key > 0xFFFF_FFFF || key % 8 >= 6 || key / 8 == 0 {
        return None;
    }
    Some((key / 8, key % 8, p1))
}

/// Skips the value at `pos` of a field with wire type `wire` and number
/// `tag`, its key already read: the position just after the value.
pub fn skip_value(buf: &[u8], pos: usize, wire: u64, tag: u64, budget: u64) -> (res: Option<usize>)
    requires
        pos <= buf@.len(),
    ensures
        match skip_spec(buf@.skip(pos as int), wire as nat, tag, budget as nat) {
            Some(n) => res matches Some(e) && e == pos + n && e <= buf@.len(),
            None => res is None,
        },
    decreases buf@.len() - pos, 1nat,
{
    let ghost s = buf@.skip(pos as int);
    proof {
        lemma_skip_len(s, wire as nat, tag, budget as nat);
    }
    if budget == 0 {
        None
    } else if wire == 0 {
        match read_varint(buf, pos) {
            Some((_, end)) => Some(end),
            None => None,
        }
    } else if wire == 1 {
        if buf.len() - pos >= 8 { Some(pos + 8) } else { None }
    } else if wire == 2 {
        match read_varint(buf, pos) {
            Some((l, p2)) => if l as u128 <= (buf.len() - p2) as u128 {
                Some(p2 + l as usize)
            } else {
                None
            },
            None => None,
        }
    } else if wire == 5 {
        if buf.len() - pos >= 4 { Some(pos + 4) } else { None }
    } else if wire == 3 {
        skip_group(buf, pos, tag, budget)
    } else {
        None
    }
}

/// Skips the fields of the group with number `tag` at `pos`, up to and
/// including its end-group key: the position just after that key.
pub fn skip_group(buf: &[u8], pos: usize, tag: u64, budget: u64) -> (res: Option<usize>)
    requires
        pos <= buf@.len(),
        budget > 0,
    ensures
        match group_spec(buf@.skip(pos as int), tag, budget as nat) {
            Some(n) => res matches Some(e) && e == pos + n && e <= buf@.len(),
            None => res is None,
        },
    decreases buf@.len() - pos, 0nat,
{
    let ghost s0 = buf@.skip(pos as int);
    proof {
        lemma_group_len(s0, tag, budget as nat);
    }
    let mut p = pos;
    while p < buf.len() || p == buf.len()
        invariant
            pos <= p <= buf@.len(),
            budget > 0,
            s0 == buf@.skip(pos as int),
            group_spec(s0, tag, budget as nat) == match group_spec(buf@.skip(p as int), tag, budget as nat) {
                Some(n) => Some((p - pos + n) as nat),
                None => None::<nat>,
            },
        decreases buf@.len() - p,
    {
        let ghost s = buf@.skip(p as int);
        proof {
            lemma_parse_len(s);
        }
        let (t, w, p1) = match read_key(buf, p) {
            Some(r) => r,
            None => return None,
        };
        proof {
            assert(s.skip(p1 - p) =~= buf@.skip(p1 as int));
        }
        if w == 4 {
            if t == tag {
                return Some(p1);
            } else {
                return None;
            }
        }
        let p2 = match skip_value(buf, p1, w, t, budget - 1) {
            Some(e) => e,
            None => return None,
        };
        proof {
            assert(s.skip(p2 - p) =~= buf@.skip(p2 as int));
        }
        p = p2;
    }
    None
}

/// Reads the field that starts at `pos`: its number, the field, and the
/// position just after it.
pub fn read_field(buf: &[u8], pos: usize) -> (res: Option<(u64, Field, usize)>)
    requires
        pos <= buf@.len(),
    ensures
        match parse_field_spec(buf@.skip(pos as int)) {
            Some((tag, v, n)) => res matches Some((t, f, end)) && t == tag && end == pos + n
                && f.within(buf@.len()) && f.value(buf@) == v,
            None => res is None,
        },
{
    let ghost s = buf@.skip(pos as int);
    let (tag, wire, p1) = match read_key(buf, pos) {
        Some(r) => r,
        None => return None,
    };
    let ghost rest = s.skip(p1 - pos);
    proof {
        assert(rest =~= buf@.skip(p1 as int));
        lemma_parse_len(rest);
    }
    if wire == 0 {
        match read_varint(buf, p1) {
            Some((v, p2)) => Some((tag, Field::Varint(v), p2)),
            None => None,
        }
    } else if wire == 1 {
        if buf.len() - p1 >= 8 {
            let word = vstd::slice::slice_subrange(buf, p1, p1 + 8);
            let v = u64_from_le_bytes(word);
            proof {
                assert(word@ =~= rest.take(8));
            }
            Some((tag, Field::Fixed64(v), p1 + 8))
        } else {
            None
        }
    } else if wire == 2 {
        match read_varint(buf, p1) {
            Some((l, p2)) => {
                if l as u128 <= (buf.len() - p2) as u128 {
                    let end = p2 + l as usize;
                    proof {
                        assert(buf@.subrange(p2 as int, end as int) =~= rest.subrange(
                            (p2 - p1) as int,
                            (p2 - p1) + l,
                        ));
                    }
                    Some((tag, Field::Bytes(p2, end), end))
                } else {
                    None
                }
            },
            None => None,
        }
    } else if wire == 3 {
        match skip_value(buf, p1, 3, tag, 99) {
            Some(end) => Some((tag, Field::Group, end)),
            None => None,
        }
    } else if wire == 5 {
        if buf.len() - p1 >= 4 {
            let word = vstd::slice::slice_subrange(buf, p1, p1 + 4);
            let v = u32_from_le_bytes(word);
            proof {
                assert(word@ =~= rest.take(4));
            }
            Some((tag, Field::Fixed32(v), p1 + 4))
        } else {
            None
        }
    } else {
        None
    }
}


/// A length-delimited field reads back as written, whatever follows it.
pub proof fn lemma_bytes_field_roundtrip(tag: u64, b: Seq<u8>, rest: Seq<u8>)
    requires
        1 <= tag < 0x2000_0000,
        b.len() <= u64::MAX,
    ensures
        parse_field_spec(bytes_field(tag as nat, b) + rest) == Some(
            (tag, WireValue::Bytes(b), bytes_field(tag as nat, b).len()),
        ),
{
    let key = (tag * 8 + 2) as u64;
    let kb = varint_bytes(key as nat);
    let lb = varint_bytes(b.len());
    let s = bytes_field(tag as nat, b) + rest;
    lemma_varint_roundtrip(key, lb + b + rest);
    assert(s =~= kb + (lb + b + rest));
    let r = s.skip(kb.len() as int);
    assert(r =~= lb + (b + rest));
    lemma_varint_roundtrip(b.len() as u64, b + rest);
    assert(r.subrange(lb.len() as int, (lb.len() + b.len()) as int) =~= b);
    assert(key / 8 == tag && key % 8 == 2);
}

/// A fixed 64-bit field reads back as written, whatever follows it.
pub proof fn lemma_fixed64_field_roundtrip(tag: u64, v: u64, rest: Seq<u8>)
    requires
        1 <= tag < 0x2000_0000,
    ensures
        parse_field_spec(fixed64_field(tag as nat, v) + rest) == Some(
            (tag, WireValue::Fixed64(v), fixed64_field(tag as nat, v).len()),
        ),
{
    let key = (tag * 8 + 1) as u64;
    let kb = varint_bytes(key as nat);
    let s = fixed64_field(tag as nat, v) + rest;
    lemma_auto_spec_u64_to_from_le_bytes();
    lemma_varint_roundtrip(key, spec_u64_to_le_bytes(v) + rest);
    assert(s =~= kb + (spec_u64_to_le_bytes(v) + rest));
    let r = s.skip(kb.len() as int);
    assert(r.take(8) =~= spec_u64_to_le_bytes(v));
    assert(key / 8 == tag && key % 8 == 1);
}


/// A field takes at least one byte and lies inside what it is read from.
pub proof fn lemma_field_len(s: Seq<u8>)
    ensures
        parse_field_spec(s) matches Some((_, _, n)) ==> 1 <= n <= s.len(),
{
    lemma_parse_len(s);
    if let Some((tag, wire, n1)) = read_key_spec(s) {
        lemma_parse_len(s.skip(n1 as int));
        lemma_skip_len(s.skip(n1 as int), wire, tag, nesting_budget());
    }
}

} // verus!
