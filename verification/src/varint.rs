//! Base-128 variable-length integers, as protobuf writes them: seven bits
//! per byte, least significant group first, high bit set on every byte but
//! the last.

use vstd::prelude::*;

verus! {

/// The bytes that encode `v`.
pub open spec fn varint_bytes(v: nat) -> Seq<u8>
    decreases v,
{
    if v < 128 {
        seq![v as u8]
    } else {
        seq![((v % 128) + 128) as u8] + varint_bytes(v / 128)
    }
}

/// Reads a varint of any length from the front of `s`: its value and the
/// number of bytes it takes, or `None` when `s` ends before the last byte.
pub open spec fn varint_parse(s: Seq<u8>) -> Option<(nat, nat)>
    decreases s.len(),
{
    if s.len() == 0 {
        None
    } else if s[0] < 128 {
        Some((s[0] as nat, 1nat))
    } else {
        match varint_parse(s.drop_first()) {
            Some((v, n)) => Some((((s[0] - 128) + 128 * v) as nat, n + 1)),
            None => None,
        }
    }
}

/// A varint as a reader accepts it: at most ten bytes, and a value that
/// fits in 64 bits.
pub open spec fn read_varint_spec(s: Seq<u8>) -> Option<(u64, nat)> {
    match varint_parse(s) {
        Some((v, n)) => if n <= 10 && v <= u64::MAX {
            Some((v as u64, n))
        } else {
            None
        },
        None => None,
    }
}

/// Appends the varint encoding of `value` to `buf`.
pub fn write_varint(buf: &mut Vec<u8>, value: u64)
    ensures
        final(buf)@ == old(buf)@ + varint_bytes(value as nat),
{
    let mut v = value;
    while v >= 128
        invariant
            buf@ + varint_bytes(v as nat) == old(buf)@ + varint_bytes(value as nat),
        decreases v,
    {
        let byte: u8 = ((v % 128) + 128) as u8;
        proof {
            assert(varint_bytes(v as nat) == seq![byte] + varint_bytes((v / 128) as nat));
            assert(buf@.push(byte) + varint_bytes((v / 128) as nat) == buf@ + (seq![byte]
                + varint_bytes((v / 128) as nat)));
        }
        buf.push(byte);
        v = v / 128;
    }
    proof {
        assert(varint_bytes(v as nat) == seq![v as u8]);
    }
    buf.push(v as u8);
}


/// A varint lies inside the bytes it is read from.
pub proof fn lemma_parse_len(s: Seq<u8>)
    ensures
        varint_parse(s) matches Some((_, n)) ==> 1 <= n <= s.len(),
        read_varint_spec(s) matches Some((_, n)) ==> 1 <= n <= s.len(),
    decreases s.len(),
{
    if s.len() > 0 && s[0] >= 128 {
        lemma_parse_len(s.drop_first());
    }
}

/// The encoding `varint_bytes` writes is the shortest: any varint that
/// reads as `v` takes at least as many bytes.
pub proof fn lemma_varint_shortest(s: Seq<u8>)
    ensures
        varint_parse(s) matches Some((v, n)) ==> varint_bytes(v).len() <= n,
    decreases s.len(),
{
    if s.len() > 0 && s[0] >= 128 {
        lemma_varint_shortest(s.drop_first());
        if let Some((v, n)) = varint_parse(s) {
            let (w, m) = varint_parse(s.drop_first()).unwrap();
            assert(v == (s[0] - 128) + 128 * w);
            if v >= 128 {
                assert(v / 128 == w) by (nonlinear_arith)
                    requires v == (s[0] - 128) + 128 * w, 128 <= s[0] < 256;
            }
        }
    }
}

/// Unfolds one continuation byte of a varint that starts at `i`.
proof fn lemma_parse_step(s: Seq<u8>, i: int)
    requires
        0 <= i < s.len(),
        s[i] >= 128,
    ensures
        varint_parse(s.skip(i)) == match varint_parse(s.skip(i + 1)) {
            Some((v, n)) => Some((((s[i] - 128) + 128 * v) as nat, n + 1)),
            None => None::<(nat, nat)>,
        },
{
    assert(s.skip(i).drop_first() =~= s.skip(i + 1));
}

/// Value and length of the varint at `i`, given the value `acc` of the
/// groups already read, each later group weighing `mult`.
spec fn compose(acc: nat, mult: nat, i: nat, rest: Option<(nat, nat)>) -> Option<(nat, nat)> {
    match rest {
        Some((v, n)) => Some((acc + mult * v, i + n)),
        None => None,
    }
}

proof fn lemma_compose_step(acc: nat, mult: nat, b: nat, i: nat, rest: Option<(nat, nat)>)
    requires
        128 <= b < 256,
    ensures
        compose(acc, mult, i, match rest {
            Some((v, n)) => Some((((b - 128) + 128 * v) as nat, n + 1)),
            None => None::<(nat, nat)>,
        }) == compose((acc + mult * (b - 128)) as nat, mult * 128, i + 1, rest),
{
    match rest {
        Some((v, n)) => {
            assert(acc + mult * ((b - 128) + 128 * v) == (acc + mult * (b - 128)) + (mult * 128)
                * v) by (nonlinear_arith);
        },
        None => {},
    }
}

/// Reads the varint that starts at `pos` in `buf`. Returns its value and
/// the position just after it, or `None` where `read_varint_spec` rejects
/// the bytes from `pos` on.
pub fn read_varint(buf: &[u8], pos: usize) -> (res: Option<(u64, usize)>)
    requires
        pos <= buf@.len(),
    ensures
        match read_varint_spec(buf@.skip(pos as int)) {
            Some((v, n)) => res matches Some((r, end)) && r == v && end == pos + n,
            None => res is None,
        },
        res matches Some((_, end)) ==> pos < end <= buf@.len(),
{
    proof {
        lemma_parse_len(buf@.skip(pos as int));
    }
    let ghost s = buf@.skip(pos as int);
    let mut acc: u128 = 0;
    let mut mult: u128 = 1;
    let mut i: usize = 0;
    proof {
        assert(s.skip(0) =~= s);
    }
    while i < 10
        invariant
            s == buf@.skip(pos as int),
            pos <= buf@.len(),
            i <= 10,
            pos + i <= buf@.len(),
            mult == pow128(i as nat),
            acc < mult,
            varint_parse(s) == compose(acc as nat, mult as nat, i as nat, varint_parse(s.skip(i as int))),
        decreases 10 - i,
    {
        if i >= buf.len() - pos {
            proof {
                assert(s.skip(i as int).len() == 0);
            }
            return None;
        }
        let b = buf[pos + i];
        proof {
            assert(s[i as int] == b);
            lemma_pow128_bound(i as nat);
        }
        if b < 128 {
            proof {
                assert(s.skip(i as int)[0] == b);
                assert(varint_parse(s.skip(i as int)) == Some((b as nat, 1nat)));
                assert(acc + mult * (b as nat) < mult * 128) by (nonlinear_arith)
                    requires acc < mult, b < 128;
                lemma_pow128_bound((i + 1) as nat);
            }
            let value: u128 = acc + mult * (b as u128);
            if value > u64::MAX as u128 {
                return None;
            }
            return Some((value as u64, pos + i + 1));
        }
        proof {
            lemma_parse_step(s, i as int);
            lemma_compose_step(acc as nat, mult as nat, b as nat, i as nat, varint_parse(s.skip(i as int + 1)));
            assert(acc + mult * ((b - 128) as nat) < mult * 128) by (nonlinear_arith)
                requires acc < mult, b < 256, b >= 128;
            lemma_pow128_bound((i + 1) as nat);
        }
        acc = acc + mult * ((b - 128) as u128);
        mult = mult * 128;
        i = i + 1;
    }
    None
}

/// `128` to the power `i`.
spec fn pow128(i: nat) -> nat
    decreases i,
{
    if i == 0 { 1 } else { 128 * pow128((i - 1) as nat) }
}

proof fn lemma_pow128_bound(i: nat)
    requires
        i <= 10,
    ensures
        pow128(i) <= pow128(10),
        pow128(10) == 0x4000_0000_0000_0000_00u128,
        i > 0 ==> pow128(i) == 128 * pow128((i - 1) as nat),
    decreases 10 - i,
{
    reveal_with_fuel(pow128, 11);
    if i < 10 {
        lemma_pow128_bound((i + 1) as nat);
    }
}


proof fn lemma_parse_encoding(v: nat, rest: Seq<u8>)
    ensures
        varint_parse(varint_bytes(v) + rest) == Some((v, varint_bytes(v).len())),
    decreases v,
{
    let e = varint_bytes(v) + rest;
    if v < 128 {
        assert(e[0] == v as u8);
    } else {
        lemma_parse_encoding(v / 128, rest);
        assert(e.drop_first() =~= varint_bytes(v / 128) + rest);
        assert(e[0] == ((v % 128) + 128) as u8);
        assert((v % 128) + 128 * (v / 128) == v) by (nonlinear_arith);
    }
}

proof fn lemma_encoding_len(v: nat, k: nat)
    requires
        1 <= k,
        v < pow128(k),
    ensures
        1 <= varint_bytes(v).len() <= k,
    decreases v,
{
    if v >= 128 {
        assert(k > 1) by {
            if k == 1 {
                reveal_with_fuel(pow128, 2);
            }
        }
        assert(v / 128 < pow128((k - 1) as nat)) by (nonlinear_arith)
            requires v < 128 * pow128((k - 1) as nat);
        lemma_encoding_len(v / 128, (k - 1) as nat);
    }
}

/// Reading back what `write_varint` wrote gives the value and the number
/// of bytes written, whatever follows.
pub proof fn lemma_varint_roundtrip(v: u64, rest: Seq<u8>)
    ensures
        read_varint_spec(varint_bytes(v as nat) + rest) == Some((v, varint_bytes(v as nat).len())),
        1 <= varint_bytes(v as nat).len() <= 10,
{
    lemma_parse_encoding(v as nat, rest);
    lemma_pow128_bound(10);
    lemma_encoding_len(v as nat, 10);
}

} // verus!
