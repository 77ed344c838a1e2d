//! The key-value store behind the library: byte-string keys, byte-string
//! values, entries kept in the order their keys were first written; and
//! the snapshot a store is saved as, each entry in order as its key and
//! then its value, each prefixed with its length as a varint.

use vstd::prelude::*;

use crate::text::string_from_str;
use crate::varint::{
    lemma_parse_len, lemma_varint_roundtrip, read_varint, read_varint_spec, varint_bytes, write_varint,
};
use crate::wire::append_bytes;

verus! {

/// One entry, as the spec sees it: key and value.
pub type EntryView = (Seq<u8>, Seq<u8>);

/// Keys the store accepts: not empty, at most 1024 bytes, no NUL byte and
/// no two slashes in a row.
pub open spec fn valid_key(k: Seq<u8>) -> bool {
    &&& 0 < k.len() <= 1024
    &&& forall|i: int| 0 <= i < k.len() ==> k[i] != 0
    &&& forall|i: int| 0 <= i < k.len() - 1 ==> !(k[i] == 47 && #[trigger] k[i + 1] == 47)
}

/// No key occurs twice.
pub open spec fn distinct_keys(es: Seq<EntryView>) -> bool {
    forall|i: int, j: int| 0 <= i < j < es.len() ==> es[i].0 != es[j].0
}

/// The value stored under `k`.
pub open spec fn lookup(es: Seq<EntryView>, k: Seq<u8>) -> Option<Seq<u8>>
    decreases es.len(),
{
    if es.len() == 0 {
        None
    } else if es.last().0 == k {
        Some(es.last().1)
    } else {
        lookup(es.drop_last(), k)
    }
}

/// The entries after replacing the value of the entry under `k`.
pub open spec fn replace_value(es: Seq<EntryView>, k: Seq<u8>, v: Seq<u8>) -> Seq<EntryView>
    decreases es.len(),
{
    if es.len() == 0 {
        es
    } else if es.last().0 == k {
        es.drop_last().push((k, v))
    } else {
        replace_value(es.drop_last(), k, v).push(es.last())
    }
}

/// The entries after writing `v` under `k`: an existing entry keeps its
/// place, a new one goes last.
pub open spec fn put(es: Seq<EntryView>, k: Seq<u8>, v: Seq<u8>) -> Seq<EntryView> {
    if lookup(es, k) is Some {
        replace_value(es, k, v)
    } else {
        es.push((k, v))
    }
}

/// The entries after removing the one under `k`.
pub open spec fn remove_key(es: Seq<EntryView>, k: Seq<u8>) -> Seq<EntryView>
    decreases es.len(),
{
    if es.len() == 0 {
        es
    } else if es.last().0 == k {
        es.drop_last()
    } else {
        remove_key(es.drop_last(), k).push(es.last())
    }
}

/// `p` is a prefix of `k`.
pub open spec fn has_prefix(k: Seq<u8>, p: Seq<u8>) -> bool {
    p.len() <= k.len() && k.subrange(0, p.len() as int) == p
}

/// The keys that start with `p`, in store order.
pub open spec fn keys_with_prefix(es: Seq<EntryView>, p: Seq<u8>) -> Seq<Seq<u8>>
    decreases es.len(),
{
    if es.len() == 0 {
        Seq::empty()
    } else if has_prefix(es.last().0, p) {
        keys_with_prefix(es.drop_last(), p).push(es.last().0)
    } else {
        keys_with_prefix(es.drop_last(), p)
    }
}

/// The keys among `keys` that start with `p`, in order.
pub open spec fn keys_starting(keys: Seq<Seq<u8>>, p: Seq<u8>) -> Seq<Seq<u8>>
    decreases keys.len(),
{
    if keys.len() == 0 {
        Seq::empty()
    } else if has_prefix(keys.last(), p) {
        keys_starting(keys.drop_last(), p).push(keys.last())
    } else {
        keys_starting(keys.drop_last(), p)
    }
}

/// A byte string prefixed with its length.
pub open spec fn framed(b: Seq<u8>) -> Seq<u8> {
    varint_bytes(b.len()) + b
}

/// The snapshot of a store: each entry, in order, as its framed key and
/// its framed value.
pub open spec fn snapshot_bytes(es: Seq<EntryView>) -> Seq<u8>
    decreases es.len(),
{
    if es.len() == 0 {
        Seq::empty()
    } else {
        framed(es[0].0) + framed(es[0].1) + snapshot_bytes(es.drop_first())
    }
}

/// A framed byte string at the front of `s`: the bytes and how many bytes
/// the frame takes.
pub open spec fn read_framed(s: Seq<u8>) -> Option<(Seq<u8>, nat)> {
    match read_varint_spec(s) {
        Some((l, n)) => if n + l <= s.len() {
            Some((s.subrange(n as int, n + l), (n + l) as nat))
        } else {
            None
        },
        None => None,
    }
}

/// Reads a snapshot, writing each entry into `acc` in turn; `None` where
/// the bytes end inside an entry or a key is not one the store accepts.
pub open spec fn read_snapshot(s: Seq<u8>, acc: Seq<EntryView>) -> Option<Seq<EntryView>>
    decreases s.len(),
{
    if s.len() == 0 {
        Some(acc)
    } else {
        match read_framed(s) {
            None => None,
            Some((k, n1)) => {
                proof {
                    lemma_parse_len(s);
                }
                match read_framed(s.skip(n1 as int)) {
                    None => None,
                    Some((v, n2)) => {
                        proof {
                            lemma_parse_len(s.skip(n1 as int));
                        }
                        if valid_key(k) && n1 + n2 <= s.len() {
                            read_snapshot(s.skip((n1 + n2) as int), put(acc, k, v))
                        } else {
                            None
                        }
                    },
                }
            },
        }
    }
}

/// Why the store refused a request.
pub enum StreamDBError {
    /// The key is not one the store accepts, or, on removal, not present.
    InvalidKey(String),
}

/// The message an error carries.
pub open spec fn db_message(e: StreamDBError) -> Seq<char> {
    match e {
        StreamDBError::InvalidKey(m) => m@,
    }
}

pub struct Entry {
    pub key: Vec<u8>,
    pub value: Vec<u8>,
}

/// The store.
pub struct StreamDB {
    entries: Vec<Entry>,
}

/// Whether `a` and `b` hold the same bytes.
pub fn bytes_equal(a: &[u8], b: &[u8]) -> (res: bool)
    ensures
        res == (a@ == b@),
{
    if a.len() != b.len() {
        return false;
    }
    let mut i: usize = 0;
    while i < a.len()
        invariant
            a@.len() == b@.len(),
            i <= a@.len(),
            forall|j: int| 0 <= j < i ==> a@[j] == b@[j],
        decreases a@.len() - i,
    {
        if a[i] != b[i] {
            return false;
        }
        i = i + 1;
    }
    proof {
        assert(a@ =~= b@);
    }
    true
}

/// Whether `p` is a prefix of `k`.
pub fn starts_with(k: &[u8], p: &[u8]) -> (res: bool)
    ensures
        res == has_prefix(k@, p@),
{
    if p.len() > k.len() {
        return false;
    }
    let mut i: usize = 0;
    while i < p.len()
        invariant
            p@.len() <= k@.len(),
            i <= p@.len(),
            forall|j: int| 0 <= j < i ==> k@[j] == p@[j],
        decreases p@.len() - i,
    {
        if k[i] != p[i] {
            assert(k@.subrange(0, p@.len() as int)[i as int] != p@[i as int]);
            return false;
        }
        i = i + 1;
    }
    proof {
        assert(k@.subrange(0, p@.len() as int) =~= p@);
    }
    true
}

/// Whether the store accepts `k` as a key.
pub fn is_valid_key(k: &[u8]) -> (res: bool)
    ensures
        res == valid_key(k@),
{
    if k.len() == 0 || k.len() > 1024 {
        return false;
    }
    let mut i: usize = 0;
    while i < k.len()
        invariant
            0 < k@.len() <= 1024,
            i <= k@.len(),
            forall|j: int| 0 <= j < i ==> k@[j] != 0,
            forall|j: int| 0 <= j < i && j < k@.len() - 1 ==> !(k@[j] == 47 && #[trigger] k@[j + 1]
                == 47),
        decreases k@.len() - i,
    {
        if k[i] == 0 {
            return false;
        }
        if i + 1 < k.len() && k[i] == 47 && k[i + 1] == 47 {
            return false;
        }
        i = i + 1;
    }
    true
}

proof fn lemma_lookup_index(es: Seq<EntryView>, k: Seq<u8>)
    requires
        distinct_keys(es),
    ensures
        lookup(es, k) is None <==> forall|i: int| 0 <= i < es.len() ==> es[i].0 != k,
        forall|i: int| 0 <= i < es.len() && es[i].0 == k ==> lookup(es, k) == Some(es[i].1),
    decreases es.len(),
{
    if es.len() > 0 {
        lemma_lookup_index(es.drop_last(), k);
        assert forall|i: int| 0 <= i < es.len() - 1 implies es[i] == es.drop_last()[i] by {}
    }
}

proof fn lemma_replace_update(es: Seq<EntryView>, k: Seq<u8>, v: Seq<u8>, i: int)
    requires
        distinct_keys(es),
        0 <= i < es.len(),
        es[i].0 == k,
    ensures
        replace_value(es, k, v) == es.update(i, (k, v)),
    decreases es.len(),
{
    if es.last().0 == k {
        assert(i == es.len() - 1);
        assert(es.drop_last().push((k, v)) =~= es.update(i, (k, v)));
    } else {
        lemma_replace_update(es.drop_last(), k, v, i);
        assert(es.drop_last().update(i, (k, v)).push(es.last()) =~= es.update(i, (k, v)));
    }
}

proof fn lemma_remove_index(es: Seq<EntryView>, k: Seq<u8>, i: int)
    requires
        distinct_keys(es),
        0 <= i < es.len(),
        es[i].0 == k,
    ensures
        remove_key(es, k) == es.remove(i),
    decreases es.len(),
{
    if es.last().0 == k {
        assert(i == es.len() - 1);
        assert(es.drop_last() =~= es.remove(i));
    } else {
        lemma_remove_index(es.drop_last(), k, i);
        assert(es.drop_last().remove(i).push(es.last()) =~= es.remove(i));
    }
}

proof fn lemma_lookup_replace(es: Seq<EntryView>, k: Seq<u8>, v: Seq<u8>, k2: Seq<u8>)
    ensures
        lookup(replace_value(es, k, v), k2) == if k2 == k && lookup(es, k) is Some {
            Some(v)
        } else {
            lookup(es, k2)
        },
    decreases es.len(),
{
    if es.len() > 0 && es.last().0 != k {
        lemma_lookup_replace(es.drop_last(), k, v, k2);
        assert(replace_value(es, k, v).drop_last() =~= replace_value(es.drop_last(), k, v));
    } else if es.len() > 0 {
        assert(es.drop_last().push((k, v)).drop_last() =~= es.drop_last());
    }
}

proof fn lemma_lookup_remove(es: Seq<EntryView>, k: Seq<u8>, k2: Seq<u8>)
    requires
        distinct_keys(es),
    ensures
        lookup(remove_key(es, k), k2) == if k2 == k {
            None
        } else {
            lookup(es, k2)
        },
    decreases es.len(),
{
    if es.len() > 0 {
        assert(distinct_keys(es.drop_last()));
        lemma_lookup_remove(es.drop_last(), k, k2);
        if es.last().0 == k {
            lemma_lookup_index(es.drop_last(), k);
            assert forall|i: int| 0 <= i < es.drop_last().len() implies es.drop_last()[i].0 != k by {
                assert(es.drop_last()[i] == es[i]);
            }
        } else {
            assert(remove_key(es, k).drop_last() =~= remove_key(es.drop_last(), k));
        }
    }
}

/// A read gives back the last value written under its key; writing one
/// key leaves what every other key reads unchanged.
pub proof fn lemma_read_after_write(es: Seq<EntryView>, k: Seq<u8>, v: Seq<u8>, k2: Seq<u8>)
    ensures
        lookup(put(es, k, v), k) == Some(v),
        k2 != k ==> lookup(put(es, k, v), k2) == lookup(es, k2),
{
    lemma_lookup_replace(es, k, v, k);
    lemma_lookup_replace(es, k, v, k2);
    assert(es.push((k, v)).drop_last() =~= es);
}

/// After a removal the key reads as absent; every other key reads as
/// before.
pub proof fn lemma_read_after_delete(es: Seq<EntryView>, k: Seq<u8>, k2: Seq<u8>)
    requires
        distinct_keys(es),
    ensures
        lookup(remove_key(es, k), k) is None,
        k2 != k ==> lookup(remove_key(es, k), k2) == lookup(es, k2),
{
    lemma_lookup_remove(es, k, k);
    lemma_lookup_remove(es, k, k2);
}

/// Writing the same value twice under a key is the same as writing it once.
pub proof fn lemma_write_idempotent(es: Seq<EntryView>, k: Seq<u8>, v: Seq<u8>)
    requires
        distinct_keys(es),
    ensures
        put(put(es, k, v), k, v) == put(es, k, v),
{
    lemma_read_after_write(es, k, v, k);
    let es1 = put(es, k, v);
    if lookup(es, k) is Some {
        lemma_lookup_index(es, k);
        let i = choose|i: int| 0 <= i < es.len() && es[i].0 == k;
        lemma_replace_update(es, k, v, i);
        assert(distinct_keys(es1));
        lemma_replace_update(es1, k, v, i);
        assert(es1.update(i, (k, v)) =~= es1);
    } else {
        lemma_lookup_index(es, k);
        assert(distinct_keys(es1));
        lemma_replace_update(es1, k, v, es.len() as int);
        assert(es1.update(es.len() as int, (k, v)) =~= es1);
    }
}

/// A prefix search finds exactly the stored keys that start with the
/// prefix, each once.
pub proof fn lemma_prefix_search_complete(es: Seq<EntryView>, p: Seq<u8>, k: Seq<u8>)
    requires
        distinct_keys(es),
    ensures
        keys_with_prefix(es, p).contains(k) <==> has_prefix(k, p) && lookup(es, k) is Some,
        keys_with_prefix(es, p).no_duplicates(),
    decreases es.len(),
{
    if es.len() > 0 {
        assert(distinct_keys(es.drop_last()));
        lemma_prefix_search_complete(es.drop_last(), p, k);
        lemma_prefix_search_complete(es.drop_last(), p, es.last().0);
        lemma_lookup_index(es.drop_last(), es.last().0);
        assert forall|i: int| 0 <= i < es.drop_last().len() implies es.drop_last()[i].0 != es.last().0 by {
            assert(es.drop_last()[i] == es[i]);
        }
        let r = keys_with_prefix(es.drop_last(), p);
        if has_prefix(es.last().0, p) {
            assert(r.push(es.last().0).contains(k) <==> r.contains(k) || k == es.last().0) by {
                if k == es.last().0 {
                    assert(r.push(es.last().0)[r.len() as int] == k);
                }
                if r.contains(k) {
                    let j = choose|j: int| 0 <= j < r.len() && r[j] == k;
                    assert(r.push(es.last().0)[j] == k);
                }
                if r.push(es.last().0).contains(k) && k != es.last().0 {
                    let j = choose|j: int| 0 <= j < r.len() + 1 && r.push(es.last().0)[j] == k;
                    assert(r[j] == k);
                }
            }
            assert forall|a: int, b: int| 0 <= a < b < r.len() + 1 implies r.push(es.last().0)[a]
                != r.push(es.last().0)[b] by {
                if b == r.len() {
                    assert(r.contains(r[a]));
                }
            }
        }
    }
}

/// A prefix of a prefix of `k` is a prefix of `k`.
pub proof fn lemma_prefix_transitive(k: Seq<u8>, p2: Seq<u8>, p1: Seq<u8>)
    requires
        has_prefix(k, p2),
        has_prefix(p2, p1),
    ensures
        has_prefix(k, p1),
{
    assert(k.subrange(0, p1.len() as int) =~= p2.subrange(0, p1.len() as int));
}

/// Searching by a prefix that extends `p1` finds, in the same order, the
/// keys that searching by `p1` finds and that start with the longer
/// prefix.
pub proof fn lemma_prefix_search_narrows(es: Seq<EntryView>, p1: Seq<u8>, p2: Seq<u8>)
    requires
        has_prefix(p2, p1),
    ensures
        keys_with_prefix(es, p2) == keys_starting(keys_with_prefix(es, p1), p2),
    decreases es.len(),
{
    if es.len() > 0 {
        lemma_prefix_search_narrows(es.drop_last(), p1, p2);
        let k = es.last().0;
        let r = keys_with_prefix(es.drop_last(), p1);
        if has_prefix(k, p2) {
            lemma_prefix_transitive(k, p2, p1);
        }
        assert(r.push(k).drop_last() =~= r);
    }
}

/// Every key a prefix search finds starts with the prefix.
pub proof fn lemma_prefix_search_sound(es: Seq<EntryView>, p: Seq<u8>, i: int)
    requires
        0 <= i < keys_with_prefix(es, p).len(),
    ensures
        has_prefix(keys_with_prefix(es, p)[i], p),
        lookup(es, keys_with_prefix(es, p)[i]) is Some,
    decreases es.len(),
{
    let r = keys_with_prefix(es.drop_last(), p);
    if has_prefix(es.last().0, p) && i == r.len() {
    } else {
        lemma_prefix_search_sound(es.drop_last(), p, i);
    }
}

/// A key that is stored and starts with the prefix is found by a prefix
/// search.
pub proof fn lemma_prefix_search_finds(es: Seq<EntryView>, p: Seq<u8>, k: Seq<u8>)
    requires
        has_prefix(k, p),
        lookup(es, k) is Some,
    ensures
        keys_with_prefix(es, p).contains(k),
    decreases es.len(),
{
    let r = keys_with_prefix(es.drop_last(), p);
    if es.last().0 == k {
        assert(r.push(k)[r.len() as int] == k);
    } else {
        lemma_prefix_search_finds(es.drop_last(), p, k);
        let j = choose|j: int| 0 <= j < r.len() && r[j] == k;
        if has_prefix(es.last().0, p) {
            assert(r.push(es.last().0)[j] == k);
        }
    }
}

proof fn lemma_framed_roundtrip(b: Seq<u8>, rest: Seq<u8>)
    requires
        b.len() <= u64::MAX,
    ensures
        read_framed(framed(b) + rest) == Some((b, framed(b).len())),
{
    lemma_varint_roundtrip(b.len() as u64, b + rest);
    assert(framed(b) + rest =~= varint_bytes(b.len()) + (b + rest));
    let n = varint_bytes(b.len()).len();
    assert((framed(b) + rest).subrange(n as int, (n + b.len()) as int) =~= b);
}

proof fn lemma_snapshot_push(es: Seq<EntryView>, e: EntryView)
    ensures
        snapshot_bytes(es.push(e)) == snapshot_bytes(es) + framed(e.0) + framed(e.1),
    decreases es.len(),
{
    if es.len() == 0 {
        assert(es.push(e).drop_first() =~= Seq::<EntryView>::empty());
        assert(snapshot_bytes(es.push(e).drop_first()) == Seq::<u8>::empty());
        assert(es.push(e)[0] == e);
        assert(es =~= Seq::<EntryView>::empty());
        assert(snapshot_bytes(es.push(e)) =~= snapshot_bytes(es) + framed(e.0) + framed(e.1));
    } else {
        lemma_snapshot_push(es.drop_first(), e);
        assert(es.push(e).drop_first() =~= es.drop_first().push(e));
        assert(snapshot_bytes(es.push(e)) =~= snapshot_bytes(es) + framed(e.0) + framed(e.1));
    }
}

/// Entries a snapshot can hold: every key and value shorter than 2^64
/// bytes.
pub open spec fn snapshot_fits(es: Seq<EntryView>) -> bool {
    forall|i: int| 0 <= i < es.len() ==> #[trigger] es[i].0.len() <= u64::MAX && es[i].1.len() <= u64::MAX
}

proof fn lemma_snapshot_read(es: Seq<EntryView>, rest: Seq<u8>, acc: Seq<EntryView>)
    requires
        distinct_keys(acc + es),
        snapshot_fits(es),
        forall|i: int| 0 <= i < es.len() ==> valid_key(#[trigger] es[i].0),
    ensures
        read_snapshot(snapshot_bytes(es) + rest, acc) == read_snapshot(rest, acc + es),
    decreases es.len(),
{
    if es.len() == 0 {
        assert(snapshot_bytes(es) + rest =~= rest);
        assert(acc + es =~= acc);
    } else {
        let e = es[0];
        let tail = snapshot_bytes(es.drop_first()) + rest;
        let s = snapshot_bytes(es) + rest;
        assert(s =~= framed(e.0) + (framed(e.1) + tail));
        assert(es[0] == e);
        lemma_framed_roundtrip(e.0, framed(e.1) + tail);
        let n1 = framed(e.0).len();
        assert(s.skip(n1 as int) =~= framed(e.1) + tail);
        lemma_framed_roundtrip(e.1, tail);
        let n2 = framed(e.1).len();
        assert(s.skip((n1 + n2) as int) =~= tail);
        assert forall|i: int| 0 <= i < acc.len() implies acc[i].0 != e.0 by {
            assert((acc + es)[i] == acc[i]);
            assert((acc + es)[acc.len() as int] == e);
        }
        assert(distinct_keys(acc)) by {
            assert forall|i: int, j: int| 0 <= i < j < acc.len() implies acc[i].0 != acc[j].0 by {
                assert((acc + es)[i] == acc[i]);
                assert((acc + es)[j] == acc[j]);
            }
        }
        lemma_lookup_index(acc, e.0);
        assert(put(acc, e.0, e.1) == acc.push(e));
        assert(acc.push(e) + es.drop_first() =~= acc + es);
        assert forall|i: int| 0 <= i < es.drop_first().len() implies valid_key(#[trigger] es.drop_first()[i].0) by {
            assert(es.drop_first()[i] == es[i + 1]);
        }
        assert(snapshot_fits(es.drop_first())) by {
            assert forall|i: int| 0 <= i < es.drop_first().len() implies #[trigger] es.drop_first()[i].0.len() <= u64::MAX && es.drop_first()[i].1.len() <= u64::MAX by {
                assert(es.drop_first()[i] == es[i + 1]);
            }
        }
        lemma_snapshot_read(es.drop_first(), rest, acc.push(e));
    }
}

/// A snapshot reads back as the store it was taken of.
pub proof fn lemma_snapshot_roundtrip(es: Seq<EntryView>)
    requires
        distinct_keys(es),
        snapshot_fits(es),
        forall|i: int| 0 <= i < es.len() ==> valid_key(#[trigger] es[i].0),
    ensures
        read_snapshot(snapshot_bytes(es), Seq::empty()) == Some(es),
{
    assert(Seq::<EntryView>::empty() + es =~= es);
    lemma_snapshot_read(es, Seq::empty(), Seq::empty());
    assert(snapshot_bytes(es) + Seq::<u8>::empty() =~= snapshot_bytes(es));
}

/// Reads a framed byte string at `pos`: the bytes and the position after.
fn read_framed_at(buf: &[u8], pos: usize) -> (res: Option<(Vec<u8>, usize)>)
    requires
        pos <= buf@.len(),
    ensures
        match read_framed(buf@.skip(pos as int)) {
            Some((b, n)) => res matches Some((v, end)) && v@ == b && end == pos + n,
            None => res is None,
        },
{
    let (l, start) = match read_varint(buf, pos) {
        Some(r) => r,
        None => return None,
    };
    if l as u128 > (buf.len() - start) as u128 {
        return None;
    }
    let end = start + l as usize;
    let v = vstd::slice::slice_to_vec(vstd::slice::slice_subrange(buf, start, end));
    proof {
        assert(v@ =~= buf@.skip(pos as int).subrange((start - pos) as int, (start - pos) + l));
    }
    Some((v, end))
}

impl StreamDB {
    /// The entries, in store order.
    pub closed spec fn entries(&self) -> Seq<EntryView> {
        self.entries@.map_values(|e: Entry| (e.key@, e.value@))
    }

    /// Keys are distinct, and each is one the store accepts.
    pub closed spec fn wf(&self) -> bool {
        &&& distinct_keys(self.entries())
        &&& forall|i: int| 0 <= i < self.entries().len() ==> valid_key(#[trigger] self.entries()[i].0)
    }

    /// What `wf` says, for callers.
    pub proof fn lemma_wf(&self)
        requires
            self.wf(),
        ensures
            distinct_keys(self.entries()),
            forall|k: Seq<u8>| #[trigger] lookup(self.entries(), k) is Some ==> valid_key(k),
    {
        assert forall|k: Seq<u8>| #[trigger] lookup(self.entries(), k) is Some implies valid_key(k) by {
            lemma_lookup_index(self.entries(), k);
            let i = choose|i: int| 0 <= i < self.entries().len() && self.entries()[i].0 == k;
        }
    }

    /// An empty store.
    pub fn new() -> (db: StreamDB)
        ensures
            db.wf(),
            db.entries() == Seq::<EntryView>::empty(),
    {
        let db = StreamDB { entries: Vec::new() };
        assert(db.entries() =~= Seq::<EntryView>::empty());
        db
    }

    /// The position of the entry under `key`.
    fn find(&self, key: &[u8]) -> (res: Option<usize>)
        ensures
            match res {
                Some(i) => i < self.entries().len() && self.entries()[i as int].0 == key@,
                None => forall|i: int| 0 <= i < self.entries().len() ==> self.entries()[i].0 != key@,
            },
    {
        let mut i: usize = 0;
        while i < self.entries.len()
            invariant
                i <= self.entries@.len(),
                self.entries().len() == self.entries@.len(),
                forall|j: int| 0 <= j < i ==> self.entries()[j].0 != key@,
            decreases self.entries@.len() - i,
        {
            if bytes_equal(self.entries[i].key.as_slice(), key) {
                return Some(i);
            }
            i = i + 1;
        }
        None
    }

    /// The value stored under `key`.
    pub fn get(&self, key: &[u8]) -> (res: Option<Vec<u8>>)
        requires
            self.wf(),
        ensures
            match lookup(self.entries(), key@) {
                Some(v) => res matches Some(r) && r@ == v,
                None => res is None,
            },
    {
        proof {
            lemma_lookup_index(self.entries(), key@);
        }
        match self.find(key) {
            Some(i) => {
                let v = vstd::slice::slice_to_vec(self.entries[i].value.as_slice());
                Some(v)
            },
            None => None,
        }
    }

    /// Writes `value` under `key`, replacing what was there. Refused, with
    /// the store unchanged, where the key is not valid.
    pub fn insert(&mut self, key: &[u8], value: &[u8]) -> (res: Result<(), StreamDBError>)
        requires
            old(self).wf(),
        ensures
            final(self).wf(),
            res is Ok <==> valid_key(key@),
            res is Ok ==> final(self).entries() == put(old(self).entries(), key@, value@),
            res matches Err(e) ==> db_message(e) == "Invalid path"@,
            res is Err ==> final(self).entries() == old(self).entries(),
    {
        if !is_valid_key(key) {
            return Err(StreamDBError::InvalidKey(string_from_str("Invalid path")));
        }
        let ghost before = self.entries();
        let e = Entry {
            key: vstd::slice::slice_to_vec(key),
            value: vstd::slice::slice_to_vec(value),
        };
        match self.find(key) {
            Some(i) => {
                self.entries.set(i, e);
                proof {
                    lemma_lookup_index(before, key@);
                    lemma_replace_update(before, key@, value@, i as int);
                    assert(self.entries() =~= before.update(i as int, (key@, value@)));
                }
            },
            None => {
                self.entries.push(e);
                proof {
                    lemma_lookup_index(before, key@);
                    assert(self.entries() =~= before.push((key@, value@)));
                }
            },
        }
        Ok(())
    }

    /// Removes the entry under `key`. Refused, with the store unchanged,
    /// where the key is not valid or not present.
    pub fn delete(&mut self, key: &[u8]) -> (res: Result<(), StreamDBError>)
        requires
            old(self).wf(),
        ensures
            final(self).wf(),
            res is Ok <==> valid_key(key@) && lookup(old(self).entries(), key@) is Some,
            res matches Err(e) ==> db_message(e) == if valid_key(key@) {
                "Path not found"@
            } else {
                "Invalid path"@
            },
            res is Ok ==> final(self).entries() == remove_key(old(self).entries(), key@),
            res is Err ==> final(self).entries() == old(self).entries(),
    {
        proof {
            lemma_lookup_index(self.entries(), key@);
        }
        if !is_valid_key(key) {
            return Err(StreamDBError::InvalidKey(string_from_str("Invalid path")));
        }
        let ghost before = self.entries();
        match self.find(key) {
            Some(i) => {
                self.entries.remove(i);
                proof {
                    lemma_remove_index(before, key@, i as int);
                    assert(self.entries() =~= before.remove(i as int));
                }
                Ok(())
            },
            None => Err(StreamDBError::InvalidKey(string_from_str("Path not found"))),
        }
    }

    /// The snapshot of the store.
    pub fn to_bytes(&self) -> (out: Vec<u8>)
        ensures
            out@ == snapshot_bytes(self.entries()),
    {
        let mut out: Vec<u8> = Vec::new();
        let mut i: usize = 0;
        proof {
            assert(self.entries().take(0) =~= Seq::<EntryView>::empty());
        }
        while i < self.entries.len()
            invariant
                i <= self.entries@.len(),
                self.entries().len() == self.entries@.len(),
                out@ == snapshot_bytes(self.entries().take(i as int)),
            decreases self.entries@.len() - i,
        {
            let e = &self.entries[i];
            write_varint(&mut out, e.key.len() as u64);
            append_bytes(&mut out, e.key.as_slice());
            write_varint(&mut out, e.value.len() as u64);
            append_bytes(&mut out, e.value.as_slice());
            proof {
                let ev = self.entries()[i as int];
                assert(ev == (e.key@, e.value@));
                assert(self.entries().take(i as int + 1) =~= self.entries().take(i as int).push(ev));
                lemma_snapshot_push(self.entries().take(i as int), ev);
                assert(out@ =~= snapshot_bytes(self.entries().take(i as int)) + framed(ev.0) + framed(ev.1));
            }
            i = i + 1;
        }
        proof {
            assert(self.entries().take(i as int) =~= self.entries());
        }
        out
    }

    /// The store a snapshot describes; `None` where the bytes are not a
    /// snapshot.
    pub fn from_bytes(buf: &[u8]) -> (res: Option<StreamDB>)
        ensures
            match read_snapshot(buf@, Seq::empty()) {
                Some(es) => res matches Some(db) && db.wf() && db.entries() == es,
                None => res is None,
            },
    {
        let mut db = StreamDB::new();
        let mut pos: usize = 0;
        proof {
            assert(buf@.skip(0) =~= buf@);
        }
        while pos < buf.len()
            invariant
                pos <= buf@.len(),
                db.wf(),
                read_snapshot(buf@, Seq::empty()) == read_snapshot(buf@.skip(pos as int), db.entries()),
            decreases buf@.len() - pos,
        {
            let ghost s = buf@.skip(pos as int);
            let (k, p1) = match read_framed_at(buf, pos) {
                Some(r) => r,
                None => return None,
            };
            proof {
                lemma_parse_len(s);
                assert(buf@.skip(p1 as int) =~= s.skip(p1 - pos));
            }
            let (v, p2) = match read_framed_at(buf, p1) {
                Some(r) => r,
                None => return None,
            };
            proof {
                lemma_parse_len(s.skip(p1 - pos));
                assert(buf@.skip(p2 as int) =~= s.skip(p2 - pos));
            }
            match db.insert(k.as_slice(), v.as_slice()) {
                Ok(()) => {},
                Err(_) => return None,
            }
            pos = p2;
        }
        proof {
            assert(buf@.skip(pos as int).len() == 0);
        }
        Some(db)
    }

    /// The keys that start with `prefix`, in store order.
    pub fn prefix_search(&self, prefix: &[u8]) -> (res: Vec<Vec<u8>>)
        ensures
            res@.map_values(|k: Vec<u8>| k@) == keys_with_prefix(self.entries(), prefix@),
    {
        let mut out: Vec<Vec<u8>> = Vec::new();
        let mut i: usize = 0;
        proof {
            assert(self.entries().take(0) =~= Seq::<EntryView>::empty());
            assert(out@.map_values(|k: Vec<u8>| k@) =~= Seq::<Seq<u8>>::empty());
        }
        while i < self.entries.len()
            invariant
                i <= self.entries@.len(),
                self.entries().len() == self.entries@.len(),
                out@.map_values(|k: Vec<u8>| k@) == keys_with_prefix(
                    self.entries().take(i as int),
                    prefix@,
                ),
            decreases self.entries@.len() - i,
        {
            let ghost before = out@.map_values(|k: Vec<u8>| k@);
            proof {
                assert(self.entries().take(i as int + 1).drop_last() =~= self.entries().take(
                    i as int,
                ));
                assert(self.entries().take(i as int + 1).last() == self.entries()[i as int]);
            }
            if starts_with(self.entries[i].key.as_slice(), prefix) {
                out.push(vstd::slice::slice_to_vec(self.entries[i].key.as_slice()));
                proof {
                    assert(out@.map_values(|k: Vec<u8>| k@) =~= before.push(
                        self.entries()[i as int].0,
                    ));
                }
            }
            i = i + 1;
        }
        proof {
            assert(self.entries().take(i as int) =~= self.entries());
        }
        out
    }
}

} // verus!
