//! Exporting albums and playlists: which files to write, under which
//! names, with which bytes. Writing them is left to the caller.

use vstd::prelude::*;
use vstd::string::*;

use crate::records::{read_metadata, read_playlist, Metadata, MetadataView, Playlist};
use crate::store::{has_prefix, keys_with_prefix, lookup, starts_with, EntryView, StreamDB};
use crate::text::{push_replacing_spaces, spaces_to_underscores, text_bytes, utf8};

verus! {

/// One file to write.
pub struct ExportFile {
    pub file_name: String,
    pub audio: Vec<u8>,
}

/// What to write: the files in order, and whether reading stopped at an
/// entry that did not decode (the files before it are still written).
pub struct ExportPlan {
    pub files: Vec<ExportFile>,
    pub decode_failed: bool,
}

/// A file as the spec sees it: name and bytes.
pub type FileView = (Seq<char>, Seq<u8>);

pub open spec fn files_view(files: Seq<ExportFile>) -> Seq<FileView> {
    files.map_values(|f: ExportFile| (f.file_name@, f.audio@))
}

/// `<artist>_<title>.opus`, spaces in artist and title replaced by
/// underscores.
pub open spec fn export_name(m: MetadataView) -> Seq<char> {
    spaces_to_underscores(m.artist) + "_"@ + spaces_to_underscores(m.title) + ".opus"@
}

/// The file for a stored track: its name, and the bytes after the
/// length-delimited metadata message; `None` where the entry does not
/// start with one.
pub open spec fn track_file(v: Seq<u8>) -> Option<FileView> {
    match read_metadata(v) {
        Some((m, n)) => Some((export_name(m), v.subrange(n as int, v.len() as int))),
        None => None,
    }
}

/// The files for the entries under `keys`, in order, keys with no entry
/// passed over; stops at the first entry that is not a track, the flag
/// set.
pub open spec fn export_files(es: Seq<EntryView>, keys: Seq<Seq<u8>>) -> (Seq<FileView>, bool)
    decreases keys.len(),
{
    if keys.len() == 0 {
        (Seq::empty(), false)
    } else {
        let (fs, failed) = export_files(es, keys.drop_last());
        if failed {
            (fs, true)
        } else {
            match lookup(es, keys.last()) {
                None => (fs, false),
                Some(v) => match track_file(v) {
                    Some(f) => (fs.push(f), false),
                    None => (fs, true),
                },
            }
        }
    }
}

/// `k` is a key of the album `p`: `p` itself, or `p` followed by `:` and
/// more (the key of one of its tracks).
pub open spec fn in_album(k: Seq<u8>, p: Seq<u8>) -> bool {
    has_prefix(k, p) && (k.len() == p.len() || k[p.len() as int] == 58u8)
}

/// The keys among `keys` that are keys of the album `p`, in order.
pub open spec fn album_members(keys: Seq<Seq<u8>>, p: Seq<u8>) -> Seq<Seq<u8>>
    decreases keys.len(),
{
    if keys.len() == 0 {
        Seq::empty()
    } else if in_album(keys.last(), p) {
        album_members(keys.drop_last(), p).push(keys.last())
    } else {
        album_members(keys.drop_last(), p)
    }
}

/// The store keys of the album `p`, in store order.
pub open spec fn album_keys(es: Seq<EntryView>, p: Seq<u8>) -> Seq<Seq<u8>> {
    album_members(keys_with_prefix(es, p), p)
}

/// The keys among `keys` that are keys of the album `p`.
fn select_album_keys(keys: &Vec<Vec<u8>>, p: &[u8]) -> (res: Vec<Vec<u8>>)
    ensures
        res@.map_values(|k: Vec<u8>| k@) == album_members(keys@.map_values(|k: Vec<u8>| k@), p@),
{
    let ghost ks = keys@.map_values(|k: Vec<u8>| k@);
    let mut out: Vec<Vec<u8>> = Vec::new();
    let mut i: usize = 0;
    proof {
        assert(ks.take(0) =~= Seq::<Seq<u8>>::empty());
        assert(out@.map_values(|k: Vec<u8>| k@) =~= Seq::<Seq<u8>>::empty());
    }
    while i < keys.len()
        invariant
            ks == keys@.map_values(|k: Vec<u8>| k@),
            i <= keys@.len(),
            out@.map_values(|k: Vec<u8>| k@) == album_members(ks.take(i as int), p@),
        decreases keys@.len() - i,
    {
        let k = keys[i].as_slice();
        proof {
            assert(ks.take(i as int + 1).drop_last() =~= ks.take(i as int));
            assert(ks.take(i as int + 1).last() == k@);
        }
        let member = starts_with(k, p) && (k.len() == p.len() || k[p.len()] == 58u8);
        if member {
            let ghost before = out@.map_values(|k: Vec<u8>| k@);
            out.push(vstd::slice::slice_to_vec(k));
            proof {
                assert(out@.map_values(|k: Vec<u8>| k@) =~= before.push(k@));
            }
        }
        i = i + 1;
    }
    proof {
        assert(ks.take(i as int) =~= ks);
    }
    out
}

/// The file name for a track.
pub fn export_file_name(m: &Metadata) -> (name: String)
    ensures
        name@ == export_name(m@),
{
    let mut name = String::new();
    push_replacing_spaces(&mut name, m.artist.as_str());
    name.append("_");
    push_replacing_spaces(&mut name, m.title.as_str());
    name.append(".opus");
    proof {
        assert(name@ =~= export_name(m@));
    }
    name
}

/// The file for a stored track.
pub fn track_export(data: &[u8]) -> (res: Option<ExportFile>)
    ensures
        match track_file(data@) {
            Some((n, a)) => res matches Some(f) && f.file_name@ == n && f.audio@ == a,
            None => res is None,
        },
{
    match Metadata::decode_length_delimited(data) {
        Some((m, consumed)) => {
            let name = export_file_name(&m);
            let audio = vstd::slice::slice_to_vec(
                vstd::slice::slice_subrange(data, consumed, data.len()),
            );
            Some(ExportFile { file_name: name, audio })
        },
        None => None,
    }
}

proof fn lemma_export_failed_stays(es: Seq<EntryView>, keys: Seq<Seq<u8>>, i: int, j: int)
    requires
        0 <= i <= j <= keys.len(),
        export_files(es, keys.take(i)).1,
    ensures
        export_files(es, keys.take(j)) == export_files(es, keys.take(i)),
    decreases j - i,
{
    if i < j {
        lemma_export_failed_stays(es, keys, i, j - 1);
        assert(keys.take(j).drop_last() =~= keys.take(j - 1));
    }
}

/// The files for the entries under `keys`.
fn export_keys(db: &StreamDB, keys: &Vec<Vec<u8>>) -> (plan: ExportPlan)
    requires
        db.wf(),
    ensures
        (files_view(plan.files@), plan.decode_failed) == export_files(
            db.entries(),
            keys@.map_values(|k: Vec<u8>| k@),
        ),
{
    let ghost ks = keys@.map_values(|k: Vec<u8>| k@);
    let mut files: Vec<ExportFile> = Vec::new();
    let mut i: usize = 0;
    proof {
        assert(ks.take(0) =~= Seq::<Seq<u8>>::empty());
        assert(files_view(files@) =~= Seq::<FileView>::empty());
    }
    while i < keys.len()
        invariant
            db.wf(),
            ks == keys@.map_values(|k: Vec<u8>| k@),
            i <= keys@.len(),
            export_files(db.entries(), ks.take(i as int)) == (files_view(files@), false),
        decreases keys@.len() - i,
    {
        proof {
            assert(ks.take(i as int + 1).drop_last() =~= ks.take(i as int));
            assert(ks.take(i as int + 1).last() == keys@[i as int]@);
        }
        match db.get(keys[i].as_slice()) {
            Some(data) => match track_export(data.as_slice()) {
                Some(f) => {
                    let ghost before = files_view(files@);
                    let ghost fv = (f.file_name@, f.audio@);
                    files.push(f);
                    proof {
                        assert(files_view(files@) =~= before.push(fv));
                    }
                },
                None => {
                    proof {
                        lemma_export_failed_stays(db.entries(), ks, i as int + 1, ks.len() as int);
                        assert(ks.take(ks.len() as int) =~= ks);
                    }
                    return ExportPlan { files, decode_failed: true };
                },
            },
            None => {},
        }
        i = i + 1;
    }
    proof {
        assert(ks.take(i as int) =~= ks);
    }
    ExportPlan { files, decode_failed: false }
}

/// The files of the album `album_key` (`audio:<artist>:<album>`): one for
/// each stored track whose key is that key followed by `:` and a title,
/// in store order (a key equal to `album_key` is taken too).
pub fn export_album(db: &StreamDB, album_key: &String) -> (plan: ExportPlan)
    requires
        db.wf(),
    ensures
        (files_view(plan.files@), plan.decode_failed) == export_files(
            db.entries(),
            album_keys(db.entries(), utf8(album_key@)),
        ),
{
    let p = text_bytes(album_key);
    let found = db.prefix_search(p.as_slice());
    let keys = select_album_keys(&found, p.as_slice());
    export_keys(db, &keys)
}

/// The files of the playlist stored under `playlist_key`, in playlist
/// order: `None` where there is no such entry; no files and the flag set
/// where the entry is not a playlist.
pub fn export_playlist(db: &StreamDB, playlist_key: &String) -> (res: Option<ExportPlan>)
    requires
        db.wf(),
    ensures
        match lookup(db.entries(), utf8(playlist_key@)) {
            None => res is None,
            Some(v) => res matches Some(plan) && match read_playlist(v) {
                None => plan.files@.len() == 0 && plan.decode_failed,
                Some((keys, _)) => (files_view(plan.files@), plan.decode_failed) == export_files(
                    db.entries(),
                    keys.map_values(|k: Seq<char>| utf8(k)),
                ),
            },
        },
{
    let pk = text_bytes(playlist_key);
    let data = match db.get(pk.as_slice()) {
        Some(d) => d,
        None => return None,
    };
    let (playlist, _) = match Playlist::decode_length_delimited(data.as_slice()) {
        Some(r) => r,
        None => return Some(ExportPlan { files: Vec::new(), decode_failed: true }),
    };
    let mut keys: Vec<Vec<u8>> = Vec::new();
    let mut i: usize = 0;
    while i < playlist.track_keys.len()
        invariant
            i <= playlist.track_keys@.len(),
            keys@.map_values(|k: Vec<u8>| k@) == playlist@.take(i as int).map_values(
                |k: Seq<char>| utf8(k),
            ),
        decreases playlist.track_keys@.len() - i,
    {
        keys.push(text_bytes(&playlist.track_keys[i]));
        proof {
            assert(playlist@[i as int] == playlist.track_keys@[i as int]@);
            assert(playlist@.take(i as int + 1) =~= playlist@.take(i as int).push(playlist@[i as int]));
            assert(playlist@.take(i as int + 1).map_values(|k: Seq<char>| utf8(k)) =~= playlist@.take(
                i as int,
            ).map_values(|k: Seq<char>| utf8(k)).push(utf8(playlist@[i as int])));
            assert(keys@.map_values(|k: Vec<u8>| k@) =~= playlist@.take(i as int + 1).map_values(
                |k: Seq<char>| utf8(k),
            ));
        }
        i = i + 1;
    }
    proof {
        assert(playlist@.take(i as int) =~= playlist@);
    }
    Some(export_keys(db, &keys))
}

/// The entry under `k` exists and is not a track.
pub open spec fn holds_non_track(es: Seq<EntryView>, k: Seq<u8>) -> bool {
    lookup(es, k) matches Some(v) && track_file(v) is None
}

/// An export passes over a key with no entry: the files and the flag are
/// those of the same keys without it, wherever it stands.
pub proof fn lemma_export_skips_missing(es: Seq<EntryView>, a: Seq<Seq<u8>>, k: Seq<u8>, b: Seq<Seq<u8>>)
    requires
        lookup(es, k) is None,
    ensures
        export_files(es, a.push(k) + b) == export_files(es, a + b),
    decreases b.len(),
{
    if b.len() == 0 {
        assert(a.push(k) + b =~= a.push(k));
        assert(a + b =~= a);
        assert(a.push(k).drop_last() =~= a);
    } else {
        lemma_export_skips_missing(es, a, k, b.drop_last());
        assert((a.push(k) + b).drop_last() =~= a.push(k) + b.drop_last());
        assert((a + b).drop_last() =~= a + b.drop_last());
        assert((a.push(k) + b).last() == b.last());
        assert((a + b).last() == b.last());
    }
}

/// An export flags a failure exactly where one of its keys has an entry
/// that is not a track; keys with no entry never set the flag.
pub proof fn lemma_export_flag(es: Seq<EntryView>, keys: Seq<Seq<u8>>)
    ensures
        export_files(es, keys).1 <==> exists|i: int| 0 <= i < keys.len() && #[trigger] holds_non_track(es, keys[i]),
    decreases keys.len(),
{
    if keys.len() > 0 {
        let d = keys.drop_last();
        lemma_export_flag(es, d);
        if exists|i: int| 0 <= i < d.len() && #[trigger] holds_non_track(es, d[i]) {
            let i = choose|i: int| 0 <= i < d.len() && #[trigger] holds_non_track(es, d[i]);
            assert(keys[i] == d[i]);
        }
        if exists|i: int| 0 <= i < keys.len() && #[trigger] holds_non_track(es, keys[i]) {
            let i = choose|i: int| 0 <= i < keys.len() && #[trigger] holds_non_track(es, keys[i]);
            if i < d.len() {
                assert(d[i] == keys[i]);
            } else {
                assert(keys.last() == keys[i]);
            }
        }
        if holds_non_track(es, keys.last()) {
            assert(keys[keys.len() - 1] == keys.last());
        }
    }
}

/// Where every key has a track entry, the export writes one file per key,
/// in the keys' order, and flags nothing.
pub proof fn lemma_export_every_track(es: Seq<EntryView>, keys: Seq<Seq<u8>>)
    requires
        forall|i: int| 0 <= i < keys.len() ==> #[trigger] holds_track_file(es, keys[i]),
    ensures
        export_files(es, keys) == (
            Seq::new(keys.len(), |i: int| track_file(lookup(es, keys[i]).unwrap()).unwrap()),
            false,
        ),
    decreases keys.len(),
{
    if keys.len() > 0 {
        let d = keys.drop_last();
        assert forall|i: int| 0 <= i < d.len() implies #[trigger] holds_track_file(es, d[i]) by {
            assert(d[i] == keys[i]);
            assert(holds_track_file(es, keys[i]));
        }
        lemma_export_every_track(es, d);
        assert(holds_track_file(es, keys[keys.len() - 1]));
        assert(keys.last() == keys[keys.len() - 1]);
        let f = |i: int| track_file(lookup(es, keys[i]).unwrap()).unwrap();
        let g = |i: int| track_file(lookup(es, d[i]).unwrap()).unwrap();
        let file = track_file(lookup(es, keys.last()).unwrap()).unwrap();
        assert(export_files(es, d) == (Seq::new(d.len(), g), false));
        assert(export_files(es, keys) == (Seq::new(d.len(), g).push(file), false));
        assert(Seq::new(d.len(), g).push(file) =~= Seq::new(keys.len(), f)) by {
            assert forall|i: int| 0 <= i < d.len() implies d[i] == keys[i] by {}
        }
    } else {
        assert(Seq::new(0, |i: int| track_file(lookup(es, keys[i]).unwrap()).unwrap()) =~= Seq::<
            FileView,
        >::empty());
    }
}

/// The entry under `k` exists and is a track.
pub open spec fn holds_track_file(es: Seq<EntryView>, k: Seq<u8>) -> bool {
    lookup(es, k) matches Some(v) && track_file(v) is Some
}

} // verus!
