//! The music library: tracks, playlists and effect settings kept in the
//! store, under keys `audio:<artist>:<album>:<title>`, `playlist:<name>`,
//! `config:eq` and `config:dsp`.

use vstd::prelude::*;
use vstd::string::*;

use crate::effects::{gain_out_of_range, gains_accepted, Effect};
use crate::faults::{
    fault_description, lemma_undecodable_has_fault, record_decodes, record_fault_text, RecordKind,
};
use crate::records::{
    eq_body, eq_stored, keys_fit, lemma_eq_roundtrip, lemma_metadata_reencode_len,
    lemma_metadata_roundtrip, lemma_playlist_roundtrip, length_delimited, metadata_body,
    metadata_stored, playlist_body, read_eq, read_metadata, read_playlist, EqConfig, Metadata,
    MetadataView, Playlist,
};
use crate::store::{
    db_message, distinct_keys, has_prefix, keys_starting, keys_with_prefix, lemma_prefix_search_finds,
    lemma_prefix_search_narrows, lemma_prefix_search_sound, lemma_prefix_transitive,
    lemma_read_after_delete, lemma_read_after_write, lookup, put, remove_key, starts_with, valid_key,
    EntryView, StreamDB, StreamDBError,
};
use crate::text::{lemma_utf8_concat, shown_text, string_from_str, text_bytes, text_lossy, utf8};
use crate::varint::varint_bytes;

verus! {

/// Why a request failed; each carries a message for the user.
pub enum AppError {
    FileNotFound(String),
    DecodeError(String),
    EncodeError(String),
    StreamDBError(String),
    DSPError(String),
    InvalidInput(String),
    IOError(String),
}

/// The message an error carries.
pub open spec fn message(e: AppError) -> Seq<char> {
    match e {
        AppError::FileNotFound(m) => m@,
        AppError::DecodeError(m) => m@,
        AppError::EncodeError(m) => m@,
        AppError::StreamDBError(m) => m@,
        AppError::DSPError(m) => m@,
        AppError::InvalidInput(m) => m@,
        AppError::IOError(m) => m@,
    }
}

/// Invalid input, with the message `m`.
pub open spec fn invalid(e: AppError, m: Seq<char>) -> bool {
    e is InvalidInput && message(e) == m
}

/// A store error, with the store's message `m`.
pub open spec fn store_failed(e: AppError, m: Seq<char>) -> bool {
    e is StreamDBError && message(e) == "Invalid key: "@ + m
}

/// The message for a track entry `v`, under the key `k`, that does not
/// start with a metadata message.
pub open spec fn metadata_failure(k: Seq<u8>, v: Seq<u8>) -> Seq<char> {
    "Failed to decode metadata for "@ + shown_text(k) + ": "@ + fault_description(
        RecordKind::Metadata,
        v,
    )
}

/// The message for stored equaliser settings that are not readable.
pub open spec fn eq_failure(es: Seq<EntryView>) -> Seq<char> {
    "Failed to decode EQ config: "@ + fault_description(
        RecordKind::EqConfig,
        lookup(es, utf8("config:eq"@)).unwrap(),
    )
}

/// Why `add_to_playlist` refuses, where it does.
pub open spec fn playlist_add_message(es: Seq<EntryView>, pk: Seq<char>, tk: Seq<char>) -> Seq<char> {
    match lookup(es, utf8(pk)) {
        None => "Playlist not found: "@ + pk,
        Some(v) => match read_playlist(v) {
            None => "Failed to decode playlist: "@ + fault_description(RecordKind::Playlist, v),
            Some(_) => "Invalid track key: "@ + tk,
        },
    }
}

/// Why `get_track_audio` refuses, where it does.
pub open spec fn track_audio_message(es: Seq<EntryView>, k: Seq<char>) -> Seq<char> {
    match lookup(es, utf8(k)) {
        None => "Track not found: "@ + k,
        Some(v) => "Failed to decode metadata: "@ + fault_description(RecordKind::Metadata, v),
    }
}

/// The metadata of a list of decoded tracks.
pub open spec fn metadata_views(v: Seq<Metadata>) -> Seq<MetadataView> {
    v.map_values(|m: Metadata| m@)
}

/// The metadata stored under `keys`, in order: keys with no entry are
/// passed over; the error is the first key whose entry does not start
/// with a metadata message.
pub open spec fn collect_metadata(es: Seq<EntryView>, keys: Seq<Seq<u8>>) -> Result<Seq<MetadataView>, Seq<u8>>
    decreases keys.len(),
{
    if keys.len() == 0 {
        Ok(Seq::empty())
    } else {
        match collect_metadata(es, keys.drop_last()) {
            Err(k) => Err(k),
            Ok(ms) => match lookup(es, keys.last()) {
                None => Ok(ms),
                Some(v) => match read_metadata(v) {
                    Some((m, _)) => Ok(ms.push(m)),
                    None => Err(keys.last()),
                },
            },
        }
    }
}

/// The metadata stored under `keys`, or the message for the first entry
/// that is not readable.
pub open spec fn collected(es: Seq<EntryView>, keys: Seq<Seq<u8>>) -> Result<Seq<MetadataView>, Seq<char>> {
    match collect_metadata(es, keys) {
        Ok(ms) => Ok(ms),
        Err(k) => Err(metadata_failure(k, lookup(es, k).unwrap())),
    }
}

/// What `get_playlist` answers: the tracks of the playlist stored under
/// `pk`, or why there are none.
pub open spec fn playlist_tracks(es: Seq<EntryView>, pk: Seq<char>) -> Result<Seq<MetadataView>, Seq<char>> {
    match lookup(es, utf8(pk)) {
        None => Err("Playlist not found: "@ + pk),
        Some(v) => match read_playlist(v) {
            None => Err("Failed to decode playlist: "@ + fault_description(RecordKind::Playlist, v)),
            Some((keys, _)) => collected(es, keys.map_values(|k: Seq<char>| utf8(k))),
        },
    }
}

/// What `search_tracks` answers: the tracks whose keys start with
/// `prefix`, in store order, or why there are none.
pub open spec fn search_result(es: Seq<EntryView>, prefix: Seq<char>) -> Result<Seq<MetadataView>, Seq<char>> {
    if prefix.len() == 0 {
        Err("Search prefix cannot be empty"@)
    } else {
        collected(es, keys_with_prefix(es, utf8(prefix)))
    }
}

/// The entries after adding the track key `tk` to the playlist stored
/// under `pk`; `None` where there is no such entry, it is not a playlist,
/// or `tk` does not start with `audio:`.
pub open spec fn playlist_added(es: Seq<EntryView>, pk: Seq<u8>, tk: Seq<char>) -> Option<Seq<EntryView>> {
    match lookup(es, pk) {
        None => None,
        Some(v) => match read_playlist(v) {
            None => None,
            Some((keys, _)) => if has_prefix(utf8(tk), utf8("audio:"@)) {
                Some(put(es, pk, length_delimited(playlist_body(keys.push(tk)))))
            } else {
                None
            },
        },
    }
}

/// What `get_track_audio` hands out for the entry under `k`: the bytes of
/// the entry from the offset equal to the length of its decoded metadata
/// message body (the length prefix is not counted in that offset).
pub open spec fn track_audio(es: Seq<EntryView>, k: Seq<u8>) -> Option<Seq<u8>> {
    match lookup(es, k) {
        None => None,
        Some(v) => match read_metadata(v) {
            None => None,
            Some((m, _)) => Some(v.subrange(metadata_body(m).len() as int, v.len() as int)),
        },
    }
}

/// The key a track is stored under.
pub open spec fn track_key(m: MetadataView) -> Seq<char> {
    "audio:"@ + m.artist + ":"@ + m.album + ":"@ + m.title
}

/// The key prefix of an artist's tracks: `audio:<artist>:`.
pub open spec fn artist_prefix(artist: Seq<char>) -> Seq<char> {
    "audio:"@ + artist + ":"@
}

/// The entries after storing a track with its encoded audio.
pub open spec fn track_stored(es: Seq<EntryView>, m: MetadataView, audio: Seq<u8>) -> Seq<EntryView> {
    put(es, utf8(track_key(m)), length_delimited(metadata_body(m)) + audio)
}

/// The entries after creating an empty playlist called `name`.
pub open spec fn playlist_created(es: Seq<EntryView>, name: Seq<char>) -> Seq<EntryView> {
    put(es, utf8("playlist:"@ + name), length_delimited(playlist_body(Seq::empty())))
}

/// The equaliser settings stored under `config:eq`: `None` when there are
/// none, `Some(None)` when the entry is not readable.
pub open spec fn stored_eq(es: Seq<EntryView>) -> Option<Option<EqConfig>> {
    match lookup(es, utf8("config:eq"@)) {
        None => None,
        Some(v) => match read_eq(v) {
            Some((c, _)) => Some(Some(c)),
            None => Some(None),
        },
    }
}

/// The effects applied to a track: `effects`, followed by an equaliser
/// with the stored gains where there are stored gains; the message where
/// the stored settings are not readable.
pub open spec fn dsp_effect_list(es: Seq<EntryView>, effects: Seq<Effect>) -> Result<Seq<Effect>, Seq<char>> {
    match stored_eq(es) {
        None => Ok(effects),
        Some(Some(c)) => Ok(effects.push(Effect::Eq { bass: c.bass_bits, mid: c.mid_bits, treble: c.treble_bits })),
        Some(None) => Err(eq_failure(es)),
    }
}

proof fn lemma_collect_prefix_fails(es: Seq<EntryView>, keys: Seq<Seq<u8>>, i: int, j: int)
    requires
        0 <= i <= j <= keys.len(),
        collect_metadata(es, keys.take(i)) is Err,
    ensures
        collect_metadata(es, keys.take(j)) == collect_metadata(es, keys.take(i)),
    decreases j - i,
{
    if i < j {
        lemma_collect_prefix_fails(es, keys, i, j - 1);
        assert(keys.take(j).drop_last() =~= keys.take(j - 1));
    }
}

fn db_error(e: StreamDBError) -> (res: AppError)
    ensures
        store_failed(res, db_message(e)),
{
    match e {
        StreamDBError::InvalidKey(msg) => AppError::StreamDBError(
            string_from_str("Invalid key: ").concat(msg.as_str()),
        ),
    }
}

fn invalid_input(msg: &str) -> (res: AppError)
    ensures
        invalid(res, msg@),
{
    AppError::InvalidInput(string_from_str(msg))
}

/// Invalid input: `what`, followed by the decoder's description of why
/// the record `k` at the front of `data` does not decode.
fn decode_failure(what: String, k: RecordKind, data: &[u8]) -> (res: AppError)
    requires
        !record_decodes(k, data@),
    ensures
        invalid(res, what@ + fault_description(k, data@)),
{
    proof {
        lemma_undecodable_has_fault(k, data@);
    }
    match record_fault_text(k, data) {
        Some(m) => AppError::InvalidInput(what.concat(m.as_str())),
        None => AppError::InvalidInput(what),
    }
}

fn invalid_input_for(msg: &str, key: &String) -> (res: AppError)
    ensures
        invalid(res, msg@ + key@),
{
    AppError::InvalidInput(string_from_str(msg).concat(key.as_str()))
}

/// The library.
pub struct AppState {
    db: StreamDB,
}

impl AppState {
    /// The store's entries.
    pub closed spec fn entries(&self) -> Seq<EntryView> {
        self.db.entries()
    }

    pub closed spec fn wf(&self) -> bool {
        self.db.wf()
    }

    /// A library over `db`.
    pub fn new(db: StreamDB) -> (s: AppState)
        requires
            db.wf(),
        ensures
            s.wf(),
            s.entries() == db.entries(),
    {
        AppState { db }
    }

    /// The store.
    pub fn db(&self) -> (db: &StreamDB)
        ensures
            db.entries() == self.entries(),
            self.wf() ==> db.wf(),
    {
        &self.db
    }

    /// Decodes the metadata stored under each of `keys`, in order; keys
    /// with no entry are passed over.
    fn collect_tracks(&self, keys: &Vec<Vec<u8>>) -> (res: Result<Vec<Metadata>, AppError>)
        requires
            self.wf(),
        ensures
            match collected(self.entries(), keys@.map_values(|k: Vec<u8>| k@)) {
                Ok(ms) => res matches Ok(v) && metadata_views(v@) == ms,
                Err(m) => res matches Err(e) && invalid(e, m),
            },
    {
        let ghost ks = keys@.map_values(|k: Vec<u8>| k@);
        let mut tracks: Vec<Metadata> = Vec::new();
        let mut i: usize = 0;
        proof {
            assert(ks.take(0) =~= Seq::<Seq<u8>>::empty());
            assert(metadata_views(tracks@) =~= Seq::<MetadataView>::empty());
        }
        while i < keys.len()
            invariant
                self.wf(),
                ks == keys@.map_values(|k: Vec<u8>| k@),
                i <= keys@.len(),
                collect_metadata(self.entries(), ks.take(i as int)) == Ok::<Seq<MetadataView>, Seq<u8>>(
                    metadata_views(tracks@),
                ),
            decreases keys@.len() - i,
        {
            proof {
                assert(ks.take(i as int + 1).drop_last() =~= ks.take(i as int));
                assert(ks.take(i as int + 1).last() == keys@[i as int]@);
            }
            match self.db.get(keys[i].as_slice()) {
                Some(data) => {
                    match Metadata::decode_length_delimited(data.as_slice()) {
                        Some((m, _)) => {
                            let ghost before = metadata_views(tracks@);
                            tracks.push(m);
                            proof {
                                assert(metadata_views(tracks@) =~= before.push(m@));
                            }
                        },
                        None => {
                            proof {
                                lemma_collect_prefix_fails(
                                    self.entries(),
                                    ks,
                                    i as int + 1,
                                    ks.len() as int,
                                );
                                assert(ks.take(ks.len() as int) =~= ks);
                            }
                            let shown = text_lossy(keys[i].as_slice());
                            let msg = string_from_str("Failed to decode metadata for ").concat(
                                shown.as_str(),
                            ).concat(": ");
                            return Err(decode_failure(msg, RecordKind::Metadata, data.as_slice()));
                        },
                    }
                },
                None => {},
            }
            i = i + 1;
        }
        proof {
            assert(ks.take(i as int) =~= ks);
        }
        Ok(tracks)
    }

    /// Stores a track, with its encoded audio after its length-delimited
    /// metadata, under `audio:<artist>:<album>:<title>`; hands the
    /// metadata back. Refused, with nothing stored, where that key is not
    /// one the store accepts.
    pub fn store_track(&mut self, metadata: Metadata, encoded_audio: Vec<u8>) -> (res: Result<Metadata, AppError>)
        requires
            old(self).wf(),
        ensures
            final(self).wf(),
            valid_key(utf8(track_key(metadata@))) ==> (res matches Ok(m) && m@ == metadata@
                && final(self).entries() == track_stored(
                old(self).entries(),
                metadata@,
                encoded_audio@,
            )),
            !valid_key(utf8(track_key(metadata@))) ==> (res matches Err(e) && store_failed(
                e,
                "Invalid path"@,
            ) && final(self).entries() == old(self).entries()),
    {
        let mut key = string_from_str("audio:");
        key.append(metadata.artist.as_str());
        key.append(":");
        key.append(metadata.album.as_str());
        key.append(":");
        key.append(metadata.title.as_str());
        let mut value = metadata.encode_length_delimited();
        let mut audio = encoded_audio;
        value.append(&mut audio);
        let key_bytes = text_bytes(&key);
        match self.db.insert(key_bytes.as_slice(), value.as_slice()) {
            Ok(()) => Ok(metadata),
            Err(e) => Err(db_error(e)),
        }
    }

    /// Creates an empty playlist under `playlist:<name>` (replacing one of
    /// that name) and returns its key. Refused where the name is empty,
    /// or where the key is not one the store accepts; then nothing changes.
    pub fn create_playlist(&mut self, name: String) -> (res: Result<String, AppError>)
        requires
            old(self).wf(),
        ensures
            final(self).wf(),
            name@.len() == 0 ==> (res matches Err(e) && invalid(e, "Playlist name cannot be empty"@)),
            name@.len() > 0 && !valid_key(utf8("playlist:"@ + name@)) ==> (res matches Err(e)
                && store_failed(e, "Invalid path"@)),
            res is Err ==> final(self).entries() == old(self).entries(),
            name@.len() > 0 && valid_key(utf8("playlist:"@ + name@)) ==> (res matches Ok(k) && k@
                == "playlist:"@ + name@ && final(self).entries() == playlist_created(
                old(self).entries(),
                name@,
            )),
    {
        if name.as_str().is_empty() {
            return Err(invalid_input("Playlist name cannot be empty"));
        }
        let mut key = string_from_str("playlist:");
        key.append(name.as_str());
        let playlist = Playlist { track_keys: Vec::new() };
        let value = playlist.encode_length_delimited();
        proof {
            assert(playlist@ =~= Seq::<Seq<char>>::empty());
        }
        let key_bytes = text_bytes(&key);
        match self.db.insert(key_bytes.as_slice(), value.as_slice()) {
            Ok(()) => Ok(key),
            Err(e) => Err(db_error(e)),
        }
    }

    /// Appends `track_key` to the playlist stored under `playlist_key`.
    /// Refused, with nothing changed, where there is no such playlist, its
    /// entry is not a playlist, or `track_key` does not start with
    /// `audio:`.
    pub fn add_to_playlist(&mut self, playlist_key: String, track_key: String) -> (res: Result<(), AppError>)
        requires
            old(self).wf(),
        ensures
            final(self).wf(),
            match playlist_added(old(self).entries(), utf8(playlist_key@), track_key@) {
                Some(es) => res is Ok && final(self).entries() == es,
                None => res matches Err(e) && invalid(
                    e,
                    playlist_add_message(old(self).entries(), playlist_key@, track_key@),
                ) && final(self).entries() == old(self).entries(),
            },
    {
        let pk = text_bytes(&playlist_key);
        let value = match self.db.get(pk.as_slice()) {
            Some(v) => v,
            None => return Err(invalid_input_for("Playlist not found: ", &playlist_key)),
        };
        let (mut playlist, _) = match Playlist::decode_length_delimited(value.as_slice()) {
            Some(r) => r,
            None => return Err(
                decode_failure(
                    string_from_str("Failed to decode playlist: "),
                    RecordKind::Playlist,
                    value.as_slice(),
                ),
            ),
        };
        let tk = text_bytes(&track_key);
        let prefix = "audio:".as_bytes();
        if !starts_with(tk.as_slice(), prefix) {
            return Err(invalid_input_for("Invalid track key: ", &track_key));
        }
        let ghost before = playlist@;
        playlist.track_keys.push(track_key);
        proof {
            assert(playlist@ =~= before.push(track_key@));
            self.db.lemma_wf();
        }
        let new_value = playlist.encode_length_delimited();
        match self.db.insert(pk.as_slice(), new_value.as_slice()) {
            Ok(()) => Ok(()),
            Err(e) => Err(db_error(e)),
        }
    }

    /// The tracks of the playlist stored under `playlist_key`, in playlist
    /// order; track keys with no entry are passed over.
    pub fn get_playlist(&self, playlist_key: String) -> (res: Result<Vec<Metadata>, AppError>)
        requires
            self.wf(),
        ensures
            match playlist_tracks(self.entries(), playlist_key@) {
                Ok(ms) => res matches Ok(v) && metadata_views(v@) == ms,
                Err(m) => res matches Err(e) && invalid(e, m),
            },
    {
        let pk = text_bytes(&playlist_key);
        let value = match self.db.get(pk.as_slice()) {
            Some(v) => v,
            None => return Err(invalid_input_for("Playlist not found: ", &playlist_key)),
        };
        let (playlist, _) = match Playlist::decode_length_delimited(value.as_slice()) {
            Some(r) => r,
            None => return Err(
                decode_failure(
                    string_from_str("Failed to decode playlist: "),
                    RecordKind::Playlist,
                    value.as_slice(),
                ),
            ),
        };
        let mut keys: Vec<Vec<u8>> = Vec::new();
        let mut i: usize = 0;
        while i < playlist.track_keys.len()
            invariant
                i <= playlist.track_keys@.len(),
                keys@.map_values(|k: Vec<u8>| k@) == playlist@.take(i as int).map_values(
                    |k: Seq<char>| utf8(k),
                ),
            decreases playlist.track_keys@.len() - i,
        {
            let ghost before = keys@.map_values(|k: Vec<u8>| k@);
            keys.push(text_bytes(&playlist.track_keys[i]));
            proof {
                assert(playlist@[i as int] == playlist.track_keys@[i as int]@);
                assert(playlist@.take(i as int + 1) =~= playlist@.take(i as int).push(playlist@[i as int]));
                assert(playlist@.take(i as int + 1).map_values(|k: Seq<char>| utf8(k)) =~= playlist@.take(
                    i as int,
                ).map_values(|k: Seq<char>| utf8(k)).push(utf8(playlist@[i as int])));
                assert(keys@.map_values(|k: Vec<u8>| k@) =~= playlist@.take(i as int + 1).map_values(
                    |k: Seq<char>| utf8(k),
                ));
            }
            i = i + 1;
        }
        proof {
            assert(playlist@.take(i as int) =~= playlist@);
        }
        self.collect_tracks(&keys)
    }

    /// The audio of the track stored under `key`: the entry's bytes from
    /// the offset equal to the length of its decoded metadata message body.
    pub fn get_track_audio(&self, key: String) -> (res: Result<Vec<u8>, AppError>)
        requires
            self.wf(),
        ensures
            match track_audio(self.entries(), utf8(key@)) {
                Some(a) => res matches Ok(v) && v@ == a,
                None => res matches Err(e) && invalid(e, track_audio_message(self.entries(), key@)),
            },
    {
        let k = text_bytes(&key);
        let data = match self.db.get(k.as_slice()) {
            Some(v) => v,
            None => return Err(invalid_input_for("Track not found: ", &key)),
        };
        let (metadata, _) = match Metadata::decode_length_delimited(data.as_slice()) {
            Some(r) => r,
            None => return Err(
                decode_failure(
                    string_from_str("Failed to decode metadata: "),
                    RecordKind::Metadata,
                    data.as_slice(),
                ),
            ),
        };
        proof {
            lemma_metadata_reencode_len(data@);
        }
        let metadata_len = metadata.encoded_len();
        let audio = vstd::slice::slice_subrange(data.as_slice(), metadata_len, data.len());
        Ok(vstd::slice::slice_to_vec(audio))
    }

    /// The tracks whose keys start with `prefix`, in store order. Refused
    /// where the prefix is empty.
    pub fn search_tracks(&self, prefix: String) -> (res: Result<Vec<Metadata>, AppError>)
        requires
            self.wf(),
        ensures
            match search_result(self.entries(), prefix@) {
                Ok(ms) => res matches Ok(v) && metadata_views(v@) == ms,
                Err(m) => res matches Err(e) && invalid(e, m),
            },
    {
        if prefix.as_str().is_empty() {
            return Err(invalid_input("Search prefix cannot be empty"));
        }
        let p = text_bytes(&prefix);
        let keys = self.db.prefix_search(p.as_slice());
        self.collect_tracks(&keys)
    }

    /// Stores `effects_config` under `config:dsp` when `enabled`; removes
    /// that entry otherwise, refused where there is none.
    pub fn toggle_beta_dsp(&mut self, enabled: bool, effects_config: Vec<u8>) -> (res: Result<(), AppError>)
        requires
            old(self).wf(),
        ensures
            final(self).wf(),
            enabled ==> res is Ok && final(self).entries() == put(
                old(self).entries(),
                utf8("config:dsp"@),
                effects_config@,
            ),
            !enabled ==> match lookup(old(self).entries(), utf8("config:dsp"@)) {
                Some(_) => res is Ok && final(self).entries() == remove_key(
                    old(self).entries(),
                    utf8("config:dsp"@),
                ),
                None => res matches Err(e) && store_failed(e, "Path not found"@)
                    && final(self).entries() == old(self).entries(),
            },
    {
        let key = "config:dsp".as_bytes();
        proof {
            lemma_config_keys_valid();
        }
        if enabled {
            match self.db.insert(key, effects_config.as_slice()) {
                Ok(()) => Ok(()),
                Err(e) => Err(db_error(e)),
            }
        } else {
            match self.db.delete(key) {
                Ok(()) => Ok(()),
                Err(e) => Err(db_error(e)),
            }
        }
    }

    /// Stores the equaliser gains under `config:eq` when `enabled`, refused
    /// where a gain is more than 12 dB either way; removes that entry
    /// otherwise, refused where there is none. Gains are `f64` bit patterns.
    pub fn toggle_beta_eq(&mut self, enabled: bool, bass: u64, mid: u64, treble: u64) -> (res: Result<(), AppError>)
        requires
            old(self).wf(),
        ensures
            final(self).wf(),
            enabled && (gain_out_of_range(bass) || gain_out_of_range(mid) || gain_out_of_range(treble))
                ==> (res matches Err(e) && invalid(e, "EQ gains must be between -12dB and +12dB"@)
                && final(self).entries() == old(self).entries()),
            enabled && !(gain_out_of_range(bass) || gain_out_of_range(mid) || gain_out_of_range(treble))
                ==> res is Ok && final(self).entries() == put(
                old(self).entries(),
                utf8("config:eq"@),
                length_delimited(
                    eq_body(EqConfig { bass_bits: bass, mid_bits: mid, treble_bits: treble }),
                ),
            ),
            !enabled ==> match lookup(old(self).entries(), utf8("config:eq"@)) {
                Some(_) => res is Ok && final(self).entries() == remove_key(
                    old(self).entries(),
                    utf8("config:eq"@),
                ),
                None => res matches Err(e) && store_failed(e, "Path not found"@)
                    && final(self).entries() == old(self).entries(),
            },
    {
        let key = "config:eq".as_bytes();
        proof {
            lemma_config_keys_valid();
        }
        if enabled {
            if !gains_accepted(bass, mid, treble) {
                return Err(invalid_input("EQ gains must be between -12dB and +12dB"));
            }
            let config = EqConfig { bass_bits: bass, mid_bits: mid, treble_bits: treble };
            let value = config.encode_length_delimited();
            match self.db.insert(key, value.as_slice()) {
                Ok(()) => Ok(()),
                Err(e) => Err(db_error(e)),
            }
        } else {
            match self.db.delete(key) {
                Ok(()) => Ok(()),
                Err(e) => Err(db_error(e)),
            }
        }
    }

    /// The equaliser settings: `None` when none are stored; refused where
    /// the stored entry is not readable.
    pub fn get_eq_config(&self) -> (res: Result<Option<EqConfig>, AppError>)
        requires
            self.wf(),
        ensures
            match stored_eq(self.entries()) {
                None => res matches Ok(c) && c is None,
                Some(Some(c)) => res == Ok::<Option<EqConfig>, AppError>(Some(c)),
                Some(None) => res matches Err(e) && invalid(e, eq_failure(self.entries())),
            },
    {
        match self.db.get("config:eq".as_bytes()) {
            Some(data) => match EqConfig::decode_length_delimited(data.as_slice()) {
                Some((c, _)) => Ok(Some(c)),
                None => Err(
                    decode_failure(
                        string_from_str("Failed to decode EQ config: "),
                        RecordKind::EqConfig,
                        data.as_slice(),
                    ),
                ),
            },
            None => Ok(None),
        }
    }

    /// The effects to apply to a track: `effects`, followed by an
    /// equaliser with the stored gains where there are stored gains.
    /// Refused where the stored settings are not readable.
    pub fn dsp_effects(&self, effects: Vec<Effect>) -> (res: Result<Vec<Effect>, AppError>)
        requires
            self.wf(),
        ensures
            match dsp_effect_list(self.entries(), effects@) {
                Ok(l) => res matches Ok(v) && v@ == l,
                Err(m) => res matches Err(e) && invalid(e, m),
            },
    {
        let mut effects = effects;
        match self.get_eq_config() {
            Ok(Some(c)) => {
                effects.push(Effect::Eq { bass: c.bass_bits, mid: c.mid_bits, treble: c.treble_bits });
                Ok(effects)
            },
            Ok(None) => Ok(effects),
            Err(e) => Err(e),
        }
    }
}

/// A playlist just created reads back with no tracks.
pub proof fn lemma_created_playlist_is_empty(es: Seq<EntryView>, pk: Seq<char>)
    ensures
        playlist_tracks(put(es, utf8(pk), length_delimited(playlist_body(Seq::empty()))), pk) == Ok::<
            Seq<MetadataView>,
            Seq<char>,
        >(Seq::empty()),
{
    let v = length_delimited(playlist_body(Seq::empty()));
    lemma_read_after_write(es, utf8(pk), v, utf8(pk));
    assert(playlist_body(Seq::<Seq<char>>::empty()).len() == 0);
    lemma_playlist_roundtrip(Seq::empty(), Seq::empty());
    assert(v + Seq::<u8>::empty() =~= v);
    assert(Seq::<Seq<char>>::empty().map_values(|k: Seq<char>| utf8(k)) =~= Seq::<Seq<u8>>::empty());
}

/// Adding a track key to a playlist appends it: the playlist then reads
/// back with its former keys followed by the new one.
pub proof fn lemma_added_track_key_is_last(es: Seq<EntryView>, pk: Seq<u8>, tk: Seq<char>)
    requires
        playlist_added(es, pk, tk) is Some,
        keys_fit(read_playlist(lookup(es, pk).unwrap()).unwrap().0.push(tk)),
        playlist_body(read_playlist(lookup(es, pk).unwrap()).unwrap().0.push(tk)).len() <= u64::MAX,
    ensures
        lookup(playlist_added(es, pk, tk).unwrap(), pk) matches Some(v) && read_playlist(v) matches Some((keys, _))
            && keys == read_playlist(lookup(es, pk).unwrap()).unwrap().0.push(tk),
{
    let keys = read_playlist(lookup(es, pk).unwrap()).unwrap().0.push(tk);
    let v = length_delimited(playlist_body(keys));
    lemma_read_after_write(es, pk, v, pk);
    lemma_playlist_roundtrip(keys, Seq::empty());
    assert(v + Seq::<u8>::empty() =~= v);
}

/// A stored track's entry starts with its metadata, which reads back as
/// recorded (a zero duration of either sign as `+0`).
pub proof fn lemma_stored_track_metadata(es: Seq<EntryView>, m: MetadataView, audio: Seq<u8>)
    requires
        metadata_body(m).len() <= u64::MAX,
    ensures
        lookup(
            put(es, utf8(track_key(m)), length_delimited(metadata_body(m)) + audio),
            utf8(track_key(m)),
        ) matches Some(v) && read_metadata(v) matches Some((r, n)) && r == metadata_stored(m) && v.subrange(
            n as int,
            v.len() as int,
        ) == audio,
        collect_metadata(
            put(es, utf8(track_key(m)), length_delimited(metadata_body(m)) + audio),
            seq![utf8(track_key(m))],
        ) == Ok::<Seq<MetadataView>, Seq<u8>>(seq![metadata_stored(m)]),
{
    let k = utf8(track_key(m));
    let v = length_delimited(metadata_body(m)) + audio;
    lemma_read_after_write(es, k, v, k);
    lemma_metadata_roundtrip(m, audio);
    let n = length_delimited(metadata_body(m)).len();
    assert(v.subrange(n as int, v.len() as int) =~= audio);
    let es2 = put(es, k, v);
    let ks = seq![k];
    assert(ks.drop_last() =~= Seq::<Seq<u8>>::empty());
    assert(ks.last() == k);
    assert(collect_metadata(es2, ks.drop_last()) == Ok::<Seq<MetadataView>, Seq<u8>>(
        Seq::<MetadataView>::empty(),
    ));
    assert(lookup(es2, ks.last()) == Some(v));
    assert(Seq::<MetadataView>::empty().push(metadata_stored(m)) =~= seq![metadata_stored(m)]);
}

/// What `get_track_audio` hands out for a stored track: the stored audio,
/// preceded by as many bytes of the metadata message's end as its length
/// prefix takes.
pub proof fn lemma_stored_track_audio(es: Seq<EntryView>, m: MetadataView, audio: Seq<u8>)
    requires
        metadata_body(m).len() <= u64::MAX,
    ensures
        track_audio(
            put(es, utf8(track_key(m)), length_delimited(metadata_body(m)) + audio),
            utf8(track_key(m)),
        ) == Some(
            length_delimited(metadata_body(m)).subrange(
                metadata_body(m).len() as int,
                length_delimited(metadata_body(m)).len() as int,
            ) + audio,
        ),
        length_delimited(metadata_body(m)).len() - metadata_body(m).len() == varint_bytes(
            metadata_body(m).len(),
        ).len(),
{
    let k = utf8(track_key(m));
    let ld = length_delimited(metadata_body(m));
    let v = ld + audio;
    lemma_read_after_write(es, k, v, k);
    lemma_metadata_roundtrip(m, audio);
    let b = metadata_body(m).len();
    assert(v.subrange(b as int, v.len() as int) =~= ld.subrange(b as int, ld.len() as int) + audio);
}

/// Equaliser gains that were stored read back (zeros of either sign as
/// `+0`); after their removal none read back.
pub proof fn lemma_eq_settings_read_back(es: Seq<EntryView>, c: EqConfig)
    requires
        distinct_keys(es),
    ensures
        stored_eq(put(es, utf8("config:eq"@), length_delimited(eq_body(c)))) == Some(
            Some(eq_stored(c)),
        ),
        stored_eq(remove_key(es, utf8("config:eq"@))) is None,
{
    let k = utf8("config:eq"@);
    let v = length_delimited(eq_body(c));
    lemma_read_after_write(es, k, v, k);
    lemma_read_after_delete(es, k, k);
    lemma_eq_roundtrip(c, Seq::empty());
    assert(v + Seq::<u8>::empty() =~= v);
}

/// The keys `config:eq` and `config:dsp` are ones the store accepts.
proof fn lemma_config_keys_valid()
    ensures
        valid_key(utf8("config:eq"@)),
        valid_key(utf8("config:dsp"@)),
{
    broadcast use vstd::string::is_ascii_spec_bytes;

    reveal_strlit("config:eq");
    reveal_strlit("config:dsp");
    assert(is_ascii("config:eq"));
    assert(is_ascii("config:dsp"));
    assert("config:eq".spec_bytes() =~= Seq::new(9, |i: int| "config:eq"@[i] as u8));
    assert("config:dsp".spec_bytes() =~= Seq::new(10, |i: int| "config:dsp"@[i] as u8));
    assert(utf8("config:eq"@) =~= seq![99u8, 111, 110, 102, 105, 103, 58, 101, 113]);
    assert(utf8("config:dsp"@) =~= seq![99u8, 111, 110, 102, 105, 103, 58, 100, 115, 112]);
}

proof fn lemma_collect_readable(es: Seq<EntryView>, keys: Seq<Seq<u8>>)
    requires
        forall|j: int|
            0 <= j < keys.len() && #[trigger] lookup(es, keys[j]) is Some ==> read_metadata(
                lookup(es, keys[j]).unwrap(),
            ) is Some,
    ensures
        collect_metadata(es, keys) is Ok,
    decreases keys.len(),
{
    if keys.len() > 0 {
        let d = keys.drop_last();
        assert forall|j: int| 0 <= j < d.len() && #[trigger] lookup(es, d[j]) is Some implies read_metadata(
            lookup(es, d[j]).unwrap(),
        ) is Some by {
            assert(d[j] == keys[j]);
        }
        lemma_collect_readable(es, d);
        assert(keys.last() == keys[keys.len() - 1]);
    }
}

proof fn lemma_collect_contains(es: Seq<EntryView>, keys: Seq<Seq<u8>>, k: Seq<u8>, r: MetadataView)
    requires
        keys.contains(k),
        lookup(es, k) matches Some(v) && read_metadata(v) matches Some((m, _)) && m == r,
    ensures
        collect_metadata(es, keys) matches Ok(ms) ==> ms.contains(r),
    decreases keys.len(),
{
    let d = keys.drop_last();
    if collect_metadata(es, keys) is Ok {
        let ms = collect_metadata(es, d)->Ok_0;
        if keys.last() == k {
            assert(ms.push(r)[ms.len() as int] == r);
        } else {
            let j = choose|j: int| 0 <= j < keys.len() && keys[j] == k;
            assert(d[j] == k);
            lemma_collect_contains(es, d, k, r);
            let i = choose|i: int| 0 <= i < ms.len() && ms[i] == r;
            if let Some(v) = lookup(es, keys.last()) {
                if let Some((m, _)) = read_metadata(v) {
                    assert(ms.push(m)[i] == r);
                }
            }
        }
    }
}

proof fn lemma_collect_selected(es: Seq<EntryView>, keys: Seq<Seq<u8>>, p: Seq<u8>)
    ensures
        collect_metadata(es, keys) matches Ok(ms) ==> (collect_metadata(es, keys_starting(keys, p)) matches Ok(
            ms2,
        ) && ms2.to_multiset().subset_of(ms.to_multiset())),
    decreases keys.len(),
{
    broadcast use vstd::seq_lib::group_to_multiset_ensures;

    if keys.len() > 0 {
        let d = keys.drop_last();
        let k = keys.last();
        lemma_collect_selected(es, d, p);
        let sel = keys_starting(keys, p);
        if has_prefix(k, p) {
            assert(sel.drop_last() =~= keys_starting(d, p));
            assert(sel.last() == k);
        }
    }
}

/// A track stored and then added to a newly created playlist is what
/// that playlist reads back (a zero duration of either sign as `+0`).
pub proof fn lemma_stored_track_in_new_playlist(
    es: Seq<EntryView>,
    m: MetadataView,
    audio: Seq<u8>,
    name: Seq<char>,
)
    requires
        metadata_body(m).len() <= u64::MAX,
        utf8(track_key(m)).len() <= u64::MAX,
        playlist_body(seq![track_key(m)]).len() <= u64::MAX,
    ensures
        playlist_added(
            playlist_created(track_stored(es, m, audio), name),
            utf8("playlist:"@ + name),
            track_key(m),
        ) matches Some(es3) && playlist_tracks(es3, "playlist:"@ + name) == Ok::<
            Seq<MetadataView>,
            Seq<char>,
        >(seq![metadata_stored(m)]),
{
    let tk = track_key(m);
    let pk = "playlist:"@ + name;
    let tkb = utf8(tk);
    let pkb = utf8(pk);
    let v = length_delimited(metadata_body(m)) + audio;
    let es1 = track_stored(es, m, audio);
    let es2 = playlist_created(es1, name);
    lemma_track_key_bytes(m);
    lemma_playlist_key_bytes(name);
    assert(tkb[0] != pkb[0]);
    // the playlist is created empty
    let empty = length_delimited(playlist_body(Seq::empty()));
    lemma_read_after_write(es1, pkb, empty, pkb);
    lemma_read_after_write(es1, pkb, empty, tkb);
    lemma_playlist_roundtrip(Seq::empty(), Seq::empty());
    assert(empty + Seq::<u8>::empty() =~= empty);
    // the track key is added to it
    let keys = Seq::<Seq<char>>::empty().push(tk);
    assert(keys =~= seq![tk]);
    let added = length_delimited(playlist_body(keys));
    let es3 = put(es2, pkb, added);
    assert(playlist_added(es2, pkb, tk) == Some(es3));
    lemma_read_after_write(es2, pkb, added, pkb);
    lemma_read_after_write(es2, pkb, added, tkb);
    lemma_playlist_roundtrip(keys, Seq::empty());
    assert(added + Seq::<u8>::empty() =~= added);
    // the track reads back
    lemma_read_after_write(es, tkb, v, tkb);
    lemma_metadata_roundtrip(m, audio);
    let ks = keys.map_values(|k: Seq<char>| utf8(k));
    assert(ks =~= seq![tkb]);
    assert(ks.drop_last() =~= Seq::<Seq<u8>>::empty());
    assert(Seq::<MetadataView>::empty().push(metadata_stored(m)) =~= seq![metadata_stored(m)]);
    assert(lookup(es3, pkb) == Some(added));
    assert(read_playlist(added) == Some((keys, added.len())));
    assert(lookup(es3, tkb) == Some(v));
    assert(collect_metadata(es3, ks.drop_last()) == Ok::<Seq<MetadataView>, Seq<u8>>(Seq::empty()));
    assert(collect_metadata(es3, ks) == Ok::<Seq<MetadataView>, Seq<u8>>(seq![metadata_stored(m)]));
}

/// A longer search prefix never finds more: where a search succeeds, a
/// search by a prefix that extends it succeeds too and finds a part of
/// what the first found.
pub proof fn lemma_longer_prefix_finds_less(es: Seq<EntryView>, p1: Seq<char>, p2: Seq<char>)
    requires
        p1.is_prefix_of(p2),
    ensures
        search_result(es, p1) matches Ok(ms1) ==> (search_result(es, p2) matches Ok(ms2)
            && ms2.to_multiset().subset_of(ms1.to_multiset())),
{
    if p1.len() > 0 {
        let rest = p2.subrange(p1.len() as int, p2.len() as int);
        assert(p2 =~= p1 + rest);
        lemma_utf8_concat(p1, rest);
        let q1 = utf8(p1);
        let q2 = utf8(p2);
        assert(q2.subrange(0, q1.len() as int) =~= q1);
        lemma_prefix_search_narrows(es, q1, q2);
        lemma_collect_selected(es, keys_with_prefix(es, q1), q2);
    }
}

/// A stored track is found by a search on its artist's prefix
/// `audio:<artist>:`, where every entry under an `audio:` key is a track.
pub proof fn lemma_stored_track_found_by_artist(es: Seq<EntryView>, m: MetadataView, audio: Seq<u8>)
    requires
        metadata_body(m).len() <= u64::MAX,
        forall|k: Seq<u8>|
            has_prefix(k, utf8("audio:"@)) && #[trigger] lookup(track_stored(es, m, audio), k) is Some
                ==> read_metadata(lookup(track_stored(es, m, audio), k).unwrap()) is Some,
    ensures
        search_result(track_stored(es, m, audio), artist_prefix(m.artist)) matches Ok(ms)
            && ms.contains(metadata_stored(m)),
{
    let es1 = track_stored(es, m, audio);
    let tk = track_key(m);
    let tkb = utf8(tk);
    let p = artist_prefix(m.artist);
    let q = utf8(p);
    let v = length_delimited(metadata_body(m)) + audio;
    reveal_strlit(":");
    lemma_read_after_write(es, tkb, v, tkb);
    lemma_metadata_roundtrip(m, audio);
    // the track's key starts with the artist's prefix
    let rest = tk.subrange(p.len() as int, tk.len() as int);
    assert(tk =~= p + rest);
    lemma_utf8_concat(p, rest);
    assert(tkb.subrange(0, q.len() as int) =~= q);
    lemma_prefix_search_finds(es1, q, tkb);
    // the artist's prefix starts with `audio:`
    let a = utf8("audio:"@);
    assert(p =~= "audio:"@ + (m.artist + ":"@));
    lemma_utf8_concat("audio:"@, m.artist + ":"@);
    assert(q.subrange(0, a.len() as int) =~= a);
    let keys = keys_with_prefix(es1, q);
    assert forall|j: int| 0 <= j < keys.len() && #[trigger] lookup(es1, keys[j]) is Some implies read_metadata(
        lookup(es1, keys[j]).unwrap(),
    ) is Some by {
        lemma_prefix_search_sound(es1, q, j);
        lemma_prefix_transitive(keys[j], q, a);
    }
    lemma_collect_readable(es1, keys);
    lemma_collect_contains(es1, keys, tkb, metadata_stored(m));
}

/// The stored equaliser runs after the caller's effects: with gains
/// stored, the effects applied are those applied without stored gains to
/// the caller's effects followed by an equaliser with those gains (zeros
/// of either sign as `+0`).
pub proof fn lemma_stored_eq_runs_last(es: Seq<EntryView>, c: EqConfig, effects: Seq<Effect>)
    requires
        distinct_keys(es),
    ensures
        dsp_effect_list(put(es, utf8("config:eq"@), length_delimited(eq_body(c))), effects)
            == dsp_effect_list(
            remove_key(es, utf8("config:eq"@)),
            effects.push(
                Effect::Eq {
                    bass: eq_stored(c).bass_bits,
                    mid: eq_stored(c).mid_bits,
                    treble: eq_stored(c).treble_bits,
                },
            ),
        ),
{
    lemma_eq_settings_read_back(es, c);
}

proof fn lemma_track_key_bytes(m: MetadataView)
    ensures
        has_prefix(utf8(track_key(m)), utf8("audio:"@)),
        utf8(track_key(m)).len() > 0,
        utf8(track_key(m))[0] == 97u8,
{
    let a = "audio:"@;
    let tk = track_key(m);
    let rest = tk.subrange(a.len() as int, tk.len() as int);
    assert(tk =~= a + rest);
    lemma_utf8_concat(a, rest);
    lemma_key_prefixes();
    assert(utf8(tk).subrange(0, utf8(a).len() as int) =~= utf8(a));
    assert(utf8(tk)[0] == utf8(a)[0]);
}

proof fn lemma_playlist_key_bytes(name: Seq<char>)
    ensures
        utf8("playlist:"@ + name).len() > 0,
        utf8("playlist:"@ + name)[0] == 112u8,
{
    lemma_utf8_concat("playlist:"@, name);
    lemma_key_prefixes();
    assert(utf8("playlist:"@ + name)[0] == utf8("playlist:"@)[0]);
}

/// The bytes of the key prefixes `audio:` and `playlist:`.
proof fn lemma_key_prefixes()
    ensures
        utf8("audio:"@) == seq![97u8, 117, 100, 105, 111, 58],
        utf8("playlist:"@) == seq![112u8, 108, 97, 121, 108, 105, 115, 116, 58],
{
    broadcast use vstd::string::is_ascii_spec_bytes;

    reveal_strlit("audio:");
    reveal_strlit("playlist:");
    assert(is_ascii("audio:"));
    assert(is_ascii("playlist:"));
    assert("audio:".spec_bytes() =~= Seq::new(6, |i: int| "audio:"@[i] as u8));
    assert("playlist:".spec_bytes() =~= Seq::new(9, |i: int| "playlist:"@[i] as u8));
    assert(utf8("audio:"@) =~= seq![97u8, 117, 100, 105, 111, 58]);
    assert(utf8("playlist:"@) =~= seq![112u8, 108, 97, 121, 108, 105, 115, 116, 58]);
}

/// The entry under `k` exists and starts with a metadata message.
pub open spec fn holds_track(es: Seq<EntryView>, k: Seq<u8>) -> bool {
    lookup(es, k) matches Some(v) && read_metadata(v) is Some
}

/// Reading the tracks under a list of keys passes over a key with no
/// entry: the result is that of the list without it, wherever it stands.
pub proof fn lemma_collect_skips_missing(es: Seq<EntryView>, a: Seq<Seq<u8>>, k: Seq<u8>, b: Seq<Seq<u8>>)
    requires
        lookup(es, k) is None,
    ensures
        collect_metadata(es, a.push(k) + b) == collect_metadata(es, a + b),
    decreases b.len(),
{
    if b.len() == 0 {
        assert(a.push(k) + b =~= a.push(k));
        assert(a + b =~= a);
        assert(a.push(k).drop_last() =~= a);
    } else {
        lemma_collect_skips_missing(es, a, k, b.drop_last());
        assert((a.push(k) + b).drop_last() =~= a.push(k) + b.drop_last());
        assert((a + b).drop_last() =~= a + b.drop_last());
        assert((a.push(k) + b).last() == b.last());
        assert((a + b).last() == b.last());
    }
}

/// Where every key has an entry that starts with a metadata message, the
/// tracks read are those messages, one per key, in the keys' order.
pub proof fn lemma_collect_every_key(es: Seq<EntryView>, keys: Seq<Seq<u8>>)
    requires
        forall|i: int|
            0 <= i < keys.len() ==> #[trigger] holds_track(es, keys[i]),
    ensures
        collect_metadata(es, keys) == Ok::<Seq<MetadataView>, Seq<u8>>(
            Seq::new(keys.len(), |i: int| read_metadata(lookup(es, keys[i]).unwrap()).unwrap().0),
        ),
    decreases keys.len(),
{
    if keys.len() > 0 {
        let d = keys.drop_last();
        assert forall|i: int| 0 <= i < d.len() implies #[trigger] holds_track(es, d[i]) by {
            assert(d[i] == keys[i]);
            assert(holds_track(es, keys[i]));
        }
        lemma_collect_every_key(es, d);
        assert(holds_track(es, keys[keys.len() - 1]));
        assert(keys.last() == keys[keys.len() - 1]);
        let f = |i: int| read_metadata(lookup(es, keys[i]).unwrap()).unwrap().0;
        let g = |i: int| read_metadata(lookup(es, d[i]).unwrap()).unwrap().0;
        let v = lookup(es, keys.last()).unwrap();
        let m = read_metadata(v).unwrap().0;
        assert(collect_metadata(es, d) == Ok::<Seq<MetadataView>, Seq<u8>>(Seq::new(d.len(), g)));
        assert(collect_metadata(es, keys) == Ok::<Seq<MetadataView>, Seq<u8>>(
            Seq::new(d.len(), g).push(m),
        ));
        assert(Seq::new(d.len(), g).push(m) =~= Seq::new(keys.len(), f)) by {
            assert forall|i: int| 0 <= i < d.len() implies d[i] == keys[i] by {}
        }
    } else {
        assert(Seq::new(0, |i: int| read_metadata(lookup(es, keys[i]).unwrap()).unwrap().0) =~= Seq::<
            MetadataView,
        >::empty());
    }
}

/// A playlist lists every one of its keys whose entry is a track: where
/// all its keys have track entries, it reads back one track per key, in
/// playlist order, however many keys it holds.
pub proof fn lemma_playlist_lists_every_track(es: Seq<EntryView>, pk: Seq<char>)
    requires
        lookup(es, utf8(pk)) matches Some(v) && read_playlist(v) matches Some((keys, _)) && forall|i: int|
            0 <= i < keys.len() ==> #[trigger] holds_track(es, utf8(keys[i])),
    ensures
        lookup(es, utf8(pk)) matches Some(v) && read_playlist(v) matches Some((keys, _))
            && playlist_tracks(es, pk) == Ok::<Seq<MetadataView>, Seq<char>>(
            Seq::new(
                keys.len(),
                |i: int| read_metadata(lookup(es, utf8(keys[i])).unwrap()).unwrap().0,
            ),
        ),
{
    let v = lookup(es, utf8(pk)).unwrap();
    let keys = read_playlist(v).unwrap().0;
    let ks = keys.map_values(|k: Seq<char>| utf8(k));
    assert forall|i: int| 0 <= i < ks.len() implies #[trigger] holds_track(es, ks[i]) by {
        assert(ks[i] == utf8(keys[i]));
        assert(holds_track(es, utf8(keys[i])));
    }
    lemma_collect_every_key(es, ks);
    assert(Seq::new(ks.len(), |i: int| read_metadata(lookup(es, ks[i]).unwrap()).unwrap().0) =~= Seq::new(
        keys.len(),
        |i: int| read_metadata(lookup(es, utf8(keys[i])).unwrap()).unwrap().0,
    ));
}

/// Adding a track key to a playlist succeeds exactly where the playlist
/// entry exists and decodes and the key starts with `audio:`, whatever
/// keys the playlist already holds (the same key may be added again).
pub proof fn lemma_add_accepted_exactly(es: Seq<EntryView>, pk: Seq<u8>, tk: Seq<char>)
    ensures
        playlist_added(es, pk, tk) is Some <==> (lookup(es, pk) matches Some(v) && read_playlist(v) is Some
            && has_prefix(utf8(tk), utf8("audio:"@))),
        (lookup(es, pk) matches Some(v) && read_playlist(v) is Some && "audio:"@.is_prefix_of(tk))
            ==> playlist_added(es, pk, tk) is Some,
{
    if "audio:"@.is_prefix_of(tk) {
        let a = "audio:"@;
        let rest = tk.subrange(a.len() as int, tk.len() as int);
        assert(tk =~= a + rest);
        lemma_utf8_concat(a, rest);
        assert(utf8(tk).subrange(0, utf8(a).len() as int) =~= utf8(a));
    }
}

} // verus!
