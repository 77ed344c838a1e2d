use streamtune::app_state::{AppError, AppState};
use streamtune::effects::{check_buffers, Effect};
use streamtune::export::{export_album, export_file_name, export_playlist, track_export};
use streamtune::records::{EqConfig, Metadata, Playlist};
use streamtune::store::StreamDB;
use streamtune::text::text_from_bytes;
use streamtune::tracks::{
    metadata_from_tags, next_import_action, opus_params, tag_value, track_metadata, ImportAction,
    ImportEvent,
};

fn meta(title: &str, artist: &str, album: &str) -> Metadata {
    Metadata { title: title.to_string(), artist: artist.to_string(), album: album.to_string(), duration_bits: 180.0f64.to_bits() }
}

fn library() -> AppState {
    AppState::new(StreamDB::new())
}

fn invalid(r: Result<impl Sized, AppError>) -> bool {
    matches!(r, Err(AppError::InvalidInput(_)))
}

#[test]
fn store_and_read_track() {
    let mut lib = library();
    let m = lib.store_track(meta("Song One", "The Band", "Debut"), vec![1, 2, 3]).ok().unwrap();
    assert_eq!(m.title, "Song One");
    let key = "audio:The Band:Debut:Song One";
    let stored = lib.db().get(key.as_bytes()).unwrap();
    let mut expected = meta("Song One", "The Band", "Debut").encode_length_delimited();
    expected.extend_from_slice(&[1, 2, 3]);
    assert_eq!(stored, expected);
    // the audio handed out starts at the offset equal to the body length
    let body_len = meta("Song One", "The Band", "Debut").encoded_len();
    assert_eq!(lib.get_track_audio(key.to_string()).ok().unwrap(), stored[body_len..].to_vec());
    assert!(invalid(lib.get_track_audio("audio:none".to_string())));
}

#[test]
fn store_track_with_unstorable_key() {
    let mut lib = library();
    let r = lib.store_track(meta("a//b", "x", "y"), vec![]);
    assert!(matches!(r, Err(AppError::StreamDBError(_))));
    assert!(lib.db().prefix_search(b"").is_empty());
}

#[test]
fn playlists() {
    let mut lib = library();
    lib.store_track(meta("One", "A", "X"), vec![9]).ok().unwrap();
    lib.store_track(meta("Two", "A", "X"), vec![8]).ok().unwrap();
    let pk = lib.create_playlist("mix".to_string()).ok().unwrap();
    assert_eq!(pk, "playlist:mix");
    assert!(lib.get_playlist(pk.clone()).ok().unwrap().is_empty());
    lib.add_to_playlist(pk.clone(), "audio:A:X:Two".to_string()).ok().unwrap();
    lib.add_to_playlist(pk.clone(), "audio:missing".to_string()).ok().unwrap();
    lib.add_to_playlist(pk.clone(), "audio:A:X:One".to_string()).ok().unwrap();
    let tracks = lib.get_playlist(pk.clone()).ok().unwrap();
    let titles: Vec<String> = tracks.iter().map(|t| t.title.clone()).collect();
    assert_eq!(titles, vec!["Two".to_string(), "One".to_string()]);
    assert!(invalid(lib.add_to_playlist(pk.clone(), "song".to_string())));
    assert!(invalid(lib.add_to_playlist("playlist:none".to_string(), "audio:x".to_string())));
    assert!(invalid(lib.get_playlist("playlist:none".to_string())));
    assert!(invalid(lib.create_playlist(String::new())));
    assert!(matches!(lib.create_playlist("a//b".to_string()), Err(AppError::StreamDBError(_))));
    let raw = lib.db().get(pk.as_bytes()).unwrap();
    let (p, _) = Playlist::decode_length_delimited(&raw).unwrap();
    assert_eq!(p.track_keys.len(), 3);
}

#[test]
fn playlist_over_a_track_entry() {
    let mut lib = library();
    lib.store_track(meta("T", "A", "B"), vec![]).ok().unwrap();
    // a track entry read as a playlist: its title is taken as a key
    let tracks = lib.get_playlist("audio:A:B:T".to_string()).ok().unwrap();
    assert!(tracks.is_empty());
}

#[test]
fn search() {
    let mut lib = library();
    lib.store_track(meta("One", "A", "X"), vec![]).ok().unwrap();
    lib.store_track(meta("Two", "B", "Y"), vec![]).ok().unwrap();
    lib.create_playlist("p".to_string()).ok().unwrap();
    let found = lib.search_tracks("audio:A".to_string()).ok().unwrap();
    assert_eq!(found.len(), 1);
    assert_eq!(found[0].artist, "A");
    assert_eq!(lib.search_tracks("audio:".to_string()).ok().unwrap().len(), 2);
    assert!(invalid(lib.search_tracks(String::new())));
    // an empty playlist entry also reads as a metadata message (an empty one)
    assert_eq!(lib.search_tracks("playlist:".to_string()).ok().unwrap().len(), 1);
}

#[test]
fn equaliser_settings() {
    let mut lib = library();
    assert!(lib.get_eq_config().ok().unwrap().is_none());
    assert!(matches!(lib.toggle_beta_eq(false, 0, 0, 0), Err(AppError::StreamDBError(_))));
    assert!(invalid(lib.toggle_beta_eq(true, 13.0f64.to_bits(), 0, 0)));
    lib.toggle_beta_eq(true, 3.0f64.to_bits(), (-0.0f64).to_bits(), (-12.0f64).to_bits()).ok().unwrap();
    let c = lib.get_eq_config().ok().unwrap().unwrap();
    assert_eq!(f64::from_bits(c.bass_bits), 3.0);
    assert_eq!(c.mid_bits, 0);
    assert_eq!(f64::from_bits(c.treble_bits), -12.0);
    let fx = lib.dsp_effects(vec![Effect::Delay(0)]).ok().unwrap();
    assert_eq!(fx.len(), 2);
    assert!(matches!(fx[1], Effect::Eq { bass, .. } if bass == 3.0f64.to_bits()));
    lib.toggle_beta_eq(false, 0, 0, 0).ok().unwrap();
    assert!(lib.get_eq_config().ok().unwrap().is_none());
    assert_eq!(lib.dsp_effects(vec![]).ok().unwrap().len(), 0);
}

#[test]
fn dsp_settings() {
    let mut lib = library();
    lib.toggle_beta_dsp(true, vec![1, 2]).ok().unwrap();
    assert_eq!(lib.db().get(b"config:dsp"), Some(vec![1, 2]));
    lib.toggle_beta_dsp(false, vec![]).ok().unwrap();
    assert_eq!(lib.db().get(b"config:dsp"), None);
    assert!(lib.toggle_beta_dsp(false, vec![]).is_err());
}

#[test]
fn unreadable_eq_settings() {
    let mut db = StreamDB::new();
    db.insert(b"config:eq", &[2, 0x0A, 0]).ok().unwrap();
    let lib = AppState::new(db);
    assert!(invalid(lib.get_eq_config()));
    assert!(invalid(lib.dsp_effects(vec![])));
    let c = EqConfig { bass_bits: 0, mid_bits: 0, treble_bits: 0 };
    assert_eq!(c.encode_length_delimited(), vec![0]);
}

#[test]
fn export_names_and_files() {
    let m = meta("My Song", "The  Band", "X");
    assert_eq!(export_file_name(&m), "The__Band_My_Song.opus");
    let mut v = m.encode_length_delimited();
    v.extend_from_slice(&[5, 6]);
    let f = track_export(&v).unwrap();
    assert_eq!(f.file_name, "The__Band_My_Song.opus");
    assert_eq!(f.audio, vec![5, 6]);
    assert!(track_export(&[9]).is_none());
}

#[test]
fn export_album_and_playlist() {
    let mut lib = library();
    lib.store_track(meta("One", "A", "X"), vec![1]).ok().unwrap();
    lib.store_track(meta("Two", "A", "X"), vec![2]).ok().unwrap();
    lib.store_track(meta("Three", "B", "Y"), vec![3]).ok().unwrap();
    let plan = export_album(lib.db(), &"audio:A:X".to_string());
    assert!(!plan.decode_failed);
    assert_eq!(plan.files.len(), 2);
    assert_eq!(plan.files[1].file_name, "A_Two.opus");
    assert_eq!(plan.files[1].audio, vec![2]);
    let pk = lib.create_playlist("p".to_string()).ok().unwrap();
    lib.add_to_playlist(pk.clone(), "audio:B:Y:Three".to_string()).ok().unwrap();
    let plan = export_playlist(lib.db(), &pk).unwrap();
    assert_eq!(plan.files.len(), 1);
    assert_eq!(plan.files[0].audio, vec![3]);
    assert!(export_playlist(lib.db(), &"playlist:none".to_string()).is_none());

    let mut db = StreamDB::new();
    db.insert(b"audio:a:b:1", &Metadata { title: "t".into(), artist: "a".into(), album: "b".into(), duration_bits: 0 }.encode_length_delimited()).ok().unwrap();
    db.insert(b"audio:a:b:2", &[7]).ok().unwrap();
    db.insert(b"audio:a:b:3", &[0]).ok().unwrap();
    let plan = export_album(&db, &"audio:a:b".to_string());
    assert!(plan.decode_failed);
    assert_eq!(plan.files.len(), 1);
    db.insert(b"playlist:bad", &[7]).ok().unwrap();
    let plan = export_playlist(&db, &"playlist:bad".to_string()).unwrap();
    assert!(plan.decode_failed && plan.files.is_empty());
}

#[test]
fn import_decisions() {
    let m = track_metadata(Some("T".to_string()), None, Some("Al".to_string()), 2.0f64.to_bits());
    assert_eq!(m.title, "T");
    assert_eq!(m.artist, "Unknown");
    assert_eq!(m.album, "Al");
    assert_eq!(opus_params(44100), (48000, 960));
    assert_eq!(opus_params(48000), (48000, 960));
    assert_eq!(opus_params(24000), (24000, 480));
    assert_eq!(opus_params(16000), (16000, 320));
    assert_eq!(opus_params(12000), (12000, 240));
    assert_eq!(opus_params(8000), (8000, 160));
}

#[test]
fn utf8_text() {
    assert_eq!(text_from_bytes("héllo".as_bytes()), Some("héllo".to_string()));
    assert_eq!(text_from_bytes(&[0xC3]), None);
}

fn message(r: Result<impl Sized, AppError>) -> String {
    match r {
        Err(AppError::InvalidInput(m)) => format!("invalid: {m}"),
        Err(AppError::StreamDBError(m)) => format!("store: {m}"),
        Err(_) => "other".to_string(),
        Ok(_) => "ok".to_string(),
    }
}

#[test]
fn error_messages() {
    let mut lib = library();
    assert_eq!(message(lib.create_playlist(String::new())), "invalid: Playlist name cannot be empty");
    assert_eq!(message(lib.create_playlist("a\0b".to_string())), "store: Invalid key: Invalid path");
    let pk = lib.create_playlist("p".to_string()).ok().unwrap();
    assert_eq!(message(lib.add_to_playlist(pk.clone(), "x".to_string())), "invalid: Invalid track key: x");
    assert_eq!(message(lib.add_to_playlist("playlist:q".to_string(), "audio:x".to_string())), "invalid: Playlist not found: playlist:q");
    assert_eq!(message(lib.get_playlist("playlist:q".to_string())), "invalid: Playlist not found: playlist:q");
    assert_eq!(message(lib.get_track_audio("audio:q".to_string())), "invalid: Track not found: audio:q");
    assert_eq!(message(lib.search_tracks(String::new())), "invalid: Search prefix cannot be empty");
    assert_eq!(message(lib.toggle_beta_dsp(false, vec![])), "store: Invalid key: Path not found");
    assert_eq!(message(lib.toggle_beta_eq(true, f64::INFINITY.to_bits(), 0, 0)), "invalid: EQ gains must be between -12dB and +12dB");
    let mut db = StreamDB::new();
    db.insert(b"playlist:bad", &[3, 0x0A, 1, 0xFF]).ok().unwrap();
    db.insert(b"playlist:ok", &{
        let p = Playlist { track_keys: vec!["audio:bad".to_string()] };
        p.encode_length_delimited()
    }).ok().unwrap();
    db.insert(b"audio:bad", &[9]).ok().unwrap();
    let mut lib = AppState::new(db);
    assert_eq!(
        message(lib.get_playlist("playlist:bad".to_string())),
        "invalid: Failed to decode playlist: failed to decode Protobuf message: Playlist.track_keys: invalid string value: data is not UTF-8 encoded"
    );
    assert_eq!(
        message(lib.get_playlist("playlist:ok".to_string())),
        "invalid: Failed to decode metadata for audio:bad: failed to decode Protobuf message: buffer underflow"
    );
    assert_eq!(
        message(lib.get_track_audio("audio:bad".to_string())),
        "invalid: Failed to decode metadata: failed to decode Protobuf message: buffer underflow"
    );
    assert_eq!(
        message(lib.search_tracks("audio:".to_string())),
        "invalid: Failed to decode metadata for audio:bad: failed to decode Protobuf message: buffer underflow"
    );
    assert_eq!(
        message(lib.add_to_playlist("playlist:bad".to_string(), "audio:x".to_string())),
        "invalid: Failed to decode playlist: failed to decode Protobuf message: Playlist.track_keys: invalid string value: data is not UTF-8 encoded"
    );
}

#[test]
fn eq_decode_error_messages() {
    let mut db = StreamDB::new();
    db.insert(b"config:eq", &[2, 0x0A, 0]).ok().unwrap();
    let lib = AppState::new(db);
    assert_eq!(message(lib.get_eq_config()), "invalid: Failed to decode EQ config: failed to decode Protobuf message: EqConfig.bass: invalid wire type: LengthDelimited (expected SixtyFourBit)");
    assert_eq!(
        message(lib.dsp_effects(vec![Effect::Delay(0)])),
        "invalid: Failed to decode EQ config: failed to decode Protobuf message: EqConfig.bass: invalid wire type: LengthDelimited (expected SixtyFourBit)"
    );
}

#[test]
fn search_failure_names_key_not_utf8() {
    let mut db = StreamDB::new();
    db.insert(b"audio:ok", &meta("T", "A", "B").encode_length_delimited()).ok().unwrap();
    db.insert(b"audio:\xFF\xFE", &[9]).ok().unwrap();
    let lib = AppState::new(db);
    assert_eq!(
        message(lib.search_tracks("audio:".to_string())),
        "invalid: Failed to decode metadata for audio:\u{FFFD}\u{FFFD}: failed to decode Protobuf message: buffer underflow"
    );
    // the first failing key in store order is named
    let mut db = StreamDB::new();
    db.insert(b"audio:z", &[9]).ok().unwrap();
    db.insert(b"audio:a", &[9]).ok().unwrap();
    let lib = AppState::new(db);
    assert_eq!(
        message(lib.search_tracks("audio:".to_string())),
        "invalid: Failed to decode metadata for audio:z: failed to decode Protobuf message: buffer underflow"
    );
}

#[test]
fn album_export_keeps_to_its_album() {
    let mut lib = library();
    lib.store_track(meta("One", "A", "B"), vec![1]).ok().unwrap();
    lib.store_track(meta("Other", "A", "B2"), vec![2]).ok().unwrap();
    lib.store_track(meta("Two", "A", "B"), vec![3]).ok().unwrap();
    let plan = export_album(lib.db(), &"audio:A:B".to_string());
    assert!(!plan.decode_failed);
    let names: Vec<String> = plan.files.iter().map(|f| f.file_name.clone()).collect();
    assert_eq!(names, vec!["A_One.opus".to_string(), "A_Two.opus".to_string()]);
    let plan = export_album(lib.db(), &"audio:A:B2".to_string());
    assert_eq!(plan.files.len(), 1);
    assert_eq!(plan.files[0].audio, vec![2]);
    assert!(export_album(lib.db(), &"audio:A:B:On".to_string()).files.is_empty());
    assert_eq!(export_album(lib.db(), &"audio:A:B:One".to_string()).files.len(), 1);
}

#[test]
fn stored_track_reads_back_from_new_playlist() {
    let mut lib = library();
    let m = lib.store_track(meta("Song", "Art", "Alb"), vec![4, 5]).ok().unwrap();
    let pk = lib.create_playlist("fav".to_string()).ok().unwrap();
    lib.add_to_playlist(pk.clone(), format!("audio:{}:{}:{}", m.artist, m.album, m.title)).ok().unwrap();
    let tracks = lib.get_playlist(pk).ok().unwrap();
    assert_eq!(tracks.len(), 1);
    assert_eq!(tracks[0].title, "Song");
    assert_eq!(tracks[0].artist, "Art");
    assert_eq!(tracks[0].album, "Alb");
    assert_eq!(tracks[0].duration_bits, 180.0f64.to_bits());
}

#[test]
fn longer_prefix_finds_less() {
    let mut lib = library();
    lib.store_track(meta("One", "A", "X"), vec![]).ok().unwrap();
    lib.store_track(meta("Two", "AB", "Y"), vec![]).ok().unwrap();
    lib.store_track(meta("Three", "A", "Z"), vec![]).ok().unwrap();
    let short = lib.search_tracks("audio:A".to_string()).ok().unwrap();
    let long = lib.search_tracks("audio:A:".to_string()).ok().unwrap();
    assert_eq!(short.len(), 3);
    assert_eq!(long.len(), 2);
    for t in &long {
        assert!(short.iter().any(|s| s.title == t.title));
    }
}

#[test]
fn stored_track_found_by_artist() {
    let mut lib = library();
    lib.store_track(meta("Other", "Bee", "Q"), vec![]).ok().unwrap();
    let m = lib.store_track(meta("Hit", "Bea", "Alb"), vec![7]).ok().unwrap();
    let found = lib.search_tracks(format!("audio:{}:", m.artist)).ok().unwrap();
    assert_eq!(found.len(), 1);
    assert_eq!(found[0].title, "Hit");
}

#[test]
fn stored_eq_runs_after_callers_effects() {
    let mut lib = library();
    let without = lib.dsp_effects(vec![Effect::Delay(1), Effect::Eq { bass: 1, mid: 0, treble: 0 }]).ok().unwrap();
    assert_eq!(without.len(), 2);
    lib.toggle_beta_eq(true, (-0.0f64).to_bits(), 2.0f64.to_bits(), 0).ok().unwrap();
    let with = lib.dsp_effects(vec![Effect::Delay(1)]).ok().unwrap();
    assert_eq!(with.len(), 2);
    assert!(matches!(with[0], Effect::Delay(1)));
    assert!(matches!(with[1], Effect::Eq { bass: 0, mid, treble: 0 } if mid == 2.0f64.to_bits()));
}

#[test]
fn tag_selection() {
    let tags = vec![
        ("ARTIST".to_string(), "First".to_string()),
        ("TITLE".to_string(), "Song".to_string()),
        ("ARTIST".to_string(), "Second".to_string()),
        ("title".to_string(), "lower".to_string()),
    ];
    assert_eq!(tag_value(&tags, "ARTIST"), Some("Second".to_string()));
    assert_eq!(tag_value(&tags, "TITLE"), Some("Song".to_string()));
    assert_eq!(tag_value(&tags, "ALBUM"), None);
    let m = metadata_from_tags(&tags, 3.5f64.to_bits());
    assert_eq!(m.title, "Song");
    assert_eq!(m.artist, "Second");
    assert_eq!(m.album, "Unknown");
    assert_eq!(m.duration_bits, 3.5f64.to_bits());
    let m = metadata_from_tags(&vec![], 0);
    assert_eq!((m.title.as_str(), m.artist.as_str(), m.album.as_str()), ("Unknown", "Unknown", "Unknown"));
}

#[test]
fn packet_decisions() {
    assert!(matches!(next_import_action(3, ImportEvent::Packet(3)), ImportAction::DecodePacket));
    assert!(matches!(next_import_action(3, ImportEvent::Packet(4)), ImportAction::NextPacket));
    assert!(matches!(next_import_action(3, ImportEvent::PacketError(true)), ImportAction::Finish));
    assert!(matches!(next_import_action(3, ImportEvent::PacketError(false)), ImportAction::FailPacket));
    assert!(matches!(next_import_action(3, ImportEvent::Decoded), ImportAction::KeepSamples));
    assert!(matches!(next_import_action(3, ImportEvent::DecodeError(true)), ImportAction::Finish));
    assert!(matches!(next_import_action(3, ImportEvent::DecodeError(false)), ImportAction::FailDecode));
}

#[test]
fn buffer_sizes_checked() {
    assert!(check_buffers(4, 4).is_ok());
    assert!(check_buffers(0, 0).is_ok());
    match check_buffers(4, 3) {
        Err(AppError::DSPError(m)) => assert_eq!(m, "Input and output buffer sizes mismatch"),
        _ => panic!("expected a DSP error"),
    }
}
