//! Decisions made while importing a track: the metadata recorded from the
//! file's tags, what to do with each packet read from the file, and the
//! Opus stream parameters chosen from its sample rate.

use vstd::prelude::*;

use crate::records::{Metadata, MetadataView};
use crate::text::string_from_str;

verus! {

/// The text of an optional string.
pub open spec fn opt_text(t: Option<String>) -> Option<Seq<char>> {
    match t {
        Some(s) => Some(s@),
        None => None,
    }
}

/// A tag's text, or `Unknown` where the file has none.
pub open spec fn tag_or_unknown(t: Option<Seq<char>>) -> Seq<char> {
    match t {
        Some(s) => s,
        None => "Unknown"@,
    }
}

fn text_or_unknown(t: Option<String>) -> (res: String)
    ensures
        res@ == tag_or_unknown(opt_text(t)),
{
    match t {
        Some(s) => s,
        None => string_from_str("Unknown"),
    }
}

/// The metadata recorded for a track: its `TITLE`, `ARTIST` and `ALBUM`
/// tags, each `Unknown` where missing, and its duration (an `f64` bit
/// pattern).
pub fn track_metadata(title: Option<String>, artist: Option<String>, album: Option<String>, duration_bits: u64) -> (m: Metadata)
    ensures
        m@ == (MetadataView {
            title: tag_or_unknown(opt_text(title)),
            artist: tag_or_unknown(opt_text(artist)),
            album: tag_or_unknown(opt_text(album)),
            duration_bits,
        }),
{
    Metadata {
        title: text_or_unknown(title),
        artist: text_or_unknown(artist),
        album: text_or_unknown(album),
        duration_bits,
    }
}

/// A file's tags, as the spec sees them: name and value.
pub open spec fn tags_view(tags: Seq<(String, String)>) -> Seq<(Seq<char>, Seq<char>)> {
    tags.map_values(|t: (String, String)| (t.0@, t.1@))
}

/// The value of the last tag named `key`: a later tag of the same name
/// replaces an earlier one.
pub open spec fn tag_lookup(tags: Seq<(Seq<char>, Seq<char>)>, key: Seq<char>) -> Option<Seq<char>>
    decreases tags.len(),
{
    if tags.len() == 0 {
        None
    } else if tags.last().0 == key {
        Some(tags.last().1)
    } else {
        tag_lookup(tags.drop_last(), key)
    }
}

/// The value of the tag named `key`, the last one where there are
/// several.
pub fn tag_value(tags: &Vec<(String, String)>, key: &str) -> (res: Option<String>)
    ensures
        opt_text(res) == tag_lookup(tags_view(tags@), key@),
{
    let ghost tv = tags_view(tags@);
    let name = string_from_str(key);
    let mut i: usize = tags.len();
    proof {
        assert(tv.take(i as int) =~= tv);
    }
    while i > 0
        invariant
            tv == tags_view(tags@),
            i <= tags@.len(),
            name@ == key@,
            tag_lookup(tv, key@) == tag_lookup(tv.take(i as int), key@),
        decreases i,
    {
        proof {
            assert(tv.take(i as int).drop_last() =~= tv.take(i as int - 1));
            assert(tv.take(i as int).last() == tv[i as int - 1]);
        }
        let tag = &tags[i - 1];
        if tag.0 == name {
            return Some(tag.1.clone());
        }
        i = i - 1;
    }
    None
}

/// The metadata recorded for a track from its tags and its duration (an
/// `f64` bit pattern): its `TITLE`, `ARTIST` and `ALBUM` tags, each
/// `Unknown` where missing.
pub fn metadata_from_tags(tags: &Vec<(String, String)>, duration_bits: u64) -> (m: Metadata)
    ensures
        m@ == (MetadataView {
            title: tag_or_unknown(tag_lookup(tags_view(tags@), "TITLE"@)),
            artist: tag_or_unknown(tag_lookup(tags_view(tags@), "ARTIST"@)),
            album: tag_or_unknown(tag_lookup(tags_view(tags@), "ALBUM"@)),
            duration_bits,
        }),
{
    track_metadata(
        tag_value(tags, "TITLE"),
        tag_value(tags, "ARTIST"),
        tag_value(tags, "ALBUM"),
        duration_bits,
    )
}

/// What happened at one step of reading a file's audio.
pub enum ImportEvent {
    /// A packet was read; it belongs to the given track.
    Packet(u32),
    /// Reading the next packet failed; `true` where the failure was an
    /// I/O error, which marks the end of the stream.
    PacketError(bool),
    /// The packet was decoded.
    Decoded,
    /// Decoding the packet failed; `true` where the failure was an I/O
    /// error.
    DecodeError(bool),
}

/// What to do next while reading a file's audio.
pub enum ImportAction {
    /// Decode the packet just read.
    DecodePacket,
    /// Read the next packet.
    NextPacket,
    /// Keep the decoded samples, then read the next packet.
    KeepSamples,
    /// The stream has ended: encode what was kept.
    Finish,
    /// Give up: a packet could not be read.
    FailPacket,
    /// Give up: a packet could not be decoded.
    FailDecode,
}

/// The next action while reading the audio of the track `track_id`:
/// packets of other tracks are passed over, an I/O error ends the
/// stream, any other error ends the import.
pub open spec fn import_action(track_id: u32, event: ImportEvent) -> ImportAction {
    match event {
        ImportEvent::Packet(t) => if t == track_id {
            ImportAction::DecodePacket
        } else {
            ImportAction::NextPacket
        },
        ImportEvent::PacketError(io) => if io {
            ImportAction::Finish
        } else {
            ImportAction::FailPacket
        },
        ImportEvent::Decoded => ImportAction::KeepSamples,
        ImportEvent::DecodeError(io) => if io {
            ImportAction::Finish
        } else {
            ImportAction::FailDecode
        },
    }
}

/// Decides the next action while reading the audio of the track
/// `track_id`.
pub fn next_import_action(track_id: u32, event: ImportEvent) -> (a: ImportAction)
    ensures
        a == import_action(track_id, event),
{
    match event {
        ImportEvent::Packet(t) => if t == track_id {
            ImportAction::DecodePacket
        } else {
            ImportAction::NextPacket
        },
        ImportEvent::PacketError(io) => if io {
            ImportAction::Finish
        } else {
            ImportAction::FailPacket
        },
        ImportEvent::Decoded => ImportAction::KeepSamples,
        ImportEvent::DecodeError(io) => if io {
            ImportAction::Finish
        } else {
            ImportAction::FailDecode
        },
    }
}

/// The Opus sample rate a stream is labelled with: the source rate where
/// Opus has it (8, 12, 16 or 24 kHz), 48 kHz otherwise.
pub open spec fn opus_rate(sample_rate: u32) -> u32 {
    if sample_rate == 8000 || sample_rate == 12000 || sample_rate == 16000 || sample_rate == 24000 {
        sample_rate
    } else {
        48000
    }
}

/// Samples per channel in one 20 ms frame at an Opus rate.
pub open spec fn opus_frame_size(rate: u32) -> usize {
    (rate / 50) as usize
}

/// Opus keeps a source rate of 8, 12, 16 or 24 kHz, with 20 ms frames
/// of 160, 240, 320 or 480 samples; every other source rate is labelled
/// 48 kHz, with 960-sample frames.
pub proof fn lemma_opus_rates(r: u32)
    ensures
        r == 8000 ==> opus_rate(r) == 8000 && opus_frame_size(opus_rate(r)) == 160,
        r == 12000 ==> opus_rate(r) == 12000 && opus_frame_size(opus_rate(r)) == 240,
        r == 16000 ==> opus_rate(r) == 16000 && opus_frame_size(opus_rate(r)) == 320,
        r == 24000 ==> opus_rate(r) == 24000 && opus_frame_size(opus_rate(r)) == 480,
        r != 8000 && r != 12000 && r != 16000 && r != 24000 ==> opus_rate(r) == 48000
            && opus_frame_size(opus_rate(r)) == 960,
{
}

/// The Opus rate for a source sample rate, and the frame size at that
/// rate.
pub fn opus_params(sample_rate: u32) -> (res: (u32, usize))
    ensures
        res.0 == opus_rate(sample_rate),
        res.1 == opus_frame_size(res.0),
        res.1 == 160 || res.1 == 240 || res.1 == 320 || res.1 == 480 || res.1 == 960,
        sample_rate == 8000 || sample_rate == 12000 || sample_rate == 16000 || sample_rate == 24000
            ==> res.0 == sample_rate,
        sample_rate != 8000 && sample_rate != 12000 && sample_rate != 16000 && sample_rate
            != 24000 ==> res == (48000u32, 960usize),
{
    let rate: u32 = if sample_rate == 8000 || sample_rate == 12000 || sample_rate == 16000
        || sample_rate == 24000 {
        sample_rate
    } else {
        48000
    };
    let frame: usize = if rate == 48000 {
        960
    } else if rate == 24000 {
        480
    } else if rate == 16000 {
        320
    } else if rate == 12000 {
        240
    } else {
        160
    };
    (rate, frame)
}

} // verus!
