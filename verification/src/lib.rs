//! StreamTune's music library core: the key-value store that holds tracks,
//! playlists and settings, the protobuf wire format of the stored records,
//! and the rules that decide what is stored, found and exported.

pub mod app_state;
pub mod effects;
pub mod export;
pub mod faults;
pub mod records;
pub mod store;
pub mod text;
pub mod tracks;
pub mod varint;
pub mod wire;
