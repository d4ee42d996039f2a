//! A verified bencode codec: the binary serialization format behind
//! BitTorrent metainfo files, together with extraction of typed torrent
//! metadata and derivation of the SHA-1 info hash from the raw byte span
//! of the `info` dictionary.

pub mod decode;
pub mod encode;
pub mod hash;
pub mod laws;
pub mod metainfo;
pub mod value;
pub mod wire;

use vstd::prelude::*;

verus! {

} // verus!
