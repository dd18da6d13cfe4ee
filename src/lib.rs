//! Wire codec for the voxel game protocol: fixed-width primitives,
//! variable-length integers, capped strings, packed positions, UUIDs, named
//! binary tags, generic combinators, tagged unions and records, and the
//! handshake, status, login and play message catalog. Every type has an
//! encoder, a decoder and a size function, each proved against spec functions
//! that state its wire form, and a proof that decoding an encoding gives the
//! value back.
use vstd::prelude::*;

pub mod error;
pub mod reader;
pub mod codec;
pub mod varnum;
pub mod primitives;
pub mod strings;
pub mod nbt_walk;
pub mod scalars;
pub mod combinators;
pub mod base_types;
pub mod handshake;
pub mod login_client;
pub mod login_server;
pub mod status_client;
pub mod play_client;

pub use error::CodecError;
pub use reader::ByteReader;
pub use codec::{Codec, Decodable, Encodable, IndexDecodable, SizeDecodable, SizeEncodable};
pub use varnum::{VarInt, VarLong};
pub use primitives::{Double, Float};
pub use strings::{BigString, ChatJson, Identifier, McString};
pub use scalars::{Angle, McUuid, NbtTag, Position};

verus! {

} // verus!
