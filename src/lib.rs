//! Threshold splitting of byte payloads: the payload is compressed and
//! sealed once under a fresh key, the key is split with Shamir's scheme,
//! and every share carries one key share followed by the common ciphertext.
pub mod error;
pub mod laws;
pub mod primitives;
pub mod scheme;
pub mod transport;

pub use error::ShareError;
pub use primitives::{KEY_LEN, KEY_SHARE_LEN};
pub use scheme::{combine_shares, create_shares};
pub use transport::{combine_text, decode_shares, encode_shares, split_lines, split_to_text};
