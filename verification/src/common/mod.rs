pub mod bits;
pub mod hash;
pub mod meta_info;
pub mod torrent;

pub use hash::{Sha1Hash, SHA1_HASH_LENGTH};
pub use meta_info::{File, MetaInfo};
pub use torrent::Torrent;
