pub mod archive;
pub mod bytes;
pub mod codec;
pub mod cursor;
pub mod error;
pub mod gzip;
pub mod names;
pub mod sniff;
