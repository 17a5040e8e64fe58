//! Conceals UTF-8 text in the least significant bits of an RGB pixel buffer,
//! and reveals it again.

pub mod carrier;
pub mod decode;
pub mod encode;
pub mod error;
pub mod lsb;
pub mod payload;

pub use crate::carrier::Carrier;
pub use crate::decode::decode;
pub use crate::encode::encode;
pub use crate::error::SteganographyError;
pub use crate::payload::Payload;
