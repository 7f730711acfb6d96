//! Planning and reassembly for downloading a resource of known length as
//! fixed-size byte ranges.

pub mod assembly;
pub mod chunk;
pub mod error;
pub mod header;
pub mod range;
pub mod reassembly;
pub mod request;
pub mod text;
