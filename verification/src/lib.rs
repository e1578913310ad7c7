pub mod error;
pub mod input;
pub mod length;
pub mod tag;
pub mod traits;

pub use error::BerError;
pub use length::Length;
pub use tag::{Tag, TagClass};
pub use traits::{BerDecode, BerEncode, BerTag};
