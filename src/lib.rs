//! Fixed-layout binary serialization: little-endian primitive codecs over
//! byte cursors, and a schema-driven codec for records, tag-only enums and
//! fixed arrays.
pub mod arrays;
pub mod bytes;
pub mod decode;
pub mod encode;
pub mod error;
pub mod laws;
pub mod primitives;
pub mod repr;
pub mod schema;
pub mod shape;
pub mod size;
pub mod template;

pub use decode::{Decode, Reader};
pub use encode::{Encode, Writer};
pub use error::Error;
pub use repr::{Repr, ReprError};
pub use schema::Schema;
pub use shape::{Field, Shape, ShapeError, Variant};
pub use size::{Codec, Size};
pub use size::Size as EncodedSize;
pub use template::Template;
