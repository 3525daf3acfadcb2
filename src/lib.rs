//! A schema-driven codec for a compact, self-describing binary format in the
//! style of CBOR: a schema describes the fields of structs and the variants
//! of enums, and the engine converts between values and bytes by it,
//! tolerating fields and variants it does not know.

pub mod codec;
pub mod decode;
pub mod encode;
pub mod error;
pub mod laws;
pub mod schema;
pub mod value;
pub mod wire;

pub use codec::{decode, encode};
pub use encode::Encode;
pub use error::{Error, ErrorModel};
pub use schema::{
    Codec, EnumSpec, FieldSpec, Shape, StructSpec, TypeAttributes, TypeEncoding, VariantKind, VariantSpec,
};
pub use value::{Value, ValueModel};
pub use wire::{Decoder, Encoder};
