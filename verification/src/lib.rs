//! Plain old data, read and written from a description of its layout.
//!
//! A [`Schema`] describes how a type lies on the wire: records of fields,
//! tagged sums, fixed arrays, tuples and length-prefixed sequences of
//! primitives, under a selectable byte order.  From one schema the codec
//! computes the encoded size of a [`Value`], encodes it to bytes and decodes
//! it back, and the three are proved to agree with each other.
//!
//! The modules, from the leaves up:
//!
//! - [`endian`] and [`primitive`]: byte orders, scalars and their bytes;
//! - [`value`] and [`schema`]: the values the codec handles and the
//!   description of a layout, each with its mathematical content;
//! - [`typing`] and [`validity`]: which values belong to a type, and which
//!   schemas are valid;
//! - [`size`], [`encode`] and [`decode`]: the three operations, each as a
//!   specification and as the code that is proved to meet it;
//! - [`laws`], [`host`] and [`context`]: what holds between the three, what
//!   the byte order of the machine has to say, and what becomes of the context;
//! - [`codec`] and [`plod`]: the operations on a whole schema, and on Rust
//!   types that name their layout;
//! - [`attributes`], [`declare`] and [`resolve`]: declarations as they are
//!   written, and the way from a declaration to its schema.
pub mod attributes;
pub mod codec;
pub mod context;
pub mod declare;
pub mod decode;
pub mod encode;
pub mod endian;
pub mod error;
pub mod host;
pub mod laws;
pub mod plod;
pub mod primitive;
pub mod resolve;
pub mod schema;
pub mod size;
pub mod text;
pub mod typing;
pub mod validity;
pub mod value;

pub use attributes::{Attribute, Attributes, MetaArg, MetaItem};
pub use declare::{
    Argument, Arguments, Data, Declaration, FieldDecl, FieldsDecl, Registry, Segment, TypeExpr,
    VariantDecl,
};
pub use endian::{host_order, order_of, ByteOrder, Endianness};
pub use error::{Error, SchemaError};
pub use plod::Plod;
pub use primitive::{Primitive, Scalar};
pub use resolve::{generate_for_fields, generate_for_item, known_size, plod_impl, supported_type};
pub use schema::{Schema, SizePrefix, TagMode, TagRange, Type, Variant};
pub use value::{SpecValue, Value};
