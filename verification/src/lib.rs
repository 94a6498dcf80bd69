//! Dense ordinals for the leaves of a hierarchy of nested categories.
//!
//! A schema declares categories, each an ordered list of variants; a variant
//! is a leaf or nests a category declared before its own. `layers` validates
//! a schema and works out, for every category, the range of ordinals of each
//! variant. The codec of a category then converts between the values of the
//! category and the ordinals `0 .. count`, and `LayersIter` walks through the
//! values in that order.

pub mod codec;
pub mod iter;
pub mod laws;
pub mod schema;
pub mod validate;

pub use codec::{Codec, Layers, Root, RootCodec};
pub use iter::LayersIter;
pub use schema::{root, Category, Payload, Schema, Shape, Variant};
pub use validate::{layers, Defect, SchemaError, Tables};
