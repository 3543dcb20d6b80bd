//! Structured output from free-text language models: schema derivation for
//! composable type shapes, lenient decoding of tag-tree documents into typed
//! values, and a bounded, feedback-driven retry protocol around an external
//! completion client.

pub mod cache;
pub mod coerce;
pub mod decode;
pub mod error;
pub mod schema;
pub mod session;
pub mod shape;
pub mod strutil;
pub mod tree;
pub mod xml;

pub use cache::{Cache, CacheInner};
pub use coerce::{IntKind, ScalarNode, coerce_bool, coerce_float, coerce_int, is_float_token,
    kind_name, wrap_int};
pub use decode::{decode, decode_document, decode_variant, value_eq};
pub use error::{DecodeError, RequestError};
pub use schema::{TypeDescriptor, describe, root_tag, schema_text};
pub use session::{ChatMsg, ChatRole, Round, Session, run_session};
pub use shape::{DescribedShape, EnumShape, FieldShape, FloatKind, Shape, StructShape, Value,
    VariantShape};
pub use tree::Element;
pub use xml::{ParseError, parse_document};

use vstd::prelude::*;

verus! {

/// The library's failure type, as callers of the extraction protocol see it.
pub type Error = crate::error::RequestError;

} // verus!
