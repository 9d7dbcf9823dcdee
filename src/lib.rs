//! A codec between a rich tagged value model and a JSON-safe tree plus a
//! flattened tree of type annotations addressed by dotted paths.
pub mod text;

pub mod path;

pub mod bigint;

pub mod date;

pub mod value;

pub mod json;

pub mod annotation;

pub mod error;

pub mod tags;

pub mod serialize;

pub mod deserialize;

pub mod roundtrip;

pub use annotation::{AnnotationValues, Meta, SuperJson, TypeAnnotation};
pub use bigint::BigInt;
pub use date::Date;
pub use error::Error;
pub use json::Json;
pub use value::Value;
