//! Binding of decoded form submissions — ordered, possibly-repeating
//! `(key, value)` string pairs — into a strongly shaped record.
//!
//! The submission is first grouped into an ordered multimap by
//! [`aggregate::aggregate`], then matched against an explicit schema by
//! [`bind::bind`]: each field descriptor declares a name, a shape
//! (required/optional, scalar/list) and optionally a conversion of every
//! raw value to a 64-bit integer.  The first field that fails aborts the
//! whole binding with a field-level error.

use vstd::prelude::*;

pub mod aggregate;
pub mod bind;
pub mod parse;
pub mod schema;

pub use aggregate::AggregatedValues;
pub use aggregate::aggregate;
pub use bind::BindingError;
pub use bind::BoundRecord;
pub use bind::BoundValue;
pub use bind::bind;
pub use bind::deserialize;
pub use schema::FieldDescriptor;
pub use schema::FieldShape;

verus! {

/// A record type that can be reconstructed from the decoded key/value pairs
/// of a form submission.  Implementors typically hold a schema for their own
/// fields, run [`bind::deserialize`] and project the bound record into their
/// own fields, flattening a [`bind::BindingError`] into its message.
pub trait WebFomData: Sized {
    /// Deserializes a struct from a `Vec<(String, String)>`.
    fn deserialize(data: &Vec<(String, String)>) -> Result<Self, String>;
}

} // verus!
