//! Field schema: the declared shape of every output field.

use vstd::prelude::*;

verus! {

/// The shape of one declared field: scalar or list, required or optional.
#[derive(Clone, Copy, PartialEq, Eq, Structural, Debug)]
pub enum FieldShape {
    RequiredScalar,
    OptionalScalar,
    RequiredList,
    OptionalList,
}

/// Schema entry declaring one output field: the submission key it is read
/// from, its shape, and whether each raw value of a list-shaped field must
/// be converted to a 64-bit integer.
///
/// `convert` is honoured only for list shapes; scalar fields are always
/// bound as raw strings.
#[derive(Debug)]
pub struct FieldDescriptor {
    pub name: String,
    pub shape: FieldShape,
    pub convert: bool,
}

/// The mathematical content of a `FieldDescriptor`.
pub struct FieldDescriptorView {
    pub name: Seq<char>,
    pub shape: FieldShape,
    pub convert: bool,
}

impl View for FieldDescriptor {
    type V = FieldDescriptorView;

    open spec fn view(&self) -> FieldDescriptorView {
        FieldDescriptorView { name: self.name@, shape: self.shape, convert: self.convert }
    }
}

/// The views of the descriptors of a schema, in schema order.
pub open spec fn schema_view(schema: Seq<FieldDescriptor>) -> Seq<FieldDescriptorView> {
    schema.map_values(|d: FieldDescriptor| d@)
}

} // verus!
