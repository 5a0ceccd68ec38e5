//! Reflection of the data model's types: the kind of each type and the name
//! it is known by.

use vstd::prelude::*;

verus! {

/// What every described type carries: its name.
pub struct BaseDescriptor {
    pub name: String,
}

/// Description of a primitive type.
pub struct PrimitiveDescriptor {
    pub base_descriptor: BaseDescriptor,
}

/// Description of a struct type.
pub struct StructDescriptor {
    pub base_descriptor: BaseDescriptor,
}

/// Description of an array type.
pub struct ArrayDescriptor {
    pub base_descriptor: BaseDescriptor,
}

/// Description of an optional type.
pub struct OptionDescriptor {
    pub base_descriptor: BaseDescriptor,
}

/// Description of a boxed trait object type.
pub struct BoxDynDescriptor {
    pub name: String,
}

/// Type definition.
#[derive(Clone, Copy)]
pub enum TypeDefinition<'a> {
    /// Invalid type.
    Invalid,
    /// Primitive type.
    Primitive(&'a PrimitiveDescriptor),
    /// Struct type.
    Struct(&'a StructDescriptor),
    /// Array type.
    Array(&'a ArrayDescriptor),
    /// Optional type.
    Optional(&'a OptionDescriptor),
    /// Boxed trait object type.
    BoxDyn(&'a BoxDynDescriptor),
}

impl<'a> TypeDefinition<'a> {
    /// The name of the described type: the descriptor's, or `None` for an
    /// invalid type.
    pub open spec fn described_name(self) -> Seq<char> {
        match self {
            TypeDefinition::Invalid => "None"@,
            TypeDefinition::Primitive(d) => d.base_descriptor.name@,
            TypeDefinition::Struct(d) => d.base_descriptor.name@,
            TypeDefinition::Array(d) => d.base_descriptor.name@,
            TypeDefinition::Optional(d) => d.base_descriptor.name@,
            TypeDefinition::BoxDyn(d) => d.name@,
        }
    }

    /// Returns the name of the type.
    pub fn get_type_name(&self) -> (r: &str)
        ensures
            r@ == self.described_name(),
    {
        match *self {
            TypeDefinition::Array(array_descriptor) => array_descriptor.base_descriptor.name.as_str(),
            TypeDefinition::Struct(struct_descriptor) => struct_descriptor.base_descriptor.name.as_str(),
            TypeDefinition::Primitive(primitive_descriptor) => primitive_descriptor.base_descriptor.name.as_str(),
            TypeDefinition::Optional(option_descriptor) => option_descriptor.base_descriptor.name.as_str(),
            TypeDefinition::BoxDyn(box_dyn_descriptor) => box_dyn_descriptor.name.as_str(),
            TypeDefinition::Invalid => "None",
        }
    }
}

/// Reflection of a type: its definition, and those of the optional and array
/// types made from it, which by default have none.
pub trait TypeReflection {
    /// The definition of the instance's type.
    fn get_type(&self) -> TypeDefinition<'static>;

    /// The definition of the type.
    fn get_type_def() -> TypeDefinition<'static>;

    /// The definition of an optional value of the type.
    fn get_option_def() -> (r: TypeDefinition<'static>)
        default_ensures
            r == TypeDefinition::Invalid,
    {
        TypeDefinition::Invalid
    }

    /// The definition of an array of the type.
    fn get_array_def() -> (r: TypeDefinition<'static>)
        default_ensures
            r == TypeDefinition::Invalid,
    {
        TypeDefinition::Invalid
    }
}

} // verus!
