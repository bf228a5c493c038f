//! Typed, versionable data formats: a registry that resolves batches of type declarations into
//! a shared, acyclic type graph, and a validator that parses untyped trees against that graph.
pub mod attributes;
pub mod cycle;
pub mod enum_attributes;
pub mod instance;
pub mod number;
pub mod number_type;
pub mod registry;
pub mod simple_type;
pub mod text;
pub mod value;

pub use attributes::{
    ArrayTypeAttributes, BooleanTypeAttributes, DictionaryTypeAttributes, FloatTypeAttributes,
    StringTypeAttributes, TypeAttributes, TypeDefinition, UuidTypeAttributes,
};
pub use cycle::detect_minimal_cycle;
pub use enum_attributes::{
    EnumTypeAttributes, EnumTypeAttributesBuilder, EnumTypeValue, NewEnumTypeAttributesError,
};
pub use instance::{InstantiationError, TypeAttributesInstance, TypeDefinitionInstance};
pub use number::{
    NewNumberTypeAttributesError, Number, NumberTypeAttributes, NumberTypeAttributesBuilder,
    ValidateNumberTypeError,
};
pub use number_type::{NewIntTypeError, NumberType, NumberTypeBuilder};
pub use registry::{RegistrationError, TypeDefinitionRegistry};
pub use simple_type::{SimpleType, Type};
pub use value::{
    ParseError, ParseErrorPath, ParseErrorPathSegment, ParseImplError, UntypedNumber,
    UntypedValue, Value, ValueData,
};
