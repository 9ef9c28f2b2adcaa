use vstd::prelude::*;

verus! {

/// The ways a schema document can be rejected while it is lowered,
/// ordered, or printed.
#[derive(Debug, Clone, Copy, PartialEq, Eq, Structural)]
pub enum SchemaError {
    /// A restricted primitive declares an empty set of allowed values.
    EmptyEnumeration,
    /// An object schema permits properties beyond its declared set.
    UnsupportedOpenObject,
    /// A named type never appears in the registry of definitions.
    DanglingReference,
    /// Two distinct records resolve to the same generated identifier.
    NameCollision,
    /// The dependency graph among registry definitions contains a cycle.
    CyclicDefinitions,
    /// Resolving the top-level content yields zero or several new records.
    InconsistentRoot,
}

/// The message each error carries.
pub open spec fn describe_text(e: SchemaError) -> Seq<char> {
    match e {
        SchemaError::EmptyEnumeration => "a restricted primitive declares no allowed values"@,
        SchemaError::UnsupportedOpenObject => "an object schema permits undeclared properties"@,
        SchemaError::DanglingReference => "a named type is missing from the registry"@,
        SchemaError::NameCollision => "two definitions share one generated identifier"@,
        SchemaError::CyclicDefinitions => "the definitions reference each other in a cycle"@,
        SchemaError::InconsistentRoot => "the top-level content does not yield exactly one record"@,
    }
}

impl SchemaError {
    /// A short, human-readable description of the error.
    pub fn describe(&self) -> (r: &'static str)
        ensures
            r@ == describe_text(*self),
    {
        match self {
            SchemaError::EmptyEnumeration => "a restricted primitive declares no allowed values",
            SchemaError::UnsupportedOpenObject => "an object schema permits undeclared properties",
            SchemaError::DanglingReference => "a named type is missing from the registry",
            SchemaError::NameCollision => "two definitions share one generated identifier",
            SchemaError::CyclicDefinitions => "the definitions reference each other in a cycle",
            SchemaError::InconsistentRoot => "the top-level content does not yield exactly one record",
        }
    }
}

} // verus!
