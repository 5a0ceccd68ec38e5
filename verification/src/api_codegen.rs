//! The target languages of the API code generator.

use vstd::prelude::*;

verus! {

/// A language the generator writes code in.
#[derive(Debug, Copy, Clone, PartialEq, Eq, Structural)]
pub enum Language {
    Rust,
    TypeScript,
}

/// Writes Rust code.
#[derive(Debug, Copy, Clone, PartialEq, Eq, Structural, Default)]
pub struct RustGenerator {}

/// Writes TypeScript code.
#[derive(Debug, Copy, Clone, PartialEq, Eq, Structural, Default)]
pub struct TypeScriptGenerator {}

/// A code generator.
#[derive(Debug, Copy, Clone, PartialEq, Eq, Structural)]
pub enum Generator {
    Rust(RustGenerator),
    TypeScript(TypeScriptGenerator),
}

/// The generator of `language`.
pub fn load_generator_for_language(language: Language) -> (r: Generator)
    ensures
        language == Language::Rust ==> r == Generator::Rust(RustGenerator {  }),
        language == Language::TypeScript ==> r == Generator::TypeScript(TypeScriptGenerator {  }),
{
    match language {
        Language::Rust => Generator::Rust(RustGenerator {  }),
        Language::TypeScript => Generator::TypeScript(TypeScriptGenerator {  }),
    }
}

} // verus!
