//! Compiler core for the Nord expression language: an AST of arithmetic,
//! comparisons, conditionals, local bindings and blocks is lowered to a
//! stack-machine intermediate representation (`mir`), which a code generator
//! turns into a WebAssembly module (`emit`, `mir_context`). A reference
//! evaluator and a stack-machine semantics (`sem`) give the translation its
//! meaning and back the correctness lemmas.

pub mod ast;
pub mod emit;
pub mod lexer;
pub mod mir;
pub mod mir_context;
pub mod sem;
