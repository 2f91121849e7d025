//! The kinds of scopes.

use enderpy_python_parser::ast::{ClassDef, FunctionDef};
use std::sync::Arc;
use vstd::prelude::*;

verus! {

/// The kind of a scope. A class scope and a function scope hold the node
/// that defines them.
#[derive(Debug, Clone)]
pub enum SymbolTableType {
    /// The scope of the names that the language itself provides, like `len`.
    BUILTIN,
    Module,
    Class(Arc<ClassDef>),
    Function(Arc<FunctionDef>),
}

impl SymbolTableType {
    pub fn is_builtin(&self) -> (b: bool)
        ensures
            b == (self is BUILTIN),
    {
        matches!(self, SymbolTableType::BUILTIN)
    }

    pub fn is_module(&self) -> (b: bool)
        ensures
            b == (self is Module),
    {
        matches!(self, SymbolTableType::Module)
    }

    pub fn is_class(&self) -> (b: bool)
        ensures
            b == (self is Class),
    {
        matches!(self, SymbolTableType::Class(_))
    }

    pub fn is_function(&self) -> (b: bool)
        ensures
            b == (self is Function),
    {
        matches!(self, SymbolTableType::Function(_))
    }
}

} // verus!
