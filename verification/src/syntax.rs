//! The syntax tree that declarations point into.
//!
//! The tree belongs to the parser. A declaration carries nodes of it along
//! for the passes that come later, and the table itself reads nothing but the
//! source range of the node that a declaration was made at, which it holds as
//! a [`Node`] of its own.

use vstd::prelude::*;

verus! {

/// Source range of a syntax node, in bytes from the start of the file.
#[derive(Debug, Default, Clone, Copy, PartialEq, Eq, Hash, Structural)]
pub struct Node {
    /// Offset of the first byte.
    pub start: u32,
    /// Offset behind the last byte.
    pub end: u32,
}

impl Node {
    pub fn new(start: u32, end: u32) -> (node: Self)
        ensures
            node.start == start,
            node.end == end,
    {
        Node { start, end }
    }
}

/// `enderpy_python_parser::ast::ClassDef`, a class definition. Nothing is
/// claimed of its contents.
#[verifier::external_type_specification]
#[verifier::external_body]
pub struct ExClassDef(enderpy_python_parser::ast::ClassDef);

/// `enderpy_python_parser::ast::FunctionDef`, a function definition. Nothing
/// is claimed of its contents.
#[verifier::external_type_specification]
#[verifier::external_body]
pub struct ExFunctionDef(enderpy_python_parser::ast::FunctionDef);

/// `enderpy_python_parser::ast::Expression`, an expression. Nothing is claimed
/// of its contents.
#[verifier::external_type_specification]
#[verifier::external_body]
pub struct ExExpression(enderpy_python_parser::ast::Expression);

/// `enderpy_python_parser::ast::For`, a `for` statement. Nothing is claimed of
/// its contents.
#[verifier::external_type_specification]
#[verifier::external_body]
pub struct ExFor(enderpy_python_parser::ast::For);

/// `enderpy_python_parser::ast::Return`, a `return` statement. Nothing is
/// claimed of its contents.
#[verifier::external_type_specification]
#[verifier::external_body]
pub struct ExReturn(enderpy_python_parser::ast::Return);

/// `enderpy_python_parser::ast::Yield`, a `yield` expression. Nothing is
/// claimed of its contents.
#[verifier::external_type_specification]
#[verifier::external_body]
pub struct ExYield(enderpy_python_parser::ast::Yield);

/// `enderpy_python_parser::ast::Raise`, a `raise` statement. Nothing is
/// claimed of its contents.
#[verifier::external_type_specification]
#[verifier::external_body]
pub struct ExRaise(enderpy_python_parser::ast::Raise);

/// `enderpy_python_parser::ast::Arg`, a parameter of a function. Nothing is
/// claimed of its contents.
#[verifier::external_type_specification]
#[verifier::external_body]
pub struct ExArg(enderpy_python_parser::ast::Arg);

/// `enderpy_python_parser::ast::Import`, an `import` statement. Nothing is
/// claimed of its contents.
#[verifier::external_type_specification]
#[verifier::external_body]
pub struct ExImport(enderpy_python_parser::ast::Import);

/// `enderpy_python_parser::ast::ImportFrom`, a `from .. import` statement.
/// Nothing is claimed of its contents.
#[verifier::external_type_specification]
#[verifier::external_body]
pub struct ExImportFrom(enderpy_python_parser::ast::ImportFrom);

/// `Clone::clone` of `enderpy_python_parser::ast::Arg`, which the parser
/// derives. Nothing is claimed of the copy.
pub assume_specification[ <enderpy_python_parser::ast::Arg as Clone>::clone ](
    arg: &enderpy_python_parser::ast::Arg,
) -> (copy: enderpy_python_parser::ast::Arg);

} // verus!
