//! Declarations: the binding events that a symbol's history is made of.

use crate::dump::path_text;
use crate::ids::Id;
use crate::text::decimal_text;
use crate::syntax::Node;
use enderpy_python_parser::ast;
use std::sync::Arc;
use vstd::prelude::*;
use vstd::string::StringExecFns;

verus! {

/// What an import statement was resolved to: the symbol tables of the files
/// that it brings in.
#[derive(Debug, Clone)]
pub struct ResolvedImport {
    pub resolved_ids: Vec<Id>,
}

/// Where a declaration was made.
#[derive(Debug, Clone, Copy, PartialEq, Eq, Structural)]
pub struct DeclarationPath {
    /// The symbol table of the file that holds the declaration.
    pub symbol_table_id: Id,
    /// The source range of the declaring node.
    pub node: Node,
    /// The scope that the declaration is in.
    pub scope_id: u32,
}

impl DeclarationPath {
    pub fn new(symbol_table_id: Id, node: Node, scope_id: u32) -> (path: Self)
        ensures
            path == (DeclarationPath { symbol_table_id, node, scope_id }),
    {
        DeclarationPath { symbol_table_id, node, scope_id }
    }

    /// The path as a dump shows it: the source range of the declaring node.
    pub fn to_string(&self) -> (text: String)
        ensures
            text@ == path_text(*self),
    {
        let mut text = String::from_str("declaration at Node { start: ");
        let start = decimal_text(self.node.start);
        text.append(start.as_str());
        text.append(", end: ");
        let end = decimal_text(self.node.end);
        text.append(end.as_str());
        text.append(" }");
        assert(text@ =~= path_text(*self));
        text
    }
}

#[derive(Debug, Clone)]
pub struct Variable {
    pub declaration_path: DeclarationPath,
    pub type_annotation: Option<ast::Expression>,
    pub inferred_type_source: Option<ast::Expression>,
    pub is_constant: bool,
    /// The `for` statement that introduced the variable as its target, if one did.
    pub for_target: Option<ast::For>,
}

#[derive(Debug, Clone)]
pub struct Function {
    pub declaration_path: DeclarationPath,
    pub function_node: Arc<ast::FunctionDef>,
    pub is_method: bool,
    pub is_generator: bool,
    /// The `return` statements that can be reached in the top level of the body.
    pub return_statements: Vec<ast::Return>,
    /// The `yield` expressions that can be reached in the top level of the body.
    pub yield_statements: Vec<ast::Yield>,
    /// The `raise` statements that can be reached in the top level of the body.
    pub raise_statements: Vec<ast::Raise>,
}

#[derive(Debug, Clone)]
pub struct AsyncFunction {
    pub declaration_path: DeclarationPath,
    pub function_node: Arc<ast::FunctionDef>,
    pub is_method: bool,
    pub is_generator: bool,
    /// The `return` statements that can be reached in the top level of the body.
    pub return_statements: Vec<ast::Return>,
    /// The `yield` expressions that can be reached in the top level of the body.
    pub yield_statements: Vec<ast::Yield>,
    /// The `raise` statements that can be reached in the top level of the body.
    pub raise_statements: Vec<ast::Raise>,
}

#[derive(Debug, Clone)]
pub struct Class {
    pub name: String,
    pub declaration_path: DeclarationPath,
    /// Special classes are the forms that the type system defines itself.
    /// They have no class body.
    pub special: bool,
    /// The defining node, which a special class does not have.
    pub class_node: Option<Arc<ast::ClassDef>>,
    /// The scope that the class body opens.
    pub class_scope_id: u32,
    /// The module's name, a dot, and the class's name.
    pub qual_name: String,
}

/// The module that special classes are counted to, with the dot that follows it.
pub open spec fn builtins_prefix() -> Seq<char> {
    "builtins."@
}

impl Class {
    pub fn new(
        module_name: String,
        class_node: Arc<ast::ClassDef>,
        declaration_path: DeclarationPath,
        class_scope_id: u32,
        name: &str,
    ) -> (class: Self)
        ensures
            class.name@ == name@,
            class.qual_name@ == module_name@ + seq!['.'] + name@,
            class.declaration_path == declaration_path,
            !class.special,
            class.class_node == Some(class_node),
            class.class_scope_id == class_scope_id,
    {
        let mut qual_name = module_name;
        proof {
            reveal_strlit(".");
        }
        qual_name.append(".");
        assert(qual_name@ == module_name@ + seq!['.']);
        qual_name.append(name);
        Class {
            name: String::from_str(name),
            declaration_path,
            special: false,
            class_node: Some(class_node),
            class_scope_id,
            qual_name,
        }
    }

    /// A class that the type system defines itself. It counts to the module
    /// `builtins` and has no defining node.
    pub fn new_special(name: String, declaration_path: DeclarationPath, class_scope_id: u32) -> (class: Self)
        ensures
            class.name == name,
            class.qual_name@ == builtins_prefix() + name@,
            class.declaration_path == declaration_path,
            class.special,
            class.class_node.is_none(),
            class.class_scope_id == class_scope_id,
    {
        let mut qual_name = String::from_str("builtins.");
        qual_name.append(name.as_str());
        Class {
            name,
            declaration_path,
            special: true,
            class_node: None,
            class_scope_id,
            qual_name,
        }
    }
}

#[derive(Debug, Clone)]
pub struct Parameter {
    pub declaration_path: DeclarationPath,
    pub parameter_node: ast::Arg,
    pub type_annotation: Option<ast::Expression>,
    pub default_value: Option<ast::Expression>,
    /// The first parameter of a method has a meaning of its own: it is the
    /// instance or the class.
    pub is_first: bool,
}

/// A type parameter of a generic class or function, like `T` in `List[T]`.
#[derive(Debug, Clone)]
pub struct TypeParameter {
    pub declaration_path: DeclarationPath,
}

/// A name that an import statement introduces.
#[derive(Debug, Clone)]
pub struct Alias {
    pub declaration_path: DeclarationPath,
    /// The statement that the alias comes from, if it is a `from .. import`.
    /// Only one of the two statements is set.
    pub import_from_node: Option<ast::ImportFrom>,
    /// The statement that the alias comes from, if it is an `import`.
    pub import_node: Option<ast::Import>,
    /// The imported symbol of a `from .. import`: `baz` in `from bar import baz`.
    pub symbol_name: Option<String>,
    /// The imported module of an `import`: `os.path` in `import os.path`.
    pub module_name: Option<String>,
    /// What the import was resolved to, once the resolver has run.
    pub import_result: Option<Arc<ResolvedImport>>,
}

#[derive(Debug, Clone)]
pub struct TypeAlias {
    pub declaration_path: DeclarationPath,
}

/// One binding event of a name.
#[derive(Debug, Clone)]
pub enum Declaration {
    Variable(Variable),
    Function(Function),
    AsyncFunction(AsyncFunction),
    Class(Class),
    /// A name that an import introduces.
    Alias(Alias),
    Parameter(Parameter),
    TypeParameter(TypeParameter),
    TypeAlias(TypeAlias),
}

impl Declaration {
    /// Where the declaration was made.
    pub open spec fn spec_declaration_path(&self) -> DeclarationPath {
        match self {
            Declaration::Variable(v) => v.declaration_path,
            Declaration::Function(f) => f.declaration_path,
            Declaration::AsyncFunction(f) => f.declaration_path,
            Declaration::Class(c) => c.declaration_path,
            Declaration::Parameter(p) => p.declaration_path,
            Declaration::Alias(a) => a.declaration_path,
            Declaration::TypeParameter(t) => t.declaration_path,
            Declaration::TypeAlias(t) => t.declaration_path,
        }
    }

    /// The offset at which the declaring node starts.
    pub open spec fn start(&self) -> u32 {
        self.spec_declaration_path().node.start
    }

    /// The kind of the declaration in words.
    pub open spec fn text(&self) -> Seq<char> {
        match self {
            Declaration::Variable(_) => "Variable"@,
            Declaration::Function(_) => "Function"@,
            Declaration::AsyncFunction(_) => "Async function"@,
            Declaration::Class(_) => "Class"@,
            Declaration::Parameter(_) => "Parameter"@,
            Declaration::Alias(_) => "Alias"@,
            Declaration::TypeParameter(_) => "Type parameter"@,
            Declaration::TypeAlias(_) => "Type alias"@,
        }
    }

    pub fn declaration_path(&self) -> (path: &DeclarationPath)
        ensures
            *path == self.spec_declaration_path(),
    {
        match self {
            Declaration::Variable(v) => &v.declaration_path,
            Declaration::Function(f) => &f.declaration_path,
            Declaration::AsyncFunction(f) => &f.declaration_path,
            Declaration::Class(c) => &c.declaration_path,
            Declaration::Parameter(p) => &p.declaration_path,
            Declaration::Alias(a) => &a.declaration_path,
            Declaration::TypeParameter(t) => &t.declaration_path,
            Declaration::TypeAlias(t) => &t.declaration_path,
        }
    }

    pub fn is_variable(&self) -> (b: bool)
        ensures
            b == (self is Variable),
    {
        matches!(self, Declaration::Variable(_))
    }

    pub fn is_function(&self) -> (b: bool)
        ensures
            b == (self is Function),
    {
        matches!(self, Declaration::Function(_))
    }

    pub fn is_async_function(&self) -> (b: bool)
        ensures
            b == (self is AsyncFunction),
    {
        matches!(self, Declaration::AsyncFunction(_))
    }

    pub fn is_class(&self) -> (b: bool)
        ensures
            b == (self is Class),
    {
        matches!(self, Declaration::Class(_))
    }

    pub fn is_alias(&self) -> (b: bool)
        ensures
            b == (self is Alias),
    {
        matches!(self, Declaration::Alias(_))
    }

    pub fn is_parameter(&self) -> (b: bool)
        ensures
            b == (self is Parameter),
    {
        matches!(self, Declaration::Parameter(_))
    }

    pub fn is_type_parameter(&self) -> (b: bool)
        ensures
            b == (self is TypeParameter),
    {
        matches!(self, Declaration::TypeParameter(_))
    }

    pub fn is_type_alias(&self) -> (b: bool)
        ensures
            b == (self is TypeAlias),
    {
        matches!(self, Declaration::TypeAlias(_))
    }

    /// The kind of the declaration in words, as a dump of the table shows it.
    pub fn to_string(&self) -> (text: String)
        ensures
            text@ == self.text(),
    {
        match self {
            Declaration::Variable(_) => String::from_str("Variable"),
            Declaration::Function(_) => String::from_str("Function"),
            Declaration::Class(_) => String::from_str("Class"),
            Declaration::Parameter(_) => String::from_str("Parameter"),
            Declaration::Alias(_) => String::from_str("Alias"),
            Declaration::TypeParameter(_) => String::from_str("Type parameter"),
            Declaration::TypeAlias(_) => String::from_str("Type alias"),
            Declaration::AsyncFunction(_) => String::from_str("Async function"),
        }
    }
}

} // verus!
