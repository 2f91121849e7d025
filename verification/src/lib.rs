//! Scopes and symbols of one analysed source file.
//!
//! A [`SymbolTable`] holds the lexical scopes of a file, the names bound in each
//! scope together with every declaration of each name, and an index from source
//! offsets to the scopes that were closed. A pass that walks the syntax tree
//! fills it: it pushes a scope where a class or a function begins, inserts a
//! symbol at each binding, and closes the scope where the body ends. Later
//! passes ask what a name refers to, seen from a scope or from an offset.
//!
//! Every operation carries a contract over the mathematical value of the table,
//! which [`model`] defines. What holds across operations is proved in [`laws`].
//! The syntax tree is that of `enderpy_python_parser`, and the position index
//! is kept in a `rust_lapper::Lapper`: [`syntax`] and [`position_index`] say
//! what is taken for granted of the two.

pub mod declaration;
pub mod dump;
pub mod flags;
pub mod ids;
pub mod kind;
pub mod laws;
pub mod model;
pub mod node;
pub mod order;
pub mod position_index;
pub mod symbols;
pub mod syntax;
pub mod table;
pub mod text;

pub use declaration::{
    Alias, AsyncFunction, Class, Declaration, DeclarationPath, Function, Parameter, ResolvedImport,
    TypeAlias, TypeParameter, Variable,
};
pub use flags::SymbolFlags;
pub use ids::{get_id, Id, IdGenerator};
pub use kind::SymbolTableType;
pub use model::{ScopeView, TableView};
pub use node::{NodeView, SymbolTableNode};
pub use position_index::PositionIndex;
pub use symbols::Symbols;
pub use syntax::Node;
pub use table::{SymbolTable, SymbolTableScope};
