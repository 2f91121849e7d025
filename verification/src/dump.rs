//! The text of a dump of the table: what the `to_string` methods return.
//!
//! A dump is for reading and for comparing two runs. So everything in it
//! stands in an order that does not depend on the order of insertion: scopes
//! and symbols by name, the declarations of a symbol by the offset at which
//! they start.

use crate::declaration::{Declaration, DeclarationPath, ResolvedImport};
use crate::flags::{SymbolFlags, CLASS_MEMBER_BIT, INSTANCE_MEMBER_BIT};
use crate::ids::Id;
use crate::model::{ScopeView, TableView};
use crate::node::NodeView;
use crate::order::{stable_order, Ranking};
use crate::text::{
    decimal, decimal_text, hexadecimal, lemma_bytes_le_total, lemma_bytes_le_transitive,
    lemma_text_le_antisymmetric, text_le,
};
use std::sync::Arc;
use vstd::prelude::*;
use vstd::string::StringExecFns;

verus! {

/// The bits of `flags` that have no name.
pub open spec fn unnamed_bits(flags: SymbolFlags) -> u16 {
    flags.spec_bits() & !(CLASS_MEMBER_BIT | INSTANCE_MEMBER_BIT)
}

/// The flags that are set, by name and with ` | ` between them. Bits that
/// have no name follow as one hexadecimal number.
pub open spec fn flag_names(flags: SymbolFlags) -> Seq<char> {
    let class = flags.spec_bits() & CLASS_MEMBER_BIT != 0;
    let instance = flags.spec_bits() & INSTANCE_MEMBER_BIT != 0;
    let first = if class {
        "CLASS_MEMBER"@
    } else {
        Seq::empty()
    };
    let second = if instance {
        (if class {
            " | "@
        } else {
            Seq::empty()
        }) + "INSTANCE_MEMBER"@
    } else {
        Seq::empty()
    };
    let third = if unnamed_bits(flags) != 0 {
        (if class || instance {
            " | "@
        } else {
            Seq::empty()
        }) + "0x"@ + hexadecimal(unnamed_bits(flags) as nat)
    } else {
        Seq::empty()
    };
    first + second + third
}

/// The text of a set of flags: `SymbolFlags(..)` round the names of the
/// flags, or round `0x0` where none is set.
pub open spec fn flags_text(flags: SymbolFlags) -> Seq<char> {
    "SymbolFlags("@ + (if flags.spec_bits() == 0 {
        "0x0"@
    } else {
        flag_names(flags)
    }) + ")"@
}

/// The text of a declaration path: the source range of the declaring node.
pub open spec fn path_text(path: DeclarationPath) -> Seq<char> {
    "declaration at Node { start: "@ + decimal(path.node.start as nat) + ", end: "@ + decimal(
        path.node.end as nat,
    ) + " }"@
}

/// The text of an entry: its name, the kind of its last declaration, and
/// its flags.
pub open spec fn node_text(node: NodeView) -> Seq<char> {
    node.name + " - declaration: "@ + node.declarations.last().text() + " - properties: "@
        + flags_text(node.flags)
}

/// Declarations compared by the offset at which they start.
pub ghost struct ByStart {
    pub declarations: Seq<Declaration>,
}

impl Ranking for ByStart {
    open spec fn size(self) -> nat {
        self.declarations.len()
    }

    open spec fn le(self, i: int, j: int) -> bool {
        self.declarations[i].start() <= self.declarations[j].start()
    }

    proof fn lemma_total(self, i: int, j: int) {
    }

    proof fn lemma_transitive(self, i: int, j: int, k: int) {
    }
}

/// Things compared by their names, as strings are ordered.
pub ghost struct ByName {
    pub names: Seq<Seq<char>>,
}

impl Ranking for ByName {
    open spec fn size(self) -> nat {
        self.names.len()
    }

    open spec fn le(self, i: int, j: int) -> bool {
        text_le(self.names[i], self.names[j])
    }

    proof fn lemma_total(self, i: int, j: int) {
        lemma_bytes_le_total(
            vstd::utf8::encode_utf8(self.names[i]),
            vstd::utf8::encode_utf8(self.names[j]),
        );
    }

    proof fn lemma_transitive(self, i: int, j: int, k: int) {
        lemma_bytes_le_transitive(
            vstd::utf8::encode_utf8(self.names[i]),
            vstd::utf8::encode_utf8(self.names[j]),
            vstd::utf8::encode_utf8(self.names[k]),
        );
    }
}

/// A line for each of the first `n` declarations that `order` lists.
pub open spec fn declaration_lines(declarations: Seq<Declaration>, order: Seq<int>, n: nat) -> Seq<
    char,
>
    decreases n,
{
    if n == 0 {
        Seq::empty()
    } else {
        declaration_lines(declarations, order, (n - 1) as nat) + "--:   "@ + declarations[order[n
            - 1]].text() + "\n"@
    }
}

/// The declarations of an entry in the order in which a dump lists them: by
/// the offset at which they start, and those that start at one offset as
/// the entry holds them.
pub open spec fn declarations_by_start(declarations: Seq<Declaration>) -> Seq<int> {
    stable_order(ByStart { declarations }, declarations.len())
}

/// The lines of an entry in the dump of its scope: the entry, a heading,
/// and its declarations.
pub open spec fn symbol_block(node: NodeView) -> Seq<char> {
    node_text(node) + "\n"@ + "- Declarations:\n"@ + declaration_lines(
        node.declarations,
        declarations_by_start(node.declarations),
        node.declarations.len(),
    )
}

/// Whether `names` lists the names that are bound in `symbols`, each once,
/// in rising order.
pub open spec fn lists_names(symbols: Map<Seq<char>, NodeView>, names: Seq<Seq<char>>) -> bool {
    &&& forall|a: int, b: int|
        0 <= a < b < names.len() ==> text_le(#[trigger] names[a], #[trigger] names[b]) && names[a]
            != names[b]
    &&& forall|a: int| 0 <= a < names.len() ==> symbols.contains_key(#[trigger] names[a])
    &&& forall|name: Seq<char>| symbols.contains_key(name) ==> names.contains(name)
}

/// The names that are bound in `symbols` in rising order.
pub open spec fn sorted_names(symbols: Map<Seq<char>, NodeView>) -> Seq<Seq<char>> {
    choose|names: Seq<Seq<char>>| lists_names(symbols, names)
}

/// Without its last name a list of names lists what is bound apart from
/// that name.
proof fn lemma_front_lists_names(symbols: Map<Seq<char>, NodeView>, names: Seq<Seq<char>>)
    requires
        lists_names(symbols, names),
        names.len() > 0,
    ensures
        lists_names(symbols.remove(names.last()), names.drop_last()),
{
    let rest = symbols.remove(names.last());
    let front = names.drop_last();
    assert forall|i: int| 0 <= i < front.len() implies rest.contains_key(#[trigger] front[i]) by {
        assert(front[i] == names[i]);
        assert(names[i] != names[names.len() - 1]);
    }
    assert forall|name: Seq<char>| rest.contains_key(name) implies front.contains(name) by {
        assert(names.contains(name));
        let i = choose|i: int| 0 <= i < names.len() && names[i] == name;
        assert(front[i] == name);
    }
    assert forall|i: int, j: int| 0 <= i < j < front.len() implies text_le(
        #[trigger] front[i],
        #[trigger] front[j],
    ) && front[i] != front[j] by {
        assert(front[i] == names[i] && front[j] == names[j]);
    }
}

/// Only one list holds the names of a scope in rising order.
pub proof fn lemma_sorted_names_unique(
    symbols: Map<Seq<char>, NodeView>,
    a: Seq<Seq<char>>,
    b: Seq<Seq<char>>,
)
    requires
        lists_names(symbols, a),
        lists_names(symbols, b),
    ensures
        a == b,
    decreases a.len(),
{
    if a.len() == 0 {
        if b.len() > 0 {
            assert(symbols.contains_key(b[0]));
            assert(a.contains(b[0]));
        }
        assert(a =~= b);
    } else {
        // The last name of each list is the greatest name, so it is the same.
        let top = a.last();
        assert(symbols.contains_key(a[a.len() - 1]));
        assert(b.contains(top));
        let at = choose|i: int| 0 <= i < b.len() && b[i] == top;
        let other = b.last();
        assert(symbols.contains_key(b[b.len() - 1]));
        assert(a.contains(other));
        let back = choose|i: int| 0 <= i < a.len() && a[i] == other;
        if at < b.len() - 1 {
            assert(text_le(b[at], b[b.len() - 1]));
        }
        if back < a.len() - 1 {
            assert(text_le(a[back], a[a.len() - 1]));
        }
        if top != other {
            lemma_text_le_antisymmetric(top, other);
        }
        lemma_front_lists_names(symbols, a);
        lemma_front_lists_names(symbols, b);
        lemma_sorted_names_unique(symbols.remove(top), a.drop_last(), b.drop_last());
        assert(a =~= a.drop_last().push(top));
        assert(b =~= b.drop_last().push(other));
    }
}

/// The blocks of the entries of the first `n` names of `names`.
pub open spec fn symbol_blocks(
    symbols: Map<Seq<char>, NodeView>,
    names: Seq<Seq<char>>,
    n: nat,
) -> Seq<char>
    decreases n,
{
    if n == 0 {
        Seq::empty()
    } else {
        symbol_blocks(symbols, names, (n - 1) as nat) + symbol_block(symbols[names[n - 1]])
    }
}

/// The block of each entry of `symbols`, the names in rising order.
pub open spec fn symbols_text(symbols: Map<Seq<char>, NodeView>) -> Seq<char> {
    symbol_blocks(symbols, sorted_names(symbols), sorted_names(symbols).len())
}

/// The dump of a scope: a heading with its name, and the block of each name
/// that is bound in it, the names in rising order.
pub open spec fn scope_text(scope: ScopeView) -> Seq<char> {
    "Symbols in "@ + scope.name + "\n"@ + symbols_text(scope.symbols)
}

/// The first `n` identifiers of `ids`, each as `Id(..)`, with `, ` between
/// them.
pub open spec fn id_list(ids: Seq<Id>, n: nat) -> Seq<char>
    decreases n,
{
    if n == 0 {
        Seq::empty()
    } else {
        id_list(ids, (n - 1) as nat) + (if n == 1 {
            Seq::empty()
        } else {
            ", "@
        }) + "Id("@ + decimal(ids[n - 1].0 as nat) + ")"@
    }
}

/// The identifiers of `ids`, each as `Id(..)`, with `, ` between them.
pub fn id_list_text(ids: &Vec<Id>) -> (text: String)
    ensures
        text@ == id_list(ids@, ids@.len()),
{
    let mut text = String::new();
    let mut k: usize = 0;
    assert(text@ =~= id_list(ids@, 0));
    while k < ids.len()
        invariant
            k <= ids.len(),
            text@ == id_list(ids@, k as nat),
        decreases ids.len() - k,
    {
        if k > 0 {
            text.append(", ");
        }
        text.append("Id(");
        let number = decimal_text(ids[k].0);
        text.append(number.as_str());
        text.append(")");
        assert(text@ =~= id_list(ids@, (k + 1) as nat));
        k += 1;
    }
    text
}

/// A line for each of the first `n` star imports: the tables that it was
/// resolved to, in square brackets.
pub open spec fn star_import_lines(imports: Seq<Arc<ResolvedImport>>, n: nat) -> Seq<char>
    decreases n,
{
    if n == 0 {
        Seq::empty()
    } else {
        star_import_lines(imports, (n - 1) as nat) + "["@ + id_list(
            imports[n - 1].resolved_ids@,
            imports[n - 1].resolved_ids@.len(),
        ) + "]\n"@
    }
}

/// The names of `scopes` in their order.
pub open spec fn scope_names(scopes: Seq<ScopeView>) -> Seq<Seq<char>> {
    Seq::new(scopes.len(), |i: int| scopes[i].name)
}

/// The scopes of `table` in the order in which a dump lists them: by name,
/// and those of one name as the table holds them.
pub open spec fn scopes_by_name(table: TableView) -> Seq<int> {
    stable_order(ByName { names: scope_names(table.scopes) }, table.scopes.len())
}

/// The dumps of the first `n` scopes that `order` lists, an empty line
/// behind each. The scope of the built-in names is left out.
pub open spec fn scope_dumps(table: TableView, order: Seq<int>, n: nat) -> Seq<char>
    decreases n,
{
    if n == 0 {
        Seq::empty()
    } else {
        scope_dumps(table, order, (n - 1) as nat) + (if table.scopes[order[n - 1]].kind is BUILTIN {
            Seq::empty()
        } else {
            scope_text(table.scopes[order[n - 1]]) + "\n"@
        })
    }
}

/// A line with the name of each of the first `n` scopes that `order` lists.
/// The scope of the built-in names is left out here too.
pub open spec fn scope_name_lines(table: TableView, order: Seq<int>, n: nat) -> Seq<char>
    decreases n,
{
    if n == 0 {
        Seq::empty()
    } else {
        scope_name_lines(table, order, (n - 1) as nat) + (if table.scopes[order[n - 1]].kind is BUILTIN {
            Seq::empty()
        } else {
            "Scope "@ + table.scopes[order[n - 1]].name + "\n"@
        })
    }
}

/// The dump of a table: the star imports if there are any, the dump of each
/// scope, and the list of the scopes' names. The scope of the built-in names
/// appears in neither.
pub open spec fn table_text(table: TableView) -> Seq<char> {
    (if table.star_imports.len() == 0 {
        Seq::empty()
    } else {
        "Star imports:\n"@ + star_import_lines(table.star_imports, table.star_imports.len())
    }) + scope_dumps(table, scopes_by_name(table), table.scopes.len()) + "Scopes:\n\n"@
        + scope_name_lines(table, scopes_by_name(table), table.scopes.len())
}

} // verus!
