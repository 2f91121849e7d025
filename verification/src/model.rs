//! The mathematical model of a symbol table.
//!
//! A table is a sequence of scopes in the order in which they were pushed. The
//! first is the global scope. Every other scope names its parent, which was
//! pushed before it, so the parent links form a tree. The contracts of the
//! table's operations are stated over the functions of this module.

use crate::declaration::ResolvedImport;
use crate::ids::Id;
use crate::kind::SymbolTableType;
use crate::node::NodeView;
use crate::position_index::{
    entries_sorted, insertion_point, lemma_insert_keeps_sorted, lemma_insertion_point,
};
use std::sync::Arc;
use vstd::prelude::*;

verus! {

/// The mathematical value of a scope.
#[verifier::ext_equal]
pub ghost struct ScopeView {
    pub id: u32,
    /// The offset at which the header of the scope starts.
    pub start_pos: u32,
    pub kind: SymbolTableType,
    pub name: Seq<char>,
    /// The entry of each name that is bound in the scope.
    pub symbols: Map<Seq<char>, NodeView>,
    pub parent: Option<u32>,
}

/// Whether every entry of `symbols` stands under its own name and holds a
/// declaration, and there are finitely many.
pub open spec fn entries_well_formed(symbols: Map<Seq<char>, NodeView>) -> bool {
    &&& symbols.dom().finite()
    &&& forall|name: Seq<char>| #[trigger]
        symbols.contains_key(name) ==> symbols[name].name == name
            && symbols[name].declarations.len() > 0
}

/// The entry that `node` becomes when it is inserted into `symbols`: if the
/// name is bound already, the declarations that are held for it follow those
/// of `node`.
pub open spec fn merged_entry(symbols: Map<Seq<char>, NodeView>, node: NodeView) -> NodeView {
    if symbols.contains_key(node.name) {
        NodeView { declarations: node.declarations + symbols[node.name].declarations, ..node }
    } else {
        node
    }
}

impl ScopeView {
    /// The global scope of a file, with nothing bound in it.
    pub open spec fn global() -> ScopeView {
        ScopeView {
            id: 0,
            start_pos: 0,
            kind: SymbolTableType::Module,
            name: "global"@,
            symbols: Map::empty(),
            parent: None,
        }
    }

    /// Every entry stands under its own name and holds a declaration, and
    /// there are finitely many.
    pub open spec fn well_formed(self) -> bool {
        entries_well_formed(self.symbols)
    }

    /// The entry that `node` becomes when it is inserted: if the name is
    /// bound already, the declarations that the scope holds follow those of
    /// `node`.
    pub open spec fn merged(self, node: NodeView) -> NodeView {
        merged_entry(self.symbols, node)
    }

    /// The scope after `node` was inserted.
    pub open spec fn with_symbol(self, node: NodeView) -> ScopeView {
        ScopeView { symbols: self.symbols.insert(node.name, self.merged(node)), ..self }
    }

    /// Whether a lookup that walks through this scope stops at it for `name`:
    /// the name is bound here, and it is no member or this is a class scope.
    pub open spec fn shows(self, name: Seq<char>) -> bool {
        self.symbols.contains_key(name) && (!self.symbols[name].flags.spec_is_member()
            || self.kind is Class)
    }
}

/// The end of the interval that is recorded for a closed scope: the interval
/// is open to the right as far as offsets go.
pub const OPEN_END: u32 = 0xffff_ffff;

/// The mathematical value of a symbol table.
#[verifier::ext_equal]
pub ghost struct TableView {
    pub id: Id,
    /// The scopes in the order in which they were pushed.
    pub scopes: Seq<ScopeView>,
    pub current_scope_id: u32,
    /// The scope that was current before the last jump to a position.
    pub prev_scope_id: Option<u32>,
    pub file_path: Seq<char>,
    /// The position index: for the file and for each closed scope an entry
    /// `(start, stop, scope)`.
    pub index: Seq<(u32, u32, u32)>,
    pub star_imports: Seq<Arc<ResolvedImport>>,
}

impl TableView {
    /// The table of a file of `file_len` bytes before anything is declared.
    pub open spec fn initial(file_path: Seq<char>, file_len: u32, id: Id) -> TableView {
        TableView {
            id,
            scopes: seq![ScopeView::global()],
            current_scope_id: 0,
            prev_scope_id: None,
            file_path,
            index: seq![(0u32, file_len, 0u32)],
            star_imports: Seq::empty(),
        }
    }

    /// Whether the table holds a scope with the identifier `id`.
    pub open spec fn has_scope(self, id: u32) -> bool {
        exists|i: int| 0 <= i < self.scopes.len() && (#[trigger] self.scopes[i]).id == id
    }

    /// Whether `i` is the place of the scope that was pushed last with the
    /// identifier `id`.
    pub open spec fn is_last_with_id(self, id: u32, i: int) -> bool {
        &&& 0 <= i < self.scopes.len()
        &&& self.scopes[i].id == id
        &&& forall|j: int| i < j < self.scopes.len() ==> (#[trigger] self.scopes[j]).id != id
    }

    /// The place of the scope with the identifier `id`.
    pub open spec fn index_of(self, id: u32) -> int {
        choose|i: int| self.is_last_with_id(id, i)
    }

    /// The scope with the identifier `id`.
    pub open spec fn scope(self, id: u32) -> ScopeView {
        self.scopes[self.index_of(id)]
    }

    /// Whether a scope of the table starts at `pos`.
    pub open spec fn starts_at(self, pos: u32) -> bool {
        exists|i: int| 0 <= i < self.scopes.len() && (#[trigger] self.scopes[i]).start_pos == pos
    }

    /// Whether `i` is the place of the first scope that starts at `pos`.
    pub open spec fn is_first_at(self, pos: u32, i: int) -> bool {
        &&& 0 <= i < self.scopes.len()
        &&& self.scopes[i].start_pos == pos
        &&& forall|j: int| 0 <= j < i ==> (#[trigger] self.scopes[j]).start_pos != pos
    }

    /// The place of the scope that starts at `pos`.
    pub open spec fn index_at(self, pos: u32) -> int {
        choose|i: int| self.is_first_at(pos, i)
    }

    /// Whether the scopes form a tree below the global scope, the current and
    /// the previous scope exist, and the position index is in order and speaks
    /// of scopes of the table.
    pub open spec fn well_formed(self) -> bool {
        &&& self.scopes.len() > 0
        &&& self.scopes[0].id == 0
        &&& self.scopes[0].parent is None
        &&& forall|i: int, j: int|
            0 <= i < self.scopes.len() && 0 <= j < self.scopes.len() && i != j ==> (
            #[trigger] self.scopes[i]).id != (#[trigger] self.scopes[j]).id
        &&& forall|i: int|
            0 < i < self.scopes.len() ==> self.parent_is_earlier(i)
        &&& forall|i: int| 0 <= i < self.scopes.len() ==> (#[trigger] self.scopes[i]).well_formed()
        &&& self.has_scope(self.current_scope_id)
        &&& (self.prev_scope_id matches Some(prev) ==> self.has_scope(prev))
        &&& entries_sorted(self.index)
        &&& forall|k: int| 0 <= k < self.index.len() ==> self.speaks_of_scope(#[trigger] self.index[k])
    }

    /// Whether a scope other than the first starts at `pos`.
    pub open spec fn starts_behind_global(self, pos: u32) -> bool {
        exists|i: int| 0 < i < self.scopes.len() && (#[trigger] self.scopes[i]).start_pos == pos
    }

    /// Whether no two scopes start at one offset, the global scope apart,
    /// which may share the start of the file with the first class or
    /// function.
    pub open spec fn starts_are_distinct(self) -> bool {
        forall|i: int, j: int|
            0 < i < self.scopes.len() && 0 < j < self.scopes.len() && i != j ==> (
            #[trigger] self.scopes[i]).start_pos != (#[trigger] self.scopes[j]).start_pos
    }

    /// Whether the scope at `i` names a parent that was pushed before it.
    pub open spec fn parent_is_earlier(self, i: int) -> bool {
        &&& self.scopes[i].parent is Some
        &&& exists|j: int|
            0 <= j < i && (#[trigger] self.scopes[j]).id == self.scopes[i].parent.unwrap()
    }

    /// Whether `entry` starts where the scope that it names starts.
    pub open spec fn speaks_of_scope(self, entry: (u32, u32, u32)) -> bool {
        exists|i: int|
            0 <= i < self.scopes.len() && (#[trigger] self.scopes[i]).id == entry.2
                && self.scopes[i].start_pos == entry.0
    }

    /// The place of the parent of the scope at `i`, if the scope names one
    /// that the table holds.
    pub open spec fn parent_index(self, i: int) -> Option<int> {
        match self.scopes[i].parent {
            Some(parent) => if self.has_scope(parent) {
                Some(self.index_of(parent))
            } else {
                None
            },
            None => None,
        }
    }

    /// The places of the scope at `i`, of its parent, of the parent of that,
    /// and so on as far as parents were pushed before their children.
    pub open spec fn ancestry(self, i: int) -> Seq<int>
        decreases i,
    {
        if 0 <= i < self.scopes.len() {
            match self.parent_index(i) {
                Some(j) => if 0 <= j < i {
                    seq![i] + self.ancestry(j)
                } else {
                    seq![i]
                },
                None => seq![i],
            }
        } else {
            seq![i]
        }
    }

    /// The place of the nearest class scope on the way from the scope at `i`
    /// to the global scope, the scope at `i` included.
    pub open spec fn enclosing_class_from(self, i: int) -> Option<int>
        decreases i,
    {
        if 0 <= i < self.scopes.len() {
            if self.scopes[i].kind is Class {
                Some(i)
            } else {
                match self.parent_index(i) {
                    Some(j) => if 0 <= j < i {
                        self.enclosing_class_from(j)
                    } else {
                        None
                    },
                    None => None,
                }
            }
        } else {
            None
        }
    }

    /// The place of the nearest scope on the way from the scope at `i` to the
    /// global scope that shows `name`, the scope at `i` included.
    pub open spec fn resolving_scope(self, name: Seq<char>, i: int) -> Option<int>
        decreases i,
    {
        if 0 <= i < self.scopes.len() {
            if self.scopes[i].shows(name) {
                Some(i)
            } else {
                match self.parent_index(i) {
                    Some(j) => if 0 <= j < i {
                        self.resolving_scope(name, j)
                    } else {
                        None
                    },
                    None => None,
                }
            }
        } else {
            None
        }
    }

    /// The entry that `name` refers to in the scope `scope_id`: the entry in
    /// the nearest scope, from that scope outwards, that shows the name.
    pub open spec fn lookup_in_scope(self, name: Seq<char>, scope_id: u32) -> Option<NodeView> {
        match self.resolving_scope(name, self.index_of(scope_id)) {
            Some(i) => Some(self.scopes[i].symbols[name]),
            None => None,
        }
    }

    /// The entry of `attr` in the scope `scope_id` itself.
    pub open spec fn lookup_attribute(self, attr: Seq<char>, scope_id: u32) -> Option<NodeView> {
        if self.scope(scope_id).symbols.contains_key(attr) {
            Some(self.scope(scope_id).symbols[attr])
        } else {
            None
        }
    }

    /// The place of the scope that an entry with `flags` is inserted into:
    /// for a member the nearest class scope from the current scope outwards,
    /// else the current scope.
    pub open spec fn target_of(self, flags: crate::flags::SymbolFlags) -> Option<int> {
        if flags.spec_is_member() {
            self.enclosing_class_from(self.index_of(self.current_scope_id))
        } else {
            Some(self.index_of(self.current_scope_id))
        }
    }

    /// Whether `scope` can be pushed: its parent is in the table, and its
    /// identifier is not in use.
    pub open spec fn can_push(self, scope: ScopeView) -> bool {
        &&& scope.parent matches Some(parent) && self.has_scope(parent)
        &&& !self.has_scope(scope.id)
    }

    /// The table after `scope` was pushed: it is the last scope and the
    /// current one.
    pub open spec fn push_scope(self, scope: ScopeView) -> TableView {
        TableView { scopes: self.scopes.push(scope), current_scope_id: scope.id, ..self }
    }

    /// The table after a jump to the scope that starts at `pos`.
    pub open spec fn set_scope(self, pos: u32) -> TableView {
        TableView {
            prev_scope_id: Some(self.current_scope_id),
            current_scope_id: self.scopes[self.index_at(pos)].id,
            ..self
        }
    }

    /// The table after the last jump was taken back.
    pub open spec fn revert_scope(self) -> TableView {
        TableView { current_scope_id: self.prev_scope_id.unwrap(), ..self }
    }

    /// The entry that the position index gets when `scope` is closed.
    pub open spec fn closing_entry(scope: ScopeView) -> (u32, u32, u32) {
        (scope.start_pos, OPEN_END, scope.id)
    }

    /// The table after the current scope was closed: its interval stands in
    /// the position index, and its parent is current.
    pub open spec fn exit_scope(self) -> TableView {
        let closed = self.scope(self.current_scope_id);
        let entry = Self::closing_entry(closed);
        TableView {
            index: self.index.insert(insertion_point(self.index, entry), entry),
            current_scope_id: closed.parent.unwrap(),
            ..self
        }
    }

    /// The table after `node` was inserted.
    pub open spec fn add_symbol(self, node: NodeView) -> TableView {
        let target = self.target_of(node.flags).unwrap();
        TableView { scopes: self.scopes.update(target, self.scopes[target].with_symbol(node)), ..self }
    }

    /// The table in which the scope at `i` binds `symbols` and all else is
    /// as in this table.
    pub open spec fn rebound(self, i: int, symbols: Map<Seq<char>, NodeView>) -> TableView {
        TableView { scopes: self.scopes.update(i, ScopeView { symbols, ..self.scopes[i] }), ..self }
    }
}

/// The scope that was pushed last with a given identifier is the one that
/// `index_of` names.
pub proof fn lemma_index_of_last(table: TableView, id: u32, i: int)
    requires
        table.is_last_with_id(id, i),
    ensures
        table.index_of(id) == i,
        table.has_scope(id),
{
    let chosen = table.index_of(id);
    assert(table.is_last_with_id(id, chosen));
    if chosen < i {
        assert(table.scopes[i].id != id);
    } else if i < chosen {
        assert(table.scopes[chosen].id != id);
    }
}

/// If one of the first `n` scopes has the identifier `id`, one of them is the
/// last to have it.
proof fn lemma_last_with_id_exists(table: TableView, id: u32, n: int)
    requires
        0 <= n <= table.scopes.len(),
        exists|i: int| 0 <= i < n && (#[trigger] table.scopes[i]).id == id,
    ensures
        exists|i: int|
            0 <= i < n && (#[trigger] table.scopes[i]).id == id && forall|j: int|
                i < j < n ==> (#[trigger] table.scopes[j]).id != id,
    decreases n,
{
    if table.scopes[n - 1].id == id {
        let i = n - 1;
        assert(0 <= i < n && table.scopes[i].id == id && forall|j: int|
            i < j < n ==> (#[trigger] table.scopes[j]).id != id);
    } else {
        let some = choose|i: int| 0 <= i < n && (#[trigger] table.scopes[i]).id == id;
        assert(some < n - 1);
        lemma_last_with_id_exists(table, id, n - 1);
        let i = choose|i: int|
            0 <= i < n - 1 && (#[trigger] table.scopes[i]).id == id && forall|j: int|
                i < j < n - 1 ==> (#[trigger] table.scopes[j]).id != id;
        assert(0 <= i < n && table.scopes[i].id == id && forall|j: int|
            i < j < n ==> (#[trigger] table.scopes[j]).id != id);
    }
}

/// An identifier that the table holds has a place.
pub proof fn lemma_index_of_held(table: TableView, id: u32)
    requires
        table.has_scope(id),
    ensures
        table.is_last_with_id(id, table.index_of(id)),
{
    lemma_last_with_id_exists(table, id, table.scopes.len() as int);
    let i = choose|i: int|
        0 <= i < table.scopes.len() && (#[trigger] table.scopes[i]).id == id && forall|j: int|
            i < j < table.scopes.len() ==> (#[trigger] table.scopes[j]).id != id;
    assert(table.is_last_with_id(id, i));
}

/// In a well-formed table each scope stands at the place of its identifier.
pub proof fn lemma_index_of_place(table: TableView, i: int)
    requires
        table.well_formed(),
        0 <= i < table.scopes.len(),
    ensures
        table.index_of(table.scopes[i].id) == i,
        table.has_scope(table.scopes[i].id),
{
    assert(table.is_last_with_id(table.scopes[i].id, i));
    lemma_index_of_last(table, table.scopes[i].id, i);
}

/// In a well-formed table the global scope has no parent, and every other
/// scope has one that stands before it.
pub proof fn lemma_parent_index(table: TableView, i: int)
    requires
        table.well_formed(),
        0 <= i < table.scopes.len(),
    ensures
        i == 0 ==> table.parent_index(i) is None,
        i > 0 ==> table.scopes[i].parent is Some && table.has_scope(table.scopes[i].parent.unwrap())
            && table.parent_index(i) == Some(table.index_of(table.scopes[i].parent.unwrap())) && 0
            <= table.index_of(table.scopes[i].parent.unwrap()) < i,
{
    if i > 0 {
        assert(table.parent_is_earlier(i));
        let j = choose|j: int|
            0 <= j < i && (#[trigger] table.scopes[j]).id == table.scopes[i].parent.unwrap();
        lemma_index_of_place(table, j);
    }
}

/// Pushing a scope that can be pushed keeps the table well formed.
pub proof fn lemma_push_scope_well_formed(table: TableView, scope: ScopeView)
    requires
        table.well_formed(),
        table.can_push(scope),
        scope.well_formed(),
    ensures
        table.push_scope(scope).well_formed(),
{
    let after = table.push_scope(scope);
    let n = table.scopes.len() as int;
    assert(forall|i: int| 0 <= i < n ==> after.scopes[i] == table.scopes[i]);
    assert(after.scopes[n] == scope);
    assert forall|i: int, j: int|
        0 <= i < after.scopes.len() && 0 <= j < after.scopes.len() && i != j implies (
    #[trigger] after.scopes[i]).id != (#[trigger] after.scopes[j]).id by {
        if i < n && j < n {
            assert(table.scopes[i].id != table.scopes[j].id);
        } else if i < n {
            assert(table.scopes[i].id != scope.id);
        } else {
            assert(table.scopes[j].id != scope.id);
        }
    }
    assert forall|i: int| 0 < i < after.scopes.len() implies after.parent_is_earlier(i) by {
        if i < n {
            assert(table.parent_is_earlier(i));
            let j = choose|j: int|
                0 <= j < i && (#[trigger] table.scopes[j]).id == table.scopes[i].parent.unwrap();
            assert(after.scopes[j].id == after.scopes[i].parent.unwrap());
        } else {
            let j = choose|j: int|
                0 <= j < n && (#[trigger] table.scopes[j]).id == scope.parent.unwrap();
            assert(after.scopes[j].id == after.scopes[i].parent.unwrap());
        }
    }
    assert forall|i: int| 0 <= i < after.scopes.len() implies (#[trigger] after.scopes[i]).well_formed() by {
        if i < n {
            assert(table.scopes[i].well_formed());
        }
    }
    assert(after.has_scope(after.current_scope_id)) by {
        assert(after.scopes[n].id == scope.id);
    }
    lemma_has_scope_kept(table, after);
    assert forall|k: int| 0 <= k < after.index.len() implies after.speaks_of_scope(
        #[trigger] after.index[k],
    ) by {
        assert(table.speaks_of_scope(table.index[k]));
        let i = choose|i: int|
            0 <= i < table.scopes.len() && (#[trigger] table.scopes[i]).id == table.index[k].2
                && table.scopes[i].start_pos == table.index[k].0;
        assert(after.scopes[i].id == after.index[k].2);
    }
}

/// A table that starts with the scopes of another holds every identifier
/// that the other holds.
pub proof fn lemma_has_scope_kept(before: TableView, after: TableView)
    requires
        before.scopes.len() <= after.scopes.len(),
        forall|i: int|
            0 <= i < before.scopes.len() ==> (#[trigger] after.scopes[i]).id == before.scopes[i].id,
    ensures
        forall|id: u32| before.has_scope(id) ==> after.has_scope(id),
{
    assert forall|id: u32| before.has_scope(id) implies after.has_scope(id) by {
        let i = choose|i: int| 0 <= i < before.scopes.len() && (#[trigger] before.scopes[i]).id == id;
        assert(after.scopes[i].id == id);
    }
}

/// The first scope that starts at a position is the one that `index_at`
/// names.
pub proof fn lemma_index_at_first(table: TableView, pos: u32, i: int)
    requires
        table.is_first_at(pos, i),
    ensures
        table.index_at(pos) == i,
        table.starts_at(pos),
{
    let chosen = table.index_at(pos);
    assert(table.is_first_at(pos, chosen));
    if chosen < i {
        assert(table.scopes[chosen].start_pos != pos);
    } else if i < chosen {
        assert(table.scopes[i].start_pos != pos);
    }
}

/// If one of the first `n` scopes starts at `pos`, one of them is the first
/// to start there.
proof fn lemma_first_at_exists(table: TableView, pos: u32, n: int)
    requires
        0 <= n <= table.scopes.len(),
        exists|i: int| 0 <= i < n && (#[trigger] table.scopes[i]).start_pos == pos,
    ensures
        exists|i: int|
            0 <= i < n && (#[trigger] table.scopes[i]).start_pos == pos && forall|j: int|
                0 <= j < i ==> (#[trigger] table.scopes[j]).start_pos != pos,
    decreases n,
{
    if exists|i: int| 0 <= i < n - 1 && (#[trigger] table.scopes[i]).start_pos == pos {
        lemma_first_at_exists(table, pos, n - 1);
        let i = choose|i: int|
            0 <= i < n - 1 && (#[trigger] table.scopes[i]).start_pos == pos && forall|j: int|
                0 <= j < i ==> (#[trigger] table.scopes[j]).start_pos != pos;
        assert(0 <= i < n && table.scopes[i].start_pos == pos && forall|j: int|
            0 <= j < i ==> (#[trigger] table.scopes[j]).start_pos != pos);
    } else {
        let some = choose|i: int| 0 <= i < n && (#[trigger] table.scopes[i]).start_pos == pos;
        assert(some == n - 1);
        assert(0 <= some < n && table.scopes[some].start_pos == pos && forall|j: int|
            0 <= j < some ==> (#[trigger] table.scopes[j]).start_pos != pos);
    }
}

/// A jump to the start of a scope keeps the table well formed.
pub proof fn lemma_set_scope_well_formed(table: TableView, pos: u32)
    requires
        table.well_formed(),
        table.starts_at(pos),
    ensures
        table.set_scope(pos).well_formed(),
        table.is_first_at(pos, table.index_at(pos)),
{
    lemma_first_at_exists(table, pos, table.scopes.len() as int);
    let first = choose|i: int|
        0 <= i < table.scopes.len() && (#[trigger] table.scopes[i]).start_pos == pos && forall|j: int|
            0 <= j < i ==> (#[trigger] table.scopes[j]).start_pos != pos;
    assert(table.is_first_at(pos, first));
    lemma_index_at_first(table, pos, first);
    let after = table.set_scope(pos);
    assert(after.scopes[first].id == after.current_scope_id);
    assert forall|i: int| 0 < i < after.scopes.len() implies after.parent_is_earlier(i) by {
        assert(table.parent_is_earlier(i));
    }
    assert forall|k: int| 0 <= k < after.index.len() implies after.speaks_of_scope(
        #[trigger] after.index[k],
    ) by {
        assert(table.speaks_of_scope(table.index[k]));
    }
}

/// Adding a star import keeps the table well formed.
pub proof fn lemma_star_import_well_formed(table: TableView, import: Arc<ResolvedImport>)
    requires
        table.well_formed(),
    ensures
        (TableView { star_imports: table.star_imports.push(import), ..table }).well_formed(),
{
    let after = TableView { star_imports: table.star_imports.push(import), ..table };
    assert forall|i: int| 0 < i < after.scopes.len() implies after.parent_is_earlier(i) by {
        assert(table.parent_is_earlier(i));
    }
    assert forall|k: int| 0 <= k < after.index.len() implies after.speaks_of_scope(
        #[trigger] after.index[k],
    ) by {
        assert(table.speaks_of_scope(table.index[k]));
    }
}

/// Taking a jump back keeps the table well formed.
pub proof fn lemma_revert_scope_well_formed(table: TableView)
    requires
        table.well_formed(),
        table.prev_scope_id is Some,
    ensures
        table.revert_scope().well_formed(),
{
    let after = table.revert_scope();
    assert forall|i: int| 0 < i < after.scopes.len() implies after.parent_is_earlier(i) by {
        assert(table.parent_is_earlier(i));
    }
    assert forall|k: int| 0 <= k < after.index.len() implies after.speaks_of_scope(
        #[trigger] after.index[k],
    ) by {
        assert(table.speaks_of_scope(table.index[k]));
    }
}

/// The table of a file before anything is declared is well formed.
pub proof fn lemma_initial_well_formed(file_path: Seq<char>, file_len: u32, id: Id)
    ensures
        TableView::initial(file_path, file_len, id).well_formed(),
{
    let table = TableView::initial(file_path, file_len, id);
    assert(table.scopes[0] == ScopeView::global());
    assert(table.scopes[0].symbols.dom() =~= Set::<Seq<char>>::empty());
    assert(table.has_scope(0));
    assert(table.speaks_of_scope(table.index[0]));
}

/// The walks from a scope outwards stay inside the table.
pub proof fn lemma_walks_in_range(table: TableView, name: Seq<char>, i: int)
    ensures
        table.enclosing_class_from(i) matches Some(k) ==> 0 <= k <= i && k < table.scopes.len()
            && table.scopes[k].kind is Class,
        table.resolving_scope(name, i) matches Some(k) ==> 0 <= k <= i && k < table.scopes.len()
            && table.scopes[k].shows(name),
    decreases i,
{
    if 0 <= i < table.scopes.len() {
        match table.parent_index(i) {
            Some(j) => {
                if 0 <= j < i {
                    lemma_walks_in_range(table, name, j);
                }
            },
            None => {},
        }
    }
}

/// Closing the current scope keeps the table well formed, unless the current
/// scope is the global scope.
pub proof fn lemma_exit_scope_well_formed(table: TableView)
    requires
        table.well_formed(),
        table.scope(table.current_scope_id).parent is Some,
    ensures
        table.exit_scope().well_formed(),
{
    let after = table.exit_scope();
    lemma_index_of_held(table, table.current_scope_id);
    let current = table.index_of(table.current_scope_id);
    lemma_parent_index(table, current);
    let entry = TableView::closing_entry(table.scopes[current]);
    lemma_insertion_point(table.index, entry);
    lemma_insert_keeps_sorted(table.index, entry);
    let p = insertion_point(table.index, entry);
    assert forall|i: int| 0 < i < after.scopes.len() implies after.parent_is_earlier(i) by {
        assert(table.parent_is_earlier(i));
    }
    assert forall|k: int| 0 <= k < after.index.len() implies after.speaks_of_scope(
        #[trigger] after.index[k],
    ) by {
        if k < p {
            assert(after.index[k] == table.index[k]);
            assert(table.speaks_of_scope(table.index[k]));
        } else if k == p {
            assert(after.index[k] == entry);
            assert(after.scopes[current].id == entry.2);
        } else {
            assert(after.index[k] == table.index[k - 1]);
            assert(table.speaks_of_scope(table.index[k - 1]));
        }
    }
}

/// Inserting an entry changes the names of one scope and nothing else: the
/// identifiers, starts, kinds and parents stay as they are.
pub proof fn lemma_add_symbol_frame(table: TableView, node: NodeView)
    requires
        table.well_formed(),
        table.target_of(node.flags) is Some,
    ensures
        table.add_symbol(node).scopes.len() == table.scopes.len(),
        0 <= table.target_of(node.flags).unwrap() < table.scopes.len(),
        node.flags.spec_is_member() ==> table.scopes[table.target_of(
            node.flags,
        ).unwrap()].kind is Class,
        forall|i: int|
            0 <= i < table.scopes.len() ==> {
                let before = #[trigger] table.scopes[i];
                let after = table.add_symbol(node).scopes[i];
                &&& after.id == before.id
                &&& after.start_pos == before.start_pos
                &&& after.kind == before.kind
                &&& after.name == before.name
                &&& after.parent == before.parent
                &&& i != table.target_of(node.flags).unwrap() ==> after == before
            },
{
    lemma_index_of_held(table, table.current_scope_id);
    lemma_walks_in_range(table, node.name, table.index_of(table.current_scope_id));
}

/// What a scope binds does not matter to the tree of scopes: a well-formed
/// table stays well formed when one of its scopes binds other entries, as
/// long as those are well formed.
pub proof fn lemma_rebinding_keeps_well_formed(
    table: TableView,
    i: int,
    symbols: Map<Seq<char>, NodeView>,
)
    requires
        table.well_formed(),
        0 <= i < table.scopes.len(),
        entries_well_formed(symbols),
    ensures
        table.rebound(i, symbols).well_formed(),
{
    let after = table.rebound(i, symbols);
    assert forall|a: int, b: int|
        0 <= a < after.scopes.len() && 0 <= b < after.scopes.len() && a != b implies (
    #[trigger] after.scopes[a]).id != (#[trigger] after.scopes[b]).id by {
        assert(table.scopes[a].id != table.scopes[b].id);
    }
    assert forall|a: int| 0 < a < after.scopes.len() implies after.parent_is_earlier(a) by {
        assert(table.parent_is_earlier(a));
        let j = choose|j: int|
            0 <= j < a && (#[trigger] table.scopes[j]).id == table.scopes[a].parent.unwrap();
        assert(after.scopes[j].id == after.scopes[a].parent.unwrap());
    }
    assert forall|a: int| 0 <= a < after.scopes.len() implies (#[trigger] after.scopes[a]).well_formed() by {
        assert(table.scopes[a].well_formed());
    }
    assert forall|a: int| 0 <= a < table.scopes.len() implies (#[trigger] after.scopes[a]).id
        == table.scopes[a].id by {}
    lemma_has_scope_kept(table, after);
    assert forall|k: int| 0 <= k < after.index.len() implies after.speaks_of_scope(
        #[trigger] after.index[k],
    ) by {
        assert(table.speaks_of_scope(table.index[k]));
        let a = choose|a: int|
            0 <= a < table.scopes.len() && (#[trigger] table.scopes[a]).id == table.index[k].2
                && table.scopes[a].start_pos == table.index[k].0;
        assert(after.scopes[a].id == after.index[k].2);
    }
}

/// Inserting an entry that holds a declaration keeps the table well formed.
pub proof fn lemma_add_symbol_well_formed(table: TableView, node: NodeView)
    requires
        table.well_formed(),
        table.target_of(node.flags) is Some,
        node.declarations.len() > 0,
    ensures
        table.add_symbol(node).well_formed(),
{
    lemma_add_symbol_frame(table, node);
    let target = table.target_of(node.flags).unwrap();
    let before = table.scopes[target];
    let symbols = before.with_symbol(node).symbols;
    assert(table.scopes[target].well_formed());
    assert forall|name: Seq<char>| #[trigger] symbols.contains_key(name) implies symbols[name].name
        == name && symbols[name].declarations.len() > 0 by {
        if name != node.name {
            assert(before.symbols.contains_key(name));
        }
    }
    assert(table.add_symbol(node) =~= table.rebound(target, symbols));
    lemma_rebinding_keeps_well_formed(table, target, symbols);
}

} // verus!
