//! The symbol table of a file and its scopes.

use crate::declaration::ResolvedImport;
use crate::dump::{
    id_list_text, scope_dumps, scope_name_lines, scope_names, scope_text, scopes_by_name,
    star_import_lines, table_text, ByName,
};
use crate::ids::{following_id, get_id, Id, IdGenerator};
use crate::kind::SymbolTableType;
use crate::model::{
    lemma_add_symbol_well_formed, lemma_exit_scope_well_formed,
    lemma_index_at_first, lemma_index_of_last, lemma_initial_well_formed, lemma_parent_index,
    lemma_push_scope_well_formed, lemma_revert_scope_well_formed, lemma_set_scope_well_formed,
    lemma_star_import_well_formed,
    lemma_walks_in_range, ScopeView, TableView, OPEN_END,
};
use crate::node::SymbolTableNode;
use crate::order::{positions, stable_order_of, Ranked};
use crate::position_index::{innermost_at, PositionIndex};
use crate::symbols::Symbols;
use crate::text::{
    after_last_slash, follows_a_dot, is_file_name, is_stub_extension, path_extension,
    text_at_or_before,
};
use std::sync::Arc;
use vstd::prelude::*;
use vstd::string::StringExecFns;

verus! {

/// A lexical scope.
#[derive(Debug, Clone)]
pub struct SymbolTableScope {
    pub id: u32,
    /// The offset at which the header of the scope starts.
    pub start_pos: u32,
    pub kind: SymbolTableType,
    pub name: String,
    symbols: Symbols,
    parent: Option<u32>,
}

impl View for SymbolTableScope {
    type V = ScopeView;

    closed spec fn view(&self) -> ScopeView {
        ScopeView {
            id: self.id,
            start_pos: self.start_pos,
            kind: self.kind,
            name: self.name@,
            symbols: self.symbols@,
            parent: self.parent,
        }
    }
}

impl SymbolTableScope {
    /// A scope with a new identifier and nothing bound in it.
    pub fn new(
        symbol_table_type: SymbolTableType,
        name: String,
        start_pos: u32,
        parent: u32,
        ids: &mut IdGenerator,
    ) -> (scope: Self)
        ensures
            scope@ == (ScopeView {
                id: old(ids)@,
                start_pos,
                kind: symbol_table_type,
                name: name@,
                symbols: Map::empty(),
                parent: Some(parent),
            }),
            final(ids)@ == following_id(old(ids)@),
    {
        SymbolTableScope {
            id: get_id(ids),
            kind: symbol_table_type,
            name,
            symbols: Symbols::new(),
            parent: Some(parent),
            start_pos,
        }
    }

    /// The global scope of a file: the module scope with identifier 0, which
    /// has no parent.
    pub fn global_scope() -> (scope: Self)
        ensures
            scope@ == ScopeView::global(),
    {
        SymbolTableScope {
            id: 0,
            kind: SymbolTableType::Module,
            name: String::from_str("global"),
            symbols: Symbols::new(),
            parent: None,
            start_pos: 0,
        }
    }

    /// The identifier of the scope.
    pub fn id(&self) -> (id: u32)
        ensures
            id == self@.id,
    {
        self.id
    }

    /// The offset at which the header of the scope starts.
    pub fn start_pos(&self) -> (start_pos: u32)
        ensures
            start_pos == self@.start_pos,
    {
        self.start_pos
    }

    /// The kind of the scope.
    pub fn kind(&self) -> (kind: &SymbolTableType)
        ensures
            *kind == self@.kind,
    {
        &self.kind
    }

    /// The name of the scope.
    pub fn name(&self) -> (name: &str)
        ensures
            name@ == self@.name,
    {
        self.name.as_str()
    }

    /// The identifier of the parent scope, which only the global scope lacks.
    pub fn parent(&self) -> (parent: Option<u32>)
        ensures
            parent == self@.parent,
    {
        self.parent
    }

    /// Shows that the scope is well formed, which every scope is. The call
    /// does nothing when the program runs.
    pub fn show_well_formed(&self)
        ensures
            self@.well_formed(),
    {
        self.symbols.show_well_formed();
    }

    /// The entry of `name` in this scope.
    pub fn lookup(&self, name: &str) -> (found: Option<&SymbolTableNode>)
        ensures
            found is Some <==> self@.symbols.contains_key(name@),
            found matches Some(node) ==> node@ == self@.symbols[name@] && node.declarations.len()
                > 0,
    {
        self.symbols.lookup(name)
    }

    /// Binds the name of `node` in this scope. If the name is bound already,
    /// the declarations that the scope holds for it are put behind those of
    /// `node`, and the result takes the place of the entry.
    pub fn insert(&mut self, node: SymbolTableNode)
        requires
            node.declarations.len() > 0,
        ensures
            final(self)@ == old(self)@.with_symbol(node@),
    {
        self.symbols.insert(node);
    }

    /// The dump of the scope: a heading with its name, and for each name
    /// that is bound in it the entry and its declarations, the names in
    /// rising order.
    pub fn to_string(&self) -> (text: String)
        ensures
            text@ == scope_text(self@),
    {
        let mut text = String::from_str("Symbols in ");
        text.append(self.name.as_str());
        text.append("\n");
        let blocks = self.symbols.to_string();
        text.append(blocks.as_str());
        assert(text@ =~= scope_text(self@));
        text
    }
}

/// The views of `scopes` in their order.
pub open spec fn scope_views(scopes: Seq<SymbolTableScope>) -> Seq<ScopeView> {
    scopes.map_values(|scope: SymbolTableScope| scope@)
}

/// The scopes of a table, to be compared by their names.
struct ScopesByName<'a> {
    scopes: &'a Vec<SymbolTableScope>,
}

impl<'a> Ranked for ScopesByName<'a> {
    type Rank = ByName;

    closed spec fn ranking(&self) -> ByName {
        ByName { names: scope_names(scope_views(self.scopes@)) }
    }

    fn count(&self) -> (n: usize) {
        self.scopes.len()
    }

    fn le(&self, i: usize, j: usize) -> (b: bool) {
        text_at_or_before(self.scopes[i].name.as_str(), self.scopes[j].name.as_str())
    }
}

/// The symbol table of one file.
#[derive(Debug, Clone)]
pub struct SymbolTable {
    pub id: Id,
    /// The scopes in the order in which they were pushed. The first is the
    /// global scope.
    pub scopes: Vec<SymbolTableScope>,
    pub current_scope_id: u32,
    prev_scope_id: Option<u32>,
    pub file_path: String,
    /// For the file and for each closed scope the range of the source that it
    /// takes.
    pub scope_start_offset: PositionIndex,
    pub star_imports: Vec<Arc<ResolvedImport>>,
}

impl View for SymbolTable {
    type V = TableView;

    closed spec fn view(&self) -> TableView {
        TableView {
            id: self.id,
            scopes: scope_views(self.scopes@),
            current_scope_id: self.current_scope_id,
            prev_scope_id: self.prev_scope_id,
            file_path: self.file_path@,
            index: self.scope_start_offset@,
            star_imports: self.star_imports@,
        }
    }
}

impl SymbolTable {
    /// The table of the file at `file_path`, which is `file_len` bytes long:
    /// it holds the global scope alone, and the position index gives the
    /// whole file to it.
    pub fn new(file_path: String, file_len: u32, id: Id) -> (table: Self)
        ensures
            table@ == TableView::initial(file_path@, file_len, id),
            table@.well_formed(),
    {
        let table = SymbolTable {
            scopes: vec![SymbolTableScope::global_scope()],
            current_scope_id: 0,
            prev_scope_id: None,
            file_path,
            scope_start_offset: PositionIndex::with_interval(0, file_len, 0),
            star_imports: Vec::new(),
            id,
        };
        proof {
            lemma_initial_well_formed(file_path@, file_len, id);
            assert(table@.scopes =~= seq![ScopeView::global()]);
            assert(table@ =~= TableView::initial(file_path@, file_len, id));
        }
        table
    }

    /// The identifier of the table.
    pub fn id(&self) -> (id: Id)
        ensures
            id == self@.id,
    {
        self.id
    }

    /// The identifier of the current scope.
    pub fn current_scope_id(&self) -> (id: u32)
        ensures
            id == self@.current_scope_id,
    {
        self.current_scope_id
    }

    /// The path of the file.
    pub fn file_path(&self) -> (path: &str)
        ensures
            path@ == self@.file_path,
    {
        self.file_path.as_str()
    }

    /// What the star imports of the file were resolved to, in the order in
    /// which they were added.
    pub fn star_imports(&self) -> (imports: &Vec<Arc<ResolvedImport>>)
        ensures
            imports@ == self@.star_imports,
    {
        &self.star_imports
    }

    /// Adds what a star import was resolved to. The names that it brings in
    /// are not inserted: no scope changes.
    pub fn add_star_import(&mut self, import: Arc<ResolvedImport>)
        ensures
            final(self)@ == (TableView {
                star_imports: old(self)@.star_imports.push(import),
                ..old(self)@
            }),
            old(self)@.well_formed() ==> final(self)@.well_formed(),
    {
        self.star_imports.push(import);
        proof {
            let expected = TableView {
                star_imports: old(self)@.star_imports.push(import),
                ..old(self)@
            };
            assert(self@ =~= expected);
            if old(self)@.well_formed() {
                lemma_star_import_well_formed(old(self)@, import);
            }
        }
    }

    /// Whether the file is a stub file: its path has the extension `pyi`.
    pub fn is_pyi_file(&self) -> (stub: bool)
        ensures
            stub ==> follows_a_dot(self@.file_path, "pyi"@),
    {
        let extension = path_extension(self.file_path.as_str());
        is_stub_extension(&extension)
    }

    /// The name of the file: what stands in its path behind the last `/`.
    pub fn get_file_name(&self) -> (name: String)
        ensures
            is_file_name(self@.file_path, name@),
    {
        after_last_slash(self.file_path.as_str())
    }

    /// The place of the scope that was pushed last with the identifier `id`.
    fn place_of_id(&self, id: u32) -> (found: Option<usize>)
        ensures
            found is Some <==> self@.has_scope(id),
            found matches Some(i) ==> i < self.scopes.len() && i == self@.index_of(id)
                && self.scopes@[i as int]@ == self@.scope(id),
    {
        let mut i: usize = self.scopes.len();
        while i > 0
            invariant
                i <= self.scopes.len(),
                forall|j: int| i <= j < self.scopes.len() ==> (#[trigger] self@.scopes[j]).id != id,
            decreases i,
        {
            i -= 1;
            if self.scopes[i].id == id {
                proof {
                    assert(self@.scopes[i as int].id == id);
                    lemma_index_of_last(self@, id, i as int);
                }
                return Some(i);
            }
        }
        None
    }

    /// The place of the first scope that starts at `pos`.
    fn place_of_start(&self, pos: u32) -> (found: Option<usize>)
        ensures
            found is Some <==> self@.starts_at(pos),
            found matches Some(i) ==> i < self.scopes.len() && i == self@.index_at(pos),
    {
        let mut i: usize = 0;
        while i < self.scopes.len()
            invariant
                i <= self.scopes.len(),
                forall|j: int| 0 <= j < i ==> (#[trigger] self@.scopes[j]).start_pos != pos,
            decreases self.scopes.len() - i,
        {
            if self.scopes[i].start_pos == pos {
                proof {
                    assert(self@.scopes[i as int].start_pos == pos);
                    lemma_index_at_first(self@, pos, i as int);
                }
                return Some(i);
            }
            i += 1;
        }
        None
    }

    /// The current scope. It is not meant for looking names up.
    pub fn current_scope(&self) -> (scope: &SymbolTableScope)
        requires
            self@.has_scope(self@.current_scope_id),
        ensures
            scope@ == self@.scope(self@.current_scope_id),
    {
        let found = self.place_of_id(self.current_scope_id);
        &self.scopes[found.unwrap()]
    }

    /// The current scope, to be changed in place.
    pub fn current_scope_mut(&mut self) -> (scope: &mut SymbolTableScope)
        requires
            old(self)@.has_scope(old(self)@.current_scope_id),
        ensures
            scope@ == old(self)@.scope(old(self)@.current_scope_id),
            0 <= old(self)@.index_of(old(self)@.current_scope_id) < old(self)@.scopes.len(),
            final(self)@ == (TableView {
                scopes: old(self)@.scopes.update(
                    old(self)@.index_of(old(self)@.current_scope_id),
                    final(scope)@,
                ),
                ..old(self)@
            }),
    {
        let found = self.place_of_id(self.current_scope_id);
        &mut self.scopes[found.unwrap()]
    }

    /// The kind of the current scope.
    pub fn current_scope_type(&self) -> (kind: &SymbolTableType)
        requires
            self@.has_scope(self@.current_scope_id),
        ensures
            *kind == self@.scope(self@.current_scope_id).kind,
    {
        &self.current_scope().kind
    }

    /// The global scope.
    pub fn global_scope(&self) -> (scope: &SymbolTableScope)
        requires
            self@.has_scope(0),
        ensures
            scope@ == self@.scope(0),
    {
        let found = self.place_of_id(0);
        &self.scopes[found.unwrap()]
    }

    /// The scope with the identifier `id`.
    pub fn get_scope_by_id(&self, id: u32) -> (found: Option<&SymbolTableScope>)
        ensures
            found is Some <==> self@.has_scope(id),
            found matches Some(scope) ==> scope@ == self@.scope(id),
    {
        match self.place_of_id(id) {
            Some(i) => Some(&self.scopes[i]),
            None => None,
        }
    }

    /// The scope with the identifier `id`, to be changed in place.
    pub fn get_scope_mut_by_id(&mut self, id: u32) -> (found: Option<&mut SymbolTableScope>)
        ensures
            found is Some <==> old(self)@.has_scope(id),
            found is Some ==> 0 <= old(self)@.index_of(id) < old(self)@.scopes.len(),
            found matches Some(scope) ==> scope@ == old(self)@.scope(id) && final(self)@ == (
            TableView {
                scopes: old(self)@.scopes.update(old(self)@.index_of(id), final(scope)@),
                ..old(self)@
            }),
            found is None ==> final(self)@ == old(self)@,
    {
        match self.place_of_id(id) {
            Some(i) => Some(&mut self.scopes[i]),
            None => None,
        }
    }

    /// The parent of `scope`, which need not be a scope of this table.
    pub fn parent_scope(&self, scope: &SymbolTableScope) -> (parent: Option<&SymbolTableScope>)
        requires
            scope@.parent matches Some(id) ==> self@.has_scope(id),
        ensures
            parent is Some <==> scope@.parent is Some,
            parent matches Some(found) ==> found@ == self@.scope(scope@.parent.unwrap()),
    {
        match scope.parent {
            Some(parent_id) => {
                let found = self.place_of_id(parent_id);
                Some(&self.scopes[found.unwrap()])
            },
            None => None,
        }
    }

    /// The parent of `scope`, to be changed in place.
    pub fn parent_scope_mut(&mut self, scope: &SymbolTableScope) -> (parent: Option<
        &mut SymbolTableScope,
    >)
        requires
            scope@.parent matches Some(id) ==> old(self)@.has_scope(id),
        ensures
            parent is Some <==> scope@.parent is Some,
            parent is Some ==> 0 <= old(self)@.index_of(scope@.parent.unwrap())
                < old(self)@.scopes.len(),
            parent matches Some(found) ==> found@ == old(self)@.scope(scope@.parent.unwrap())
                && final(self)@ == (TableView {
                scopes: old(self)@.scopes.update(
                    old(self)@.index_of(scope@.parent.unwrap()),
                    final(found)@,
                ),
                ..old(self)@
            }),
            parent is None ==> final(self)@ == old(self)@,
    {
        match scope.parent {
            Some(parent_id) => {
                let found = self.place_of_id(parent_id);
                Some(&mut self.scopes[found.unwrap()])
            },
            None => None,
        }
    }

    /// The parent of the scope with the identifier `scope_id`.
    pub fn get_parent_scope_of(&self, scope_id: u32) -> (parent: Option<&SymbolTableScope>)
        requires
            self@.has_scope(scope_id),
            self@.scope(scope_id).parent matches Some(id) ==> self@.has_scope(id),
        ensures
            parent is Some <==> self@.scope(scope_id).parent is Some,
            parent matches Some(found) ==> found@ == self@.scope(
                self@.scope(scope_id).parent.unwrap(),
            ),
    {
        let found = self.place_of_id(scope_id);
        self.parent_scope(&self.scopes[found.unwrap()])
    }

    /// The place of the nearest class scope from the scope at `start`
    /// outwards.
    fn enclosing_class_place(&self, start: usize) -> (found: Option<usize>)
        requires
            self@.well_formed(),
            start < self.scopes.len(),
        ensures
            found is Some <==> self@.enclosing_class_from(start as int) is Some,
            found matches Some(i) ==> i < self.scopes.len() && i as int
                == self@.enclosing_class_from(start as int).unwrap(),
    {
        let mut i: usize = start;
        loop
            invariant
                self@.well_formed(),
                i < self.scopes.len(),
                self@.enclosing_class_from(i as int) == self@.enclosing_class_from(start as int),
            decreases i,
        {
            proof {
                lemma_parent_index(self@, i as int);
                lemma_walks_in_range(self@, Seq::empty(), i as int);
            }
            if self.scopes[i].kind.is_class() {
                return Some(i);
            }
            match self.scopes[i].parent {
                Some(parent) => {
                    let found = self.place_of_id(parent);
                    i = found.unwrap();
                },
                None => {
                    return None;
                },
            }
        }
    }

    /// The nearest class scope from the current scope outwards.
    pub fn get_enclosing_class_scope(&self) -> (found: Option<&SymbolTableScope>)
        requires
            self@.well_formed(),
        ensures
            found is Some <==> self@.enclosing_class_from(
                self@.index_of(self@.current_scope_id),
            ) is Some,
            found matches Some(scope) ==> scope@ == self@.scopes[self@.enclosing_class_from(
                self@.index_of(self@.current_scope_id),
            ).unwrap()],
    {
        let current = self.place_of_id(self.current_scope_id);
        match self.enclosing_class_place(current.unwrap()) {
            Some(i) => Some(&self.scopes[i]),
            None => None,
        }
    }

    /// The identifier of the nearest class scope from the scope `scope`
    /// outwards, and nothing if the table holds no scope `scope`.
    pub fn get_enclosing_class_scope_of_scope(&self, scope: u32) -> (found: Option<Id>)
        requires
            self@.well_formed(),
        ensures
            found == if self@.has_scope(scope) {
                match self@.enclosing_class_from(self@.index_of(scope)) {
                    Some(i) => Some(Id(self@.scopes[i].id)),
                    None => None,
                }
            } else {
                None
            },
    {
        match self.place_of_id(scope) {
            Some(start) => match self.enclosing_class_place(start) {
                Some(i) => Some(Id(self.scopes[i].id)),
                None => None,
            },
            None => None,
        }
    }

    /// The entry that `name` refers to in the scope `scope_id`. The walk goes
    /// from that scope to its parent and on, and stops at the first scope
    /// that binds the name, unless the entry there is a class member or an
    /// instance member and the scope is no class scope.
    pub fn lookup_in_scope(&self, name: &str, scope_id: u32) -> (found: Option<&SymbolTableNode>)
        requires
            self@.well_formed(),
            self@.has_scope(scope_id),
        ensures
            found is Some <==> self@.lookup_in_scope(name@, scope_id) is Some,
            found matches Some(node) ==> node@ == self@.lookup_in_scope(name@, scope_id).unwrap(),
    {
        let start = self.place_of_id(scope_id);
        let mut i: usize = start.unwrap();
        loop
            invariant
                self@.well_formed(),
                i < self.scopes.len(),
                self@.resolving_scope(name@, i as int) == self@.resolving_scope(
                    name@,
                    self@.index_of(scope_id),
                ),
            decreases i,
        {
            proof {
                lemma_parent_index(self@, i as int);
            }
            let scope = &self.scopes[i];
            if let Some(symbol) = scope.lookup(name) {
                if !symbol.flags.is_member() || scope.kind.is_class() {
                    return Some(symbol);
                }
            }
            match scope.parent {
                Some(parent) => {
                    let found = self.place_of_id(parent);
                    i = found.unwrap();
                },
                None => {
                    return None;
                },
            }
        }
    }

    /// The entry of `attr` in the scope `scope_id` itself. The parents of the
    /// scope are not searched.
    pub fn lookup_attribute(&self, attr: &str, scope_id: u32) -> (found: Option<&SymbolTableNode>)
        requires
            self@.has_scope(scope_id),
        ensures
            found is Some <==> self@.lookup_attribute(attr@, scope_id) is Some,
            found matches Some(node) ==> node@ == self@.lookup_attribute(attr@, scope_id).unwrap(),
    {
        let place = self.place_of_id(scope_id);
        self.scopes[place.unwrap()].lookup(attr)
    }

    /// Makes `new_scope` the last scope of the table and the current one.
    pub fn push_scope(&mut self, new_scope: SymbolTableScope)
        requires
            old(self)@.well_formed(),
            old(self)@.can_push(new_scope@),
        ensures
            final(self)@ == old(self)@.push_scope(new_scope@),
            final(self)@.well_formed(),
    {
        new_scope.show_well_formed();
        self.current_scope_id = new_scope.id;
        self.scopes.push(new_scope);
        proof {
            lemma_push_scope_well_formed(old(self)@, new_scope@);
            assert(self@.scopes =~= old(self)@.scopes.push(new_scope@));
            assert(self@ =~= old(self)@.push_scope(new_scope@));
        }
    }

    /// Closes the current scope: the range from its start onwards goes into
    /// the position index, and its parent becomes the current scope.
    pub fn exit_scope(&mut self)
        requires
            old(self)@.well_formed(),
            old(self)@.scope(old(self)@.current_scope_id).parent is Some,
        ensures
            final(self)@ == old(self)@.exit_scope(),
            final(self)@.well_formed(),
    {
        let place = self.place_of_id(self.current_scope_id);
        let current = &self.scopes[place.unwrap()];
        let start_pos: u32 = current.start_pos;
        let id: u32 = current.id;
        let parent = current.parent;
        self.scope_start_offset.insert(start_pos, OPEN_END, id);
        self.current_scope_id = parent.unwrap();
        proof {
            lemma_exit_scope_well_formed(old(self)@);
            assert(self@ =~= old(self)@.exit_scope());
        }
    }

    /// Makes the scope that starts at `pos` the current one, and keeps the
    /// scope that was current for [`SymbolTable::revert_scope`]. Of several
    /// scopes that start at `pos` it is the one that was pushed first, so
    /// offset 0 always means the global scope.
    pub fn set_scope(&mut self, pos: u32)
        requires
            old(self)@.well_formed(),
            old(self)@.starts_at(pos),
        ensures
            final(self)@ == old(self)@.set_scope(pos),
            final(self)@.well_formed(),
    {
        let found = self.place_of_start(pos);
        self.prev_scope_id = Some(self.current_scope_id);
        self.current_scope_id = self.scopes[found.unwrap()].id;
        proof {
            lemma_set_scope_well_formed(old(self)@, pos);
            assert(self@ =~= old(self)@.set_scope(pos));
        }
    }

    /// The identifier of the scope that starts at `pos`, and of several the
    /// one that was pushed first.
    pub fn get_scope(&self, pos: u32) -> (id: u32)
        requires
            self@.starts_at(pos),
        ensures
            id == self@.scopes[self@.index_at(pos)].id,
    {
        let found = self.place_of_start(pos);
        self.scopes[found.unwrap()].id
    }

    /// Makes the scope current again that was current before the last call
    /// of [`SymbolTable::set_scope`]. Only that one scope is kept: after two
    /// jumps in a row the first of them cannot be taken back.
    pub fn revert_scope(&mut self)
        requires
            old(self)@.well_formed(),
            old(self)@.prev_scope_id is Some,
        ensures
            final(self)@ == old(self)@.revert_scope(),
            final(self)@.well_formed(),
    {
        self.current_scope_id = self.prev_scope_id.unwrap();
        proof {
            lemma_revert_scope_well_formed(old(self)@);
            assert(self@ =~= old(self)@.revert_scope());
        }
    }

    /// Inserts `symbol_node` into the scope that it belongs to. A class
    /// member or an instance member goes to the nearest class scope from the
    /// current scope outwards, every other entry to the current scope. If the
    /// name is bound there already, the declarations of `symbol_node` come
    /// first in the entry and those that the scope held follow.
    pub fn add_symbol(&mut self, symbol_node: SymbolTableNode)
        requires
            old(self)@.well_formed(),
            symbol_node.declarations.len() > 0,
            old(self)@.target_of(symbol_node.flags) is Some,
        ensures
            final(self)@ == old(self)@.add_symbol(symbol_node@),
            final(self)@.well_formed(),
    {
        let current = self.place_of_id(self.current_scope_id);
        let target: usize = if symbol_node.flags.is_member() {
            let class = self.enclosing_class_place(current.unwrap());
            class.unwrap()
        } else {
            current.unwrap()
        };
        assert(target as int == old(self)@.target_of(symbol_node.flags).unwrap());
        self.scopes[target].insert(symbol_node);
        proof {
            lemma_add_symbol_well_formed(old(self)@, symbol_node@);
            let expected = old(self)@.add_symbol(symbol_node@).scopes;
            assert(self.scopes@.len() == old(self).scopes@.len());
            assert forall|i: int| 0 <= i < self@.scopes.len() implies self@.scopes[i]
                == expected[i] by {
                if i != target {
                    assert(self.scopes@[i] == old(self).scopes@[i]);
                }
            }
            assert(self@.scopes =~= expected);
            assert(self@ =~= old(self)@.add_symbol(symbol_node@));
        }
    }

    /// The identifier of the innermost closed scope that holds `offset`:
    /// of the intervals of the position index that hold the offset, the one
    /// that stands last names it.
    pub fn innermost_scope_at(&self, offset: u32) -> (scope: Option<u32>)
        requires
            self@.well_formed(),
        ensures
            scope == innermost_at(self@.index, offset),
    {
        self.scope_start_offset.innermost_at(offset)
    }

    /// The dump of the table: the star imports if there are any, the dump
    /// of each scope, and the names of the scopes, the scopes by name. The
    /// scope of the built-in names is left out of both.
    pub fn to_string(&self) -> (text: String)
        ensures
            text@ == table_text(self@),
    {
        let mut text = String::new();
        if self.star_imports.len() > 0 {
            text.append("Star imports:\n");
            let ghost head = text@;
            let mut k: usize = 0;
            assert(text@ =~= head + star_import_lines(self@.star_imports, 0));
            while k < self.star_imports.len()
                invariant
                    k <= self.star_imports.len(),
                    text@ == head + star_import_lines(self@.star_imports, k as nat),
                decreases self.star_imports.len() - k,
            {
                text.append("[");
                let ids = id_list_text(&self.star_imports[k].resolved_ids);
                text.append(ids.as_str());
                text.append("]\n");
                assert(text@ =~= head + star_import_lines(self@.star_imports, (k + 1) as nat));
                k += 1;
            }
        }
        let ghost imports = text@;
        let items = ScopesByName { scopes: &self.scopes };
        let order = stable_order_of(&items);
        let ghost listed = scopes_by_name(self@);
        assert(positions(order@) == listed);
        let mut k: usize = 0;
        assert(text@ =~= imports + scope_dumps(self@, listed, 0));
        while k < order.len()
            invariant
                k <= order.len(),
                order.len() == self.scopes.len(),
                positions(order@) == listed,
                forall|a: int| 0 <= a < order.len() ==> (#[trigger] order@[a]) < self.scopes.len(),
                text@ == imports + scope_dumps(self@, listed, k as nat),
            decreases order.len() - k,
        {
            assert(listed[k as int] == order@[k as int] as int);
            let scope = &self.scopes[order[k]];
            if !scope.kind.is_builtin() {
                let dump = scope.to_string();
                text.append(dump.as_str());
                text.append("\n");
            }
            assert(text@ =~= imports + scope_dumps(self@, listed, (k + 1) as nat));
            k += 1;
        }
        text.append("Scopes:\n\n");
        let ghost head = text@;
        let mut k: usize = 0;
        assert(text@ =~= head + scope_name_lines(self@, listed, 0));
        while k < order.len()
            invariant
                k <= order.len(),
                order.len() == self.scopes.len(),
                positions(order@) == listed,
                forall|a: int| 0 <= a < order.len() ==> (#[trigger] order@[a]) < self.scopes.len(),
                text@ == head + scope_name_lines(self@, listed, k as nat),
            decreases order.len() - k,
        {
            assert(listed[k as int] == order@[k as int] as int);
            let scope = &self.scopes[order[k]];
            if !scope.kind.is_builtin() {
                text.append("Scope ");
                text.append(scope.name.as_str());
                text.append("\n");
            }
            assert(text@ =~= head + scope_name_lines(self@, listed, (k + 1) as nat));
            k += 1;
        }
        assert(text@ =~= table_text(self@));
        text
    }
}

} // verus!
