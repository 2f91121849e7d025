//! Laws of the symbol table: what holds of every well-formed table across
//! its operations.

use crate::model::{
    lemma_add_symbol_frame, lemma_add_symbol_well_formed, lemma_exit_scope_well_formed,
    lemma_index_of_held, lemma_index_of_place, lemma_parent_index, lemma_push_scope_well_formed,
    ScopeView, TableView, OPEN_END,
};
use crate::position_index::{
    covers, entry_before, innermost_at, insertion_point, lemma_insertion_point,
    lemma_last_covering_exists,
};
use crate::node::NodeView;
use vstd::prelude::*;

verus! {

/// Every scope but the global scope has a parent, and the way from a scope
/// over its parent, the parent of that and so on is finite, never comes back
/// to a scope, and ends at the global scope. From the scope at `i` it takes
/// at most `i` steps.
pub proof fn lemma_parents_reach_global(table: TableView, i: int)
    requires
        table.well_formed(),
        0 <= i < table.scopes.len(),
    ensures
        table.scopes[i].id != 0 ==> table.scopes[i].parent is Some && table.has_scope(
            table.scopes[i].parent.unwrap(),
        ),
        1 <= table.ancestry(i).len() <= i + 1,
        table.ancestry(i).first() == i,
        table.ancestry(i).last() == 0,
        table.scopes[table.ancestry(i).last()].id == 0,
        forall|k: int|
            #![trigger table.ancestry(i)[k]]
            0 <= k < table.ancestry(i).len() - 1 ==> table.parent_index(table.ancestry(i)[k])
                == Some(table.ancestry(i)[k + 1]),
        forall|k: int|
            0 <= k < table.ancestry(i).len() ==> 0 <= #[trigger] table.ancestry(i)[k] <= i - k,
        forall|a: int, b: int|
            0 <= a < b < table.ancestry(i).len() ==> (#[trigger] table.ancestry(i)[b])
                < (#[trigger] table.ancestry(i)[a]) && table.scopes[table.ancestry(i)[a]].id
                != table.scopes[table.ancestry(i)[b]].id,
    decreases i,
{
    lemma_parent_index(table, i);
    if i > 0 {
        assert(table.scopes[i].id != table.scopes[0].id);
        let j = table.parent_index(i).unwrap();
        lemma_parents_reach_global(table, j);
        let rest = table.ancestry(j);
        let chain = table.ancestry(i);
        assert(chain == seq![i] + rest);
        assert forall|k: int| #![trigger chain[k]] 0 <= k < chain.len() - 1 implies table.parent_index(
            chain[k],
        ) == Some(chain[k + 1]) by {
            if k == 0 {
                assert(chain[1] == rest[0]);
            } else {
                assert(chain[k] == rest[k - 1]);
                assert(chain[k + 1] == rest[k]);
            }
        }
        assert forall|k: int| 0 <= k < chain.len() implies 0 <= #[trigger] chain[k] <= i - k by {
            if k > 0 {
                assert(chain[k] == rest[k - 1]);
            }
        }
        assert forall|a: int, b: int| 0 <= a < b < chain.len() implies (#[trigger] chain[b])
            < (#[trigger] chain[a]) && table.scopes[chain[a]].id != table.scopes[chain[b]].id by {
            assert(chain[b] == rest[b - 1]);
            if a > 0 {
                assert(chain[a] == rest[a - 1]);
            }
        }
        assert(chain.last() == rest.last());
    } else {
        assert(table.ancestry(i) == seq![i]);
    }
}

/// A scope that is pushed hangs in the tree: the table is well formed again
/// with the scope as its last and its current scope, and the way from the
/// scope reaches the global scope in no more steps than the table held
/// scopes, without coming to a scope twice.
pub proof fn lemma_pushed_scope_reaches_global(table: TableView, scope: ScopeView)
    requires
        table.well_formed(),
        table.can_push(scope),
        scope.well_formed(),
    ensures
        ({
            let after = table.push_scope(scope);
            let n = table.scopes.len() as int;
            let way = after.ancestry(n);
            &&& after.well_formed()
            &&& after.scopes == table.scopes.push(scope)
            &&& after.current_scope_id == scope.id
            &&& way.first() == n
            &&& way.last() == 0
            &&& after.scopes[way.last()].id == 0
            &&& way.len() <= n + 1
            &&& forall|a: int, b: int|
                0 <= a < b < way.len() ==> after.scopes[#[trigger] way[a]].id
                    != after.scopes[#[trigger] way[b]].id
        }),
{
    lemma_push_scope_well_formed(table, scope);
    lemma_parents_reach_global(table.push_scope(scope), table.scopes.len() as int);
}

/// No operation of the table makes two scopes start at one offset, as long
/// as no scope is pushed that starts where another scope than the global
/// one starts.
pub proof fn lemma_starts_stay_distinct(table: TableView, scope: ScopeView, node: NodeView, pos: u32)
    requires
        table.well_formed(),
        table.starts_are_distinct(),
    ensures
        !table.starts_behind_global(scope.start_pos) ==> table.push_scope(
            scope,
        ).starts_are_distinct(),
        table.exit_scope().starts_are_distinct(),
        table.set_scope(pos).starts_are_distinct(),
        table.revert_scope().starts_are_distinct(),
        table.target_of(node.flags) is Some ==> table.add_symbol(node).starts_are_distinct(),
{
    if !table.starts_behind_global(scope.start_pos) {
        let after = table.push_scope(scope);
        let n = table.scopes.len() as int;
        assert forall|i: int, j: int|
            0 < i < after.scopes.len() && 0 < j < after.scopes.len() && i != j implies (
        #[trigger] after.scopes[i]).start_pos != (#[trigger] after.scopes[j]).start_pos by {
            if i < n && j < n {
                assert(table.scopes[i].start_pos != table.scopes[j].start_pos);
            } else if i < n {
                assert(table.scopes[i].start_pos != scope.start_pos);
            } else {
                assert(table.scopes[j].start_pos != scope.start_pos);
            }
        }
    }
    if table.target_of(node.flags) is Some {
        lemma_add_symbol_frame(table, node);
        let after = table.add_symbol(node);
        assert forall|i: int, j: int|
            0 < i < after.scopes.len() && 0 < j < after.scopes.len() && i != j implies (
        #[trigger] after.scopes[i]).start_pos != (#[trigger] after.scopes[j]).start_pos by {
            assert(table.scopes[i].start_pos != table.scopes[j].start_pos);
        }
    }
}

/// Whether the way from the scope at `start` outwards comes to the scope at
/// `place` before it comes to a scope that shows `name`.
pub open spec fn reaches_unhidden(table: TableView, name: Seq<char>, start: int, place: int) -> bool {
    exists|m: int|
        0 <= m < table.ancestry(start).len() && #[trigger] table.ancestry(start)[m] == place
            && forall|k: int|
            0 <= k < m ==> !table.scopes[#[trigger] table.ancestry(start)[k]].shows(name)
}

/// A lookup stops at the first scope on its way that shows the name.
pub proof fn lemma_lookup_stops_at_first(table: TableView, name: Seq<char>, start: int, place: int)
    requires
        table.well_formed(),
        0 <= start < table.scopes.len(),
        reaches_unhidden(table, name, start, place),
        0 <= place < table.scopes.len(),
        table.scopes[place].shows(name),
    ensures
        table.resolving_scope(name, start) == Some(place),
    decreases start,
{
    let chain = table.ancestry(start);
    let m = choose|m: int|
        0 <= m < chain.len() && #[trigger] chain[m] == place && forall|k: int|
            0 <= k < m ==> !table.scopes[#[trigger] chain[k]].shows(name);
    lemma_parents_reach_global(table, start);
    if m > 0 {
        assert(!table.scopes[chain[0]].shows(name));
        lemma_parent_index(table, start);
        let j = table.parent_index(start).unwrap();
        let rest = table.ancestry(j);
        assert(chain == seq![start] + rest);
        assert(rest[m - 1] == chain[m]);
        assert forall|k: int| 0 <= k < m - 1 implies !table.scopes[#[trigger] rest[k]].shows(
            name,
        ) by {
            assert(rest[k] == chain[k + 1]);
        }
        lemma_lookup_stops_at_first(table, name, j, place);
    }
}

/// A lookup stops at a scope only if its way comes to that scope before it
/// comes to another scope that shows the name.
pub proof fn lemma_lookup_stops_only_at_first(table: TableView, name: Seq<char>, start: int)
    requires
        table.well_formed(),
        0 <= start < table.scopes.len(),
    ensures
        table.resolving_scope(name, start) matches Some(place) ==> reaches_unhidden(
            table,
            name,
            start,
            place,
        ),
    decreases start,
{
    lemma_parent_index(table, start);
    let chain = table.ancestry(start);
    assert(chain[0] == start);
    if table.scopes[start].shows(name) {
        assert(reaches_unhidden(table, name, start, start));
    } else if start > 0 {
        let j = table.parent_index(start).unwrap();
        lemma_lookup_stops_only_at_first(table, name, j);
        if let Some(place) = table.resolving_scope(name, j) {
            let rest = table.ancestry(j);
            assert(chain == seq![start] + rest);
            let m = choose|m: int|
                0 <= m < rest.len() && #[trigger] rest[m] == place && forall|k: int|
                    0 <= k < m ==> !table.scopes[#[trigger] rest[k]].shows(name);
            assert(chain[m + 1] == place);
            assert forall|k: int| 0 <= k < m + 1 implies !table.scopes[#[trigger] chain[k]].shows(
                name,
            ) by {
                if k > 0 {
                    assert(chain[k] == rest[k - 1]);
                }
            }
        }
    }
}

/// A lookup stops only at a scope on the way from the scope where it began.
pub proof fn lemma_lookup_stays_on_its_way(table: TableView, name: Seq<char>, start: int)
    requires
        table.well_formed(),
        0 <= start < table.scopes.len(),
    ensures
        table.resolving_scope(name, start) matches Some(place) ==> table.ancestry(start).contains(
            place,
        ),
        table.enclosing_class_from(start) matches Some(place) ==> table.ancestry(start).contains(
            place,
        ),
    decreases start,
{
    lemma_parent_index(table, start);
    let chain = table.ancestry(start);
    assert(chain[0] == start);
    if start > 0 {
        let j = table.parent_index(start).unwrap();
        lemma_lookup_stays_on_its_way(table, name, j);
        let rest = table.ancestry(j);
        assert(chain == seq![start] + rest);
        if let Some(place) = table.resolving_scope(name, j) {
            let m = choose|m: int| 0 <= m < rest.len() && rest[m] == place;
            assert(chain[m + 1] == place);
        }
        if let Some(place) = table.enclosing_class_from(j) {
            let m = choose|m: int| 0 <= m < rest.len() && rest[m] == place;
            assert(chain[m + 1] == place);
        }
    }
}

/// Inserting an entry leaves the tree of scopes as it is: every scope keeps
/// its place, its parent and its way to the global scope.
pub proof fn lemma_add_symbol_keeps_tree(table: TableView, node: NodeView, i: int)
    requires
        table.well_formed(),
        table.target_of(node.flags) is Some,
        node.declarations.len() > 0,
        0 <= i < table.scopes.len(),
    ensures
        table.add_symbol(node).index_of(table.scopes[i].id) == i,
        table.add_symbol(node).parent_index(i) == table.parent_index(i),
        table.add_symbol(node).ancestry(i) == table.ancestry(i),
        table.add_symbol(node).enclosing_class_from(i) == table.enclosing_class_from(i),
    decreases i,
{
    let after = table.add_symbol(node);
    lemma_add_symbol_frame(table, node);
    lemma_add_symbol_well_formed(table, node);
    lemma_index_of_place(table, i);
    lemma_index_of_place(after, i);
    lemma_parent_index(table, i);
    lemma_parent_index(after, i);
    if i > 0 {
        let j = table.parent_index(i).unwrap();
        lemma_index_of_held(table, table.scopes[i].parent.unwrap());
        lemma_index_of_place(table, j);
        lemma_index_of_place(after, j);
        assert(table.scopes[j].id == table.scopes[i].parent.unwrap());
        assert(after.scopes[j].id == table.scopes[i].parent.unwrap());
        lemma_add_symbol_keeps_tree(table, node, j);
    }
}

/// A class member or an instance member that is inserted while the current
/// scope lies in a class is bound in the nearest such class scope, with its
/// declarations in front of those that the class scope held for the name.
/// It is found there as an attribute of the class scope, by a lookup that
/// begins at the class scope, and by a lookup that begins at a class scope
/// whose way outwards comes to that class scope before it comes to a scope
/// that shows the name. A lookup whose way outwards does not come to the
/// class scope, or comes to a scope that shows the name before, never stops
/// at the class scope.
pub proof fn lemma_member_is_bound_in_class(table: TableView, node: NodeView)
    requires
        table.well_formed(),
        node.flags.spec_is_member(),
        node.declarations.len() > 0,
        table.enclosing_class_from(table.index_of(table.current_scope_id)) is Some,
    ensures
        ({
            let class = table.target_of(node.flags).unwrap();
            let after = table.add_symbol(node);
            let entry = table.scopes[class].merged(node);
            &&& 0 <= class < table.scopes.len()
            &&& table.scopes[class].kind is Class
            &&& table.ancestry(table.index_of(table.current_scope_id)).contains(class)
            &&& entry.name == node.name
            &&& entry.flags == node.flags
            &&& entry.declarations.subrange(0, node.declarations.len() as int)
                == node.declarations
            &&& after.lookup_attribute(node.name, table.scopes[class].id) == Some(entry)
            &&& after.lookup_in_scope(node.name, table.scopes[class].id) == Some(entry)
            &&& forall|start: int|
                0 <= start < after.scopes.len() && after.scopes[start].kind is Class
                    && #[trigger] reaches_unhidden(after, node.name, start, class)
                    ==> after.lookup_in_scope(node.name, after.scopes[start].id) == Some(entry)
            &&& forall|start: int|
                0 <= start < after.scopes.len() && !(#[trigger] reaches_unhidden(
                    after,
                    node.name,
                    start,
                    class,
                )) ==> after.resolving_scope(node.name, start) != Some(class)
            &&& forall|start: int|
                0 <= start < after.scopes.len() && !(#[trigger] after.ancestry(start)).contains(class)
                    ==> after.resolving_scope(node.name, start) != Some(class)
        }),
{
    let class = table.target_of(node.flags).unwrap();
    let after = table.add_symbol(node);
    let entry = table.scopes[class].merged(node);
    let current = table.index_of(table.current_scope_id);
    lemma_index_of_held(table, table.current_scope_id);
    lemma_add_symbol_frame(table, node);
    lemma_add_symbol_well_formed(table, node);
    lemma_lookup_stays_on_its_way(table, node.name, current);
    lemma_index_of_place(after, class);
    assert(entry.declarations.subrange(0, node.declarations.len() as int) =~= node.declarations);
    assert(after.scopes[class].symbols[node.name] == entry);
    assert(after.scopes[class].shows(node.name));
    assert(after.resolving_scope(node.name, class) == Some(class));
    assert forall|start: int|
        0 <= start < after.scopes.len() && after.scopes[start].kind is Class
            && #[trigger] reaches_unhidden(
            after,
            node.name,
            start,
            class,
        ) implies after.lookup_in_scope(node.name, after.scopes[start].id) == Some(entry) by {
        lemma_lookup_stops_at_first(after, node.name, start, class);
        lemma_index_of_place(after, start);
    }
    assert forall|start: int|
        0 <= start < after.scopes.len() && !(#[trigger] reaches_unhidden(
            after,
            node.name,
            start,
            class,
        )) implies after.resolving_scope(node.name, start) != Some(class) by {
        lemma_lookup_stops_only_at_first(after, node.name, start);
    }
    assert forall|start: int|
        0 <= start < after.scopes.len() && !(#[trigger] after.ancestry(start)).contains(
            class,
        ) implies after.resolving_scope(node.name, start) != Some(class) by {
        lemma_lookup_stays_on_its_way(after, node.name, start);
    }
}

/// Inserting `node` keeps the history of its name: the entry of the name in
/// the scope that `node` goes to holds the declarations of `node` and behind
/// them, unchanged, the declarations that the scope held before.
pub proof fn lemma_insertion_keeps_history(table: TableView, node: NodeView)
    requires
        table.well_formed(),
        table.target_of(node.flags) is Some,
        node.declarations.len() > 0,
    ensures
        ({
            let target = table.target_of(node.flags).unwrap();
            let before = table.scopes[target];
            let after = table.add_symbol(node).scopes[target];
            let held = if before.symbols.contains_key(node.name) {
                before.symbols[node.name].declarations
            } else {
                Seq::empty()
            };
            &&& after.symbols.contains_key(node.name)
            &&& after.symbols[node.name].declarations == node.declarations + held
            &&& table.add_symbol(node).target_of(node.flags) == Some(target)
        }),
{
    lemma_add_symbol_frame(table, node);
    lemma_index_of_held(table, table.current_scope_id);
    let current = table.index_of(table.current_scope_id);
    lemma_add_symbol_keeps_tree(table, node, current);
    let target = table.target_of(node.flags).unwrap();
    let before = table.scopes[target];
    if !before.symbols.contains_key(node.name) {
        assert(node.declarations + Seq::<crate::declaration::Declaration>::empty()
            =~= node.declarations);
    }
}

/// The number of declarations that the scope at `place` holds for `name`.
pub open spec fn declaration_count(table: TableView, place: int, name: Seq<char>) -> nat {
    if table.scopes[place].symbols.contains_key(name) {
        table.scopes[place].symbols[name].declarations.len()
    } else {
        0
    }
}

/// The table after the entries of `nodes` were inserted one after another.
pub open spec fn add_symbols(table: TableView, nodes: Seq<NodeView>) -> TableView
    decreases nodes.len(),
{
    if nodes.len() == 0 {
        table
    } else {
        add_symbols(table, nodes.drop_last()).add_symbol(nodes.last())
    }
}

/// Inserting a name again and again loses no declaration: after entries of
/// one name, with one declaration each and all members or all no members,
/// were inserted, the scope that they go to holds for the name as many
/// declarations more as entries were inserted. If the name was not bound
/// there before, it holds as many declarations as entries were inserted.
pub proof fn lemma_repeated_insertion_counts(table: TableView, nodes: Seq<NodeView>, name: Seq<char>)
    requires
        table.well_formed(),
        nodes.len() > 0,
        table.target_of(nodes[0].flags) is Some,
        forall|k: int|
            0 <= k < nodes.len() ==> (#[trigger] nodes[k]).name == name && nodes[k].declarations.len()
                == 1 && nodes[k].flags.spec_is_member() == nodes[0].flags.spec_is_member(),
    ensures
        add_symbols(table, nodes).well_formed(),
        add_symbols(table, nodes).target_of(nodes[0].flags) == table.target_of(nodes[0].flags),
        declaration_count(add_symbols(table, nodes), table.target_of(nodes[0].flags).unwrap(), name)
            == declaration_count(table, table.target_of(nodes[0].flags).unwrap(), name)
            + nodes.len(),
    decreases nodes.len(),
{
    let last = nodes.last();
    let front = nodes.drop_last();
    assert(last == nodes[nodes.len() - 1]);
    if front.len() == 0 {
        assert(add_symbols(table, front) == table);
        assert(table.target_of(last.flags) == table.target_of(nodes[0].flags));
        lemma_insertion_keeps_history(table, last);
        lemma_add_symbol_well_formed(table, last);
    } else {
        assert(front[0] == nodes[0]);
        assert forall|k: int| 0 <= k < front.len() implies (#[trigger] front[k]).name == name
            && front[k].declarations.len() == 1 && front[k].flags.spec_is_member()
            == front[0].flags.spec_is_member() by {
            assert(front[k] == nodes[k]);
        }
        lemma_repeated_insertion_counts(table, front, name);
        let middle = add_symbols(table, front);
        assert(middle.target_of(last.flags) == middle.target_of(nodes[0].flags));
        lemma_insertion_keeps_history(middle, last);
        lemma_add_symbol_well_formed(middle, last);
    }
}

/// A scope that is closed is found again by its offsets: the position index
/// names it as the innermost scope at every offset from its start onwards,
/// up to the open end of its interval, unless an interval that names another
/// scope holds the offset and stands at or behind the place of the new one:
/// it starts later, or at the same offset and is open to the end too.
pub proof fn lemma_closed_scope_is_found(table: TableView, offset: u32)
    requires
        table.well_formed(),
        table.scope(table.current_scope_id).parent is Some,
        table.scope(table.current_scope_id).start_pos <= offset < OPEN_END,
        forall|k: int|
            0 <= k < table.index.len() && !entry_before(
                #[trigger] table.index[k],
                TableView::closing_entry(table.scope(table.current_scope_id)),
            ) && table.index[k].2 != table.current_scope_id ==> !covers(table.index[k], offset),
    ensures
        table.exit_scope().well_formed(),
        table.exit_scope().current_scope_id == table.scope(table.current_scope_id).parent.unwrap(),
        innermost_at(table.exit_scope().index, offset) == Some(table.current_scope_id),
{
    lemma_index_of_held(table, table.current_scope_id);
    lemma_exit_scope_well_formed(table);
    let closed = table.exit_scope();
    let entry = TableView::closing_entry(table.scope(table.current_scope_id));
    let p = insertion_point(table.index, entry);
    lemma_insertion_point(table.index, entry);
    assert(closed.index == table.index.insert(p, entry));
    assert(closed.index[p] == entry);
    assert(covers(closed.index[p], offset));
    // Every later entry that holds the offset speaks of the same scope.
    assert forall|k: int|
        p < k < closed.index.len() && covers(#[trigger] closed.index[k], offset) implies closed.index[k].2
        == table.current_scope_id by {
        let other = table.index[k - 1];
        assert(closed.index[k] == other);
        assert(!entry_before(other, entry));
    }
    lemma_last_covering_exists(closed.index, offset, closed.index.len() as int);
    let last = choose|i: int|
        0 <= i < closed.index.len() && covers(#[trigger] closed.index[i], offset) && forall|j: int|
            i < j < closed.index.len() ==> !covers(#[trigger] closed.index[j], offset);
    if last < p {
        assert(!covers(closed.index[p], offset));
    }
}

/// A scope that is pushed and closed at once is found again by its offsets,
/// unless an interval that was recorded before holds the offset and stands at
/// or behind the place of the new one.
pub proof fn lemma_pushed_and_closed_scope_is_found(table: TableView, scope: ScopeView, offset: u32)
    requires
        table.well_formed(),
        table.can_push(scope),
        scope.well_formed(),
        scope.start_pos <= offset < OPEN_END,
        forall|k: int|
            0 <= k < table.index.len() && !entry_before(
                #[trigger] table.index[k],
                TableView::closing_entry(scope),
            ) ==> !covers(table.index[k], offset),
    ensures
        table.push_scope(scope).exit_scope().well_formed(),
        table.push_scope(scope).exit_scope().current_scope_id == scope.parent.unwrap(),
        innermost_at(table.push_scope(scope).exit_scope().index, offset) == Some(scope.id),
{
    let pushed = table.push_scope(scope);
    lemma_push_scope_well_formed(table, scope);
    let n = table.scopes.len() as int;
    assert(pushed.scopes[n] == scope);
    lemma_index_of_place(pushed, n);
    lemma_closed_scope_is_found(pushed, offset);
}

} // verus!
