//! The names that are bound in a scope, each with its entry.
//!
//! The entries stand in a vector, in the order in which their names were
//! first bound, and a lookup goes through it. That no name has two entries
//! is the invariant of the type, so every value of it is a map from names
//! to entries, and a dump can list it in the order of the names.

use crate::dump::{
    lemma_sorted_names_unique, lists_names, sorted_names, symbol_blocks, symbols_text, ByName,
};
use crate::model::{entries_well_formed, merged_entry};
use crate::node::{NodeView, SymbolTableNode};
use crate::order::{
    is_stable_order, lemma_stable_order, positions, stable_order_of, Ranked, Ranking,
};
use crate::text::{same_text, text_at_or_before, text_le};
use vstd::prelude::*;
use vstd::string::StringExecFns;

verus! {

/// Whether one of `nodes` has the name `name`.
pub open spec fn names(nodes: Seq<SymbolTableNode>, name: Seq<char>) -> bool {
    exists|i: int| 0 <= i < nodes.len() && (#[trigger] nodes[i]).name@ == name
}

/// The place of a node with the name `name`.
pub open spec fn place_of(nodes: Seq<SymbolTableNode>, name: Seq<char>) -> int {
    choose|i: int| 0 <= i < nodes.len() && (#[trigger] nodes[i]).name@ == name
}

/// No name occurs twice among `nodes`, and each holds a declaration.
pub open spec fn distinct_names(nodes: Seq<SymbolTableNode>) -> bool {
    &&& forall|i: int, j: int|
        0 <= i < nodes.len() && 0 <= j < nodes.len() && i != j ==> (#[trigger] nodes[i]).name@
            != (#[trigger] nodes[j]).name@
    &&& forall|i: int| 0 <= i < nodes.len() ==> (#[trigger] nodes[i]).declarations.len() > 0
}

/// The entries of `nodes` by name.
pub open spec fn by_name(nodes: Seq<SymbolTableNode>) -> Map<Seq<char>, NodeView> {
    Map::new(|name: Seq<char>| names(nodes, name), |name: Seq<char>| nodes[place_of(nodes, name)]@)
}

/// The names of `nodes` in their order.
pub open spec fn node_names(nodes: Seq<SymbolTableNode>) -> Seq<Seq<char>> {
    Seq::new(nodes.len(), |i: int| nodes[i].name@)
}

/// The names of finitely many nodes are finitely many.
proof fn lemma_by_name_finite(nodes: Seq<SymbolTableNode>)
    ensures
        by_name(nodes).dom().finite(),
    decreases nodes.len(),
{
    if nodes.len() == 0 {
        assert(by_name(nodes).dom() =~= Set::<Seq<char>>::empty());
    } else {
        let front = nodes.drop_last();
        lemma_by_name_finite(front);
        assert(by_name(nodes).dom() =~= by_name(front).dom().insert(nodes.last().name@)) by {
            assert forall|name: Seq<char>| names(nodes, name) implies names(front, name) || name
                == nodes.last().name@ by {
                let i = place_of(nodes, name);
                if i < front.len() {
                    assert(front[i].name@ == name);
                }
            }
            assert forall|name: Seq<char>| names(front, name) implies names(nodes, name) by {
                let i = place_of(front, name);
                assert(nodes[i].name@ == name);
            }
            assert(nodes[nodes.len() - 1].name@ == nodes.last().name@);
        }
    }
}

/// Nodes with distinct names that hold declarations make well-formed entries.
proof fn lemma_by_name_well_formed(nodes: Seq<SymbolTableNode>)
    requires
        distinct_names(nodes),
    ensures
        entries_well_formed(by_name(nodes)),
{
    lemma_by_name_finite(nodes);
    assert forall|name: Seq<char>| #[trigger]
        by_name(nodes).contains_key(name) implies by_name(nodes)[name].name == name && by_name(
        nodes,
    )[name].declarations.len() > 0 by {
        let i = place_of(nodes, name);
        assert(nodes[i].name@ == name);
    }
}

/// The entries of a scope. No name has two entries, and every entry holds
/// a declaration.
#[derive(Debug)]
pub struct Symbols {
    entries: Vec<SymbolTableNode>,
}

impl Clone for Symbols {
    /// A copy with an entry for each entry, under the same name.
    fn clone(&self) -> (copy: Self)
        ensures
            copy@.dom() == self@.dom(),
    {
        proof {
            use_type_invariant(self);
        }
        let mut entries: Vec<SymbolTableNode> = Vec::new();
        let mut i: usize = 0;
        while i < self.entries.len()
            invariant
                i <= self.entries.len(),
                entries.len() == i,
                distinct_names(self.entries@),
                forall|j: int|
                    0 <= j < i ==> (#[trigger] entries@[j]).name@ == self.entries@[j].name@
                        && entries@[j].declarations.len() > 0,
            decreases self.entries.len() - i,
        {
            let entry = &self.entries[i];
            entries.push(
                SymbolTableNode {
                    name: entry.name.clone(),
                    declarations: entry.declarations.clone(),
                    flags: entry.flags,
                },
            );
            i += 1;
        }
        proof {
            assert forall|name: Seq<char>| names(entries@, name) == names(self.entries@, name) by {
                if names(entries@, name) {
                    let j = place_of(entries@, name);
                    assert(self.entries@[j].name@ == name);
                }
                if names(self.entries@, name) {
                    let j = place_of(self.entries@, name);
                    assert(entries@[j].name@ == name);
                }
            }
            assert(by_name(entries@).dom() =~= by_name(self.entries@).dom());
        }
        Symbols { entries }
    }
}

impl View for Symbols {
    type V = Map<Seq<char>, NodeView>;

    closed spec fn view(&self) -> Map<Seq<char>, NodeView> {
        by_name(self.entries@)
    }
}

impl Symbols {
    #[verifier::type_invariant]
    spec fn distinct(&self) -> bool {
        distinct_names(self.entries@)
    }

    /// No entries.
    pub fn new() -> (symbols: Self)
        ensures
            symbols@ == Map::<Seq<char>, NodeView>::empty(),
    {
        let symbols = Symbols { entries: Vec::new() };
        assert(symbols@ =~= Map::<Seq<char>, NodeView>::empty());
        symbols
    }

    /// Shows that the entries are well formed, which they always are. The
    /// call does nothing when the program runs.
    pub fn show_well_formed(&self)
        ensures
            entries_well_formed(self@),
    {
        proof {
            use_type_invariant(self);
            lemma_by_name_well_formed(self.entries@);
        }
    }

    /// The place of the entry of `name`, if the name is bound.
    fn find(&self, name: &str) -> (found: Option<usize>)
        ensures
            found is None <==> !names(self.entries@, name@),
            found matches Some(i) ==> i < self.entries.len() && self.entries@[i as int].name@
                == name@ && i == place_of(self.entries@, name@),
    {
        proof {
            use_type_invariant(self);
        }
        let mut i: usize = 0;
        while i < self.entries.len()
            invariant
                i <= self.entries.len(),
                distinct_names(self.entries@),
                forall|j: int| 0 <= j < i ==> (#[trigger] self.entries@[j]).name@ != name@,
            decreases self.entries.len() - i,
        {
            if same_text(self.entries[i].name.as_str(), name) {
                proof {
                    assert(self.entries@[i as int].name@ == name@);
                    let chosen = place_of(self.entries@, name@);
                    assert(self.entries@[chosen].name@ == name@);
                }
                return Some(i);
            }
            i += 1;
        }
        None
    }

    /// The entry of `name`.
    pub fn lookup(&self, name: &str) -> (found: Option<&SymbolTableNode>)
        ensures
            found is Some <==> self@.contains_key(name@),
            found matches Some(node) ==> node@ == self@[name@] && node@.name == name@
                && node.declarations.len() > 0,
    {
        proof {
            use_type_invariant(self);
        }
        match self.find(name) {
            Some(i) => Some(&self.entries[i]),
            None => None,
        }
    }

    /// Binds the name of `node`. If the name is bound already, the
    /// declarations that are held for it are put behind those of `node`, and
    /// the result takes the place of the entry.
    pub fn insert(&mut self, node: SymbolTableNode)
        requires
            node.declarations.len() > 0,
        ensures
            final(self)@ == old(self)@.insert(node@.name, merged_entry(old(self)@, node@)),
    {
        proof {
            use_type_invariant(&*self);
        }
        let ghost before = self.entries@;
        let ghost name = node.name@;
        let ghost merged = merged_entry(old(self)@, node@);
        let found = self.find(node.name.as_str());
        let mut node = node;
        let mut entries: Vec<SymbolTableNode> = Vec::new();
        std::mem::swap(&mut self.entries, &mut entries);
        assert(entries@ == before);
        match found {
            Some(i) => {
                std::mem::swap(&mut entries[i], &mut node);
                let mut earlier = node;
                entries[i].declarations.append(&mut earlier.declarations);
                let ghost after = entries@;
                assert(after.len() == before.len());
                assert(forall|j: int| 0 <= j < after.len() && j != i ==> after[j] == before[j]);
                assert(after[i as int]@ == merged);
                assert forall|j: int| 0 <= j < after.len() implies (#[trigger] after[j]).name@
                    == before[j].name@ by {}
                assert(distinct_names(after));
                assert(by_name(after) =~= by_name(before).insert(name, merged)) by {
                    assert forall|key: Seq<char>| names(after, key) == names(before, key) by {
                        if names(before, key) {
                            assert(after[place_of(before, key)].name@ == key);
                        }
                        if names(after, key) {
                            assert(before[place_of(after, key)].name@ == key);
                        }
                    }
                    assert forall|key: Seq<char>| names(after, key) implies (#[trigger] by_name(
                        after,
                    )[key]) == by_name(before).insert(name, merged)[key] by {
                        let a = place_of(after, key);
                        let b = place_of(before, key);
                        assert(before[a].name@ == key);
                        assert(a == b);
                    }
                }
            },
            None => {
                entries.push(node);
                let ghost after = entries@;
                let ghost last = before.len() as int;
                assert(forall|j: int| 0 <= j < before.len() ==> after[j] == before[j]);
                assert(after[last]@ == merged);
                assert(distinct_names(after));
                assert(by_name(after) =~= by_name(before).insert(name, merged)) by {
                    assert forall|key: Seq<char>| names(after, key) == (names(before, key) || key
                        == name) by {
                        if names(before, key) {
                            assert(after[place_of(before, key)].name@ == key);
                        }
                        if key == name {
                            assert(after[last].name@ == key);
                        }
                        if names(after, key) {
                            let a = place_of(after, key);
                            if a < last {
                                assert(before[a].name@ == key);
                            }
                        }
                    }
                    assert forall|key: Seq<char>| names(after, key) implies (#[trigger] by_name(
                        after,
                    )[key]) == by_name(before).insert(name, merged)[key] by {
                        let a = place_of(after, key);
                        if key != name {
                            let b = place_of(before, key);
                            assert(after[b].name@ == key);
                            assert(a == b);
                        } else {
                            assert(after[last].name@ == key);
                            assert(a == last);
                        }
                    }
                }
            },
        }
        self.entries = entries;
    }

    /// The block of each entry as a dump shows it, the names in rising
    /// order.
    pub fn to_string(&self) -> (text: String)
        ensures
            text@ == symbols_text(self@),
    {
        proof {
            use_type_invariant(self);
        }
        let items = EntriesByName { entries: &self.entries };
        let order = stable_order_of(&items);
        let ghost nodes = self.entries@;
        let ghost names = Seq::new(order.len() as nat, |k: int| nodes[order@[k] as int].name@);
        proof {
            lemma_stable_order(items.ranking(), nodes.len());
            let listed = positions(order@);
            assert(is_stable_order(items.ranking(), nodes.len(), listed));
            assert forall|a: int, b: int| 0 <= a < b < names.len() implies text_le(
                #[trigger] names[a],
                #[trigger] names[b],
            ) && names[a] != names[b] by {
                assert(listed[a] != listed[b] && items.ranking().le(listed[a], listed[b]));
            }
            assert forall|a: int| 0 <= a < names.len() implies self@.contains_key(
                #[trigger] names[a],
            ) by {
                assert(nodes[order@[a] as int].name@ == names[a]);
            }
            assert forall|name: Seq<char>| self@.contains_key(name) implies names.contains(name) by {
                let i = place_of(nodes, name);
                assert(listed.contains(i));
                let k = choose|k: int| 0 <= k < listed.len() && listed[k] == i;
                assert(names[k] == name);
            }
            assert(lists_names(self@, names));
            lemma_sorted_names_unique(self@, names, sorted_names(self@));
        }
        let mut text = String::new();
        let mut k: usize = 0;
        assert(text@ =~= symbol_blocks(self@, names, 0));
        while k < order.len()
            invariant
                k <= order.len(),
                distinct_names(nodes),
                nodes == self.entries@,
                order.len() == nodes.len(),
                names.len() == order.len(),
                forall|a: int| 0 <= a < order.len() ==> (#[trigger] order@[a]) < nodes.len(),
                forall|a: int|
                    0 <= a < order.len() ==> #[trigger] names[a] == nodes[order@[a] as int].name@,
                text@ == symbol_blocks(self@, names, k as nat),
            decreases order.len() - k,
        {
            let node = &self.entries[order[k]];
            proof {
                let name = names[k as int];
                assert(nodes[order@[k as int] as int].name@ == name);
                let place = place_of(nodes, name);
                assert(nodes[place].name@ == name);
                assert(place == order@[k as int]);
                assert(self@[name] == node@);
            }
            let block = node.to_block();
            text.append(block.as_str());
            assert(text@ =~= symbol_blocks(self@, names, (k + 1) as nat));
            k += 1;
        }
        text
    }
}

/// The entries of a scope, to be compared by their names.
struct EntriesByName<'a> {
    entries: &'a Vec<SymbolTableNode>,
}

impl<'a> Ranked for EntriesByName<'a> {
    type Rank = ByName;

    closed spec fn ranking(&self) -> ByName {
        ByName { names: node_names(self.entries@) }
    }

    fn count(&self) -> (n: usize) {
        self.entries.len()
    }

    fn le(&self, i: usize, j: usize) -> (b: bool) {
        text_at_or_before(self.entries[i].name.as_str(), self.entries[j].name.as_str())
    }
}

} // verus!
