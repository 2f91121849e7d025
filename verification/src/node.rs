//! The entry of one name in a scope: every declaration of the name, and its
//! membership flags.

use crate::declaration::Declaration;
use crate::dump::{declaration_lines, declarations_by_start, node_text, symbol_block, ByStart};
use crate::flags::SymbolFlags;
use crate::order::{positions, stable_order_of, Ranked};
use vstd::prelude::*;
use vstd::string::StringExecFns;

verus! {

/// A name's entry in a scope.
#[derive(Debug, Clone)]
pub struct SymbolTableNode {
    pub name: String,
    /// The declarations of the name, in the order in which the table holds them.
    pub declarations: Vec<Declaration>,
    pub flags: SymbolFlags,
}

/// The mathematical value of a [`SymbolTableNode`].
pub ghost struct NodeView {
    pub name: Seq<char>,
    pub declarations: Seq<Declaration>,
    pub flags: SymbolFlags,
}

impl View for SymbolTableNode {
    type V = NodeView;

    open spec fn view(&self) -> NodeView {
        NodeView { name: self.name@, declarations: self.declarations@, flags: self.flags }
    }
}

/// Whether a use at `pos` may refer to `declaration` in the loose sense: the
/// declaration starts at or before `pos`, or it declares a class, whose name
/// counts as known everywhere.
pub open spec fn reaches(declaration: Declaration, pos: u32) -> bool {
    declaration.start() <= pos || declaration is Class
}

/// Whether `k` is the first declaration of `declarations`, in stored order,
/// that reaches `pos`.
pub open spec fn is_first_reaching(declarations: Seq<Declaration>, pos: u32, k: int) -> bool {
    &&& 0 <= k < declarations.len()
    &&& reaches(declarations[k], pos)
    &&& forall|j: int| 0 <= j < k ==> !reaches(#[trigger] declarations[j], pos)
}

/// Whether `k` is the declaration of `declarations` that a use at `position`
/// sees: it starts before `position`, no declaration that starts before
/// `position` starts later, and of those that start where it does it is the
/// last in stored order.
pub open spec fn is_latest_before(declarations: Seq<Declaration>, position: u32, k: int) -> bool {
    &&& 0 <= k < declarations.len()
    &&& declarations[k].start() < position
    &&& forall|j: int|
        0 <= j < declarations.len() && (#[trigger] declarations[j]).start() < position
            ==> declarations[j].start() <= declarations[k].start()
    &&& forall|j: int|
        k < j < declarations.len() && (#[trigger] declarations[j]).start() < position
            ==> declarations[j].start() < declarations[k].start()
}

/// A use at a position sees at most one declaration.
pub proof fn lemma_latest_before_is_one(
    declarations: Seq<Declaration>,
    position: u32,
    k: int,
    other: int,
)
    requires
        is_latest_before(declarations, position, k),
        is_latest_before(declarations, position, other),
    ensures
        k == other,
{
    if k < other {
        assert(declarations[other].start() < declarations[k].start());
        assert(declarations[k].start() <= declarations[other].start());
    } else if other < k {
        assert(declarations[k].start() < declarations[other].start());
        assert(declarations[other].start() <= declarations[k].start());
    }
}

/// At most one declaration is the first to reach a position.
pub proof fn lemma_first_reaching_is_one(
    declarations: Seq<Declaration>,
    pos: u32,
    k: int,
    other: int,
)
    requires
        is_first_reaching(declarations, pos, k),
        is_first_reaching(declarations, pos, other),
    ensures
        k == other,
{
    if k < other {
        assert(!reaches(declarations[k], pos));
    } else if other < k {
        assert(!reaches(declarations[other], pos));
    }
}

impl SymbolTableNode {
    /// Appends `decl` to the declarations of the name.
    pub fn add_declaration(&mut self, decl: Declaration)
        ensures
            final(self)@ == (NodeView {
                declarations: old(self)@.declarations.push(decl),
                ..old(self)@
            }),
    {
        self.declarations.push(decl);
    }

    /// The declaration that the table holds last.
    pub fn last_declaration(&self) -> (last: &Declaration)
        requires
            self.declarations.len() > 0,
        ensures
            *last == self@.declarations.last(),
    {
        &self.declarations[self.declarations.len() - 1]
    }

    /// The first declaration, in stored order, that starts at or before `pos`
    /// or declares a class.
    pub fn get_declaration_until_pos(&self, pos: u32) -> (found: Option<&Declaration>)
        ensures
            found is None <==> forall|j: int|
                0 <= j < self@.declarations.len() ==> !reaches(#[trigger] self@.declarations[j], pos),
            found matches Some(declaration) ==> exists|k: int|
                is_first_reaching(self@.declarations, pos, k) && *declaration
                    == self@.declarations[k],
    {
        let mut i: usize = 0;
        while i < self.declarations.len()
            invariant
                i <= self.declarations.len(),
                forall|j: int| 0 <= j < i ==> !reaches(#[trigger] self@.declarations[j], pos),
            decreases self.declarations.len() - i,
        {
            let declaration = &self.declarations[i];
            if declaration.declaration_path().node.start <= pos || declaration.is_class() {
                assert(is_first_reaching(self@.declarations, pos, i as int));
                return Some(declaration);
            }
            i += 1;
        }
        None
    }

    /// The declaration that a use at `position` sees: of those that start
    /// before `position`, the one that starts last.
    pub fn declaration_until_position(&self, position: u32) -> (found: Option<&Declaration>)
        ensures
            found is None <==> forall|j: int|
                0 <= j < self@.declarations.len() ==> (#[trigger] self@.declarations[j]).start()
                    >= position,
            found matches Some(declaration) ==> exists|k: int|
                is_latest_before(self@.declarations, position, k) && *declaration
                    == self@.declarations[k],
    {
        let mut best: Option<usize> = None;
        let mut i: usize = 0;
        while i < self.declarations.len()
            invariant
                i <= self.declarations.len(),
                best is None <==> forall|j: int|
                    0 <= j < i ==> (#[trigger] self@.declarations[j]).start() >= position,
                best matches Some(k) ==> k < i && is_latest_before(
                    self@.declarations.take(i as int),
                    position,
                    k as int,
                ),
            decreases self.declarations.len() - i,
        {
            let start: u32 = self.declarations[i].declaration_path().node.start;
            let ghost before = self@.declarations.take(i as int);
            let ghost after = self@.declarations.take(i + 1);
            assert(forall|j: int| 0 <= j < i ==> after[j] == before[j]);
            if start < position {
                let later = match best {
                    None => true,
                    Some(k) => self.declarations[k].declaration_path().node.start <= start,
                };
                if later {
                    best = Some(i);
                    assert(is_latest_before(after, position, i as int)) by {
                        assert forall|j: int|
                            0 <= j < after.len() && (#[trigger] after[j]).start()
                                < position implies after[j].start() <= after[i as int].start() by {
                            if j < i {
                                assert(before[j].start() < position);
                            }
                        }
                    }
                } else {
                    let ghost k = best.unwrap() as int;
                    assert(is_latest_before(after, position, k)) by {
                        assert forall|j: int|
                            0 <= j < after.len() && (#[trigger] after[j]).start()
                                < position implies after[j].start() <= after[k].start() by {
                            if j < i {
                                assert(before[j].start() < position);
                            }
                        }
                        assert forall|j: int|
                            k < j < after.len() && (#[trigger] after[j]).start()
                                < position implies after[j].start() < after[k].start() by {
                            if j < i {
                                assert(before[j].start() < position);
                            }
                        }
                    }
                }
            } else {
                if let Some(k) = best {
                    assert(is_latest_before(after, position, k as int)) by {
                        assert forall|j: int|
                            0 <= j < after.len() && (#[trigger] after[j]).start()
                                < position implies after[j].start() <= after[k as int].start() by {
                            if j < i {
                                assert(before[j].start() < position);
                            }
                        }
                        assert forall|j: int|
                            k < j < after.len() && (#[trigger] after[j]).start()
                                < position implies after[j].start() < after[k as int].start() by {
                            if j < i {
                                assert(before[j].start() < position);
                            }
                        }
                    }
                }
            }
            i += 1;
        }
        assert(self@.declarations.take(i as int) == self@.declarations);
        match best {
            Some(k) => Some(&self.declarations[k]),
            None => None,
        }
    }

    /// The entry as a dump shows it: its name, the kind of its last
    /// declaration, and its flags.
    pub fn to_string(&self) -> (text: String)
        requires
            self.declarations.len() > 0,
        ensures
            text@ == node_text(self@),
    {
        let mut text = self.name.clone();
        text.append(" - declaration: ");
        let last = self.last_declaration().to_string();
        text.append(last.as_str());
        text.append(" - properties: ");
        let flags = self.flags.to_debug_string();
        text.append(flags.as_str());
        assert(text@ =~= node_text(self@));
        text
    }

    /// The lines of the entry in the dump of its scope: the entry, a
    /// heading, and a line for each declaration, those that start first at
    /// the top.
    pub fn to_block(&self) -> (text: String)
        requires
            self.declarations.len() > 0,
        ensures
            text@ == symbol_block(self@),
    {
        let mut text = self.to_string();
        text.append("\n");
        text.append("- Declarations:\n");
        let order = stable_order_of(&DeclarationsByStart { declarations: &self.declarations });
        let ghost head = text@;
        let ghost listed = declarations_by_start(self@.declarations);
        assert(positions(order@) == listed);
        let mut k: usize = 0;
        assert(text@ =~= head + declaration_lines(self@.declarations, listed, 0));
        while k < order.len()
            invariant
                k <= order.len(),
                order.len() == self.declarations.len(),
                positions(order@) == listed,
                forall|a: int| 0 <= a < order.len() ==> (#[trigger] order@[a]) < self.declarations.len(),
                text@ == head + declaration_lines(self@.declarations, listed, k as nat),
            decreases order.len() - k,
        {
            assert(listed[k as int] == order@[k as int] as int);
            text.append("--:   ");
            let kind = self.declarations[order[k]].to_string();
            text.append(kind.as_str());
            text.append("\n");
            assert(text@ =~= head + declaration_lines(self@.declarations, listed, (k + 1) as nat));
            k += 1;
        }
        assert(text@ =~= symbol_block(self@));
        text
    }
}

/// The declarations of an entry, to be compared by the offset at which they
/// start.
struct DeclarationsByStart<'a> {
    declarations: &'a Vec<Declaration>,
}

impl<'a> Ranked for DeclarationsByStart<'a> {
    type Rank = ByStart;

    closed spec fn ranking(&self) -> ByStart {
        ByStart { declarations: self.declarations@ }
    }

    fn count(&self) -> (n: usize) {
        self.declarations.len()
    }

    fn le(&self, i: usize, j: usize) -> (b: bool) {
        self.declarations[i].declaration_path().node.start
            <= self.declarations[j].declaration_path().node.start
    }
}

} // verus!
