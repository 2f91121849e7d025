//! Identifiers of symbol tables and of scopes.

use vstd::prelude::*;

verus! {

/// Identifier of a symbol table: one per analysed file.
#[derive(Debug, Clone, Copy, PartialEq, Eq, Hash, Structural)]
pub struct Id(pub u32);

/// Source of scope identifiers for one analysis session.
///
/// Identifiers are handed out in increasing order starting at 1, so that 0
/// stays reserved for the global scope of each file. After `u32::MAX` the
/// counter starts again at 0.
#[derive(Debug, Clone)]
pub struct IdGenerator {
    next: u32,
}

impl View for IdGenerator {
    type V = u32;

    /// The identifier that the next call of [`get_id`] returns.
    closed spec fn view(&self) -> u32 {
        self.next
    }
}

/// The identifier that follows `id`.
pub open spec fn following_id(id: u32) -> u32 {
    if id == u32::MAX {
        0
    } else {
        (id + 1) as u32
    }
}

impl IdGenerator {
    /// A generator whose first identifier is 1.
    pub fn new() -> (generator: Self)
        ensures
            generator@ == 1,
    {
        IdGenerator { next: 1 }
    }
}

/// Takes the next scope identifier from `generator`.
pub fn get_id(generator: &mut IdGenerator) -> (id: u32)
    ensures
        id == old(generator)@,
        final(generator)@ == following_id(old(generator)@),
{
    let id: u32 = generator.next;
    generator.next = id.wrapping_add(1);
    id
}

} // verus!
