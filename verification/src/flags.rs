//! The membership flags of a symbol.

use crate::dump::flags_text;
use crate::text::hexadecimal_text;
use vstd::prelude::*;
use vstd::string::StringExecFns;

verus! {

/// Bit of a symbol that is an attribute bound in a class body.
pub const CLASS_MEMBER_BIT: u16 = 1;

/// Bit of a symbol that is an attribute bound through the instance, as in
/// `self.x = ..`.
pub const INSTANCE_MEMBER_BIT: u16 = 2;

/// Membership flags of a symbol: a set of bits.
///
/// Two bits have a meaning, [`CLASS_MEMBER_BIT`] and [`INSTANCE_MEMBER_BIT`].
/// The other bits are kept as they are given and mean nothing to the table.
#[derive(Debug, Clone, Copy, PartialEq, Eq, Hash, Structural)]
pub struct SymbolFlags {
    bits: u16,
}

impl SymbolFlags {
    /// The bits of the flag set.
    pub closed spec fn spec_bits(&self) -> u16 {
        self.bits
    }

    /// Whether every flag of `other` is set in `self`.
    pub open spec fn spec_contains(&self, other: SymbolFlags) -> bool {
        self.spec_bits() & other.spec_bits() == other.spec_bits()
    }

    /// Whether no flag is set.
    pub open spec fn spec_is_empty(&self) -> bool {
        self.spec_bits() == 0
    }

    /// Whether the symbol is a class member or an instance member.
    pub open spec fn spec_is_member(&self) -> bool {
        self.spec_bits() & (CLASS_MEMBER_BIT | INSTANCE_MEMBER_BIT) != 0
    }

    /// The set without any flag.
    pub closed spec fn spec_empty() -> SymbolFlags {
        SymbolFlags { bits: 0 }
    }

    /// The set that holds the class-member flag alone.
    pub closed spec fn spec_class_member() -> SymbolFlags {
        SymbolFlags { bits: CLASS_MEMBER_BIT }
    }

    /// The set that holds the instance-member flag alone.
    pub closed spec fn spec_instance_member() -> SymbolFlags {
        SymbolFlags { bits: INSTANCE_MEMBER_BIT }
    }

    #[verifier::when_used_as_spec(spec_empty)]
    pub fn empty() -> (flags: Self)
        ensures
            flags == Self::spec_empty(),
            flags.spec_bits() == 0,
            !flags.spec_is_member(),
    {
        assert(0u16 & (1u16 | 2u16) == 0) by (bit_vector);
        SymbolFlags { bits: 0 }
    }

    #[verifier::when_used_as_spec(spec_class_member)]
    pub fn class_member() -> (flags: Self)
        ensures
            flags == Self::spec_class_member(),
            flags.spec_bits() == CLASS_MEMBER_BIT,
            flags.spec_is_member(),
    {
        assert(1u16 & (1u16 | 2u16) != 0) by (bit_vector);
        SymbolFlags { bits: CLASS_MEMBER_BIT }
    }

    #[verifier::when_used_as_spec(spec_instance_member)]
    pub fn instance_member() -> (flags: Self)
        ensures
            flags == Self::spec_instance_member(),
            flags.spec_bits() == INSTANCE_MEMBER_BIT,
            flags.spec_is_member(),
    {
        assert(2u16 & (1u16 | 2u16) != 0) by (bit_vector);
        SymbolFlags { bits: INSTANCE_MEMBER_BIT }
    }

    /// The set with exactly the given bits, known or not.
    pub fn from_bits_retain(bits: u16) -> (flags: Self)
        ensures
            flags.spec_bits() == bits,
    {
        SymbolFlags { bits }
    }

    #[verifier::when_used_as_spec(spec_bits)]
    pub fn bits(&self) -> (bits: u16)
        ensures
            bits == self.spec_bits(),
    {
        self.bits
    }

    #[verifier::when_used_as_spec(spec_is_empty)]
    pub fn is_empty(&self) -> (none: bool)
        ensures
            none == self.spec_is_empty(),
    {
        self.bits == 0
    }

    #[verifier::when_used_as_spec(spec_contains)]
    pub fn contains(&self, other: SymbolFlags) -> (held: bool)
        ensures
            held == self.spec_contains(other),
    {
        self.bits & other.bits == other.bits
    }

    /// The flags that are set in `self` or in `other`.
    pub fn union(self, other: SymbolFlags) -> (both: Self)
        ensures
            both.spec_bits() == self.spec_bits() | other.spec_bits(),
            both.spec_is_member() == (self.spec_is_member() || other.spec_is_member()),
            forall|flags: SymbolFlags|
                both.spec_contains(flags) <== (self.spec_contains(flags) || other.spec_contains(
                    flags,
                )),
    {
        let a = self.bits;
        let b = other.bits;
        assert(((a | b) & (1u16 | 2u16) != 0) == ((a & (1u16 | 2u16) != 0) || (b & (1u16 | 2u16)
            != 0))) by (bit_vector);
        assert forall|flags: SymbolFlags|
            self.spec_contains(flags) || other.spec_contains(flags) implies (SymbolFlags {
            bits: a | b,
        }).spec_contains(flags) by {
            let c = flags.bits;
            assert((a & c == c || b & c == c) ==> (a | b) & c == c) by (bit_vector);
        }
        SymbolFlags { bits: self.bits | other.bits }
    }

    #[verifier::when_used_as_spec(spec_is_member)]
    pub fn is_member(&self) -> (member: bool)
        ensures
            member == self.spec_is_member(),
    {
        self.bits & (CLASS_MEMBER_BIT | INSTANCE_MEMBER_BIT) != 0
    }

    /// The flags as a dump shows them: `SymbolFlags(..)` round the names of
    /// the flags that are set.
    pub fn to_debug_string(&self) -> (text: String)
        ensures
            text@ == flags_text(*self),
    {
        let mut text = String::from_str("SymbolFlags(");
        if self.bits == 0 {
            text.append("0x0");
        } else {
            let class = self.bits & CLASS_MEMBER_BIT != 0;
            let instance = self.bits & INSTANCE_MEMBER_BIT != 0;
            let rest: u16 = self.bits & !(CLASS_MEMBER_BIT | INSTANCE_MEMBER_BIT);
            if class {
                text.append("CLASS_MEMBER");
            }
            if instance {
                if class {
                    text.append(" | ");
                }
                text.append("INSTANCE_MEMBER");
            }
            if rest != 0 {
                if class || instance {
                    text.append(" | ");
                }
                text.append("0x");
                let digits = hexadecimal_text(rest as u32);
                text.append(digits.as_str());
            }
        }
        text.append(")");
        assert(text@ =~= flags_text(*self));
        text
    }

    /// A symbol is a member exactly if its flags contain the class-member
    /// flag or the instance-member flag.
    pub proof fn lemma_member_holds_a_flag(self)
        ensures
            self.spec_is_member() <==> (self.spec_contains(Self::spec_class_member())
                || self.spec_contains(Self::spec_instance_member())),
            Self::spec_class_member().spec_bits() == CLASS_MEMBER_BIT,
            Self::spec_instance_member().spec_bits() == INSTANCE_MEMBER_BIT,
            Self::spec_empty().spec_bits() == 0,
    {
        let b = self.spec_bits();
        assert((b & (1u16 | 2u16) != 0) <==> (b & 1u16 == 1u16 || b & 2u16 == 2u16))
            by (bit_vector);
    }
}

} // verus!
