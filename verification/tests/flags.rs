use symbol_table::flags::{CLASS_MEMBER_BIT, INSTANCE_MEMBER_BIT};
use symbol_table::SymbolFlags;

#[test]
fn the_two_flags_have_their_bits() {
    assert_eq!(CLASS_MEMBER_BIT, 1);
    assert_eq!(INSTANCE_MEMBER_BIT, 2);
    assert_eq!(SymbolFlags::empty().bits(), 0);
    assert_eq!(SymbolFlags::class_member().bits(), 1);
    assert_eq!(SymbolFlags::instance_member().bits(), 2);
    assert_eq!(SymbolFlags::from_bits_retain(0x1234).bits(), 0x1234);
    assert_eq!(SymbolFlags::class_member(), SymbolFlags::from_bits_retain(1));
}

#[test]
fn a_set_contains_its_flags() {
    let both = SymbolFlags::class_member().union(SymbolFlags::instance_member());
    assert_eq!(both.bits(), 3);
    assert!(both.contains(SymbolFlags::class_member()));
    assert!(both.contains(SymbolFlags::instance_member()));
    assert!(both.contains(both));
    assert!(both.contains(SymbolFlags::empty()));
    assert!(!SymbolFlags::class_member().contains(SymbolFlags::instance_member()));
    assert!(!SymbolFlags::class_member().contains(both));
    assert!(!SymbolFlags::empty().contains(SymbolFlags::class_member()));
    assert!(SymbolFlags::empty().contains(SymbolFlags::empty()));
}

#[test]
fn members_hold_one_of_the_two_flags() {
    assert!(!SymbolFlags::empty().is_member());
    assert!(SymbolFlags::class_member().is_member());
    assert!(SymbolFlags::instance_member().is_member());
    assert!(SymbolFlags::class_member().union(SymbolFlags::instance_member()).is_member());
    assert!(!SymbolFlags::from_bits_retain(4).is_member());
    assert!(SymbolFlags::from_bits_retain(6).is_member());
    assert!(SymbolFlags::empty().is_empty());
    assert!(!SymbolFlags::from_bits_retain(4).is_empty());
}

#[test]
fn flags_are_shown_by_name() {
    assert_eq!(SymbolFlags::empty().to_debug_string(), "SymbolFlags(0x0)");
    assert_eq!(SymbolFlags::class_member().to_debug_string(), "SymbolFlags(CLASS_MEMBER)");
    assert_eq!(SymbolFlags::instance_member().to_debug_string(), "SymbolFlags(INSTANCE_MEMBER)");
    assert_eq!(
        SymbolFlags::class_member().union(SymbolFlags::instance_member()).to_debug_string(),
        "SymbolFlags(CLASS_MEMBER | INSTANCE_MEMBER)"
    );
    assert_eq!(SymbolFlags::from_bits_retain(0x14).to_debug_string(), "SymbolFlags(0x14)");
    assert_eq!(SymbolFlags::from_bits_retain(0x101).to_debug_string(), "SymbolFlags(CLASS_MEMBER | 0x100)");
    assert_eq!(
        SymbolFlags::from_bits_retain(0xffff).to_debug_string(),
        "SymbolFlags(CLASS_MEMBER | INSTANCE_MEMBER | 0xfffc)"
    );
    assert_eq!(SymbolFlags::from_bits_retain(0xabc2).to_debug_string(), "SymbolFlags(INSTANCE_MEMBER | 0xabc0)");
}
