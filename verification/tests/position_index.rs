use symbol_table::{Id, IdGenerator, SymbolTable, SymbolTableScope, SymbolTableType};

fn scope_at(start: u32, parent: u32, ids: &mut IdGenerator) -> SymbolTableScope {
    SymbolTableScope::new(SymbolTableType::Module, format!("scope{}", start), start, parent, ids)
}

#[test]
fn the_file_belongs_to_the_global_scope() {
    let table = SymbolTable::new("f.py".to_string(), 100, Id(1));
    assert_eq!(table.innermost_scope_at(0), Some(0));
    assert_eq!(table.innermost_scope_at(57), Some(0));
    assert_eq!(table.innermost_scope_at(99), Some(0));
    assert_eq!(table.innermost_scope_at(100), None);
    assert_eq!(table.innermost_scope_at(u32::MAX), None);
    assert_eq!(table.scope_start_offset.innermost_at(99), Some(0));
}

#[test]
fn an_empty_file_holds_no_offset() {
    let table = SymbolTable::new("empty.py".to_string(), 0, Id(1));
    assert_eq!(table.innermost_scope_at(0), None);
    assert_eq!(table.innermost_scope_at(1), None);
}

#[test]
fn a_scope_that_was_pushed_and_closed_is_found_by_its_offsets() {
    let mut ids = IdGenerator::new();
    let mut table = SymbolTable::new("f.py".to_string(), 100, Id(1));
    let scope = scope_at(10, 0, &mut ids);
    let id = scope.id;
    table.push_scope(scope);
    assert_eq!(table.innermost_scope_at(10), Some(0));
    table.exit_scope();
    assert_eq!(table.innermost_scope_at(9), Some(0));
    assert_eq!(table.innermost_scope_at(10), Some(id));
    assert_eq!(table.innermost_scope_at(11), Some(id));
    assert_eq!(table.innermost_scope_at(99), Some(id));
    assert_eq!(table.innermost_scope_at(100), Some(id));
    assert_eq!(table.innermost_scope_at(4_000_000_000), Some(id));
    assert_eq!(table.innermost_scope_at(u32::MAX - 1), Some(id));
    assert_eq!(table.innermost_scope_at(u32::MAX), None);
}

#[test]
fn of_two_closed_scopes_the_one_that_starts_later_is_the_innermost() {
    let mut ids = IdGenerator::new();
    let mut table = SymbolTable::new("f.py".to_string(), 100, Id(1));
    let outer = scope_at(10, 0, &mut ids);
    let outer_id = outer.id;
    table.push_scope(outer);
    let inner = scope_at(20, outer_id, &mut ids);
    let inner_id = inner.id;
    table.push_scope(inner);
    table.exit_scope();
    assert_eq!(table.innermost_scope_at(15), Some(0));
    assert_eq!(table.innermost_scope_at(25), Some(inner_id));
    table.exit_scope();
    assert_eq!(table.innermost_scope_at(5), Some(0));
    assert_eq!(table.innermost_scope_at(15), Some(outer_id));
    assert_eq!(table.innermost_scope_at(20), Some(inner_id));
    assert_eq!(table.innermost_scope_at(25), Some(inner_id));
}

#[test]
fn an_interval_that_starts_later_hides_a_scope_that_is_closed_after_it() {
    let mut ids = IdGenerator::new();
    let mut table = SymbolTable::new("f.py".to_string(), 100, Id(1));
    let later = scope_at(30, 0, &mut ids);
    let later_id = later.id;
    table.push_scope(later);
    table.exit_scope();
    let earlier = scope_at(10, 0, &mut ids);
    let earlier_id = earlier.id;
    table.push_scope(earlier);
    table.exit_scope();
    assert_eq!(table.innermost_scope_at(10), Some(earlier_id));
    assert_eq!(table.innermost_scope_at(29), Some(earlier_id));
    assert_eq!(table.innermost_scope_at(30), Some(later_id));
    assert_eq!(table.innermost_scope_at(35), Some(later_id));
}

#[test]
fn a_scope_that_is_closed_twice_is_still_found() {
    let mut ids = IdGenerator::new();
    let mut table = SymbolTable::new("f.py".to_string(), 100, Id(1));
    let scope = scope_at(10, 0, &mut ids);
    let id = scope.id;
    table.push_scope(scope);
    table.exit_scope();
    table.set_scope(10);
    table.exit_scope();
    assert_eq!(table.current_scope_id, 0);
    assert_eq!(table.innermost_scope_at(12), Some(id));
    assert_eq!(table.innermost_scope_at(3), Some(0));
}

#[test]
fn a_copy_of_a_table_has_the_same_index() {
    let mut ids = IdGenerator::new();
    let mut table = SymbolTable::new("f.py".to_string(), 100, Id(1));
    let scope = scope_at(10, 0, &mut ids);
    let id = scope.id;
    table.push_scope(scope);
    table.exit_scope();
    let copy = table.clone();
    let other = scope_at(50, 0, &mut ids);
    let other_id = other.id;
    table.push_scope(other);
    table.exit_scope();
    assert_eq!(copy.innermost_scope_at(60), Some(id));
    assert_eq!(copy.innermost_scope_at(5), Some(0));
    assert_eq!(table.innermost_scope_at(60), Some(other_id));
    assert_eq!(copy.scopes.len(), 2);
    assert_eq!(table.scopes.len(), 3);
}

#[test]
fn a_scope_that_starts_where_the_file_starts_is_found_by_its_offsets() {
    let mut ids = IdGenerator::new();
    let mut table = SymbolTable::new("f.py".to_string(), 100, Id(1));
    let scope = scope_at(0, 0, &mut ids);
    let id = scope.id;
    table.push_scope(scope);
    table.exit_scope();
    assert_eq!(table.innermost_scope_at(0), Some(id));
    assert_eq!(table.innermost_scope_at(99), Some(id));
    assert_eq!(table.innermost_scope_at(100), Some(id));
    assert_eq!(table.innermost_scope_at(u32::MAX), None);
}

#[test]
fn the_interval_of_a_file_of_the_greatest_length_hides_a_scope_at_its_start() {
    let mut ids = IdGenerator::new();
    let mut table = SymbolTable::new("f.py".to_string(), u32::MAX, Id(1));
    let scope = scope_at(0, 0, &mut ids);
    let id = scope.id;
    table.push_scope(scope);
    table.exit_scope();
    assert_eq!(table.innermost_scope_at(5), Some(0));
    let later = scope_at(7, 0, &mut ids);
    let later_id = later.id;
    table.push_scope(later);
    table.exit_scope();
    assert_eq!(table.innermost_scope_at(5), Some(0));
    assert_eq!(table.innermost_scope_at(7), Some(later_id));
    assert_ne!(id, later_id);
}
