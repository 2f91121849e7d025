use enderpy_python_parser::ast::{Arguments, ClassDef, FunctionDef};
use std::sync::Arc;
use symbol_table::{
    get_id, Declaration, DeclarationPath, Id, IdGenerator, Node, SymbolFlags, SymbolTable,
    SymbolTableNode, SymbolTableScope, SymbolTableType, TypeAlias,
};

fn class_kind(name: &str) -> SymbolTableType {
    SymbolTableType::Class(Arc::new(ClassDef {
        node: enderpy_python_parser::ast::Node::new(0, 0),
        name: name.to_string(),
        bases: vec![],
        keywords: vec![],
        body: vec![],
        decorator_list: vec![],
    }))
}

fn function_kind(name: &str) -> SymbolTableType {
    let nowhere = enderpy_python_parser::ast::Node::new(0, 0);
    SymbolTableType::Function(Arc::new(FunctionDef {
        node: nowhere,
        name: name.to_string(),
        args: Arguments {
            node: nowhere,
            posonlyargs: vec![],
            args: vec![],
            vararg: None,
            kwonlyargs: vec![],
            kw_defaults: vec![],
            kwarg: None,
            defaults: vec![],
        },
        body: vec![],
        decorator_list: vec![],
        returns: None,
        type_comment: None,
    }))
}

fn plain_entry(name: &str, start: u32) -> SymbolTableNode {
    SymbolTableNode {
        name: name.to_string(),
        declarations: vec![Declaration::TypeAlias(TypeAlias {
            declaration_path: DeclarationPath::new(Id(0), Node::new(start, start + 1), 0),
        })],
        flags: SymbolFlags::empty(),
    }
}

/// A table with a class at 10, a method in it at 20, and a function at 40.
fn nested_table(ids: &mut IdGenerator) -> (SymbolTable, u32, u32, u32) {
    let mut table = SymbolTable::new("dir/nested.py".to_string(), 100, Id(3));
    let class = SymbolTableScope::new(class_kind("C"), "C".to_string(), 10, 0, ids);
    let class_id = class.id;
    table.push_scope(class);
    let method = SymbolTableScope::new(function_kind("m"), "m".to_string(), 20, class_id, ids);
    let method_id = method.id;
    table.push_scope(method);
    table.exit_scope();
    table.exit_scope();
    let function = SymbolTableScope::new(function_kind("f"), "f".to_string(), 40, 0, ids);
    let function_id = function.id;
    table.push_scope(function);
    table.exit_scope();
    (table, class_id, method_id, function_id)
}

#[test]
fn identifiers_start_at_one_and_rise() {
    let mut ids = IdGenerator::new();
    assert_eq!(get_id(&mut ids), 1);
    assert_eq!(get_id(&mut ids), 2);
    assert_eq!(get_id(&mut ids), 3);
    let scope = SymbolTableScope::new(SymbolTableType::Module, "later".to_string(), 5, 0, &mut ids);
    assert_eq!(scope.id, 4);
    assert_eq!(get_id(&mut ids), 5);
}

#[test]
fn new_table_holds_the_global_scope_alone() {
    let table = SymbolTable::new("mod.py".to_string(), 12, Id(8));
    assert_eq!(table.id, Id(8));
    assert_eq!(table.file_path, "mod.py");
    assert_eq!(table.scopes.len(), 1);
    assert_eq!(table.current_scope_id, 0);
    assert!(table.star_imports.is_empty());
    let global = table.global_scope();
    assert_eq!(global.id, 0);
    assert_eq!(global.start_pos, 0);
    assert_eq!(global.name, "global");
    assert!(global.kind.is_module());
    assert_eq!(global.parent(), None);
    assert!(table.current_scope_type().is_module());
    assert_eq!(table.current_scope().id, 0);
}

#[test]
fn new_scope_names_its_parent() {
    let mut ids = IdGenerator::new();
    let scope = SymbolTableScope::new(class_kind("K"), "K".to_string(), 33, 7, &mut ids);
    assert_eq!(scope.id, 1);
    assert_eq!(scope.start_pos, 33);
    assert_eq!(scope.name, "K");
    assert!(scope.kind.is_class());
    assert!(!scope.kind.is_function());
    assert!(!scope.kind.is_builtin());
    assert_eq!(scope.parent(), Some(7));
    assert!(scope.lookup("anything").is_none());
}

#[test]
fn push_scope_makes_the_scope_current() {
    let mut ids = IdGenerator::new();
    let mut table = SymbolTable::new("p.py".to_string(), 50, Id(1));
    let scope = SymbolTableScope::new(function_kind("f"), "f".to_string(), 4, 0, &mut ids);
    let id = scope.id;
    table.push_scope(scope);
    assert_eq!(table.current_scope_id, id);
    assert_eq!(table.scopes.len(), 2);
    assert_eq!(table.current_scope().name, "f");
    assert!(table.current_scope_type().is_function());
}

#[test]
fn exit_scope_goes_back_to_the_parent() {
    let mut ids = IdGenerator::new();
    let mut table = SymbolTable::new("p.py".to_string(), 50, Id(1));
    let outer = SymbolTableScope::new(class_kind("A"), "A".to_string(), 4, 0, &mut ids);
    let outer_id = outer.id;
    table.push_scope(outer);
    let inner = SymbolTableScope::new(function_kind("g"), "g".to_string(), 9, outer_id, &mut ids);
    table.push_scope(inner);
    table.exit_scope();
    assert_eq!(table.current_scope_id, outer_id);
    table.exit_scope();
    assert_eq!(table.current_scope_id, 0);
    assert_eq!(table.scopes.len(), 3);
}

#[test]
fn get_scope_names_the_scope_that_starts_at_a_position() {
    let mut ids = IdGenerator::new();
    let (table, class_id, method_id, function_id) = nested_table(&mut ids);
    assert_eq!(table.get_scope(0), 0);
    assert_eq!(table.get_scope(10), class_id);
    assert_eq!(table.get_scope(20), method_id);
    assert_eq!(table.get_scope(40), function_id);
}

#[test]
fn set_scope_jumps_and_revert_scope_jumps_back() {
    let mut ids = IdGenerator::new();
    let (mut table, _class_id, method_id, _function_id) = nested_table(&mut ids);
    assert_eq!(table.current_scope_id, 0);
    table.set_scope(20);
    assert_eq!(table.current_scope_id, method_id);
    table.revert_scope();
    assert_eq!(table.current_scope_id, 0);
}

#[test]
fn only_the_last_jump_can_be_taken_back() {
    let mut ids = IdGenerator::new();
    let (mut table, class_id, _method_id, function_id) = nested_table(&mut ids);
    table.set_scope(10);
    table.set_scope(40);
    assert_eq!(table.current_scope_id, function_id);
    table.revert_scope();
    assert_eq!(table.current_scope_id, class_id);
    table.revert_scope();
    assert_eq!(table.current_scope_id, class_id);
}

#[test]
fn scopes_are_found_by_identifier() {
    let mut ids = IdGenerator::new();
    let (table, class_id, method_id, _function_id) = nested_table(&mut ids);
    assert_eq!(table.get_scope_by_id(class_id).map(|scope| scope.name.clone()), Some("C".to_string()));
    assert_eq!(table.get_scope_by_id(method_id).map(|scope| scope.start_pos), Some(20));
    assert!(table.get_scope_by_id(999).is_none());
}

#[test]
fn parent_of_a_scope() {
    let mut ids = IdGenerator::new();
    let (table, class_id, method_id, function_id) = nested_table(&mut ids);
    assert_eq!(table.get_parent_scope_of(method_id).map(|scope| scope.id), Some(class_id));
    assert_eq!(table.get_parent_scope_of(class_id).map(|scope| scope.id), Some(0));
    assert_eq!(table.get_parent_scope_of(function_id).map(|scope| scope.id), Some(0));
    assert!(table.get_parent_scope_of(0).is_none());
    let method = table.get_scope_by_id(method_id).unwrap();
    assert_eq!(table.parent_scope(method).map(|scope| scope.id), Some(class_id));
    assert!(table.parent_scope(table.global_scope()).is_none());
}

#[test]
fn parents_lead_to_the_global_scope() {
    let mut ids = IdGenerator::new();
    let (table, _class_id, method_id, _function_id) = nested_table(&mut ids);
    for start in table.scopes.iter() {
        let mut scope = start;
        let mut steps = 0;
        while let Some(parent) = table.parent_scope(scope) {
            scope = parent;
            steps += 1;
            assert!(steps <= table.scopes.len());
        }
        assert_eq!(scope.id, 0);
        if start.id != 0 {
            assert!(start.parent().is_some());
        }
    }
    let mut scope = table.get_scope_by_id(method_id).unwrap();
    let mut way = vec![scope.id];
    while let Some(parent) = table.parent_scope(scope) {
        scope = parent;
        way.push(scope.id);
    }
    assert_eq!(way, vec![method_id, 1, 0]);
}

#[test]
fn enclosing_class_of_the_current_scope() {
    let mut ids = IdGenerator::new();
    let (mut table, class_id, _method_id, _function_id) = nested_table(&mut ids);
    assert!(table.get_enclosing_class_scope().is_none());
    table.set_scope(20);
    assert_eq!(table.get_enclosing_class_scope().map(|scope| scope.id), Some(class_id));
    table.set_scope(10);
    assert_eq!(table.get_enclosing_class_scope().map(|scope| scope.id), Some(class_id));
    table.set_scope(40);
    assert!(table.get_enclosing_class_scope().is_none());
}

#[test]
fn enclosing_class_of_a_given_scope() {
    let mut ids = IdGenerator::new();
    let (table, class_id, method_id, function_id) = nested_table(&mut ids);
    assert_eq!(table.get_enclosing_class_scope_of_scope(method_id), Some(Id(class_id)));
    assert_eq!(table.get_enclosing_class_scope_of_scope(class_id), Some(Id(class_id)));
    assert_eq!(table.get_enclosing_class_scope_of_scope(function_id), None);
    assert_eq!(table.get_enclosing_class_scope_of_scope(0), None);
    assert_eq!(table.get_enclosing_class_scope_of_scope(777), None);
}

#[test]
fn scopes_can_be_changed_in_place() {
    let mut ids = IdGenerator::new();
    let (mut table, class_id, method_id, _function_id) = nested_table(&mut ids);
    table.current_scope_mut().insert(plain_entry("top", 1));
    assert!(table.lookup_attribute("top", 0).is_some());
    table.get_scope_mut_by_id(method_id).unwrap().insert(plain_entry("local", 21));
    assert!(table.lookup_attribute("local", method_id).is_some());
    assert!(table.get_scope_mut_by_id(555).is_none());
    let method = table.get_scope_by_id(method_id).unwrap().clone();
    table.parent_scope_mut(&method).unwrap().insert(plain_entry("field", 11));
    assert!(table.lookup_attribute("field", class_id).is_some());
    let global = table.global_scope().clone();
    assert!(table.parent_scope_mut(&global).is_none());
}

#[test]
fn a_copy_of_a_scope_binds_the_same_names() {
    let mut ids = IdGenerator::new();
    let mut scope = SymbolTableScope::new(SymbolTableType::Module, "m".to_string(), 1, 0, &mut ids);
    scope.insert(plain_entry("a", 2));
    scope.insert(plain_entry("b", 3));
    let copy = scope.clone();
    assert_eq!(copy.id, scope.id);
    assert_eq!(copy.lookup("a").map(|node| node.declarations.len()), Some(1));
    assert_eq!(copy.lookup("b").map(|node| node.declarations.len()), Some(1));
    assert!(copy.lookup("c").is_none());
}

#[test]
fn the_fields_can_be_read_through_methods() {
    let mut ids = IdGenerator::new();
    let (mut table, class_id, _method_id, _function_id) = nested_table(&mut ids);
    assert_eq!(table.id(), Id(3));
    assert_eq!(table.file_path(), "dir/nested.py");
    assert_eq!(table.current_scope_id(), 0);
    assert!(table.star_imports().is_empty());
    table.set_scope(10);
    assert_eq!(table.current_scope_id(), class_id);
    let class = table.current_scope();
    assert_eq!(class.id(), class_id);
    assert_eq!(class.start_pos(), 10);
    assert_eq!(class.name(), "C");
    assert!(class.kind().is_class());
    assert_eq!(table.global_scope().name(), "global");
    assert!(table.global_scope().kind().is_module());
}

#[test]
fn star_imports_are_kept_in_the_order_in_which_they_are_added() {
    let mut table = SymbolTable::new("s.py".to_string(), 10, Id(1));
    table.add_symbol(plain_entry("kept", 1));
    table.add_star_import(std::sync::Arc::new(symbol_table::ResolvedImport { resolved_ids: vec![Id(5)] }));
    table.add_star_import(std::sync::Arc::new(symbol_table::ResolvedImport { resolved_ids: vec![] }));
    table.add_star_import(std::sync::Arc::new(symbol_table::ResolvedImport { resolved_ids: vec![Id(7), Id(6)] }));
    let listed: Vec<Vec<Id>> = table.star_imports().iter().map(|import| import.resolved_ids.clone()).collect();
    assert_eq!(listed, vec![vec![Id(5)], vec![], vec![Id(7), Id(6)]]);
    assert_eq!(table.scopes.len(), 1);
    assert_eq!(table.current_scope_id, 0);
    assert!(table.lookup_in_scope("kept", 0).is_some());
    assert_eq!(table.innermost_scope_at(3), Some(0));
}

#[test]
fn a_scope_may_start_where_the_file_starts() {
    let mut ids = IdGenerator::new();
    let mut table = SymbolTable::new("first.py".to_string(), 100, Id(1));
    let class = SymbolTableScope::new(class_kind("First"), "First".to_string(), 0, 0, &mut ids);
    let class_id = class.id;
    table.push_scope(class);
    assert_eq!(table.current_scope_id, class_id);
    table.add_symbol(plain_entry("inside", 4));
    table.exit_scope();
    assert_eq!(table.current_scope_id, 0);
    assert!(table.lookup_attribute("inside", class_id).is_some());
    assert_eq!(table.get_scope(0), 0);
    table.set_scope(0);
    assert_eq!(table.current_scope_id, 0);
}
