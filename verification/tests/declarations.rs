use enderpy_python_parser::ast::{Arg, Arguments, ClassDef, FunctionDef};
use std::sync::Arc;
use symbol_table::{
    Alias, AsyncFunction, Class, Declaration, DeclarationPath, Function, Id, Node, Parameter,
    SymbolFlags, SymbolTableNode, TypeAlias, TypeParameter, Variable,
};

fn path_at(start: u32) -> DeclarationPath {
    DeclarationPath::new(Id(2), Node::new(start, start + 4), 1)
}

fn class_node(name: &str) -> Arc<ClassDef> {
    Arc::new(ClassDef {
        node: enderpy_python_parser::ast::Node::new(0, 0),
        name: name.to_string(),
        bases: vec![],
        keywords: vec![],
        body: vec![],
        decorator_list: vec![],
    })
}

fn function_node(name: &str) -> Arc<FunctionDef> {
    let nowhere = enderpy_python_parser::ast::Node::new(0, 0);
    Arc::new(FunctionDef {
        node: nowhere,
        name: name.to_string(),
        args: Arguments {
            node: nowhere,
            posonlyargs: vec![],
            args: vec![],
            vararg: None,
            kwonlyargs: vec![],
            kw_defaults: vec![],
            kwarg: None,
            defaults: vec![],
        },
        body: vec![],
        decorator_list: vec![],
        returns: None,
        type_comment: None,
    })
}

fn variable_at(start: u32) -> Declaration {
    Declaration::Variable(Variable {
        declaration_path: path_at(start),
        type_annotation: None,
        inferred_type_source: None,
        is_constant: false,
        for_target: None,
    })
}

fn class_at(start: u32) -> Declaration {
    Declaration::Class(Class::new("m".to_string(), class_node("K"), path_at(start), 5, "K"))
}

fn one_of_each_kind() -> Vec<Declaration> {
    vec![
        variable_at(1),
        Declaration::Function(Function {
            declaration_path: path_at(2),
            function_node: function_node("f"),
            is_method: false,
            is_generator: false,
            return_statements: vec![],
            yield_statements: vec![],
            raise_statements: vec![],
        }),
        Declaration::AsyncFunction(AsyncFunction {
            declaration_path: path_at(3),
            function_node: function_node("g"),
            is_method: false,
            is_generator: true,
            return_statements: vec![],
            yield_statements: vec![],
            raise_statements: vec![],
        }),
        class_at(4),
        Declaration::Alias(Alias {
            declaration_path: path_at(5),
            import_from_node: None,
            import_node: None,
            symbol_name: Some("baz".to_string()),
            module_name: None,
            import_result: None,
        }),
        Declaration::Parameter(Parameter {
            declaration_path: path_at(6),
            parameter_node: Arg {
                node: enderpy_python_parser::ast::Node::new(6, 10),
                arg: "self".to_string(),
                annotation: None,
            },
            type_annotation: None,
            default_value: None,
            is_first: true,
        }),
        Declaration::TypeParameter(TypeParameter { declaration_path: path_at(7) }),
        Declaration::TypeAlias(TypeAlias { declaration_path: path_at(8) }),
    ]
}

fn history(declarations: Vec<Declaration>) -> SymbolTableNode {
    SymbolTableNode { name: "v".to_string(), declarations, flags: SymbolFlags::empty() }
}

fn start_of(found: Option<&Declaration>) -> Option<u32> {
    found.map(|declaration| declaration.declaration_path().node.start)
}

#[test]
fn declaration_path_keeps_what_it_is_given() {
    let path = DeclarationPath::new(Id(7), Node::new(3, 9), 12);
    assert_eq!(path.symbol_table_id, Id(7));
    assert_eq!(path.node, Node { start: 3, end: 9 });
    assert_eq!(path.scope_id, 12);
    assert_eq!(path, DeclarationPath { symbol_table_id: Id(7), node: Node::new(3, 9), scope_id: 12 });
}

#[test]
fn declaration_path_of_each_kind() {
    for (place, declaration) in one_of_each_kind().iter().enumerate() {
        assert_eq!(*declaration.declaration_path(), path_at(place as u32 + 1));
    }
}

#[test]
fn each_kind_knows_itself() {
    let kinds = one_of_each_kind();
    let answers: Vec<Vec<bool>> = kinds
        .iter()
        .map(|declaration| {
            vec![
                declaration.is_variable(),
                declaration.is_function(),
                declaration.is_async_function(),
                declaration.is_class(),
                declaration.is_alias(),
                declaration.is_parameter(),
                declaration.is_type_parameter(),
                declaration.is_type_alias(),
            ]
        })
        .collect();
    for (row, answer) in answers.iter().enumerate() {
        for (column, yes) in answer.iter().enumerate() {
            assert_eq!(*yes, row == column);
        }
    }
}

#[test]
fn class_has_its_qualified_name() {
    let node = class_node("Shape");
    let class = Class::new("geometry.plane".to_string(), node.clone(), path_at(30), 4, "Shape");
    assert_eq!(class.name, "Shape");
    assert_eq!(class.qual_name, "geometry.plane.Shape");
    assert!(!class.special);
    assert!(Arc::ptr_eq(class.class_node.as_ref().unwrap(), &node));
    assert_eq!(class.class_scope_id, 4);
    assert_eq!(class.declaration_path, path_at(30));
    let bare = Class::new(String::new(), node, path_at(30), 4, "");
    assert_eq!(bare.qual_name, ".");
}

#[test]
fn special_class_counts_to_builtins() {
    let class = Class::new_special("Union".to_string(), path_at(2), 9);
    assert_eq!(class.name, "Union");
    assert_eq!(class.qual_name, "builtins.Union");
    assert!(class.special);
    assert!(class.class_node.is_none());
    assert_eq!(class.class_scope_id, 9);
    assert_eq!(class.declaration_path, path_at(2));
}

#[test]
fn add_declaration_appends() {
    let mut node = history(vec![variable_at(10)]);
    node.add_declaration(variable_at(5));
    node.add_declaration(class_at(7));
    assert_eq!(node.declarations.len(), 3);
    assert_eq!(node.last_declaration().declaration_path().node.start, 7);
    assert!(node.last_declaration().is_class());
    assert_eq!(node.declarations[0].declaration_path().node.start, 10);
}

#[test]
fn nothing_is_declared_before_the_first_declaration() {
    let node = history(vec![variable_at(10), variable_at(20)]);
    assert!(node.declaration_until_position(10).is_none());
    assert!(node.declaration_until_position(0).is_none());
    assert!(node.declaration_until_position(3).is_none());
    assert!(history(vec![]).declaration_until_position(u32::MAX).is_none());
}

#[test]
fn the_latest_declaration_before_a_position_is_seen() {
    let node = history(vec![variable_at(30), variable_at(10), variable_at(20)]);
    assert_eq!(start_of(node.declaration_until_position(11)), Some(10));
    assert_eq!(start_of(node.declaration_until_position(20)), Some(10));
    assert_eq!(start_of(node.declaration_until_position(21)), Some(20));
    assert_eq!(start_of(node.declaration_until_position(30)), Some(20));
    assert_eq!(start_of(node.declaration_until_position(31)), Some(30));
    assert_eq!(start_of(node.declaration_until_position(u32::MAX)), Some(30));
}

#[test]
fn of_declarations_at_one_offset_the_last_is_seen() {
    let node = history(vec![variable_at(10), class_at(10), variable_at(4), one_of_each_kind().remove(7)]);
    let found = node.declaration_until_position(50).unwrap();
    assert!(found.is_class());
    let found = node.declaration_until_position(9).unwrap();
    assert!(found.is_type_alias());
    assert_eq!(found.declaration_path().node.start, 8);
}

#[test]
fn the_first_declaration_that_starts_at_or_before_a_position() {
    let node = history(vec![variable_at(30), variable_at(10), variable_at(20)]);
    assert_eq!(start_of(node.get_declaration_until_pos(9)), None);
    assert_eq!(start_of(node.get_declaration_until_pos(10)), Some(10));
    assert_eq!(start_of(node.get_declaration_until_pos(25)), Some(10));
    assert_eq!(start_of(node.get_declaration_until_pos(30)), Some(30));
    assert_eq!(start_of(node.get_declaration_until_pos(u32::MAX)), Some(30));
    assert!(history(vec![]).get_declaration_until_pos(5).is_none());
}

#[test]
fn a_class_is_seen_from_every_position() {
    let node = history(vec![variable_at(30), class_at(40), variable_at(10)]);
    assert_eq!(start_of(node.get_declaration_until_pos(0)), Some(40));
    assert_eq!(start_of(node.get_declaration_until_pos(20)), Some(40));
    assert_eq!(start_of(node.get_declaration_until_pos(35)), Some(30));
    assert!(node.declaration_until_position(5).is_none());
    assert_eq!(start_of(node.declaration_until_position(20)), Some(10));
}
