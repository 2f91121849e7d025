use enderpy_python_parser::ast::{Arguments, ClassDef, FunctionDef};
use std::sync::Arc;
use symbol_table::dump::id_list_text;
use symbol_table::text::{decimal_text, hexadecimal_text};
use symbol_table::{
    Alias, Class, Declaration, DeclarationPath, Id, IdGenerator, Node, ResolvedImport, SymbolFlags,
    SymbolTable, SymbolTableNode, SymbolTableScope, SymbolTableType, TypeAlias, TypeParameter,
    Variable,
};

fn class_of(name: &str) -> Arc<ClassDef> {
    Arc::new(ClassDef {
        node: enderpy_python_parser::ast::Node::new(0, 0),
        name: name.to_string(),
        bases: vec![],
        keywords: vec![],
        body: vec![],
        decorator_list: vec![],
    })
}

fn function_of(name: &str) -> Arc<FunctionDef> {
    let nowhere = enderpy_python_parser::ast::Node::new(0, 0);
    Arc::new(FunctionDef {
        node: nowhere,
        name: name.to_string(),
        args: Arguments {
            node: nowhere,
            posonlyargs: vec![],
            args: vec![],
            vararg: None,
            kwonlyargs: vec![],
            kw_defaults: vec![],
            kwarg: None,
            defaults: vec![],
        },
        body: vec![],
        decorator_list: vec![],
        returns: None,
        type_comment: None,
    })
}

fn at(start: u32) -> DeclarationPath {
    DeclarationPath::new(Id(1), Node::new(start, start + 2), 0)
}

fn variable(start: u32) -> Declaration {
    Declaration::Variable(Variable {
        declaration_path: at(start),
        type_annotation: None,
        inferred_type_source: None,
        is_constant: false,
        for_target: None,
    })
}

fn class(start: u32) -> Declaration {
    Declaration::Class(Class::new("d".to_string(), class_of("a"), at(start), 0, "a"))
}

fn alias(start: u32) -> Declaration {
    Declaration::Alias(Alias {
        declaration_path: at(start),
        import_from_node: None,
        import_node: None,
        symbol_name: None,
        module_name: None,
        import_result: None,
    })
}

fn symbol(name: &str, declaration: Declaration, flags: SymbolFlags) -> SymbolTableNode {
    SymbolTableNode { name: name.to_string(), declarations: vec![declaration], flags }
}

#[test]
fn numbers_in_decimal_digits() {
    assert_eq!(decimal_text(0), "0");
    assert_eq!(decimal_text(7), "7");
    assert_eq!(decimal_text(10), "10");
    assert_eq!(decimal_text(1203), "1203");
    assert_eq!(decimal_text(u32::MAX), "4294967295");
    for n in [0u32, 1, 9, 99, 100, 101, 65535, 65536, 999_999_999, 1_000_000_000] {
        assert_eq!(decimal_text(n), n.to_string());
    }
}

#[test]
fn numbers_in_hexadecimal_digits() {
    assert_eq!(hexadecimal_text(0), "0");
    assert_eq!(hexadecimal_text(15), "f");
    assert_eq!(hexadecimal_text(16), "10");
    assert_eq!(hexadecimal_text(0xfffc), "fffc");
    assert_eq!(hexadecimal_text(0xdeadbeef), "deadbeef");
    for n in [1u32, 9, 10, 255, 256, 4095, 0xabc0, u32::MAX] {
        assert_eq!(hexadecimal_text(n), format!("{:x}", n));
    }
}

#[test]
fn identifiers_in_a_list() {
    assert_eq!(id_list_text(&vec![]), "");
    assert_eq!(id_list_text(&vec![Id(4)]), "Id(4)");
    assert_eq!(id_list_text(&vec![Id(3), Id(12), Id(0)]), "Id(3), Id(12), Id(0)");
    let ids = vec![Id(3), Id(12), Id(0)];
    assert_eq!(format!("[{}]", id_list_text(&ids)), format!("{:?}", ids));
}

#[test]
fn the_kind_of_a_declaration_in_words() {
    assert_eq!(variable(1).to_string(), "Variable");
    assert_eq!(class(1).to_string(), "Class");
    assert_eq!(alias(1).to_string(), "Alias");
    assert_eq!(Declaration::TypeParameter(TypeParameter { declaration_path: at(1) }).to_string(), "Type parameter");
    assert_eq!(Declaration::TypeAlias(TypeAlias { declaration_path: at(1) }).to_string(), "Type alias");
    let function = symbol_table::Function {
        declaration_path: at(1),
        function_node: function_of("f"),
        is_method: false,
        is_generator: false,
        return_statements: vec![],
        yield_statements: vec![],
        raise_statements: vec![],
    };
    assert_eq!(Declaration::Function(function).to_string(), "Function");
    let coroutine = symbol_table::AsyncFunction {
        declaration_path: at(1),
        function_node: function_of("f"),
        is_method: false,
        is_generator: false,
        return_statements: vec![],
        yield_statements: vec![],
        raise_statements: vec![],
    };
    assert_eq!(Declaration::AsyncFunction(coroutine).to_string(), "Async function");
    let parameter = symbol_table::Parameter {
        declaration_path: at(1),
        parameter_node: enderpy_python_parser::ast::Arg {
            node: enderpy_python_parser::ast::Node::new(1, 2),
            arg: "p".to_string(),
            annotation: None,
        },
        type_annotation: None,
        default_value: None,
        is_first: false,
    };
    assert_eq!(Declaration::Parameter(parameter).to_string(), "Parameter");
}

#[test]
fn a_declaration_path_shows_its_range() {
    assert_eq!(DeclarationPath::new(Id(1), Node::new(3, 19), 0).to_string(), "declaration at Node { start: 3, end: 19 }");
    assert_eq!(DeclarationPath::new(Id(1), Node::new(0, 0), 5).to_string(), "declaration at Node { start: 0, end: 0 }");
    let node = Node::new(120, 4_000_000_000);
    assert_eq!(DeclarationPath::new(Id(1), node, 0).to_string(), format!("declaration at {:?}", node));
}

#[test]
fn an_entry_shows_its_name_its_last_declaration_and_its_flags() {
    let mut node = symbol("x", variable(4), SymbolFlags::instance_member());
    assert_eq!(node.to_string(), "x - declaration: Variable - properties: SymbolFlags(INSTANCE_MEMBER)");
    node.add_declaration(alias(1));
    assert_eq!(node.to_string(), "x - declaration: Alias - properties: SymbolFlags(INSTANCE_MEMBER)");
}

#[test]
fn the_declarations_of_an_entry_are_listed_by_their_start() {
    let node = SymbolTableNode {
        name: "n".to_string(),
        declarations: vec![class(7), variable(7), alias(3), variable(9), class(3)],
        flags: SymbolFlags::empty(),
    };
    assert_eq!(
        node.to_block(),
        "n - declaration: Class - properties: SymbolFlags(0x0)\n\
         - Declarations:\n\
         --:   Alias\n\
         --:   Class\n\
         --:   Class\n\
         --:   Variable\n\
         --:   Variable\n"
    );
}

#[test]
fn a_scope_lists_its_symbols_by_name() {
    let mut ids = IdGenerator::new();
    let mut scope = SymbolTableScope::new(SymbolTableType::Module, "things".to_string(), 1, 0, &mut ids);
    assert_eq!(scope.to_string(), "Symbols in things\n");
    scope.insert(symbol("b", variable(5), SymbolFlags::empty()));
    scope.insert(symbol("a", class(9), SymbolFlags::empty()));
    scope.insert(symbol("B", alias(6), SymbolFlags::class_member()));
    scope.insert(symbol("a", variable(2), SymbolFlags::empty()));
    scope.insert(symbol("ab", variable(8), SymbolFlags::empty()));
    assert_eq!(
        scope.to_string(),
        "Symbols in things\n\
         B - declaration: Alias - properties: SymbolFlags(CLASS_MEMBER)\n\
         - Declarations:\n\
         --:   Alias\n\
         a - declaration: Class - properties: SymbolFlags(0x0)\n\
         - Declarations:\n\
         --:   Variable\n\
         --:   Class\n\
         ab - declaration: Variable - properties: SymbolFlags(0x0)\n\
         - Declarations:\n\
         --:   Variable\n\
         b - declaration: Variable - properties: SymbolFlags(0x0)\n\
         - Declarations:\n\
         --:   Variable\n"
    );
}

#[test]
fn a_table_lists_its_scopes_by_name() {
    let mut ids = IdGenerator::new();
    let mut table = SymbolTable::new("d.py".to_string(), 100, Id(1));
    table.add_star_import(Arc::new(ResolvedImport { resolved_ids: vec![Id(3), Id(12)] }));
    table.add_star_import(Arc::new(ResolvedImport { resolved_ids: vec![] }));
    table.add_symbol(symbol("b", variable(5), SymbolFlags::empty()));
    table.add_symbol(symbol("a", class(9), SymbolFlags::empty()));
    table.add_symbol(symbol("a", variable(2), SymbolFlags::empty()));
    let zeta = SymbolTableScope::new(SymbolTableType::Function(function_of("zeta")), "zeta".to_string(), 10, 0, &mut ids);
    table.push_scope(zeta);
    table.exit_scope();
    let alpha = SymbolTableScope::new(SymbolTableType::Class(class_of("Alpha")), "Alpha".to_string(), 30, 0, &mut ids);
    table.push_scope(alpha);
    table.add_symbol(symbol("size", variable(35), SymbolFlags::instance_member()));
    table.exit_scope();
    let mut builtins = SymbolTableScope::new(SymbolTableType::BUILTIN, "builtins".to_string(), 50, 0, &mut ids);
    builtins.insert(symbol("len", variable(51), SymbolFlags::empty()));
    table.push_scope(builtins);
    table.exit_scope();
    assert_eq!(
        table.to_string(),
        "Star imports:\n\
         [Id(3), Id(12)]\n\
         []\n\
         Symbols in Alpha\n\
         size - declaration: Variable - properties: SymbolFlags(INSTANCE_MEMBER)\n\
         - Declarations:\n\
         --:   Variable\n\
         \n\
         Symbols in global\n\
         a - declaration: Class - properties: SymbolFlags(0x0)\n\
         - Declarations:\n\
         --:   Variable\n\
         --:   Class\n\
         b - declaration: Variable - properties: SymbolFlags(0x0)\n\
         - Declarations:\n\
         --:   Variable\n\
         \n\
         Symbols in zeta\n\
         \n\
         Scopes:\n\
         \n\
         Scope Alpha\n\
         Scope global\n\
         Scope zeta\n"
    );
}

#[test]
fn scopes_of_one_name_stay_in_their_order() {
    let mut ids = IdGenerator::new();
    let mut table = SymbolTable::new("same.py".to_string(), 100, Id(1));
    let first = SymbolTableScope::new(SymbolTableType::Function(function_of("f")), "f".to_string(), 10, 0, &mut ids);
    table.push_scope(first);
    table.add_symbol(symbol("q", variable(11), SymbolFlags::empty()));
    table.exit_scope();
    let second = SymbolTableScope::new(SymbolTableType::Function(function_of("f")), "f".to_string(), 20, 0, &mut ids);
    table.push_scope(second);
    table.add_symbol(symbol("p", variable(21), SymbolFlags::empty()));
    table.exit_scope();
    assert_eq!(
        table.to_string(),
        "Symbols in f\n\
         q - declaration: Variable - properties: SymbolFlags(0x0)\n\
         - Declarations:\n\
         --:   Variable\n\
         \n\
         Symbols in f\n\
         p - declaration: Variable - properties: SymbolFlags(0x0)\n\
         - Declarations:\n\
         --:   Variable\n\
         \n\
         Symbols in global\n\
         \n\
         Scopes:\n\
         \n\
         Scope f\n\
         Scope f\n\
         Scope global\n"
    );
}

#[test]
fn the_scope_of_the_built_in_names_is_left_out_of_the_dump() {
    let mut ids = IdGenerator::new();
    let mut table = SymbolTable::new("b.py".to_string(), 10, Id(1));
    let mut builtins = SymbolTableScope::new(SymbolTableType::BUILTIN, "builtins".to_string(), 3, 0, &mut ids);
    builtins.insert(symbol("print", variable(4), SymbolFlags::empty()));
    table.push_scope(builtins);
    table.exit_scope();
    assert_eq!(table.to_string(), "Symbols in global\n\nScopes:\n\nScope global\n");
    assert!(!table.to_string().contains("builtins"));
    assert!(!table.to_string().contains("print"));
}
