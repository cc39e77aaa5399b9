use nls_completion::{
    CompletionItem, CompletionItemKind, CompletionProvider, Import, Module, NodeId, Symbol,
    SymbolKind, SymbolTable,
};

fn variable(ident: &str, pos: usize, type_desc: &str) -> Symbol {
    Symbol {
        ident: ident.to_string(),
        pos,
        kind: SymbolKind::Variable { type_desc: type_desc.to_string() },
    }
}

fn constant(ident: &str, pos: usize, type_desc: &str) -> Symbol {
    Symbol {
        ident: ident.to_string(),
        pos,
        kind: SymbolKind::Constant { type_desc: type_desc.to_string() },
    }
}

fn function(ident: &str, pos: usize, name: &str, type_desc: &str) -> Symbol {
    Symbol {
        ident: ident.to_string(),
        pos,
        kind: SymbolKind::Function { type_desc: type_desc.to_string(), name: name.to_string() },
    }
}

fn type_def(ident: &str, pos: usize) -> Symbol {
    Symbol {
        ident: ident.to_string(),
        pos,
        kind: SymbolKind::Type { type_desc: "struct".to_string() },
    }
}

fn module_at(scope_id: NodeId, imports: &[(&str, &str)]) -> Module {
    Module {
        ident: "main".to_string(),
        scope_id,
        dependencies: imports
            .iter()
            .map(|(alias, target)| Import {
                as_name: alias.to_string(),
                module_ident: target.to_string(),
            })
            .collect(),
    }
}

fn labels(items: &[CompletionItem]) -> Vec<String> {
    items.iter().map(|item| item.label.clone()).collect()
}

/// Root scope 1 (unbounded) with constant `x` at 5; block scope 2 `[10,20)`
/// with variable `y` at 12.
fn nested_block() -> (SymbolTable, Module) {
    let mut table = SymbolTable::new();
    let root = table.create_scope(0, 0, 0).unwrap();
    let block = table.create_scope(root, 10, 20).unwrap();
    table.define_symbol(root, constant("x", 5, "int")).unwrap();
    table.define_symbol(block, variable("y", 12, "string")).unwrap();
    (table, module_at(root, &[]))
}

/// Module `main` importing `pkg.util` as `foo`; `pkg.util` declares the
/// variable `bar`, the constant `baz` and the variable `qux`.
fn with_import() -> (SymbolTable, Module) {
    let mut table = SymbolTable::new();
    let root = table.create_scope(0, 0, 0).unwrap();
    let util = table.create_scope(0, 0, 0).unwrap();
    table.define_symbol(util, variable("bar", 10, "int")).unwrap();
    table.define_symbol(util, constant("baz", 20, "string")).unwrap();
    table.define_symbol(util, variable("qux", 30, "bool")).unwrap();
    table.register_module("pkg.util".to_string(), util);
    (table, module_at(root, &[("foo", "pkg.util")]))
}

#[test]
fn nested_block_sees_its_own_and_the_outer_declarations() {
    let (table, module) = nested_block();
    let provider = CompletionProvider::new(&table, &module);
    let items = provider.get_completions(15, "               ");
    assert_eq!(labels(&items), vec!["x", "y"]);
    assert_eq!(items[0].kind, CompletionItemKind::Constant);
    assert_eq!(items[0].detail.as_deref(), Some("const: int"));
    assert_eq!(items[0].insert_text, "x");
    assert_eq!(items[0].sort_text.as_deref(), Some("00000005"));
    assert_eq!(items[0].documentation, None);
    assert_eq!(items[1].kind, CompletionItemKind::Variable);
    assert_eq!(items[1].detail.as_deref(), Some("var: string"));
    assert_eq!(items[1].insert_text, "y");
    assert_eq!(items[1].sort_text.as_deref(), Some("00000012"));
    assert_eq!(items[1].documentation, None);
}

#[test]
fn outside_the_block_its_declarations_are_not_visible() {
    let (table, module) = nested_block();
    let provider = CompletionProvider::new(&table, &module);
    assert_eq!(labels(&provider.get_completions(25, "")), vec!["x"]);
    assert_eq!(labels(&provider.get_completions(20, "")), vec!["x"]);
}

#[test]
fn variable_is_not_offered_at_or_before_its_declaration() {
    let (table, module) = nested_block();
    let provider = CompletionProvider::new(&table, &module);
    assert_eq!(labels(&provider.get_completions(11, "")), vec!["x"]);
    assert_eq!(labels(&provider.get_completions(12, "")), vec!["x"]);
    assert_eq!(labels(&provider.get_completions(13, "")), vec!["x", "y"]);
    assert!(provider.get_completions(5, "").is_empty());
    assert!(provider.get_completions(0, "").is_empty());
    assert_eq!(labels(&provider.get_completions(6, "")), vec!["x"]);
}

#[test]
fn typed_prefix_filters_the_candidates() {
    let mut table = SymbolTable::new();
    let root = table.create_scope(0, 0, 0).unwrap();
    table.define_symbol(root, variable("count", 1, "int")).unwrap();
    table.define_symbol(root, variable("counter", 2, "int")).unwrap();
    table.define_symbol(root, variable("total", 3, "int")).unwrap();
    let module = module_at(root, &[]);
    let provider = CompletionProvider::new(&table, &module);
    let text = "let a = cou";
    assert_eq!(labels(&provider.get_completions(11, text)), vec!["count", "counter"]);
    assert_eq!(labels(&provider.get_completions(10, text)), vec!["count", "counter"]);
    assert_eq!(labels(&provider.get_completions(8, text)), vec!["count", "counter", "total"]);
    assert!(provider.get_completions(11, "let a = cox").is_empty());
}

#[test]
fn functions_and_types_are_no_local_candidates() {
    let mut table = SymbolTable::new();
    let root = table.create_scope(0, 0, 0).unwrap();
    table.define_symbol(root, function("run", 1, "run", "fn():void")).unwrap();
    table.define_symbol(root, type_def("record", 2)).unwrap();
    table.define_symbol(root, variable("rate", 3, "float")).unwrap();
    let module = module_at(root, &[]);
    let provider = CompletionProvider::new(&table, &module);
    assert_eq!(labels(&provider.get_completions(50, "")), vec!["rate"]);
}

#[test]
fn qualified_access_lists_the_members_that_match() {
    let (table, module) = with_import();
    let provider = CompletionProvider::new(&table, &module);
    let items = provider.get_completions(6, "foo.ba");
    assert_eq!(labels(&items), vec!["bar", "baz"]);
    assert_eq!(items[0].kind, CompletionItemKind::Variable);
    assert_eq!(items[0].detail.as_deref(), Some("var: int"));
    assert_eq!(items[1].kind, CompletionItemKind::Constant);
    assert_eq!(items[1].detail.as_deref(), Some("const: string"));
    assert_eq!(items[1].insert_text, "baz");
    assert_eq!(items[1].sort_text.as_deref(), Some("00000020"));
}

#[test]
fn qualified_access_leaves_out_members_that_do_not_match() {
    let (table, module) = with_import();
    let provider = CompletionProvider::new(&table, &module);
    assert_eq!(labels(&provider.get_completions(7, "foo.baz")), vec!["baz"]);
    assert_eq!(labels(&provider.get_module_member_completions("foo", "baz")), vec!["baz"]);
    assert_eq!(labels(&provider.get_module_member_completions("foo", "q")), vec!["qux"]);
    assert!(provider.get_module_member_completions("foo", "bat").is_empty());
}

#[test]
fn qualified_access_with_an_empty_member_lists_all_members() {
    let (table, module) = with_import();
    let provider = CompletionProvider::new(&table, &module);
    assert_eq!(labels(&provider.get_completions(4, "foo.")), vec!["bar", "baz", "qux"]);
    assert_eq!(
        labels(&provider.get_module_member_completions("foo", "")),
        vec!["bar", "baz", "qux"]
    );
}

#[test]
fn qualified_access_is_found_inside_a_line() {
    let (table, module) = with_import();
    let provider = CompletionProvider::new(&table, &module);
    assert_eq!(labels(&provider.get_completions(14, "let a = foo.ba")), vec!["bar", "baz"]);
    assert_eq!(labels(&provider.get_completions(14, "let a = foo.ba + 1")), vec!["bar", "baz"]);
}

#[test]
fn unknown_alias_gives_nothing() {
    let mut table = SymbolTable::new();
    let root = table.create_scope(0, 0, 0).unwrap();
    table.define_symbol(root, variable("foo", 1, "int")).unwrap();
    let module = module_at(root, &[]);
    let provider = CompletionProvider::new(&table, &module);
    assert!(provider.get_completions(7, "foo.bar").is_empty());
    assert!(provider.get_module_member_completions("foo", "bar").is_empty());
    assert!(provider.get_module_member_completions("foo", "").is_empty());
}

#[test]
fn unregistered_module_gives_nothing() {
    let mut table = SymbolTable::new();
    let root = table.create_scope(0, 0, 0).unwrap();
    let module = module_at(root, &[("foo", "pkg.missing")]);
    let provider = CompletionProvider::new(&table, &module);
    assert!(provider.get_completions(4, "foo.").is_empty());
    assert!(provider.get_module_member_completions("foo", "").is_empty());
}

#[test]
fn module_registered_with_a_missing_scope_gives_nothing() {
    let mut table = SymbolTable::new();
    let root = table.create_scope(0, 0, 0).unwrap();
    table.register_module("pkg.util".to_string(), 99);
    let module = module_at(root, &[("foo", "pkg.util")]);
    let provider = CompletionProvider::new(&table, &module);
    assert!(provider.get_module_member_completions("foo", "").is_empty());
}

#[test]
fn module_members_do_not_depend_on_the_position() {
    let (table, module) = with_import();
    let provider = CompletionProvider::new(&table, &module);
    let reference = labels(&provider.get_completions(6, "foo.ba"));
    assert_eq!(reference, vec!["bar", "baz"]);
    for (position, text) in [
        (6, "foo.ba and more"),
        (7, " foo.ba"),
        (14, "let a = foo.ba"),
        (31, "                         foo.ba"),
    ] {
        assert_eq!(labels(&provider.get_completions(position, text)), reference);
    }
}

#[test]
fn module_members_are_offered_whatever_their_offset() {
    let mut table = SymbolTable::new();
    let root = table.create_scope(0, 0, 0).unwrap();
    let util = table.create_scope(0, 0, 0).unwrap();
    table.define_symbol(util, variable("late", 100000, "int")).unwrap();
    table.register_module("pkg.util".to_string(), util);
    let module = module_at(root, &[("u", "pkg.util")]);
    let provider = CompletionProvider::new(&table, &module);
    assert_eq!(labels(&provider.get_completions(3, "u.l")), vec!["late"]);
}

#[test]
fn module_members_of_every_kind() {
    let mut table = SymbolTable::new();
    let root = table.create_scope(0, 0, 0).unwrap();
    let util = table.create_scope(0, 0, 0).unwrap();
    table.define_symbol(util, variable("pkg.writer", 1, "Writer")).unwrap();
    table.define_symbol(util, constant("pkg.limit", 2, "int")).unwrap();
    table.define_symbol(util, function("pkg.open", 3, "open", "fn(string):File")).unwrap();
    table.define_symbol(util, type_def("pkg.file", 4)).unwrap();
    table.register_module("pkg".to_string(), util);
    let module = module_at(root, &[("p", "pkg")]);
    let provider = CompletionProvider::new(&table, &module);
    let items = provider.get_module_member_completions("p", "");
    assert_eq!(labels(&items), vec!["file", "limit", "open", "writer"]);
    assert_eq!(items[0].kind, CompletionItemKind::Variable);
    assert_eq!(items[0].detail.as_deref(), Some("type definition"));
    assert_eq!(items[0].insert_text, "file");
    assert_eq!(items[0].sort_text.as_deref(), Some("00000004"));
    assert_eq!(items[1].kind, CompletionItemKind::Constant);
    assert_eq!(items[1].detail.as_deref(), Some("const: int"));
    assert_eq!(items[2].kind, CompletionItemKind::Function);
    assert_eq!(items[2].detail.as_deref(), Some("fn: fn(string):File"));
    assert_eq!(items[2].insert_text, "open");
    assert_eq!(items[3].kind, CompletionItemKind::Variable);
    assert_eq!(items[3].detail.as_deref(), Some("var: Writer"));
    assert_eq!(items[3].insert_text, "writer");
    assert_eq!(items[3].documentation, None);
}

#[test]
fn members_that_start_with_the_prefix_come_first() {
    let mut table = SymbolTable::new();
    let root = table.create_scope(0, 0, 0).unwrap();
    let util = table.create_scope(0, 0, 0).unwrap();
    // identifiers all start with "pk"; the labels are what follows the dot
    table.define_symbol(util, variable("pkg.alpha", 1, "int")).unwrap();
    table.define_symbol(util, variable("pkzip", 2, "int")).unwrap();
    table.define_symbol(util, variable("pkg.zeta", 3, "int")).unwrap();
    table.define_symbol(util, variable("pk", 4, "int")).unwrap();
    table.define_symbol(util, variable("other", 5, "int")).unwrap();
    table.register_module("pkg".to_string(), util);
    let module = module_at(root, &[("p", "pkg")]);
    let provider = CompletionProvider::new(&table, &module);
    let items = provider.get_module_member_completions("p", "pk");
    assert_eq!(labels(&items), vec!["pk", "pkzip", "alpha", "zeta"]);
    let first_other = items.iter().position(|item| !item.label.starts_with("pk")).unwrap();
    assert!(items[first_other..].iter().all(|item| !item.label.starts_with("pk")));
}

#[test]
fn shadowed_name_is_listed_once() {
    let mut table = SymbolTable::new();
    let root = table.create_scope(0, 0, 0).unwrap();
    let outer = table.create_scope(root, 10, 100).unwrap();
    let inner = table.create_scope(outer, 20, 90).unwrap();
    let innermost = table.create_scope(inner, 30, 80).unwrap();
    table.define_symbol(root, variable("value", 1, "int")).unwrap();
    table.define_symbol(outer, variable("value", 11, "string")).unwrap();
    table.define_symbol(inner, variable("other", 21, "bool")).unwrap();
    table.define_symbol(innermost, constant("value", 31, "float")).unwrap();
    let module = module_at(root, &[]);
    let provider = CompletionProvider::new(&table, &module);
    let items = provider.get_completions(50, "");
    assert_eq!(labels(&items), vec!["other", "value"]);
    // the declaration that is met first on the way up is the one kept
    assert_eq!(items[1].detail.as_deref(), Some("const: float"));
    assert_eq!(items[1].sort_text.as_deref(), Some("00000031"));
    let items = provider.get_completions(25, "");
    assert_eq!(labels(&items), vec!["other", "value"]);
    assert_eq!(items[1].detail.as_deref(), Some("var: string"));
}

#[test]
fn same_name_twice_in_one_scope_keeps_the_earlier() {
    let mut table = SymbolTable::new();
    let root = table.create_scope(0, 0, 0).unwrap();
    table.define_symbol(root, variable("v", 7, "first")).unwrap();
    table.define_symbol(root, variable("v", 3, "second")).unwrap();
    let module = module_at(root, &[]);
    let provider = CompletionProvider::new(&table, &module);
    let items = provider.get_completions(10, "");
    assert_eq!(items.len(), 1);
    assert_eq!(items[0].detail.as_deref(), Some("var: first"));
}

#[test]
fn stale_symbol_reference_is_passed_over() {
    let mut table = SymbolTable::new();
    let root = table.create_scope(0, 0, 0).unwrap();
    let a = table.define_symbol(root, variable("a", 1, "int")).unwrap();
    table.define_symbol(root, variable("b", 2, "int")).unwrap();
    table.register_module("self".to_string(), root);
    table.remove_symbol(a);
    let module = module_at(root, &[("me", "self")]);
    let provider = CompletionProvider::new(&table, &module);
    assert_eq!(labels(&provider.get_completions(10, "")), vec!["b"]);
    assert_eq!(labels(&provider.get_module_member_completions("me", "")), vec!["b"]);
}

#[test]
fn answer_is_capped_at_fifty() {
    let mut table = SymbolTable::new();
    let root = table.create_scope(0, 0, 0).unwrap();
    for i in 0..120usize {
        // declared in descending order of their names
        table.define_symbol(root, variable(&format!("v{:03}", 119 - i), i, "int")).unwrap();
    }
    table.register_module("self".to_string(), root);
    let module = module_at(root, &[("me", "self")]);
    let provider = CompletionProvider::new(&table, &module);
    let expected: Vec<String> = (0..50).map(|i| format!("v{:03}", i)).collect();
    assert_eq!(labels(&provider.get_completions(1000, "")), expected);
    assert_eq!(labels(&provider.get_completions(1001, &format!("{:>1001}", "v"))), expected);
    assert_eq!(labels(&provider.get_module_member_completions("me", "v")), expected);
    assert_eq!(provider.get_completions(1002, &format!("{:>1002}", "v1")).len(), 20);
    assert_eq!(provider.get_completions(1002, &format!("{:>1002}", "v0")).len(), 50);
}

#[test]
fn answer_holds_no_label_twice() {
    let mut table = SymbolTable::new();
    let root = table.create_scope(0, 0, 0).unwrap();
    let block = table.create_scope(root, 0, 500).unwrap();
    for i in 0..30usize {
        table.define_symbol(root, variable(&format!("n{}", i % 10), i, "int")).unwrap();
        table.define_symbol(block, constant(&format!("n{}", i % 7), 100 + i, "int")).unwrap();
    }
    let module = module_at(root, &[]);
    let provider = CompletionProvider::new(&table, &module);
    let items = provider.get_completions(400, "");
    let mut seen = labels(&items);
    assert_eq!(seen.len(), 10);
    seen.dedup();
    assert_eq!(seen.len(), 10);
}

#[test]
fn same_query_twice_gives_the_same_answer() {
    let (table, module) = nested_block();
    let provider = CompletionProvider::new(&table, &module);
    let first = provider.get_completions(15, "");
    let second = provider.get_completions(15, "");
    assert_eq!(format!("{:?}", first), format!("{:?}", second));
    let (table, module) = with_import();
    let provider = CompletionProvider::new(&table, &module);
    let first = provider.get_completions(6, "foo.ba");
    let second = CompletionProvider::new(&table, &module).get_completions(6, "foo.ba");
    assert_eq!(format!("{:?}", first), format!("{:?}", second));
}

#[test]
fn position_beyond_the_text_completes_with_an_empty_prefix() {
    let (table, module) = nested_block();
    let provider = CompletionProvider::new(&table, &module);
    assert_eq!(labels(&provider.get_completions(15, "y")), vec!["x", "y"]);
    assert_eq!(labels(&provider.get_completions(15, "zzz")), vec!["x", "y"]);
}

#[test]
fn module_with_a_missing_scope_gives_nothing() {
    let mut table = SymbolTable::new();
    let root = table.create_scope(0, 0, 0).unwrap();
    table.define_symbol(root, variable("a", 1, "int")).unwrap();
    let module = module_at(7, &[]);
    let provider = CompletionProvider::new(&table, &module);
    assert!(provider.get_completions(10, "").is_empty());
    let module = module_at(0, &[]);
    let provider = CompletionProvider::new(&table, &module);
    assert!(provider.get_completions(10, "").is_empty());
}

#[test]
fn innermost_scope_is_found_by_descent() {
    let mut table = SymbolTable::new();
    let root = table.create_scope(0, 0, 0).unwrap();
    let first = table.create_scope(root, 10, 50).unwrap();
    let second = table.create_scope(root, 60, 90).unwrap();
    let nested = table.create_scope(first, 20, 30).unwrap();
    let deep = table.create_scope(nested, 22, 25).unwrap();
    let module = module_at(root, &[]);
    let provider = CompletionProvider::new(&table, &module);
    assert_eq!(provider.find_innermost_scope(root, 5), root);
    assert_eq!(provider.find_innermost_scope(root, 10), first);
    assert_eq!(provider.find_innermost_scope(root, 19), first);
    assert_eq!(provider.find_innermost_scope(root, 20), nested);
    assert_eq!(provider.find_innermost_scope(root, 22), deep);
    assert_eq!(provider.find_innermost_scope(root, 24), deep);
    assert_eq!(provider.find_innermost_scope(root, 25), nested);
    assert_eq!(provider.find_innermost_scope(root, 30), first);
    assert_eq!(provider.find_innermost_scope(root, 50), root);
    assert_eq!(provider.find_innermost_scope(root, 75), second);
    assert_eq!(provider.find_innermost_scope(root, 90), root);
    assert_eq!(provider.find_innermost_scope(root, 100000), root);
}

#[test]
fn innermost_scope_of_a_start_that_does_not_hold_the_position() {
    let mut table = SymbolTable::new();
    let root = table.create_scope(0, 0, 0).unwrap();
    let block = table.create_scope(root, 10, 50).unwrap();
    let nested = table.create_scope(block, 20, 30).unwrap();
    let module = module_at(root, &[]);
    let provider = CompletionProvider::new(&table, &module);
    assert_eq!(provider.find_innermost_scope(block, 5), block);
    assert_eq!(provider.find_innermost_scope(block, 60), block);
    assert_eq!(provider.find_innermost_scope(block, 25), nested);
    assert_eq!(provider.find_innermost_scope(nested, 25), nested);
    assert_eq!(provider.find_innermost_scope(0, 25), 0);
    assert_eq!(provider.find_innermost_scope(44, 25), 44);
}

#[test]
fn unbounded_child_is_not_entered() {
    let mut table = SymbolTable::new();
    let root = table.create_scope(0, 0, 0).unwrap();
    let open = table.create_scope(root, 10, 0).unwrap();
    let module = module_at(root, &[]);
    let provider = CompletionProvider::new(&table, &module);
    assert_eq!(provider.find_innermost_scope(root, 15), root);
    assert_eq!(provider.find_innermost_scope(open, 15), open);
}

#[test]
fn first_of_two_overlapping_children_is_entered() {
    let mut table = SymbolTable::new();
    let root = table.create_scope(0, 0, 0).unwrap();
    let first = table.create_scope(root, 10, 30).unwrap();
    let second = table.create_scope(root, 20, 40).unwrap();
    let module = module_at(root, &[]);
    let provider = CompletionProvider::new(&table, &module);
    assert_eq!(provider.find_innermost_scope(root, 25), first);
    assert_eq!(provider.find_innermost_scope(root, 35), second);
}

#[test]
fn collected_candidates_go_from_the_inside_out() {
    let mut table = SymbolTable::new();
    let root = table.create_scope(0, 0, 0).unwrap();
    let block = table.create_scope(root, 10, 50).unwrap();
    table.define_symbol(root, variable("b", 1, "int")).unwrap();
    table.define_symbol(root, variable("a", 2, "int")).unwrap();
    table.define_symbol(block, variable("d", 11, "int")).unwrap();
    table.define_symbol(block, variable("c", 12, "int")).unwrap();
    table.define_symbol(block, variable("late", 40, "int")).unwrap();
    let module = module_at(root, &[]);
    let provider = CompletionProvider::new(&table, &module);
    let mut completions = Vec::new();
    provider.collect_variable_completions(block, "", &mut completions, 30);
    assert_eq!(labels(&completions), vec!["d", "c", "b", "a"]);
    provider.collect_variable_completions(root, "a", &mut completions, 30);
    assert_eq!(labels(&completions), vec!["d", "c", "b", "a", "a"]);
    provider.collect_variable_completions(0, "", &mut completions, 30);
    provider.collect_variable_completions(9, "", &mut completions, 30);
    assert_eq!(completions.len(), 5);
}

#[test]
fn local_candidate_of_a_symbol() {
    let table = SymbolTable::new();
    let module = module_at(0, &[]);
    let provider = CompletionProvider::new(&table, &module);
    let item = provider.create_completion_item(&variable("pkg.count", 42, "int"));
    assert_eq!(item.label, "pkg.count");
    assert_eq!(item.insert_text, "pkg.count");
    assert_eq!(item.kind, CompletionItemKind::Variable);
    assert_eq!(item.detail.as_deref(), Some("var: int"));
    assert_eq!(item.sort_text.as_deref(), Some("00000042"));
    assert_eq!(item.documentation, None);
    let item = provider.create_completion_item(&constant("LIMIT", 7, "u8"));
    assert_eq!(item.kind, CompletionItemKind::Constant);
    assert_eq!(item.detail.as_deref(), Some("const: u8"));
    let item = provider.create_completion_item(&function("run", 9, "run", "fn()"));
    assert_eq!(item.label, "run");
    assert_eq!(item.kind, CompletionItemKind::Variable);
    assert_eq!(item.detail, None);
}

#[test]
fn member_candidate_of_a_symbol() {
    let table = SymbolTable::new();
    let module = module_at(0, &[]);
    let provider = CompletionProvider::new(&table, &module);
    let item = provider.create_module_completion_member(&variable("io.main.writer", 3, "Writer"));
    assert_eq!(item.label, "writer");
    assert_eq!(item.insert_text, "writer");
    assert_eq!(item.detail.as_deref(), Some("var: Writer"));
    assert_eq!(item.sort_text.as_deref(), Some("00000003"));
    let item = provider.create_module_completion_member(&function("io.print", 4, "print", "fn(string)"));
    assert_eq!(item.label, "print");
    assert_eq!(item.kind, CompletionItemKind::Function);
    assert_eq!(item.detail.as_deref(), Some("fn: fn(string)"));
    let item = provider.create_module_completion_member(&type_def("io.File", 5));
    assert_eq!(item.label, "File");
    assert_eq!(item.kind, CompletionItemKind::Variable);
    assert_eq!(item.detail.as_deref(), Some("type definition"));
}
