use fnscan::parser::{syntax_tree, AnalysisError};
use fnscan::syntax::{assemble, lists_a_tree, NodeRecord, SyntaxNode};

fn leaf(kind: &str, field: Option<&str>, start: usize, end: usize) -> SyntaxNode {
    inner(kind, field, start, end, vec![])
}

fn inner(kind: &str, field: Option<&str>, start: usize, end: usize, children: Vec<SyntaxNode>) -> SyntaxNode {
    SyntaxNode {
        kind: kind.to_string(),
        field: field.map(|name| name.to_string()),
        start,
        end,
        children,
    }
}

fn record(kind: &str, field: Option<&str>, start: usize, end: usize, depth: u32) -> NodeRecord {
    NodeRecord {
        kind: kind.to_string(),
        field: field.map(|name| name.to_string()),
        start,
        end,
        depth,
    }
}

fn plain(depth: u32) -> NodeRecord {
    record("node", None, 0, 0, depth)
}

fn depths(list: &[u32]) -> Vec<NodeRecord> {
    list.iter().map(|depth| plain(*depth)).collect()
}

fn count(node: &SyntaxNode) -> usize {
    1 + node.children.iter().map(count).sum::<usize>()
}

#[test]
fn tree_of_an_empty_function() {
    let expected = inner(
        "source_file",
        None,
        0,
        11,
        vec![inner(
            "function_item",
            None,
            0,
            11,
            vec![
                leaf("fn", None, 0, 2),
                leaf("identifier", Some("name"), 3, 5),
                inner(
                    "parameters",
                    Some("parameters"),
                    5,
                    7,
                    vec![leaf("(", None, 5, 6), leaf(")", None, 6, 7)],
                ),
                inner("block", Some("body"), 8, 11, vec![leaf("{", None, 8, 9), leaf("}", None, 10, 11)]),
            ],
        )],
    );
    assert_eq!(syntax_tree("fn f1() { }"), Ok(expected));
}

#[test]
fn tree_of_a_call_holds_the_function_field() {
    let root = syntax_tree("fn f1() { foo(1); }").unwrap();
    let function = &root.children[0];
    let body = function.child_by_field("body").unwrap();
    assert_eq!(body.kind, "block");
    let statement = &body.children[1];
    assert_eq!(statement.kind, "expression_statement");
    let call = &statement.children[0];
    assert!(call.has_kind("call_expression"));
    let callee = call.child_by_field("function").unwrap();
    assert_eq!((callee.start, callee.end), (10, 13));
    assert_eq!(callee.text("fn f1() { foo(1); }"), Some("foo"));
    assert!(callee.stands_under("function"));
    assert!(!callee.stands_under("arguments"));
    assert_eq!(call.child_by_field("arguments").unwrap().kind, "arguments");
    assert_eq!(call.child_by_field("name"), None);
}

#[test]
fn tree_of_empty_text_is_a_lone_root() {
    assert_eq!(syntax_tree(""), Ok(leaf("source_file", None, 0, 0)));
}

#[test]
fn trees_of_the_parser_are_well_formed() {
    let sources = [
        "",
        "fn f1() { }",
        "fn f1(x: u32, f: bool) { foo(bar(x), f); }",
        "// héllo\nstruct S { a: u8 }\nimpl S { fn get(&self) -> u8 { self.a } }",
        "fn broken( { foo(; } fn",
        "mod m { pub fn f() -> Vec<String> { vec![] } }",
    ];
    for source in sources {
        assert!(syntax_tree(source).unwrap().is_well_formed());
    }
}

#[test]
fn large_source_is_read_node_by_node() {
    let mut code = String::new();
    for index in 0..200 {
        code.push_str(&format!("fn f{index}(a: u32) {{ g{index}(a); }}\n"));
    }
    let root = syntax_tree(&code).unwrap();
    assert_eq!(root.children.len(), 200);
    assert_eq!(root.children[199].child_by_field("name").unwrap().text(&code), Some("f199"));
    assert!(count(&root) > 200 * 10);
    assert!(root.is_well_formed());
}

#[test]
fn first_child_under_a_field_is_found() {
    let node = inner(
        "list",
        None,
        0,
        9,
        vec![
            leaf("a", None, 0, 1),
            leaf("b", Some("item"), 2, 3),
            leaf("c", Some("item"), 4, 5),
            leaf("d", Some("last"), 6, 7),
        ],
    );
    assert_eq!(node.child_by_field("item"), Some(&node.children[1]));
    assert_eq!(node.child_by_field("last"), Some(&node.children[3]));
    assert_eq!(node.child_by_field("first"), None);
    assert_eq!(node.child_by_field(""), None);
    assert_eq!(leaf("a", None, 0, 1).child_by_field("item"), None);
}

#[test]
fn kind_and_field_are_compared_as_whole_texts() {
    let node = leaf("function_item", Some("name"), 0, 0);
    assert!(node.has_kind("function_item"));
    assert!(!node.has_kind("function"));
    assert!(!node.has_kind("function_items"));
    assert!(!node.has_kind(""));
    assert!(node.stands_under("name"));
    assert!(!node.stands_under("nam"));
    assert!(!leaf("x", None, 0, 0).stands_under(""));
}

#[test]
fn text_of_a_node_is_its_byte_range() {
    let source = "fn größe()";
    assert_eq!(leaf("identifier", None, 3, 10).text(source), Some("größe"));
    assert_eq!(leaf("identifier", None, 0, 0).text(source), Some(""));
    assert_eq!(leaf("identifier", None, 0, 12).text(source), Some(source));
    assert_eq!(leaf("identifier", None, 3, 6).text(source), None);
    assert_eq!(leaf("identifier", None, 6, 10).text(source), None);
    assert_eq!(leaf("identifier", None, 5, 3).text(source), None);
    assert_eq!(leaf("identifier", None, 3, 13).text(source), None);
}

#[test]
fn layout_of_a_tree_is_checked() {
    let good = inner("a", None, 0, 10, vec![leaf("b", None, 0, 4), leaf("c", None, 4, 4), leaf("d", None, 6, 10)]);
    assert!(good.is_well_formed());
    assert!(leaf("a", None, 3, 3).is_well_formed());
    assert!(!leaf("a", None, 4, 3).is_well_formed());
    assert!(!inner("a", None, 2, 10, vec![leaf("b", None, 1, 4)]).is_well_formed());
    assert!(!inner("a", None, 0, 10, vec![leaf("b", None, 8, 11)]).is_well_formed());
    assert!(!inner("a", None, 0, 10, vec![leaf("b", None, 0, 5), leaf("c", None, 4, 8)]).is_well_formed());
    assert!(!inner("a", None, 0, 10, vec![leaf("b", None, 5, 7), leaf("c", None, 1, 2)]).is_well_formed());
    let deep = inner("a", None, 0, 10, vec![inner("b", None, 0, 5, vec![leaf("c", None, 4, 6)])]);
    assert!(!deep.is_well_formed());
}

#[test]
fn records_are_assembled_into_their_tree() {
    let records = vec![
        record("root", None, 0, 9, 0),
        record("a", Some("left"), 0, 4, 1),
        record("b", None, 0, 2, 2),
        record("c", Some("x"), 2, 4, 2),
        record("d", Some("right"), 5, 9, 1),
        record("e", None, 5, 9, 2),
        record("f", None, 6, 8, 3),
        record("g", None, 9, 9, 1),
    ];
    let expected = inner(
        "root",
        None,
        0,
        9,
        vec![
            inner("a", Some("left"), 0, 4, vec![leaf("b", None, 0, 2), leaf("c", Some("x"), 2, 4)]),
            inner("d", Some("right"), 5, 9, vec![inner("e", None, 5, 9, vec![leaf("f", None, 6, 8)])]),
            leaf("g", None, 9, 9),
        ],
    );
    assert!(lists_a_tree(&records));
    assert_eq!(assemble(&records), Some(expected));
}

#[test]
fn single_record_is_a_lone_root() {
    let records = vec![record("root", Some("f"), 1, 2, 0)];
    assert_eq!(assemble(&records), Some(leaf("root", Some("f"), 1, 2)));
}

#[test]
fn records_that_list_no_tree_are_refused() {
    for list in [
        vec![],
        vec![1],
        vec![0, 0],
        vec![0, 2],
        vec![0, 1, 3],
        vec![0, 1, 0],
        vec![0, 1, 2, 1, 0, 1],
        vec![3],
    ] {
        let records = depths(&list);
        assert!(!lists_a_tree(&records));
        assert_eq!(assemble(&records), None);
    }
}

#[test]
fn records_that_list_a_tree_are_accepted() {
    for (list, nodes_below_root) in [
        (vec![0], 0),
        (vec![0, 1], 1),
        (vec![0, 1, 1, 1], 3),
        (vec![0, 1, 2, 3, 4], 1),
        (vec![0, 1, 2, 2, 1, 2, 3, 1], 3),
    ] {
        let records = depths(&list);
        assert!(lists_a_tree(&records));
        let tree = assemble(&records).unwrap();
        assert_eq!(tree.children.len(), nodes_below_root);
        assert_eq!(count(&tree), list.len());
    }
}

#[test]
fn failures_name_the_stage() {
    assert_eq!(AnalysisError::GrammarLoad.message(), "Failed to load Rust grammar");
    assert_eq!(AnalysisError::Parse.message(), "Failed to parse source code");
}
