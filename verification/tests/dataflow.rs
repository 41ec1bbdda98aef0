use fnscan::dataflow::{extract_parameters, find_accessible_data, Parameter};
use fnscan::parser::syntax_tree;
use fnscan::syntax::SyntaxNode;

fn parameter(name: &str, type_text: &str) -> Parameter {
    Parameter { name: name.to_string(), type_text: type_text.to_string() }
}

fn node(kind: &str, field: Option<&str>, start: usize, end: usize, children: Vec<SyntaxNode>) -> SyntaxNode {
    SyntaxNode {
        kind: kind.to_string(),
        field: field.map(|name| name.to_string()),
        start,
        end,
        children,
    }
}

#[test]
fn empty_function() {
    let data = find_accessible_data("f1", "fn f1() { }");
    assert!(matches!(data, Ok(v) if v.is_empty()));
}

#[test]
fn single_primitive() {
    let data = find_accessible_data("f1", "fn f1(x: u32) { }");
    assert!(matches!(data, Ok(v) if v == vec![Parameter{name: "x".to_string(), type_text:"u32".to_string()}]));
}

#[test]
fn multiple_arguments() {
    let data = find_accessible_data("f1", "fn f1(x: u32, f: bool) { }");
    assert!(matches!(data, Ok(v) if v == vec![
        Parameter{name: "x".to_string(), type_text: "u32".to_string()},
        Parameter{name: "f".to_string(), type_text: "bool".to_string()},
    ]));
}

#[test]
fn absent_function_gives_no_parameters() {
    let data = find_accessible_data("f2", "fn f1(x: u32) { }");
    assert_eq!(data, Ok(vec![]));
}

#[test]
fn empty_source_gives_no_parameters() {
    assert_eq!(find_accessible_data("f1", ""), Ok(vec![]));
}

#[test]
fn first_definition_of_a_name_counts() {
    let code = "fn f1(a: u8) { } fn f1(b: u16, c: u32) { }";
    assert_eq!(find_accessible_data("f1", code), Ok(vec![parameter("a", "u8")]));
}

#[test]
fn nested_function_is_not_searched() {
    let code = "fn outer(a: u8) { fn inner(b: u16) { } }";
    assert_eq!(find_accessible_data("inner", code), Ok(vec![]));
    assert_eq!(find_accessible_data("outer", code), Ok(vec![parameter("a", "u8")]));
}

#[test]
fn receiver_is_no_declared_parameter() {
    let code = "fn get(self, index: usize) -> u8 { 0 }";
    assert_eq!(find_accessible_data("get", code), Ok(vec![parameter("index", "usize")]));
}

#[test]
fn pattern_and_type_are_source_text() {
    let code = "fn f((a, b): (u8, u8), mut v: Vec<String>, r: &'static str) { }";
    assert_eq!(
        find_accessible_data("f", code),
        Ok(vec![
            parameter("(a, b)", "(u8, u8)"),
            parameter("v", "Vec<String>"),
            parameter("r", "&'static str"),
        ])
    );
}

#[test]
fn text_beyond_ascii_is_sliced_by_bytes() {
    let code = "// héllo wörld\nfn größe(länge: u32) { }";
    assert_eq!(find_accessible_data("größe", code), Ok(vec![parameter("länge", "u32")]));
}

#[test]
fn second_function_is_found() {
    let code = "fn f1(x: u32) { } fn f2(y: i64, z: bool) { }";
    assert_eq!(
        find_accessible_data("f2", code),
        Ok(vec![parameter("y", "i64"), parameter("z", "bool")])
    );
}

#[test]
fn repeated_extraction_gives_the_same_parameters() {
    let code = "fn f1(x: u32, f: bool) { }";
    assert_eq!(find_accessible_data("f1", code), find_accessible_data("f1", code));
}

#[test]
fn extraction_agrees_with_the_tree() {
    let code = "fn f1(x: u32, f: bool) { }";
    let root = syntax_tree(code).unwrap();
    assert_eq!(Ok(extract_parameters(&root, code, "f1")), find_accessible_data("f1", code));
}

// The tree of `fn f1(x: u32) { }`, cut down to what the extraction reads.
fn small_tree() -> SyntaxNode {
    let x = node("identifier", Some("pattern"), 6, 7, vec![]);
    let u32_type = node("primitive_type", Some("type"), 9, 12, vec![]);
    let param = node("parameter", None, 6, 12, vec![x, node(":", None, 7, 8, vec![]), u32_type]);
    let params = node(
        "parameters",
        Some("parameters"),
        5,
        13,
        vec![node("(", None, 5, 6, vec![]), param, node(")", None, 12, 13, vec![])],
    );
    let name = node("identifier", Some("name"), 3, 5, vec![]);
    let body = node("block", Some("body"), 14, 17, vec![]);
    let function = node("function_item", None, 0, 17, vec![node("fn", None, 0, 2, vec![]), name, params, body]);
    node("source_file", None, 0, 17, vec![function])
}

#[test]
fn parameters_of_a_tree_written_by_hand() {
    let code = "fn f1(x: u32) { }";
    assert_eq!(extract_parameters(&small_tree(), code, "f1"), vec![parameter("x", "u32")]);
    assert_eq!(extract_parameters(&small_tree(), code, "f2"), vec![]);
}

#[test]
fn function_without_parameter_list_has_no_parameters() {
    let name = node("identifier", Some("name"), 3, 5, vec![]);
    let function = node("function_item", None, 0, 5, vec![name]);
    let root = node("source_file", None, 0, 5, vec![function]);
    assert_eq!(extract_parameters(&root, "fn f1", "f1"), vec![]);
}

#[test]
fn parameter_without_type_is_skipped() {
    let a = node("identifier", Some("pattern"), 6, 7, vec![]);
    let lonely = node("parameter", None, 6, 7, vec![a]);
    let b = node("identifier", Some("pattern"), 9, 10, vec![]);
    let b_type = node("primitive_type", Some("type"), 12, 14, vec![]);
    let whole = node("parameter", None, 9, 14, vec![b, b_type]);
    let params = node("parameters", Some("parameters"), 5, 15, vec![lonely, whole]);
    let name = node("identifier", Some("name"), 3, 5, vec![]);
    let function = node("function_item", None, 0, 15, vec![name, params]);
    let root = node("source_file", None, 0, 15, vec![function]);
    assert_eq!(extract_parameters(&root, "fn f1(a, b: u8)", "f1"), vec![parameter("b", "u8")]);
}

#[test]
fn parameter_with_a_span_outside_the_text_is_skipped() {
    let a = node("identifier", Some("pattern"), 6, 7, vec![]);
    let a_type = node("primitive_type", Some("type"), 9, 40, vec![]);
    let broken = node("parameter", None, 6, 40, vec![a, a_type]);
    let params = node("parameters", Some("parameters"), 5, 12, vec![broken]);
    let name = node("identifier", Some("name"), 3, 5, vec![]);
    let function = node("function_item", None, 0, 12, vec![name, params]);
    let root = node("source_file", None, 0, 12, vec![function]);
    assert_eq!(extract_parameters(&root, "fn f1(a: u8)", "f1"), vec![]);
}

#[test]
fn function_without_name_is_passed_over() {
    let nameless = node("function_item", None, 0, 2, vec![]);
    let name = node("identifier", Some("name"), 3, 5, vec![]);
    let named = node("function_item", None, 3, 5, vec![name]);
    let root = node("source_file", None, 0, 5, vec![nameless, named]);
    assert_eq!(extract_parameters(&root, "fn f1", "f1"), vec![]);
    assert_eq!(extract_parameters(&root, "fn f1", "fn"), vec![]);
}

#[test]
fn bodies_do_not_change_the_parameters() {
    let with_calls = "fn f1(x: u32) { foo(bar(x)); } fn f2(a: bool, b: u8) { f1(1); baz(); }";
    let without_calls = "fn f1(x: u32) { } fn f2(a: bool, b: u8) { let c = a; }";
    for name in ["f1", "f2", "f3", "foo"] {
        assert_eq!(find_accessible_data(name, with_calls), find_accessible_data(name, without_calls));
    }
    assert_eq!(
        find_accessible_data("f2", with_calls),
        Ok(vec![parameter("a", "bool"), parameter("b", "u8")])
    );
}

#[test]
fn parameters_go_by_the_texts_of_pattern_and_type() {
    // Two trees over different texts, alike in the name and in the texts
    // of the parameter; the second holds a body and lies further right.
    let first = small_tree();
    let x = node("identifier", Some("pattern"), 10, 11, vec![]);
    let u32_type = node("primitive_type", Some("type"), 13, 16, vec![]);
    let param = node("parameter", None, 10, 16, vec![x, u32_type]);
    let params = node("parameters", Some("parameters"), 9, 17, vec![param]);
    let name = node("identifier", Some("name"), 7, 9, vec![]);
    let call = node("call_expression", None, 20, 25, vec![node("identifier", Some("function"), 20, 23, vec![])]);
    let body = node("block", Some("body"), 18, 27, vec![call]);
    let function = node("function_item", None, 4, 27, vec![name, params, body]);
    let second = node("source_file", None, 0, 27, vec![function]);
    let second_text = "    fn f1(x: u32) { foo() }";
    assert_eq!(
        extract_parameters(&first, "fn f1(x: u32) { }", "f1"),
        extract_parameters(&second, second_text, "f1")
    );
    assert_eq!(extract_parameters(&second, second_text, "f1"), vec![parameter("x", "u32")]);
}
