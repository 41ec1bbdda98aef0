//! The data that a function has at hand: the parameters it declares.

use crate::parser::{parsed_tree, syntax_tree, AnalysisError};
use crate::syntax::{field_child, lemma_child_view, node_text, NodeView, SyntaxNode};
use crate::text::same_text;
use vstd::prelude::*;
use vstd::utf8::is_ascii_chars;

verus! {

/// What a [`Parameter`] stands for.
pub struct ParameterView {
    /// The source text of the pattern that binds the parameter.
    pub name: Seq<char>,
    /// The source text of the declared type.
    pub type_text: Seq<char>,
}

/// A declared parameter of a function, as the source text writes it.
#[derive(Debug, Clone, PartialEq, Eq)]
pub struct Parameter {
    /// The source text of the pattern that binds the parameter.
    pub name: String,
    /// The source text of the declared type.
    pub type_text: String,
}

impl View for Parameter {
    type V = ParameterView;

    open spec fn view(&self) -> ParameterView {
        ParameterView { name: self.name@, type_text: self.type_text@ }
    }
}

/// What a sequence of parameters stands for.
pub open spec fn parameters_view(parameters: Seq<Parameter>) -> Seq<ParameterView> {
    Seq::new(parameters.len(), |at: int| parameters[at]@)
}

/// Whether `node` is the definition of a function whose name reads `name`.
pub open spec fn defines_function(node: NodeView, source: Seq<char>, name: Seq<char>) -> bool {
    node.kind == "function_item"@ && match field_child(node, "name"@) {
        Some(declared) => node_text(declared, source) == Some(name),
        None => false,
    }
}

/// Whether `index` is the place of the first of `nodes` that defines a
/// function named `name`.
pub open spec fn is_first_definition(
    nodes: Seq<NodeView>,
    source: Seq<char>,
    name: Seq<char>,
    index: int,
) -> bool {
    &&& 0 <= index < nodes.len()
    &&& defines_function(nodes[index], source, name)
    &&& forall|earlier: int|
        0 <= earlier < index ==> !defines_function(#[trigger] nodes[earlier], source, name)
}

/// The parameter that `node` declares, where it is a parameter whose pattern
/// and type can both be read.
pub open spec fn declared_parameter(node: NodeView, source: Seq<char>) -> Option<ParameterView> {
    if node.kind == "parameter"@ {
        match (field_child(node, "pattern"@), field_child(node, "type"@)) {
            (Some(pattern), Some(declared_type)) => match (
                node_text(pattern, source),
                node_text(declared_type, source),
            ) {
                (Some(name), Some(type_text)) => Some(ParameterView { name, type_text }),
                _ => None,
            },
            _ => None,
        }
    } else {
        None
    }
}

/// The parameters that `nodes` declare, in order.
pub open spec fn parameters_among(nodes: Seq<NodeView>, source: Seq<char>) -> Seq<ParameterView>
    decreases nodes.len(),
{
    if nodes.len() == 0 {
        Seq::empty()
    } else {
        match declared_parameter(nodes.last(), source) {
            Some(parameter) => parameters_among(nodes.drop_last(), source).push(parameter),
            None => parameters_among(nodes.drop_last(), source),
        }
    }
}

/// The parameters that the function definition `function` declares: those
/// of its parameter list, or none where it has no such list.
pub open spec fn declared_parameters(function: NodeView, source: Seq<char>) -> Seq<ParameterView> {
    match field_child(function, "parameters"@) {
        Some(list) => parameters_among(list.children, source),
        None => Seq::empty(),
    }
}

/// The parameters of the first function named `name` among the children of
/// `root`, or none where no child defines such a function.
pub open spec fn parameters_of(root: NodeView, source: Seq<char>, name: Seq<char>) -> Seq<
    ParameterView,
> {
    if exists|index: int| is_first_definition(root.children, source, name, index) {
        let index = choose|index: int| is_first_definition(root.children, source, name, index);
        declared_parameters(root.children[index], source)
    } else {
        Seq::empty()
    }
}

/// Whether `node` is the definition of a function whose name reads `name`.
fn is_definition_of(node: &SyntaxNode, source: &str, name: &str) -> (held: bool)
    ensures
        held == defines_function(node@, source@, name@),
{
    if node.has_kind("function_item") {
        match node.child_by_field("name") {
            Some(declared) => match declared.text(source) {
                Some(text) => same_text(text, name),
                None => false,
            },
            None => false,
        }
    } else {
        false
    }
}

/// The parameter that `node` declares, where it is a parameter whose pattern
/// and type can both be read.
fn read_parameter(node: &SyntaxNode, source: &str) -> (parameter: Option<Parameter>)
    ensures
        parameter matches Some(read) ==> declared_parameter(node@, source@) == Some(read@),
        parameter is None ==> declared_parameter(node@, source@) is None,
{
    if !node.has_kind("parameter") {
        return None;
    }
    let pattern = match node.child_by_field("pattern") {
        Some(pattern) => pattern,
        None => {
            return None;
        },
    };
    let declared_type = match node.child_by_field("type") {
        Some(declared_type) => declared_type,
        None => {
            return None;
        },
    };
    match (pattern.text(source), declared_type.text(source)) {
        (Some(name), Some(type_text)) => Some(
            Parameter { name: name.to_owned(), type_text: type_text.to_owned() },
        ),
        _ => None,
    }
}

/// The parameters that the function definition `function` declares, in the
/// order of declaration.
fn read_parameters(function: &SyntaxNode, source: &str) -> (parameters: Vec<Parameter>)
    ensures
        parameters_view(parameters@) == declared_parameters(function@, source@),
{
    let mut parameters: Vec<Parameter> = Vec::new();
    let list = match function.child_by_field("parameters") {
        Some(list) => list,
        None => {
            assert(parameters_view(parameters@) =~= Seq::<ParameterView>::empty());
            return parameters;
        },
    };
    let mut index: usize = 0;
    assert(list@.children.take(0) =~= Seq::<NodeView>::empty());
    while index < list.children.len()
        invariant
            index <= list.children.len(),
            list@.children.len() == list.children.len(),
            parameters_view(parameters@) =~= parameters_among(
                list@.children.take(index as int),
                source@,
            ),
        decreases list.children.len() - index,
    {
        proof {
            lemma_child_view(*list, index as int);
            assert(list@.children.take(index + 1).drop_last() =~= list@.children.take(
                index as int,
            ));
        }
        let ghost before = parameters@;
        match read_parameter(&list.children[index], source) {
            Some(parameter) => {
                parameters.push(parameter);
                assert(parameters_view(parameters@) =~= parameters_view(before).push(
                    parameter@,
                ));
            },
            None => {},
        }
        index = index + 1;
    }
    assert(list@.children.take(index as int) =~= list@.children);
    parameters
}

/// The declared parameters of the function `function_name`, in the order of
/// declaration. Only the children of `root` are searched, and the first
/// definition of that name counts. Where there is none, the function has no
/// parameters to show: the result is empty.
pub fn extract_parameters(root: &SyntaxNode, source: &str, function_name: &str) -> (parameters:
    Vec<Parameter>)
    ensures
        parameters_view(parameters@) == parameters_of(root@, source@, function_name@),
{
    let mut index: usize = 0;
    while index < root.children.len()
        invariant
            index <= root.children.len(),
            root@.children.len() == root.children.len(),
            forall|earlier: int|
                0 <= earlier < index ==> !defines_function(
                    #[trigger] root@.children[earlier],
                    source@,
                    function_name@,
                ),
        decreases root.children.len() - index,
    {
        proof {
            lemma_child_view(*root, index as int);
        }
        if is_definition_of(&root.children[index], source, function_name) {
            proof {
                assert(is_first_definition(
                    root@.children,
                    source@,
                    function_name@,
                    index as int,
                ));
                let chosen = choose|at: int|
                    is_first_definition(root@.children, source@, function_name@, at);
                assert(chosen == index);
            }
            return read_parameters(&root.children[index], source);
        }
        index = index + 1;
    }
    let parameters: Vec<Parameter> = Vec::new();
    assert(parameters_view(parameters@) =~= Seq::<ParameterView>::empty());
    parameters
}

/// A function that no child of the root defines has no parameters to show.
pub proof fn lemma_absent_function_has_no_parameters(
    root: NodeView,
    source: Seq<char>,
    name: Seq<char>,
)
    requires
        forall|at: int|
            0 <= at < root.children.len() ==> !defines_function(
                #[trigger] root.children[at],
                source,
                name,
            ),
    ensures
        parameters_of(root, source, name) == Seq::<ParameterView>::empty(),
{
}

/// The text of the first child of `node` under the field `name`, where
/// there is such a child and its text can be read.
pub open spec fn field_text(node: NodeView, name: Seq<char>, source: Seq<char>) -> Option<
    Seq<char>,
> {
    match field_child(node, name) {
        Some(child) => node_text(child, source),
        None => None,
    }
}

/// What a node declares as a parameter goes by its kind and by the texts of
/// its pattern and its type: two nodes that agree in these declare the same
/// parameter or none, wherever they stand and whatever else they hold.
pub proof fn lemma_parameter_goes_by_its_texts(
    first: NodeView,
    first_source: Seq<char>,
    second: NodeView,
    second_source: Seq<char>,
)
    requires
        first.kind == second.kind,
        field_text(first, "pattern"@, first_source) == field_text(
            second,
            "pattern"@,
            second_source,
        ),
        field_text(first, "type"@, first_source) == field_text(second, "type"@, second_source),
    ensures
        declared_parameter(first, first_source) == declared_parameter(second, second_source),
{
}

/// What a row of nodes declares goes by what each node declares: two rows
/// of the same length whose nodes declare the same, place by place, declare
/// the same parameters in the same order.
pub proof fn lemma_parameters_go_by_each_parameter(
    first: Seq<NodeView>,
    first_source: Seq<char>,
    second: Seq<NodeView>,
    second_source: Seq<char>,
)
    requires
        first.len() == second.len(),
        forall|at: int|
            0 <= at < first.len() ==> declared_parameter(#[trigger] first[at], first_source)
                == declared_parameter(second[at], second_source),
    ensures
        parameters_among(first, first_source) == parameters_among(second, second_source),
    decreases first.len(),
{
    if first.len() > 0 {
        assert(declared_parameter(first[first.len() - 1], first_source) == declared_parameter(
            second[second.len() - 1],
            second_source,
        ));
        assert forall|at: int| 0 <= at < first.drop_last().len() implies declared_parameter(
            #[trigger] first.drop_last()[at],
            first_source,
        ) == declared_parameter(second.drop_last()[at], second_source) by {
            assert(first.drop_last()[at] == first[at]);
            assert(second.drop_last()[at] == second[at]);
        }
        lemma_parameters_go_by_each_parameter(
            first.drop_last(),
            first_source,
            second.drop_last(),
            second_source,
        );
    }
}

/// Whether two nodes are alike in what the search for the function `name`
/// reads of them: both define a function of that name or neither does, and
/// where they do, they declare the same parameters.
pub open spec fn same_signature(
    first: NodeView,
    first_source: Seq<char>,
    second: NodeView,
    second_source: Seq<char>,
    name: Seq<char>,
) -> bool {
    &&& defines_function(first, first_source, name) == defines_function(
        second,
        second_source,
        name,
    )
    &&& defines_function(first, first_source, name) ==> declared_parameters(first, first_source)
        == declared_parameters(second, second_source)
}

/// The parameters of a function go by the signatures of the items at the
/// top of the tree: two trees whose top items are alike in name and
/// declared parameters, place by place, show the same parameters for the
/// function `name`, whatever the bodies of their functions hold.
pub proof fn lemma_parameters_go_by_signatures(
    first: NodeView,
    first_source: Seq<char>,
    second: NodeView,
    second_source: Seq<char>,
    name: Seq<char>,
)
    requires
        first.children.len() == second.children.len(),
        forall|at: int|
            0 <= at < first.children.len() ==> same_signature(
                #[trigger] first.children[at],
                first_source,
                second.children[at],
                second_source,
                name,
            ),
    ensures
        parameters_of(first, first_source, name) == parameters_of(second, second_source, name),
{
    if exists|index: int| is_first_definition(first.children, first_source, name, index) {
        let index = choose|index: int|
            is_first_definition(first.children, first_source, name, index);
        assert(same_signature(
            first.children[index],
            first_source,
            second.children[index],
            second_source,
            name,
        ));
        assert forall|earlier: int| 0 <= earlier < index implies !defines_function(
            #[trigger] second.children[earlier],
            second_source,
            name,
        ) by {
            assert(same_signature(
                first.children[earlier],
                first_source,
                second.children[earlier],
                second_source,
                name,
            ));
        }
        assert(is_first_definition(second.children, second_source, name, index));
        let other = choose|other: int|
            is_first_definition(second.children, second_source, name, other);
        assert(other == index);
    } else {
        assert forall|index: int| !is_first_definition(
            second.children,
            second_source,
            name,
            index,
        ) by {
            if is_first_definition(second.children, second_source, name, index) {
                assert forall|earlier: int| 0 <= earlier < index implies !defines_function(
                    #[trigger] first.children[earlier],
                    first_source,
                    name,
                ) by {
                    assert(same_signature(
                        first.children[earlier],
                        first_source,
                        second.children[earlier],
                        second_source,
                        name,
                    ));
                }
                assert(same_signature(
                    first.children[index],
                    first_source,
                    second.children[index],
                    second_source,
                    name,
                ));
                assert(is_first_definition(first.children, first_source, name, index));
            }
        }
    }
}

/// The declared parameters of the function `name` in the Rust source text
/// `code` of ASCII characters: those that its syntax tree shows, or the
/// failure for which it has none.
pub open spec fn parameters_in(code: Seq<char>, name: Seq<char>) -> Result<
    Seq<ParameterView>,
    AnalysisError,
> {
    match parsed_tree(code) {
        Ok(root) => Ok(parameters_of(root, code, name)),
        Err(failure) => Err(failure),
    }
}

/// The declared parameters of the function `function_name` in the Rust
/// source text `code`, in the order of declaration: what
/// [`extract_parameters`] finds in the syntax tree of the text. A text
/// without such a function gives no parameters; a text without a syntax
/// tree gives the failure of the parser. For a text of ASCII characters the
/// outcome is the one that the text has; for any other text the parameters
/// are those of some tree, which the parser may choose by the locale of the
/// process.
///
/// The tree is built by one call within the other for each level of
/// nesting, so a text that nests deeper than the stack of the thread has
/// room for ends the process.
pub fn find_accessible_data(function_name: &str, code: &str) -> (data: Result<
    Vec<Parameter>,
    AnalysisError,
>)
    ensures
        is_ascii_chars(code@) ==> match data {
            Ok(parameters) => parameters_in(code@, function_name@) == Ok::<
                Seq<ParameterView>,
                AnalysisError,
            >(parameters_view(parameters@)),
            Err(failure) => parameters_in(code@, function_name@) == Err::<
                Seq<ParameterView>,
                AnalysisError,
            >(failure),
        },
        data matches Ok(parameters) ==> exists|root: NodeView|
            parameters_view(parameters@) == #[trigger] parameters_of(
                root,
                code@,
                function_name@,
            ),
{
    match syntax_tree(code) {
        Ok(root) => {
            let parameters = extract_parameters(&root, code, function_name);
            assert(parameters_view(parameters@) == parameters_of(root@, code@, function_name@));
            Ok(parameters)
        },
        Err(failure) => Err(failure),
    }
}

/// Two extractions for one function name in one source text of ASCII
/// characters end alike: with the same failure, or with the same parameters
/// in the same order.
pub proof fn lemma_same_text_same_parameters(
    first: Result<Vec<Parameter>, AnalysisError>,
    second: Result<Vec<Parameter>, AnalysisError>,
    name: Seq<char>,
    code: Seq<char>,
)
    requires
        is_ascii_chars(code),
        match first {
            Ok(parameters) => parameters_in(code, name) == Ok::<Seq<ParameterView>, AnalysisError>(
                parameters_view(parameters@),
            ),
            Err(failure) => parameters_in(code, name) == Err::<Seq<ParameterView>, AnalysisError>(
                failure,
            ),
        },
        match second {
            Ok(parameters) => parameters_in(code, name) == Ok::<Seq<ParameterView>, AnalysisError>(
                parameters_view(parameters@),
            ),
            Err(failure) => parameters_in(code, name) == Err::<Seq<ParameterView>, AnalysisError>(
                failure,
            ),
        },
    ensures
        match (first, second) {
            (Ok(one), Ok(other)) => parameters_view(one@) == parameters_view(other@),
            (Err(one), Err(other)) => one == other,
            _ => false,
        },
{
}

/// Two source texts of ASCII characters that both have a syntax tree, and
/// whose top items are alike in name and declared parameters, place by
/// place, show the same parameters for the function `name`, whatever the
/// bodies of their functions hold.
pub proof fn lemma_bodies_do_not_change_parameters(
    first_code: Seq<char>,
    second_code: Seq<char>,
    name: Seq<char>,
)
    requires
        is_ascii_chars(first_code),
        is_ascii_chars(second_code),
        parsed_tree(first_code) is Ok,
        parsed_tree(second_code) is Ok,
        parsed_tree(first_code)->Ok_0.children.len() == parsed_tree(
            second_code,
        )->Ok_0.children.len(),
        forall|at: int|
            0 <= at < parsed_tree(first_code)->Ok_0.children.len() ==> same_signature(
                #[trigger] parsed_tree(first_code)->Ok_0.children[at],
                first_code,
                parsed_tree(second_code)->Ok_0.children[at],
                second_code,
                name,
            ),
    ensures
        parameters_in(first_code, name) == parameters_in(second_code, name),
{
    lemma_parameters_go_by_signatures(
        parsed_tree(first_code)->Ok_0,
        first_code,
        parsed_tree(second_code)->Ok_0,
        second_code,
        name,
    );
}

} // verus!
