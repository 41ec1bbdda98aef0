//! The call graph of a source text: which functions each function calls, in
//! the order in which the calls are found.

use crate::parser::{parsed_tree, syntax_tree, AnalysisError};
use crate::syntax::{field_child, lemma_child_view, node_text, NodeView, SyntaxNode};
use crate::text::same_text;
use vstd::prelude::*;
use vstd::utf8::is_ascii_chars;

verus! {

/// A call that was found: the function it stands in and the text of what it
/// invokes.
pub struct CallEvent {
    /// The innermost function around the call, or the empty text at file level.
    pub caller: Seq<char>,
    /// The source text of the invoked expression.
    pub callee: Seq<char>,
}

/// What one entry of a call graph stands for.
pub struct EntryView {
    /// The calling function.
    pub caller: Seq<char>,
    /// What it calls, once for each call, in the order of discovery.
    pub callees: Seq<Seq<char>>,
}

/// The function whose definition `node` is, where it is one and its name can
/// be read; else the function around it.
pub open spec fn inner_context(node: NodeView, source: Seq<char>, context: Seq<char>) -> Seq<char> {
    if node.kind == "function_item"@ {
        match field_child(node, "name"@) {
            Some(name) => match node_text(name, source) {
                Some(text) => text,
                None => context,
            },
            None => context,
        }
    } else {
        context
    }
}

/// The text of what `node` invokes, where it is a call whose invoked
/// expression can be read.
pub open spec fn callee_of(node: NodeView, source: Seq<char>) -> Option<Seq<char>> {
    if node.kind == "call_expression"@ {
        match field_child(node, "function"@) {
            Some(function) => node_text(function, source),
            None => None,
        }
    } else {
        None
    }
}

/// The calls in the subtree of `node`, which stands in the function
/// `context`: those below the node first, in source order, then the node's
/// own.
pub open spec fn call_events(node: NodeView, source: Seq<char>, context: Seq<char>) -> Seq<
    CallEvent,
>
    decreases node, node.children.len() + 1,
{
    let below = child_call_events(
        node,
        source,
        inner_context(node, source, context),
        node.children.len(),
    );
    match callee_of(node, source) {
        Some(callee) => below.push(CallEvent { caller: context, callee }),
        None => below,
    }
}

/// The calls in the subtrees of the first `count` children of `node`, which
/// stand in the function `context`.
pub open spec fn child_call_events(
    node: NodeView,
    source: Seq<char>,
    context: Seq<char>,
    count: nat,
) -> Seq<CallEvent>
    decreases node, count,
{
    if 0 < count <= node.children.len() {
        child_call_events(node, source, context, (count - 1) as nat) + call_events(
            node.children[count - 1],
            source,
            context,
        )
    } else {
        Seq::empty()
    }
}

/// The number of call expressions in the subtree of `node`.
pub open spec fn call_count(node: NodeView) -> nat
    decreases node, node.children.len() + 1,
{
    let own: nat = if node.kind == "call_expression"@ {
        1
    } else {
        0
    };
    own + child_call_count(node, node.children.len())
}

/// The number of call expressions in the subtrees of the first `count`
/// children of `node`.
pub open spec fn child_call_count(node: NodeView, count: nat) -> nat
    decreases node, count,
{
    if 0 < count <= node.children.len() {
        child_call_count(node, (count - 1) as nat) + call_count(node.children[count - 1])
    } else {
        0
    }
}

/// Every call that is found is a call expression of its own: a subtree
/// holds no more calls than call expressions.
pub proof fn lemma_calls_are_call_expressions(
    node: NodeView,
    source: Seq<char>,
    context: Seq<char>,
)
    ensures
        call_events(node, source, context).len() <= call_count(node),
    decreases node, node.children.len() + 1,
{
    lemma_child_calls_are_call_expressions(
        node,
        source,
        inner_context(node, source, context),
        node.children.len(),
    );
}

/// The subtrees of the first `count` children hold no more calls than call
/// expressions.
pub proof fn lemma_child_calls_are_call_expressions(
    node: NodeView,
    source: Seq<char>,
    context: Seq<char>,
    count: nat,
)
    ensures
        child_call_events(node, source, context, count).len() <= child_call_count(node, count),
    decreases node, count,
{
    if 0 < count <= node.children.len() {
        lemma_child_calls_are_call_expressions(node, source, context, (count - 1) as nat);
        lemma_calls_are_call_expressions(node.children[count - 1], source, context);
    }
}

/// The calls among `events` that `caller` makes, in order.
pub open spec fn callees_for(events: Seq<CallEvent>, caller: Seq<char>) -> Seq<Seq<char>>
    decreases events.len(),
{
    if events.len() == 0 {
        Seq::empty()
    } else if events.last().caller == caller {
        callees_for(events.drop_last(), caller).push(events.last().callee)
    } else {
        callees_for(events.drop_last(), caller)
    }
}

/// The callers among `events`, each once, in the order of their first call.
pub open spec fn callers_of(events: Seq<CallEvent>) -> Seq<Seq<char>>
    decreases events.len(),
{
    if events.len() == 0 {
        Seq::empty()
    } else if callers_of(events.drop_last()).contains(events.last().caller) {
        callers_of(events.drop_last())
    } else {
        callers_of(events.drop_last()).push(events.last().caller)
    }
}

/// The call graph of a sequence of calls: one entry for each caller, in the
/// order of their first call, with all that the caller calls.
pub open spec fn graph_of(events: Seq<CallEvent>) -> Seq<EntryView> {
    Seq::new(
        callers_of(events).len(),
        |at: int|
            EntryView {
                caller: callers_of(events)[at],
                callees: callees_for(events, callers_of(events)[at]),
            },
    )
}

/// Whether `index` is the place of the entry of `caller`.
pub open spec fn is_entry_of(graph: Seq<EntryView>, caller: Seq<char>, index: int) -> bool {
    0 <= index < graph.len() && graph[index].caller == caller
}

/// No caller has two entries, and every entry holds a call.
pub open spec fn well_formed(graph: Seq<EntryView>) -> bool {
    &&& forall|first: int, second: int|
        0 <= first < second < graph.len() ==> (#[trigger] graph[first]).caller != (
        #[trigger] graph[second]).caller
    &&& forall|at: int| 0 <= at < graph.len() ==> (#[trigger] graph[at]).callees.len() > 0
}

/// The graph after one more call: the callee is added to the caller's entry,
/// which is made at the end where the caller has none.
pub open spec fn recorded(graph: Seq<EntryView>, caller: Seq<char>, callee: Seq<char>) -> Seq<
    EntryView,
> {
    if exists|index: int| is_entry_of(graph, caller, index) {
        let index = choose|index: int| is_entry_of(graph, caller, index);
        graph.update(index, EntryView { caller, callees: graph[index].callees.push(callee) })
    } else {
        graph.push(EntryView { caller, callees: seq![callee] })
    }
}

/// The graph after the calls `events`, one after the other.
pub open spec fn extended(graph: Seq<EntryView>, events: Seq<CallEvent>) -> Seq<EntryView>
    decreases events.len(),
{
    if events.len() == 0 {
        graph
    } else {
        recorded(extended(graph, events.drop_last()), events.last().caller, events.last().callee)
    }
}

/// Recording the calls `first` and then the calls `second` is recording
/// the calls of both in a row.
pub proof fn lemma_extended_append(
    graph: Seq<EntryView>,
    first: Seq<CallEvent>,
    second: Seq<CallEvent>,
)
    ensures
        extended(graph, first + second) == extended(extended(graph, first), second),
    decreases second.len(),
{
    if second.len() == 0 {
        assert(first + second =~= first);
    } else {
        assert((first + second).drop_last() =~= first + second.drop_last());
        lemma_extended_append(graph, first, second.drop_last());
    }
}

/// One more call leaves a graph with one entry for each caller and a call
/// in each entry.
pub proof fn lemma_recorded_well_formed(graph: Seq<EntryView>, caller: Seq<char>, callee: Seq<char>)
    requires
        well_formed(graph),
    ensures
        well_formed(recorded(graph, caller, callee)),
{
    let after = recorded(graph, caller, callee);
    if exists|index: int| is_entry_of(graph, caller, index) {
        let index = choose|index: int| is_entry_of(graph, caller, index);
        assert forall|at: int| 0 <= at < after.len() implies (#[trigger] after[at]).caller
            == graph[at].caller && after[at].callees.len() > 0 by {}
    } else {
        assert forall|first: int, second: int| 0 <= first < second < after.len() implies (
        #[trigger] after[first]).caller != (#[trigger] after[second]).caller by {
            if second == graph.len() {
                assert(!is_entry_of(graph, caller, first));
            }
        }
    }
}

/// Whether some call among `events` is made by `caller`.
pub open spec fn calls_anything(events: Seq<CallEvent>, caller: Seq<char>) -> bool {
    exists|at: int| 0 <= at < events.len() && (#[trigger] events[at]).caller == caller
}

/// A caller is listed exactly where it makes a call, and then it has calls.
pub proof fn lemma_callers_are_those_that_call(events: Seq<CallEvent>, caller: Seq<char>)
    ensures
        callers_of(events).contains(caller) <==> calls_anything(events, caller),
        callees_for(events, caller).len() > 0 <==> calls_anything(events, caller),
    decreases events.len(),
{
    if events.len() > 0 {
        let earlier = events.drop_last();
        lemma_callers_are_those_that_call(earlier, caller);
        let listed = callers_of(earlier);
        if calls_anything(earlier, caller) {
            let at = choose|at: int| 0 <= at < earlier.len() && (#[trigger] earlier[at]).caller
                == caller;
            assert(events[at].caller == caller);
        }
        if events.last().caller == caller {
            assert(events[events.len() - 1].caller == caller);
            if !listed.contains(caller) {
                assert(listed.push(caller)[listed.len() as int] == caller);
            }
        } else {
            if calls_anything(events, caller) {
                let at = choose|at: int| 0 <= at < events.len() && (#[trigger] events[at]).caller
                    == caller;
                assert(earlier[at].caller == caller);
            }
            if !listed.contains(events.last().caller) {
                let longer = listed.push(events.last().caller);
                if listed.contains(caller) {
                    let at = choose|at: int| 0 <= at < listed.len() && listed[at] == caller;
                    assert(longer[at] == caller);
                }
                if longer.contains(caller) {
                    let at = choose|at: int| 0 <= at < longer.len() && longer[at] == caller;
                    assert(listed[at] == caller);
                }
            }
        }
    }
}

/// No caller is listed twice.
pub proof fn lemma_callers_distinct(events: Seq<CallEvent>)
    ensures
        forall|first: int, second: int|
            0 <= first < second < callers_of(events).len() ==> callers_of(events)[first]
                != callers_of(events)[second],
    decreases events.len(),
{
    if events.len() > 0 {
        lemma_callers_distinct(events.drop_last());
        let listed = callers_of(events.drop_last());
        let last = events.last().caller;
        if !listed.contains(last) {
            let longer = listed.push(last);
            assert forall|first: int, second: int|
                0 <= first < second < longer.len() implies longer[first] != longer[second] by {
                if second == listed.len() {
                    assert(listed[first] != last);
                }
            }
        }
    }
}

/// The graph of a sequence of calls has one entry for each caller and a
/// call in each entry.
pub proof fn lemma_graph_well_formed(events: Seq<CallEvent>)
    ensures
        well_formed(graph_of(events)),
{
    lemma_callers_distinct(events);
    let graph = graph_of(events);
    assert forall|at: int| 0 <= at < graph.len() implies (#[trigger] graph[at]).callees.len()
        > 0 by {
        let caller = callers_of(events)[at];
        lemma_callers_are_those_that_call(events, caller);
    }
}

/// The graph of a sequence of calls and one more is the graph of the
/// sequence with that call recorded.
pub proof fn lemma_graph_of_push(events: Seq<CallEvent>, event: CallEvent)
    ensures
        graph_of(events.push(event)) == recorded(graph_of(events), event.caller, event.callee),
{
    let longer = events.push(event);
    assert(longer.drop_last() =~= events);
    let graph = graph_of(events);
    let listed = callers_of(events);
    lemma_callers_distinct(events);
    lemma_callers_are_those_that_call(events, event.caller);
    if listed.contains(event.caller) {
        let place = choose|at: int| 0 <= at < listed.len() && listed[at] == event.caller;
        assert(is_entry_of(graph, event.caller, place));
        let index = choose|index: int| is_entry_of(graph, event.caller, index);
        assert(index == place);
        assert(graph_of(longer) =~= recorded(graph, event.caller, event.callee));
    } else {
        assert forall|index: int| !is_entry_of(graph, event.caller, index) by {
            if 0 <= index < graph.len() {
                assert(listed[index] == graph[index].caller);
            }
        }
        assert(callees_for(events, event.caller) =~= Seq::<Seq<char>>::empty());
        assert(graph_of(longer) =~= recorded(graph, event.caller, event.callee));
    }
}

/// Recording calls one after the other, from nothing, gives the graph of
/// the calls.
pub proof fn lemma_extended_is_graph(events: Seq<CallEvent>)
    ensures
        extended(Seq::empty(), events) == graph_of(events),
    decreases events.len(),
{
    if events.len() == 0 {
        assert(graph_of(events) =~= Seq::<EntryView>::empty());
    } else {
        lemma_extended_is_graph(events.drop_last());
        lemma_graph_of_push(events.drop_last(), events.last());
        assert(events.drop_last().push(events.last()) =~= events);
    }
}

/// What a caller's entry holds is what the caller calls, in order, and a
/// caller without calls has no entry.
pub proof fn lemma_entry_holds_calls_of_caller(events: Seq<CallEvent>, caller: Seq<char>)
    ensures
        calls_anything(events, caller) <==> exists|index: int|
            is_entry_of(graph_of(events), caller, index),
        forall|index: int|
            is_entry_of(graph_of(events), caller, index) ==> graph_of(events)[index].callees
                == callees_for(events, caller),
{
    lemma_callers_are_those_that_call(events, caller);
    let graph = graph_of(events);
    let listed = callers_of(events);
    if listed.contains(caller) {
        let place = choose|at: int| 0 <= at < listed.len() && listed[at] == caller;
        assert(is_entry_of(graph, caller, place));
    }
    if exists|index: int| is_entry_of(graph, caller, index) {
        let index = choose|index: int| is_entry_of(graph, caller, index);
        assert(listed[index] == caller);
    }
}

/// The texts of a sequence of strings.
pub open spec fn names_view(names: Seq<String>) -> Seq<Seq<char>> {
    Seq::new(names.len(), |at: int| names[at]@)
}

/// A caller with the calls it makes.
#[derive(Debug, PartialEq, Eq)]
pub struct CallEntry {
    caller: String,
    callees: Vec<String>,
}

impl View for CallEntry {
    type V = EntryView;

    closed spec fn view(&self) -> EntryView {
        EntryView { caller: self.caller@, callees: names_view(self.callees@) }
    }
}

/// What a sequence of entries stands for.
spec fn entries_view(entries: Seq<CallEntry>) -> Seq<EntryView> {
    Seq::new(entries.len(), |at: int| entries[at]@)
}

/// The calls of a source text, by caller: the callers stand in the order of
/// their first call, and each has what it calls in the order of discovery.
#[derive(Debug, PartialEq, Eq)]
pub struct CallGraph {
    entries: Vec<CallEntry>,
}

impl View for CallGraph {
    type V = Seq<EntryView>;

    closed spec fn view(&self) -> Seq<EntryView> {
        entries_view(self.entries@)
    }
}

impl CallGraph {
    /// Every graph has one entry for each caller, and each entry holds a call.
    #[verifier::type_invariant]
    spec fn valid(self) -> bool {
        well_formed(self@)
    }

    /// A graph without calls.
    pub fn new() -> (graph: CallGraph)
        ensures
            graph@ == Seq::<EntryView>::empty(),
            well_formed(graph@),
    {
        let graph = CallGraph { entries: Vec::new() };
        assert(graph@ =~= Seq::<EntryView>::empty());
        graph
    }

    /// The number of callers.
    pub fn len(&self) -> (count: usize)
        ensures
            count == self@.len(),
    {
        self.entries.len()
    }

    /// Whether the graph holds no call.
    pub fn is_empty(&self) -> (empty: bool)
        ensures
            empty == (self@.len() == 0),
    {
        self.entries.len() == 0
    }

    /// The caller of the entry at `index`, if there is such an entry.
    pub fn caller_at(&self, index: usize) -> (caller: Option<&str>)
        ensures
            match caller {
                Some(name) => index < self@.len() && name@ == self@[index as int].caller,
                None => index >= self@.len(),
            },
    {
        if index < self.entries.len() {
            Some(self.entries[index].caller.as_str())
        } else {
            None
        }
    }

    /// What the caller of the entry at `index` calls, if there is such an
    /// entry.
    pub fn callees_at(&self, index: usize) -> (callees: Option<&Vec<String>>)
        ensures
            match callees {
                Some(names) => index < self@.len() && names_view(names@)
                    == self@[index as int].callees,
                None => index >= self@.len(),
            },
    {
        if index < self.entries.len() {
            Some(&self.entries[index].callees)
        } else {
            None
        }
    }

    /// What `caller` calls, if it calls anything.
    pub fn callees(&self, caller: &str) -> (callees: Option<&Vec<String>>)
        ensures
            match callees {
                Some(names) => exists|index: int|
                    is_entry_of(self@, caller@, index) && names_view(names@)
                        == self@[index].callees,
                None => forall|index: int| !is_entry_of(self@, caller@, index),
            },
    {
        match self.position(caller) {
            Some(index) => {
                assert(is_entry_of(self@, caller@, index as int));
                Some(&self.entries[index].callees)
            },
            None => None,
        }
    }

    /// The place of the entry of `caller`, if it has one.
    fn position(&self, caller: &str) -> (found: Option<usize>)
        ensures
            found matches Some(index) ==> is_entry_of(self@, caller@, index as int),
            found is None ==> forall|index: int| !is_entry_of(self@, caller@, index),
    {
        let mut index: usize = 0;
        while index < self.entries.len()
            invariant
                index <= self.entries.len(),
                self@.len() == self.entries.len(),
                forall|earlier: int| 0 <= earlier < index ==> !is_entry_of(self@, caller@, earlier),
            decreases self.entries.len() - index,
        {
            if same_text(self.entries[index].caller.as_str(), caller) {
                return Some(index);
            }
            index = index + 1;
        }
        None
    }

    /// Records that `caller` calls `callee`.
    pub fn record_call(&mut self, caller: &str, callee: &str)
        ensures
            final(self)@ == recorded(old(self)@, caller@, callee@),
            well_formed(final(self)@),
    {
        proof {
            use_type_invariant(&*self);
        }
        let ghost before = self@;
        let found = self.position(caller);
        let mut taken = CallGraph::new();
        core::mem::swap(self, &mut taken);
        let mut entries = taken.entries;
        let ghost held = entries@;
        assert(before == entries_view(held));
        match found {
            Some(index) => {
                proof {
                    let chosen = choose|at: int| is_entry_of(before, caller@, at);
                    assert(chosen == index);
                }
                let ghost earlier = entries[index as int].callees@;
                entries[index].callees.push(callee.to_owned());
                assert(names_view(entries[index as int].callees@) =~= names_view(earlier).push(
                    callee@,
                ));
                assert(entries_view(entries@) =~= recorded(before, caller@, callee@));
            },
            None => {
                let mut callees: Vec<String> = Vec::new();
                callees.push(callee.to_owned());
                assert(names_view(callees@) =~= seq![callee@]);
                entries.push(CallEntry { caller: caller.to_owned(), callees });
                assert(entries_view(entries@) =~= recorded(before, caller@, callee@));
            },
        }
        proof {
            lemma_recorded_well_formed(before, caller@, callee@);
        }
        *self = CallGraph { entries };
    }
}

/// The function in which the children of `node` stand: the function that
/// `node` defines, where it defines one and its name can be read, else
/// `context`.
fn scope_name<'a>(node: &SyntaxNode, source: &'a str, context: &'a str) -> (inner: &'a str)
    ensures
        inner@ == inner_context(node@, source@, context@),
{
    if node.has_kind("function_item") {
        match node.child_by_field("name") {
            Some(name) => match name.text(source) {
                Some(text) => text,
                None => context,
            },
            None => context,
        }
    } else {
        context
    }
}

/// The text of what `node` invokes, where it is a call whose invoked
/// expression can be read.
fn invoked_name<'a>(node: &SyntaxNode, source: &'a str) -> (callee: Option<&'a str>)
    ensures
        callee matches Some(text) ==> callee_of(node@, source@) == Some(text@),
        callee is None ==> callee_of(node@, source@) is None,
{
    if node.has_kind("call_expression") {
        match node.child_by_field("function") {
            Some(function) => function.text(source),
            None => None,
        }
    } else {
        None
    }
}

/// Records the calls in the subtree of `node`, which stands in the function
/// `context`.
fn visit(node: &SyntaxNode, source: &str, context: &str, graph: &mut CallGraph)
    ensures
        final(graph)@ == extended(old(graph)@, call_events(node@, source@, context@)),
    decreases node,
{
    let ghost before = graph@;
    let inner = scope_name(node, source, context);
    let mut index: usize = 0;
    while index < node.children.len()
        invariant
            index <= node.children.len(),
            node@.children.len() == node.children.len(),
            graph@ == extended(
                before,
                child_call_events(node@, source@, inner@, index as nat),
            ),
        decreases node.children.len() - index,
    {
        let ghost so_far = child_call_events(node@, source@, inner@, index as nat);
        proof {
            lemma_child_view(*node, index as int);
            lemma_extended_append(
                before,
                so_far,
                call_events(node@.children[index as int], source@, inner@),
            );
        }
        visit(&node.children[index], source, inner, graph);
        index = index + 1;
    }
    match invoked_name(node, source) {
        Some(callee) => {
            let ghost below = child_call_events(
                node@,
                source@,
                inner@,
                node@.children.len(),
            );
            proof {
                let event = CallEvent { caller: context@, callee: callee@ };
                assert(below.push(event).drop_last() =~= below);
            }
            graph.record_call(context, callee);
        },
        None => {},
    }
}

/// The call graph of the tree below `root`, which was read from `source`:
/// the graph of the calls in the tree, the root standing in no function.
pub open spec fn call_graph_of(root: NodeView, source: Seq<char>) -> Seq<EntryView> {
    graph_of(call_events(root, source, Seq::empty()))
}

/// The call graph of the Rust source text `code` of ASCII characters: that
/// of its syntax tree, or the failure for which it has none.
pub open spec fn calls_in(code: Seq<char>) -> Result<Seq<EntryView>, AnalysisError> {
    match parsed_tree(code) {
        Ok(root) => Ok(call_graph_of(root, code)),
        Err(failure) => Err(failure),
    }
}

/// The call graph of the tree below `root`, which was read from `source`:
/// each call expression whose invoked expression can be read is recorded
/// under the innermost function definition around it, or under the empty
/// name where it stands in none. Calls in the arguments of a call come
/// before the call itself. A tree without call expressions has an empty
/// graph.
///
/// The tree is walked by one call within the other for each level of
/// nesting, so a tree that nests deeper than the stack of the thread has
/// room for ends the process.
pub fn build_call_graph(root: &SyntaxNode, source: &str) -> (graph: CallGraph)
    ensures
        graph@ == call_graph_of(root@, source@),
        well_formed(graph@),
        call_count(root@) == 0 ==> graph@.len() == 0,
{
    let mut graph = CallGraph::new();
    proof {
        reveal_strlit("");
        assert(""@ =~= Seq::<char>::empty());
    }
    visit(root, source, "", &mut graph);
    proof {
        let events = call_events(root@, source@, Seq::empty());
        lemma_extended_is_graph(events);
        lemma_graph_well_formed(events);
        lemma_calls_are_call_expressions(root@, source@, Seq::empty());
    }
    graph
}

/// The call graph of the Rust source text `code`: what
/// [`build_call_graph`] finds in the syntax tree of the text. A text
/// without a syntax tree gives the failure of the parser. For a text of
/// ASCII characters the outcome is the one that the text has; for any other
/// text the graph is that of some tree, which the parser may choose by the
/// locale of the process.
///
/// The tree is built and walked by one call within the other for each level
/// of nesting, so a text that nests deeper than the stack of the thread has
/// room for ends the process.
pub fn find_function_calls(code: &str) -> (calls: Result<CallGraph, AnalysisError>)
    ensures
        is_ascii_chars(code@) ==> match calls {
            Ok(graph) => calls_in(code@) == Ok::<Seq<EntryView>, AnalysisError>(graph@),
            Err(failure) => calls_in(code@) == Err::<Seq<EntryView>, AnalysisError>(failure),
        },
        calls matches Ok(graph) ==> well_formed(graph@) && exists|root: NodeView|
            graph@ == #[trigger] call_graph_of(root, code@),
{
    match syntax_tree(code) {
        Ok(root) => {
            let graph = build_call_graph(&root, code);
            assert(graph@ == call_graph_of(root@, code@));
            Ok(graph)
        },
        Err(failure) => Err(failure),
    }
}

/// A tree without call expressions has an empty call graph.
pub proof fn lemma_no_call_expression_no_calls(root: NodeView, source: Seq<char>)
    requires
        call_count(root) == 0,
    ensures
        call_graph_of(root, source) == Seq::<EntryView>::empty(),
{
    lemma_calls_are_call_expressions(root, source, Seq::empty());
    assert(call_graph_of(root, source) =~= Seq::<EntryView>::empty());
}

/// Two analyses of one source text of ASCII characters end alike: with the
/// same failure, or with graphs that hold the same callers in the same
/// order, each with the same calls in the same order.
pub proof fn lemma_same_text_same_graph(
    first: Result<CallGraph, AnalysisError>,
    second: Result<CallGraph, AnalysisError>,
    code: Seq<char>,
)
    requires
        is_ascii_chars(code),
        match first {
            Ok(graph) => calls_in(code) == Ok::<Seq<EntryView>, AnalysisError>(graph@),
            Err(failure) => calls_in(code) == Err::<Seq<EntryView>, AnalysisError>(failure),
        },
        match second {
            Ok(graph) => calls_in(code) == Ok::<Seq<EntryView>, AnalysisError>(graph@),
            Err(failure) => calls_in(code) == Err::<Seq<EntryView>, AnalysisError>(failure),
        },
    ensures
        match (first, second) {
            (Ok(one), Ok(other)) => one@ == other@,
            (Err(one), Err(other)) => one == other,
            _ => false,
        },
{
}

} // verus!
