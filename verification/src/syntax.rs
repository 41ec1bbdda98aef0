//! The syntax tree that the analyses walk, as plain values.

use crate::text::{same_text, slice_text, span_text};
use vstd::prelude::*;

verus! {

/// What a [`SyntaxNode`] stands for: a node of a syntax tree.
pub struct NodeView {
    /// The kind label of the node.
    pub kind: Seq<char>,
    /// The field name under which the parent holds the node, if any.
    pub field: Option<Seq<char>>,
    /// The byte offset at which the node starts.
    pub start: int,
    /// The byte offset at which the node ends.
    pub end: int,
    /// The children, in source order.
    pub children: Seq<NodeView>,
}

/// A node of a syntax tree, with the subtree below it.
#[derive(Debug, PartialEq, Eq)]
pub struct SyntaxNode {
    /// The kind label of the node.
    pub kind: String,
    /// The field name under which the parent holds the node, if any.
    pub field: Option<String>,
    /// The byte offset at which the node starts.
    pub start: usize,
    /// The byte offset at which the node ends.
    pub end: usize,
    /// The children, in source order.
    pub children: Vec<SyntaxNode>,
}

/// The text of an optional string.
pub open spec fn label_view(label: Option<String>) -> Option<Seq<char>> {
    match label {
        Some(text) => Some(text@),
        None => None,
    }
}

/// What a node stands for.
pub open spec fn node_view(node: SyntaxNode) -> NodeView
    decreases node,
{
    NodeView {
        kind: node.kind@,
        field: label_view(node.field),
        start: node.start as int,
        end: node.end as int,
        children: Seq::new(
            node.children.len() as nat,
            |i: int|
                if 0 <= i < node.children.len() {
                    node_view(node.children[i])
                } else {
                    arbitrary()
                },
        ),
    }
}

impl View for SyntaxNode {
    type V = NodeView;

    open spec fn view(&self) -> NodeView {
        node_view(*self)
    }
}

/// What a sequence of nodes stands for.
pub open spec fn children_view(nodes: Seq<SyntaxNode>) -> Seq<NodeView> {
    Seq::new(nodes.len(), |at: int| nodes[at]@)
}

/// A child of a node stands for the child at that place of what the node
/// stands for.
pub proof fn lemma_child_view(node: SyntaxNode, index: int)
    requires
        0 <= index < node.children.len(),
    ensures
        node@.children.len() == node.children.len(),
        node@.children[index] == node.children[index]@,
{
}

/// Whether the parent holds the node under the field `name`.
pub open spec fn has_field(node: NodeView, name: Seq<char>) -> bool {
    node.field == Some(name)
}

/// Whether `index` is the place of the first of `children` that stands
/// under the field `name`.
pub open spec fn is_first_with_field(children: Seq<NodeView>, name: Seq<char>, index: int) -> bool {
    &&& 0 <= index < children.len()
    &&& has_field(children[index], name)
    &&& forall|earlier: int| 0 <= earlier < index ==> !has_field(#[trigger] children[earlier], name)
}

/// The first child of `node` that stands under the field `name`.
pub open spec fn field_child(node: NodeView, name: Seq<char>) -> Option<NodeView> {
    if exists|index: int| is_first_with_field(node.children, name, index) {
        Some(node.children[choose|index: int| is_first_with_field(node.children, name, index)])
    } else {
        None
    }
}

/// The source text that the node spans, where its span lies within the
/// text and cuts no character.
pub open spec fn node_text(node: NodeView, source: Seq<char>) -> Option<Seq<char>> {
    span_text(source, node.start, node.end)
}

impl SyntaxNode {
    /// Whether the node's kind label is `kind`.
    pub fn has_kind(&self, kind: &str) -> (held: bool)
        ensures
            held == (self@.kind == kind@),
    {
        same_text(self.kind.as_str(), kind)
    }

    /// Whether the parent holds the node under the field `name`.
    pub fn stands_under(&self, name: &str) -> (held: bool)
        ensures
            held == has_field(self@, name@),
    {
        match &self.field {
            Some(label) => same_text(label.as_str(), name),
            None => false,
        }
    }

    /// The first child that stands under the field `name`, if there is one.
    pub fn child_by_field(&self, name: &str) -> (found: Option<&SyntaxNode>)
        ensures
            found matches Some(child) ==> field_child(self@, name@) == Some(child@),
            found is None ==> field_child(self@, name@) is None,
    {
        let mut index: usize = 0;
        while index < self.children.len()
            invariant
                index <= self.children.len(),
                self@.children.len() == self.children.len(),
                forall|earlier: int|
                    0 <= earlier < index ==> !has_field(#[trigger] self@.children[earlier], name@),
            decreases self.children.len() - index,
        {
            let child = &self.children[index];
            proof {
                lemma_child_view(*self, index as int);
            }
            if child.stands_under(name) {
                proof {
                    assert(is_first_with_field(self@.children, name@, index as int));
                    let chosen = choose|at: int| is_first_with_field(self@.children, name@, at);
                    assert(chosen == index);
                }
                return Some(child);
            }
            index = index + 1;
        }
        None
    }

    /// The source text that the node spans, or nothing where its span
    /// leaves the text or cuts a character.
    pub fn text<'a>(&self, source: &'a str) -> (part: Option<&'a str>)
        ensures
            part matches Some(text) ==> node_text(self@, source@) == Some(text@),
            part is None ==> node_text(self@, source@) is None,
    {
        slice_text(source, self.start, self.end)
    }
}

/// Whether `children` lie within the bytes `start..end`, one after the
/// other in source order, none reaching into the next.
pub open spec fn spans_in_order(children: Seq<NodeView>, start: int, end: int) -> bool {
    &&& forall|at: int|
        0 <= at < children.len() ==> start <= (#[trigger] children[at]).start && children[at].end
            <= end
    &&& forall|first: int, second: int|
        0 <= first < second < children.len() ==> (#[trigger] children[first]).end <= (
        #[trigger] children[second]).start
}

/// Whether the tree below `node` is laid out as a syntax tree is: no span
/// ends before it starts, and the children of each node lie within the
/// node's span, in source order, none reaching into the next. The analyses
/// ask this of no tree: they pass over what they cannot read.
pub open spec fn well_formed(node: NodeView) -> bool
    decreases node,
{
    &&& node.start <= node.end
    &&& spans_in_order(node.children, node.start, node.end)
    &&& forall|at: int| 0 <= at < node.children.len() ==> well_formed(#[trigger] node.children[at])
}

impl SyntaxNode {
    /// Whether the tree below the node is laid out as a syntax tree is.
    ///
    /// The tree is walked by one call within the other for each level of
    /// nesting, so a tree that nests deeper than the stack of the thread
    /// has room for ends the process.
    pub fn is_well_formed(&self) -> (held: bool)
        ensures
            held == well_formed(self@),
        decreases self,
    {
        if self.start > self.end {
            return false;
        }
        let mut reached = self.start;
        let mut index: usize = 0;
        while index < self.children.len()
            invariant
                index <= self.children.len(),
                self@.children.len() == self.children.len(),
                self.start <= reached <= self.end,
                reached == self.start || (index > 0 && reached == self@.children[index - 1].end),
                forall|at: int|
                    0 <= at < index ==> self.start <= (#[trigger] self@.children[at]).start
                        && self@.children[at].end <= reached,
                forall|first: int, second: int|
                    0 <= first < second < index ==> (#[trigger] self@.children[first]).end <= (
                    #[trigger] self@.children[second]).start,
                forall|at: int| 0 <= at < index ==> well_formed(#[trigger] self@.children[at]),
            decreases self.children.len() - index,
        {
            let child = &self.children[index];
            proof {
                lemma_child_view(*self, index as int);
            }
            if child.start < reached || child.end > self.end || !child.is_well_formed() {
                proof {
                    let at = index as int;
                    if well_formed(self@) {
                        assert(self.start <= self@.children[at].start);
                        if reached != self.start {
                            assert(self@.children[at - 1].end <= self@.children[at].start);
                        }
                    }
                }
                return false;
            }
            reached = child.end;
            index = index + 1;
        }
        true
    }
}

/// What a [`NodeRecord`] stands for: a node without its subtree, and how
/// deep it lies.
pub struct RecordView {
    /// The kind label of the node.
    pub kind: Seq<char>,
    /// The field name under which the parent holds the node, if any.
    pub field: Option<Seq<char>>,
    /// The byte offset at which the node starts.
    pub start: int,
    /// The byte offset at which the node ends.
    pub end: int,
    /// The number of nodes above the node.
    pub depth: int,
}

/// A node of a syntax tree without its subtree, as a parser hands it out
/// when it lists the nodes of a tree one by one.
#[derive(Debug, Clone, PartialEq, Eq)]
pub struct NodeRecord {
    /// The kind label of the node.
    pub kind: String,
    /// The field name under which the parent holds the node, if any.
    pub field: Option<String>,
    /// The byte offset at which the node starts.
    pub start: usize,
    /// The byte offset at which the node ends.
    pub end: usize,
    /// The number of nodes above the node.
    pub depth: u32,
}

impl View for NodeRecord {
    type V = RecordView;

    open spec fn view(&self) -> RecordView {
        RecordView {
            kind: self.kind@,
            field: label_view(self.field),
            start: self.start as int,
            end: self.end as int,
            depth: self.depth as int,
        }
    }
}

/// What a sequence of records stands for.
pub open spec fn records_view(records: Seq<NodeRecord>) -> Seq<RecordView> {
    Seq::new(records.len(), |at: int| records[at]@)
}

/// The record of `node`, which lies `depth` nodes deep.
pub open spec fn record_of(node: NodeView, depth: int) -> RecordView {
    RecordView { kind: node.kind, field: node.field, start: node.start, end: node.end, depth }
}

/// The records of the tree below `node`, which lies `depth` nodes deep:
/// each node before its children, the children in source order.
pub open spec fn listing(node: NodeView, depth: int) -> Seq<RecordView>
    decreases node,
{
    seq![record_of(node, depth)] + forest_listing(node.children, depth + 1)
}

/// The records of the trees `trees`, one tree after the other, whose roots
/// lie `depth` nodes deep.
pub open spec fn forest_listing(trees: Seq<NodeView>, depth: int) -> Seq<RecordView>
    decreases trees,
{
    if trees.len() == 0 {
        Seq::empty()
    } else {
        forest_listing(trees.drop_last(), depth) + listing(trees.last(), depth)
    }
}

/// Whether each record but the first lies below the root and at most one
/// node deeper than the record before it.
pub open spec fn descends_stepwise(records: Seq<RecordView>) -> bool {
    forall|at: int|
        0 < at < records.len() ==> records[0].depth < (#[trigger] records[at]).depth
            <= records[at - 1].depth + 1
}

/// Whether `records` can be the records of one tree whose root lies at
/// depth 0.
pub open spec fn is_listing(records: Seq<RecordView>) -> bool {
    &&& records.len() > 0
    &&& records[0].depth == 0
    &&& descends_stepwise(records)
}

/// The records of a tree start with the record of its root, and each
/// other one lies deeper than the root, at most one node deeper than the
/// record before it.
pub proof fn lemma_listing_shape(node: NodeView, depth: int)
    ensures
        listing(node, depth).len() > 0,
        listing(node, depth)[0] == record_of(node, depth),
        forall|at: int|
            0 < at < listing(node, depth).len() ==> depth < (#[trigger] listing(
                node,
                depth,
            )[at]).depth <= listing(node, depth)[at - 1].depth + 1,
    decreases node,
{
    lemma_forest_shape(node.children, depth + 1);
}

/// The records of a row of trees lie no higher than the roots, start with a
/// root, and each other one lies at most one node deeper than the record
/// before it.
pub proof fn lemma_forest_shape(trees: Seq<NodeView>, depth: int)
    ensures
        trees.len() > 0 ==> forest_listing(trees, depth).len() > 0,
        forest_listing(trees, depth).len() > 0 ==> forest_listing(trees, depth)[0].depth == depth,
        forall|at: int|
            0 <= at < forest_listing(trees, depth).len() ==> depth <= (#[trigger] forest_listing(
                trees,
                depth,
            )[at]).depth,
        forall|at: int|
            0 < at < forest_listing(trees, depth).len() ==> (#[trigger] forest_listing(
                trees,
                depth,
            )[at]).depth <= forest_listing(trees, depth)[at - 1].depth + 1,
    decreases trees,
{
    if trees.len() > 0 {
        lemma_forest_shape(trees.drop_last(), depth);
        lemma_listing_shape(trees.last(), depth);
        let earlier = forest_listing(trees.drop_last(), depth);
        let last = listing(trees.last(), depth);
        let all = forest_listing(trees, depth);
        assert(all == earlier + last);
        assert forall|at: int| 0 <= at < all.len() implies depth <= (#[trigger] all[at]).depth by {
            if at >= earlier.len() {
                assert(all[at] == last[at - earlier.len()]);
            }
        }
        assert forall|at: int| 0 < at < all.len() implies (#[trigger] all[at]).depth <= all[at
            - 1].depth + 1 by {
            if at > earlier.len() {
                assert(all[at] == last[at - earlier.len()]);
                assert(all[at - 1] == last[at - 1 - earlier.len()]);
            } else if at == earlier.len() {
                assert(all[at] == last[0]);
                assert(all[at - 1] == earlier[at - 1]);
            }
        }
    }
}

/// The records of a tree whose root lies at depth 0 can be the records of
/// a tree.
pub proof fn lemma_listing_is_listing(tree: NodeView)
    ensures
        is_listing(listing(tree, 0)),
{
    lemma_listing_shape(tree, 0);
}

/// Where the records of the last tree of a row start: at the last record
/// that lies as high as the roots.
pub proof fn lemma_last_tree_starts_at_last_root(trees: Seq<NodeView>, depth: int)
    requires
        trees.len() > 0,
    ensures
        ({
            let all = forest_listing(trees, depth);
            let cut = forest_listing(trees.drop_last(), depth).len() as int;
            &&& 0 <= cut < all.len()
            &&& all[cut].depth == depth
            &&& forall|at: int| cut < at < all.len() ==> depth < (#[trigger] all[at]).depth
            &&& all.subrange(0, cut) == forest_listing(trees.drop_last(), depth)
            &&& all.subrange(cut, all.len() as int) == listing(trees.last(), depth)
        }),
{
    let all = forest_listing(trees, depth);
    let earlier = forest_listing(trees.drop_last(), depth);
    let last = listing(trees.last(), depth);
    let cut = earlier.len() as int;
    lemma_listing_shape(trees.last(), depth);
    assert(all == earlier + last);
    assert(all[cut] == last[0]);
    assert forall|at: int| cut < at < all.len() implies depth < (#[trigger] all[at]).depth by {
        assert(all[at] == last[at - cut]);
    }
    assert(all.subrange(0, cut) =~= earlier);
    assert(all.subrange(cut, all.len() as int) =~= last);
}

/// Two rows of trees with the same records are the same row.
pub proof fn lemma_forest_determined(first: Seq<NodeView>, second: Seq<NodeView>, depth: int)
    requires
        forest_listing(first, depth) == forest_listing(second, depth),
    ensures
        first == second,
    decreases forest_listing(first, depth).len(), 1nat,
{
    if first.len() == 0 || second.len() == 0 {
        lemma_forest_shape(first, depth);
        lemma_forest_shape(second, depth);
        assert(first =~= second);
    } else {
        let all = forest_listing(first, depth);
        lemma_last_tree_starts_at_last_root(first, depth);
        lemma_last_tree_starts_at_last_root(second, depth);
        let first_cut = forest_listing(first.drop_last(), depth).len() as int;
        let second_cut = forest_listing(second.drop_last(), depth).len() as int;
        assert(first_cut == second_cut) by {
            if first_cut < second_cut {
                assert(depth < all[second_cut].depth);
            }
            if second_cut < first_cut {
                assert(depth < all[first_cut].depth);
            }
        }
        assert(forest_listing(first.drop_last(), depth) == forest_listing(
            second.drop_last(),
            depth,
        ));
        assert(listing(first.last(), depth) == listing(second.last(), depth));
        lemma_forest_determined(first.drop_last(), second.drop_last(), depth);
        lemma_listing_determined(first.last(), second.last(), depth);
        assert(first =~= first.drop_last().push(first.last()));
        assert(second =~= second.drop_last().push(second.last()));
    }
}

/// Two trees with the same records are the same tree.
pub proof fn lemma_listing_determined(first: NodeView, second: NodeView, depth: int)
    requires
        listing(first, depth) == listing(second, depth),
    ensures
        first == second,
    decreases listing(first, depth).len(), 0nat,
{
    let all = listing(first, depth);
    let first_below = forest_listing(first.children, depth + 1);
    let second_below = forest_listing(second.children, depth + 1);
    assert(all[0] == record_of(first, depth));
    assert(all[0] == record_of(second, depth));
    assert(first_below =~= all.subrange(1, all.len() as int));
    assert(second_below =~= all.subrange(1, all.len() as int));
    lemma_forest_determined(first.children, second.children, depth + 1);
}

/// The tree whose records are `records`, where they can be the records of
/// a tree.
pub open spec fn tree_of(records: Seq<RecordView>) -> NodeView {
    choose|tree: NodeView| listing(tree, 0) == records
}

/// The tree of the records of a tree is that tree.
pub proof fn lemma_tree_of_listing(tree: NodeView)
    ensures
        tree_of(listing(tree, 0)) == tree,
{
    lemma_listing_determined(tree_of(listing(tree, 0)), tree, 0);
}

/// A copy of an optional string.
fn copy_label(label: &Option<String>) -> (copy: Option<String>)
    ensures
        label_view(copy) == label_view(*label),
{
    match label {
        Some(text) => Some(text.clone()),
        None => None,
    }
}

/// The tree that the records from `position` on list, as far as they lie
/// below the record at `position`, and the place of the record after it.
fn build_subtree(records: &Vec<NodeRecord>, position: usize) -> (built: (SyntaxNode, usize))
    requires
        position < records.len(),
        forall|at: int|
            position < at < records.len() ==> (#[trigger] records[at]).depth <= records[at
                - 1].depth + 1,
    ensures
        position < built.1 <= records.len(),
        listing(built.0@, records[position as int].depth as int) == records_view(
            records@,
        ).subrange(position as int, built.1 as int),
        built.1 < records.len() ==> records[built.1 as int].depth <= records[position as int].depth,
    decreases records.len() - position,
{
    let depth = records[position].depth;
    let ghost all = records_view(records@);
    let mut children: Vec<SyntaxNode> = Vec::new();
    let mut next = position + 1;
    assert(forest_listing(children_view(children@), depth + 1) =~= all.subrange(
        position + 1,
        next as int,
    ));
    while next < records.len() && records[next].depth > depth
        invariant
            position < next <= records.len(),
            all == records_view(records@),
            depth == records[position as int].depth,
            forall|at: int|
                position < at < records.len() ==> (#[trigger] records[at]).depth <= records[at
                    - 1].depth + 1,
            next < records.len() ==> records[next as int].depth <= depth + 1,
            forest_listing(children_view(children@), depth + 1) == all.subrange(
                position + 1,
                next as int,
            ),
        decreases records.len() - next,
    {
        let ghost before = children_view(children@);
        let (child, after) = build_subtree(records, next);
        children.push(child);
        proof {
            let now = children_view(children@);
            assert(now.drop_last() =~= before);
            assert(now.last() == child@);
            assert(all.subrange(position + 1, next as int) + all.subrange(
                next as int,
                after as int,
            ) =~= all.subrange(position + 1, after as int));
        }
        next = after;
    }
    let node = SyntaxNode {
        kind: records[position].kind.clone(),
        field: copy_label(&records[position].field),
        start: records[position].start,
        end: records[position].end,
        children,
    };
    proof {
        assert(node@.children =~= children_view(node.children@));
        assert(record_of(node@, depth as int) == all[position as int]);
        assert(seq![all[position as int]] + all.subrange(position + 1, next as int)
            =~= all.subrange(position as int, next as int));
    }
    (node, next)
}

/// Whether the records can be the records of one tree whose root lies at
/// depth 0.
pub fn lists_a_tree(records: &Vec<NodeRecord>) -> (held: bool)
    ensures
        held == is_listing(records_view(records@)),
{
    if records.len() == 0 || records[0].depth != 0 {
        return false;
    }
    let ghost all = records_view(records@);
    let mut index: usize = 1;
    while index < records.len()
        invariant
            1 <= index <= records.len(),
            all == records_view(records@),
            all[0].depth == 0,
            forall|at: int|
                0 < at < index ==> all[0].depth < (#[trigger] all[at]).depth <= all[at - 1].depth
                    + 1,
        decreases records.len() - index,
    {
        let depth = records[index].depth;
        if depth == 0 || depth - 1 > records[index - 1].depth {
            assert(!(all[0].depth < all[index as int].depth <= all[index - 1].depth + 1));
            return false;
        }
        index = index + 1;
    }
    true
}

/// The tree whose records are `records`: each record becomes a node, and
/// the records that follow it and lie deeper become the tree below it.
/// There is such a tree exactly where the first record lies at depth 0 and
/// each other one lies deeper, at most one node deeper than the record
/// before it.
///
/// The tree is built by one call within the other for each level of
/// nesting, so records that lie deeper than the stack of the thread has
/// room for end the process.
pub fn assemble(records: &Vec<NodeRecord>) -> (tree: Option<SyntaxNode>)
    ensures
        tree is Some <==> is_listing(records_view(records@)),
        match tree {
            Some(root) => listing(root@, 0) == records_view(records@) && root@ == tree_of(
                records_view(records@),
            ),
            None => forall|any: NodeView| #[trigger] listing(any, 0) != records_view(records@),
        },
{
    let ghost all = records_view(records@);
    if !lists_a_tree(records) {
        assert forall|any: NodeView| #[trigger] listing(any, 0) != all by {
            lemma_listing_is_listing(any);
        }
        return None;
    }
    assert forall|at: int| 0 < at < records.len() implies (#[trigger] records[at]).depth
        <= records[at - 1].depth + 1 by {
        assert(all[0].depth < all[at].depth <= all[at - 1].depth + 1);
    }
    let (root, next) = build_subtree(records, 0);
    proof {
        if next < records.len() {
            assert(all[0].depth < all[next as int].depth);
        }
        assert(all.subrange(0, next as int) =~= all);
        lemma_tree_of_listing(root@);
    }
    Some(root)
}

} // verus!
