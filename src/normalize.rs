//! Normalization of document trees: validation, removal of comments and processing
//! instructions, and merging of the text that this makes adjacent.

use vstd::prelude::*;
use vstd::string::*;
use crate::dom::{
    forest_model, lemma_forest_model, lemma_forest_model_push, node_model, DataModel, Node,
    NodeData, NodeModel,
};
use crate::error::{invalid_file, PurifyError};
use crate::names::{can_have_children, can_have_children_spec};

verus! {

/// Whether a node may have children: all but elements whose content model forbids them.
pub open spec fn model_can_have_children(m: NodeModel) -> bool {
    match m.data {
        DataModel::Element { name, .. } => can_have_children_spec(name),
        _ => true,
    }
}

/// The contents of a text node (empty for any other node).
pub open spec fn text_of(m: NodeModel) -> Seq<char> {
    match m.data {
        DataModel::Text { contents } => contents,
        _ => seq![],
    }
}

/// Whether normalization accepts a tree.
pub open spec fn normalizable(m: NodeModel) -> bool
    decreases m, 1nat,
{
    (m.children.len() == 0 || model_can_have_children(m)) && children_normalizable(
        m.children,
        m.data is Document,
    )
}

/// Whether normalization accepts a sequence of siblings; a DOCTYPE is accepted only as a
/// child of the document.
pub open spec fn children_normalizable(s: Seq<NodeModel>, at_root: bool) -> bool
    decreases s, 0nat,
{
    if s.len() == 0 {
        true
    } else {
        children_normalizable(s.drop_last(), at_root) && match s.last().data {
            DataModel::Comment { .. } => true,
            DataModel::ProcessingInstruction { .. } => true,
            DataModel::Text { .. } => s.last().children.len() == 0 && !(s.len() >= 2 && s[s.len()
                - 2].data is Text),
            DataModel::Document => false,
            DataModel::Doctype { .. } => at_root,
            DataModel::Element { name, .. } => name.prefix is None && name.ns@.len() == 0
                && normalizable(s.last()),
        }
    }
}

/// A tree after normalization.
pub open spec fn normalized(m: NodeModel) -> NodeModel
    decreases m, 1nat,
{
    NodeModel { data: m.data, children: normalized_children(m.children) }
}

/// Siblings after normalization: comments, processing instructions and DOCTYPEs dropped, text
/// that became adjacent merged, elements normalized.
pub open spec fn normalized_children(s: Seq<NodeModel>) -> Seq<NodeModel>
    decreases s, 0nat,
{
    if s.len() == 0 {
        seq![]
    } else {
        let r = normalized_children(s.drop_last());
        let c = s.last();
        match c.data {
            DataModel::Comment { .. } => r,
            DataModel::ProcessingInstruction { .. } => r,
            DataModel::Doctype { .. } => r,
            DataModel::Text { contents } => if r.len() > 0 && r.last().data is Text {
                r.drop_last().push(
                    NodeModel {
                        data: DataModel::Text { contents: text_of(r.last()) + contents },
                        children: seq![],
                    },
                )
            } else {
                r.push(c)
            },
            _ => r.push(normalized(c)),
        }
    }
}

/// Acceptance of siblings carries over to each prefix.
pub proof fn lemma_children_normalizable_prefix(s: Seq<NodeModel>, at_root: bool, k: int)
    requires
        0 <= k <= s.len(),
        children_normalizable(s, at_root),
    ensures
        children_normalizable(s.subrange(0, k), at_root),
    decreases s.len(),
{
    if k < s.len() {
        assert(s.drop_last().subrange(0, k) =~= s.subrange(0, k));
        lemma_children_normalizable_prefix(s.drop_last(), at_root, k);
    } else {
        assert(s.subrange(0, k) =~= s);
    }
}

/// Whether a tree is in normal form: no comments, processing instructions, DOCTYPEs or
/// documents below the root, no adjacent text, no text with children, no element with a
/// prefix or a namespace, no children below an element that cannot have them.
pub open spec fn is_normal(m: NodeModel) -> bool
    decreases m, 1nat,
{
    (m.children.len() == 0 || model_can_have_children(m)) && normal_children(m.children)
}

/// Whether a sequence of siblings is in normal form.
pub open spec fn normal_children(s: Seq<NodeModel>) -> bool
    decreases s, 0nat,
{
    if s.len() == 0 {
        true
    } else {
        normal_children(s.drop_last()) && match s.last().data {
            DataModel::Text { .. } => s.last().children.len() == 0 && !(s.len() >= 2 && s[s.len()
                - 2].data is Text),
            DataModel::Element { name, .. } => name.prefix is None && name.ns@.len() == 0
                && is_normal(s.last()),
            _ => false,
        }
    }
}

/// A tree in normal form is accepted and left as it is.
pub proof fn lemma_normal_is_fixed(m: NodeModel)
    requires
        is_normal(m),
    ensures
        normalizable(m),
        normalized(m) == m,
    decreases m, 1nat,
{
    lemma_normal_children_are_fixed(m.children, m.data is Document);
}

/// Siblings in normal form are accepted and left as they are.
pub proof fn lemma_normal_children_are_fixed(s: Seq<NodeModel>, at_root: bool)
    requires
        normal_children(s),
    ensures
        children_normalizable(s, at_root),
        normalized_children(s) == s,
    decreases s, 0nat,
{
    if s.len() > 0 {
        lemma_normal_children_are_fixed(s.drop_last(), at_root);
        let c = s.last();
        if c.data is Element {
            lemma_normal_is_fixed(c);
        }
        assert(s.drop_last().push(c) =~= s);
    }
}

/// Normalization yields a tree in normal form.
pub proof fn lemma_normalized_is_normal(m: NodeModel)
    requires
        normalizable(m),
    ensures
        is_normal(normalized(m)),
    decreases m, 1nat,
{
    lemma_normalized_children_are_normal(m.children, m.data is Document);
}

/// Normalization of siblings yields siblings in normal form.
pub proof fn lemma_normalized_children_are_normal(s: Seq<NodeModel>, at_root: bool)
    requires
        children_normalizable(s, at_root),
    ensures
        normal_children(normalized_children(s)),
    decreases s, 0nat,
{
    if s.len() > 0 {
        lemma_normalized_children_are_normal(s.drop_last(), at_root);
        let r = normalized_children(s.drop_last());
        let c = s.last();
        match c.data {
            DataModel::Text { contents } => {
                if r.len() > 0 && r.last().data is Text {
                    let merged = NodeModel {
                        data: DataModel::Text { contents: text_of(r.last()) + contents },
                        children: seq![],
                    };
                    let out = r.drop_last().push(merged);
                    assert(out.drop_last() =~= r.drop_last());
                    assert(r.len() >= 2 ==> out[out.len() - 2] == r[r.len() - 2]);
                } else {
                    assert(r.push(c).drop_last() =~= r);
                }
            },
            DataModel::Element { .. } => {
                lemma_normalized_is_normal(c);
                assert(r.push(normalized(c)).drop_last() =~= r);
            },
            _ => {},
        }
    }
}

/// Normalizing a normalized tree changes nothing: the result is accepted again and
/// normalizes to itself.
pub proof fn lemma_normalize_idempotent(m: NodeModel)
    requires
        normalizable(m),
    ensures
        normalizable(normalized(m)),
        normalized(normalized(m)) == normalized(m),
{
    lemma_normalized_is_normal(m);
    lemma_normal_is_fixed(normalized(m));
}

/// A text node.
pub open spec fn text_node(contents: Seq<char>) -> NodeModel {
    NodeModel { data: DataModel::Text { contents }, children: seq![] }
}

/// Two text siblings separated only by a comment become one text node holding both texts
/// in order.
pub proof fn lemma_text_merged_across_comment(
    m: NodeModel,
    first: Seq<char>,
    comment: Seq<char>,
    second: Seq<char>,
)
    requires
        model_can_have_children(m),
        m.children == seq![
            text_node(first),
            NodeModel { data: DataModel::Comment { contents: comment }, children: seq![] },
            text_node(second),
        ],
    ensures
        normalizable(m),
        normalized(m).children == seq![text_node(first + second)],
{
    let s = m.children;
    let s2 = s.drop_last();
    let s1 = s2.drop_last();
    assert(s1 =~= seq![text_node(first)]);
    assert(s1.drop_last() =~= Seq::<NodeModel>::empty());
    assert(s1.last() == text_node(first));
    assert(normalized_children(s1.drop_last()) == Seq::<NodeModel>::empty());
    assert(children_normalizable(s1.drop_last(), m.data is Document));
    assert(normalized_children(s1) =~= seq![text_node(first)]);
    assert(normalized_children(s2) =~= seq![text_node(first)]);
    assert(children_normalizable(s1, m.data is Document));
    assert(children_normalizable(s2, m.data is Document));
    assert(children_normalizable(s, m.data is Document));
    assert(normalized_children(s) =~= seq![text_node(first + second)]);
}

fn node_can_have_children(node: &Node) -> (r: bool)
    ensures
        r == model_can_have_children(node@),
{
    match &node.data {
        NodeData::Element { name, .. } => can_have_children(name),
        _ => true,
    }
}

/// Checks that normalization accepts the tree, naming `context` in the error.
pub fn validate(node: &Node, context: &str) -> (r: Result<(), PurifyError>)
    ensures
        r is Ok <==> normalizable(node@),
        r matches Err(e) ==> e.path_spec() == context@,
    decreases node,
{
    proof {
        lemma_forest_model(node.children@);
    }
    let ghost cs = node@.children;
    let at_root = match &node.data {
        NodeData::Document => true,
        _ => false,
    };
    if !node_can_have_children(node) && node.children.len() > 0 {
        return Err(invalid_file(context, "This node contains children when it should not."));
    }
    let mut previous_was_text_node = false;
    let mut i: usize = 0;
    while i < node.children.len()
        invariant
            i <= node.children.len(),
            cs == node@.children,
            cs.len() == node.children.len(),
            forall|j: int| 0 <= j < cs.len() ==> #[trigger] cs[j] == node_model(node.children@[j]),
            at_root == (node@.data is Document),
            children_normalizable(cs.subrange(0, i as int), at_root),
            previous_was_text_node == (i > 0 && cs[i - 1].data is Text),
        decreases node.children.len() - i,
    {
        let child = &node.children[i];
        assert(cs.subrange(0, i + 1).drop_last() =~= cs.subrange(0, i as int));
        assert(cs[i as int] == node_model(*child));
        proof {
            lemma_forest_model(child.children@);
        }
        match &child.data {
            NodeData::Comment { .. } => {
                previous_was_text_node = false;
            },
            NodeData::ProcessingInstruction { .. } => {
                previous_was_text_node = false;
            },
            NodeData::Text { .. } => {
                if child.children.len() != 0 {
                    proof {
                        if children_normalizable(cs, at_root) {
                            lemma_children_normalizable_prefix(cs, at_root, i + 1);
                        }
                    }
                    return Err(invalid_file(context, "Text nodes must not have children"));
                }
                if previous_was_text_node {
                    proof {
                        if children_normalizable(cs, at_root) {
                            lemma_children_normalizable_prefix(cs, at_root, i + 1);
                        }
                    }
                    return Err(
                        invalid_file(
                            context,
                            "Text nodes can not have a previous sibling which is also a text node",
                        ),
                    );
                }
                previous_was_text_node = true;
            },
            NodeData::Document => {
                proof {
                    if children_normalizable(cs, at_root) {
                        lemma_children_normalizable_prefix(cs, at_root, i + 1);
                    }
                }
                return Err(invalid_file(context, "Document nodes are not valid children"));
            },
            NodeData::Doctype { .. } => {
                if !at_root {
                    proof {
                        if children_normalizable(cs, at_root) {
                            lemma_children_normalizable_prefix(cs, at_root, i + 1);
                        }
                    }
                    return Err(
                        invalid_file(context, "A DOCTYPE is only valid as a child of the document"),
                    );
                }
                previous_was_text_node = false;
            },
            NodeData::Element { name, .. } => {
                if name.prefix.is_some() || name.ns.unicode_len() != 0 {
                    proof {
                        if children_normalizable(cs, at_root) {
                            lemma_children_normalizable_prefix(cs, at_root, i + 1);
                        }
                    }
                    return Err(
                        invalid_file(context, "Elements must not have a namespace or a prefix"),
                    );
                }
                match validate(child, context) {
                    Ok(()) => {},
                    Err(e) => {
                        proof {
                            if children_normalizable(cs, at_root) {
                                lemma_children_normalizable_prefix(cs, at_root, i + 1);
                            }
                        }
                        return Err(e);
                    },
                }
                previous_was_text_node = false;
            },
        }
        i = i + 1;
    }
    assert(cs.subrange(0, cs.len() as int) =~= cs);
    Ok(())
}

/// Rewrites an accepted tree into its normalized form.
fn normalize_owned(node: Node) -> (r: Node)
    requires
        normalizable(node@),
    ensures
        r@ == normalized(node@),
    decreases node,
{
    let ghost whole = node;
    let ghost cs = node@.children;
    proof {
        lemma_forest_model(node.children@);
    }
    let Node { data, children } = node;
    let ghost raw = children@;
    let mut processed: Vec<Node> = Vec::new();
    let mut last_added_node_was_text_node = false;
    for child in it: children.into_iter()
        invariant
            it.seq() == raw,
            whole == node,
            raw == whole.children@,
            cs == forest_model(raw),
            cs.len() == raw.len(),
            forall|j: int| 0 <= j < cs.len() ==> #[trigger] cs[j] == node_model(raw[j]),
            children_normalizable(cs, whole@.data is Document),
            forest_model(processed@) == normalized_children(cs.subrange(0, it.index() as int)),
            last_added_node_was_text_node == (processed@.len() > 0 && processed@.last().data is Text),
    {
        let ghost k = it.index() as int;
        let ghost done = forest_model(processed@);
        assert(child == raw[k]);
        assert(cs.subrange(0, k + 1).drop_last() =~= cs.subrange(0, k));
        assert(cs.subrange(0, k + 1).last() == node_model(child));
        proof {
            lemma_children_normalizable_prefix(cs, whole@.data is Document, k + 1);
            lemma_forest_model(child.children@);
            lemma_forest_model(processed@);
        }
        let child_is_element = match &child.data {
            NodeData::Element { .. } => true,
            _ => false,
        };
        if child_is_element {
            proof {
                assert(decreases_to!(whole => whole.children));
                assert(decreases_to!(whole.children => whole.children[k]));
                assert(decreases_to!(whole => child));
            }
            let ghost before = processed@;
            let normalized_child = normalize_owned(child);
            processed.push(normalized_child);
            last_added_node_was_text_node = false;
            proof {
                lemma_forest_model_push(before, normalized_child);
            }
        } else {
            let Node { data: child_data, children: grandchildren } = child;
            match child_data {
                NodeData::Text { contents } => {
                    if last_added_node_was_text_node {
                        let ghost before = processed@;
                        let previous = processed.pop().unwrap();
                        proof {
                            assert(before == processed@.push(previous));
                            lemma_forest_model_push(processed@, previous);
                        }
                        assert(forest_model(processed@) == done.drop_last());
                        assert(node_model(previous) == done.last());
                        match previous.data {
                            NodeData::Text { contents: previous_contents } => {
                                let mut merged = previous_contents;
                                merged.append(contents.as_str());
                                let merged_node = Node {
                                    data: NodeData::Text { contents: merged },
                                    children: Vec::new(),
                                };
                                assert(forest_model(merged_node.children@) =~= seq![]);
                                let ghost before = processed@;
                                processed.push(merged_node);
                                proof {
                                    lemma_forest_model_push(before, merged_node);
                                }
                            },
                            _ => {
                                assert(false);
                            },
                        }
                    } else {
                        let text_node = Node {
                            data: NodeData::Text { contents },
                            children: grandchildren,
                        };
                        assert(node_model(text_node) == node_model(child));
                        let ghost before = processed@;
                        processed.push(text_node);
                        proof {
                            lemma_forest_model_push(before, text_node);
                        }
                    }
                    last_added_node_was_text_node = true;
                },
                NodeData::Comment { .. } => {},
                NodeData::ProcessingInstruction { .. } => {},
                NodeData::Doctype { .. } => {},
                _ => {
                    assert(false);
                },
            }
        }
        assert(forest_model(processed@) =~= normalized_children(cs.subrange(0, k + 1)));
    }
    assert(cs.subrange(0, cs.len() as int) =~= cs);
    Node { data, children: processed }
}

/// Validates a tree and, where it is accepted, removes its comments and processing
/// instructions and merges the text that this makes adjacent. A rejected tree is left as it
/// was.
pub fn normalize_tree(
    node: &mut Node,
    context: &str,
) -> (r: Result<(), PurifyError>)
    ensures
        r is Ok <==> normalizable(old(node)@),
        r is Ok ==> final(node)@ == normalized(old(node)@),
        r is Err ==> *final(node) == *old(node),
        r matches Err(e) ==> e.path_spec() == context@,
{
    match validate(node, context) {
        Ok(()) => {},
        Err(e) => {
            return Err(e);
        },
    }
    let mut taken = Node { data: NodeData::Document, children: Vec::new() };
    std::mem::swap(node, &mut taken);
    let mut rewritten = normalize_owned(taken);
    std::mem::swap(node, &mut rewritten);
    Ok(())
}

} // verus!
