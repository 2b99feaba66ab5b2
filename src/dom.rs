//! Document trees and their mathematical model.

use vstd::prelude::*;

verus! {

/// A qualified name: an optional prefix, a namespace URL (empty for none) and a local name.
#[derive(Debug)]
pub struct QualName {
    pub prefix: Option<String>,
    pub ns: String,
    pub local: String,
}

/// An attribute of an element.
#[derive(Debug)]
pub struct Attribute {
    pub name: QualName,
    pub value: String,
}

/// What a node of a document tree is.
#[allow(inconsistent_fields)]
#[derive(Debug)]
pub enum NodeData {
    Document,
    Doctype { name: String, public_id: String, system_id: String },
    Text { contents: String },
    Comment { contents: String },
    Element { name: QualName, attrs: Vec<Attribute> },
    ProcessingInstruction { target: String, contents: String },
}

/// A node of a document tree; it owns its children.
#[derive(Debug)]
pub struct Node {
    pub data: NodeData,
    pub children: Vec<Node>,
}

/// What a node is, with its strings as character sequences.
#[allow(inconsistent_fields)]
pub enum DataModel {
    Document,
    Doctype { name: Seq<char>, public_id: Seq<char>, system_id: Seq<char> },
    Text { contents: Seq<char> },
    Comment { contents: Seq<char> },
    Element { name: QualName, attrs: Seq<Attribute> },
    ProcessingInstruction { target: Seq<char>, contents: Seq<char> },
}

/// The mathematical value of a document tree.
pub struct NodeModel {
    pub data: DataModel,
    pub children: Seq<NodeModel>,
}

pub open spec fn data_model(d: NodeData) -> DataModel {
    match d {
        NodeData::Document => DataModel::Document,
        NodeData::Doctype { name, public_id, system_id } => DataModel::Doctype {
            name: name@,
            public_id: public_id@,
            system_id: system_id@,
        },
        NodeData::Text { contents } => DataModel::Text { contents: contents@ },
        NodeData::Comment { contents } => DataModel::Comment { contents: contents@ },
        NodeData::Element { name, attrs } => DataModel::Element { name, attrs: attrs@ },
        NodeData::ProcessingInstruction { target, contents } => DataModel::ProcessingInstruction {
            target: target@,
            contents: contents@,
        },
    }
}

pub open spec fn node_model(n: Node) -> NodeModel
    decreases n, 1nat,
{
    NodeModel { data: data_model(n.data), children: forest_model(n.children@) }
}

pub open spec fn forest_model(s: Seq<Node>) -> Seq<NodeModel>
    decreases s, 0nat,
{
    if s.len() == 0 {
        seq![]
    } else {
        forest_model(s.drop_last()).push(node_model(s.last()))
    }
}

impl View for Node {
    type V = NodeModel;

    open spec fn view(&self) -> NodeModel {
        node_model(*self)
    }
}

/// The model of a sequence of trees is the sequence of their models.
pub proof fn lemma_forest_model(s: Seq<Node>)
    ensures
        forest_model(s).len() == s.len(),
        forall|i: int| 0 <= i < s.len() ==> #[trigger] forest_model(s)[i] == node_model(s[i]),
    decreases s.len(),
{
    if s.len() > 0 {
        lemma_forest_model(s.drop_last());
    }
}

/// Appending a tree appends its model.
pub proof fn lemma_forest_model_push(s: Seq<Node>, n: Node)
    ensures
        forest_model(s.push(n)) == forest_model(s).push(node_model(n)),
{
    assert(s.push(n).drop_last() =~= s);
}

} // verus!
