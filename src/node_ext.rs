//! Operations on a document tree gathered in one trait.

use vstd::prelude::*;
use crate::dom::{Node, NodeData, NodeModel};
use crate::error::PurifyError;
use crate::matching::{find_first_match, has_hit, is_first_hit, preorder};
use crate::normalize::{normalizable, normalize_tree, normalized};
use crate::serializer::{node_text, MinifyingHtmlSerializer};

verus! {

/// Operations on a document tree.
pub trait NodeExt {
    /// The tree.
    spec fn tree(&self) -> NodeModel;

    /// The tree as the minifying serializer writes it.
    spec fn html(&self) -> Seq<char>;

    /// Validates the tree and, where it is accepted, removes its comments and processing
    /// instructions, drops a DOCTYPE that stands directly below a document node (one deeper
    /// down is refused), and merges the text that this makes adjacent. A refused tree is left
    /// as it was.
    fn validate_children_and_remove_comments_and_processing_instructions(
        &mut self,
        context: &str,
    ) -> (r: Result<(), PurifyError>)
        ensures
            r is Ok <==> normalizable(old(self).tree()),
            r is Ok ==> final(self).tree() == normalized(old(self).tree()),
            r is Err ==> final(self).tree() == old(self).tree(),
            r matches Err(e) ==> e.path_spec() == context@,
    ;

    /// Serializes the tree with the minifying serializer.
    fn to_html(&self) -> (r: String)
        ensures
            r@ == self.html(),
    ;

    /// Whether this node is an element that the selector matches, where `matched` is what
    /// the selector matching algorithm reports for it; any other node never matches.
    fn matches(&self, matched: bool) -> (r: bool)
        ensures
            r == (self.tree().data is Element && matched),
    ;

    /// Searches the tree in pre-order, this node first, for the first element that the
    /// selector matches, where `hits[k]` is what the selector matching algorithm reports
    /// for the node at pre-order position `k`. Returns that position, or `None` where no
    /// element matches.
    fn find_all_matching_child_nodes_depth_first_including_this_one(&self, hits: &Vec<bool>) -> (r:
        Option<usize>)
        ensures
            match r {
                Some(k) => is_first_hit(preorder(self.tree()), hits@, k as int),
                None => !has_hit(preorder(self.tree()), hits@),
            },
    ;
}

impl NodeExt for Node {
    open spec fn tree(&self) -> NodeModel {
        self@
    }

    open spec fn html(&self) -> Seq<char> {
        node_text(*self, false)
    }

    fn validate_children_and_remove_comments_and_processing_instructions(
        &mut self,
        context: &str,
    ) -> (r: Result<(), PurifyError>) {
        normalize_tree(self, context)
    }

    fn to_html(&self) -> (r: String) {
        MinifyingHtmlSerializer::serialize_node(self)
    }

    fn matches(&self, matched: bool) -> (r: bool) {
        match &self.data {
            NodeData::Element { .. } => matched,
            _ => false,
        }
    }

    fn find_all_matching_child_nodes_depth_first_including_this_one(&self, hits: &Vec<bool>) -> (r:
        Option<usize>) {
        find_first_match(self, hits)
    }
}

} // verus!
