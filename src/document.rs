//! Parsed documents: the checks that make a document fit for purification, and its
//! clean-up into normal form with a plain DOCTYPE.

use vstd::prelude::*;
use vstd::string::*;
use crate::dom::{forest_model, lemma_forest_model, node_model, DataModel, Node, NodeData, NodeModel};
use crate::error::{invalid_file, PurifyError};
use crate::normalize::{normalizable, normalize_tree, normalized};
use crate::text::{eq_ignore_ascii_case_spec, same_chars, same_chars_ignoring_ascii_case};

verus! {

/// How the HTML parser had to treat the source.
#[derive(Clone, Copy, Debug, PartialEq, Eq, Structural)]
pub enum QuirksMode {
    Quirks,
    LimitedQuirks,
    NoQuirks,
}

/// A parsed HTML document: its tree, the errors that parsing recorded and its quirks mode.
#[derive(Debug)]
pub struct RcDom {
    pub document: Node,
    pub errors: Vec<String>,
    pub quirks_mode: QuirksMode,
}

/// Whether a DOCTYPE is the plain HTML 5 one: named exactly `html`, with empty ids.
pub open spec fn is_sane_doctype(name: Seq<char>, public_id: Seq<char>, system_id: Seq<char>) -> bool {
    name == "html"@ && public_id.len() == 0 && system_id.len() == 0
}

/// Scans the children of the document: `None` where they are refused, otherwise whether a
/// DOCTYPE and whether an `html` element were seen. Comments and processing instructions
/// are passed over.
pub open spec fn root_scan(s: Seq<NodeModel>) -> Option<(bool, bool)>
    decreases s.len(),
{
    if s.len() == 0 {
        Some((false, false))
    } else {
        match root_scan(s.drop_last()) {
            None => None,
            Some((has_doctype, has_html_root)) => match s.last().data {
                DataModel::Text { .. } => None,
                DataModel::Document => None,
                DataModel::Doctype { name, public_id, system_id } => if has_doctype
                    || has_html_root || !is_sane_doctype(name, public_id, system_id) {
                    None
                } else {
                    Some((true, has_html_root))
                },
                DataModel::Element { name, .. } => if has_html_root || !eq_ignore_ascii_case_spec(
                    name.local@,
                    "html"@,
                ) {
                    None
                } else {
                    Some((has_doctype, true))
                },
                _ => Some((has_doctype, has_html_root)),
            },
        }
    }
}

/// Whether a parsed document is fit for purification.
pub open spec fn verified(d: RcDom) -> bool {
    &&& d.document@.data is Document
    &&& d.errors@.len() == 0
    &&& d.quirks_mode == QuirksMode::NoQuirks
    &&& root_scan(d.document@.children) is Some
}

/// The canonical `<!DOCTYPE html>` node.
pub open spec fn sane_doctype_model() -> NodeModel {
    NodeModel {
        data: DataModel::Doctype { name: "html"@, public_id: seq![], system_id: seq![] },
        children: seq![],
    }
}

/// Prefixes of an accepted sequence of document children are accepted.
proof fn lemma_root_scan_prefix(s: Seq<NodeModel>, k: int)
    requires
        0 <= k <= s.len(),
        root_scan(s) is Some,
    ensures
        root_scan(s.subrange(0, k)) is Some,
    decreases s.len(),
{
    if k < s.len() {
        assert(s.drop_last().subrange(0, k) =~= s.subrange(0, k));
        lemma_root_scan_prefix(s.drop_last(), k);
    } else {
        assert(s.subrange(0, k) =~= s);
    }
}

/// Checks and clean-up of a parsed document.
pub trait RcDomExt {
    /// The parsed document.
    spec fn parsed(&self) -> RcDom;

    /// Verify that this HTML DOM is fit for purification.
    fn verify(&self, context: &str) -> (r: Result<(), PurifyError>)
        ensures
            r is Ok <==> verified(self.parsed()),
            r matches Err(e) ==> e.path_spec() == context@,
    ;

    /// Removes all comments and processing instructions, merges the text that this makes
    /// adjacent, and makes the DOCTYPE a plain `<!DOCTYPE html>` as the first child. A
    /// refused tree is left as it was.
    fn recursively_strip_nodes_of_comments_and_processing_instructions_and_create_sane_doc_type(
        &mut self,
        context: &str,
    ) -> (r: Result<(), PurifyError>)
        ensures
            r is Ok <==> normalizable(old(self).parsed().document@),
            r is Ok ==> final(self).parsed().document@ == (NodeModel {
                data: old(self).parsed().document@.data,
                children: seq![sane_doctype_model()] + normalized(old(self).parsed().document@).children,
            }),
            r is Err ==> final(self).parsed().document == old(self).parsed().document,
            final(self).parsed().errors == old(self).parsed().errors,
            final(self).parsed().quirks_mode == old(self).parsed().quirks_mode,
            r matches Err(e) ==> e.path_spec() == context@,
    ;

    /// Checks that the tree is rooted in a document and not a fragment.
    fn _verify_is_document_and_not_a_fragment(&self, context: &str) -> (r: Result<(), PurifyError>)
        ensures
            r is Ok <==> self.parsed().document@.data is Document,
            r matches Err(e) ==> e.path_spec() == context@,
    ;

    /// Checks that parsing recorded no error.
    fn _verify_has_no_errors(&self, context: &str) -> (r: Result<(), PurifyError>)
        ensures
            r is Ok <==> self.parsed().errors@.len() == 0,
            r matches Err(e) ==> e.path_spec() == context@,
    ;

    /// Checks that parsing needed no quirks.
    fn _verify_has_no_quirks(&self, context: &str) -> (r: Result<(), PurifyError>)
        ensures
            r is Ok <==> self.parsed().quirks_mode == QuirksMode::NoQuirks,
            r matches Err(e) ==> e.path_spec() == context@,
    ;

    /// Checks the document's children: at most one DOCTYPE, plain and before the root, and at
    /// most one root element, named `html`; no text and no nested document.
    fn _verify_root_element(&self, context: &str) -> (r: Result<(), PurifyError>)
        ensures
            r is Ok <==> root_scan(self.parsed().document@.children) is Some,
            r matches Err(e) ==> e.path_spec() == context@,
    ;
}

impl RcDomExt for RcDom {
    open spec fn parsed(&self) -> RcDom {
        *self
    }

    fn _verify_is_document_and_not_a_fragment(&self, context: &str) -> (r: Result<(), PurifyError>)
    {
        match &self.document.data {
            NodeData::Document => Ok(()),
            _ => Err(invalid_file(context, "HTML should be a rooted document")),
        }
    }

    fn _verify_has_no_errors(&self, context: &str) -> (r: Result<(), PurifyError>)
    {
        if self.errors.len() == 0 {
            Ok(())
        } else {
            Err(invalid_file(context, "HTML parsed with errors"))
        }
    }

    fn _verify_has_no_quirks(&self, context: &str) -> (r: Result<(), PurifyError>)
    {
        if self.quirks_mode == QuirksMode::NoQuirks {
            Ok(())
        } else {
            Err(invalid_file(context, "HTML should not need quirks for parsing"))
        }
    }

    fn _verify_root_element(&self, context: &str) -> (r: Result<(), PurifyError>)
    {
        let children = &self.document.children;
        let ghost cs = self.document@.children;
        proof {
            lemma_forest_model(children@);
        }
        let mut has_doc_type = false;
        let mut has_html_root = false;
        let mut i: usize = 0;
        while i < children.len()
            invariant
                i <= children.len(),
                cs == self.document@.children,
                cs.len() == children.len(),
                forall|j: int| 0 <= j < cs.len() ==> #[trigger] cs[j] == node_model(children@[j]),
                root_scan(cs.subrange(0, i as int)) == Some((has_doc_type, has_html_root)),
            decreases children.len() - i,
        {
            let child = &children[i];
            assert(cs.subrange(0, i + 1).drop_last() =~= cs.subrange(0, i as int));
            assert(cs[i as int] == node_model(*child));
            let refused = match &child.data {
                NodeData::Text { .. } => Some("Text nodes are not allowed in the root"),
                NodeData::Document => Some("Document nodes are not allowed in the root"),
                NodeData::Doctype { name, public_id, system_id } => {
                    if has_doc_type {
                        Some("multiple DOCTYPE")
                    } else if has_html_root {
                        Some("DOCTYPE after html root")
                    } else if !same_chars(name.as_str(), "html") {
                        Some("Non html DOCTYPE found in document root")
                    } else if public_id.unicode_len() != 0 {
                        Some("Non empty DOCTYPE public id found in document root")
                    } else if system_id.unicode_len() != 0 {
                        Some("Non empty DOCTYPE system id found in document root")
                    } else {
                        has_doc_type = true;
                        None
                    }
                },
                NodeData::Element { name, .. } => {
                    if !same_chars_ignoring_ascii_case(name.local.as_str(), "html") {
                        Some("Non html-element found in document root")
                    } else if has_html_root {
                        Some("Multiple html elements in document root")
                    } else {
                        has_html_root = true;
                        None
                    }
                },
                _ => None,
            };
            match refused {
                Some(reason) => {
                    proof {
                        if root_scan(cs) is Some {
                            lemma_root_scan_prefix(cs, i + 1);
                        }
                    }
                    return Err(invalid_file(context, reason));
                },
                None => {},
            }
            i = i + 1;
        }
        assert(cs.subrange(0, cs.len() as int) =~= cs);
        Ok(())
    }

    fn verify(&self, context: &str) -> (r: Result<(), PurifyError>)
    {
        match self._verify_is_document_and_not_a_fragment(context) {
            Ok(()) => {},
            Err(e) => {
                return Err(e);
            },
        }
        match self._verify_has_no_errors(context) {
            Ok(()) => {},
            Err(e) => {
                return Err(e);
            },
        }
        match self._verify_has_no_quirks(context) {
            Ok(()) => {},
            Err(e) => {
                return Err(e);
            },
        }
        self._verify_root_element(context)
    }

    fn recursively_strip_nodes_of_comments_and_processing_instructions_and_create_sane_doc_type(
        &mut self,
        context: &str,
    ) -> (r: Result<(), PurifyError>)
    {
        match normalize_tree(&mut self.document, context) {
            Ok(()) => {},
            Err(e) => {
                return Err(e);
            },
        }
        let doctype = Node {
            data: NodeData::Doctype {
                name: "html".to_owned(),
                public_id: "".to_owned(),
                system_id: "".to_owned(),
            },
            children: Vec::new(),
        };
        let ghost before = self.document.children@;
        proof {
            lemma_forest_model(before);
            assert(forest_model(doctype.children@) =~= seq![]);
            reveal_strlit("");
            assert(""@ =~= Seq::<char>::empty());
            assert(node_model(doctype) == sane_doctype_model());
        }
        self.document.children.insert(0, doctype);
        proof {
            lemma_forest_model(self.document.children@);
            assert(forest_model(self.document.children@) =~= seq![sane_doctype_model()] + forest_model(before));
        }
        Ok(())
    }
}

} // verus!
