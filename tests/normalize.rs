use css_purify::{Attribute, Node, NodeData, NodeExt, QualName, QuirksMode, RcDom, RcDomExt};

fn qn(local: &str) -> QualName {
    QualName { prefix: None, ns: String::new(), local: local.to_string() }
}

fn el(name: &str, children: Vec<Node>) -> Node {
    Node { data: NodeData::Element { name: qn(name), attrs: Vec::<Attribute>::new() }, children }
}

fn text(s: &str) -> Node {
    Node { data: NodeData::Text { contents: s.to_string() }, children: vec![] }
}

fn comment(s: &str) -> Node {
    Node { data: NodeData::Comment { contents: s.to_string() }, children: vec![] }
}

fn pi() -> Node {
    Node { data: NodeData::ProcessingInstruction { target: "t".to_string(), contents: "d".to_string() }, children: vec![] }
}

fn doctype(name: &str, public_id: &str, system_id: &str) -> Node {
    Node {
        data: NodeData::Doctype { name: name.to_string(), public_id: public_id.to_string(), system_id: system_id.to_string() },
        children: vec![],
    }
}

fn document(children: Vec<Node>) -> Node {
    Node { data: NodeData::Document, children }
}

fn dom(children: Vec<Node>) -> RcDom {
    RcDom { document: document(children), errors: vec![], quirks_mode: QuirksMode::NoQuirks }
}

fn texts_of(node: &Node) -> Vec<String> {
    node.children
        .iter()
        .map(|c| match &c.data {
            NodeData::Text { contents } => format!("T:{}", contents),
            NodeData::Element { name, .. } => format!("E:{}", name.local),
            NodeData::Doctype { name, .. } => format!("D:{}", name),
            _ => "other".to_string(),
        })
        .collect()
}

#[test]
fn text_siblings_across_comment_are_merged() {
    let mut p = el("p", vec![text("ab"), comment("x"), text("cd")]);
    assert!(p.validate_children_and_remove_comments_and_processing_instructions("f.html").is_ok());
    assert_eq!(texts_of(&p), vec!["T:abcd".to_string()]);
}

#[test]
fn text_siblings_across_comment_and_instruction_are_merged() {
    let mut p = el("p", vec![text("a"), comment("x"), pi(), text("b"), el("i", vec![]), text("c")]);
    assert!(p.validate_children_and_remove_comments_and_processing_instructions("f.html").is_ok());
    assert_eq!(texts_of(&p), vec!["T:ab".to_string(), "E:i".to_string(), "T:c".to_string()]);
}

#[test]
fn normalizing_twice_changes_nothing() {
    let mut p = el("div", vec![comment("x"), text("a"), comment("y"), text("b"), el("span", vec![text("c"), pi(), text("d")])]);
    assert!(p.validate_children_and_remove_comments_and_processing_instructions("f.html").is_ok());
    let once = p.to_html();
    assert!(p.validate_children_and_remove_comments_and_processing_instructions("f.html").is_ok());
    assert_eq!(p.to_html(), once);
    assert_eq!(once, "<div>ab<span>cd</span></div>");
}

#[test]
fn adjacent_text_siblings_are_refused() {
    let mut p = el("p", vec![text("a"), text("b")]);
    let e = p.validate_children_and_remove_comments_and_processing_instructions("f.html").unwrap_err();
    assert_eq!(e.path(), "f.html");
    assert_eq!(p.children.len(), 2);
}

#[test]
fn text_with_children_is_refused() {
    let mut t = text("a");
    t.children.push(text("b"));
    let mut p = el("p", vec![t]);
    assert!(p.validate_children_and_remove_comments_and_processing_instructions("f.html").is_err());
}

#[test]
fn nested_document_is_refused() {
    let mut p = el("p", vec![document(vec![])]);
    assert!(p.validate_children_and_remove_comments_and_processing_instructions("f.html").is_err());
}

#[test]
fn doctype_below_an_element_is_refused() {
    let mut p = el("p", vec![doctype("html", "", "")]);
    assert!(p.validate_children_and_remove_comments_and_processing_instructions("f.html").is_err());
}

#[test]
fn namespaced_element_is_refused() {
    let svg = Node {
        data: NodeData::Element {
            name: QualName { prefix: None, ns: "http://www.w3.org/2000/svg".to_string(), local: "svg".to_string() },
            attrs: vec![],
        },
        children: vec![],
    };
    let mut p = el("p", vec![svg]);
    assert!(p.validate_children_and_remove_comments_and_processing_instructions("f.html").is_err());
    let prefixed = Node {
        data: NodeData::Element {
            name: QualName { prefix: Some("x".to_string()), ns: String::new(), local: "y".to_string() },
            attrs: vec![],
        },
        children: vec![],
    };
    let mut q = el("p", vec![prefixed]);
    assert!(q.validate_children_and_remove_comments_and_processing_instructions("f.html").is_err());
}

#[test]
fn void_element_with_children_is_refused() {
    let mut br = el("br", vec![text("x")]);
    assert!(br.validate_children_and_remove_comments_and_processing_instructions("f.html").is_err());
    let mut nested = el("p", vec![el("img", vec![text("x")])]);
    assert!(nested.validate_children_and_remove_comments_and_processing_instructions("f.html").is_err());
    let mut empty_br = el("br", vec![]);
    assert!(empty_br.validate_children_and_remove_comments_and_processing_instructions("f.html").is_ok());
}

#[test]
fn refused_tree_is_left_unchanged() {
    let mut p = el("div", vec![comment("x"), el("span", vec![text("a"), text("b")])]);
    assert!(p.validate_children_and_remove_comments_and_processing_instructions("f.html").is_err());
    assert_eq!(p.children.len(), 2);
}

#[test]
fn verify_accepts_a_plain_document() {
    let d = dom(vec![doctype("html", "", ""), comment("c"), el("html", vec![])]);
    assert!(d.verify("f.html").is_ok());
}

#[test]
fn verify_refuses_doctype_not_named_exactly_html() {
    assert!(dom(vec![doctype("HTML", "", ""), el("html", vec![])]).verify("f.html").is_err());
    assert!(dom(vec![doctype("Html", "", "")]).verify("f.html").is_err());
    assert!(dom(vec![doctype("html", "", ""), el("HTML", vec![])]).verify("f.html").is_ok());
}

#[test]
fn verify_refuses_fragment() {
    let d = RcDom { document: el("html", vec![]), errors: vec![], quirks_mode: QuirksMode::NoQuirks };
    assert!(d.verify("f.html").is_err());
}

#[test]
fn verify_refuses_parse_errors() {
    let d = RcDom { document: document(vec![]), errors: vec!["bad".to_string()], quirks_mode: QuirksMode::NoQuirks };
    assert!(d.verify("f.html").is_err());
}

#[test]
fn verify_refuses_quirks() {
    let d = RcDom { document: document(vec![]), errors: vec![], quirks_mode: QuirksMode::Quirks };
    assert!(d.verify("f.html").is_err());
    let e = RcDom { document: document(vec![]), errors: vec![], quirks_mode: QuirksMode::LimitedQuirks };
    assert!(e.verify("f.html").is_err());
}

#[test]
fn verify_refuses_bad_root_children() {
    assert!(dom(vec![doctype("html", "", ""), doctype("html", "", "")]).verify("f").is_err());
    assert!(dom(vec![el("html", vec![]), doctype("html", "", "")]).verify("f").is_err());
    assert!(dom(vec![doctype("svg", "", "")]).verify("f").is_err());
    assert!(dom(vec![doctype("html", "-//W3C//DTD HTML 4.01//EN", "")]).verify("f").is_err());
    assert!(dom(vec![doctype("html", "", "about:legacy-compat")]).verify("f").is_err());
    assert!(dom(vec![el("body", vec![])]).verify("f").is_err());
    assert!(dom(vec![el("html", vec![]), el("HTML", vec![])]).verify("f").is_err());
    assert!(dom(vec![text(" ")]).verify("f").is_err());
    assert!(dom(vec![document(vec![])]).verify("f").is_err());
    assert!(dom(vec![pi(), el("Html", vec![])]).verify("f").is_ok());
}

#[test]
fn strip_inserts_a_sane_doctype_first() {
    let mut d = dom(vec![doctype("html", "", ""), comment("c"), el("html", vec![el("body", vec![text("a"), comment("x"), text("b")])])]);
    assert!(d.recursively_strip_nodes_of_comments_and_processing_instructions_and_create_sane_doc_type("f.html").is_ok());
    assert_eq!(texts_of(&d.document), vec!["D:html".to_string(), "E:html".to_string()]);
    assert_eq!(d.document.to_html(), "<!DOCTYPE html><html><body>ab</body></html>");
    assert!(d.verify("f.html").is_ok());
}

#[test]
fn strip_reports_refusal_with_context() {
    let mut d = dom(vec![el("html", vec![el("p", vec![text("a"), text("b")])])]);
    let e = d.recursively_strip_nodes_of_comments_and_processing_instructions_and_create_sane_doc_type("page.html").unwrap_err();
    assert_eq!(e.path(), "page.html");
    assert!(!e.reason().is_empty());
    assert_eq!(d.document.children.len(), 1);
}
