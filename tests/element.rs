use css_purify::{
    Attribute, CaseSensitivity, NamespaceConstraint, Node, NodeData, NonTreeStructuralPseudoClass,
    PreprocessedHtml5ElementWrappingNode, QualName, QualNameExt,
};

fn qn(local: &str) -> QualName {
    QualName { prefix: None, ns: String::new(), local: local.to_string() }
}

fn el(name: &str, attrs: Vec<(&str, &str)>, children: Vec<Node>) -> Node {
    let attrs = attrs
        .into_iter()
        .map(|(n, v)| Attribute { name: qn(n), value: v.to_string() })
        .collect();
    Node { data: NodeData::Element { name: qn(name), attrs }, children }
}

fn text(s: &str) -> Node {
    Node { data: NodeData::Text { contents: s.to_string() }, children: vec![] }
}

fn tree() -> Node {
    Node {
        data: NodeData::Document,
        children: vec![el(
            "html",
            vec![],
            vec![el(
                "body",
                vec![("id", "Main"), ("class", " one\ttwo\nthree  ")],
                vec![
                    text("t0"),
                    el("a", vec![("href", "")], vec![]),
                    text("t1"),
                    el("area", vec![], vec![]),
                    el("link", vec![("href", "x.css")], vec![]),
                    text("t2"),
                ],
            )],
        )],
    }
}

fn at<'a>(root: &'a Node, path: &[usize]) -> PreprocessedHtml5ElementWrappingNode<'a> {
    PreprocessedHtml5ElementWrappingNode::at(root, path.to_vec()).unwrap()
}

#[test]
fn path_outside_the_tree_is_refused() {
    let t = tree();
    assert!(PreprocessedHtml5ElementWrappingNode::at(&t, vec![0, 0, 9]).is_none());
    assert!(PreprocessedHtml5ElementWrappingNode::at(&t, vec![1]).is_none());
    assert!(PreprocessedHtml5ElementWrappingNode::at(&t, vec![0, 0, 5]).is_some());
}

#[test]
fn children_skip_non_elements() {
    let t = tree();
    let body = at(&t, &[0, 0]);
    assert_eq!(body.first_child_element().unwrap().opaque(), vec![0, 0, 1]);
    assert_eq!(body.last_child_element().unwrap().opaque(), vec![0, 0, 4]);
    assert!(at(&t, &[0, 0, 1]).first_child_element().is_none());
}

#[test]
fn siblings_skip_non_elements() {
    let t = tree();
    let area = at(&t, &[0, 0, 3]);
    assert_eq!(area.prev_sibling_element().unwrap().opaque(), vec![0, 0, 1]);
    assert_eq!(area.next_sibling_element().unwrap().opaque(), vec![0, 0, 4]);
    assert!(at(&t, &[0, 0, 1]).prev_sibling_element().is_none());
    assert!(at(&t, &[0, 0, 4]).next_sibling_element().is_none());
    assert!(PreprocessedHtml5ElementWrappingNode::new(&t).next_sibling_element().is_none());
}

#[test]
fn parent_is_none_below_the_document() {
    let t = tree();
    assert_eq!(at(&t, &[0, 0]).parent_element().unwrap().opaque(), vec![0]);
    assert!(at(&t, &[0]).parent_element().is_none());
    assert!(PreprocessedHtml5ElementWrappingNode::new(&t).parent_element().is_none());
}

#[test]
fn root_is_html_below_document() {
    let t = tree();
    assert!(at(&t, &[0]).is_root());
    assert!(!at(&t, &[0, 0]).is_root());
    assert!(at(&t, &[0]).is_html_element_in_html_document());
    let fragment = el("html", vec![], vec![]);
    assert!(!PreprocessedHtml5ElementWrappingNode::new(&fragment).is_root());
}

#[test]
fn id_and_class_lookups() {
    let t = tree();
    let body = at(&t, &[0, 0]);
    assert!(body.has_id("Main", CaseSensitivity::CaseSensitive));
    assert!(!body.has_id("main", CaseSensitivity::CaseSensitive));
    assert!(body.has_id("main", CaseSensitivity::AsciiCaseInsensitive));
    assert!(!body.has_id("", CaseSensitivity::AsciiCaseInsensitive));
    assert!(body.has_class("one", CaseSensitivity::CaseSensitive));
    assert!(body.has_class("two", CaseSensitivity::CaseSensitive));
    assert!(body.has_class("three", CaseSensitivity::CaseSensitive));
    assert!(body.has_class("TWO", CaseSensitivity::AsciiCaseInsensitive));
    assert!(!body.has_class("TWO", CaseSensitivity::CaseSensitive));
    assert!(!body.has_class("on", CaseSensitivity::CaseSensitive));
    assert!(!body.has_class("one two", CaseSensitivity::CaseSensitive));
    assert!(!body.has_class("", CaseSensitivity::CaseSensitive));
    assert!(!at(&t, &[0]).has_class("one", CaseSensitivity::CaseSensitive));
}

#[test]
fn links_need_href() {
    let t = tree();
    assert!(at(&t, &[0, 0, 1]).is_link());
    assert!(!at(&t, &[0, 0, 3]).is_link());
    assert!(at(&t, &[0, 0, 4]).is_link());
    assert!(!at(&t, &[0, 0]).is_link());
    assert!(at(&t, &[0, 0, 1]).match_non_ts_pseudo_class(&NonTreeStructuralPseudoClass::Visited));
    assert!(!at(&t, &[0, 0, 3]).match_non_ts_pseudo_class(&NonTreeStructuralPseudoClass::AnyLink));
    assert!(!at(&t, &[0, 0, 3]).match_non_ts_pseudo_class(&NonTreeStructuralPseudoClass::Link));
    assert!(at(&t, &[0, 0, 3]).match_non_ts_pseudo_class(&NonTreeStructuralPseudoClass::Other));
    assert!(at(&t, &[0, 0, 3]).match_pseudo_element());
}

#[test]
fn names_emptiness_and_kinds() {
    let t = tree();
    let body = at(&t, &[0, 0]);
    assert_eq!(body.get_local_name(), "body");
    assert_eq!(body.get_namespace(), "");
    assert_eq!(at(&t, &[0, 0, 0]).get_local_name(), "");
    assert!(!body.is_empty());
    assert!(at(&t, &[0, 0, 3]).is_empty());
    assert!(body.is_element_node());
    assert!(at(&t, &[0, 0, 0]).is_text_node());
    assert!(!at(&t, &[0, 0, 0]).is_element_node());
    assert!(body.is_only_local("body"));
    assert!(!body.is_only_local("html"));
    assert!(body.is_only_local_of(&vec!["p".to_string(), "body".to_string()]));
    assert!(!at(&t, &[0, 0, 0]).is_only_local("body"));
}

#[test]
fn attribute_values_are_handed_to_users() {
    let t = tree();
    let body = at(&t, &[0, 0]);
    assert_eq!(body.use_attribute_value("id", |v: &str| v.len(), 99), 4);
    assert_eq!(body.use_attribute_value("lang", |v: &str| v.len(), 99), 99);
    assert_eq!(at(&t, &[0, 0, 0]).use_text_value(|v: &str| v.to_string(), String::new()), "t0");
    assert_eq!(body.use_text_value(|v: &str| v.to_string(), "none".to_string()), "none");
    assert_eq!(body.attr_matches(&NamespaceConstraint::Any, "id").map(|s| s.as_str()), Some("Main"));
    assert_eq!(body.attr_matches(&NamespaceConstraint::Specific(String::new()), "id").map(|s| s.as_str()), Some("Main"));
    assert!(body.attr_matches(&NamespaceConstraint::Specific("urn:x".to_string()), "id").is_none());
    assert!(body.attr_matches(&NamespaceConstraint::Any, "title").is_none());
}

#[test]
fn qualified_names_with_prefix_are_not_local_only() {
    let q = QualName { prefix: Some("x".to_string()), ns: String::new(), local: "a".to_string() };
    assert!(!q.is_only_local("a"));
    let r = QualName { prefix: None, ns: "urn:y".to_string(), local: "a".to_string() };
    assert!(!r.is_only_local_of(&vec!["a".to_string()]));
    assert!(qn("a").is_only_local_of(&vec!["b".to_string(), "a".to_string()]));
}
