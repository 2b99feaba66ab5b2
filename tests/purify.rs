use css_purify::matching::find_all_matching_positions;
use css_purify::{
    Attribute, CaseSensitivity, ConditionalGroupRule, CssRule, DeduplicatedSelectors,
    DeduplicatedSelectorsExt, FindHtmlElementsMatchingCssSelector, HasCssRulesExt, Node, NodeData,
    NodeExt, PreprocessedHtml5ElementWrappingNode, QualName, QuirksMode, RcDom, StyleRule,
    Stylesheet,
};

fn qn(local: &str) -> QualName {
    QualName { prefix: None, ns: String::new(), local: local.to_string() }
}

fn el(name: &str, attrs: Vec<(&str, &str)>, children: Vec<Node>) -> Node {
    let attrs = attrs
        .into_iter()
        .map(|(n, v)| Attribute { name: qn(n), value: v.to_string() })
        .collect();
    Node { data: NodeData::Element { name: qn(name), attrs }, children }
}

fn text(s: &str) -> Node {
    Node { data: NodeData::Text { contents: s.to_string() }, children: vec![] }
}

fn dom(html: Node) -> RcDom {
    RcDom { document: Node { data: NodeData::Document, children: vec![html] }, errors: vec![], quirks_mode: QuirksMode::NoQuirks }
}

/// Paths of the nodes of a tree in pre-order.
fn preorder_paths(node: &Node, path: Vec<usize>, out: &mut Vec<Vec<usize>>) {
    out.push(path.clone());
    for (i, c) in node.children.iter().enumerate() {
        let mut p = path.clone();
        p.push(i);
        preorder_paths(c, p, out);
    }
}

/// What a class selector `.name` matches at each pre-order position of a document.
fn class_hits(d: &RcDom, class: &str) -> Vec<bool> {
    let mut paths = Vec::new();
    preorder_paths(&d.document, vec![], &mut paths);
    paths
        .into_iter()
        .map(|p| {
            let w = PreprocessedHtml5ElementWrappingNode::at(&d.document, p).unwrap();
            w.is_element_node() && w.has_class(class, CaseSensitivity::CaseSensitive)
        })
        .collect()
}

/// table[selector][document] for class selectors.
fn table(docs: &Vec<RcDom>, classes: &[&str]) -> Vec<Vec<Vec<bool>>> {
    classes.iter().map(|c| docs.iter().map(|d| class_hits(d, c)).collect()).collect()
}

fn style(selectors: Vec<usize>, declarations: usize) -> CssRule {
    CssRule::Style(StyleRule { selectors: DeduplicatedSelectors(selectors), declarations })
}

fn describe(rules: &Vec<CssRule>) -> String {
    let mut s = String::new();
    for r in rules {
        match r {
            CssRule::Style(st) => s.push_str(&format!("S{:?};", st.selectors.0)),
            CssRule::Media(g) => s.push_str(&format!("M{}[{}]", g.condition, describe(&g.rules))),
            CssRule::Supports(g) => s.push_str(&format!("U{}[{}]", g.condition, describe(&g.rules))),
            CssRule::Document(g) => s.push_str(&format!("D{}[{}]", g.condition, describe(&g.rules))),
            CssRule::Other(h) => s.push_str(&format!("O{};", h)),
        }
    }
    s
}

fn scenario_document() -> RcDom {
    dom(el("html", vec![], vec![el("body", vec![], vec![el("p", vec![("class", "a b")], vec![text("x")])])]))
}

#[test]
fn scenario_unused_class_rule_is_removed() {
    let docs = vec![scenario_document()];
    let t = table(&docs, &["a", "c"]);
    let mut sheet = Stylesheet { rules: vec![style(vec![0], 10), style(vec![1], 11)] };
    assert!(sheet.remove_unused_css_rules(&docs, &t));
    assert_eq!(describe(&sheet.rules), "S[0];");
}

#[test]
fn scenario_media_group_keeps_used_rule() {
    let docs = vec![scenario_document()];
    let t = table(&docs, &["a", "c"]);
    let mut sheet = Stylesheet {
        rules: vec![CssRule::Media(ConditionalGroupRule { condition: 7, rules: vec![style(vec![0], 1), style(vec![1], 2)] })],
    };
    assert!(sheet.remove_unused_css_rules(&docs, &t));
    assert_eq!(describe(&sheet.rules), "M7[S[0];]");
}

#[test]
fn scenario_media_group_without_used_rule_is_removed() {
    let docs = vec![scenario_document()];
    let t = table(&docs, &["c", "d"]);
    let mut sheet = Stylesheet {
        rules: vec![CssRule::Media(ConditionalGroupRule { condition: 7, rules: vec![style(vec![0], 1), style(vec![1], 2)] })],
    };
    assert!(!sheet.remove_unused_css_rules(&docs, &t));
    assert!(sheet.rules.is_empty());
}

#[test]
fn pruning_keeps_order_and_other_rules() {
    let docs = vec![scenario_document()];
    let t = table(&docs, &["a", "c", "b"]);
    let mut sheet = Stylesheet {
        rules: vec![
            style(vec![1, 2, 0], 1),
            CssRule::Other(5),
            CssRule::Supports(ConditionalGroupRule { condition: 2, rules: vec![style(vec![1], 2), style(vec![2], 3)] }),
            CssRule::Document(ConditionalGroupRule { condition: 3, rules: vec![] }),
            style(vec![1], 4),
            style(vec![0], 5),
        ],
    };
    assert!(sheet.remove_unused_css_rules(&docs, &t));
    assert_eq!(describe(&sheet.rules), "S[2, 0];O5;U2[S[2];]S[0];");
    let once = describe(&sheet.rules);
    assert!(sheet.remove_unused_css_rules(&docs, &t));
    assert_eq!(describe(&sheet.rules), once);
}

#[test]
fn selector_used_in_second_document_survives() {
    let docs = vec![scenario_document(), dom(el("html", vec![], vec![el("div", vec![("class", "c")], vec![])]))];
    let t = table(&docs, &["a", "c", "zz"]);
    let mut selectors = DeduplicatedSelectors(vec![2, 1, 0]);
    selectors.remove_unmatched_selectors(&docs, &t);
    assert_eq!(selectors.0, vec![1, 0]);
}

#[test]
fn selector_without_table_entry_is_unused() {
    let docs = vec![scenario_document()];
    let t = table(&docs, &["a"]);
    let mut selectors = DeduplicatedSelectors(vec![0, 3]);
    selectors.remove_unmatched_selectors(&docs, &t);
    assert_eq!(selectors.0, vec![0]);
}

#[test]
fn first_match_is_found_in_preorder() {
    let d = scenario_document();
    let hits = class_hits(&d, "b");
    assert_eq!(hits, vec![false, false, false, true, false]);
    assert_eq!(d.first_matching_position(&hits), Some(3));
    assert_eq!(d.document.find_all_matching_child_nodes_depth_first_including_this_one(&hits), Some(3));
    assert_eq!(d.document.find_all_matching_child_nodes_depth_first_including_this_one(&vec![true, true]), Some(1));
    assert_eq!(d.document.find_all_matching_child_nodes_depth_first_including_this_one(&vec![]), None);
}

#[test]
fn text_nodes_never_match() {
    let d = scenario_document();
    assert_eq!(d.document.find_all_matching_child_nodes_depth_first_including_this_one(&vec![true, false, false, false, true]), None);
    assert!(!text("x").matches(true));
    assert!(el("p", vec![], vec![]).matches(true));
    assert!(!el("p", vec![], vec![]).matches(false));
}

#[test]
fn documents_are_searched_in_order() {
    let docs = vec![scenario_document(), scenario_document()];
    assert!(docs.find_all_matching_nodes(&vec![vec![false; 5], vec![false, false, true]]));
    assert!(!docs.find_all_matching_nodes(&vec![vec![false; 5], vec![false; 5]]));
    assert!(!docs.find_all_matching_nodes(&vec![vec![false; 5]]));
    assert!(docs[0].find_all_matching_nodes(&vec![vec![false, true]]));
    assert!(!docs[0].find_all_matching_nodes(&vec![]));
}

#[test]
fn all_matches_are_collected_in_preorder() {
    let d = dom(el("html", vec![], vec![
        el("p", vec![("class", "a")], vec![text("x"), el("span", vec![("class", "a")], vec![])]),
        el("p", vec![("class", "b")], vec![]),
        el("div", vec![("class", "a")], vec![]),
    ]));
    let hits = class_hits(&d, "a");
    assert_eq!(find_all_matching_positions(&d.document, &hits), vec![2, 4, 6]);
    assert_eq!(find_all_matching_positions(&d.document, &hits[..5].to_vec()), vec![2, 4]);
    assert_eq!(find_all_matching_positions(&d.document, &vec![true, true, true, true]), vec![1, 2]);
    assert!(find_all_matching_positions(&d.document, &vec![]).is_empty());
}
