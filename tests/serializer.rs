use css_purify::{Attribute, MinifyingHtmlSerializer, Node, NodeData, NodeExt, QualName};
use html5ever::parse_document;
use html5ever::rcdom::{Handle, RcDom as ParsedDom};
use html5ever::tendril::TendrilSink;

fn qn(local: &str) -> QualName {
    QualName { prefix: None, ns: String::new(), local: local.to_string() }
}

fn attr(name: &str, value: &str) -> Attribute {
    Attribute { name: qn(name), value: value.to_string() }
}

fn el(name: &str, attrs: Vec<Attribute>, children: Vec<Node>) -> Node {
    Node { data: NodeData::Element { name: qn(name), attrs }, children }
}

fn text(s: &str) -> Node {
    Node { data: NodeData::Text { contents: s.to_string() }, children: vec![] }
}

fn p_with_title(value: &str) -> String {
    MinifyingHtmlSerializer::serialize_node(&el("p", vec![attr("title", value)], vec![]))
}

fn find_title(handle: &Handle) -> Option<String> {
    if let html5ever::rcdom::NodeData::Element { ref name, ref attrs, .. } = handle.data {
        if &*name.local == "p" {
            for a in attrs.borrow().iter() {
                if &*a.name.local == "title" {
                    return Some(a.value.to_string());
                }
            }
        }
    }
    for child in handle.children.borrow().iter() {
        if let Some(v) = find_title(child) {
            return Some(v);
        }
    }
    None
}

fn reparse_title(html: &str) -> String {
    let dom = parse_document(ParsedDom::default(), Default::default())
        .from_utf8()
        .read_from(&mut html.as_bytes())
        .unwrap();
    find_title(&dom.document).unwrap()
}

#[test]
fn attribute_without_special_characters_is_unquoted() {
    assert_eq!(p_with_title("abc"), "<p title=abc></p>");
}

#[test]
fn attribute_with_only_double_quote_is_single_quoted() {
    assert_eq!(p_with_title("a\"b"), "<p title='a\"b'></p>");
}

#[test]
fn attribute_with_only_apostrophe_is_double_quoted() {
    assert_eq!(p_with_title("a'b"), "<p title=\"a'b\"></p>");
}

#[test]
fn attribute_with_both_quotes_escapes_apostrophe() {
    assert_eq!(p_with_title("a\"b'c"), "<p title='a\"b&#39;c'></p>");
}

#[test]
fn attribute_with_space_is_single_quoted() {
    assert_eq!(p_with_title("a b"), "<p title='a b'></p>");
}

#[test]
fn attribute_with_forcing_characters_is_single_quoted() {
    assert_eq!(p_with_title("a=b"), "<p title='a=b'></p>");
    assert_eq!(p_with_title("a`b"), "<p title='a`b'></p>");
    assert_eq!(p_with_title("a\tb"), "<p title='a\tb'></p>");
    assert_eq!(p_with_title("a<b>"), "<p title='a<b>'></p>");
}

#[test]
fn attribute_ampersand_is_always_escaped() {
    assert_eq!(p_with_title("a&b"), "<p title=a&amp;b></p>");
    assert_eq!(p_with_title("a &b"), "<p title='a &amp;b'></p>");
    assert_eq!(p_with_title("&\"'"), "<p title='&amp;\"&#39;'></p>");
}

#[test]
fn scenario_he_said_hi() {
    assert_eq!(p_with_title("He said \"hi\""), "<p title='He said \"hi\"'></p>");
}

#[test]
fn scenario_its() {
    assert_eq!(p_with_title("It's"), "<p title=\"It's\"></p>");
}

#[test]
fn scenario_quoted_its() {
    assert_eq!(p_with_title("\"It's\""), "<p title='\"It&#39;s\"'></p>");
}

#[test]
fn quoting_round_trip_through_html_parser() {
    for value in ["abc", "a\"b", "a'b", "a\"b'c", "a b", "\"It's\"", "x&amp;y", "a&#39;b", "<>=`"] {
        let html = p_with_title(value);
        assert_eq!(reparse_title(&html), value, "{}", html);
    }
}

#[test]
fn empty_attribute_value_is_written_without_equals() {
    let node = el("input", vec![attr("disabled", "")], vec![]);
    assert_eq!(MinifyingHtmlSerializer::serialize_node(&node), "<input disabled>");
}

#[test]
fn void_element_has_no_end_tag() {
    let node = el("p", vec![], vec![el("br", vec![], vec![]), text("x"), el("img", vec![attr("src", "a.png")], vec![])]);
    assert_eq!(MinifyingHtmlSerializer::serialize_node(&node), "<p><br>x<img src=a.png></p>");
}

#[test]
fn text_is_escaped_outside_raw_text_elements() {
    let node = el("p", vec![], vec![text("a<b>&c\"'")]);
    assert_eq!(MinifyingHtmlSerializer::serialize_node(&node), "<p>a&lt;b&gt;&amp;c\"'</p>");
}

#[test]
fn raw_text_elements_are_written_verbatim() {
    let node = el("div", vec![], vec![el("script", vec![], vec![text("if (a < b && c > d) {}")]), el("style", vec![], vec![text("a>b{}")])]);
    assert_eq!(
        MinifyingHtmlSerializer::serialize_node(&node),
        "<div><script>if (a < b && c > d) {}</script><style>a>b{}</style></div>"
    );
}

#[test]
fn text_at_top_level_is_not_escaped() {
    assert_eq!(MinifyingHtmlSerializer::serialize_node(&text("a<b")), "a<b");
}

#[test]
fn names_are_lower_cased_with_prefix() {
    let name = QualName { prefix: Some("SVG".to_string()), ns: String::new(), local: "Rect".to_string() };
    let attribute = Attribute { name: QualName { prefix: Some("XLink".to_string()), ns: String::new(), local: "HREF".to_string() }, value: "#a".to_string() };
    let node = Node { data: NodeData::Element { name, attrs: vec![attribute] }, children: vec![] };
    assert_eq!(MinifyingHtmlSerializer::serialize_node(&node), "<svg:rect xlink:href=#a></svg:rect>");
}

#[test]
fn xmlns_xmlns_is_written_as_xmlns() {
    let attribute = Attribute {
        name: QualName { prefix: Some("xmlns".to_string()), ns: "http://www.w3.org/2000/xmlns/".to_string(), local: "xmlns".to_string() },
        value: "http://www.w3.org/2000/svg".to_string(),
    };
    let node = Node { data: NodeData::Element { name: qn("svg"), attrs: vec![attribute] }, children: vec![] };
    assert_eq!(MinifyingHtmlSerializer::serialize_node(&node), "<svg xmlns=http://www.w3.org/2000/svg></svg>");
}

#[test]
fn doctype_comment_and_processing_instruction() {
    let nodes = vec![
        Node { data: NodeData::Doctype { name: "html".to_string(), public_id: String::new(), system_id: String::new() }, children: vec![] },
        Node { data: NodeData::Comment { contents: " c " .to_string() }, children: vec![] },
        Node { data: NodeData::ProcessingInstruction { target: "xml".to_string(), contents: "v".to_string() }, children: vec![] },
    ];
    assert_eq!(MinifyingHtmlSerializer::serialize_nodes(&nodes), "<!DOCTYPE html><!-- c --><?xml v?>");
}

#[test]
fn document_serializes_its_children() {
    let document = Node {
        data: NodeData::Document,
        children: vec![el("html", vec![], vec![el("body", vec![], vec![text("é&")])])],
    };
    assert_eq!(document.to_html(), "<html><body>é&amp;</body></html>");
}

#[test]
fn serializer_methods_write_in_order() {
    let mut s = MinifyingHtmlSerializer::new();
    s.start_elem(&qn("p"), &vec![attr("class", "a b")]);
    s.write_text("1<2");
    s.write_comment("x");
    s.end_elem(&qn("p"));
    s.write_doctype("html");
    s.write_processing_instruction("t", "d");
    assert_eq!(s.into_output(), "<p class='a b'>1&lt;2<!--x--></p><!DOCTYPE html><?t d?>");
}
