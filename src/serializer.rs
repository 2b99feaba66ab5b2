//! A serializer that writes document trees as minimal HTML, choosing for each attribute
//! value the cheapest quoting that reads back exactly.

use vstd::prelude::*;
use vstd::string::*;
use crate::dom::{Attribute, Node, NodeData, QualName};
use crate::names::{
    can_have_children, can_have_children_spec, text_content_should_be_escaped,
    text_content_should_be_escaped_spec,
};
use crate::text::{ascii_lower_seq, append_ascii_lowercase, push_char, same_chars};

verus! {

/// The namespace of the `xmlns` attributes.
pub const XMLNS_NAMESPACE: &'static str = "http://www.w3.org/2000/xmlns/";

/// Characters that rule out the unquoted form of an attribute value.
pub open spec fn forces_quoting(c: char) -> bool {
    c == '\t' || c == '\n' || c == '\x0C' || c == '\r' || c == ' ' || c == '<' || c == '='
        || c == '>' || c == '`'
}

/// Whether an attribute value cannot be written unquoted.
pub open spec fn needs_quotes(v: Seq<char>) -> bool {
    exists|i: int| 0 <= i < v.len() && (forces_quoting(v[i]) || v[i] == '"' || v[i] == '\'')
}

/// The form in which an attribute value is written.
#[derive(Clone, Copy, Debug, PartialEq, Eq)]
pub enum AttributeValueForm {
    /// `=value`
    Unquoted,
    /// `='value'`
    SingleQuoted,
    /// `="value"`
    DoubleQuoted,
    /// `='value'` with each apostrophe written as `&#39;`
    SingleQuotedEscapingApostrophe,
}

/// The cheapest form that writes `v` unambiguously.
pub open spec fn attribute_value_form(v: Seq<char>) -> AttributeValueForm {
    if !needs_quotes(v) {
        AttributeValueForm::Unquoted
    } else if v.contains('"') {
        if v.contains('\'') {
            AttributeValueForm::SingleQuotedEscapingApostrophe
        } else {
            AttributeValueForm::SingleQuoted
        }
    } else if v.contains('\'') {
        AttributeValueForm::DoubleQuoted
    } else {
        AttributeValueForm::SingleQuoted
    }
}

/// How one character is written: `&` always escaped, `<` and `>` where `angle_brackets`,
/// `'` where `apostrophe`.
pub open spec fn escaped_char(c: char, angle_brackets: bool, apostrophe: bool) -> Seq<char> {
    if c == '&' {
        "&amp;"@
    } else if angle_brackets && c == '<' {
        "&lt;"@
    } else if angle_brackets && c == '>' {
        "&gt;"@
    } else if apostrophe && c == '\'' {
        "&#39;"@
    } else {
        seq![c]
    }
}

/// How a string is written, character by character.
pub open spec fn escaped(s: Seq<char>, angle_brackets: bool, apostrophe: bool) -> Seq<char>
    decreases s.len(),
{
    if s.len() == 0 {
        seq![]
    } else {
        escaped(s.drop_last(), angle_brackets, apostrophe) + escaped_char(
            s.last(),
            angle_brackets,
            apostrophe,
        )
    }
}

/// What follows the `=` of a non-empty attribute value.
pub open spec fn attribute_value_text(v: Seq<char>) -> Seq<char> {
    match attribute_value_form(v) {
        AttributeValueForm::Unquoted => escaped(v, false, false),
        AttributeValueForm::SingleQuoted => "'"@ + escaped(v, false, false) + "'"@,
        AttributeValueForm::DoubleQuoted => "\""@ + escaped(v, false, false) + "\""@,
        AttributeValueForm::SingleQuotedEscapingApostrophe => "'"@ + escaped(v, false, true)
            + "'"@,
    }
}

/// A qualified name as written: lower-cased, with its prefix if it has one.
pub open spec fn qualified_name_text(n: QualName) -> Seq<char> {
    match n.prefix {
        Some(p) => ascii_lower_seq(p@) + ":"@ + ascii_lower_seq(n.local@),
        None => ascii_lower_seq(n.local@),
    }
}

/// An attribute's name as written; `xmlns:xmlns` is written `xmlns`.
pub open spec fn attribute_name_text(n: QualName) -> Seq<char> {
    if n.ns@ == XMLNS_NAMESPACE@ && n.local@ == "xmlns"@ {
        n.local@
    } else {
        qualified_name_text(n)
    }
}

/// One attribute as written, with its leading space.
pub open spec fn attribute_text(a: Attribute) -> Seq<char> {
    " "@ + attribute_name_text(a.name) + if a.value@.len() == 0 {
        seq![]
    } else {
        "="@ + attribute_value_text(a.value@)
    }
}

/// Attributes as written, in order.
pub open spec fn attributes_text(attrs: Seq<Attribute>) -> Seq<char>
    decreases attrs.len(),
{
    if attrs.len() == 0 {
        seq![]
    } else {
        attributes_text(attrs.drop_last()) + attribute_text(attrs.last())
    }
}

/// A start tag as written.
pub open spec fn start_tag_text(name: QualName, attrs: Seq<Attribute>) -> Seq<char> {
    "<"@ + qualified_name_text(name) + attributes_text(attrs) + ">"@
}

/// An end tag as written: nothing for an element that cannot have children.
pub open spec fn end_tag_text(name: QualName) -> Seq<char> {
    if can_have_children_spec(name) {
        "</"@ + qualified_name_text(name) + ">"@
    } else {
        seq![]
    }
}

/// Text as written inside an element that escapes its text or not.
pub open spec fn text_text(contents: Seq<char>, escape: bool) -> Seq<char> {
    if escape {
        escaped(contents, true, false)
    } else {
        contents
    }
}

/// A node as written, where `escape` says whether the enclosing element escapes text.
pub open spec fn node_text(n: Node, escape: bool) -> Seq<char>
    decreases n, 1nat,
{
    match n.data {
        NodeData::Document => nodes_text(n.children@, escape),
        NodeData::Doctype { name, .. } => "<!DOCTYPE "@ + name@ + ">"@,
        NodeData::Text { contents } => text_text(contents@, escape),
        NodeData::Comment { contents } => "<!--"@ + contents@ + "-->"@,
        NodeData::Element { name, attrs } => start_tag_text(name, attrs@) + nodes_text(
            n.children@,
            text_content_should_be_escaped_spec(name),
        ) + end_tag_text(name),
        NodeData::ProcessingInstruction { target, contents } => "<?"@ + target@ + " "@
            + contents@ + "?>"@,
    }
}

/// A sequence of nodes as written, one after the other.
pub open spec fn nodes_text(s: Seq<Node>, escape: bool) -> Seq<char>
    decreases s, 0nat,
{
    if s.len() == 0 {
        seq![]
    } else {
        nodes_text(s.drop_last(), escape) + node_text(s.last(), escape)
    }
}

/// Decoding of the character references that attribute values are written with: `&amp;`
/// and `&#39;`; every other character stands for itself.
pub open spec fn unescape(t: Seq<char>) -> Seq<char>
    decreases t.len(),
{
    if t.len() == 0 {
        seq![]
    } else if t.len() >= 5 && t.subrange(0, 5) == "&amp;"@ {
        seq!['&'] + unescape(t.subrange(5, t.len() as int))
    } else if t.len() >= 5 && t.subrange(0, 5) == "&#39;"@ {
        seq!['\''] + unescape(t.subrange(5, t.len() as int))
    } else {
        seq![t[0]] + unescape(t.subrange(1, t.len() as int))
    }
}

/// The characters that the written character references are made of.
pub open spec fn is_reference_char(c: char) -> bool {
    c == '&' || c == 'a' || c == 'm' || c == 'p' || c == ';' || c == '#' || c == '3' || c == '9'
}

/// Written attribute values seen from the front: the first character, then the rest.
proof fn lemma_escaped_front(v: Seq<char>, apostrophe: bool)
    requires
        v.len() > 0,
    ensures
        escaped(v, false, apostrophe) == escaped_char(v[0], false, apostrophe) + escaped(
            v.subrange(1, v.len() as int),
            false,
            apostrophe,
        ),
    decreases v.len(),
{
    if v.len() == 1 {
        assert(v.drop_last() =~= Seq::<char>::empty());
        assert(v.subrange(1, 1) =~= Seq::<char>::empty());
        assert(escaped(v.drop_last(), false, apostrophe) == Seq::<char>::empty());
        assert(escaped(v.subrange(1, 1), false, apostrophe) == Seq::<char>::empty());
        assert(v.last() == v[0]);
        assert(escaped(v, false, apostrophe) =~= escaped_char(v[0], false, apostrophe));
    } else {
        lemma_escaped_front(v.drop_last(), apostrophe);
        assert(v.drop_last().subrange(1, v.len() - 1) =~= v.subrange(1, v.len() as int).drop_last());
        assert(v.subrange(1, v.len() as int).last() == v.last());
        assert(escaped(v, false, apostrophe) =~= escaped_char(v[0], false, apostrophe) + escaped(
            v.subrange(1, v.len() as int),
            false,
            apostrophe,
        ));
    }
}

/// Decoding what one character was written as gives the character back.
proof fn lemma_unescape_char(c: char, rest: Seq<char>, apostrophe: bool)
    ensures
        unescape(escaped_char(c, false, apostrophe) + rest) == seq![c] + unescape(rest),
{
    reveal_strlit("&amp;");
    reveal_strlit("&#39;");
    let t = escaped_char(c, false, apostrophe) + rest;
    if c == '&' || (apostrophe && c == '\'') {
        assert(t.subrange(0, 5) =~= escaped_char(c, false, apostrophe));
        assert(t.subrange(5, t.len() as int) =~= rest);
        assert("&#39;"@[1] != "&amp;"@[1]);
    } else {
        assert(t[0] == c);
        assert(t.len() >= 5 ==> t.subrange(0, 5)[0] == c);
        assert(t.subrange(1, t.len() as int) =~= rest);
    }
}

/// Decoding a written attribute value gives the value back.
proof fn lemma_unescape_escaped(v: Seq<char>, apostrophe: bool)
    ensures
        unescape(escaped(v, false, apostrophe)) == v,
    decreases v.len(),
{
    if v.len() == 0 {
        assert(escaped(v, false, apostrophe) =~= Seq::<char>::empty());
    } else {
        lemma_escaped_front(v, apostrophe);
        lemma_unescape_char(v[0], escaped(v.subrange(1, v.len() as int), false, apostrophe), apostrophe);
        lemma_unescape_escaped(v.subrange(1, v.len() as int), apostrophe);
        assert(seq![v[0]] + v.subrange(1, v.len() as int) =~= v);
    }
}

/// Every character of a written attribute value is a character of the value (an apostrophe
/// only where apostrophes are not escaped) or part of a character reference.
proof fn lemma_escaped_chars(v: Seq<char>, apostrophe: bool)
    ensures
        forall|i: int|
            0 <= i < escaped(v, false, apostrophe).len() ==> {
                let x = #[trigger] escaped(v, false, apostrophe)[i];
                is_reference_char(x) || (v.contains(x) && !(apostrophe && x == '\''))
            },
    decreases v.len(),
{
    reveal_strlit("&amp;");
    reveal_strlit("&#39;");
    if v.len() > 0 {
        let init = v.drop_last();
        lemma_escaped_chars(init, apostrophe);
        let e = escaped(v, false, apostrophe);
        let a = escaped(init, false, apostrophe);
        let b = escaped_char(v.last(), false, apostrophe);
        assert forall|i: int| 0 <= i < e.len() implies {
            let x = #[trigger] e[i];
            is_reference_char(x) || (v.contains(x) && !(apostrophe && x == '\''))
        } by {
            if i < a.len() {
                assert(e[i] == a[i]);
                if init.contains(a[i]) {
                    let j = choose|j: int| 0 <= j < init.len() && init[j] == a[i];
                    assert(v[j] == a[i]);
                }
            } else {
                assert(e[i] == b[i - a.len()]);
                if b == seq![v.last()] {
                    assert(v[v.len() - 1] == v.last());
                }
            }
        }
    }
}

/// A written non-empty attribute value reads back as the value: an unquoted one holds no
/// character that would end it, a quoted one starts and ends with its quote and holds no
/// other, and decoding the character references in what stands inside gives the value.
pub proof fn lemma_attribute_value_round_trip(v: Seq<char>)
    requires
        v.len() > 0,
    ensures
        ({
            let t = attribute_value_text(v);
            match attribute_value_form(v) {
                AttributeValueForm::Unquoted => !needs_quotes(t) && unescape(t) == v,
                _ => t.len() >= 2 && (t[0] == '\'' || t[0] == '"') && t.last() == t[0] && !t.subrange(
                    1,
                    t.len() - 1,
                ).contains(t[0]) && unescape(t.subrange(1, t.len() - 1)) == v,
            }
        }),
{
    reveal_strlit("'");
    reveal_strlit("\"");
    let form = attribute_value_form(v);
    let apostrophe = form == AttributeValueForm::SingleQuotedEscapingApostrophe;
    let inner = escaped(v, false, apostrophe);
    lemma_unescape_escaped(v, apostrophe);
    lemma_escaped_chars(v, apostrophe);
    let t = attribute_value_text(v);
    if form == AttributeValueForm::Unquoted {
        assert(t == inner);
        assert forall|i: int| 0 <= i < t.len() implies !(forces_quoting(t[i]) || t[i] == '"' || t[i] == '\'') by {
            if v.contains(t[i]) {
                let j = choose|j: int| 0 <= j < v.len() && v[j] == t[i];
                assert(!(forces_quoting(v[j]) || v[j] == '"' || v[j] == '\''));
            }
        }
    } else {
        let q = if form == AttributeValueForm::DoubleQuoted { '"' } else { '\'' };
        assert(t =~= seq![q] + inner + seq![q]);
        assert(t.subrange(1, t.len() - 1) =~= inner);
        assert(!inner.contains(q)) by {
            if inner.contains(q) {
                let i = choose|i: int| 0 <= i < inner.len() && inner[i] == q;
                assert(inner[i] == q);
            }
        }
    }
}

/// One entry per open element.
#[derive(Clone, Copy, Debug, PartialEq, Eq, Hash, Default)]
pub struct MinifyingHtmlSerializerStackItem {
    pub text_content_should_be_escaped: bool,
}

/// Writes document trees as HTML with no added whitespace and attribute values in their
/// cheapest form. End tags are left out only for elements that cannot have children.
pub struct MinifyingHtmlSerializer {
    writer: String,
    stack: Vec<MinifyingHtmlSerializerStackItem>,
}

impl MinifyingHtmlSerializer {
    /// What has been written so far.
    pub closed spec fn written(&self) -> Seq<char> {
        self.writer@
    }

    /// For the document and each open element, whether text inside it is escaped.
    pub closed spec fn open_elements(&self) -> Seq<bool> {
        self.stack@.map_values(|i: MinifyingHtmlSerializerStackItem| i.text_content_should_be_escaped)
    }

    /// Whether text written now is escaped.
    pub open spec fn escapes_text(&self) -> bool {
        self.open_elements().last()
    }

    /// Construct a new serializer of HTML DOM nodes.
    pub fn new() -> (r: Self)
        ensures
            r.written() == Seq::<char>::empty(),
            r.open_elements() == seq![false],
    {
        let r = MinifyingHtmlSerializer {
            writer: String::new(),
            stack: vec![MinifyingHtmlSerializerStackItem { text_content_should_be_escaped: false }],
        };
        assert(r.open_elements() =~= seq![false]);
        r
    }

    /// What has been written, handed over.
    pub fn into_output(self) -> (r: String)
        ensures
            r@ == self.written(),
    {
        self.writer
    }

    fn parent(&self) -> (r: MinifyingHtmlSerializerStackItem)
        requires
            self.open_elements().len() >= 1,
        ensures
            r.text_content_should_be_escaped == self.escapes_text(),
    {
        self.stack[self.stack.len() - 1]
    }

    fn write_all(&mut self, s: &str)
        ensures
            final(self).written() == old(self).written() + s@,
            final(self).open_elements() == old(self).open_elements(),
    {
        self.writer.append(s);
    }

    fn write_all_str(&mut self, s: &String)
        ensures
            final(self).written() == old(self).written() + s@,
            final(self).open_elements() == old(self).open_elements(),
    {
        self.write_all(s.as_str());
    }

    fn write_char(&mut self, c: char)
        ensures
            final(self).written() == old(self).written().push(c),
            final(self).open_elements() == old(self).open_elements(),
    {
        push_char(&mut self.writer, c);
    }

    fn write_single_quote(&mut self)
        ensures
            final(self).written() == old(self).written() + "'"@,
            final(self).open_elements() == old(self).open_elements(),
    {
        self.write_all("'");
    }

    fn write_double_quote(&mut self)
        ensures
            final(self).written() == old(self).written() + "\""@,
            final(self).open_elements() == old(self).open_elements(),
    {
        self.write_all("\"");
    }

    fn write_ampersand_escape(&mut self)
        ensures
            final(self).written() == old(self).written() + "&amp;"@,
            final(self).open_elements() == old(self).open_elements(),
    {
        self.write_all("&amp;");
    }

    fn write_apostrophe_escape(&mut self)
        ensures
            final(self).written() == old(self).written() + "&#39;"@,
            final(self).open_elements() == old(self).open_elements(),
    {
        // `&#39;` is shorter than `&apos;`
        self.write_all("&#39;");
    }

    fn write_escaped(&mut self, s: &str, angle_brackets: bool, apostrophe: bool)
        ensures
            final(self).written() == old(self).written() + escaped(s@, angle_brackets, apostrophe),
            final(self).open_elements() == old(self).open_elements(),
    {
        let ghost start = self.written();
        for c in it: s.chars()
            invariant
                it.seq() == s@,
                self.written() == start + escaped(
                    s@.subrange(0, it.index() as int),
                    angle_brackets,
                    apostrophe,
                ),
                self.open_elements() == old(self).open_elements(),
        {
            proof {
                assert(s@.subrange(0, it.index() + 1).drop_last() =~= s@.subrange(
                    0,
                    it.index() as int,
                ));
            }
            if c == '&' {
                self.write_ampersand_escape();
            } else if angle_brackets && c == '<' {
                self.write_all("&lt;");
            } else if angle_brackets && c == '>' {
                self.write_all("&gt;");
            } else if apostrophe && c == '\'' {
                self.write_apostrophe_escape();
            } else {
                self.write_char(c);
                assert(seq![c] =~= Seq::<char>::empty().push(c));
            }
            assert(self.written() =~= start + escaped(
                s@.subrange(0, it.index() + 1),
                angle_brackets,
                apostrophe,
            ));
        }
        assert(s@.subrange(0, s@.len() as int) =~= s@);
    }

    fn write_text_escaped(&mut self, text: &str)
        ensures
            final(self).written() == old(self).written() + escaped(text@, true, false),
            final(self).open_elements() == old(self).open_elements(),
    {
        self.write_escaped(text, true, false)
    }

    fn write_attribute_value_escaping_ampersand_and_single_quote(&mut self, value: &str)
        ensures
            final(self).written() == old(self).written() + escaped(value@, false, true),
            final(self).open_elements() == old(self).open_elements(),
    {
        self.write_escaped(value, false, true)
    }

    fn write_attribute_value_escaping_only_ampersand(&mut self, value: &str)
        ensures
            final(self).written() == old(self).written() + escaped(value@, false, false),
            final(self).open_elements() == old(self).open_elements(),
    {
        self.write_escaped(value, false, false)
    }

    fn write_all_qualified_name(&mut self, name: &QualName)
        ensures
            final(self).written() == old(self).written() + qualified_name_text(*name),
            final(self).open_elements() == old(self).open_elements(),
    {
        match &name.prefix {
            Some(prefix) => {
                append_ascii_lowercase(&mut self.writer, prefix.as_str());
                self.write_all(":");
            },
            None => {},
        }
        append_ascii_lowercase(&mut self.writer, name.local.as_str());
        assert(self.written() =~= old(self).written() + qualified_name_text(*name));
    }

    /// Writes a non-empty attribute value in its cheapest form.
    fn write_attribute_value(&mut self, value: &str)
        ensures
            final(self).written() == old(self).written() + attribute_value_text(value@),
            final(self).open_elements() == old(self).open_elements(),
    {
        let (can_write_unquoted, contains_double_quotes, contains_single_quotes) =
            classify_attribute_value(value);
        // An ampersand is escaped in every form: one followed by alphanumerics and a
        // semicolon would otherwise be read as a character reference.
        if can_write_unquoted {
            self.write_attribute_value_escaping_only_ampersand(value);
        } else if contains_double_quotes {
            self.write_single_quote();
            if contains_single_quotes {
                self.write_attribute_value_escaping_ampersand_and_single_quote(value);
            } else {
                self.write_attribute_value_escaping_only_ampersand(value);
            }
            self.write_single_quote();
        } else if contains_single_quotes {
            self.write_double_quote();
            self.write_attribute_value_escaping_only_ampersand(value);
            self.write_double_quote();
        } else {
            self.write_single_quote();
            self.write_attribute_value_escaping_only_ampersand(value);
            self.write_single_quote();
        }
    }

    /// Writes an attribute's name, and its value where that is not empty.
    fn write_attribute(&mut self, attribute: &Attribute)
        ensures
            final(self).written() == old(self).written() + attribute_text(*attribute),
            final(self).open_elements() == old(self).open_elements(),
    {
        self.write_all(" ");
        let name = &attribute.name;
        if same_chars(name.ns.as_str(), XMLNS_NAMESPACE) && same_chars(name.local.as_str(), "xmlns") {
            self.write_all_str(&name.local);
        } else {
            self.write_all_qualified_name(name);
        }
        let value = attribute.value.as_str();
        if value.unicode_len() != 0 {
            self.write_all("=");
            self.write_attribute_value(value);
        }
        assert(self.written() =~= old(self).written() + attribute_text(*attribute));
    }

    /// Writes a start tag and opens the element.
    pub fn start_elem(&mut self, name: &QualName, attrs: &Vec<Attribute>)
        ensures
            final(self).written() == old(self).written() + start_tag_text(*name, attrs@),
            final(self).open_elements() == old(self).open_elements().push(
                text_content_should_be_escaped_spec(*name),
            ),
    {
        let ghost start = self.written();
        self.write_all("<");
        self.write_all_qualified_name(name);
        let mut i: usize = 0;
        while i < attrs.len()
            invariant
                i <= attrs.len(),
                self.written() == start + "<"@ + qualified_name_text(*name) + attributes_text(
                    attrs@.subrange(0, i as int),
                ),
                self.open_elements() == old(self).open_elements(),
            decreases attrs.len() - i,
        {
            self.write_attribute(&attrs[i]);
            assert(attrs@.subrange(0, i + 1).drop_last() =~= attrs@.subrange(0, i as int));
            assert(self.written() =~= start + "<"@ + qualified_name_text(*name) + attributes_text(
                attrs@.subrange(0, i + 1),
            ));
            i = i + 1;
        }
        assert(attrs@.subrange(0, attrs.len() as int) =~= attrs@);
        self.write_all(">");
        // `</style>` or `</script>` inside raw text is not intercepted.
        self.stack.push(
            MinifyingHtmlSerializerStackItem {
                text_content_should_be_escaped: text_content_should_be_escaped(name),
            },
        );
        assert(self.open_elements() =~= old(self).open_elements().push(
            text_content_should_be_escaped_spec(*name),
        ));
        assert(self.written() =~= old(self).written() + start_tag_text(*name, attrs@));
    }

    /// Closes the element and writes its end tag, unless it cannot have children.
    pub fn end_elem(&mut self, name: &QualName)
        requires
            old(self).open_elements().len() >= 2,
        ensures
            final(self).written() == old(self).written() + end_tag_text(*name),
            final(self).open_elements() == old(self).open_elements().drop_last(),
    {
        self.stack.pop();
        assert(self.open_elements() =~= old(self).open_elements().drop_last());
        if can_have_children(name) {
            self.write_all("</");
            self.write_all_qualified_name(name);
            self.write_all(">");
        }
        assert(self.written() =~= old(self).written() + end_tag_text(*name));
    }

    /// Writes text, escaped unless the open element holds raw text.
    pub fn write_text(&mut self, text: &str)
        requires
            old(self).open_elements().len() >= 1,
        ensures
            final(self).written() == old(self).written() + text_text(
                text@,
                old(self).escapes_text(),
            ),
            final(self).open_elements() == old(self).open_elements(),
    {
        if self.parent().text_content_should_be_escaped {
            self.write_text_escaped(text)
        } else {
            self.write_all(text)
        }
    }

    /// Writes a comment verbatim.
    pub fn write_comment(&mut self, text: &str)
        ensures
            final(self).written() == old(self).written() + "<!--"@ + text@ + "-->"@,
            final(self).open_elements() == old(self).open_elements(),
    {
        self.write_all("<!--");
        self.write_all(text);
        self.write_all("-->");
    }

    /// Writes a DOCTYPE.
    pub fn write_doctype(&mut self, name: &str)
        ensures
            final(self).written() == old(self).written() + "<!DOCTYPE "@ + name@ + ">"@,
            final(self).open_elements() == old(self).open_elements(),
    {
        self.write_all("<!DOCTYPE ");
        self.write_all(name);
        self.write_all(">");
    }

    /// Writes a processing instruction.
    pub fn write_processing_instruction(&mut self, target: &str, data: &str)
        ensures
            final(self).written() == old(self).written() + "<?"@ + target@ + " "@ + data@
                + "?>"@,
            final(self).open_elements() == old(self).open_elements(),
    {
        self.write_all("<?");
        self.write_all(target);
        self.write_all(" ");
        self.write_all(data);
        self.write_all("?>");
    }

    /// Writes a node and everything below it.
    pub fn serialize(&mut self, node: &Node)
        requires
            old(self).open_elements().len() >= 1,
        ensures
            final(self).written() == old(self).written() + node_text(
                *node,
                old(self).escapes_text(),
            ),
            final(self).open_elements() == old(self).open_elements(),
        decreases node,
    {
        let ghost start = self.written();
        match &node.data {
            NodeData::Element { name, attrs } => {
                self.start_elem(name, attrs);
                let ghost before = self.written();
                let ghost inner = self.open_elements();
                let mut i: usize = 0;
                while i < node.children.len()
                    invariant
                        i <= node.children.len(),
                        inner.len() >= 2,
                        inner.last() == text_content_should_be_escaped_spec(*name),
                        self.open_elements() == inner,
                        self.written() == before + nodes_text(
                            node.children@.subrange(0, i as int),
                            inner.last(),
                        ),
                    decreases node.children.len() - i,
                {
                    self.serialize(&node.children[i]);
                    assert(node.children@.subrange(0, i + 1).drop_last() =~= node.children@.subrange(
                        0,
                        i as int,
                    ));
                    assert(self.written() =~= before + nodes_text(
                        node.children@.subrange(0, i + 1),
                        inner.last(),
                    ));
                    i = i + 1;
                }
                assert(node.children@.subrange(0, node.children.len() as int) =~= node.children@);
                self.end_elem(name);
                assert(self.open_elements() =~= old(self).open_elements());
                assert(self.written() =~= start + node_text(*node, old(self).escapes_text()));
            },
            NodeData::Document => {
                let mut i: usize = 0;
                while i < node.children.len()
                    invariant
                        i <= node.children.len(),
                        self.open_elements() == old(self).open_elements(),
                        old(self).open_elements().len() >= 1,
                        node.data is Document,
                        self.written() == start + nodes_text(
                            node.children@.subrange(0, i as int),
                            old(self).escapes_text(),
                        ),
                    decreases node.children.len() - i,
                {
                    self.serialize(&node.children[i]);
                    assert(node.children@.subrange(0, i + 1).drop_last() =~= node.children@.subrange(
                        0,
                        i as int,
                    ));
                    i = i + 1;
                }
                assert(node.children@.subrange(0, node.children.len() as int) =~= node.children@);
            },
            NodeData::Doctype { name, .. } => self.write_doctype(name.as_str()),
            NodeData::Text { contents } => self.write_text(contents.as_str()),
            NodeData::Comment { contents } => self.write_comment(contents.as_str()),
            NodeData::ProcessingInstruction { target, contents } => {
                self.write_processing_instruction(target.as_str(), contents.as_str())
            },
        }
    }

    /// Serializes a single node and everything below it.
    pub fn serialize_node(node: &Node) -> (r: String)
        ensures
            r@ == node_text(*node, false),
    {
        let mut serializer = Self::new();
        serializer.serialize(node);
        serializer.into_output()
    }

    /// Serializes a sequence of nodes, one after the other.
    pub fn serialize_nodes(nodes: &Vec<Node>) -> (r: String)
        ensures
            r@ == nodes_text(nodes@, false),
    {
        let mut serializer = Self::new();
        let mut i: usize = 0;
        while i < nodes.len()
            invariant
                i <= nodes.len(),
                serializer.open_elements() == seq![false],
                serializer.written() == nodes_text(nodes@.subrange(0, i as int), false),
            decreases nodes.len() - i,
        {
            serializer.serialize(&nodes[i]);
            assert(nodes@.subrange(0, i + 1).drop_last() =~= nodes@.subrange(0, i as int));
            i = i + 1;
        }
        assert(nodes@.subrange(0, nodes.len() as int) =~= nodes@);
        serializer.into_output()
    }
}

} // verus!

verus! {

/// Scans an attribute value once: whether it can be written unquoted, whether it holds a
/// double quote, whether it holds an apostrophe.
fn classify_attribute_value(value: &str) -> (r: (bool, bool, bool))
    ensures
        r.0 == !needs_quotes(value@),
        r.1 == value@.contains('"'),
        r.2 == value@.contains('\''),
{
    let mut can_write_unquoted = true;
    let mut contains_double_quotes = false;
    let mut contains_single_quotes = false;
    for c in it: value.chars()
        invariant
            it.seq() == value@,
            can_write_unquoted == forall|j: int|
                0 <= j < it.index() ==> !(forces_quoting(value@[j]) || value@[j] == '"'
                    || value@[j] == '\''),
            contains_double_quotes == exists|j: int| 0 <= j < it.index() && value@[j] == '"',
            contains_single_quotes == exists|j: int| 0 <= j < it.index() && value@[j] == '\'',
    {
        assert(value@[it.index() as int] == c);
        if forces_quoting_char(c) {
            can_write_unquoted = false;
        } else if c == '"' {
            can_write_unquoted = false;
            contains_double_quotes = true;
        } else if c == '\'' {
            can_write_unquoted = false;
            contains_single_quotes = true;
        }
    }
    (can_write_unquoted, contains_double_quotes, contains_single_quotes)
}

fn forces_quoting_char(c: char) -> (r: bool)
    ensures
        r == forces_quoting(c),
{
    c == '\t' || c == '\n' || c == '\x0C' || c == '\r' || c == ' ' || c == '<' || c == '='
        || c == '>' || c == '`'
}

} // verus!
