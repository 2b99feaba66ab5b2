//! An element of a normalized tree seen through the interface that a selector matching
//! algorithm needs: navigation, attribute lookup and the pseudo-classes that a static tree
//! can decide.

use vstd::prelude::*;
use vstd::string::*;
use crate::dom::{lemma_forest_model, node_model, Attribute, DataModel, Node, NodeData, NodeModel};
use crate::names::{only_local_name_of, QualNameExt};
use crate::text::{ascii_lower_seq, eq_ignore_ascii_case_spec, same_chars, same_chars_ignoring_ascii_case};

verus! {

/// The node reached from `root` by following `path`, one child index per level.
pub open spec fn node_at(root: NodeModel, path: Seq<usize>) -> Option<NodeModel>
    decreases path.len(),
{
    if path.len() == 0 {
        Some(root)
    } else {
        match node_at(root, path.drop_last()) {
            Some(parent) => if path.last() < parent.children.len() {
                Some(parent.children[path.last() as int])
            } else {
                None
            },
            None => None,
        }
    }
}

/// Every prefix of a path that leads somewhere leads somewhere.
pub proof fn lemma_node_at_prefix(root: NodeModel, path: Seq<usize>, k: int)
    requires
        0 <= k <= path.len(),
        node_at(root, path) is Some,
    ensures
        node_at(root, path.subrange(0, k)) is Some,
    decreases path.len(),
{
    if k < path.len() {
        assert(path.drop_last().subrange(0, k) =~= path.subrange(0, k));
        lemma_node_at_prefix(root, path.drop_last(), k);
    } else {
        assert(path.subrange(0, k) =~= path);
    }
}

/// Whether a node is an element.
pub open spec fn is_element(m: NodeModel) -> bool {
    m.data is Element
}

/// How the value of an attribute is compared.
#[derive(Clone, Copy, Debug, PartialEq, Eq, Structural)]
pub enum CaseSensitivity {
    CaseSensitive,
    AsciiCaseInsensitive,
}

/// Equality of strings under a case sensitivity.
pub open spec fn eq_under(a: Seq<char>, b: Seq<char>, cs: CaseSensitivity) -> bool {
    match cs {
        CaseSensitivity::CaseSensitive => a == b,
        CaseSensitivity::AsciiCaseInsensitive => eq_ignore_ascii_case_spec(a, b),
    }
}

/// Which namespace an attribute selector asks for.
#[derive(Debug)]
pub enum NamespaceConstraint {
    Any,
    Specific(String),
}

/// The pseudo-classes that are not about the tree's structure.
#[derive(Clone, Copy, Debug)]
pub enum NonTreeStructuralPseudoClass {
    AnyLink,
    Link,
    Visited,
    /// Any other (hover, focus, checked, ...): its state is not known statically.
    Other,
}

/// The value of the first attribute whose name is `name` alone (no prefix, no namespace).
pub open spec fn attribute_value_of(attrs: Seq<Attribute>, name: Seq<char>) -> Option<Seq<char>>
    decreases attrs.len(),
{
    if attrs.len() == 0 {
        None
    } else if only_local_name_of(attrs[0].name) == Some(name) {
        Some(attrs[0].value@)
    } else {
        attribute_value_of(attrs.subrange(1, attrs.len() as int), name)
    }
}

/// Whether an attribute has local name `local` and meets the namespace constraint (`None`
/// for any namespace).
pub open spec fn meets_constraint(a: Attribute, ns: Option<Seq<char>>, local: Seq<char>) -> bool {
    a.name.local@ == local && (ns is None || ns == Some(a.name.ns@))
}

/// The value of the first attribute with local name `local` that meets the namespace
/// constraint.
pub open spec fn constrained_attribute_value_of(
    attrs: Seq<Attribute>,
    ns: Option<Seq<char>>,
    local: Seq<char>,
) -> Option<Seq<char>>
    decreases attrs.len(),
{
    if attrs.len() == 0 {
        None
    } else if meets_constraint(attrs[0], ns, local) {
        Some(attrs[0].value@)
    } else {
        constrained_attribute_value_of(attrs.subrange(1, attrs.len() as int), ns, local)
    }
}

/// The namespace that a constraint asks for, if any.
pub open spec fn constraint_namespace(ns: NamespaceConstraint) -> Option<Seq<char>> {
    match ns {
        NamespaceConstraint::Any => None,
        NamespaceConstraint::Specific(url) => Some(url@),
    }
}

/// The attributes of an element (none for other nodes).
pub open spec fn attributes_of(m: NodeModel) -> Seq<Attribute> {
    match m.data {
        DataModel::Element { attrs, .. } => attrs,
        _ => seq![],
    }
}

/// The value of an attribute of a node, looked up by its name alone.
pub open spec fn node_attribute_value(m: NodeModel, name: Seq<char>) -> Option<Seq<char>> {
    match m.data {
        DataModel::Element { attrs, .. } => attribute_value_of(attrs, name),
        _ => None,
    }
}

/// Whether a node is an `a`, `area` or `link` element with an `href` attribute.
pub open spec fn is_link_spec(m: NodeModel) -> bool {
    match m.data {
        DataModel::Element { name, attrs } => match only_local_name_of(name) {
            Some(l) => (l == "a"@ || l == "area"@ || l == "link"@) && attribute_value_of(
                attrs,
                "href"@,
            ) is Some,
            None => false,
        },
        _ => false,
    }
}

/// Whether a character separates class names.
pub open spec fn is_selector_whitespace(c: char) -> bool {
    c == ' ' || c == '\t' || c == '\n' || c == '\x0C' || c == '\r'
}

/// Whether `value[i..j]` is one of the whitespace-separated tokens of `value`.
pub open spec fn is_token(value: Seq<char>, i: int, j: int) -> bool {
    &&& 0 <= i <= j <= value.len()
    &&& (i == 0 || is_selector_whitespace(value[i - 1]))
    &&& (j == value.len() || is_selector_whitespace(value[j]))
    &&& forall|k: int| i <= k < j ==> !is_selector_whitespace(#[trigger] value[k])
}

/// Whether one of the whitespace-separated tokens of `value` equals `name`.
pub open spec fn has_token(value: Seq<char>, name: Seq<char>, cs: CaseSensitivity) -> bool {
    exists|i: int, j: int| is_token(value, i, j) && eq_under(#[trigger] value.subrange(i, j), name, cs)
}

fn selector_whitespace(c: char) -> (r: bool)
    ensures
        r == is_selector_whitespace(c),
{
    c == ' ' || c == '\t' || c == '\n' || c == '\x0C' || c == '\r'
}

/// Whether child `k` is the first element among `cs`.
pub open spec fn is_first_element(cs: Seq<NodeModel>, k: int) -> bool {
    0 <= k < cs.len() && is_element(cs[k]) && forall|j: int| 0 <= j < k ==> !is_element(#[trigger] cs[j])
}

/// Whether child `k` is the last element among `cs`.
pub open spec fn is_last_element(cs: Seq<NodeModel>, k: int) -> bool {
    0 <= k < cs.len() && is_element(cs[k]) && forall|j: int|
        k < j < cs.len() ==> !is_element(#[trigger] cs[j])
}

/// Whether `cs` holds an element.
pub open spec fn has_element(cs: Seq<NodeModel>) -> bool {
    exists|j: int| 0 <= j < cs.len() && is_element(#[trigger] cs[j])
}

/// Whether child `j` is the nearest element before child `i`.
pub open spec fn is_previous_element(cs: Seq<NodeModel>, i: int, j: int) -> bool {
    0 <= j < i && is_element(cs[j]) && forall|m: int| j < m < i ==> !is_element(#[trigger] cs[m])
}

/// Whether child `j` is the nearest element after child `i`.
pub open spec fn is_next_element(cs: Seq<NodeModel>, i: int, j: int) -> bool {
    i < j < cs.len() && is_element(cs[j]) && forall|m: int| i < m < j ==> !is_element(#[trigger] cs[m])
}

/// The value of the first attribute whose name is `name` alone.
fn find_attribute_value<'a>(attrs: &'a Vec<Attribute>, name: &str) -> (r: Option<&'a String>)
    ensures
        r is Some <==> attribute_value_of(attrs@, name@) is Some,
        r matches Some(v) ==> attribute_value_of(attrs@, name@) == Some(v@),
{
    let mut i: usize = 0;
    assert(attrs@.subrange(0, attrs@.len() as int) =~= attrs@);
    while i < attrs.len()
        invariant
            i <= attrs.len(),
            attribute_value_of(attrs@, name@) == attribute_value_of(
                attrs@.subrange(i as int, attrs@.len() as int),
                name@,
            ),
        decreases attrs.len() - i,
    {
        let ghost rest = attrs@.subrange(i as int, attrs@.len() as int);
        assert(rest.subrange(1, rest.len() as int) =~= attrs@.subrange(i + 1, attrs@.len() as int));
        assert(rest[0] == attrs@[i as int]);
        if attrs[i].name.is_only_local(name) {
            return Some(&attrs[i].value);
        }
        i = i + 1;
    }
    None
}

/// The value of the first attribute with local name `local` that meets the constraint.
fn find_constrained_attribute_value<'a>(
    attrs: &'a Vec<Attribute>,
    ns: &NamespaceConstraint,
    local: &str,
) -> (r: Option<&'a String>)
    ensures
        r is Some <==> constrained_attribute_value_of(attrs@, constraint_namespace(*ns), local@) is Some,
        r matches Some(v) ==> constrained_attribute_value_of(
            attrs@,
            constraint_namespace(*ns),
            local@,
        ) == Some(v@),
{
    let ghost c = constraint_namespace(*ns);
    let mut i: usize = 0;
    assert(attrs@.subrange(0, attrs@.len() as int) =~= attrs@);
    while i < attrs.len()
        invariant
            i <= attrs.len(),
            c == constraint_namespace(*ns),
            constrained_attribute_value_of(attrs@, c, local@) == constrained_attribute_value_of(
                attrs@.subrange(i as int, attrs@.len() as int),
                c,
                local@,
            ),
        decreases attrs.len() - i,
    {
        let ghost rest = attrs@.subrange(i as int, attrs@.len() as int);
        assert(rest.subrange(1, rest.len() as int) =~= attrs@.subrange(i + 1, attrs@.len() as int));
        assert(rest[0] == attrs@[i as int]);
        let attribute = &attrs[i];
        if same_chars(attribute.name.local.as_str(), local) {
            match ns {
                NamespaceConstraint::Any => {
                    return Some(&attribute.value);
                },
                NamespaceConstraint::Specific(url) => {
                    if same_chars(url.as_str(), attribute.name.ns.as_str()) {
                        return Some(&attribute.value);
                    }
                },
            }
        }
        i = i + 1;
    }
    None
}

/// Equality of two strings under a case sensitivity.
pub fn case_sensitive_equality(case_sensitivity: CaseSensitivity, left: &str, right: &str) -> (r:
    bool)
    ensures
        r == eq_under(left@, right@, case_sensitivity),
{
    match case_sensitivity {
        CaseSensitivity::CaseSensitive => same_chars(left, right),
        CaseSensitivity::AsciiCaseInsensitive => same_chars_ignoring_ascii_case(left, right),
    }
}

/// An empty string equals no non-empty one.
proof fn lemma_empty_not_equal(a: Seq<char>, b: Seq<char>, cs: CaseSensitivity)
    requires
        a.len() == 0,
        b.len() > 0,
    ensures
        !eq_under(a, b, cs),
{
    assert(ascii_lower_seq(a).len() == 0);
    assert(ascii_lower_seq(b).len() > 0);
}

/// A token that ends where the scan stands starts where the scan's current run started.
proof fn lemma_token_start(value: Seq<char>, start: int, i: int, j: int)
    requires
        0 <= start <= j,
        start == 0 || is_selector_whitespace(value[start - 1]),
        forall|m: int| start <= m < j ==> !is_selector_whitespace(#[trigger] value[m]),
        is_token(value, i, j),
    ensures
        i == start,
{
    if i < start {
        assert(!is_selector_whitespace(value[start - 1]));
    } else if i > start {
        assert(!is_selector_whitespace(value[i - 1]));
    }
}

/// Whether one of the whitespace-separated tokens of a class attribute's value equals `name`.
pub fn class_list_contains(value: &str, name: &str, case_sensitivity: CaseSensitivity) -> (r: bool)
    requires
        name@.len() > 0,
    ensures
        r == has_token(value@, name@, case_sensitivity),
{
    let n: usize = value.unicode_len();
    let mut start: usize = 0;
    let mut k: usize = 0;
    while k < n
        invariant
            k <= n,
            n == value@.len(),
            name@.len() > 0,
            start <= k,
            start == 0 || is_selector_whitespace(value@[start - 1]),
            forall|m: int| start <= m < k ==> !is_selector_whitespace(#[trigger] value@[m]),
            forall|i: int, j: int|
                is_token(value@, i, j) && j < k ==> !eq_under(
                    #[trigger] value@.subrange(i, j),
                    name@,
                    case_sensitivity,
                ),
        decreases n - k,
    {
        let c = value.get_char(k);
        if selector_whitespace(c) {
            if start < k {
                let token = value.substring_char(start, k);
                if case_sensitive_equality(case_sensitivity, token, name) {
                    assert(is_token(value@, start as int, k as int));
                    return true;
                }
            } else {
                proof {
                    lemma_empty_not_equal(value@.subrange(start as int, k as int), name@, case_sensitivity);
                }
            }
            assert(!eq_under(value@.subrange(start as int, k as int), name@, case_sensitivity));
            assert forall|i: int, j: int|
                is_token(value@, i, j) && j < k + 1 implies !eq_under(
                #[trigger] value@.subrange(i, j),
                name@,
                case_sensitivity,
            ) by {
                if j == k {
                    lemma_token_start(value@, start as int, i, j);
                    assert(value@.subrange(i, j).len() == j - i);
                }
            }
            start = k + 1;
        } else {
            assert forall|i: int, j: int|
                is_token(value@, i, j) && j < k + 1 implies !eq_under(
                #[trigger] value@.subrange(i, j),
                name@,
                case_sensitivity,
            ) by {
                if j == k {
                    assert(is_selector_whitespace(value@[k as int]));
                }
            }
        }
        k = k + 1;
    }
    if start < n {
        let token = value.substring_char(start, n);
        if case_sensitive_equality(case_sensitivity, token, name) {
            assert(is_token(value@, start as int, n as int));
            return true;
        }
    } else {
        proof {
            lemma_empty_not_equal(value@.subrange(start as int, n as int), name@, case_sensitivity);
        }
    }
    assert(!eq_under(value@.subrange(start as int, n as int), name@, case_sensitivity));
    assert forall|i: int, j: int| is_token(value@, i, j) implies !eq_under(
        #[trigger] value@.subrange(i, j),
        name@,
        case_sensitivity,
    ) by {
        if j == n {
            lemma_token_start(value@, start as int, i, j);
            assert(value@.subrange(i, j).len() == j - i);
        }
    }
    false
}

/// Follows a path down from the root.
fn node_at_path<'a>(root: &'a Node, path: &Vec<usize>) -> (r: Option<&'a Node>)
    ensures
        r is Some <==> node_at(root@, path@) is Some,
        r matches Some(n) ==> node_at(root@, path@) == Some(n@),
{
    let mut n: &'a Node = root;
    let mut i: usize = 0;
    while i < path.len()
        invariant
            i <= path.len(),
            node_at(root@, path@.subrange(0, i as int)) == Some(n@),
        decreases path.len() - i,
    {
        let k: usize = path[i];
        assert(path@.subrange(0, i + 1).drop_last() =~= path@.subrange(0, i as int));
        proof {
            lemma_forest_model(n.children@);
        }
        if k >= n.children.len() {
            proof {
                if node_at(root@, path@) is Some {
                    lemma_node_at_prefix(root@, path@, i + 1);
                }
            }
            return None;
        }
        n = &n.children[k];
        i = i + 1;
    }
    assert(path@.subrange(0, path@.len() as int) =~= path@);
    Some(n)
}

/// An element of a normalized document tree, seen through the interface that a selector
/// matching algorithm needs: the tree's root and the path of child indices to the node.
pub struct PreprocessedHtml5ElementWrappingNode<'a> {
    root: &'a Node,
    path: Vec<usize>,
}

impl<'a> PreprocessedHtml5ElementWrappingNode<'a> {
    /// The root of the tree.
    pub closed spec fn tree(&self) -> NodeModel {
        self.root@
    }

    /// The path from the root to the node.
    pub closed spec fn position(&self) -> Seq<usize> {
        self.path@
    }

    /// The path leads to a node of the tree.
    #[verifier::type_invariant]
    spec fn path_leads_to_a_node(self) -> bool {
        node_at(self.root@, self.path@) is Some
    }

    /// Whether the path leads to a node of the tree; it always does.
    pub open spec fn valid(&self) -> bool {
        node_at(self.tree(), self.position()) is Some
    }

    /// The node.
    pub open spec fn node(&self) -> NodeModel {
        node_at(self.tree(), self.position())->0
    }

    /// Wraps the root of a tree.
    pub fn new(root: &'a Node) -> (r: Self)
        ensures
            r.tree() == root@,
            r.position() == Seq::<usize>::empty(),
            r.valid(),
    {
        PreprocessedHtml5ElementWrappingNode { root, path: Vec::new() }
    }

    /// Wraps the node at `path` below `root`, where there is one.
    pub fn at(root: &'a Node, path: Vec<usize>) -> (r: Option<Self>)
        ensures
            r is Some <==> node_at(root@, path@) is Some,
            r matches Some(w) ==> w.tree() == root@ && w.position() == path@,
    {
        match node_at_path(root, &path) {
            Some(_) => Some(PreprocessedHtml5ElementWrappingNode { root, path }),
            None => None,
        }
    }

    fn the_node(&self) -> (r: &'a Node)
        ensures
            r@ == self.node(),
    {
        proof {
            use_type_invariant(self);
        }
        node_at_path(self.root, &self.path).unwrap()
    }

    fn with_path(&self, path: Vec<usize>) -> (r: Self)
        requires
            node_at(self.tree(), path@) is Some,
        ensures
            r.tree() == self.tree(),
            r.position() == path@,
    {
        PreprocessedHtml5ElementWrappingNode { root: self.root, path }
    }

    /// A comparison-only identity: the path from the root.
    pub fn opaque(&self) -> (r: Vec<usize>)
        ensures
            r@ == self.position(),
    {
        copy_path(&self.path, self.path.len())
    }

    /// Is this an element node, eg `<a href="hello">`?
    pub fn is_element_node(&self) -> (r: bool)
        ensures
            r == is_element(self.node()),
    {
        match &self.the_node().data {
            NodeData::Element { .. } => true,
            _ => false,
        }
    }

    /// Is this a text node, eg `BLAH` in `<a>BLAH</a>`?
    pub fn is_text_node(&self) -> (r: bool)
        ensures
            r == (self.node().data is Text),
    {
        match &self.the_node().data {
            NodeData::Text { .. } => true,
            _ => false,
        }
    }

    /// The element child nearest the start (or, where `reverse`, the end).
    fn iterate_element_children(&self, reverse: bool) -> (r: Option<Self>)
        ensures
            r matches Some(c) ==> c.tree() == self.tree(),
            r matches Some(c) ==> c.position().len() == self.position().len() + 1,
            r matches Some(c) ==> c.position().drop_last() == self.position(),
            r matches Some(c) ==> reverse ==> is_last_element(self.node().children, c.position().last() as int),
            r matches Some(c) ==> !reverse ==> is_first_element(self.node().children, c.position().last() as int),
            r is None ==> !has_element(self.node().children),
    {
        let node = self.the_node();
        let ghost cs = self.node().children;
        proof {
            lemma_forest_model(node.children@);
        }
        let n: usize = node.children.len();
        let mut i: usize = 0;
        while i < n
            invariant
                i <= n,
                n == cs.len(),
                n == node.children.len(),
                cs == node@.children,
                cs == self.node().children,
                forall|j: int| 0 <= j < cs.len() ==> #[trigger] cs[j] == node_model(node.children@[j]),
                !reverse ==> forall|j: int| 0 <= j < i ==> !is_element(#[trigger] cs[j]),
                reverse ==> forall|j: int| n - i <= j < n ==> !is_element(#[trigger] cs[j]),
            decreases n - i,
        {
            let k: usize = if reverse { n - 1 - i } else { i };
            let is_elem = match &node.children[k].data {
                NodeData::Element { .. } => true,
                _ => false,
            };
            if is_elem {
                let mut path = copy_path(&self.path, self.path.len());
                assert(path@ =~= self.path@);
                path.push(k);
                assert(path@.drop_last() =~= self.position());
                proof {
                    use_type_invariant(self);
                }
                let r = self.with_path(path);
                assert(r.position().last() == k);
                assert(cs[k as int] == node_model(node.children@[k as int]));
                assert(is_element(cs[k as int]));
                return Some(r);
            }
            i = i + 1;
        }
        None
    }

    /// The nearest element sibling before (or, where `reverse`, after) this node.
    fn iterate_element_siblings(&self, reverse: bool) -> (r: Option<Self>)
        ensures
            r matches Some(c) ==> c.tree() == self.tree() && self.position().len() > 0
                && c.position().len() == self.position().len() && c.position().drop_last()
                == self.position().drop_last() && (if reverse {
                is_next_element(
                    node_at(self.tree(), self.position().drop_last())->0.children,
                    self.position().last() as int,
                    c.position().last() as int,
                )
            } else {
                is_previous_element(
                    node_at(self.tree(), self.position().drop_last())->0.children,
                    self.position().last() as int,
                    c.position().last() as int,
                )
            }),
            r is None ==> self.position().len() == 0 || (forall|j: int|
                #![trigger node_at(self.tree(), self.position().drop_last())->0.children[j]]
                0 <= j < node_at(self.tree(), self.position().drop_last())->0.children.len() && (
                if reverse {
                    j > self.position().last()
                } else {
                    j < self.position().last()
                }) ==> !is_element(
                    node_at(self.tree(), self.position().drop_last())->0.children[j],
                )),
    {
        let depth: usize = self.path.len();
        if depth == 0 {
            return None;
        }
        let parent_path = copy_path(&self.path, depth - 1);
        proof {
            use_type_invariant(self);
            lemma_node_at_prefix(self.root@, self.path@, depth - 1);
            assert(self.path@.subrange(0, depth - 1) =~= self.path@.drop_last());
        }
        let parent_wrapper = self.with_path(parent_path);
        let parent = parent_wrapper.the_node();
        let ghost cs = parent@.children;
        proof {
            lemma_forest_model(parent.children@);
        }
        let here: usize = self.path[depth - 1];
        assert(here < cs.len());
        let n: usize = parent.children.len();
        let mut step: usize = 1;
        while (reverse && here + step < n) || (!reverse && step <= here)
            invariant
                1 <= step,
                here < n,
                n == cs.len(),
                n == parent.children.len(),
                cs == parent@.children,
                cs == node_at(self.tree(), self.position().drop_last())->0.children,
                node_at(self.tree(), self.position().drop_last()) is Some,
                here == self.position().last(),
                depth == self.path.len(),
                depth > 0,
                reverse ==> here + step <= n,
                !reverse ==> step <= here + 1,
                forall|j: int| 0 <= j < cs.len() ==> #[trigger] cs[j] == node_model(parent.children@[j]),
                reverse ==> forall|m: int| here < m < here + step ==> !is_element(#[trigger] cs[m]),
                !reverse ==> forall|m: int| here - step < m < here ==> !is_element(#[trigger] cs[m]),
            decreases n + 1 - step,
        {
            let k: usize = if reverse { here + step } else { here - step };
            let is_elem = match &parent.children[k].data {
                NodeData::Element { .. } => true,
                _ => false,
            };
            if is_elem {
                let mut path = copy_path(&self.path, depth - 1);
                path.push(k);
                assert(path@.drop_last() =~= self.position().drop_last());
                let r = self.with_path(path);
                assert(r.position().last() == k);
                assert(cs[k as int] == node_model(parent.children@[k as int]));
                assert(is_element(cs[k as int]));
                return Some(r);
            }
            step = step + 1;
        }
        None
    }

    /// The first element child, skipping other nodes.
    pub fn first_child_element(&self) -> (r: Option<Self>)
        ensures
            r matches Some(c) ==> c.tree() == self.tree() && c.position().drop_last()
                == self.position() && c.position().len() == self.position().len() + 1
                && is_first_element(self.node().children, c.position().last() as int),
            r is None ==> !has_element(self.node().children),
    {
        self.iterate_element_children(false)
    }

    /// The last element child, skipping other nodes.
    pub fn last_child_element(&self) -> (r: Option<Self>)
        ensures
            r matches Some(c) ==> c.tree() == self.tree() && c.position().drop_last()
                == self.position() && c.position().len() == self.position().len() + 1
                && is_last_element(self.node().children, c.position().last() as int),
            r is None ==> !has_element(self.node().children),
    {
        self.iterate_element_children(true)
    }

    /// The nearest element sibling before this node, skipping other nodes.
    pub fn prev_sibling_element(&self) -> (r: Option<Self>)
        ensures
            r matches Some(c) ==> c.tree() == self.tree() && self.position().len() > 0
                && c.position().len() == self.position().len() && c.position().drop_last()
                == self.position().drop_last() && is_previous_element(
                node_at(self.tree(), self.position().drop_last())->0.children,
                self.position().last() as int,
                c.position().last() as int,
            ),
            r is None ==> self.position().len() == 0 || (forall|j: int|
                #![trigger node_at(self.tree(), self.position().drop_last())->0.children[j]]
                0 <= j < self.position().last() ==> !is_element(
                    node_at(self.tree(), self.position().drop_last())->0.children[j],
                )),
    {
        let r = self.iterate_element_siblings(false);
        proof {
            use_type_invariant(self);
            if r is None && self.position().len() > 0 {
                lemma_node_at_prefix(self.tree(), self.position(), self.position().len() - 1);
                assert(self.position().subrange(0, self.position().len() - 1) =~= self.position().drop_last());
            }
        }
        r
    }

    /// The nearest element sibling after this node, skipping other nodes.
    pub fn next_sibling_element(&self) -> (r: Option<Self>)
        ensures
            r matches Some(c) ==> c.tree() == self.tree() && self.position().len() > 0
                && c.position().len() == self.position().len() && c.position().drop_last()
                == self.position().drop_last() && is_next_element(
                node_at(self.tree(), self.position().drop_last())->0.children,
                self.position().last() as int,
                c.position().last() as int,
            ),
            r is None ==> self.position().len() == 0 || (forall|j: int|
                #![trigger node_at(self.tree(), self.position().drop_last())->0.children[j]]
                self.position().last() < j < node_at(
                    self.tree(),
                    self.position().drop_last(),
                )->0.children.len() ==> !is_element(
                    node_at(self.tree(), self.position().drop_last())->0.children[j],
                )),
    {
        self.iterate_element_siblings(true)
    }

    /// The parent, where it is an element (`None` at the root and below the document).
    pub fn parent_element(&self) -> (r: Option<Self>)
        ensures
            r is Some <==> self.position().len() > 0 && is_element(
                node_at(self.tree(), self.position().drop_last())->0,
            ),
            r matches Some(p) ==> p.tree() == self.tree() && p.position()
                == self.position().drop_last(),
    {
        let depth: usize = self.path.len();
        if depth == 0 {
            return None;
        }
        let parent_path = copy_path(&self.path, depth - 1);
        proof {
            use_type_invariant(self);
            lemma_node_at_prefix(self.root@, self.path@, depth - 1);
            assert(self.path@.subrange(0, depth - 1) =~= self.path@.drop_last());
        }
        let parent = self.with_path(parent_path);
        if parent.is_element_node() {
            Some(parent)
        } else {
            None
        }
    }

    /// The value of an attribute looked up by its name alone, handed to a function.
    fn _use_attribute_value<R, AttributeValueUser: Fn(&str) -> R>(
        attribute_name: &str,
        attribute_value_user: AttributeValueUser,
        default: R,
        attrs: &Vec<Attribute>,
    ) -> (r: R)
        requires
            forall|v: &str| attribute_value_user.requires((v,)),
        ensures
            match attribute_value_of(attrs@, attribute_name@) {
                Some(v) => exists|s: &str| s@ == v && attribute_value_user.ensures((s,), r),
                None => r == default,
            },
    {
        match find_attribute_value(attrs, attribute_name) {
            Some(value) => {
                let s = value.as_str();
                let r = attribute_value_user(s);
                assert(s@ == value@ && attribute_value_user.ensures((s,), r));
                r
            },
            None => default,
        }
    }

    /// If this is an element node, uses an attribute's value (looked up by its name alone)
    /// to produce a result where the attribute exists; otherwise returns `default`.
    pub fn use_attribute_value<R, AttributeValueUser: Fn(&str) -> R>(
        &self,
        attribute_name: &str,
        attribute_value_user: AttributeValueUser,
        default: R,
    ) -> (r: R)
        requires
            forall|v: &str| attribute_value_user.requires((v,)),
        ensures
            match node_attribute_value(self.node(), attribute_name@) {
                Some(v) => exists|s: &str| s@ == v && attribute_value_user.ensures((s,), r),
                None => r == default,
            },
    {
        match &self.the_node().data {
            NodeData::Element { attrs, .. } => Self::_use_attribute_value(
                attribute_name,
                attribute_value_user,
                default,
                attrs,
            ),
            _ => default,
        }
    }

    /// If this is a text node, uses the text to produce a result; otherwise returns
    /// `default`.
    pub fn use_text_value<R, TextValueUser: Fn(&str) -> R>(
        &self,
        text_value_user: TextValueUser,
        default: R,
    ) -> (r: R)
        requires
            forall|v: &str| text_value_user.requires((v,)),
        ensures
            match self.node().data {
                DataModel::Text { contents } => exists|s: &str|
                    s@ == contents && text_value_user.ensures((s,), r),
                _ => r == default,
            },
    {
        match &self.the_node().data {
            NodeData::Text { contents } => {
                let s = contents.as_str();
                let r = text_value_user(s);
                assert(s@ == contents@ && text_value_user.ensures((s,), r));
                r
            },
            _ => default,
        }
    }

    /// The value against which an attribute selector's operation is evaluated: that of the
    /// first attribute with this local name that meets the namespace constraint; `None` for
    /// a node that is no element or has no such attribute.
    pub fn attr_matches(&self, ns: &NamespaceConstraint, local_name: &str) -> (r: Option<&'a String>)
        ensures
            r is Some <==> constrained_attribute_value_of(
                attributes_of(self.node()),
                constraint_namespace(*ns),
                local_name@,
            ) is Some,
            r matches Some(v) ==> constrained_attribute_value_of(
                attributes_of(self.node()),
                constraint_namespace(*ns),
                local_name@,
            ) == Some(v@),
    {
        match &self.the_node().data {
            NodeData::Element { attrs, .. } => find_constrained_attribute_value(attrs, ns, local_name),
            _ => None,
        }
    }

    /// Whether this is an `a`, `area` or `link` element with an `href` attribute.
    pub fn is_link(&self) -> (r: bool)
        ensures
            r == is_link_spec(self.node()),
    {
        match &self.the_node().data {
            NodeData::Element { name, attrs } => {
                let is_linking_element = name.is_only_local("a") || name.is_only_local("area")
                    || name.is_only_local("link");
                if is_linking_element {
                    find_attribute_value(attrs, "href").is_some()
                } else {
                    false
                }
            },
            _ => false,
        }
    }

    /// Whether the element's `id` equals `id`; an empty `id` never matches.
    pub fn has_id(&self, id: &str, case_sensitivity: CaseSensitivity) -> (r: bool)
        ensures
            r == (id@.len() > 0 && match node_attribute_value(self.node(), "id"@) {
                Some(v) => eq_under(v, id@, case_sensitivity),
                None => false,
            }),
    {
        if id.unicode_len() == 0 {
            return false;
        }
        match &self.the_node().data {
            NodeData::Element { attrs, .. } => match find_attribute_value(attrs, "id") {
                Some(value) => case_sensitive_equality(case_sensitivity, value.as_str(), id),
                None => false,
            },
            _ => false,
        }
    }

    /// Whether one of the element's classes equals `name`; an empty `name` never matches.
    pub fn has_class(&self, name: &str, case_sensitivity: CaseSensitivity) -> (r: bool)
        ensures
            r == (name@.len() > 0 && match node_attribute_value(self.node(), "class"@) {
                Some(v) => has_token(v, name@, case_sensitivity),
                None => false,
            }),
    {
        if name.unicode_len() == 0 {
            return false;
        }
        match &self.the_node().data {
            NodeData::Element { attrs, .. } => match find_attribute_value(attrs, "class") {
                Some(value) => class_list_contains(value.as_str(), name, case_sensitivity),
                None => false,
            },
            _ => false,
        }
    }

    /// Whether the node has no children at all.
    pub fn is_empty(&self) -> (r: bool)
        ensures
            r == (self.node().children.len() == 0),
    {
        let node = self.the_node();
        proof {
            lemma_forest_model(node.children@);
        }
        node.children.len() == 0
    }

    /// Whether this is the `html` element directly below the document.
    pub fn is_root(&self) -> (r: bool)
        ensures
            r == (self.node().data is Element && only_local_name_of(self.node().data->Element_name)
                == Some("html"@) && self.position().len() == 1 && self.tree().data is Document),
    {
        let is_html = match &self.the_node().data {
            NodeData::Element { name, .. } => name.is_only_local("html"),
            _ => false,
        };
        let below_document = match &self.root.data {
            NodeData::Document => true,
            _ => false,
        };
        is_html && self.path.len() == 1 && below_document
    }

    /// Whether this is an `html` element without prefix or namespace.
    pub fn is_html_element_in_html_document(&self) -> (r: bool)
        ensures
            r == (self.node().data is Element && only_local_name_of(self.node().data->Element_name)
                == Some("html"@)),
    {
        match &self.the_node().data {
            NodeData::Element { name, .. } => name.is_only_local("html"),
            _ => false,
        }
    }

    /// The element's local name (empty for other nodes).
    pub fn get_local_name(&self) -> (r: &'a str)
        ensures
            r@ == match self.node().data {
                DataModel::Element { name, .. } => name.local@,
                _ => ""@,
            },
    {
        match &self.the_node().data {
            NodeData::Element { name, .. } => name.local.as_str(),
            _ => "",
        }
    }

    /// The element's namespace (empty for other nodes).
    pub fn get_namespace(&self) -> (r: &'a str)
        ensures
            r@ == match self.node().data {
                DataModel::Element { name, .. } => name.ns@,
                _ => ""@,
            },
    {
        match &self.the_node().data {
            NodeData::Element { name, .. } => name.ns.as_str(),
            _ => "",
        }
    }

    /// Link pseudo-classes hold of links; any other non-structural pseudo-class is taken to
    /// hold, since its state cannot be known from a static tree.
    pub fn match_non_ts_pseudo_class(&self, pc: &NonTreeStructuralPseudoClass) -> (r: bool)
        ensures
            r == match pc {
                NonTreeStructuralPseudoClass::Other => true,
                _ => is_link_spec(self.node()),
            },
    {
        match pc {
            NonTreeStructuralPseudoClass::Other => true,
            _ => self.is_link(),
        }
    }

    /// A rule for a pseudo-element is used where its base selector matches.
    pub fn match_pseudo_element(&self) -> (r: bool)
        ensures
            r,
    {
        true
    }
}

/// The first `n` entries of a path.
fn copy_path(path: &Vec<usize>, n: usize) -> (r: Vec<usize>)
    requires
        n <= path.len(),
    ensures
        r@ == path@.subrange(0, n as int),
{
    let mut r: Vec<usize> = Vec::new();
    let mut i: usize = 0;
    while i < n
        invariant
            i <= n,
            n <= path.len(),
            r@ == path@.subrange(0, i as int),
        decreases n - i,
    {
        r.push(path[i]);
        assert(r@ =~= path@.subrange(0, i + 1));
        i = i + 1;
    }
    r
}

} // verus!

verus! {

impl<'a> QualNameExt for PreprocessedHtml5ElementWrappingNode<'a> {
    open spec fn only_local_name(&self) -> Option<Seq<char>> {
        if self.valid() && self.node().data is Element {
            only_local_name_of(self.node().data->Element_name)
        } else {
            None
        }
    }

    fn is_only_local(&self, local_name: &str) -> (r: bool) {
        proof {
            use_type_invariant(self);
        }
        match &self.the_node().data {
            NodeData::Element { name, .. } => name.is_only_local(local_name),
            _ => false,
        }
    }

    fn is_only_local_of(&self, local_names: &Vec<String>) -> (r: bool) {
        proof {
            use_type_invariant(self);
        }
        match &self.the_node().data {
            NodeData::Element { name, .. } => name.is_only_local_of(local_names),
            _ => false,
        }
    }
}

} // verus!
