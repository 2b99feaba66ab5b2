//! Pre-order search of document trees for the elements that a selector matches, given what
//! the selector matching algorithm reports for each node.

use vstd::prelude::*;
use crate::document::RcDom;
use crate::dom::{lemma_forest_model, node_model, Node, NodeData, NodeModel};

verus! {

/// A tree's nodes in pre-order: the node itself, then each child's subtree in order.
pub open spec fn preorder(n: NodeModel) -> Seq<NodeModel>
    decreases n, 1nat,
{
    seq![n] + preorder_forest(n.children)
}

/// The pre-order of a sequence of trees: their pre-orders one after the other.
pub open spec fn preorder_forest(s: Seq<NodeModel>) -> Seq<NodeModel>
    decreases s, 0nat,
{
    if s.len() == 0 {
        seq![]
    } else {
        preorder_forest(s.drop_last()) + preorder(s.last())
    }
}

/// Whether the node at pre-order position `k` is an element that the selector matches, as
/// `hits` reports it (positions past its end do not match).
pub open spec fn is_hit(p: Seq<NodeModel>, hits: Seq<bool>, k: int) -> bool {
    0 <= k < p.len() && p[k].data is Element && k < hits.len() && hits[k]
}

/// Whether some node of `p` matches.
pub open spec fn has_hit(p: Seq<NodeModel>, hits: Seq<bool>) -> bool {
    exists|k: int| is_hit(p, hits, k)
}

/// Whether `k` is the first position of `p` that matches.
pub open spec fn is_first_hit(p: Seq<NodeModel>, hits: Seq<bool>, k: int) -> bool {
    is_hit(p, hits, k) && forall|j: int| 0 <= j < k ==> !is_hit(p, hits, j)
}

/// Whether a subtree whose pre-order `p` starts at global position `base` has a match at
/// its own position `j`.
pub open spec fn hit_from(p: Seq<NodeModel>, hits: Seq<bool>, base: int, j: int) -> bool {
    0 <= j < p.len() && p[j].data is Element && base + j < hits.len() && hits[base + j]
}

/// The pre-order of two sequences of trees side by side.
pub proof fn lemma_preorder_forest_concat(a: Seq<NodeModel>, b: Seq<NodeModel>)
    ensures
        preorder_forest(a + b) == preorder_forest(a) + preorder_forest(b),
    decreases b.len(),
{
    if b.len() == 0 {
        assert(a + b =~= a);
        assert(preorder_forest(a) + preorder_forest(b) =~= preorder_forest(a));
    } else {
        assert((a + b).drop_last() =~= a + b.drop_last());
        lemma_preorder_forest_concat(a, b.drop_last());
        assert(preorder_forest(a + b) =~= preorder_forest(a) + preorder_forest(b));
    }
}

/// The pre-order of one tree taken as a sequence of trees.
pub proof fn lemma_preorder_forest_single(n: NodeModel)
    ensures
        preorder_forest(seq![n]) == preorder(n),
{
    assert(seq![n].drop_last() =~= Seq::<NodeModel>::empty());
    assert(preorder_forest(Seq::<NodeModel>::empty()) + preorder(n) =~= preorder(n));
}

enum Search {
    /// The first match, at this global position.
    Found(usize),
    /// No match; the next subtree starts at this global position.
    Passed(usize),
    /// No match, and the subtree reaches past the last position of `hits`.
    Exhausted,
}

fn search(node: &Node, base: usize, hits: &Vec<bool>) -> (r: Search)
    ensures
        match r {
            Search::Found(k) => base <= k && hit_from(preorder(node@), hits@, base as int, k - base)
                && forall|j: int| 0 <= j < k - base ==> !hit_from(preorder(node@), hits@, base as int, j),
            Search::Passed(next) => next == base + preorder(node@).len() && next <= hits.len()
                && forall|j: int| 0 <= j < preorder(node@).len() ==> !hit_from(preorder(node@), hits@, base as int, j),
            Search::Exhausted => base + preorder(node@).len() >= hits.len()
                && forall|j: int| 0 <= j < preorder(node@).len() ==> !hit_from(preorder(node@), hits@, base as int, j),
        },
    decreases node,
{
    let ghost p = preorder(node@);
    let ghost cs = node@.children;
    proof {
        lemma_forest_model(node.children@);
    }
    if base >= hits.len() {
        return Search::Exhausted;
    }
    let is_element = match &node.data {
        NodeData::Element { .. } => true,
        _ => false,
    };
    if is_element && hits[base] {
        return Search::Found(base);
    }
    assert(!hit_from(p, hits@, base as int, 0));
    let mut cur: usize = base + 1;
    let mut i: usize = 0;
    while i < node.children.len()
        invariant
            base < hits.len(),
            i <= node.children.len(),
            p == preorder(node@),
            cs == node@.children,
            cs.len() == node.children.len(),
            forall|j: int| 0 <= j < cs.len() ==> #[trigger] cs[j] == node_model(node.children@[j]),
            cur == base + 1 + preorder_forest(cs.subrange(0, i as int)).len(),
            cur <= hits.len(),
            forall|j: int| 0 <= j < cur - base ==> !hit_from(p, hits@, base as int, j),
        decreases node.children.len() - i,
    {
        let child = &node.children[i];
        let ghost pc = preorder(node_model(*child));
        let ghost before = preorder_forest(cs.subrange(0, i as int));
        proof {
            assert(cs[i as int] == node_model(*child));
            assert(cs.subrange(0, i + 1) =~= cs.subrange(0, i as int) + seq![cs[i as int]]);
            lemma_preorder_forest_concat(cs.subrange(0, i as int), seq![cs[i as int]]);
            lemma_preorder_forest_single(cs[i as int]);
            assert(cs =~= cs.subrange(0, i + 1) + cs.subrange(i + 1, cs.len() as int));
            lemma_preorder_forest_concat(cs.subrange(0, i + 1), cs.subrange(i + 1, cs.len() as int));
            assert forall|j: int| 0 <= j < pc.len() implies p[1 + before.len() + j] == pc[j] by {
                assert(preorder_forest(cs)[before.len() + j] == preorder_forest(cs.subrange(0, i + 1))[before.len() + j]);
            }
        }
        match search(child, cur, hits) {
            Search::Found(k) => {
                assert forall|j: int| 0 <= j < k - base implies !hit_from(p, hits@, base as int, j) by {
                    if j >= cur - base {
                        assert(p[j] == pc[j - (cur - base)]);
                        assert(!hit_from(pc, hits@, cur as int, j - (cur - base)));
                    }
                }
                assert(p[k - base] == pc[k - cur]);
                return Search::Found(k);
            },
            Search::Passed(next) => {
                assert forall|j: int| 0 <= j < next - base implies !hit_from(p, hits@, base as int, j) by {
                    if j >= cur - base {
                        assert(p[j] == pc[j - (cur - base)]);
                        assert(!hit_from(pc, hits@, cur as int, j - (cur - base)));
                    }
                }
                cur = next;
            },
            Search::Exhausted => {
                assert forall|j: int| 0 <= j < p.len() implies !hit_from(p, hits@, base as int, j) by {
                    if j >= cur - base && j < cur - base + pc.len() {
                        assert(p[j] == pc[j - (cur - base)]);
                        assert(!hit_from(pc, hits@, cur as int, j - (cur - base)));
                    }
                }
                return Search::Exhausted;
            },
        }
        i = i + 1;
    }
    assert(cs.subrange(0, cs.len() as int) =~= cs);
    Search::Passed(cur)
}

/// Searches a tree in pre-order, this node first, for the first element that the selector
/// matches, where `hits[k]` is what the selector matching algorithm reports for the node at
/// pre-order position `k`. Returns that position, or `None` where no element matches.
pub fn find_first_match(
    node: &Node,
    hits: &Vec<bool>,
) -> (r: Option<usize>)
    ensures
        match r {
            Some(k) => is_first_hit(preorder(node@), hits@, k as int),
            None => !has_hit(preorder(node@), hits@),
        },
{
    let ghost p = preorder(node@);
    match search(node, 0, hits) {
        Search::Found(k) => {
            assert forall|j: int| 0 <= j < k implies !is_hit(p, hits@, j) by {
                assert(!hit_from(p, hits@, 0, j));
            }
            assert(hit_from(p, hits@, 0, k as int));
            Some(k)
        },
        Search::Passed(_) => {
            assert forall|j: int| !is_hit(p, hits@, j) by {
                if 0 <= j < p.len() {
                    assert(!hit_from(p, hits@, 0, j));
                }
            }
            None
        },
        Search::Exhausted => {
            assert forall|j: int| !is_hit(p, hits@, j) by {
                if 0 <= j < p.len() {
                    assert(!hit_from(p, hits@, 0, j));
                }
            }
            None
        },
    }
}

/// The global positions, in order, of the matches among the first `n` nodes of a subtree
/// whose pre-order `p` starts at global position `base`.
pub open spec fn hits_before(p: Seq<NodeModel>, hits: Seq<bool>, base: int, n: nat) -> Seq<int>
    decreases n,
{
    if n == 0 {
        seq![]
    } else {
        hits_before(p, hits, base, (n - 1) as nat) + if hit_from(p, hits, base, n - 1) {
            seq![base + n - 1]
        } else {
            seq![]
        }
    }
}

/// The matches of a subtree that stands at offset `off` of a larger pre-order follow those
/// before it.
proof fn lemma_hits_before_split(
    p: Seq<NodeModel>,
    pc: Seq<NodeModel>,
    hits: Seq<bool>,
    base: int,
    off: nat,
    m: nat,
)
    requires
        m <= pc.len(),
        off + pc.len() <= p.len(),
        forall|j: int| 0 <= j < pc.len() ==> p[off + j] == #[trigger] pc[j],
    ensures
        hits_before(p, hits, base, off + m) == hits_before(p, hits, base, off) + hits_before(
            pc,
            hits,
            base + off,
            m,
        ),
    decreases m,
{
    if m == 0 {
        assert(hits_before(p, hits, base, off) + hits_before(pc, hits, base + off, 0) =~= hits_before(
            p,
            hits,
            base,
            off,
        ));
    } else {
        lemma_hits_before_split(p, pc, hits, base, off, (m - 1) as nat);
        assert(p[off + (m - 1)] == pc[m - 1]);
        assert(((off + m) - 1) as nat == off + (m - 1) as nat);
        assert(hits_before(p, hits, base, off + m) =~= hits_before(p, hits, base, off) + hits_before(
            pc,
            hits,
            base + off,
            m,
        ));
    }
}

/// Past the last position of `hits` nothing matches.
proof fn lemma_hits_before_past_end(p: Seq<NodeModel>, hits: Seq<bool>, base: int, n0: nat, n: nat)
    requires
        n0 <= n,
        base + n0 >= hits.len(),
    ensures
        hits_before(p, hits, base, n) == hits_before(p, hits, base, n0),
    decreases n,
{
    if n > n0 {
        lemma_hits_before_past_end(p, hits, base, n0, (n - 1) as nat);
        assert(hits_before(p, hits, base, n) =~= hits_before(p, hits, base, (n - 1) as nat));
    }
}

/// Positions as mathematical integers.
pub open spec fn as_ints(v: Seq<usize>) -> Seq<int> {
    v.map_values(|k: usize| k as int)
}

fn collect(node: &Node, base: usize, hits: &Vec<bool>, out: &mut Vec<usize>) -> (r: Option<usize>)
    ensures
        as_ints(final(out)@) == as_ints(old(out)@) + hits_before(
            preorder(node@),
            hits@,
            base as int,
            preorder(node@).len(),
        ),
        r matches Some(next) ==> next == base + preorder(node@).len() && next <= hits.len(),
        r is None ==> base + preorder(node@).len() >= hits.len(),
    decreases node,
{
    let ghost p = preorder(node@);
    let ghost cs = node@.children;
    let ghost start = as_ints(out@);
    proof {
        lemma_forest_model(node.children@);
    }
    if base >= hits.len() {
        proof {
            lemma_hits_before_past_end(p, hits@, base as int, 0, p.len());
            assert(start + hits_before(p, hits@, base as int, 0) =~= start);
        }
        return None;
    }
    let is_element = match &node.data {
        NodeData::Element { .. } => true,
        _ => false,
    };
    assert(p[0] == node@);
    assert(hits_before(p, hits@, base as int, 0) == Seq::<int>::empty());
    let ghost before_push = out@;
    if is_element && hits[base] {
        out.push(base);
        assert(as_ints(out@) =~= as_ints(before_push).push(base as int));
    }
    assert(as_ints(out@) =~= start + hits_before(p, hits@, base as int, 1));
    let mut cur: usize = base + 1;
    let mut i: usize = 0;
    while i < node.children.len()
        invariant
            base < hits.len(),
            i <= node.children.len(),
            p == preorder(node@),
            cs == node@.children,
            cs.len() == node.children.len(),
            forall|j: int| 0 <= j < cs.len() ==> #[trigger] cs[j] == node_model(node.children@[j]),
            cur == base + 1 + preorder_forest(cs.subrange(0, i as int)).len(),
            cur <= hits.len(),
            start == as_ints(old(out)@),
            as_ints(out@) == start + hits_before(p, hits@, base as int, (cur - base) as nat),
        decreases node.children.len() - i,
    {
        let child = &node.children[i];
        let ghost pc = preorder(node_model(*child));
        let ghost before = preorder_forest(cs.subrange(0, i as int));
        proof {
            assert(cs[i as int] == node_model(*child));
            assert(cs.subrange(0, i + 1) =~= cs.subrange(0, i as int) + seq![cs[i as int]]);
            lemma_preorder_forest_concat(cs.subrange(0, i as int), seq![cs[i as int]]);
            lemma_preorder_forest_single(cs[i as int]);
            assert(cs =~= cs.subrange(0, i + 1) + cs.subrange(i + 1, cs.len() as int));
            lemma_preorder_forest_concat(cs.subrange(0, i + 1), cs.subrange(i + 1, cs.len() as int));
            assert forall|j: int| 0 <= j < pc.len() implies p[(1 + before.len()) + j] == #[trigger] pc[j] by {
                assert(preorder_forest(cs)[before.len() + j] == preorder_forest(cs.subrange(0, i + 1))[before.len() + j]);
            }
            lemma_hits_before_split(p, pc, hits@, base as int, (1 + before.len()) as nat, pc.len());
        }
        match collect(child, cur, hits, out) {
            Some(next) => {
                cur = next;
            },
            None => {
                proof {
                    let off = (1 + before.len()) as nat;
                    assert((cur - base) as nat == off);
                    assert(base + off == cur);
                    assert(as_ints(out@) == start + hits_before(p, hits@, base as int, off)
                        + hits_before(pc, hits@, cur as int, pc.len()));
                    assert(as_ints(out@) =~= start + hits_before(p, hits@, base as int, off + pc.len()));
                    assert(off + pc.len() <= p.len());
                    lemma_hits_before_past_end(
                        p,
                        hits@,
                        base as int,
                        (1 + before.len() + pc.len()) as nat,
                        p.len(),
                    );
                }
                return None;
            },
        }
        i = i + 1;
    }
    assert(cs.subrange(0, cs.len() as int) =~= cs);
    Some(cur)
}

/// Collects, in pre-order, the positions of all the elements of a tree that the selector
/// matches, where `hits[k]` is what the selector matching algorithm reports for the node at
/// pre-order position `k`.
pub fn find_all_matching_positions(node: &Node, hits: &Vec<bool>) -> (r: Vec<usize>)
    ensures
        as_ints(r@) == hits_before(preorder(node@), hits@, 0, preorder(node@).len()),
{
    let mut out: Vec<usize> = Vec::new();
    collect(node, 0, hits, &mut out);
    assert(as_ints(Seq::<usize>::empty()) =~= Seq::<int>::empty());
    assert(Seq::<int>::empty() + hits_before(preorder(node@), hits@, 0, preorder(node@).len())
        =~= hits_before(preorder(node@), hits@, 0, preorder(node@).len()));
    out
}

/// Whether the selector matches an element of some document, where `hits[d]` reports the
/// selector's matches in document `d` by pre-order position.
pub open spec fn matches_in_some_document(documents: Seq<RcDom>, hits: Seq<Vec<bool>>) -> bool {
    exists|d: int|
        0 <= d < documents.len() && d < hits.len() && #[trigger] has_hit(
            preorder(documents[d].document@),
            hits[d]@,
        )
}

impl RcDom {
    /// The first pre-order position in this document whose element the selector matches.
    pub fn first_matching_position(&self, hits: &Vec<bool>) -> (r: Option<usize>)
        ensures
            match r {
                Some(k) => is_first_hit(preorder(self.document@), hits@, k as int),
                None => !has_hit(preorder(self.document@), hits@),
            },
    {
        find_first_match(&self.document, hits)
    }
}

/// Whether the selector matches an element of at least one document; the documents are
/// searched in order and the search stops at the first match.
pub fn find_all_matching_nodes_in_documents(documents: &Vec<RcDom>, hits: &Vec<Vec<bool>>) -> (r:
    bool)
    ensures
        r == matches_in_some_document(documents@, hits@),
{
    let mut d: usize = 0;
    while d < documents.len() && d < hits.len()
        invariant
            d <= documents.len(),
            forall|e: int|
                0 <= e < d ==> !#[trigger] has_hit(preorder(documents@[e].document@), hits@[e]@),
        decreases documents.len() - d,
    {
        match documents[d].first_matching_position(&hits[d]) {
            Some(k) => {
                assert(is_hit(preorder(documents@[d as int].document@), hits@[d as int]@, k as int));
                assert(has_hit(preorder(documents@[d as int].document@), hits@[d as int]@));
                return true;
            },
            None => {},
        }
        d = d + 1;
    }
    false
}

/// Search of one or more documents for an element that a selector matches.
pub trait FindHtmlElementsMatchingCssSelector {
    /// The documents searched, in order.
    spec fn searched_documents(&self) -> Seq<RcDom>;

    /// Whether the selector matches an element of one of the documents, where `hits[d]`
    /// reports its matches in document `d` by pre-order position; the search stops at the
    /// first match.
    fn find_all_matching_nodes(&self, hits: &Vec<Vec<bool>>) -> (r: bool)
        ensures
            r == matches_in_some_document(self.searched_documents(), hits@),
    ;
}

impl FindHtmlElementsMatchingCssSelector for RcDom {
    open spec fn searched_documents(&self) -> Seq<RcDom> {
        seq![*self]
    }

    fn find_all_matching_nodes(&self, hits: &Vec<Vec<bool>>) -> (r: bool) {
        if hits.len() == 0 {
            return false;
        }
        match self.first_matching_position(&hits[0]) {
            Some(k) => {
                assert(self.searched_documents()[0] == *self);
                assert(is_hit(preorder(self.searched_documents()[0].document@), hits@[0]@, k as int));
                assert(has_hit(preorder(self.searched_documents()[0].document@), hits@[0]@));
                true
            },
            None => {
                assert(self.searched_documents()[0] == *self);
                assert forall|d: int|
                    0 <= d < self.searched_documents().len() && d < hits@.len() implies !#[trigger] has_hit(
                    preorder(self.searched_documents()[d].document@),
                    hits@[d]@,
                ) by {
                    assert(d == 0);
                }
                false
            },
        }
    }
}

impl FindHtmlElementsMatchingCssSelector for Vec<RcDom> {
    open spec fn searched_documents(&self) -> Seq<RcDom> {
        self@
    }

    fn find_all_matching_nodes(&self, hits: &Vec<Vec<bool>>) -> (r: bool) {
        find_all_matching_nodes_in_documents(self, hits)
    }
}

} // verus!
