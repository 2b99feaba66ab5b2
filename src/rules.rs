//! Stylesheet rules and the removal of the rules and selectors that no document uses.

use vstd::prelude::*;
use crate::document::RcDom;
use crate::matching::{find_all_matching_nodes_in_documents, matches_in_some_document};

verus! {

/// The selectors of one style rule, each named by its index in the caller's table of parsed
/// selectors; duplicates have been collapsed by the parser.
#[derive(Debug)]
pub struct DeduplicatedSelectors(pub Vec<usize>);

/// A style rule: its selectors and a handle on its declarations, which are not touched.
#[derive(Debug)]
pub struct StyleRule {
    pub selectors: DeduplicatedSelectors,
    pub declarations: usize,
}

/// A conditional group rule: a handle on its condition and its nested rules.
#[derive(Debug)]
pub struct ConditionalGroupRule {
    pub condition: usize,
    pub rules: Vec<CssRule>,
}

/// A rule of a stylesheet.
#[derive(Debug)]
pub enum CssRule {
    Style(StyleRule),
    Media(ConditionalGroupRule),
    Supports(ConditionalGroupRule),
    Document(ConditionalGroupRule),
    /// Any other rule (font faces, key frames, imports, ...), named by a handle.
    Other(usize),
}

/// A stylesheet: its rules, in cascade order.
#[derive(Debug)]
pub struct Stylesheet {
    pub rules: Vec<CssRule>,
}

/// Which kind of conditional group a group rule is.
pub enum GroupKind {
    Media,
    Supports,
    Document,
}

/// The mathematical value of a rule.
pub enum RuleModel {
    Style { selectors: Seq<usize>, declarations: usize },
    Group { kind: GroupKind, condition: usize, rules: Seq<RuleModel> },
    Other { handle: usize },
}

pub open spec fn rule_model(r: CssRule) -> RuleModel
    decreases r, 1nat,
{
    match r {
        CssRule::Style(s) => RuleModel::Style {
            selectors: s.selectors.0@,
            declarations: s.declarations,
        },
        CssRule::Media(g) => RuleModel::Group {
            kind: GroupKind::Media,
            condition: g.condition,
            rules: rules_model(g.rules@),
        },
        CssRule::Supports(g) => RuleModel::Group {
            kind: GroupKind::Supports,
            condition: g.condition,
            rules: rules_model(g.rules@),
        },
        CssRule::Document(g) => RuleModel::Group {
            kind: GroupKind::Document,
            condition: g.condition,
            rules: rules_model(g.rules@),
        },
        CssRule::Other(h) => RuleModel::Other { handle: h },
    }
}

pub open spec fn rules_model(s: Seq<CssRule>) -> Seq<RuleModel>
    decreases s, 0nat,
{
    if s.len() == 0 {
        seq![]
    } else {
        rules_model(s.drop_last()).push(rule_model(s.last()))
    }
}

impl View for CssRule {
    type V = RuleModel;

    open spec fn view(&self) -> RuleModel {
        rule_model(*self)
    }
}

/// The model of a sequence of rules has one entry per rule.
pub proof fn lemma_rules_model(s: Seq<CssRule>)
    ensures
        rules_model(s).len() == s.len(),
        forall|i: int| 0 <= i < s.len() ==> #[trigger] rules_model(s)[i] == rule_model(s[i]),
    decreases s.len(),
{
    if s.len() > 0 {
        lemma_rules_model(s.drop_last());
    }
}

/// Appending a rule appends its model.
pub proof fn lemma_rules_model_push(s: Seq<CssRule>, r: CssRule)
    ensures
        rules_model(s.push(r)) == rules_model(s).push(rule_model(r)),
{
    assert(s.push(r).drop_last() =~= s);
}

/// A sequence of rules after pruning: each rule replaced by what survives of it, in order.
pub open spec fn prune(rules: Seq<RuleModel>, used: spec_fn(usize) -> bool) -> Seq<RuleModel>
    decreases rules, 0nat,
{
    if rules.len() == 0 {
        seq![]
    } else {
        prune(rules.drop_last(), used) + prune_rule(rules.last(), used)
    }
}

/// What survives of one rule: a style rule keeps its used selectors and goes where none is
/// left; a group keeps what survives of its rules and goes where nothing is left; any other
/// rule stays.
pub open spec fn prune_rule(r: RuleModel, used: spec_fn(usize) -> bool) -> Seq<RuleModel>
    decreases r, 1nat,
{
    match r {
        RuleModel::Style { selectors, declarations } => {
            let kept = selectors.filter(used);
            if kept.len() == 0 {
                seq![]
            } else {
                seq![RuleModel::Style { selectors: kept, declarations }]
            }
        },
        RuleModel::Group { kind, condition, rules } => {
            let inner = prune(rules, used);
            if inner.len() == 0 {
                seq![]
            } else {
                seq![RuleModel::Group { kind, condition, rules: inner }]
            }
        },
        RuleModel::Other { .. } => seq![r],
    }
}

/// Pruning works rule by rule: what survives of two sequences side by side is what survives
/// of each, in the same order. So pruning never reorders the rules that survive.
pub proof fn lemma_prune_concat(a: Seq<RuleModel>, b: Seq<RuleModel>, used: spec_fn(usize) -> bool)
    ensures
        prune(a + b, used) == prune(a, used) + prune(b, used),
    decreases b.len(),
{
    if b.len() == 0 {
        assert(a + b =~= a);
        assert(prune(a, used) + prune(b, used) =~= prune(a, used));
    } else {
        assert((a + b).drop_last() =~= a + b.drop_last());
        lemma_prune_concat(a, b.drop_last(), used);
        assert(prune(a + b, used) =~= prune(a, used) + prune(b, used));
    }
}

/// Pruning one rule alone.
pub proof fn lemma_prune_single(r: RuleModel, used: spec_fn(usize) -> bool)
    ensures
        prune(seq![r], used) == prune_rule(r, used),
{
    assert(seq![r].drop_last() =~= Seq::<RuleModel>::empty());
    assert(prune(Seq::<RuleModel>::empty(), used) + prune_rule(r, used) =~= prune_rule(r, used));
}

/// Filtering twice by the same predicate is filtering once.
pub proof fn lemma_filter_twice(s: Seq<usize>, used: spec_fn(usize) -> bool)
    ensures
        s.filter(used).filter(used) == s.filter(used),
    decreases s.len(),
{
    reveal(Seq::filter);
    if s.len() > 0 {
        lemma_filter_twice(s.drop_last(), used);
        let f = s.drop_last().filter(used);
        if used(s.last()) {
            assert(f.push(s.last()).drop_last() =~= f);
        }
    }
}

/// Pruning what survived of a rule changes nothing.
pub proof fn lemma_prune_rule_idempotent(r: RuleModel, used: spec_fn(usize) -> bool)
    ensures
        prune(prune_rule(r, used), used) == prune_rule(r, used),
    decreases r, 1nat,
{
    match r {
        RuleModel::Style { selectors, declarations } => {
            let kept = selectors.filter(used);
            if kept.len() > 0 {
                lemma_prune_single(RuleModel::Style { selectors: kept, declarations }, used);
                lemma_filter_twice(selectors, used);
            }
        },
        RuleModel::Group { kind, condition, rules } => {
            let inner = prune(rules, used);
            if inner.len() > 0 {
                lemma_prune_single(RuleModel::Group { kind, condition, rules: inner }, used);
                lemma_prune_idempotent(rules, used);
            }
        },
        RuleModel::Other { .. } => {
            lemma_prune_single(r, used);
        },
    }
}

/// Pruning an already pruned sequence of rules against the same documents changes nothing.
pub proof fn lemma_prune_idempotent(rules: Seq<RuleModel>, used: spec_fn(usize) -> bool)
    ensures
        prune(prune(rules, used), used) == prune(rules, used),
    decreases rules, 0nat,
{
    if rules.len() > 0 {
        lemma_prune_idempotent(rules.drop_last(), used);
        lemma_prune_rule_idempotent(rules.last(), used);
        lemma_prune_concat(prune(rules.drop_last(), used), prune_rule(rules.last(), used), used);
    }
}

/// Whether every rule, at every depth, is live: a style rule has at least one selector and
/// only used ones, a group has at least one rule and only live ones.
pub open spec fn live_rules(rules: Seq<RuleModel>, used: spec_fn(usize) -> bool) -> bool
    decreases rules, 0nat,
{
    if rules.len() == 0 {
        true
    } else {
        live_rules(rules.drop_last(), used) && live_rule(rules.last(), used)
    }
}

/// Whether one rule is live.
pub open spec fn live_rule(r: RuleModel, used: spec_fn(usize) -> bool) -> bool
    decreases r, 1nat,
{
    match r {
        RuleModel::Style { selectors, .. } => selectors.len() > 0 && forall|i: int|
            0 <= i < selectors.len() ==> used(#[trigger] selectors[i]),
        RuleModel::Group { rules, .. } => rules.len() > 0 && live_rules(rules, used),
        RuleModel::Other { .. } => true,
    }
}

/// Live rules side by side are live.
proof fn lemma_live_rules_concat(a: Seq<RuleModel>, b: Seq<RuleModel>, used: spec_fn(usize) -> bool)
    requires
        live_rules(a, used),
        live_rules(b, used),
    ensures
        live_rules(a + b, used),
    decreases b.len(),
{
    if b.len() == 0 {
        assert(a + b =~= a);
    } else {
        lemma_live_rules_concat(a, b.drop_last(), used);
        assert((a + b).drop_last() =~= a + b.drop_last());
    }
}

/// What survives of one rule is live.
proof fn lemma_prune_rule_live(r: RuleModel, used: spec_fn(usize) -> bool)
    ensures
        live_rules(prune_rule(r, used), used),
    decreases r, 1nat,
{
    broadcast use vstd::seq_lib::group_filter_ensures;

    let out = prune_rule(r, used);
    if out.len() > 0 {
        assert(out.drop_last() =~= Seq::<RuleModel>::empty());
        match r {
            RuleModel::Style { selectors, .. } => {
                let kept = selectors.filter(used);
                assert forall|i: int| 0 <= i < kept.len() implies used(#[trigger] kept[i]) by {
                    selectors.lemma_filter_pred(used, i);
                }
                assert(live_rule(out.last(), used));
            },
            RuleModel::Group { rules, .. } => {
                lemma_prune_live(rules, used);
                assert(live_rule(out.last(), used));
            },
            RuleModel::Other { .. } => {
                assert(live_rule(out.last(), used));
            },
        }
        assert(live_rules(out.drop_last(), used));
        assert(live_rules(out, used));
    } else {
        assert(live_rules(out, used));
    }
}

/// After pruning no dead rule is left at any depth: no style rule without selectors or with
/// a selector that matches nowhere, and no group, whatever its condition, with an empty body.
pub proof fn lemma_prune_live(rules: Seq<RuleModel>, used: spec_fn(usize) -> bool)
    ensures
        live_rules(prune(rules, used), used),
    decreases rules, 0nat,
{
    if rules.len() > 0 {
        lemma_prune_live(rules.drop_last(), used);
        lemma_prune_rule_live(rules.last(), used);
        lemma_live_rules_concat(prune(rules.drop_last(), used), prune_rule(rules.last(), used), used);
    }
}

/// Whether `sub` is `s` with some entries left out, the others in their order.
pub open spec fn is_subsequence(sub: Seq<usize>, s: Seq<usize>) -> bool
    decreases s.len(),
{
    if s.len() == 0 {
        sub.len() == 0
    } else {
        is_subsequence(sub, s.drop_last()) || (sub.len() > 0 && sub.last() == s.last()
            && is_subsequence(sub.drop_last(), s.drop_last()))
    }
}

/// Filtering keeps the kept entries in their order and adds none.
pub proof fn lemma_filter_is_subsequence(s: Seq<usize>, used: spec_fn(usize) -> bool)
    ensures
        is_subsequence(s.filter(used), s),
    decreases s.len(),
{
    reveal(Seq::filter);
    if s.len() > 0 {
        lemma_filter_is_subsequence(s.drop_last(), used);
        let f = s.drop_last().filter(used);
        if used(s.last()) {
            assert(f.push(s.last()).drop_last() =~= f);
        }
    }
}

/// Whether `new` is `old` thinned: some rules left out, each other one in its order and the
/// same rule with its selectors or its body thinned in turn; nothing moved or added.
pub open spec fn thins(new: Seq<RuleModel>, old: Seq<RuleModel>) -> bool
    decreases old, 0nat,
{
    if old.len() == 0 {
        new.len() == 0
    } else {
        thins(new, old.drop_last()) || (new.len() > 0 && thins(new.drop_last(), old.drop_last())
            && rule_thins(new.last(), old.last()))
    }
}

/// Whether `new` is the rule `old` with its selectors or its body thinned.
pub open spec fn rule_thins(new: RuleModel, old: RuleModel) -> bool
    decreases old, 1nat,
{
    match old {
        RuleModel::Style { selectors, declarations } => match new {
            RuleModel::Style { selectors: kept, declarations: d } => d == declarations
                && is_subsequence(kept, selectors),
            _ => false,
        },
        RuleModel::Group { kind, condition, rules } => match new {
            RuleModel::Group { kind: k, condition: c, rules: kept } => k == kind && c == condition
                && thins(kept, rules),
            _ => false,
        },
        RuleModel::Other { handle } => new == RuleModel::Other { handle },
    }
}

/// Pruning at every depth only leaves rules and selectors out: the survivors keep their
/// relative order, each survivor is the same rule with its selectors or body thinned, and
/// nothing is moved or added.
pub proof fn lemma_prune_thins(rules: Seq<RuleModel>, used: spec_fn(usize) -> bool)
    ensures
        thins(prune(rules, used), rules),
    decreases rules, 0nat,
{
    if rules.len() > 0 {
        let init = rules.drop_last();
        let r = rules.last();
        lemma_prune_thins(init, used);
        let out = prune_rule(r, used);
        if out.len() == 0 {
            assert(prune(init, used) + out =~= prune(init, used));
        } else {
            lemma_prune_rule_thins(r, used);
            assert((prune(init, used) + out).drop_last() =~= prune(init, used));
            assert(out =~= seq![out[0]]);
        }
    }
}

/// What survives of one rule, where something does, is that rule thinned.
proof fn lemma_prune_rule_thins(r: RuleModel, used: spec_fn(usize) -> bool)
    requires
        prune_rule(r, used).len() > 0,
    ensures
        prune_rule(r, used).len() == 1,
        rule_thins(prune_rule(r, used)[0], r),
    decreases r, 1nat,
{
    match r {
        RuleModel::Style { selectors, .. } => {
            lemma_filter_is_subsequence(selectors, used);
        },
        RuleModel::Group { rules, .. } => {
            lemma_prune_thins(rules, used);
        },
        RuleModel::Other { .. } => {},
    }
}

/// Whether selector `s` matches an element of some document, where `table[s][d]` reports
/// its matches in document `d` by pre-order position.
pub open spec fn selector_used(
    documents: Seq<RcDom>,
    table: Seq<Vec<Vec<bool>>>,
    s: usize,
) -> bool {
    s < table.len() && matches_in_some_document(documents, table[s as int]@)
}

/// A selector of a style rule survives pruning exactly where it matches an element of some
/// document, the survivors keep their order, and a style rule left without selectors is
/// removed.
pub proof fn lemma_style_rule_pruning(
    documents: Seq<RcDom>,
    table: Seq<Vec<Vec<bool>>>,
    selectors: Seq<usize>,
    declarations: usize,
)
    ensures
        ({
            let used = |s: usize| selector_used(documents, table, s);
            let out = prune(seq![RuleModel::Style { selectors, declarations }], used);
            &&& out.len() == 0 <==> (forall|i: int| 0 <= i < selectors.len() ==> !selector_used(documents, table, #[trigger] selectors[i]))
            &&& out.len() != 0 ==> out == seq![RuleModel::Style { selectors: selectors.filter(used), declarations }]
            &&& forall|s: usize| #[trigger] selectors.filter(used).contains(s) <==> selectors.contains(s) && selector_used(documents, table, s)
        }),
{
    let used = |s: usize| selector_used(documents, table, s);
    let r = RuleModel::Style { selectors, declarations };
    lemma_prune_single(r, used);
    let kept = selectors.filter(used);
    broadcast use vstd::seq_lib::group_filter_ensures;
    assert forall|s: usize| #[trigger] kept.contains(s) <==> selectors.contains(s) && used(s) by {
        if selectors.contains(s) && used(s) {
            let i = choose|i: int| 0 <= i < selectors.len() && selectors[i] == s;
            assert(kept.contains(selectors[i]));
        }
        if kept.contains(s) {
            selectors.lemma_filter_contains_rev(used, s);
        }
    }
    if kept.len() == 0 {
        assert forall|i: int| 0 <= i < selectors.len() implies !selector_used(documents, table, #[trigger] selectors[i]) by {
            if used(selectors[i]) {
                assert(kept.contains(selectors[i]));
            }
        }
    } else {
        assert(kept.contains(kept[0]));
    }
}

/// A conditional group keeps what survives of its rules and is removed, whatever its
/// condition, where nothing survives.
pub proof fn lemma_group_pruning(
    kind: GroupKind,
    condition: usize,
    rules: Seq<RuleModel>,
    used: spec_fn(usize) -> bool,
)
    ensures
        prune(seq![RuleModel::Group { kind, condition, rules }], used) == if prune(rules, used).len()
            == 0 {
            Seq::<RuleModel>::empty()
        } else {
            seq![RuleModel::Group { kind, condition, rules: prune(rules, used) }]
        },
{
    lemma_prune_single(RuleModel::Group { kind, condition, rules }, used);
}

/// Purification against documents, at every depth: every selector left matches an element of
/// some document, no style rule is left without selectors, no group is left with an empty
/// body, the survivors keep their order with nothing moved or added, and purifying again
/// changes nothing.
pub proof fn lemma_purification(documents: Seq<RcDom>, table: Seq<Vec<Vec<bool>>>, rules: Seq<RuleModel>)
    ensures
        ({
            let used = |s: usize| selector_used(documents, table, s);
            &&& live_rules(prune(rules, used), used)
            &&& thins(prune(rules, used), rules)
            &&& prune(prune(rules, used), used) == prune(rules, used)
        }),
{
    let used = |s: usize| selector_used(documents, table, s);
    lemma_prune_live(rules, used);
    lemma_prune_thins(rules, used);
    lemma_prune_idempotent(rules, used);
}

/// Whether selector `s` matches an element of some document.
pub fn selector_is_used(documents: &Vec<RcDom>, table: &Vec<Vec<Vec<bool>>>, s: usize) -> (r: bool)
    ensures
        r == selector_used(documents@, table@, s),
{
    if s < table.len() {
        find_all_matching_nodes_in_documents(documents, &table[s])
    } else {
        false
    }
}

/// Removal of the selectors that no document uses.
pub trait DeduplicatedSelectorsExt {
    /// The selectors, in order.
    spec fn selector_ids(&self) -> Seq<usize>;

    /// Removes the selectors that match no element of the documents, keeping the order of
    /// the others. Afterwards the style rule that owns them may have none left.
    fn remove_unmatched_selectors(&mut self, documents: &Vec<RcDom>, table: &Vec<Vec<Vec<bool>>>)
        ensures
            final(self).selector_ids() == old(self).selector_ids().filter(
                |s: usize| selector_used(documents@, table@, s),
            ),
    ;
}

impl DeduplicatedSelectorsExt for DeduplicatedSelectors {
    open spec fn selector_ids(&self) -> Seq<usize> {
        self.0@
    }

    fn remove_unmatched_selectors(&mut self, documents: &Vec<RcDom>, table: &Vec<Vec<Vec<bool>>>) {
        let ghost used = |s: usize| selector_used(documents@, table@, s);
        let ghost all = self.0@;
        let mut taken: Vec<usize> = Vec::new();
        std::mem::swap(&mut self.0, &mut taken);
        let mut kept: Vec<usize> = Vec::new();
        for s in it: taken.into_iter()
            invariant
                it.seq() == all,
                used == (|s: usize| selector_used(documents@, table@, s)),
                kept@ == all.subrange(0, it.index() as int).filter(used),
        {
            assert(all.subrange(0, it.index() + 1).drop_last() =~= all.subrange(0, it.index() as int));
            assert(all.subrange(0, it.index() + 1).last() == s);
            let ghost prev = all.subrange(0, it.index() as int);
            let ghost next = all.subrange(0, it.index() + 1);
            assert(next.drop_last() == prev);
            proof {
                reveal(Seq::filter);
            }
            if selector_is_used(documents, table, s) {
                kept.push(s);
            }
            assert(kept@ == next.filter(used));
        }
        assert(all.subrange(0, all.len() as int) =~= all);
        self.0 = kept;
    }
}

/// Removes the unused rules of a sequence of rules, keeping the order of the others.
pub fn remove_unused_rules(
    rules: &mut Vec<CssRule>,
    documents: &Vec<RcDom>,
    table: &Vec<Vec<Vec<bool>>>,
) -> (r: bool)
    ensures
        rules_model(final(rules)@) == prune(
            rules_model(old(rules)@),
            |s: usize| selector_used(documents@, table@, s),
        ),
        r == (final(rules)@.len() > 0),
    decreases old(rules)@,
{
    let ghost used = |s: usize| selector_used(documents@, table@, s);
    let ghost all = old(rules)@;
    let ghost ms = rules_model(all);
    proof {
        lemma_rules_model(all);
    }
    let mut taken: Vec<CssRule> = Vec::new();
    std::mem::swap(rules, &mut taken);
    let mut kept: Vec<CssRule> = Vec::new();
    for rule in it: taken.into_iter()
        invariant
            it.seq() == all,
            all == old(rules)@,
            ms == rules_model(all),
            ms.len() == all.len(),
            forall|j: int| 0 <= j < all.len() ==> #[trigger] ms[j] == rule_model(all[j]),
            used == (|s: usize| selector_used(documents@, table@, s)),
            rules_model(kept@) == prune(ms.subrange(0, it.index() as int), used),
            kept@.len() == rules_model(kept@).len(),
    {
        let ghost k = it.index() as int;
        let ghost before = kept@;
        assert(ms.subrange(0, k + 1).drop_last() =~= ms.subrange(0, k));
        assert(ms.subrange(0, k + 1).last() == rule_model(rule));
        assert(rule == all[k]);
        proof {
            assert(decreases_to!(all => all[k]));
        }
        let ghost orig = rule;
        assert(prune(ms.subrange(0, k + 1), used) == prune(ms.subrange(0, k), used) + prune_rule(
            rule_model(orig),
            used,
        ));
        match rule {
            CssRule::Style(mut style_rule) => {
                let ghost selectors_before = style_rule.selectors.0@;
                style_rule.selectors.remove_unmatched_selectors(documents, table);
                assert(style_rule.selectors.0@ == selectors_before.filter(used));
                if style_rule.selectors.0.len() != 0 {
                    let kept_rule = CssRule::Style(style_rule);
                    kept.push(kept_rule);
                    proof {
                        lemma_rules_model_push(before, kept_rule);
                    }
                }
            },
            CssRule::Media(mut group) => {
                proof {
                    assert(decreases_to!(all[k] => group.rules@));
                }
                if remove_unused_rules(&mut group.rules, documents, table) {
                    let kept_rule = CssRule::Media(group);
                    kept.push(kept_rule);
                    proof {
                        lemma_rules_model_push(before, kept_rule);
                    }
                }
            },
            CssRule::Supports(mut group) => {
                if remove_unused_rules(&mut group.rules, documents, table) {
                    let kept_rule = CssRule::Supports(group);
                    kept.push(kept_rule);
                    proof {
                        lemma_rules_model_push(before, kept_rule);
                    }
                }
            },
            CssRule::Document(mut group) => {
                if remove_unused_rules(&mut group.rules, documents, table) {
                    let kept_rule = CssRule::Document(group);
                    kept.push(kept_rule);
                    proof {
                        lemma_rules_model_push(before, kept_rule);
                    }
                }
            },
            CssRule::Other(h) => {
                let kept_rule = CssRule::Other(h);
                kept.push(kept_rule);
                proof {
                    lemma_rules_model_push(before, kept_rule);
                }
            },
        }
        assert(rules_model(kept@) =~= rules_model(before) + prune_rule(rule_model(orig), used));
    }
    assert(ms.subrange(0, ms.len() as int) =~= ms);
    let r = kept.len() > 0;
    *rules = kept;
    r
}

/// Removal of the rules that no document uses, on anything that holds a list of rules.
pub trait HasCssRulesExt {
    /// The rules, in order.
    spec fn css_rules(&self) -> Seq<RuleModel>;

    /// Removes the unused rules, keeping the order of the others. Returns whether at least
    /// one rule is left.
    fn remove_unused_css_rules(&mut self, documents: &Vec<RcDom>, table: &Vec<Vec<Vec<bool>>>) -> (r:
        bool)
        ensures
            final(self).css_rules() == prune(
                old(self).css_rules(),
                |s: usize| selector_used(documents@, table@, s),
            ),
            r == (final(self).css_rules().len() > 0),
    ;
}

impl HasCssRulesExt for Stylesheet {
    open spec fn css_rules(&self) -> Seq<RuleModel> {
        rules_model(self.rules@)
    }

    fn remove_unused_css_rules(&mut self, documents: &Vec<RcDom>, table: &Vec<Vec<Vec<bool>>>) -> (r:
        bool) {
        let r = remove_unused_rules(&mut self.rules, documents, table);
        proof {
            lemma_rules_model(self.rules@);
        }
        r
    }
}

impl HasCssRulesExt for ConditionalGroupRule {
    open spec fn css_rules(&self) -> Seq<RuleModel> {
        rules_model(self.rules@)
    }

    fn remove_unused_css_rules(&mut self, documents: &Vec<RcDom>, table: &Vec<Vec<Vec<bool>>>) -> (r:
        bool) {
        let r = remove_unused_rules(&mut self.rules, documents, table);
        proof {
            lemma_rules_model(self.rules@);
        }
        r
    }
}

} // verus!
