//! What a match is: the grammar walked against the raw segments in one
//! greedy pass, as a function of mathematical values, and what holds of it.

use crate::assembly::{folded, leaf_node, lemma_folded_keys};
use crate::error::Fault;
use crate::grammar::{ElementKind, ElementView, Grammar};
use crate::json::{Entries, Tree};
use vstd::prelude::*;

verus! {

/// A raw message: its segments, each a list of fields, the first of which is
/// the segment code.
pub type Segments = Seq<Seq<Seq<char>>>;

/// What a match gives: the node assembled, and the index of the raw segment
/// after the last one consumed.
pub type Matched = Result<(Entries, nat), Fault>;

/// The segment reference `rule` matches the raw segment `fields`: the
/// segment has a code and it is the rule's, and where the code is `HL` and
/// the rule names a level, the segment has a fourth field and it is that
/// level. A segment that lacks the code or the level is not matched.
pub open spec fn accepts(rule: ElementView, fields: Seq<Seq<char>>) -> bool {
    fields.len() >= 1 && fields[0] == rule.segment && !(fields[0] == "HL"@ && rule.level.len() > 0
        && (fields.len() < 4 || fields[3] != rule.level))
}

/// The rest of a match of `rules` against `raw`: the element at `rule_at` is
/// tried against the segment at `next`, with `node` assembled so far and
/// `depth` more loops allowed inside one another.
///
/// - With either cursor past its end, the match is over.
/// - A segment reference that does not match the segment is passed over.
///   One that matches takes the segment: its leaf is folded into the node,
///   and the reference is passed over if it is singular.
/// - A loop reference is matched from the same segment on. A loop that gives
///   an empty node is passed over and leaves no entry. Any other is folded
///   into the node, and the reference is passed over if it is singular.
///
/// A loop that gives a node with entries has consumed a segment
/// ([`lemma_match_progress`]), so the last branch below is never taken.
pub open spec fn match_from(
    grammar: Grammar,
    rules: Seq<ElementView>,
    raw: Segments,
    depth: nat,
    rule_at: nat,
    next: nat,
    node: Entries,
) -> Matched
    decreases depth, rules.len() - rule_at, raw.len() - next,
{
    if rule_at >= rules.len() || next >= raw.len() {
        Ok((node, next))
    } else {
        let rule = rules[rule_at as int];
        let fields = raw[next as int];
        let after_rule = if rule.singular() {
            rule_at + 1
        } else {
            rule_at
        };
        match rule.kind() {
            None => Err(Fault::MalformedElement { position: rule_at }),
            Some(ElementKind::Segment) => {
                if !accepts(rule, fields) {
                    match_from(grammar, rules, raw, depth, rule_at + 1, next, node)
                } else {
                    match_from(
                        grammar,
                        rules,
                        raw,
                        depth,
                        after_rule,
                        next + 1,
                        folded(node, rule, leaf_node(fields)),
                    )
                }
            },
            Some(ElementKind::Loop) => {
                if !grammar.contains_key(rule.loop_name) {
                    Err(Fault::UnknownLoop { name: rule.loop_name })
                } else if depth == 0 {
                    Err(Fault::NestingTooDeep)
                } else {
                    match match_from(
                        grammar,
                        grammar[rule.loop_name],
                        raw,
                        (depth - 1) as nat,
                        0,
                        next,
                        Entries::empty(),
                    ) {
                        Err(fault) => Err(fault),
                        Ok((child, after)) => {
                            if child == Entries::empty() {
                                match_from(grammar, rules, raw, depth, rule_at + 1, after, node)
                            } else if rule.singular() {
                                match_from(
                                    grammar,
                                    rules,
                                    raw,
                                    depth,
                                    rule_at + 1,
                                    after,
                                    folded(node, rule, child),
                                )
                            } else if next < after <= raw.len() {
                                match_from(
                                    grammar,
                                    rules,
                                    raw,
                                    depth,
                                    rule_at,
                                    after,
                                    folded(node, rule, child),
                                )
                            } else {
                                Ok((folded(node, rule, child), after))
                            }
                        },
                    }
                }
            },
        }
    }
}

/// A match of `rules` against `raw` from the segment at `start` on.
pub open spec fn matched(
    grammar: Grammar,
    rules: Seq<ElementView>,
    raw: Segments,
    depth: nat,
    start: nat,
) -> Matched {
    match_from(grammar, rules, raw, depth, 0, start, Entries::empty())
}

/// What [`lemma_match_progress`] states of the outcome of a match that
/// began at the segment `next` with `node` assembled.
pub open spec fn progresses(node: Entries, next: nat, raw: Segments, outcome: Matched) -> bool {
    outcome matches Ok((out, after)) ==> {
        &&& next <= after
        &&& (next <= raw.len() ==> after <= raw.len())
        &&& node.dom().subset_of(out.dom())
        &&& (node.dom().finite() ==> out.dom().finite())
        &&& (after == next ==> out == node)
        &&& (after > next ==> out != Entries::empty())
    }
}

/// What holds of every match that ends without a fault: the segment cursor
/// does not move back and does not pass the end of the message; entries are
/// added to the node, never taken away; and the node has grown exactly when
/// a segment was consumed.
pub proof fn lemma_match_progress(
    grammar: Grammar,
    rules: Seq<ElementView>,
    raw: Segments,
    depth: nat,
    rule_at: nat,
    next: nat,
    node: Entries,
)
    ensures
        progresses(node, next, raw, match_from(grammar, rules, raw, depth, rule_at, next, node)),
    decreases depth, rules.len() - rule_at, raw.len() - next,
{
    if rule_at < rules.len() && next < raw.len() {
        let rule = rules[rule_at as int];
        let fields = raw[next as int];
        let after_rule = if rule.singular() {
            rule_at + 1
        } else {
            rule_at
        };
        match rule.kind() {
            None => {},
            Some(ElementKind::Segment) => {
                if !accepts(rule, fields) {
                    lemma_match_progress(grammar, rules, raw, depth, rule_at + 1, next, node);
                } else {
                    let grown = folded(node, rule, leaf_node(fields));
                    lemma_folded_keys(node, rule, leaf_node(fields));
                    lemma_match_progress(grammar, rules, raw, depth, after_rule, next + 1, grown);
                }
            },
            Some(ElementKind::Loop) => {
                if grammar.contains_key(rule.loop_name) && depth > 0 {
                    let inner = grammar[rule.loop_name];
                    let below = (depth - 1) as nat;
                    lemma_match_progress(grammar, inner, raw, below, 0, next, Entries::empty());
                    if let Ok((child, after)) = matched(grammar, inner, raw, below, next) {
                        if child == Entries::empty() {
                            lemma_match_progress(
                                grammar,
                                rules,
                                raw,
                                depth,
                                rule_at + 1,
                                after,
                                node,
                            );
                        } else {
                            let grown = folded(node, rule, child);
                            lemma_folded_keys(node, rule, child);
                            lemma_match_progress(
                                grammar,
                                rules,
                                raw,
                                depth,
                                after_rule,
                                after,
                                grown,
                            );
                        }
                    }
                }
            },
        }
    }
}

/// A list of segment references none of which matches the segment at `next`
/// takes nothing: the node and the cursor are as they were.
pub proof fn lemma_level_without_a_match_takes_nothing(
    grammar: Grammar,
    rules: Seq<ElementView>,
    raw: Segments,
    depth: nat,
    rule_at: nat,
    next: nat,
    node: Entries,
)
    requires
        next < raw.len(),
        forall|i: int|
            rule_at <= i < rules.len() ==> (#[trigger] rules[i]).is_segment() && !accepts(
                rules[i],
                raw[next as int],
            ),
    ensures
        match_from(grammar, rules, raw, depth, rule_at, next, node) == Ok::<(Entries, nat), Fault>(
            (node, next),
        ),
    decreases rules.len() - rule_at,
{
    if rule_at < rules.len() {
        lemma_level_without_a_match_takes_nothing(
            grammar,
            rules,
            raw,
            depth,
            rule_at + 1,
            next,
            node,
        );
    }
}

/// A loop reference whose loop gives a node without entries is passed over:
/// the match goes on with the next element, from the same segment and with
/// the same node.
pub proof fn lemma_empty_loop_is_passed_over(
    grammar: Grammar,
    rules: Seq<ElementView>,
    raw: Segments,
    depth: nat,
    rule_at: nat,
    next: nat,
    node: Entries,
)
    requires
        rule_at < rules.len(),
        next < raw.len(),
        depth > 0,
        rules[rule_at as int].is_loop(),
        grammar.contains_key(rules[rule_at as int].loop_name),
        matched(
            grammar,
            grammar[rules[rule_at as int].loop_name],
            raw,
            (depth - 1) as nat,
            next,
        ) matches Ok((child, _)) && child == Entries::empty(),
    ensures
        match_from(grammar, rules, raw, depth, rule_at, next, node) == match_from(
            grammar,
            rules,
            raw,
            depth,
            rule_at + 1,
            next,
            node,
        ),
{
    lemma_match_progress(
        grammar,
        grammar[rules[rule_at as int].loop_name],
        raw,
        (depth - 1) as nat,
        0,
        next,
        Entries::empty(),
    );
}

/// A loop that gives a node without entries wherever it is tried leaves no
/// key in the output: where `name` is the key of loop references only, and
/// the node had no entry for `name`, the match gives none.
pub proof fn lemma_unmatched_loop_leaves_no_key(
    grammar: Grammar,
    rules: Seq<ElementView>,
    raw: Segments,
    depth: nat,
    rule_at: nat,
    next: nat,
    node: Entries,
    name: Seq<char>,
)
    requires
        !node.contains_key(name),
        forall|i: int|
            0 <= i < rules.len() && #[trigger] rules[i].key() == name ==> rules[i].is_loop(),
        forall|at: nat| #[trigger]
            matched(grammar, grammar[name], raw, (depth - 1) as nat, at) matches Ok((child, _))
                ==> child == Entries::empty(),
    ensures
        match_from(grammar, rules, raw, depth, rule_at, next, node) matches Ok((out, _))
            ==> !out.contains_key(name),
    decreases rules.len() - rule_at, raw.len() - next,
{
    if rule_at < rules.len() && next < raw.len() {
        let rule = rules[rule_at as int];
        let fields = raw[next as int];
        let after_rule = if rule.singular() {
            rule_at + 1
        } else {
            rule_at
        };
        match rule.kind() {
            None => {},
            Some(ElementKind::Segment) => {
                if !accepts(rule, fields) {
                    lemma_unmatched_loop_leaves_no_key(
                        grammar,
                        rules,
                        raw,
                        depth,
                        rule_at + 1,
                        next,
                        node,
                        name,
                    );
                } else {
                    lemma_unmatched_loop_leaves_no_key(
                        grammar,
                        rules,
                        raw,
                        depth,
                        after_rule,
                        next + 1,
                        folded(node, rule, leaf_node(fields)),
                        name,
                    );
                }
            },
            Some(ElementKind::Loop) => {
                if grammar.contains_key(rule.loop_name) && depth > 0 {
                    let nested = matched(
                        grammar,
                        grammar[rule.loop_name],
                        raw,
                        (depth - 1) as nat,
                        next,
                    );
                    lemma_match_progress(
                        grammar,
                        grammar[rule.loop_name],
                        raw,
                        (depth - 1) as nat,
                        0,
                        next,
                        Entries::empty(),
                    );
                    if let Ok((child, after)) = nested {
                        if child == Entries::empty() {
                            lemma_unmatched_loop_leaves_no_key(
                                grammar,
                                rules,
                                raw,
                                depth,
                                rule_at + 1,
                                after,
                                node,
                                name,
                            );
                        } else {
                            lemma_unmatched_loop_leaves_no_key(
                                grammar,
                                rules,
                                raw,
                                depth,
                                after_rule,
                                after,
                                folded(node, rule, child),
                                name,
                            );
                        }
                    }
                }
            },
        }
    }
}

/// A segment reference with a level matches exactly the `HL` segments that
/// have a fourth field and hold that level in it. A shorter `HL` segment, or
/// one of another level, is not matched.
pub proof fn lemma_level_discriminates(rule: ElementView, fields: Seq<Seq<char>>)
    requires
        rule.segment == "HL"@,
        rule.level.len() > 0,
    ensures
        accepts(rule, fields) <==> fields.len() >= 4 && fields[0] == "HL"@ && fields[3]
            == rule.level,
{
}

/// A segment reference that does not match the segment is passed over, and
/// the segment is not consumed: the match goes on with the next element,
/// from the same segment and with the same node.
pub proof fn lemma_rejected_segment_is_kept(
    grammar: Grammar,
    rules: Seq<ElementView>,
    raw: Segments,
    depth: nat,
    rule_at: nat,
    next: nat,
    node: Entries,
)
    requires
        rule_at < rules.len(),
        next < raw.len(),
        rules[rule_at as int].is_segment(),
        !accepts(rules[rule_at as int], raw[next as int]),
    ensures
        match_from(grammar, rules, raw, depth, rule_at, next, node) == match_from(
            grammar,
            rules,
            raw,
            depth,
            rule_at + 1,
            next,
            node,
        ),
{
}

/// A singular segment reference that matches takes the segment and is then
/// passed over, so that it takes no second one: the match goes on with the
/// next element and the next segment.
pub proof fn lemma_singular_segment_is_taken_once(
    grammar: Grammar,
    rules: Seq<ElementView>,
    raw: Segments,
    depth: nat,
    rule_at: nat,
    next: nat,
    node: Entries,
)
    requires
        rule_at < rules.len(),
        next < raw.len(),
        rules[rule_at as int].is_segment(),
        rules[rule_at as int].singular(),
        accepts(rules[rule_at as int], raw[next as int]),
    ensures
        match_from(grammar, rules, raw, depth, rule_at, next, node) == match_from(
            grammar,
            rules,
            raw,
            depth,
            rule_at + 1,
            next + 1,
            node.insert(rules[rule_at as int].segment, Tree::Object(leaf_node(raw[next as int]))),
        ),
{
}

/// The leaves of the raw segments from `from` up to `to`, in order.
pub open spec fn leaves(raw: Segments, from: int, to: int) -> Seq<Tree> {
    Seq::new((to - from) as nat, |i: int| Tree::Object(leaf_node(raw[from + i])))
}

/// The list that the node holds under `key`; the empty list where it holds
/// none.
pub open spec fn list_under(node: Entries, key: Seq<char>) -> Seq<Tree> {
    if node.contains_key(key) && node[key] is List {
        node[key]->List_0
    } else {
        Seq::empty()
    }
}

/// A repeatable segment reference takes every segment of a run that it
/// matches, and their leaves are appended to its list in the order of the
/// segments: the match goes on with the same element after the run.
pub proof fn lemma_repeatable_segment_collects_run(
    grammar: Grammar,
    rules: Seq<ElementView>,
    raw: Segments,
    depth: nat,
    rule_at: nat,
    next: nat,
    end: nat,
    node: Entries,
)
    requires
        rule_at < rules.len(),
        next < end <= raw.len(),
        rules[rule_at as int].is_segment(),
        !rules[rule_at as int].singular(),
        forall|i: int| next <= i < end ==> accepts(rules[rule_at as int], #[trigger] raw[i]),
    ensures
        match_from(grammar, rules, raw, depth, rule_at, next, node) == match_from(
            grammar,
            rules,
            raw,
            depth,
            rule_at,
            end,
            node.insert(
                rules[rule_at as int].segment,
                Tree::List(
                    list_under(node, rules[rule_at as int].segment) + leaves(
                        raw,
                        next as int,
                        end as int,
                    ),
                ),
            ),
        ),
    decreases end - next,
{
    let rule = rules[rule_at as int];
    let key = rule.segment;
    let item = Tree::Object(leaf_node(raw[next as int]));
    let grown = folded(node, rule, leaf_node(raw[next as int]));
    let before = list_under(node, key);
    assert(grown =~= node.insert(key, Tree::List(before.push(item))));
    if next + 1 == end {
        assert(before + leaves(raw, next as int, end as int) =~= before.push(item));
    } else {
        lemma_repeatable_segment_collects_run(
            grammar,
            rules,
            raw,
            depth,
            rule_at,
            next + 1,
            end,
            grown,
        );
        assert(before.push(item) + leaves(raw, next as int + 1, end as int) =~= before + leaves(
            raw,
            next as int,
            end as int,
        ));
        assert(grown.insert(
            key,
            Tree::List(list_under(grown, key) + leaves(raw, next as int + 1, end as int)),
        ) =~= node.insert(key, Tree::List(before + leaves(raw, next as int, end as int))));
    }
}

/// Every element of `rules` names exactly one thing, and every loop that one
/// names is defined in `grammar`.
pub open spec fn resolves(grammar: Grammar, rules: Seq<ElementView>) -> bool {
    forall|i: int|
        0 <= i < rules.len() ==> (#[trigger] rules[i]).well_formed() && (rules[i].is_loop()
            ==> grammar.contains_key(rules[i].loop_name))
}

/// Every loop of the grammar is made of well-formed elements that name
/// loops of the grammar.
pub open spec fn grammar_well_formed(grammar: Grammar) -> bool {
    forall|name: Seq<char>|
        grammar.contains_key(name) ==> resolves(grammar, #[trigger] grammar[name])
}

/// `rank` orders the loops of the grammar so that each loop names only
/// loops of a lower rank: no loop opens itself, at any remove.
pub open spec fn layered(grammar: Grammar, rank: Map<Seq<char>, nat>) -> bool {
    forall|name: Seq<char>, i: int|
        grammar.contains_key(name) && 0 <= i < grammar[name].len()
            && (#[trigger] grammar[name][i]).is_loop() ==> rank[grammar[name][i].loop_name]
            < rank[name]
}

/// The loops that `rules` names have a rank below `depth`.
pub open spec fn within(rules: Seq<ElementView>, rank: Map<Seq<char>, nat>, depth: nat) -> bool {
    forall|i: int|
        0 <= i < rules.len() && (#[trigger] rules[i]).is_loop() ==> rank[rules[i].loop_name] < depth
}

/// On a well-formed grammar a match finds no malformed element and no
/// unknown loop: it ends without a fault or is too deep.
pub proof fn lemma_well_formed_grammar_is_accepted(
    grammar: Grammar,
    rules: Seq<ElementView>,
    raw: Segments,
    depth: nat,
    rule_at: nat,
    next: nat,
    node: Entries,
)
    requires
        grammar_well_formed(grammar),
        resolves(grammar, rules),
    ensures
        match_from(grammar, rules, raw, depth, rule_at, next, node) matches Err(fault) ==> fault
            is NestingTooDeep,
    decreases depth, rules.len() - rule_at, raw.len() - next,
{
    if rule_at < rules.len() && next < raw.len() {
        let rule = rules[rule_at as int];
        let fields = raw[next as int];
        let after_rule = if rule.singular() {
            rule_at + 1
        } else {
            rule_at
        };
        match rule.kind() {
            None => {},
            Some(ElementKind::Segment) => {
                if !accepts(rule, fields) {
                    lemma_well_formed_grammar_is_accepted(
                        grammar,
                        rules,
                        raw,
                        depth,
                        rule_at + 1,
                        next,
                        node,
                    );
                } else {
                    lemma_well_formed_grammar_is_accepted(
                        grammar,
                        rules,
                        raw,
                        depth,
                        after_rule,
                        next + 1,
                        folded(node, rule, leaf_node(fields)),
                    );
                }
            },
            Some(ElementKind::Loop) => {
                if depth > 0 {
                    let inner = grammar[rule.loop_name];
                    let below = (depth - 1) as nat;
                    lemma_well_formed_grammar_is_accepted(
                        grammar,
                        inner,
                        raw,
                        below,
                        0,
                        next,
                        Entries::empty(),
                    );
                    lemma_match_progress(grammar, inner, raw, below, 0, next, Entries::empty());
                    if let Ok((child, after)) = matched(grammar, inner, raw, below, next) {
                        if child == Entries::empty() {
                            lemma_well_formed_grammar_is_accepted(
                                grammar,
                                rules,
                                raw,
                                depth,
                                rule_at + 1,
                                after,
                                node,
                            );
                        } else {
                            lemma_well_formed_grammar_is_accepted(
                                grammar,
                                rules,
                                raw,
                                depth,
                                after_rule,
                                after,
                                folded(node, rule, child),
                            );
                        }
                    }
                }
            },
        }
    }
}

/// No raw segment makes a match fail: a segment that no element matches is
/// left where it is, whatever it holds, and a fault is a fault of the
/// grammar.
pub proof fn lemma_no_segment_is_a_fault(
    grammar: Grammar,
    rules: Seq<ElementView>,
    raw: Segments,
    depth: nat,
    rule_at: nat,
    next: nat,
    node: Entries,
)
    ensures
        match_from(grammar, rules, raw, depth, rule_at, next, node) matches Err(fault) ==> fault
            is MalformedElement || fault is UnknownLoop || fault is NestingTooDeep,
    decreases depth, rules.len() - rule_at, raw.len() - next,
{
    if rule_at < rules.len() && next < raw.len() {
        let rule = rules[rule_at as int];
        let fields = raw[next as int];
        let after_rule = if rule.singular() {
            rule_at + 1
        } else {
            rule_at
        };
        match rule.kind() {
            None => {},
            Some(ElementKind::Segment) => {
                if !accepts(rule, fields) {
                    lemma_no_segment_is_a_fault(
                        grammar,
                        rules,
                        raw,
                        depth,
                        rule_at + 1,
                        next,
                        node,
                    );
                } else {
                    lemma_no_segment_is_a_fault(
                        grammar,
                        rules,
                        raw,
                        depth,
                        after_rule,
                        next + 1,
                        folded(node, rule, leaf_node(fields)),
                    );
                }
            },
            Some(ElementKind::Loop) => {
                if grammar.contains_key(rule.loop_name) && depth > 0 {
                    let inner = grammar[rule.loop_name];
                    let below = (depth - 1) as nat;
                    lemma_no_segment_is_a_fault(
                        grammar,
                        inner,
                        raw,
                        below,
                        0,
                        next,
                        Entries::empty(),
                    );
                    lemma_match_progress(grammar, inner, raw, below, 0, next, Entries::empty());
                    if let Ok((child, after)) = matched(grammar, inner, raw, below, next) {
                        if child == Entries::empty() {
                            lemma_no_segment_is_a_fault(
                                grammar,
                                rules,
                                raw,
                                depth,
                                rule_at + 1,
                                after,
                                node,
                            );
                        } else {
                            lemma_no_segment_is_a_fault(
                                grammar,
                                rules,
                                raw,
                                depth,
                                after_rule,
                                after,
                                folded(node, rule, child),
                            );
                        }
                    }
                }
            },
        }
    }
}

/// A match within a layered grammar, whose loops rank below the depth
/// allowed, is never too deep.
pub proof fn lemma_layered_grammar_is_not_too_deep(
    grammar: Grammar,
    rules: Seq<ElementView>,
    raw: Segments,
    depth: nat,
    rule_at: nat,
    next: nat,
    node: Entries,
    rank: Map<Seq<char>, nat>,
)
    requires
        layered(grammar, rank),
        within(rules, rank, depth),
    ensures
        match_from(grammar, rules, raw, depth, rule_at, next, node) != Err::<(Entries, nat), Fault>(
            Fault::NestingTooDeep,
        ),
    decreases depth, rules.len() - rule_at, raw.len() - next,
{
    if rule_at < rules.len() && next < raw.len() {
        let rule = rules[rule_at as int];
        let fields = raw[next as int];
        let after_rule = if rule.singular() {
            rule_at + 1
        } else {
            rule_at
        };
        match rule.kind() {
            None => {},
            Some(ElementKind::Segment) => {
                if !accepts(rule, fields) {
                    lemma_layered_grammar_is_not_too_deep(
                        grammar,
                        rules,
                        raw,
                        depth,
                        rule_at + 1,
                        next,
                        node,
                        rank,
                    );
                } else {
                    lemma_layered_grammar_is_not_too_deep(
                        grammar,
                        rules,
                        raw,
                        depth,
                        after_rule,
                        next + 1,
                        folded(node, rule, leaf_node(fields)),
                        rank,
                    );
                }
            },
            Some(ElementKind::Loop) => {
                if grammar.contains_key(rule.loop_name) {
                    let inner = grammar[rule.loop_name];
                    let below = (depth - 1) as nat;
                    assert(within(inner, rank, below));
                    lemma_layered_grammar_is_not_too_deep(
                        grammar,
                        inner,
                        raw,
                        below,
                        0,
                        next,
                        Entries::empty(),
                        rank,
                    );
                    lemma_match_progress(grammar, inner, raw, below, 0, next, Entries::empty());
                    if let Ok((child, after)) = matched(grammar, inner, raw, below, next) {
                        if child == Entries::empty() {
                            lemma_layered_grammar_is_not_too_deep(
                                grammar,
                                rules,
                                raw,
                                depth,
                                rule_at + 1,
                                after,
                                node,
                                rank,
                            );
                        } else {
                            lemma_layered_grammar_is_not_too_deep(
                                grammar,
                                rules,
                                raw,
                                depth,
                                after_rule,
                                after,
                                folded(node, rule, child),
                                rank,
                            );
                        }
                    }
                }
            },
        }
    }
}

/// The matcher itself never fails: on a well-formed grammar whose loops are
/// layered below the depth allowed, any segments are matched without a
/// fault.
pub proof fn lemma_valid_input_is_matched(
    grammar: Grammar,
    rules: Seq<ElementView>,
    raw: Segments,
    depth: nat,
    start: nat,
    rank: Map<Seq<char>, nat>,
)
    requires
        grammar_well_formed(grammar),
        resolves(grammar, rules),
        layered(grammar, rank),
        within(rules, rank, depth),
    ensures
        matched(grammar, rules, raw, depth, start) is Ok,
{
    lemma_well_formed_grammar_is_accepted(grammar, rules, raw, depth, 0, start, Entries::empty());
    lemma_layered_grammar_is_not_too_deep(
        grammar,
        rules,
        raw,
        depth,
        0,
        start,
        Entries::empty(),
        rank,
    );
}

/// The inputs on which a match is owed: a well-formed grammar whose loops
/// can be layered below the depth allowed. Nothing is asked of the segments.
pub open spec fn matchable(
    grammar: Grammar,
    rules: Seq<ElementView>,
    raw: Segments,
    depth: nat,
) -> bool {
    &&& grammar_well_formed(grammar)
    &&& resolves(grammar, rules)
    &&& exists|rank: Map<Seq<char>, nat>| #[trigger]
        layered(grammar, rank) && within(rules, rank, depth)
}

/// Matchable inputs are matched without a fault, from any segment on.
pub proof fn lemma_matchable_is_matched(
    grammar: Grammar,
    rules: Seq<ElementView>,
    raw: Segments,
    depth: nat,
    start: nat,
)
    requires
        matchable(grammar, rules, raw, depth),
    ensures
        matched(grammar, rules, raw, depth, start) is Ok,
{
    let rank = choose|rank: Map<Seq<char>, nat>| #[trigger]
        layered(grammar, rank) && within(rules, rank, depth);
    lemma_valid_input_is_matched(grammar, rules, raw, depth, start, rank);
}

/// The depth is a limit and nothing more: a match that ends within it ends
/// in the same way under any greater one.
pub proof fn lemma_depth_is_only_a_limit(
    grammar: Grammar,
    rules: Seq<ElementView>,
    raw: Segments,
    depth: nat,
    deeper: nat,
    rule_at: nat,
    next: nat,
    node: Entries,
)
    requires
        depth <= deeper,
        match_from(grammar, rules, raw, depth, rule_at, next, node) != Err::<(Entries, nat), Fault>(
            Fault::NestingTooDeep,
        ),
    ensures
        match_from(grammar, rules, raw, deeper, rule_at, next, node) == match_from(
            grammar,
            rules,
            raw,
            depth,
            rule_at,
            next,
            node,
        ),
    decreases depth, rules.len() - rule_at, raw.len() - next,
{
    if rule_at < rules.len() && next < raw.len() {
        let rule = rules[rule_at as int];
        let fields = raw[next as int];
        let after_rule = if rule.singular() {
            rule_at + 1
        } else {
            rule_at
        };
        match rule.kind() {
            None => {},
            Some(ElementKind::Segment) => {
                if !accepts(rule, fields) {
                    lemma_depth_is_only_a_limit(
                        grammar,
                        rules,
                        raw,
                        depth,
                        deeper,
                        rule_at + 1,
                        next,
                        node,
                    );
                } else {
                    lemma_depth_is_only_a_limit(
                        grammar,
                        rules,
                        raw,
                        depth,
                        deeper,
                        after_rule,
                        next + 1,
                        folded(node, rule, leaf_node(fields)),
                    );
                }
            },
            Some(ElementKind::Loop) => {
                if grammar.contains_key(rule.loop_name) && depth > 0 {
                    let inner = grammar[rule.loop_name];
                    let nested = match_from(
                        grammar,
                        inner,
                        raw,
                        (depth - 1) as nat,
                        0,
                        next,
                        Entries::empty(),
                    );
                    lemma_depth_is_only_a_limit(
                        grammar,
                        inner,
                        raw,
                        (depth - 1) as nat,
                        (deeper - 1) as nat,
                        0,
                        next,
                        Entries::empty(),
                    );
                    lemma_match_progress(
                        grammar,
                        inner,
                        raw,
                        (depth - 1) as nat,
                        0,
                        next,
                        Entries::empty(),
                    );
                    if let Ok((child, after)) = nested {
                        if child == Entries::empty() {
                            lemma_depth_is_only_a_limit(
                                grammar,
                                rules,
                                raw,
                                depth,
                                deeper,
                                rule_at + 1,
                                after,
                                node,
                            );
                        } else {
                            lemma_depth_is_only_a_limit(
                                grammar,
                                rules,
                                raw,
                                depth,
                                deeper,
                                after_rule,
                                after,
                                folded(node, rule, child),
                            );
                        }
                    }
                }
            },
        }
    }
}

} // verus!
