//! The matcher: one greedy pass over the raw segments, driven by the
//! grammar.

use crate::assembly::{build_message, make_segment};
use crate::error::X12Error;
use crate::grammar::{grammar_of, rules_of, ElementKind, SchemaElement, SchemaMessage};
use crate::json::{new_object, object_entries, object_len, Entries, Node};
use crate::matching::{
    accepts, lemma_match_progress, lemma_matchable_is_matched, match_from, matchable, matched,
    Matched,
};
use vstd::prelude::*;

verus! {

/// How many loops may be open at once, the one whose elements are being
/// matched not counted.
pub const MAX_NESTING_DEPTH: usize = 64;

/// The outcome of a match as a mathematical value.
pub open spec fn outcome_of(result: Result<(Node, usize), X12Error>) -> Matched {
    match result {
        Ok((node, next)) => Ok((object_entries(node), next as nat)),
        Err(error) => Err(error@),
    }
}

/// Tells whether the segment reference `element` matches the raw segment
/// `fields`. A segment without a code matches no reference, and an `HL`
/// segment too short to hold a level matches none that names one.
pub fn segment_matches(element: &SchemaElement, fields: &Vec<String>) -> (yes: bool)
    ensures
        yes == accepts(element@, fields.deep_view()),
{
    if fields.len() == 0 {
        return false;
    }
    if !(fields[0] == element.segment) {
        return false;
    }
    if fields[0].as_str().eq("HL") && !element.level.as_str().is_empty() {
        if fields.len() < 4 {
            return false;
        }
        return fields[3] == element.level;
    }
    true
}

/// Matches `schema_elements` against the raw segments from `segment_index`
/// on, with no more than `depth` loops open inside one another. Gives the
/// node assembled and the index of the segment after the last one consumed.
///
/// A mismatch is no fault: an element that does not match is passed over,
/// whatever the segment holds. Only the grammar can be at fault, and the
/// match ends at the first element that shows it: one without one kind, or
/// one that names a loop that is not defined or that would be opened beyond
/// `depth`.
pub fn parse_message_within(
    raw_segments: &Vec<Vec<String>>,
    schema_elements: &Vec<SchemaElement>,
    all_loops: &SchemaMessage,
    segment_index: usize,
    depth: usize,
) -> (result: Result<(Node, usize), X12Error>)
    ensures
        outcome_of(result) == matched(
            grammar_of(all_loops@),
            rules_of(schema_elements@),
            raw_segments.deep_view(),
            depth as nat,
            segment_index as nat,
        ),
        matchable(
            grammar_of(all_loops@),
            rules_of(schema_elements@),
            raw_segments.deep_view(),
            depth as nat,
        ) ==> result is Ok,
        result matches Ok((_, next)) ==> segment_index <= next,
        result matches Ok((_, next)) ==> segment_index <= raw_segments.len() ==> next
            <= raw_segments.len(),
        result matches Ok((node, _)) ==> object_entries(node).dom().finite(),
    decreases depth,
{
    let ghost grammar = grammar_of(all_loops@);
    let ghost rules = rules_of(schema_elements@);
    let ghost raw = raw_segments.deep_view();
    let ghost goal = matched(grammar, rules, raw, depth as nat, segment_index as nat);
    proof {
        if matchable(grammar, rules, raw, depth as nat) {
            lemma_matchable_is_matched(grammar, rules, raw, depth as nat, segment_index as nat);
        }
        lemma_match_progress(
            grammar,
            rules,
            raw,
            depth as nat,
            0,
            segment_index as nat,
            Entries::empty(),
        );
    }
    let mut parsed = new_object();
    let mut schema_cursor: usize = 0;
    let mut segment_cursor: usize = segment_index;
    while schema_cursor < schema_elements.len() && segment_cursor < raw_segments.len()
        invariant
            goal == matched(grammar, rules, raw, depth as nat, segment_index as nat),
            grammar == grammar_of(all_loops@),
            rules == rules_of(schema_elements@),
            raw == raw_segments.deep_view(),
            schema_cursor <= schema_elements.len(),
            object_entries(parsed).dom().finite(),
            goal == match_from(
                grammar,
                rules,
                raw,
                depth as nat,
                schema_cursor as nat,
                segment_cursor as nat,
                object_entries(parsed),
            ),
        decreases schema_elements.len() - schema_cursor, raw_segments.len() - segment_cursor,
    {
        let current_element = &schema_elements[schema_cursor];
        let current_segment = &raw_segments[segment_cursor];
        let ghost rule = rules[schema_cursor as int];
        match current_element.kind() {
            None => {
                return Err(X12Error::MalformedElement { position: schema_cursor });
            },
            Some(ElementKind::Segment) => {
                if !segment_matches(current_element, current_segment) {
                    schema_cursor = schema_cursor + 1;
                } else {
                    let leaf = make_segment(current_segment.clone());
                    build_message(current_element, leaf, &mut parsed);
                    segment_cursor = segment_cursor + 1;
                    if current_element.max == 1 {
                        schema_cursor = schema_cursor + 1;
                    }
                }
            },
            Some(ElementKind::Loop) => {
                let loop_elements = match all_loops.get(current_element.loop_name.as_str()) {
                    Some(found) => &found.elements,
                    None => {
                        return Err(
                            X12Error::UnknownLoop { name: current_element.loop_name.clone() },
                        );
                    },
                };
                if depth == 0 {
                    return Err(X12Error::NestingTooDeep);
                }
                let (parsed_loop, new_seg_index) = match parse_message_within(
                    raw_segments,
                    loop_elements,
                    all_loops,
                    segment_cursor,
                    depth - 1,
                ) {
                    Ok(inner) => inner,
                    Err(error) => {
                        return Err(error);
                    },
                };
                proof {
                    lemma_match_progress(
                        grammar,
                        grammar[rule.loop_name],
                        raw,
                        (depth - 1) as nat,
                        0,
                        segment_cursor as nat,
                        Entries::empty(),
                    );
                    lemma_empty_node(object_entries(parsed_loop));
                }
                segment_cursor = new_seg_index;
                if object_len(&parsed_loop) < 1 {
                    schema_cursor = schema_cursor + 1;
                } else {
                    build_message(current_element, parsed_loop, &mut parsed);
                    if current_element.max == 1 {
                        schema_cursor = schema_cursor + 1;
                    }
                }
            },
        }
    }
    Ok((parsed, segment_cursor))
}

/// Matches `schema_elements`, the elements of one loop of the grammar
/// `all_loops`, against the raw segments from `segment_index` on. Gives the
/// node assembled for that loop and the index of the segment after the last
/// one consumed. No more than [`MAX_NESTING_DEPTH`] loops may be open inside
/// one another; for the rest see [`parse_message_within`].
pub fn parse_message(
    raw_segments: &Vec<Vec<String>>,
    schema_elements: &Vec<SchemaElement>,
    all_loops: &SchemaMessage,
    segment_index: usize,
) -> (result: Result<(Node, usize), X12Error>)
    ensures
        outcome_of(result) == matched(
            grammar_of(all_loops@),
            rules_of(schema_elements@),
            raw_segments.deep_view(),
            MAX_NESTING_DEPTH as nat,
            segment_index as nat,
        ),
        matchable(
            grammar_of(all_loops@),
            rules_of(schema_elements@),
            raw_segments.deep_view(),
            MAX_NESTING_DEPTH as nat,
        ) ==> result is Ok,
        result matches Ok((_, next)) ==> segment_index <= next,
        result matches Ok((_, next)) ==> segment_index <= raw_segments.len() ==> next
            <= raw_segments.len(),
        result matches Ok((node, _)) ==> object_entries(node).dom().finite(),
{
    parse_message_within(raw_segments, schema_elements, all_loops, segment_index, MAX_NESTING_DEPTH)
}

/// A finite node without entries is the empty node.
proof fn lemma_empty_node(node: Entries)
    requires
        node.dom().finite(),
    ensures
        node.len() == 0 <==> node == Entries::empty(),
{
    if node.len() == 0 {
        assert(node =~= Entries::empty());
    }
}

} // verus!
