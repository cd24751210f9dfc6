//! Which grammar applies to a message.

use crate::error::{Fault, X12Error};
use crate::grammar::{SchemaCollection, SchemaElement, SchemaMessage};
use crate::matching::Segments;
use crate::text::{contains, has_substring};
use vstd::prelude::*;

verus! {

/// The index of the header segment, `ST`, in a message.
pub const HEADER_INDEX: usize = 2;

/// The name of the grammar for the message `raw`. The header is the third
/// segment and its code is `ST`; its first field is the transaction set. For
/// the transaction set `837` the third field of the header decides between
/// two grammars: `837i` where it holds `005010X22`, else `837p`. Any other
/// transaction set is itself the name.
pub open spec fn selected_schema(raw: Segments) -> Result<Seq<char>, Fault> {
    if raw.len() <= HEADER_INDEX {
        Err(Fault::MissingHeader)
    } else {
        let header = raw[HEADER_INDEX as int];
        if header.len() == 0 || header[0] != "ST"@ {
            Err(Fault::MissingHeader)
        } else if header.len() < 2 {
            Err(Fault::MalformedSegment { index: HEADER_INDEX as nat })
        } else if header[1] != "837"@ {
            Ok(header[1])
        } else if header.len() < 4 {
            Err(Fault::MalformedSegment { index: HEADER_INDEX as nat })
        } else if contains(header[3], "005010X22"@) {
            Ok("837i"@)
        } else {
            Ok("837p"@)
        }
    }
}

/// The name of a grammar, or why there is none, as a mathematical value.
pub open spec fn selection_of(result: Result<String, X12Error>) -> Result<Seq<char>, Fault> {
    match result {
        Ok(name) => Ok(name@),
        Err(error) => Err(error@),
    }
}

/// Reads the header of a message and names the grammar that applies to it.
pub fn schema_name_for_msg(segments: &Vec<Vec<String>>) -> (result: Result<String, X12Error>)
    ensures
        selection_of(result) == selected_schema(segments.deep_view()),
{
    if segments.len() <= HEADER_INDEX {
        return Err(X12Error::MissingHeader);
    }
    let st_segment = &segments[HEADER_INDEX];
    if st_segment.len() == 0 {
        return Err(X12Error::MissingHeader);
    }
    if !st_segment[0].as_str().eq("ST") {
        return Err(X12Error::MissingHeader);
    }
    if st_segment.len() < 2 {
        return Err(X12Error::MalformedSegment { index: HEADER_INDEX });
    }
    let message_name = &st_segment[1];
    if !message_name.as_str().eq("837") {
        return Ok(message_name.clone());
    }
    if st_segment.len() < 4 {
        return Err(X12Error::MalformedSegment { index: HEADER_INDEX });
    }
    let reference_id = &st_segment[3];
    if has_substring(reference_id.as_str(), "005010X22") {
        Ok("837i".to_string())
    } else {
        Ok("837p".to_string())
    }
}

/// The grammar that `collection` holds under `name`.
pub open spec fn named_schema(collection: Map<Seq<char>, SchemaMessage>, name: Seq<char>) -> Result<
    SchemaMessage,
    Fault,
> {
    if collection.contains_key(name) {
        Ok(collection[name])
    } else {
        Err(Fault::UnrecognizedMessageType { name })
    }
}

/// The grammar that applies to the message `raw`: the one that the
/// collection holds under the name that the header gives.
pub open spec fn schema_for(raw: Segments, collection: Map<Seq<char>, SchemaMessage>) -> Result<
    SchemaMessage,
    Fault,
> {
    match selected_schema(raw) {
        Err(fault) => Err(fault),
        Ok(name) => named_schema(collection, name),
    }
}

/// A grammar found, or why none was, as a mathematical value.
pub open spec fn found_of(result: Result<&SchemaMessage, X12Error>) -> Result<
    SchemaMessage,
    Fault,
> {
    match result {
        Ok(grammar) => Ok(*grammar),
        Err(error) => Err(error@),
    }
}

/// Looks up the grammar named `schema_name`.
pub fn get_msg_schema<'a>(collection: &'a SchemaCollection, schema_name: &str) -> (result: Result<
    &'a SchemaMessage,
    X12Error,
>)
    ensures
        found_of(result) == named_schema(collection@, schema_name@),
{
    match collection.get(schema_name) {
        Some(grammar) => Ok(grammar),
        None => Err(X12Error::UnrecognizedMessageType { name: schema_name.to_string() }),
    }
}

/// Reads the header of a message and gives the grammar that applies to it.
pub fn get_schema_for_msg<'a>(
    segments: &Vec<Vec<String>>,
    collection: &'a SchemaCollection,
) -> (result: Result<&'a SchemaMessage, X12Error>)
    ensures
        found_of(result) == schema_for(segments.deep_view(), collection@),
{
    match schema_name_for_msg(segments) {
        Ok(schema_name) => get_msg_schema(collection, schema_name.as_str()),
        Err(error) => Err(error),
    }
}

fn copy_element(element: &SchemaElement) -> (copy: SchemaElement)
    ensures
        copy == *element,
{
    SchemaElement {
        segment: element.segment.clone(),
        required: element.required,
        max: element.max,
        loop_name: element.loop_name.clone(),
        description: element.description.clone(),
        level: element.level.clone(),
    }
}

fn copy_elements(elements: &Vec<SchemaElement>) -> (copy: Vec<SchemaElement>)
    ensures
        copy@ == elements@,
{
    let mut copy: Vec<SchemaElement> = Vec::new();
    let mut i: usize = 0;
    while i < elements.len()
        invariant
            i <= elements.len(),
            copy@ == elements@.take(i as int),
        decreases elements.len() - i,
    {
        copy.push(copy_element(&elements[i]));
        assert(copy@ =~= elements@.take(i + 1));
        i = i + 1;
    }
    assert(elements@.take(elements.len() as int) =~= elements@);
    copy
}

/// Takes the loop named `root` out of the grammar and gives its elements, at
/// which matching starts. The other loops stay; a loop element that names
/// `root` finds no loop afterwards. A grammar without `root` is left as it
/// is.
pub fn take_root(all_loops: &mut SchemaMessage) -> (result: Result<Vec<SchemaElement>, X12Error>)
    ensures
        match result {
            Ok(elements) => old(all_loops)@.contains_key("root"@) && elements@ == old(
                all_loops,
            )@["root"@].elements@ && final(all_loops)@ == old(all_loops)@.remove("root"@),
            Err(error) => !old(all_loops)@.contains_key("root"@) && error == X12Error::MissingRoot
                && final(all_loops)@ == old(all_loops)@,
        },
{
    let elements = match all_loops.get("root") {
        Some(root) => copy_elements(&root.elements),
        None => {
            return Err(X12Error::MissingRoot);
        },
    };
    all_loops.remove("root");
    Ok(elements)
}

} // verus!
