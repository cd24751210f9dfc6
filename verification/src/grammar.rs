//! The grammar: loops by name, each an ordered list of references to
//! segments and to other loops.

use vstd::hash_map::StringHashMap;
use vstd::prelude::*;

verus! {

/// One entry of a loop's definition: a reference to a segment or to another
/// loop. Exactly one of `segment` and `loop_name` is meant to be non-empty.
#[derive(Debug, Clone)]
pub struct SchemaElement {
    /// The segment code, for a segment reference.
    pub segment: String,
    /// Carried for documentation; matching does not read it.
    pub required: bool,
    /// `1` allows one occurrence; any other value allows any number.
    pub max: i32,
    /// The name of the loop, for a loop reference.
    pub loop_name: String,
    /// Carried for documentation; matching does not read it.
    pub description: String,
    /// For an `HL` segment reference: the level code that the segment's
    /// fourth field must hold. Empty when any level is accepted.
    pub level: String,
}

/// The mathematical value of a [`SchemaElement`].
pub struct ElementView {
    pub segment: Seq<char>,
    pub required: bool,
    pub max: int,
    pub loop_name: Seq<char>,
    pub description: Seq<char>,
    pub level: Seq<char>,
}

/// What a grammar element refers to.
#[derive(Debug, Clone, Copy, PartialEq, Eq, Structural)]
pub enum ElementKind {
    Segment,
    Loop,
}

impl ElementView {
    /// The element names a segment and no loop.
    pub open spec fn is_segment(self) -> bool {
        self.segment.len() > 0 && self.loop_name.len() == 0
    }

    /// The element names a loop and no segment.
    pub open spec fn is_loop(self) -> bool {
        self.segment.len() == 0 && self.loop_name.len() > 0
    }

    /// The kind of the element, where it names exactly one thing.
    pub open spec fn kind(self) -> Option<ElementKind> {
        if self.is_segment() {
            Some(ElementKind::Segment)
        } else if self.is_loop() {
            Some(ElementKind::Loop)
        } else {
            None
        }
    }

    /// The element names exactly one thing: a segment or a loop.
    pub open spec fn well_formed(self) -> bool {
        self.is_segment() || self.is_loop()
    }

    /// The key under which a match of this element is stored in its parent:
    /// the segment code, or the loop name where there is no segment code.
    pub open spec fn key(self) -> Seq<char> {
        if self.segment.len() > 0 {
            self.segment
        } else {
            self.loop_name
        }
    }

    /// At most one match of the element is kept.
    pub open spec fn singular(self) -> bool {
        self.max == 1
    }
}

impl View for SchemaElement {
    type V = ElementView;

    open spec fn view(&self) -> ElementView {
        ElementView {
            segment: self.segment@,
            required: self.required,
            max: self.max as int,
            loop_name: self.loop_name@,
            description: self.description@,
            level: self.level@,
        }
    }
}

impl SchemaElement {
    /// Tells a segment reference from a loop reference. An element that
    /// names both, or neither, has no kind.
    pub fn kind(&self) -> (kind: Option<ElementKind>)
        ensures
            kind == self@.kind(),
    {
        let has_segment = !self.segment.as_str().is_empty();
        let has_loop = !self.loop_name.as_str().is_empty();
        if has_segment && !has_loop {
            Some(ElementKind::Segment)
        } else if has_loop && !has_segment {
            Some(ElementKind::Loop)
        } else {
            None
        }
    }
}

/// The value of a text field that a grammar file leaves out.
pub fn default_val() -> (text: String)
    ensures
        text@.len() == 0,
{
    String::new()
}

/// The value of the `required` flag where a grammar file leaves it out.
pub fn default_bool() -> (flag: bool)
    ensures
        !flag,
{
    false
}

/// The value of `max` where a grammar file leaves it out: no limit.
pub fn default_max() -> (max: i32)
    ensures
        max == 0,
{
    0
}

impl Default for SchemaElement {
    /// The element that a grammar file describes by an empty object.
    fn default() -> (element: SchemaElement)
        ensures
            element@.segment.len() == 0,
            element@.loop_name.len() == 0,
            element@.description.len() == 0,
            element@.level.len() == 0,
            element@.max == 0,
            !element@.required,
    {
        SchemaElement {
            segment: default_val(),
            required: default_bool(),
            max: default_max(),
            loop_name: default_val(),
            description: default_val(),
            level: default_val(),
        }
    }
}

/// A named group of segments and loops: its elements, in the order in which
/// the matcher tries them.
#[derive(Debug, Clone)]
pub struct SchemaLoop {
    pub elements: Vec<SchemaElement>,
}

/// The mathematical value of a list of grammar elements.
pub open spec fn rules_of(elements: Seq<SchemaElement>) -> Seq<ElementView> {
    Seq::new(elements.len(), |i: int| elements[i]@)
}

impl View for SchemaLoop {
    type V = Seq<ElementView>;

    open spec fn view(&self) -> Seq<ElementView> {
        rules_of(self.elements@)
    }
}

/// The grammar of one message type: its loops by name. Matching starts at
/// the elements of the loop named `root`, which is taken out of the grammar
/// before.
pub type SchemaMessage = StringHashMap<SchemaLoop>;

/// The grammars of all message types, by schema name.
pub type SchemaCollection = StringHashMap<SchemaMessage>;

/// A grammar as a mathematical map from loop names to element lists.
pub type Grammar = Map<Seq<char>, Seq<ElementView>>;

/// The mathematical value of a grammar.
pub open spec fn grammar_of(loops: Map<Seq<char>, SchemaLoop>) -> Grammar {
    Map::new(|name: Seq<char>| loops.contains_key(name), |name: Seq<char>| loops[name]@)
}

} // verus!
