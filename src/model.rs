use vstd::prelude::*;

verus! {

/// The marker that a text placeholder or a placeholder attribute value holds.
pub const MARKER: char = '@';

/// A caller's decision at a structural directive.
///
/// `Enter` and `Repeat` both let traversal go into a directive's body;
/// `Skip` and `Stop` both send it past the body.
#[derive(Clone, Copy, Debug, PartialEq, Eq, Structural)]
pub enum ControlFlow {
    Skip,
    Enter,
    Repeat,
    Stop,
}

impl ControlFlow {
    pub open spec fn spec_proceeds(self) -> bool {
        self is Enter || self is Repeat
    }

    /// Whether this decision lets traversal go into a directive's body.
    #[verifier::when_used_as_spec(spec_proceeds)]
    pub fn proceeds(self) -> (r: bool)
        ensures
            r == self.spec_proceeds(),
    {
        match self {
            ControlFlow::Enter | ControlFlow::Repeat => true,
            ControlFlow::Skip | ControlFlow::Stop => false,
        }
    }
}

/// One item of the input channel. The channel is first in, first out: items
/// are consumed in the order in which the caller appended them.
#[derive(Debug)]
pub enum Input {
    FillerText { text: String },
    ControlFlow { control: ControlFlow },
}

/// A `name="value"` pair of a start tag.
#[derive(Debug)]
pub struct Attribute {
    pub name: String,
    pub value: String,
}

/// One instruction of a template.
///
/// `wrapper` marks the document's root element, whose tags are never emitted.
#[derive(Debug)]
pub enum Node {
    Start { name: String, attributes: Vec<Attribute>, wrapper: bool },
    End { name: String, wrapper: bool },
    Text { content: String },
}

/// The errors of compiling and of rendering a template.
#[derive(Clone, Copy, Debug, PartialEq, Eq, Structural)]
pub enum TemplateError {
    IoError,
    ParseError,
    UnbalancedControlFlow,
    CyclicInclude,
    TypeMismatch,
    ExhaustedInput,
    TrailingInput,
}

/// The two structural directives that steer traversal.
#[derive(Clone, Copy, Debug, PartialEq, Eq, Structural)]
pub enum Directive {
    Conditional,
    Loop,
}

/// The directive that a tag name denotes, if any.
pub open spec fn directive_of(name: Seq<char>) -> Option<Directive> {
    if name == "if"@ {
        Some(Directive::Conditional)
    } else if name == "swhile"@ {
        Some(Directive::Loop)
    } else {
        None
    }
}

/// The reserved tag names: never emitted as literal markup.
pub open spec fn is_keyword(name: Seq<char>) -> bool {
    name == "if"@ || name == "swhile"@ || name == "ewhile"@
}

/// The directive that a start tag opens, if any.
pub open spec fn opens(n: Node) -> Option<Directive> {
    match n {
        Node::Start { name, wrapper, .. } => if wrapper { None } else { directive_of(name@) },
        _ => None,
    }
}

/// The directive that an end tag closes, if any.
pub open spec fn closes(n: Node) -> Option<Directive> {
    match n {
        Node::End { name, wrapper } => if wrapper { None } else { directive_of(name@) },
        _ => None,
    }
}

/// Whether `name` equals the literal `word`.
pub fn name_is(name: &String, word: &str) -> (r: bool)
    ensures
        r == (name@ == word@),
{
    let w = word.to_owned();
    *name == w
}

/// The directive that a tag name denotes, if any.
pub fn directive_kind(name: &String) -> (r: Option<Directive>)
    ensures
        r == directive_of(name@),
{
    if name_is(name, "if") {
        Some(Directive::Conditional)
    } else if name_is(name, "swhile") {
        Some(Directive::Loop)
    } else {
        None
    }
}

/// Whether a tag name is one of the three reserved keywords.
pub fn is_control_flow_keyword(el: &String) -> (r: bool)
    ensures
        r == is_keyword(el@),
{
    name_is(el, "if") || name_is(el, "swhile") || name_is(el, "ewhile")
}

/// The directive that node `n` opens, if any.
pub fn node_opens(n: &Node) -> (r: Option<Directive>)
    ensures
        r == opens(*n),
{
    match n {
        Node::Start { name, wrapper, .. } => if *wrapper { None } else { directive_kind(name) },
        _ => None,
    }
}

/// The directive that node `n` closes, if any.
pub fn node_closes(n: &Node) -> (r: Option<Directive>)
    ensures
        r == closes(*n),
{
    match n {
        Node::End { name, wrapper } => if *wrapper { None } else { directive_kind(name) },
        _ => None,
    }
}

/// `n` indentation steps of four spaces each.
pub open spec fn indentation(n: nat) -> Seq<char>
    decreases n,
{
    if n == 0 {
        Seq::empty()
    } else {
        indentation((n - 1) as nat) + "    "@
    }
}

/// The indentation for nesting depth `size`.
pub fn indent(size: usize) -> (r: String)
    ensures
        r@ == indentation(size as nat),
{
    let mut r = String::new();
    let mut i: usize = 0;
    while i < size
        invariant
            i <= size,
            r@ == indentation(i as nat),
        decreases size - i,
    {
        r.append("    ");
        i = i + 1;
    }
    r
}

} // verus!
