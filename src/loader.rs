use vstd::prelude::*;
use std::collections::VecDeque;
use crate::model::{Attribute, Node, TemplateError, name_is};
use xml::reader::XmlEvent;

verus! {

#[verifier::external_type_specification]
#[verifier::external_body]
pub struct ExXmlEvent(xml::reader::XmlEvent);

#[verifier::external_type_specification]
#[verifier::external_body]
pub struct ExXmlError(xml::reader::Error);

/// Whether the markup parser accepts `text` as a whole document.
pub uninterp spec fn well_formed_markup(text: Seq<char>) -> bool;

/// The events that the markup parser reads from `text`, as the loader sees them.
pub uninterp spec fn markup_events(text: Seq<char>) -> Seq<MarkupEvent>;

/// Relies on `xml::reader::EventReader::from_str` and its event iterator:
/// the document's events in order, or the first error; which of the two
/// comes, and which events, depends on the text alone.
#[verifier::external_body]
fn parse_events(src: &str) -> (r: Option<VecDeque<MarkupEvent>>)
    ensures
        r is Some <==> well_formed_markup(src@),
        r matches Some(q) ==> q@ == markup_events(src@),
{
    let events: Result<Vec<XmlEvent>, xml::reader::Error> =
        xml::reader::EventReader::from_str(src).into_iter().collect();
    events.ok().map(|v| v.iter().map(markup_event).collect())
}

/// Relies on the variants of `xml::reader::XmlEvent`: copies out an element's
/// local name and its attributes (with their prefixes), or a run of character
/// data.
#[verifier::external_body]
fn markup_event(e: &XmlEvent) -> (r: MarkupEvent) {
    match e.clone() {
        XmlEvent::StartElement { name, attributes, .. } => MarkupEvent::StartElement {
            name: name.local_name,
            attributes: attributes.into_iter().map(|a| Attribute { name: a.name.borrow().to_repr(), value: a.value }).collect(),
        },
        XmlEvent::EndElement { name } => MarkupEvent::EndElement { name: name.local_name },
        XmlEvent::Characters(s) | XmlEvent::Whitespace(s) | XmlEvent::CData(s) => MarkupEvent::Text { content: s },
        _ => MarkupEvent::Other,
    }
}

/// One event of the markup parser, as the loader reads it.
pub enum MarkupEvent {
    StartElement { name: String, attributes: Vec<Attribute> },
    EndElement { name: String },
    Text { content: String },
    Other,
}

/// The nodes that event `e` adds at element depth `depth`: the outermost
/// element's tags are marked as the wrapper.
pub open spec fn node_seq(e: MarkupEvent, depth: int) -> Seq<Node> {
    match e {
        MarkupEvent::StartElement { name, attributes } => seq![
            Node::Start { name, attributes, wrapper: depth == 0 },
        ],
        MarkupEvent::EndElement { name } => seq![Node::End { name, wrapper: depth == 1 }],
        MarkupEvent::Text { content } => seq![Node::Text { content }],
        MarkupEvent::Other => Seq::empty(),
    }
}

/// The element depth after event `e`.
pub open spec fn next_depth(e: MarkupEvent, depth: int) -> int {
    match e {
        MarkupEvent::StartElement { .. } => depth + 1,
        MarkupEvent::EndElement { .. } => if depth > 0 { depth - 1 } else { 0 },
        _ => depth,
    }
}

/// Appends the nodes of one parser event.
pub fn push_event(nodes: &mut Vec<Node>, depth: &mut usize, e: MarkupEvent)
    requires
        *old(depth) < usize::MAX,
    ensures
        final(nodes)@ == old(nodes)@ + node_seq(e, *old(depth) as int),
        *final(depth) == next_depth(e, *old(depth) as int),
{
    let ghost e0 = e;
    match e {
        MarkupEvent::StartElement { name, attributes } => {
            nodes.push(Node::Start { name, attributes, wrapper: *depth == 0 });
            *depth = *depth + 1;
        },
        MarkupEvent::EndElement { name } => {
            nodes.push(Node::End { name, wrapper: *depth == 1 });
            if *depth > 0 {
                *depth = *depth - 1;
            }
        },
        MarkupEvent::Text { content } => {
            nodes.push(Node::Text { content });
        },
        MarkupEvent::Other => {},
    }
    proof {
        assert(nodes@ =~= old(nodes)@ + node_seq(e0, *old(depth) as int));
    }
}

/// The element depth after the events `ev`.
pub open spec fn depth_after(ev: Seq<MarkupEvent>) -> int
    decreases ev.len(),
{
    if ev.len() == 0 {
        0
    } else {
        next_depth(ev.last(), depth_after(ev.drop_last()))
    }
}

/// The nodes of the events `ev`, in order: one per tag or run of text, with
/// the tags of the outermost element marked as the wrapper.
pub open spec fn nodes_of_events(ev: Seq<MarkupEvent>) -> Seq<Node>
    decreases ev.len(),
{
    if ev.len() == 0 {
        Seq::empty()
    } else {
        nodes_of_events(ev.drop_last()) + node_seq(ev.last(), depth_after(ev.drop_last()))
    }
}

proof fn lemma_depth_bound(ev: Seq<MarkupEvent>)
    ensures
        0 <= depth_after(ev) <= ev.len(),
    decreases ev.len(),
{
    if ev.len() > 0 {
        lemma_depth_bound(ev.drop_last());
    }
}

/// Builds the node list of a sequence of parser events.
pub fn nodes_from_events(events: VecDeque<MarkupEvent>) -> (r: Vec<Node>)
    ensures
        r@ == nodes_of_events(events@),
{
    let ghost ev = events@;
    let mut events = events;
    let total = events.len();
    let mut nodes: Vec<Node> = Vec::new();
    let mut depth: usize = 0;
    let ghost mut k: int = 0;
    proof {
        assert(ev.take(0) =~= Seq::<MarkupEvent>::empty());
        assert(ev.skip(0) =~= ev);
    }
    while events.len() > 0
        invariant
            0 <= k <= ev.len(),
            ev.len() == total,
            events@ == ev.skip(k),
            nodes@ == nodes_of_events(ev.take(k)),
            depth == depth_after(ev.take(k)),
        decreases events@.len(),
    {
        proof {
            lemma_depth_bound(ev.take(k));
        }
        let e = events.pop_front().unwrap();
        proof {
            assert(ev.take(k + 1).drop_last() =~= ev.take(k));
            assert(ev.take(k + 1).last() == e);
            assert(ev.skip(k + 1) =~= ev.skip(k).drop_first());
        }
        push_event(&mut nodes, &mut depth, e);
        proof {
            k = k + 1;
        }
    }
    proof {
        assert(ev.take(k) =~= ev);
    }
    nodes
}

/// Parses `src` into a flat node list, one node per tag or run of text.
pub fn load_markup(src: &str) -> (r: Result<Vec<Node>, TemplateError>)
    ensures
        r is Ok <==> well_formed_markup(src@),
        r is Err ==> r->Err_0 == TemplateError::ParseError,
        r matches Ok(v) ==> v@ == nodes_of_events(markup_events(src@)),
{
    match parse_events(src) {
        Some(q) => Ok(nodes_from_events(q)),
        None => Err(TemplateError::ParseError),
    }
}

/// Whether `n` is the start tag of an include directive.
pub open spec fn is_include_start(n: Node) -> bool {
    n matches Node::Start { name, wrapper, .. } && !wrapper && name@ == "include"@
}

/// Whether `n` is the end tag of an include directive.
pub open spec fn is_include_end(n: Node) -> bool {
    n matches Node::End { name, wrapper } && !wrapper && name@ == "include"@
}

/// The index of the first include directive of `nodes`, if any.
pub fn find_include(nodes: &Vec<Node>) -> (r: Option<usize>)
    ensures
        r matches Some(i) ==> i < nodes@.len() && is_include_start(nodes@[i as int]) && forall|k: int|
            0 <= k < i ==> !is_include_start(#[trigger] nodes@[k]),
        r is None ==> forall|k: int| 0 <= k < nodes@.len() ==> !is_include_start(#[trigger] nodes@[k]),
{
    let mut i: usize = 0;
    while i < nodes.len()
        invariant
            i <= nodes@.len(),
            forall|k: int| 0 <= k < i ==> !is_include_start(#[trigger] nodes@[k]),
        decreases nodes@.len() - i,
    {
        if let Node::Start { name, wrapper, .. } = &nodes[i] {
            if !*wrapper && name_is(name, "include") {
                return Some(i);
            }
        }
        i = i + 1;
    }
    None
}

/// The value of the first attribute named `file`, if any.
pub fn include_file(attrs: &Vec<Attribute>) -> (r: Option<String>)
    ensures
        r matches Some(f) ==> exists|k: int|
            0 <= k < attrs@.len() && attrs@[k].name@ == "file"@ && f@ == attrs@[k].value@
                && forall|m: int| 0 <= m < k ==> (#[trigger] attrs@[m]).name@ != "file"@,
        r is None ==> forall|m: int| 0 <= m < attrs@.len() ==> (#[trigger] attrs@[m]).name@ != "file"@,
{
    let mut i: usize = 0;
    while i < attrs.len()
        invariant
            i <= attrs@.len(),
            forall|m: int| 0 <= m < i ==> (#[trigger] attrs@[m]).name@ != "file"@,
        decreases attrs@.len() - i,
    {
        if name_is(&attrs[i].name, "file") {
            return Some(attrs[i].value.clone());
        }
        i = i + 1;
    }
    None
}

/// Replaces the include element that starts at `at`, through the first
/// include end tag after it, by `inner`.
pub fn splice_include(nodes: Vec<Node>, at: usize, inner: Vec<Node>) -> (r: Result<Vec<Node>, TemplateError>)
    requires
        at < nodes@.len(),
    ensures
        r is Err <==> forall|j: int| at < j < nodes@.len() ==> !is_include_end(#[trigger] nodes@[j]),
        r is Err ==> r->Err_0 == TemplateError::ParseError,
        r matches Ok(v) ==> exists|j: int|
            at < j < nodes@.len() && is_include_end(nodes@[j]) && (forall|k: int|
                at < k < j ==> !is_include_end(#[trigger] nodes@[k])) && v@ == nodes@.take(at as int)
                + inner@ + nodes@.skip(j + 1),
{
    let len = nodes.len();
    let mut j: usize = at + 1;
    while j < nodes.len()
        invariant
            at < j <= nodes@.len(),
            forall|k: int| at < k < j ==> !is_include_end(#[trigger] nodes@[k]),
        decreases nodes@.len() - j,
    {
        let is_end = match &nodes[j] {
            Node::End { name, wrapper } => !*wrapper && name_is(name, "include"),
            _ => false,
        };
        if is_end {
            let ghost whole = nodes@;
            let ghost inner0 = inner@;
            let mut head = nodes;
            let mut tail = head.split_off(j + 1);
            head.truncate(at);
            let mut inner = inner;
            head.append(&mut inner);
            head.append(&mut tail);
            proof {
                assert(head@ =~= whole.take(at as int) + inner0 + whole.skip(j + 1));
            }
            return Ok(head);
        }
        j = j + 1;
    }
    Err(TemplateError::ParseError)
}

/// Records that the include at `path` is being expanded, unless it already
/// is: then the includes form a cycle.
pub fn enter_include(visiting: &mut Vec<String>, path: String) -> (r: Result<(), TemplateError>)
    ensures
        ({
            let seen = old(visiting)@.map_values(|s: String| s@);
            &&& r is Err <==> seen.contains(path@)
            &&& r is Err ==> r->Err_0 == TemplateError::CyclicInclude && final(visiting)@ == old(visiting)@
            &&& r is Ok ==> final(visiting)@ == old(visiting)@.push(path)
        }),
{
    let ghost seen = visiting@.map_values(|s: String| s@);
    let mut i: usize = 0;
    while i < visiting.len()
        invariant
            i <= visiting@.len(),
            seen == visiting@.map_values(|s: String| s@),
            forall|k: int| 0 <= k < i ==> seen[k] != path@,
        decreases visiting@.len() - i,
    {
        if visiting[i] == path {
            proof {
                assert(seen[i as int] == path@);
            }
            return Err(TemplateError::CyclicInclude);
        }
        i = i + 1;
    }
    visiting.push(path);
    Ok(())
}

/// The attributes of a start tag; none for other nodes.
pub open spec fn attrs_of(n: Node) -> Seq<Attribute> {
    match n {
        Node::Start { attributes, .. } => attributes@,
        _ => Seq::empty(),
    }
}

/// Whether `f` is the value of the first attribute named `file` in `attrs`.
pub open spec fn first_file_is(attrs: Seq<Attribute>, f: Seq<char>) -> bool {
    exists|k: int|
        0 <= k < attrs.len() && attrs[k].name@ == "file"@ && f == attrs[k].value@ && forall|m: int|
            0 <= m < k ==> (#[trigger] attrs[m]).name@ != "file"@
}

/// One step of include expansion: `None` where no include directive is
/// left; else the first include directive and the file it names. An include
/// without a `file` attribute is a parse error.
pub fn expand_step(nodes: &Vec<Node>) -> (r: Result<Option<(usize, String)>, TemplateError>)
    ensures
        r == Ok::<Option<(usize, String)>, TemplateError>(None) <==> forall|k: int|
            0 <= k < nodes@.len() ==> !is_include_start(#[trigger] nodes@[k]),
        r matches Ok(Some((at, f))) ==> at < nodes@.len() && is_include_start(nodes@[at as int])
            && (forall|k: int| 0 <= k < at ==> !is_include_start(#[trigger] nodes@[k]))
            && first_file_is(attrs_of(nodes@[at as int]), f@),
        r is Err ==> r->Err_0 == TemplateError::ParseError && exists|at: int|
            0 <= at < nodes@.len() && is_include_start(nodes@[at]) && (forall|k: int|
                0 <= k < at ==> !is_include_start(#[trigger] nodes@[k])) && forall|m: int|
                0 <= m < attrs_of(nodes@[at]).len() ==> (#[trigger] attrs_of(nodes@[at])[m]).name@
                    != "file"@,
{
    match find_include(nodes) {
        None => Ok(None),
        Some(at) => {
            let file = match &nodes[at] {
                Node::Start { attributes, .. } => include_file(attributes),
                _ => None,
            };
            match file {
                Some(f) => Ok(Some((at, f))),
                None => {
                    proof {
                        assert(is_include_start(nodes@[at as int]));
                    }
                    Err(TemplateError::ParseError)
                },
            }
        },
    }
}

} // verus!
