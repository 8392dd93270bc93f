use vstd::prelude::*;
use std::collections::VecDeque;
use crate::model::{Attribute, ControlFlow, Directive, Input, Node, TemplateError, MARKER,
    directive_of, is_keyword, name_is, directive_kind, is_control_flow_keyword};
use crate::resolve::Template;

verus! {

/// What a stretch of interpretation did: the characters it emitted, the input
/// items it left, and the error that stopped it, if any.
pub struct Outcome {
    pub out: Seq<char>,
    pub rest: Seq<Input>,
    pub err: Option<TemplateError>,
}

/// The outcome of a stretch that emitted nothing and consumed nothing.
pub open spec fn quiet(input: Seq<Input>) -> Outcome {
    Outcome { out: Seq::empty(), rest: input, err: None }
}

/// `o` followed by emitting `s`.
pub open spec fn emit(o: Outcome, s: Seq<char>) -> Outcome {
    Outcome { out: o.out + s, rest: o.rest, err: o.err }
}

/// `o` followed by consuming one filler text and emitting it.
pub open spec fn take_text(o: Outcome) -> Outcome {
    if o.rest.len() == 0 {
        Outcome { out: o.out, rest: o.rest, err: Some(TemplateError::ExhaustedInput) }
    } else {
        match o.rest[0] {
            Input::FillerText { text } => Outcome {
                out: o.out + text@,
                rest: o.rest.drop_first(),
                err: None,
            },
            Input::ControlFlow { .. } => Outcome {
                out: o.out,
                rest: o.rest.drop_first(),
                err: Some(TemplateError::TypeMismatch),
            },
        }
    }
}

/// Emitting text `content`, each marker replaced by one filler text.
pub open spec fn fill_text(content: Seq<char>, input: Seq<Input>) -> Outcome
    decreases content.len(),
{
    if content.len() == 0 {
        quiet(input)
    } else {
        let r = fill_text(content.drop_last(), input);
        if r.err is Some {
            r
        } else if content.last() == MARKER {
            take_text(r)
        } else {
            emit(r, seq![content.last()])
        }
    }
}

/// A text escaped for use inside a quoted attribute value.
pub uninterp spec fn attribute_escaped(s: Seq<char>) -> Seq<char>;

/// Relies on `xml::escape::escape_str_attribute`: the value with the markup
/// characters, quotes and line breaks written as entities.
#[verifier::external_body]
fn escape_attribute(s: &str) -> (r: String)
    ensures
        r@ == attribute_escaped(s@),
{
    xml::escape::escape_str_attribute(s).into_owned()
}

/// Emitting ` name="value"` for each attribute, the value escaped, each placeholder value
/// replaced by one filler text.
pub open spec fn fill_attrs(attrs: Seq<Attribute>, input: Seq<Input>) -> Outcome
    decreases attrs.len(),
{
    if attrs.len() == 0 {
        quiet(input)
    } else {
        let r = fill_attrs(attrs.drop_last(), input);
        let a = attrs.last();
        if r.err is Some {
            r
        } else {
            let pre = emit(r, " "@ + a.name@ + "=\""@);
            let v = if a.value@ == "@"@ {
                take_text(pre)
            } else {
                emit(pre, attribute_escaped(a.value@))
            };
            if v.err is Some {
                v
            } else {
                emit(v, "\""@)
            }
        }
    }
}

/// Emitting a literal start tag.
pub open spec fn open_tag(name: Seq<char>, attrs: Seq<Attribute>, input: Seq<Input>) -> Outcome {
    let r = fill_attrs(attrs, input);
    let o = Outcome { out: "<"@ + name + r.out, rest: r.rest, err: r.err };
    if o.err is Some {
        o
    } else {
        emit(o, ">"@)
    }
}

/// Emitting a start tag: nothing for the wrapper or a reserved name, else
/// the literal tag.
pub open spec fn start_tag(name: Seq<char>, attrs: Seq<Attribute>, wrapper: bool, input: Seq<Input>) -> Outcome {
    if wrapper || is_keyword(name) {
        quiet(input)
    } else {
        open_tag(name, attrs, input)
    }
}

/// Emitting an end tag: nothing for the wrapper or a reserved name, else
/// the literal tag.
pub open spec fn end_tag(name: Seq<char>, wrapper: bool) -> Seq<char> {
    if wrapper || is_keyword(name) {
        Seq::empty()
    } else {
        "</"@ + name + ">"@
    }
}

/// Consuming one control decision: go to `on_go` if it proceeds, else to `on_stop`.
pub open spec fn control_step(input: Seq<Input>, on_stop: int, on_go: int) -> (Outcome, int) {
    if input.len() == 0 {
        (Outcome { out: Seq::empty(), rest: input, err: Some(TemplateError::ExhaustedInput) }, on_stop)
    } else {
        match input[0] {
            Input::FillerText { .. } => (
                Outcome {
                    out: Seq::empty(),
                    rest: input.drop_first(),
                    err: Some(TemplateError::TypeMismatch),
                },
                on_stop,
            ),
            Input::ControlFlow { control } => (
                quiet(input.drop_first()),
                if control.proceeds() { on_go } else { on_stop },
            ),
        }
    }
}

/// One instruction at `ip`: what it does and where the pointer goes next.
pub open spec fn step(nodes: Seq<Node>, jumps: Seq<Option<usize>>, ip: int, input: Seq<Input>) -> (
    Outcome,
    int,
) {
    match nodes[ip] {
        Node::Start { name, attributes, wrapper } => if wrapper {
            (quiet(input), ip + 1)
        } else if directive_of(name@) is Some {
            control_step(input, jumps[ip]->0 as int, ip + 1)
        } else {
            (start_tag(name@, attributes@, wrapper, input), ip + 1)
        },
        Node::End { name, wrapper } => if wrapper {
            (quiet(input), ip + 1)
        } else if directive_of(name@) == Some(Directive::Loop) {
            control_step(input, ip + 1, jumps[ip]->0 + 1)
        } else {
            (Outcome { out: end_tag(name@, wrapper), rest: input, err: None }, ip + 1)
        },
        Node::Text { content } => (fill_text(content@, input), ip + 1),
    }
}

/// Interpretation from `ip` to the end of the node list or the first error.
pub open spec fn run(nodes: Seq<Node>, jumps: Seq<Option<usize>>, ip: int, input: Seq<Input>) -> Outcome
    decreases input.len(), nodes.len() - ip,
    via run_decreases
{
    if ip < 0 || ip >= nodes.len() {
        if input.len() == 0 {
            quiet(input)
        } else {
            Outcome { out: Seq::empty(), rest: input, err: Some(TemplateError::TrailingInput) }
        }
    } else {
        let (o, next) = step(nodes, jumps, ip, input);
        if o.err is Some {
            o
        } else {
            let r = run(nodes, jumps, next, o.rest);
            Outcome { out: o.out + r.out, rest: r.rest, err: r.err }
        }
    }
}

pub proof fn lemma_fill_text_len(content: Seq<char>, input: Seq<Input>)
    ensures
        fill_text(content, input).rest.len() <= input.len(),
    decreases content.len(),
{
    if content.len() > 0 {
        lemma_fill_text_len(content.drop_last(), input);
    }
}

pub proof fn lemma_fill_attrs_len(attrs: Seq<Attribute>, input: Seq<Input>)
    ensures
        fill_attrs(attrs, input).rest.len() <= input.len(),
    decreases attrs.len(),
{
    if attrs.len() > 0 {
        lemma_fill_attrs_len(attrs.drop_last(), input);
    }
}

#[via_fn]
proof fn run_decreases(nodes: Seq<Node>, jumps: Seq<Option<usize>>, ip: int, input: Seq<Input>) {
    if !(ip < 0 || ip >= nodes.len()) {
        match nodes[ip] {
            Node::Start { attributes, .. } => lemma_fill_attrs_len(attributes@, input),
            Node::Text { content } => lemma_fill_text_len(content@, input),
            _ => {},
        }
    }
}

/// Whether an exec result, with the output before and after and the input
/// left, is what `o` describes.
pub open spec fn agrees(
    o: Outcome,
    out_before: Seq<char>,
    out_after: Seq<char>,
    rest: Seq<Input>,
    r: Result<(), TemplateError>,
) -> bool {
    &&& out_after == out_before + o.out
    &&& rest == o.rest
    &&& (r is Ok <==> o.err is None)
    &&& (r matches Err(e) ==> o.err == Some(e))
}

/// Pops one filler text off the front of the channel.
pub fn pop_text(input: &mut VecDeque<Input>) -> (r: Result<String, TemplateError>)
    ensures
        old(input)@.len() == 0 ==> r == Err::<String, _>(TemplateError::ExhaustedInput)
            && final(input)@ == old(input)@,
        old(input)@.len() > 0 ==> final(input)@ == old(input)@.drop_first() && match old(input)@[0] {
            Input::FillerText { text } => r == Ok::<String, TemplateError>(text),
            Input::ControlFlow { .. } => r == Err::<String, _>(TemplateError::TypeMismatch),
        },
{
    match input.pop_front() {
        None => Err(TemplateError::ExhaustedInput),
        Some(Input::FillerText { text }) => Ok(text),
        Some(Input::ControlFlow { .. }) => Err(TemplateError::TypeMismatch),
    }
}

/// Pops one control decision off the front of the channel.
pub fn read_input_jump_instruction(input: &mut VecDeque<Input>) -> (r: Result<ControlFlow, TemplateError>)
    ensures
        old(input)@.len() == 0 ==> r == Err::<ControlFlow, _>(TemplateError::ExhaustedInput)
            && final(input)@ == old(input)@,
        old(input)@.len() > 0 ==> final(input)@ == old(input)@.drop_first() && match old(input)@[0] {
            Input::FillerText { .. } => r == Err::<ControlFlow, _>(TemplateError::TypeMismatch),
            Input::ControlFlow { control } => r == Ok::<ControlFlow, TemplateError>(control),
        },
{
    match input.pop_front() {
        None => Err(TemplateError::ExhaustedInput),
        Some(Input::FillerText { .. }) => Err(TemplateError::TypeMismatch),
        Some(Input::ControlFlow { control }) => Ok(control),
    }
}


/// Emits text `content`, replacing each marker by one filler text.
pub fn print_character_data_node(content: &String, input: &mut VecDeque<Input>, out: &mut String) -> (r: Result<(), TemplateError>)
    ensures
        agrees(fill_text(content@, old(input)@), old(out)@, final(out)@, final(input)@, r),
{
    let ghost in0 = input@;
    let ghost out0 = out@;
    let text = content.as_str();
    let len = text.unicode_len();
    let mut i: usize = 0;
    proof {
        assert(content@.take(0) =~= Seq::<char>::empty());
    }
    while i < len
        invariant
            text@ == content@,
            in0 == old(input)@,
            out0 == old(out)@,
            len == content@.len(),
            i <= len,
            ({
                let o = fill_text(content@.take(i as int), in0);
                o.err is None && out@ == out0 + o.out && input@ == o.rest
            }),
        decreases len - i,
    {
        let c = text.get_char(i);
        let ghost prev = fill_text(content@.take(i as int), in0);
        proof {
            assert(content@.take(i + 1).drop_last() =~= content@.take(i as int));
            assert(content@.take(i + 1).last() == c);
        }
        if c == MARKER {
            match pop_text(input) {
                Ok(t) => {
                    out.append(t.as_str());
                    proof {
                        assert(out@ =~= out0 + fill_text(content@.take(i + 1), in0).out);
                    }
                },
                Err(e) => {
                    proof {
                        let o = fill_text(content@.take(i + 1), in0);
                        assert(o == take_text(prev));
                        assert(out@ =~= out0 + o.out);
                        lemma_fill_text_stops(content@, in0, i as int + 1);
                        assert(input@ == o.rest);
                        assert(o.err == Some(e));
                    }
                    return Err(e);
                },
            }
        } else {
            let one = text.substring_char(i, i + 1);
            out.append(one);
            proof {
                assert(one@ =~= seq![c]);
                assert(out@ =~= out0 + fill_text(content@.take(i + 1), in0).out);
            }
        }
        i = i + 1;
    }
    proof {
        assert(content@.take(len as int) =~= content@);
    }
    Ok(())
}

/// Once an error stops filling a prefix of `content`, filling the whole of
/// it stops there too.
proof fn lemma_fill_text_stops(content: Seq<char>, input: Seq<Input>, i: int)
    requires
        0 <= i <= content.len(),
        fill_text(content.take(i), input).err is Some,
    ensures
        fill_text(content, input) == fill_text(content.take(i), input),
    decreases content.len() - i,
{
    if i < content.len() {
        assert(content.take(i + 1).drop_last() =~= content.take(i));
        lemma_fill_text_stops(content, input, i + 1);
    } else {
        assert(content.take(i) =~= content);
    }
}

/// Once an error stops the attributes of a prefix, it stops all of them there.
proof fn lemma_fill_attrs_stops(attrs: Seq<Attribute>, input: Seq<Input>, i: int)
    requires
        0 <= i <= attrs.len(),
        fill_attrs(attrs.take(i), input).err is Some,
    ensures
        fill_attrs(attrs, input) == fill_attrs(attrs.take(i), input),
    decreases attrs.len() - i,
{
    if i < attrs.len() {
        assert(attrs.take(i + 1).drop_last() =~= attrs.take(i));
        lemma_fill_attrs_stops(attrs, input, i + 1);
    } else {
        assert(attrs.take(i) =~= attrs);
    }
}

/// Emits ` name="value"` for each attribute, the value escaped, each placeholder value replaced
/// by one filler text.
fn print_attributes(attrs: &Vec<Attribute>, input: &mut VecDeque<Input>, out: &mut String) -> (r: Result<(), TemplateError>)
    ensures
        agrees(fill_attrs(attrs@, old(input)@), old(out)@, final(out)@, final(input)@, r),
{
    let ghost in0 = input@;
    let ghost out0 = out@;
    let mut i: usize = 0;
    proof {
        assert(attrs@.take(0) =~= Seq::<Attribute>::empty());
    }
    while i < attrs.len()
        invariant
            i <= attrs@.len(),
            in0 == old(input)@,
            out0 == old(out)@,
            ({
                let o = fill_attrs(attrs@.take(i as int), in0);
                o.err is None && out@ == out0 + o.out && input@ == o.rest
            }),
        decreases attrs@.len() - i,
    {
        let a = &attrs[i];
        let ghost prev = fill_attrs(attrs@.take(i as int), in0);
        proof {
            assert(attrs@.take(i + 1).drop_last() =~= attrs@.take(i as int));
            assert(attrs@.take(i + 1).last() == *a);
        }
        out.append(" ");
        out.append(a.name.as_str());
        out.append("=\"");
        let ghost pre = emit(prev, " "@ + a.name@ + "=\""@);
        proof {
            assert(out@ =~= out0 + pre.out);
        }
        if name_is(&a.value, "@") {
            match pop_text(input) {
                Ok(t) => {
                    out.append(t.as_str());
                },
                Err(e) => {
                    proof {
                        let o = fill_attrs(attrs@.take(i + 1), in0);
                        assert(o == take_text(pre));
                        assert(out@ =~= out0 + o.out);
                        lemma_fill_attrs_stops(attrs@, in0, i as int + 1);
                    }
                    return Err(e);
                },
            }
        } else {
            let v = escape_attribute(a.value.as_str());
            out.append(v.as_str());
        }
        out.append("\"");
        proof {
            assert(out@ =~= out0 + fill_attrs(attrs@.take(i + 1), in0).out);
        }
        i = i + 1;
    }
    proof {
        assert(attrs@.take(attrs@.len() as int) =~= attrs@);
    }
    Ok(())
}

/// Emits a start tag; the wrapper's and those with a reserved name emit
/// nothing and consume nothing.
pub fn print_start_node(name: &String, attrs: &Vec<Attribute>, wrapper: bool, input: &mut VecDeque<Input>, out: &mut String) -> (r: Result<(), TemplateError>)
    ensures
        agrees(start_tag(name@, attrs@, wrapper, old(input)@), old(out)@, final(out)@, final(input)@, r),
        (wrapper || is_keyword(name@)) ==> final(out)@ == old(out)@ && final(input)@ == old(input)@
            && r is Ok,
{
    let ghost out0 = out@;
    if wrapper || is_control_flow_keyword(name) {
        proof { assert(out@ =~= out0 + Seq::<char>::empty()); }
        return Ok(());
    }
    out.append("<");
    out.append(name.as_str());
    let r = print_attributes(attrs, input, out);
    if r.is_err() {
        proof {
            assert(out@ =~= out0 + open_tag(name@, attrs@, old(input)@).out);
        }
        return r;
    }
    out.append(">");
    proof {
        assert(out@ =~= out0 + open_tag(name@, attrs@, old(input)@).out);
    }
    Ok(())
}

/// Emits an end tag; the wrapper's and those with a reserved name emit
/// nothing.
pub fn print_end_node(name: &String, wrapper: bool, out: &mut String)
    ensures
        final(out)@ == old(out)@ + end_tag(name@, wrapper),
        (wrapper || is_keyword(name@)) ==> final(out)@ == old(out)@,
{
    let ghost out0 = out@;
    if wrapper || is_control_flow_keyword(name) {
        proof { assert(out@ =~= out0 + Seq::<char>::empty()); }
        return;
    }
    out.append("</");
    out.append(name.as_str());
    out.append(">");
    proof {
        assert(out@ =~= out0 + end_tag(name@, wrapper));
    }
}

/// Consumes one control decision and picks `on_go` or `on_stop` by it.
fn decide(input: &mut VecDeque<Input>, on_stop: usize, on_go: usize) -> (r: Result<usize, TemplateError>)
    ensures
        ({
            let (o, next) = control_step(old(input)@, on_stop as int, on_go as int);
            &&& final(input)@ == o.rest
            &&& o.out == Seq::<char>::empty()
            &&& (r is Ok <==> o.err is None)
            &&& (r matches Ok(k) ==> k == next)
            &&& (r matches Err(e) ==> o.err == Some(e))
        }),
{
    let c = read_input_jump_instruction(input)?;
    if c.proceeds() {
        Ok(on_go)
    } else {
        Ok(on_stop)
    }
}

/// Interprets the node at `ip`: emits its output, consumes its input, and
/// returns where the instruction pointer goes next.
pub fn interpret_template_node(t: &Template, ip: usize, input: &mut VecDeque<Input>, out: &mut String) -> (r: Result<usize, TemplateError>)
    requires
        t.wf(),
        ip < t.nodes@.len(),
    ensures
        ({
            let (o, next) = step(t.nodes@, t.jumps@, ip as int, old(input)@);
            &&& final(out)@ == old(out)@ + o.out
            &&& final(input)@ == o.rest
            &&& (r is Ok <==> o.err is None)
            &&& (r matches Ok(k) ==> k == next && k <= t.nodes@.len())
            &&& (r matches Err(e) ==> o.err == Some(e))
        }),
{
    let ghost out0 = out@;
    let _n = t.nodes.len();
    let node = &t.nodes[ip];
    assert(*node == t.nodes@[ip as int]);
    match node {
        Node::Start { name, attributes, wrapper } => {
            if *wrapper {
                proof { assert(out@ =~= out0 + Seq::<char>::empty()); }
                return Ok(ip + 1);
            }
            if let Some(_) = directive_kind(name) {
                proof { assert(crate::model::opens(t.nodes@[ip as int]) is Some); }
                let target = t.jumps[ip].unwrap();
                let k = decide(input, target, ip + 1);
                proof { assert(out@ =~= out0 + Seq::<char>::empty()); }
                return k;
            }
            print_start_node(name, attributes, *wrapper, input, out)?;
            Ok(ip + 1)
        },
        Node::End { name, wrapper } => {
            if *wrapper {
                proof { assert(out@ =~= out0 + Seq::<char>::empty()); }
                return Ok(ip + 1);
            }
            if directive_kind(name) == Some(Directive::Loop) {
                proof { assert(crate::resolve::is_loop_end(t.nodes@[ip as int])); }
                let back = t.jumps[ip].unwrap();
                let k = decide(input, ip + 1, back + 1);
                proof { assert(out@ =~= out0 + Seq::<char>::empty()); }
                return k;
            }
            print_end_node(name, *wrapper, out);
            Ok(ip + 1)
        },
        Node::Text { content } => {
            print_character_data_node(content, input, out)?;
            Ok(ip + 1)
        },
    }
}

/// Interprets the whole template in lockstep with the input channel.
pub fn render(t: &Template, input: &mut VecDeque<Input>, out: &mut String) -> (r: Result<(), TemplateError>)
    requires
        t.wf(),
    ensures
        agrees(run(t.nodes@, t.jumps@, 0, old(input)@), old(out)@, final(out)@, final(input)@, r),
{
    let ghost nodes = t.nodes@;
    let ghost jumps = t.jumps@;
    let ghost whole = run(nodes, jumps, 0, input@);
    let ghost out0 = out@;
    let n = t.nodes.len();
    let mut ip: usize = 0;
    while ip < n
        invariant
            t.wf(),
            n == nodes.len(),
            nodes == t.nodes@,
            jumps == t.jumps@,
            whole == run(nodes, jumps, 0, old(input)@),
            out0 == old(out)@,
            ip <= n,
            ({
                let now = run(nodes, jumps, ip as int, input@);
                &&& out0 + whole.out == out@ + now.out
                &&& whole.rest == now.rest
                &&& whole.err == now.err
            }),
        decreases input@.len(), n - ip,
    {
        let ghost before = input@;
        let ghost (o, next) = step(nodes, jumps, ip as int, before);
        proof {
            lemma_step_consumes(nodes, jumps, ip as int, before);
        }
        match interpret_template_node(t, ip, input, out) {
            Ok(k) => {
                proof {
                    let now = run(nodes, jumps, ip as int, before);
                    let later = run(nodes, jumps, k as int, input@);
                    assert(now.out == o.out + later.out);
                    assert(out0 + whole.out =~= out@ + later.out);
                }
                ip = k;
            },
            Err(e) => {
                proof {
                    assert(out0 + whole.out =~= out@);
                }
                return Err(e);
            },
        }
    }
    if input.len() > 0 {
        proof { assert(out0 + whole.out =~= out@); }
        return Err(TemplateError::TrailingInput);
    }
    proof { assert(out0 + whole.out =~= out@); }
    Ok(())
}

/// A step that does not fail either consumes input or moves one node on.
pub proof fn lemma_step_consumes(nodes: Seq<Node>, jumps: Seq<Option<usize>>, ip: int, input: Seq<Input>)
    requires
        0 <= ip < nodes.len(),
    ensures
        ({
            let (o, next) = step(nodes, jumps, ip, input);
            o.err is None ==> (o.rest.len() < input.len() || (o.rest.len() == input.len()
                && next == ip + 1))
        }),
{
    match nodes[ip] {
        Node::Start { attributes, .. } => lemma_fill_attrs_len(attributes@, input),
        Node::Text { content } => lemma_fill_text_len(content@, input),
        _ => {},
    }
}

} // verus!
