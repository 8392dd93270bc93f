use vstd::prelude::*;
use crate::model::{Attribute, ControlFlow, Directive, Input, Node, TemplateError, MARKER,
    is_keyword, opens, closes};
use crate::resolve::{balanced, closed_at, is_loop_end, partner, resolved};
use crate::interp::{attribute_escaped, Outcome, control_step, fill_attrs, fill_text, quiet, run, step, take_text,
    lemma_step_consumes};

verus! {

/// Whether a node holds no directive and no placeholder.
pub open spec fn is_plain(n: Node) -> bool {
    match n {
        Node::Start { name, attributes, wrapper } => wrapper || (!is_keyword(name@) && forall|k: int|
            0 <= k < attributes@.len() ==> (#[trigger] attributes@[k]).value@ != "@"@),
        Node::End { name, wrapper } => wrapper || !is_keyword(name@),
        Node::Text { content } => !content.view().contains(MARKER),
    }
}

/// The markup of a list of attributes, rebuilt from their values: each
/// value escaped as an attribute value.
pub open spec fn attrs_markup(attrs: Seq<Attribute>) -> Seq<char>
    decreases attrs.len(),
{
    if attrs.len() == 0 {
        Seq::empty()
    } else {
        let a = attrs.last();
        attrs_markup(attrs.drop_last()) + " "@ + a.name@ + "=\""@ + attribute_escaped(a.value@) + "\""@
    }
}

/// The markup of a node, rebuilt from its values; nothing for the
/// wrapper's tags. Text is written as it was parsed, entities resolved.
pub open spec fn markup(n: Node) -> Seq<char> {
    match n {
        Node::Start { name, attributes, wrapper } => if wrapper {
            Seq::empty()
        } else {
            "<"@ + name@ + attrs_markup(attributes@) + ">"@
        },
        Node::End { name, wrapper } => if wrapper {
            Seq::empty()
        } else {
            "</"@ + name@ + ">"@
        },
        Node::Text { content } => content@,
    }
}

/// The markup of the nodes from `i` on, rebuilt from their values.
pub open spec fn source_markup(nodes: Seq<Node>, i: int) -> Seq<char>
    decreases nodes.len() - i,
{
    if i < 0 || i >= nodes.len() {
        Seq::empty()
    } else {
        markup(nodes[i]) + source_markup(nodes, i + 1)
    }
}

proof fn lemma_plain_text(content: Seq<char>, input: Seq<Input>)
    requires
        !content.contains(MARKER),
    ensures
        fill_text(content, input) == (Outcome { out: content, rest: input, err: None }),
    decreases content.len(),
{
    if content.len() == 0 {
        assert(content =~= Seq::<char>::empty());
    } else {
        let init = content.drop_last();
        assert forall|k: int| 0 <= k < init.len() implies init[k] != MARKER by {
            assert(content[k] == init[k]);
        }
        assert(!init.contains(MARKER));
        lemma_plain_text(init, input);
        assert(content.last() != MARKER) by {
            assert(content[content.len() - 1] == content.last());
        }
        assert(init + seq![content.last()] =~= content);
    }
}

proof fn lemma_plain_attrs(attrs: Seq<Attribute>, input: Seq<Input>)
    requires
        forall|k: int| 0 <= k < attrs.len() ==> (#[trigger] attrs[k]).value@ != "@"@,
    ensures
        fill_attrs(attrs, input) == (Outcome { out: attrs_markup(attrs), rest: input, err: None }),
    decreases attrs.len(),
{
    if attrs.len() == 0 {
        assert(Seq::<char>::empty() =~= attrs_markup(attrs));
    } else {
        let init = attrs.drop_last();
        assert forall|k: int| 0 <= k < init.len() implies (#[trigger] init[k]).value@ != "@"@ by {
            assert(attrs[k] == init[k]);
        }
        lemma_plain_attrs(init, input);
        assert(attrs[attrs.len() - 1] == attrs.last());
        let a = attrs.last();
        assert(attrs_markup(init) + (" "@ + a.name@ + "=\""@) + attribute_escaped(a.value@) + "\""@ =~= attrs_markup(
            attrs,
        ));
    }
}

proof fn lemma_plain_from(nodes: Seq<Node>, jumps: Seq<Option<usize>>, ip: int, input: Seq<Input>)
    requires
        0 <= ip <= nodes.len(),
        forall|i: int| 0 <= i < nodes.len() ==> is_plain(#[trigger] nodes[i]),
    ensures
        run(nodes, jumps, ip, input).out == source_markup(nodes, ip),
        run(nodes, jumps, ip, input).err == (if input.len() == 0 {
            None
        } else {
            Some(TemplateError::TrailingInput)
        }),
    decreases nodes.len() - ip,
{
    if ip < nodes.len() {
        assert(is_plain(nodes[ip]));
        lemma_plain_from(nodes, jumps, ip + 1, input);
        match nodes[ip] {
            Node::Start { name, attributes, wrapper } => {
                if !wrapper {
                    lemma_plain_attrs(attributes@, input);
                    assert("<"@ + name@ + attrs_markup(attributes@) + ">"@ =~= "<"@ + name@
                        + fill_attrs(attributes@, input).out + ">"@);
                }
            },
            Node::Text { content } => lemma_plain_text(content@, input),
            _ => {},
        }
        let (o, next) = step(nodes, jumps, ip, input);
        assert(o.out == markup(nodes[ip]));
        assert(o.rest == input);
    } else {
        assert(source_markup(nodes, ip) =~= Seq::<char>::empty());
    }
}

/// A template without directives or placeholders renders as the markup
/// rebuilt from its nodes, without the wrapper's tags, whatever the input
/// (which is its source where the text holds no entity); it succeeds
/// exactly when the input is empty, and else ends in trailing input.
pub proof fn plain_template_renders_as_source(
    nodes: Seq<Node>,
    jumps: Seq<Option<usize>>,
    input: Seq<Input>,
)
    requires
        forall|i: int| 0 <= i < nodes.len() ==> is_plain(#[trigger] nodes[i]),
    ensures
        run(nodes, jumps, 0, input).out == source_markup(nodes, 0),
        run(nodes, jumps, 0, input).err == (if input.len() == 0 {
            None
        } else {
            Some(TemplateError::TrailingInput)
        }),
{
    lemma_plain_from(nodes, jumps, 0, input);
}

/// At a directive start of a resolved template, a decision not to go in
/// consumes that one decision, emits nothing, and moves to the node just
/// after the end tag that closes this directive, so no node in between runs.
#[verifier::rlimit(100)]
pub proof fn declining_skips_to_matching_end(
    nodes: Seq<Node>,
    jumps: Seq<Option<usize>>,
    i: int,
    c: ControlFlow,
    more: Seq<Input>,
)
    requires
        resolved(nodes, jumps),
        0 <= i < nodes.len(),
        opens(nodes[i]) is Some,
        !c.spec_proceeds(),
    ensures
        ({
            let input = seq![Input::ControlFlow { control: c }] + more;
            let j = jumps[i]->0 - 1;
            &&& i < j < nodes.len()
            &&& closed_at(nodes, i, j)
            &&& closes(nodes[j]) == opens(nodes[i])
            &&& step(nodes, jumps, i, input) == (quiet(more), j + 1)
        }),
{
    let input = seq![Input::ControlFlow { control: c }] + more;
    assert(input.drop_first() =~= more);
    assert(opens(nodes[i]) is Some);
    assert(jumps[i] is Some && closed_at(nodes, i, jumps[i]->0 - 1));
}

/// At a directive start, a decision to go in consumes it, emits nothing and
/// moves to the first node of the body.
pub proof fn entering_goes_into_body(
    nodes: Seq<Node>,
    jumps: Seq<Option<usize>>,
    i: int,
    c: ControlFlow,
    more: Seq<Input>,
)
    requires
        0 <= i < nodes.len(),
        opens(nodes[i]) is Some,
        c.spec_proceeds(),
    ensures
        step(nodes, jumps, i, seq![Input::ControlFlow { control: c }] + more) == (quiet(more), i + 1),
{
    assert((seq![Input::ControlFlow { control: c }] + more).drop_first() =~= more);
}

/// At the end tag of a loop, a decision to repeat consumes it, emits nothing
/// and moves back to the first node of the loop body; a decision to stop
/// moves on past the loop.
#[verifier::rlimit(100)]
pub proof fn loop_end_repeats_or_leaves(
    nodes: Seq<Node>,
    jumps: Seq<Option<usize>>,
    j: int,
    c: ControlFlow,
    more: Seq<Input>,
)
    requires
        resolved(nodes, jumps),
        balanced(nodes),
        0 <= j < nodes.len(),
        is_loop_end(nodes[j]),
    ensures
        ({
            let input = seq![Input::ControlFlow { control: c }] + more;
            let i = partner(nodes, j);
            &&& 0 <= i < j
            &&& opens(nodes[i]) == Some(Directive::Loop)
            &&& closed_at(nodes, i, j)
            &&& step(nodes, jumps, j, input) == (quiet(more), if c.spec_proceeds() {
                i + 1
            } else {
                j + 1
            })
        }),
{
    let input = seq![Input::ControlFlow { control: c }] + more;
    assert(input.drop_first() =~= more);
    assert(closes(nodes[j]) is Some);
    crate::resolve::lemma_balanced_prefix(nodes, j + 1);
    crate::resolve::lemma_open_after_bounds(nodes, j);
    let i = partner(nodes, j);
    assert(opens(nodes[i]) is Some);
    assert(jumps[i] == Some((j + 1) as usize));
}

proof fn lemma_text_no_trailing(content: Seq<char>, input: Seq<Input>)
    ensures
        fill_text(content, input).err != Some(TemplateError::TrailingInput),
    decreases content.len(),
{
    if content.len() > 0 {
        lemma_text_no_trailing(content.drop_last(), input);
    }
}

proof fn lemma_attrs_no_trailing(attrs: Seq<Attribute>, input: Seq<Input>)
    ensures
        fill_attrs(attrs, input).err != Some(TemplateError::TrailingInput),
    decreases attrs.len(),
{
    if attrs.len() > 0 {
        lemma_attrs_no_trailing(attrs.drop_last(), input);
    }
}

/// Trailing input is raised exactly when the instruction pointer has reached
/// the end of the node list with input left; no instruction raises it.
pub proof fn trailing_input_only_at_end(
    nodes: Seq<Node>,
    jumps: Seq<Option<usize>>,
    ip: int,
    input: Seq<Input>,
)
    ensures
        ip >= nodes.len() ==> (run(nodes, jumps, ip, input).err == Some(TemplateError::TrailingInput)
            <==> input.len() > 0),
        0 <= ip < nodes.len() ==> step(nodes, jumps, ip, input).0.err != Some(
            TemplateError::TrailingInput,
        ),
{
    if 0 <= ip < nodes.len() {
        match nodes[ip] {
            Node::Start { attributes, .. } => lemma_attrs_no_trailing(attributes@, input),
            Node::Text { content } => lemma_text_no_trailing(content@, input),
            _ => {},
        }
    }
}

/// A point that expects filler text fails with a type mismatch exactly when
/// the next item is a control decision.
pub proof fn text_point_mismatch_iff_control(o: Outcome)
    requires
        o.err is None,
    ensures
        take_text(o).err == Some(TemplateError::TypeMismatch) <==> (o.rest.len() > 0
            && o.rest[0] is ControlFlow),
{
}

/// A point that expects a control decision fails with a type mismatch
/// exactly when the next item is filler text.
pub proof fn control_point_mismatch_iff_text(input: Seq<Input>, on_stop: int, on_go: int)
    ensures
        control_step(input, on_stop, on_go).0.err == Some(TemplateError::TypeMismatch) <==> (
        input.len() > 0 && input[0] is FillerText),
{
}

/// The number of filler texts in an input sequence.
pub open spec fn fillers(s: Seq<Input>) -> nat
    decreases s.len(),
{
    if s.len() == 0 {
        0
    } else {
        (if s[0] is FillerText { 1nat } else { 0nat }) + fillers(s.drop_first())
    }
}

/// The number of markers in a text.
pub open spec fn markers(c: Seq<char>) -> nat
    decreases c.len(),
{
    if c.len() == 0 {
        0
    } else {
        markers(c.drop_last()) + if c.last() == MARKER { 1nat } else { 0nat }
    }
}

/// The number of placeholder values in a list of attributes.
pub open spec fn attr_placeholders(attrs: Seq<Attribute>) -> nat
    decreases attrs.len(),
{
    if attrs.len() == 0 {
        0
    } else {
        attr_placeholders(attrs.drop_last()) + if attrs.last().value@ == "@"@ { 1nat } else { 0nat }
    }
}

/// The placeholder points of one node.
pub open spec fn placeholders(n: Node) -> nat {
    match n {
        Node::Start { name, attributes, wrapper } => if wrapper || is_keyword(name@) {
            0
        } else {
            attr_placeholders(attributes@)
        },
        Node::Text { content } => markers(content@),
        _ => 0,
    }
}

/// The placeholder points of the nodes that interpretation from `ip` reaches,
/// counted once per visit.
pub open spec fn placeholders_reached(
    nodes: Seq<Node>,
    jumps: Seq<Option<usize>>,
    ip: int,
    input: Seq<Input>,
) -> nat
    decreases input.len(), nodes.len() - ip,
    via placeholders_reached_decreases
{
    if ip < 0 || ip >= nodes.len() {
        0
    } else {
        let (o, next) = step(nodes, jumps, ip, input);
        if o.err is Some {
            placeholders(nodes[ip])
        } else {
            placeholders(nodes[ip]) + placeholders_reached(nodes, jumps, next, o.rest)
        }
    }
}

#[via_fn]
proof fn placeholders_reached_decreases(
    nodes: Seq<Node>,
    jumps: Seq<Option<usize>>,
    ip: int,
    input: Seq<Input>,
) {
    if !(ip < 0 || ip >= nodes.len()) {
        lemma_step_consumes(nodes, jumps, ip, input);
    }
}

proof fn lemma_fillers_take_text(o: Outcome)
    requires
        o.err is None,
        take_text(o).err is None,
    ensures
        fillers(o.rest) == 1 + fillers(take_text(o).rest),
{
}

proof fn lemma_text_fillers(content: Seq<char>, input: Seq<Input>)
    requires
        fill_text(content, input).err is None,
    ensures
        fillers(input) == markers(content) + fillers(fill_text(content, input).rest),
    decreases content.len(),
{
    if content.len() > 0 {
        lemma_text_fillers(content.drop_last(), input);
        let r = fill_text(content.drop_last(), input);
        if content.last() == MARKER {
            lemma_fillers_take_text(r);
        }
    }
}

proof fn lemma_attrs_fillers(attrs: Seq<Attribute>, input: Seq<Input>)
    requires
        fill_attrs(attrs, input).err is None,
    ensures
        fillers(input) == attr_placeholders(attrs) + fillers(fill_attrs(attrs, input).rest),
    decreases attrs.len(),
{
    if attrs.len() > 0 {
        lemma_attrs_fillers(attrs.drop_last(), input);
        let r = fill_attrs(attrs.drop_last(), input);
        let a = attrs.last();
        if a.value@ == "@"@ {
            lemma_fillers_take_text(crate::interp::emit(r, " "@ + a.name@ + "=\""@));
        }
    }
}

proof fn lemma_step_fillers(nodes: Seq<Node>, jumps: Seq<Option<usize>>, ip: int, input: Seq<Input>)
    requires
        0 <= ip < nodes.len(),
        step(nodes, jumps, ip, input).0.err is None,
    ensures
        fillers(input) == placeholders(nodes[ip]) + fillers(step(nodes, jumps, ip, input).0.rest),
{
    match nodes[ip] {
        Node::Start { attributes, .. } => {
            if fill_attrs(attributes@, input).err is None {
                lemma_attrs_fillers(attributes@, input);
            }
        },
        Node::Text { content } => lemma_text_fillers(content@, input),
        _ => {},
    }
}

/// In a run that ends without error, the filler texts consumed are exactly
/// the placeholder points reached: the input holds one filler text per
/// placeholder visit, and branches that were skipped count for nothing.
pub proof fn fillers_match_placeholders_reached(
    nodes: Seq<Node>,
    jumps: Seq<Option<usize>>,
    ip: int,
    input: Seq<Input>,
)
    requires
        run(nodes, jumps, ip, input).err is None,
    ensures
        fillers(input) == placeholders_reached(nodes, jumps, ip, input),
    decreases input.len(), nodes.len() - ip,
{
    if ip < 0 || ip >= nodes.len() {
    } else {
        lemma_step_consumes(nodes, jumps, ip, input);
        let (o, next) = step(nodes, jumps, ip, input);
        lemma_step_fillers(nodes, jumps, ip, input);
        fillers_match_placeholders_reached(nodes, jumps, next, o.rest);
    }
}

/// The markup of nodes `a` up to, not including, `b`, rebuilt from their values.
pub open spec fn markup_between(nodes: Seq<Node>, a: int, b: int) -> Seq<char>
    decreases b - a,
{
    if a >= b {
        Seq::empty()
    } else {
        markup(nodes[a]) + markup_between(nodes, a + 1, b)
    }
}

/// `s` written `n` times.
pub open spec fn repeated(s: Seq<char>, n: nat) -> Seq<char>
    decreases n,
{
    if n == 0 {
        Seq::empty()
    } else {
        s + repeated(s, (n - 1) as nat)
    }
}

/// `n` decisions to repeat, then one to stop, then `more`.
pub open spec fn repeats_then_stop(n: nat, more: Seq<Input>) -> Seq<Input> {
    Seq::new(n, |k: int| Input::ControlFlow { control: ControlFlow::Repeat }) + seq![
        Input::ControlFlow { control: ControlFlow::Stop },
    ] + more
}

proof fn lemma_plain_step(nodes: Seq<Node>, jumps: Seq<Option<usize>>, ip: int, input: Seq<Input>)
    requires
        0 <= ip < nodes.len(),
        is_plain(nodes[ip]),
    ensures
        step(nodes, jumps, ip, input) == (Outcome { out: markup(nodes[ip]), rest: input, err: None }, ip + 1),
{
    match nodes[ip] {
        Node::Start { name, attributes, wrapper } => {
            if !wrapper {
                lemma_plain_attrs(attributes@, input);
                assert("<"@ + name@ + attrs_markup(attributes@) + ">"@ =~= "<"@ + name@
                    + fill_attrs(attributes@, input).out + ">"@);
            }
        },
        Node::Text { content } => lemma_plain_text(content@, input),
        Node::End { .. } => {},
    }
}

proof fn lemma_plain_body(nodes: Seq<Node>, jumps: Seq<Option<usize>>, ip: int, j: int, input: Seq<Input>)
    requires
        0 <= ip <= j < nodes.len(),
        forall|k: int| ip <= k < j ==> is_plain(#[trigger] nodes[k]),
    ensures
        run(nodes, jumps, ip, input) == (Outcome {
            out: markup_between(nodes, ip, j) + run(nodes, jumps, j, input).out,
            rest: run(nodes, jumps, j, input).rest,
            err: run(nodes, jumps, j, input).err,
        }),
    decreases j - ip,
{
    if ip == j {
        assert(markup_between(nodes, ip, j) + run(nodes, jumps, j, input).out =~= run(
            nodes,
            jumps,
            j,
            input,
        ).out);
    } else {
        assert(is_plain(nodes[ip]));
        lemma_plain_step(nodes, jumps, ip, input);
        lemma_plain_body(nodes, jumps, ip + 1, j, input);
        assert(markup(nodes[ip]) + (markup_between(nodes, ip + 1, j) + run(nodes, jumps, j, input).out)
            =~= markup_between(nodes, ip, j) + run(nodes, jumps, j, input).out);
    }
}

proof fn lemma_run_quiet_step(nodes: Seq<Node>, jumps: Seq<Option<usize>>, ip: int, input: Seq<Input>)
    requires
        0 <= ip < nodes.len(),
        step(nodes, jumps, ip, input).0 == quiet(step(nodes, jumps, ip, input).0.rest),
    ensures
        run(nodes, jumps, ip, input) == run(
            nodes,
            jumps,
            step(nodes, jumps, ip, input).1,
            step(nodes, jumps, ip, input).0.rest,
        ),
{
    let (o, next) = step(nodes, jumps, ip, input);
    let r = run(nodes, jumps, next, o.rest);
    assert(o.out + r.out =~= r.out);
}

proof fn lemma_loop_from_end(
    nodes: Seq<Node>,
    jumps: Seq<Option<usize>>,
    i: int,
    j: int,
    m: nat,
    more: Seq<Input>,
)
    requires
        0 <= i < j < nodes.len() <= usize::MAX,
        is_loop_end(nodes[j]),
        jumps[j] == Some(i as usize),
        forall|k: int| i < k < j ==> is_plain(#[trigger] nodes[k]),
    ensures
        run(nodes, jumps, j, repeats_then_stop(m, more)) == (Outcome {
            out: repeated(markup_between(nodes, i + 1, j), m) + run(nodes, jumps, j + 1, more).out,
            rest: run(nodes, jumps, j + 1, more).rest,
            err: run(nodes, jumps, j + 1, more).err,
        }),
    decreases m,
{
    let input = repeats_then_stop(m, more);
    let body = markup_between(nodes, i + 1, j);
    let after = run(nodes, jumps, j + 1, more);
    assert(closes(nodes[j]) == Some(Directive::Loop));
    if m == 0 {
        assert(input.drop_first() =~= more);
        assert(input[0] == Input::ControlFlow { control: ControlFlow::Stop });
        assert(step(nodes, jumps, j, input) == (quiet(more), j + 1));
        lemma_run_quiet_step(nodes, jumps, j, input);
        assert(repeated(body, m) + after.out =~= after.out);
    } else {
        let m1 = (m - 1) as nat;
        let input1 = repeats_then_stop(m1, more);
        assert(input.drop_first() =~= input1);
        assert(input[0] == Input::ControlFlow { control: ControlFlow::Repeat });
        assert(step(nodes, jumps, j, input) == (quiet(input1), i + 1));
        lemma_run_quiet_step(nodes, jumps, j, input);
        lemma_plain_body(nodes, jumps, i + 1, j, input1);
        lemma_loop_from_end(nodes, jumps, i, j, m1, more);
        assert(body + (repeated(body, m1) + after.out) =~= repeated(body, m) + after.out);
    }
}

/// A loop whose body holds no directive and no placeholder, run from its
/// start tag on `n` decisions to repeat and then one to stop, emits its
/// body's markup exactly `n` times and goes on after its end tag with the
/// rest of the input; with `n` zero the body does not run at all.
#[verifier::rlimit(100)]
pub proof fn loop_runs_body_once_per_repeat(
    nodes: Seq<Node>,
    jumps: Seq<Option<usize>>,
    i: int,
    j: int,
    n: nat,
    more: Seq<Input>,
)
    requires
        resolved(nodes, jumps),
        0 <= i < j < nodes.len() <= usize::MAX,
        closed_at(nodes, i, j),
        opens(nodes[i]) == Some(Directive::Loop),
        forall|k: int| i < k < j ==> is_plain(#[trigger] nodes[k]),
    ensures
        run(nodes, jumps, i, repeats_then_stop(n, more)) == (Outcome {
            out: repeated(markup_between(nodes, i + 1, j), n) + run(nodes, jumps, j + 1, more).out,
            rest: run(nodes, jumps, j + 1, more).rest,
            err: run(nodes, jumps, j + 1, more).err,
        }),
{
    let input = repeats_then_stop(n, more);
    let body = markup_between(nodes, i + 1, j);
    let after = run(nodes, jumps, j + 1, more);
    assert(closes(nodes[j]) is Some);
    assert(is_loop_end(nodes[j]));
    assert(jumps[j] == Some(i as usize));
    assert(jumps[i] == Some((j + 1) as usize));
    assert(opens(nodes[i]) is Some);
    if n == 0 {
        assert(input.drop_first() =~= more);
        assert(input[0] == Input::ControlFlow { control: ControlFlow::Stop });
        assert(step(nodes, jumps, i, input) == (quiet(more), j + 1));
        lemma_run_quiet_step(nodes, jumps, i, input);
        assert(repeated(body, n) + after.out =~= after.out);
    } else {
        let n1 = (n - 1) as nat;
        let input1 = repeats_then_stop(n1, more);
        assert(input.drop_first() =~= input1);
        assert(input[0] == Input::ControlFlow { control: ControlFlow::Repeat });
        assert(step(nodes, jumps, i, input) == (quiet(input1), i + 1));
        lemma_run_quiet_step(nodes, jumps, i, input);
        lemma_plain_body(nodes, jumps, i + 1, j, input1);
        lemma_loop_from_end(nodes, jumps, i, j, n1, more);
        assert(body + (repeated(body, n1) + after.out) =~= repeated(body, n) + after.out);
    }
}

/// Whether the first `n` items of `input` are all there and all filler text.
pub open spec fn all_text(input: Seq<Input>, n: nat) -> bool {
    n <= input.len() && forall|m: int| 0 <= m < n ==> (#[trigger] input[m]) is FillerText
}

/// Whether `n` points that each expect filler text meet a control decision:
/// one of the first `n` items is a control decision and all before it are
/// filler text.
pub open spec fn control_among(input: Seq<Input>, n: nat) -> bool {
    exists|k: int|
        0 <= k < n && k < input.len() && input[k] is ControlFlow && forall|m: int|
            0 <= m < k ==> (#[trigger] input[m]) is FillerText
}

/// What `n` points that each expect filler text do with `input`: succeed and
/// leave the rest, meet a control decision, or run out of input.
pub open spec fn text_points(o: Outcome, input: Seq<Input>, n: nat) -> bool {
    &&& (o.err is None <==> all_text(input, n))
    &&& (o.err is None ==> o.rest == input.skip(n as int))
    &&& (o.err == Some(TemplateError::TypeMismatch) <==> control_among(input, n))
    &&& (o.err is None || o.err == Some(TemplateError::TypeMismatch) || o.err == Some(
        TemplateError::ExhaustedInput,
    ))
}

proof fn lemma_text_points_next(o: Outcome, input: Seq<Input>, n: nat)
    requires
        text_points(o, input, n),
        o.err is None,
    ensures
        text_points(take_text(o), input, n + 1),
{
    assert(o.rest == input.skip(n as int));
    if n < input.len() {
        assert(o.rest[0] == input[n as int]);
        if input[n as int] is FillerText {
            assert(take_text(o).rest =~= input.skip(n as int + 1));
            assert forall|k: int|
                0 <= k < n + 1 && k < input.len() && input[k] is ControlFlow implies !(forall|m: int|
                0 <= m < k ==> (#[trigger] input[m]) is FillerText) by {
                assert(k < n);
            }
        } else {
            assert(control_among(input, n + 1)) by {
                assert forall|m: int| 0 <= m < n implies (#[trigger] input[m]) is FillerText by {}
            }
        }
    } else {
        assert forall|k: int|
            0 <= k < n + 1 && k < input.len() && input[k] is ControlFlow implies !(forall|m: int|
            0 <= m < k ==> (#[trigger] input[m]) is FillerText) by {
            assert(input[k] is FillerText);
        }
    }
}

proof fn lemma_text_points_stay(o: Outcome, input: Seq<Input>, n: nat, n2: nat)
    requires
        text_points(o, input, n),
        o.err is Some,
        n <= n2,
    ensures
        text_points(o, input, n2),
{
    if o.err == Some(TemplateError::TypeMismatch) {
        let k = choose|k: int|
            0 <= k < n && k < input.len() && input[k] is ControlFlow && forall|m: int|
                0 <= m < k ==> (#[trigger] input[m]) is FillerText;
        assert(!all_text(input, n2)) by {
            assert(!(input[k] is FillerText));
        }
    } else {
        assert(!control_among(input, n));
        assert(!all_text(input, n));
        assert(!all_text(input, n2));
        assert forall|k: int|
            0 <= k < n2 && k < input.len() && input[k] is ControlFlow implies !(forall|m: int|
            0 <= m < k ==> (#[trigger] input[m]) is FillerText) by {
            if forall|m: int| 0 <= m < k ==> (#[trigger] input[m]) is FillerText {
                if k < n {
                    assert(control_among(input, n));
                } else {
                    assert(all_text(input, n));
                }
            }
        }
    }
}

proof fn lemma_text_points_text(content: Seq<char>, input: Seq<Input>)
    ensures
        text_points(fill_text(content, input), input, markers(content)),
    decreases content.len(),
{
    if content.len() == 0 {
        assert(input.skip(0) =~= input);
    } else {
        let init = content.drop_last();
        lemma_text_points_text(init, input);
        let r = fill_text(init, input);
        if r.err is Some {
            lemma_text_points_stay(r, input, markers(init), markers(content));
        } else if content.last() == MARKER {
            lemma_text_points_next(r, input, markers(init));
        }
    }
}

proof fn lemma_text_points_attrs(attrs: Seq<Attribute>, input: Seq<Input>)
    ensures
        text_points(fill_attrs(attrs, input), input, attr_placeholders(attrs)),
    decreases attrs.len(),
{
    if attrs.len() == 0 {
        assert(input.skip(0) =~= input);
    } else {
        let init = attrs.drop_last();
        lemma_text_points_attrs(init, input);
        let r = fill_attrs(init, input);
        let a = attrs.last();
        if r.err is Some {
            lemma_text_points_stay(r, input, attr_placeholders(init), attr_placeholders(attrs));
        } else if a.value@ == "@"@ {
            let pre = crate::interp::emit(r, " "@ + a.name@ + "=\""@);
            lemma_text_points_next(pre, input, attr_placeholders(init));
        }
    }
}

/// Whether the node at `ip`, run on `input`, pops an item of the wrong kind:
/// filler text where it expects a control decision, or a control decision
/// among the items it expects as filler text.
pub open spec fn pops_wrong_kind(nodes: Seq<Node>, ip: int, input: Seq<Input>) -> bool {
    let n = nodes[ip];
    if opens(n) is Some || is_loop_end(n) {
        input.len() > 0 && input[0] is FillerText
    } else {
        match n {
            Node::Text { content } => control_among(input, markers(content@)),
            _ => control_among(input, placeholders(n)),
        }
    }
}

/// Whether interpretation from `ip` reaches a node that pops an item of the
/// wrong kind.
pub open spec fn wrong_kind_reached(
    nodes: Seq<Node>,
    jumps: Seq<Option<usize>>,
    ip: int,
    input: Seq<Input>,
) -> bool
    decreases input.len(), nodes.len() - ip,
    via wrong_kind_reached_decreases
{
    if ip < 0 || ip >= nodes.len() {
        false
    } else {
        let (o, next) = step(nodes, jumps, ip, input);
        if o.err is Some {
            pops_wrong_kind(nodes, ip, input)
        } else {
            wrong_kind_reached(nodes, jumps, next, o.rest)
        }
    }
}

#[via_fn]
proof fn wrong_kind_reached_decreases(
    nodes: Seq<Node>,
    jumps: Seq<Option<usize>>,
    ip: int,
    input: Seq<Input>,
) {
    if !(ip < 0 || ip >= nodes.len()) {
        lemma_step_consumes(nodes, jumps, ip, input);
    }
}

proof fn lemma_step_mismatch(nodes: Seq<Node>, jumps: Seq<Option<usize>>, ip: int, input: Seq<Input>)
    requires
        0 <= ip < nodes.len(),
    ensures
        step(nodes, jumps, ip, input).0.err == Some(TemplateError::TypeMismatch) <==> pops_wrong_kind(
            nodes,
            ip,
            input,
        ),
{
    match nodes[ip] {
        Node::Start { name, attributes, wrapper } => {
            if !wrapper && crate::model::directive_of(name@) is None && !is_keyword(name@) {
                lemma_text_points_attrs(attributes@, input);
            } else if !(opens(nodes[ip]) is Some) {
                assert(!control_among(input, 0));
            }
        },
        Node::End { .. } => {
            assert(!control_among(input, 0));
        },
        Node::Text { content } => lemma_text_points_text(content@, input),
    }
}

/// A render ends in a type mismatch exactly when it reaches a point that
/// pops an item of the wrong kind: filler text at a directive, or a control
/// decision at a placeholder; never otherwise.
pub proof fn type_mismatch_iff_wrong_kind(
    nodes: Seq<Node>,
    jumps: Seq<Option<usize>>,
    ip: int,
    input: Seq<Input>,
)
    ensures
        run(nodes, jumps, ip, input).err == Some(TemplateError::TypeMismatch) <==> wrong_kind_reached(
            nodes,
            jumps,
            ip,
            input,
        ),
    decreases input.len(), nodes.len() - ip,
{
    if !(ip < 0 || ip >= nodes.len()) {
        lemma_step_consumes(nodes, jumps, ip, input);
        lemma_step_mismatch(nodes, jumps, ip, input);
        let (o, next) = step(nodes, jumps, ip, input);
        if o.err is None {
            type_mismatch_iff_wrong_kind(nodes, jumps, next, o.rest);
        }
    }
}

} // verus!
