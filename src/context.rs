use vstd::prelude::*;
use std::collections::VecDeque;
use crate::model::{ControlFlow, Input, Node, TemplateError};
use crate::resolve::{Template, balanced, resolve, resolved};
use crate::interp::{agrees, render, run};

verus! {

/// A render context: the template path, the compiled template, the input
/// channel and the output emitted so far.
pub struct Context {
    pub tmpl: String,
    pub template: Template,
    pub input: VecDeque<Input>,
    pub output: String,
}

impl Context {
    pub open spec fn wf(&self) -> bool {
        self.template.wf()
    }
}

/// A fresh context bound to the template path `tmpl`, with no template
/// compiled yet, an empty channel and no output.
pub fn new(tmpl: &str) -> (r: Context)
    ensures
        r.tmpl@ == tmpl@,
        r.template.nodes@.len() == 0,
        r.input@.len() == 0,
        r.output@.len() == 0,
        r.wf(),
{
    Context {
        tmpl: tmpl.to_owned(),
        template: Template::empty(),
        input: VecDeque::new(),
        output: String::new(),
    }
}

/// Appends a filler text to the back of the input channel.
pub fn add_filler_text(data: &mut Context, text: &str)
    ensures
        final(data).input@.len() == old(data).input@.len() + 1,
        final(data).input@.drop_last() == old(data).input@,
        final(data).input@.last() matches Input::FillerText { text: t } && t@ == text@,
        final(data).tmpl == old(data).tmpl,
        final(data).template == old(data).template,
        final(data).output == old(data).output,
{
    data.input.push_back(Input::FillerText { text: text.to_owned() });
    proof {
        assert(data.input@.drop_last() =~= old(data).input@);
    }
}

/// Appends a control decision to the back of the input channel.
pub fn add_control_flow(data: &mut Context, cf: ControlFlow)
    ensures
        final(data).input@ == old(data).input@.push(Input::ControlFlow { control: cf }),
        final(data).tmpl == old(data).tmpl,
        final(data).template == old(data).template,
        final(data).output == old(data).output,
{
    data.input.push_back(Input::ControlFlow { control: cf });
}

/// Resolves the jumps of `nodes` and, where they balance, installs the
/// result as the context's template; else leaves the context as it was.
pub fn compile(data: &mut Context, nodes: Vec<Node>) -> (r: Result<(), TemplateError>)
    ensures
        r is Ok <==> balanced(nodes@),
        r is Err ==> r->Err_0 == TemplateError::UnbalancedControlFlow && *final(data) == *old(data),
        r is Ok ==> final(data).template.nodes@ == nodes@ && resolved(nodes@, final(data).template.jumps@),
        final(data).wf() == (old(data).wf() || r is Ok),
        final(data).tmpl == old(data).tmpl,
        final(data).input == old(data).input,
        final(data).output == old(data).output,
{
    match resolve(nodes) {
        Ok(t) => {
            data.template = t;
            Ok(())
        },
        Err(e) => Err(e),
    }
}

/// Renders the compiled template, consuming the input channel and appending
/// to the output; on an error, what was emitted before it stays.
pub fn print_xml_file(data: &mut Context) -> (r: Result<(), TemplateError>)
    requires
        old(data).wf(),
    ensures
        agrees(
            run(old(data).template.nodes@, old(data).template.jumps@, 0, old(data).input@),
            old(data).output@,
            final(data).output@,
            final(data).input@,
            r,
        ),
        final(data).tmpl == old(data).tmpl,
        final(data).template == old(data).template,
{
    render(&data.template, &mut data.input, &mut data.output)
}

} // verus!
