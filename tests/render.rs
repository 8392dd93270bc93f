use templatizer::context::{add_control_flow, add_filler_text, compile, new, print_xml_file, Context};
use std::collections::VecDeque;
use templatizer::loader::{enter_include, expand_step, find_include, include_file, load_markup, nodes_from_events, splice_include, MarkupEvent};
use templatizer::interp::{print_end_node, print_start_node};
use templatizer::model::{Input, indent, is_control_flow_keyword, Attribute, ControlFlow, Node, TemplateError};
use templatizer::registry::TagPool;
use templatizer::resolve::resolve;

enum Item {
    T(&'static str),
    C(ControlFlow),
}

fn context_for(src: &str, items: &[Item]) -> Context {
    let mut data = new("page.xml");
    let nodes = load_markup(src).expect("markup parses");
    compile(&mut data, nodes).expect("directives balance");
    for it in items {
        match it {
            Item::T(s) => add_filler_text(&mut data, s),
            Item::C(c) => add_control_flow(&mut data, *c),
        }
    }
    data
}

fn render(src: &str, items: &[Item]) -> (String, Result<(), TemplateError>) {
    let mut data = context_for(src, items);
    let r = print_xml_file(&mut data);
    (data.output.clone(), r)
}

#[test]
fn index() {
    let mut data = new("index.xml");
    add_filler_text(&mut data, "Hello world.");
    let nodes = load_markup("<templatizer><p>@</p></templatizer>").unwrap();
    compile(&mut data, nodes).unwrap();
    assert_eq!(print_xml_file(&mut data), Ok(()));
    assert_eq!(data.output, "<p>Hello world.</p>");
    assert_eq!(2 + 2, 4);
}

#[test]
fn text_placeholder_is_filled() {
    let (out, r) = render("<root><p>@</p></root>", &[Item::T("hi")]);
    assert_eq!(r, Ok(()));
    assert_eq!(out, "<p>hi</p>");
}

#[test]
fn skipped_conditional_emits_nothing() {
    let (out, r) = render("<root><if><p>X</p></if></root>", &[Item::C(ControlFlow::Skip)]);
    assert_eq!(r, Ok(()));
    assert_eq!(out, "");
}

#[test]
fn entered_conditional_emits_body() {
    let (out, r) = render("<root><if><p>X</p></if></root>", &[Item::C(ControlFlow::Enter)]);
    assert_eq!(r, Ok(()));
    assert_eq!(out, "<p>X</p>");
}

#[test]
fn loop_runs_once_per_go_decision() {
    let items = [
        Item::C(ControlFlow::Enter),
        Item::T("a"),
        Item::C(ControlFlow::Repeat),
        Item::T("b"),
        Item::C(ControlFlow::Stop),
    ];
    let (out, r) = render("<root><swhile><p>@</p></swhile></root>", &items);
    assert_eq!(r, Ok(()));
    assert_eq!(out, "<p>a</p><p>b</p>");
}

#[test]
fn loop_three_repeats() {
    let items = [
        Item::C(ControlFlow::Repeat),
        Item::C(ControlFlow::Repeat),
        Item::C(ControlFlow::Repeat),
        Item::C(ControlFlow::Stop),
    ];
    let (out, r) = render("<root><swhile><i>x</i></swhile></root>", &items);
    assert_eq!(r, Ok(()));
    assert_eq!(out, "<i>x</i><i>x</i><i>x</i>");
}

#[test]
fn loop_stopped_at_entry_runs_zero_times() {
    let (out, r) = render("<root><swhile><p>@</p></swhile><b>end</b></root>", &[Item::C(ControlFlow::Stop)]);
    assert_eq!(r, Ok(()));
    assert_eq!(out, "<b>end</b>");
}

#[test]
fn plain_template_renders_as_source() {
    let src = "<root><div class=\"a\"><p>Hello, world.</p><br></br></div></root>";
    let (out, r) = render(src, &[]);
    assert_eq!(r, Ok(()));
    assert_eq!(out, "<div class=\"a\"><p>Hello, world.</p><br></br></div>");
}

#[test]
fn plain_template_with_input_left_over() {
    let (out, r) = render("<root><p>x</p></root>", &[Item::T("unused")]);
    assert_eq!(r, Err(TemplateError::TrailingInput));
    assert_eq!(out, "<p>x</p>");
}

#[test]
fn attribute_placeholder_is_filled() {
    let (out, r) = render("<root><a href=\"@\" id=\"k\">@</a></root>", &[Item::T("/x"), Item::T("go")]);
    assert_eq!(r, Ok(()));
    assert_eq!(out, "<a href=\"/x\" id=\"k\">go</a>");
}

#[test]
fn control_where_text_expected_is_a_mismatch() {
    let (out, r) = render("<root><p>@</p></root>", &[Item::C(ControlFlow::Enter)]);
    assert_eq!(r, Err(TemplateError::TypeMismatch));
    assert_eq!(out, "<p>");
}

#[test]
fn text_where_control_expected_is_a_mismatch() {
    let (out, r) = render("<root><b>k</b><if><p>X</p></if></root>", &[Item::T("x")]);
    assert_eq!(r, Err(TemplateError::TypeMismatch));
    assert_eq!(out, "<b>k</b>");
}

#[test]
fn missing_input_is_exhausted() {
    let (_, r) = render("<root><p>@ and @</p></root>", &[Item::T("one")]);
    assert_eq!(r, Err(TemplateError::ExhaustedInput));
    let (_, r2) = render("<root><if>x</if></root>", &[]);
    assert_eq!(r2, Err(TemplateError::ExhaustedInput));
}

#[test]
fn input_is_consumed_first_in_first_out() {
    let (out, r) = render("<root><p>@-@</p></root>", &[Item::T("1"), Item::T("2")]);
    assert_eq!(r, Ok(()));
    assert_eq!(out, "<p>1-2</p>");
}

#[test]
fn unbalanced_directives_are_refused() {
    let nodes = load_markup("<root><if><p>x</p></if></root>").unwrap();
    assert!(resolve(nodes).is_ok());
    let open_only = vec![Node::Start { name: "if".to_string(), attributes: vec![], wrapper: false }];
    assert_eq!(resolve(open_only).err(), Some(TemplateError::UnbalancedControlFlow));
    let crossed = vec![
        Node::Start { name: "if".to_string(), attributes: vec![], wrapper: false },
        Node::End { name: "swhile".to_string(), wrapper: false },
    ];
    assert_eq!(resolve(crossed).err(), Some(TemplateError::UnbalancedControlFlow));
    let close_only = vec![Node::End { name: "if".to_string(), wrapper: false }];
    assert_eq!(resolve(close_only).err(), Some(TemplateError::UnbalancedControlFlow));
}

#[test]
fn jumps_point_past_ends_and_back_to_loop_starts() {
    let nodes = load_markup("<root><if><swhile><p>x</p></swhile></if></root>").unwrap();
    let t = resolve(nodes).unwrap();
    // root, if, swhile, p, x, /p, /swhile, /if, /root
    assert_eq!(t.jumps, vec![None, Some(8), Some(7), None, None, None, Some(2), None, None]);
}

#[test]
fn malformed_markup_is_a_parse_error() {
    assert_eq!(load_markup("<root><p></root>").err(), Some(TemplateError::ParseError));
}

#[test]
fn wrapper_is_the_outermost_element() {
    let nodes = load_markup("<root><root>t</root></root>").unwrap();
    let flags: Vec<bool> = nodes
        .iter()
        .map(|n| match n {
            Node::Start { wrapper, .. } | Node::End { wrapper, .. } => *wrapper,
            Node::Text { .. } => false,
        })
        .collect();
    assert_eq!(flags, vec![true, false, false, false, true]);
}

#[test]
fn tag_pool_gives_first_seen_indices() {
    let mut pool = TagPool::new();
    assert_eq!(pool.lookup_or_register(&"p".to_string()), 0);
    assert_eq!(pool.lookup_or_register(&"div".to_string()), 1);
    assert_eq!(pool.lookup_or_register(&"p".to_string()), 0);
    assert_eq!(pool.tags.len(), 2);
}

#[test]
fn include_is_spliced_in_place() {
    let outer = load_markup("<root><a>1</a><include file=\"part.xml\"/><b>2</b></root>").unwrap();
    let at = find_include(&outer).unwrap();
    assert_eq!(at, 4);
    let file = match &outer[at] {
        Node::Start { attributes, .. } => include_file(attributes),
        _ => None,
    };
    assert_eq!(file, Some("part.xml".to_string()));
    let inner = load_markup("<part><i>@</i></part>").unwrap();
    let nodes = splice_include(outer, at, inner).unwrap();
    assert_eq!(find_include(&nodes), None);
    let mut data = new("page.xml");
    compile(&mut data, nodes).unwrap();
    add_filler_text(&mut data, "in");
    assert_eq!(print_xml_file(&mut data), Ok(()));
    assert_eq!(data.output, "<a>1</a><i>in</i><b>2</b>");
}

#[test]
fn include_without_end_is_refused() {
    let nodes = vec![Node::Start { name: "include".to_string(), attributes: vec![], wrapper: false }];
    assert_eq!(splice_include(nodes, 0, vec![]).err(), Some(TemplateError::ParseError));
}

#[test]
fn include_file_takes_the_first_file_attribute() {
    let attrs = vec![
        Attribute { name: "id".to_string(), value: "x".to_string() },
        Attribute { name: "file".to_string(), value: "a.xml".to_string() },
        Attribute { name: "file".to_string(), value: "b.xml".to_string() },
    ];
    assert_eq!(include_file(&attrs), Some("a.xml".to_string()));
    assert_eq!(include_file(&vec![]), None);
}

#[test]
fn reserved_end_keyword_is_not_emitted() {
    let (out, r) = render("<root><ewhile>t</ewhile></root>", &[]);
    assert_eq!(r, Ok(()));
    assert_eq!(out, "t");
}

#[test]
fn skipped_branch_consumes_no_filler() {
    let items = [Item::C(ControlFlow::Skip), Item::T("x")];
    let (out, r) = render("<root><if><p>@</p></if><b>@</b></root>", &items);
    assert_eq!(r, Ok(()));
    assert_eq!(out, "<b>x</b>");
}

#[test]
fn loop_body_placeholders_consume_once_per_visit() {
    let items = [
        Item::C(ControlFlow::Repeat),
        Item::T("1"),
        Item::T("2"),
        Item::C(ControlFlow::Repeat),
        Item::T("3"),
        Item::T("4"),
        Item::C(ControlFlow::Stop),
    ];
    let (out, r) = render("<root><swhile><td id=\"@\">@</td></swhile></root>", &items);
    assert_eq!(r, Ok(()));
    assert_eq!(out, "<td id=\"1\">2</td><td id=\"3\">4</td>");
}

#[test]
fn unbalanced_template_leaves_context_uncompiled() {
    let mut data = new("page.xml");
    let nodes = load_markup("<root><if>x</root>");
    assert_eq!(nodes.err(), Some(TemplateError::ParseError));
    let open_only = vec![Node::Start { name: "swhile".to_string(), attributes: vec![], wrapper: false }];
    assert_eq!(compile(&mut data, open_only), Err(TemplateError::UnbalancedControlFlow));
    assert!(data.template.nodes.is_empty());
    assert_eq!(print_xml_file(&mut data), Ok(()));
    assert_eq!(data.output, "");
}

#[test]
fn indent_is_four_spaces_per_level() {
    assert_eq!(indent(0), "");
    assert_eq!(indent(2), "        ");
}

#[test]
fn keywords_are_the_three_directive_names() {
    assert!(is_control_flow_keyword(&"if".to_string()));
    assert!(is_control_flow_keyword(&"swhile".to_string()));
    assert!(is_control_flow_keyword(&"ewhile".to_string()));
    assert!(!is_control_flow_keyword(&"include".to_string()));
    assert!(!is_control_flow_keyword(&"p".to_string()));
}

#[test]
fn events_become_nodes_in_order() {
    let mut events = VecDeque::new();
    events.push_back(MarkupEvent::Other);
    events.push_back(MarkupEvent::StartElement { name: "root".to_string(), attributes: vec![] });
    events.push_back(MarkupEvent::StartElement {
        name: "p".to_string(),
        attributes: vec![Attribute { name: "id".to_string(), value: "@".to_string() }],
    });
    events.push_back(MarkupEvent::Text { content: "hi".to_string() });
    events.push_back(MarkupEvent::EndElement { name: "p".to_string() });
    events.push_back(MarkupEvent::EndElement { name: "root".to_string() });
    let nodes = nodes_from_events(events);
    assert_eq!(nodes.len(), 5);
    match &nodes[0] {
        Node::Start { name, wrapper, .. } => {
            assert_eq!(name, "root");
            assert!(*wrapper);
        }
        _ => panic!("expected a start tag"),
    }
    match &nodes[1] {
        Node::Start { name, attributes, wrapper } => {
            assert_eq!(name, "p");
            assert!(!*wrapper);
            assert_eq!(attributes.len(), 1);
            assert_eq!(attributes[0].value, "@");
        }
        _ => panic!("expected a start tag"),
    }
    match &nodes[2] {
        Node::Text { content } => assert_eq!(content, "hi"),
        _ => panic!("expected text"),
    }
    match (&nodes[3], &nodes[4]) {
        (Node::End { wrapper: inner, .. }, Node::End { wrapper: outer, .. }) => {
            assert!(!*inner);
            assert!(*outer);
        }
        _ => panic!("expected two end tags"),
    }
}

#[test]
fn repeated_include_path_is_a_cycle() {
    let mut visiting = Vec::new();
    assert_eq!(enter_include(&mut visiting, "/t/a.xml".to_string()), Ok(()));
    assert_eq!(enter_include(&mut visiting, "/t/b.xml".to_string()), Ok(()));
    assert_eq!(enter_include(&mut visiting, "/t/a.xml".to_string()), Err(TemplateError::CyclicInclude));
    assert_eq!(visiting, vec!["/t/a.xml".to_string(), "/t/b.xml".to_string()]);
}

#[test]
fn printers_emit_nothing_for_reserved_or_wrapper_tags() {
    let mut input = VecDeque::new();
    input.push_back(Input::FillerText { text: "kept".to_string() });
    let attrs = vec![Attribute { name: "a".to_string(), value: "@".to_string() }];
    let mut out = String::new();
    for name in ["if", "swhile", "ewhile"] {
        assert_eq!(print_start_node(&name.to_string(), &attrs, false, &mut input, &mut out), Ok(()));
        print_end_node(&name.to_string(), false, &mut out);
    }
    assert_eq!(print_start_node(&"root".to_string(), &attrs, true, &mut input, &mut out), Ok(()));
    print_end_node(&"root".to_string(), true, &mut out);
    assert_eq!(out, "");
    assert_eq!(input.len(), 1);
    assert_eq!(print_start_node(&"p".to_string(), &attrs, false, &mut input, &mut out), Ok(()));
    print_end_node(&"p".to_string(), false, &mut out);
    assert_eq!(out, "<p a=\"kept\"></p>");
    assert!(input.is_empty());
}

#[test]
fn attribute_values_are_escaped() {
    let src = "<root><a title=\"say &quot;hi&quot; &amp; &lt;go&gt;\">t</a></root>";
    let (out, r) = render(src, &[]);
    assert_eq!(r, Ok(()));
    assert_eq!(out, "<a title=\"say &quot;hi&quot; &amp; &lt;go&gt;\">t</a>");
}

#[test]
fn attribute_prefixes_are_kept() {
    let (out, r) = render("<root><p xml:lang=\"en\">t</p></root>", &[]);
    assert_eq!(r, Ok(()));
    assert_eq!(out, "<p xml:lang=\"en\">t</p>");
}

#[test]
fn expand_step_names_the_first_include() {
    let plain = load_markup("<root><a>1</a></root>").unwrap();
    assert_eq!(expand_step(&plain), Ok(None));
    let nodes = load_markup("<root><include file=\"x.xml\"/><include file=\"y.xml\"/></root>").unwrap();
    assert_eq!(expand_step(&nodes), Ok(Some((1, "x.xml".to_string()))));
    let bare = load_markup("<root><include/></root>").unwrap();
    assert_eq!(expand_step(&bare), Err(TemplateError::ParseError));
}
