use tpt_local_ai::template::{Node, TemplateError};
use tpt_local_ai::template_parse::ChatTemplate;

#[test]
fn parse_error_on_unterminated_tag() {
    let err = ChatTemplate::parse("{{ name ").err().unwrap();
    assert!(matches!(err, TemplateError::Parse { .. }));
}

#[test]
fn parses_text_and_expressions() {
    let t = ChatTemplate::parse("Hello {{ name }}!").unwrap();
    assert_eq!(t.nodes().len(), 3);
    assert!(matches!(t.nodes()[0], Node::Text(_)));
}

#[test]
fn parses_control_structures() {
    let src = "{% for m in messages %}{% if m.role == 'user' %}{{ m.content }}{% elif x > 5 %}mid{% else %}x{% endif %}{% endfor %}";
    assert!(ChatTemplate::parse(src).is_ok());
    assert!(ChatTemplate::parse("{% set g = 'Hello, ' %}{{ g + name + '!' }}").is_ok());
}

#[test]
fn unclosed_block_is_a_parse_error() {
    assert!(matches!(
        ChatTemplate::parse("{% if x %}yes"),
        Err(TemplateError::Parse { .. })
    ));
    assert!(matches!(
        ChatTemplate::parse("{% endfor %}"),
        Err(TemplateError::Parse { .. })
    ));
}

#[test]
fn right_whitespace_markers_are_not_part_of_the_tag() {
    let t = ChatTemplate::parse("{{ name -}}").unwrap();
    assert_eq!(t.nodes().len(), 1);
    match &t.nodes()[0] {
        Node::Output(tpt_local_ai::template::Expr::Var(v)) => assert_eq!(v, "name"),
        other => panic!("unexpected {other:?}"),
    }
    let t = ChatTemplate::parse("a {%- if x -%}\n  y  {%- endif -%} b").unwrap();
    assert_eq!(t.nodes().len(), 3);
    assert!(matches!(t.nodes()[1], Node::If { .. }));
    match &t.nodes()[2] {
        Node::Text(s) => assert_eq!(s, "b"),
        other => panic!("unexpected {other:?}"),
    }
}
