use cbor_rewrite::node::{Entry, Node};
use cbor_rewrite::path::{compile, selector_of, PathExpression, PathSyntaxError, Selector};

fn text(s: &str) -> Node {
    Node::Text(s.to_string())
}

fn star(value: Node) -> Node {
    Node::Mapping(vec![Entry { key: "*".to_string(), value }])
}

#[test]
fn compile_root_alone() {
    assert_eq!(Ok(PathExpression::root()), compile(&text("$")));
    assert_eq!(Ok(PathExpression::root()), compile(&Node::Sequence(vec![text("$")])));
}

#[test]
fn compile_key_and_wildcard() {
    let expression = Node::Sequence(vec![text("$"), text("foo"), star(Node::Integer(1))]);
    assert_eq!(Ok(PathExpression::root().key("foo").wildcard()), compile(&expression));
}

#[test]
fn compile_takes_the_root_name_as_a_key_after_the_root() {
    let expression = Node::Sequence(vec![text("$"), text("$")]);
    let path = compile(&expression).unwrap();
    assert_eq!(vec![Selector::Root, Selector::Key("$".to_string())], path.selectors);
}

#[test]
fn compile_refuses_an_empty_expression() {
    assert_eq!(Err(PathSyntaxError::Empty), compile(&Node::Sequence(vec![])));
}

#[test]
fn compile_refuses_an_expression_without_root() {
    assert_eq!(Err(PathSyntaxError::MissingRoot), compile(&text("foo")));
    assert_eq!(Err(PathSyntaxError::MissingRoot), compile(&Node::Null));
    assert_eq!(
        Err(PathSyntaxError::MissingRoot),
        compile(&Node::Sequence(vec![text("foo"), text("$")]))
    );
    assert_eq!(
        Err(PathSyntaxError::MissingRoot),
        compile(&Node::Sequence(vec![Node::Integer(1)]))
    );
}

#[test]
fn compile_refuses_an_unknown_selector() {
    let bad = vec![
        Node::Integer(3),
        Node::Null,
        star(Node::Integer(2)),
        star(text("1")),
        Node::Mapping(vec![]),
        Node::Mapping(vec![Entry { key: "#".to_string(), value: Node::Integer(1) }]),
        Node::Sequence(vec![text("a")]),
    ];
    for item in bad {
        let expression = Node::Sequence(vec![text("$"), text("ok"), item]);
        assert_eq!(Err(PathSyntaxError::UnknownSelector), compile(&expression));
    }
}

#[test]
fn compile_reports_the_missing_root_before_a_bad_selector() {
    let expression = Node::Sequence(vec![text("x"), Node::Null]);
    assert_eq!(Err(PathSyntaxError::MissingRoot), compile(&expression));
}

#[test]
fn selector_of_reads_keys_and_wildcards() {
    assert_eq!(Some(Selector::Key("a".to_string())), selector_of(&text("a")));
    assert_eq!(Some(Selector::Wildcard), selector_of(&star(Node::Integer(1))));
    assert_eq!(None, selector_of(&Node::Bool(true)));
}
