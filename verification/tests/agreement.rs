use cbor_data::{Cbor, CborBuilder, CborOwned, Encoder, ItemKind, Literal, Writer};
use cbor_rewrite::append::{array_append, AppendResult};
use cbor_rewrite::node::{Entry, Node};
use cbor_rewrite::path::{compile, PathExpression};
use cborpath::CborPath;
use std::borrow::Cow;

fn encode(node: &Node) -> CborOwned {
    match node {
        Node::Null => CborBuilder::new().encode_null(),
        Node::Bool(b) => CborBuilder::new().encode_bool(*b),
        Node::Integer(n) => {
            if *n >= 0 {
                CborBuilder::new().write_pos(*n as u64, None)
            } else {
                CborBuilder::new().write_neg((-1 - *n) as u64, None)
            }
        }
        Node::Float(bits) => CborBuilder::new().write_lit(Literal::L8(*bits), None),
        Node::Text(s) => CborBuilder::new().encode_str(s),
        Node::Bytes(b) => CborBuilder::new().encode_bytes(b),
        Node::Sequence(items) => CborBuilder::new().encode_array(|builder| {
            for item in items {
                builder.write_item(&encode(item));
            }
        }),
        Node::Mapping(entries) => CborBuilder::new().encode_dict(|builder| {
            for e in entries {
                builder.with_key(&e.key, |b| b.write_item(&encode(&e.value)));
            }
        }),
    }
}

fn decode(cbor: &Cbor) -> Node {
    match cbor.kind() {
        ItemKind::Pos(v) => Node::Integer(v as i128),
        ItemKind::Neg(v) => Node::Integer(-1 - (v as i128)),
        ItemKind::Float(f) => Node::Float(f.to_bits()),
        ItemKind::Str(s) => Node::Text(s.as_cow().into_owned()),
        ItemKind::Bytes(b) => Node::Bytes(b.to_vec()),
        ItemKind::Bool(b) => Node::Bool(b),
        ItemKind::Null | ItemKind::Undefined | ItemKind::Simple(_) => Node::Null,
        ItemKind::Array(items) => Node::Sequence(items.map(decode).collect()),
        ItemKind::Dict(pairs) => Node::Mapping(
            pairs
                .map(|(k, v)| Entry {
                    key: match k.kind() {
                        ItemKind::Str(s) => s.as_cow().into_owned(),
                        _ => k.to_string(),
                    },
                    value: decode(v),
                })
                .collect(),
        ),
    }
}

/// The append as the path crate performs it on encoded documents.
fn encoded_append(
    existing: &Cbor,
    path: &CborPath,
    values: &[CborOwned],
) -> (Option<Node>, Vec<AppendResult>) {
    let mut sizes = Vec::new();
    let written = path
        .write(existing, |old| {
            if let ItemKind::Array(array) = old.kind() {
                let mut size = 0u64;
                let rebuilt = CborBuilder::new().write_array(None, |builder| {
                    for item in array {
                        size += 1;
                        builder.write_item(item);
                    }
                    for value in values {
                        size += 1;
                        builder.write_item(value);
                    }
                });
                sizes.push(AppendResult::Length(size));
                Ok(Some(Cow::Owned(rebuilt)))
            } else {
                sizes.push(AppendResult::Null);
                Ok(Some(Cow::Borrowed(old)))
            }
        })
        .unwrap();
    (written.map(|doc| decode(&doc)), sizes)
}

fn agree(document: &Node, expression: &Node, values: Vec<Node>) {
    let bytes = encode(document);
    let encoded_values: Vec<CborOwned> = values.iter().map(encode).collect();
    let their_path = CborPath::from_value(&encode(expression)).unwrap();
    let theirs = encoded_append(&bytes, &their_path, &encoded_values);

    let our_path: PathExpression = compile(expression).unwrap();
    let ours = array_append(document, &our_path, values);

    assert_eq!(theirs, ours);
}

fn text(s: &str) -> Node {
    Node::Text(s.to_string())
}

fn entry(key: &str, value: Node) -> Entry {
    Entry { key: key.to_string(), value }
}

fn star() -> Node {
    Node::Mapping(vec![entry("*", Node::Integer(1))])
}

fn path_of(selectors: Vec<Node>) -> Node {
    let mut items = vec![text("$")];
    items.extend(selectors);
    Node::Sequence(items)
}

fn library() -> Node {
    Node::Mapping(vec![
        entry("foo", Node::Sequence(vec![text("a"), text("b"), text("c")])),
        entry(
            "bar",
            Node::Sequence(vec![
                Node::Integer(1),
                Node::Sequence(vec![Node::Integer(2)]),
                Node::Mapping(vec![entry("foo", Node::Sequence(vec![]))]),
            ]),
        ),
        entry("baz", Node::Integer(12)),
        entry("qux", Node::Mapping(vec![entry("foo", Node::Sequence(vec![Node::Null]))])),
    ])
}

#[test]
fn agrees_with_the_path_crate_at_the_root() {
    let doc = Node::Sequence(vec![text("a"), text("b"), text("c")]);
    agree(&doc, &path_of(vec![]), vec![text("d"), text("e")]);
    agree(&doc, &text("$"), vec![text("d")]);
    agree(&Node::Integer(3), &path_of(vec![]), vec![text("d")]);
}

#[test]
fn agrees_with_the_path_crate_on_keys() {
    agree(&library(), &path_of(vec![text("foo")]), vec![text("d"), text("e")]);
    agree(&library(), &path_of(vec![text("baz")]), vec![text("d")]);
    agree(&library(), &path_of(vec![text("missing")]), vec![text("d")]);
    agree(&library(), &path_of(vec![text("qux"), text("foo")]), vec![Node::Bool(true)]);
    agree(&library(), &path_of(vec![text("foo"), text("foo")]), vec![Node::Bool(true)]);
}

#[test]
fn agrees_with_the_path_crate_on_wildcards() {
    agree(&library(), &path_of(vec![star()]), vec![text("d"), text("e")]);
    agree(&library(), &path_of(vec![star(), star()]), vec![Node::Integer(0)]);
    agree(&library(), &path_of(vec![star(), text("foo")]), vec![Node::Integer(0)]);
    agree(&library(), &path_of(vec![text("bar"), star()]), vec![Node::Integer(0)]);
    agree(&library(), &path_of(vec![text("bar"), star(), star()]), vec![Node::Integer(0)]);
    agree(&Node::Bool(false), &path_of(vec![star()]), vec![Node::Integer(0)]);
}
