//! The document model and its mathematical view.

use vstd::prelude::*;

verus! {

/// The mathematical value of a document: what contracts speak of.
pub enum Tree {
    Null,
    Bool(bool),
    Integer(i128),
    /// A floating-point number, held by its IEEE 754 bit pattern.
    Float(u64),
    Text(Seq<char>),
    Bytes(Seq<u8>),
    Sequence(Seq<Tree>),
    /// Key and value pairs in stored order; keys need not be unique.
    Mapping(Seq<(Seq<char>, Tree)>),
}

/// One key and value pair of a mapping.
#[derive(Debug, PartialEq, Eq)]
pub struct Entry {
    pub key: String,
    pub value: Node,
}

/// A document, or a subtree of one.
#[derive(Debug, PartialEq, Eq)]
pub enum Node {
    Null,
    Bool(bool),
    Integer(i128),
    /// A floating-point number, held by its IEEE 754 bit pattern.
    Float(u64),
    Text(String),
    Bytes(Vec<u8>),
    Sequence(Vec<Node>),
    Mapping(Vec<Entry>),
}

/// The views of a run of nodes, in order.
pub open spec fn trees(nodes: Seq<Node>) -> Seq<Tree> {
    Seq::new(nodes.len(), |i: int| nodes[i]@)
}

/// The views of the entries of a mapping, in stored order.
pub open spec fn pairs(entries: Seq<Entry>) -> Seq<(Seq<char>, Tree)> {
    Seq::new(entries.len(), |i: int| entries[i]@)
}

impl View for Entry {
    type V = (Seq<char>, Tree);

    open spec fn view(&self) -> (Seq<char>, Tree) {
        (self.key@, self.value@)
    }
}

impl View for Node {
    type V = Tree;

    open spec fn view(&self) -> Tree {
        tree_of(*self)
    }
}

/// The mathematical value of a node.
pub open spec fn tree_of(node: Node) -> Tree
    decreases node,
{
    match node {
        Node::Null => Tree::Null,
        Node::Bool(b) => Tree::Bool(b),
        Node::Integer(n) => Tree::Integer(n),
        Node::Float(bits) => Tree::Float(bits),
        Node::Text(s) => Tree::Text(s@),
        Node::Bytes(b) => Tree::Bytes(b@),
        Node::Sequence(items) => Tree::Sequence(
            Seq::new(
                items@.len(),
                |i: int|
                    if 0 <= i < items@.len() {
                        tree_of(items@[i])
                    } else {
                        Tree::Null
                    },
            ),
        ),
        Node::Mapping(entries) => Tree::Mapping(
            Seq::new(
                entries@.len(),
                |i: int|
                    if 0 <= i < entries@.len() {
                        (entries@[i].key@, tree_of(entries@[i].value))
                    } else {
                        (Seq::empty(), Tree::Null)
                    },
            ),
        ),
    }
}

/// A sequence node is viewed as the sequence of its items' views.
pub proof fn lemma_sequence_view(items: Vec<Node>)
    ensures
        Node::Sequence(items)@ == Tree::Sequence(trees(items@)),
{
    let whole = Node::Sequence(items)@;
    assert(whole is Sequence);
    assert(whole->Sequence_0 =~= trees(items@));
}

/// A mapping node is viewed as the sequence of its entries' views.
pub proof fn lemma_mapping_view(entries: Vec<Entry>)
    ensures
        Node::Mapping(entries)@ == Tree::Mapping(pairs(entries@)),
{
    let whole = Node::Mapping(entries)@;
    assert(whole is Mapping);
    assert(whole->Mapping_0 =~= pairs(entries@));
}

impl Node {
    /// An independent copy of this node and everything beneath it.
    pub fn duplicate(&self) -> (copy: Node)
        ensures
            copy@ == self@,
        decreases self,
    {
        match self {
            Node::Null => Node::Null,
            Node::Bool(b) => Node::Bool(*b),
            Node::Integer(n) => Node::Integer(*n),
            Node::Float(bits) => Node::Float(*bits),
            Node::Text(s) => Node::Text(s.clone()),
            Node::Bytes(b) => Node::Bytes(b.clone()),
            Node::Sequence(items) => {
                let mut copies: Vec<Node> = Vec::new();
                let mut i: usize = 0;
                while i < items.len()
                    invariant
                        *self == Node::Sequence(*items),
                        i <= items.len(),
                        copies@.len() == i,
                        forall|j: int| 0 <= j < i ==> (#[trigger] copies@[j])@ == items@[j]@,
                    decreases items.len() - i,
                {
                    assert(self->Sequence_0 == *items);
                    assert(decreases_to!(*self => self->Sequence_0));
                    assert(decreases_to!(*items => items[i as int]));
                    copies.push(items[i].duplicate());
                    i += 1;
                }
                proof {
                    lemma_sequence_view(*items);
                    lemma_sequence_view(copies);
                    assert(trees(copies@) =~= trees(items@));
                }
                Node::Sequence(copies)
            },
            Node::Mapping(entries) => {
                let mut copies: Vec<Entry> = Vec::new();
                let mut i: usize = 0;
                while i < entries.len()
                    invariant
                        *self == Node::Mapping(*entries),
                        i <= entries.len(),
                        copies@.len() == i,
                        forall|j: int| 0 <= j < i ==> (#[trigger] copies@[j])@ == entries@[j]@,
                    decreases entries.len() - i,
                {
                    let entry = &entries[i];
                    assert(self->Mapping_0 == *entries);
                    assert(decreases_to!(*self => self->Mapping_0));
                    assert(decreases_to!(entries[i as int] => entries[i as int].value));
                    assert(decreases_to!(*entries => entries[i as int]));
                    copies.push(Entry { key: entry.key.clone(), value: entry.value.duplicate() });
                    i += 1;
                }
                proof {
                    lemma_mapping_view(*entries);
                    lemma_mapping_view(copies);
                    assert(pairs(copies@) =~= pairs(entries@));
                }
                Node::Mapping(copies)
            },
        }
    }
}

/// Whether no chain of nested containers in `tree` is longer than `limit`.
pub open spec fn nests_within(tree: Tree, limit: nat) -> bool
    decreases limit,
{
    match tree {
        Tree::Sequence(items) => limit > 0 && forall|i: int|
            0 <= i < items.len() ==> nests_within(#[trigger] items[i], (limit - 1) as nat),
        Tree::Mapping(entries) => limit > 0 && forall|i: int|
            0 <= i < entries.len() ==> nests_within((#[trigger] entries[i]).1, (limit - 1) as nat),
        _ => true,
    }
}

impl Node {
    /// Whether the document nests containers at most `limit` deep. The
    /// check itself never descends further than `limit`, so it is safe on a
    /// document of any depth.
    pub fn nests_within(&self, limit: usize) -> (fits: bool)
        ensures
            fits == nests_within(self@, limit as nat),
        decreases limit,
    {
        match self {
            Node::Sequence(items) => {
                proof {
                    lemma_sequence_view(*items);
                }
                if limit == 0 {
                    return false;
                }
                let mut i: usize = 0;
                while i < items.len()
                    invariant
                        limit > 0,
                        i <= items.len(),
                        self@ == Tree::Sequence(trees(items@)),
                        forall|j: int|
                            0 <= j < i ==> nests_within(
                                #[trigger] trees(items@)[j],
                                (limit - 1) as nat,
                            ),
                    decreases items.len() - i,
                {
                    assert(trees(items@)[i as int] == items@[i as int]@);
                    if !items[i].nests_within(limit - 1) {
                        assert(!nests_within(
                            self@->Sequence_0[i as int],
                            (limit as nat - 1) as nat,
                        ));
                        return false;
                    }
                    i += 1;
                }
                true
            },
            Node::Mapping(entries) => {
                proof {
                    lemma_mapping_view(*entries);
                }
                if limit == 0 {
                    return false;
                }
                let mut i: usize = 0;
                while i < entries.len()
                    invariant
                        limit > 0,
                        i <= entries.len(),
                        self@ == Tree::Mapping(pairs(entries@)),
                        forall|j: int|
                            0 <= j < i ==> nests_within(
                                (#[trigger] pairs(entries@)[j]).1,
                                (limit - 1) as nat,
                            ),
                    decreases entries.len() - i,
                {
                    assert(pairs(entries@)[i as int] == entries@[i as int]@);
                    if !entries[i].value.nests_within(limit - 1) {
                        assert(!nests_within(
                            self@->Mapping_0[i as int].1,
                            (limit as nat - 1) as nat,
                        ));
                        return false;
                    }
                    i += 1;
                }
                true
            },
            _ => true,
        }
    }
}

} // verus!
