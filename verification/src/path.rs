//! Path expressions: chains of selectors applied left to right.

use vstd::prelude::*;
use crate::node::{lemma_mapping_view, lemma_sequence_view, pairs, trees, Node, Tree};

verus! {

/// The mathematical value of a selector.
pub enum Step {
    Root,
    Key(Seq<char>),
    Wildcard,
}

/// One step of a path expression.
#[derive(Debug, PartialEq, Eq)]
pub enum Selector {
    /// Selects the node it is applied to; stands first in a path.
    Root,
    /// Selects the value of the first entry of a mapping that has this key.
    Key(String),
    /// Selects every item of a sequence, or every value of a mapping.
    Wildcard,
}

impl View for Selector {
    type V = Step;

    open spec fn view(&self) -> Step {
        match self {
            Selector::Root => Step::Root,
            Selector::Key(name) => Step::Key(name@),
            Selector::Wildcard => Step::Wildcard,
        }
    }
}

/// A compiled path: a root selector followed by keys and wildcards.
#[derive(Debug, PartialEq, Eq)]
pub struct PathExpression {
    pub selectors: Vec<Selector>,
}

impl View for PathExpression {
    type V = Seq<Step>;

    open spec fn view(&self) -> Seq<Step> {
        Seq::new(self.selectors@.len(), |i: int| self.selectors@[i]@)
    }
}

/// A chain of steps is rooted when it starts with the root and names it nowhere else.
pub open spec fn rooted(steps: Seq<Step>) -> bool {
    &&& steps.len() >= 1
    &&& steps[0] == Step::Root
    &&& forall|i: int| 1 <= i < steps.len() ==> steps[i] != Step::Root
}

impl PathExpression {
    /// Whether the path starts at the root and names it nowhere else.
    pub open spec fn well_formed(&self) -> bool {
        rooted(self@)
    }

    /// The path that selects the whole document.
    pub fn root() -> (path: PathExpression)
        ensures
            path@ == seq![Step::Root],
            path.well_formed(),
    {
        let mut selectors: Vec<Selector> = Vec::new();
        selectors.push(Selector::Root);
        let path = PathExpression { selectors };
        assert(path@ =~= seq![Step::Root]);
        path
    }

    /// This path followed by a lookup of `name`.
    pub fn key(self, name: &str) -> (path: PathExpression)
        ensures
            path@ == self@.push(Step::Key(name@)),
            self.well_formed() ==> path.well_formed(),
    {
        let mut selectors = self.selectors;
        selectors.push(Selector::Key(name.to_owned()));
        let path = PathExpression { selectors };
        assert(path@ =~= self@.push(Step::Key(name@)));
        path
    }

    /// This path followed by a wildcard.
    pub fn wildcard(self) -> (path: PathExpression)
        ensures
            path@ == self@.push(Step::Wildcard),
            self.well_formed() ==> path.well_formed(),
    {
        let mut selectors = self.selectors;
        selectors.push(Selector::Wildcard);
        let path = PathExpression { selectors };
        assert(path@ =~= self@.push(Step::Wildcard));
        path
    }

    /// The number of selectors, the root included.
    pub fn len(&self) -> (n: usize)
        ensures
            n == self@.len(),
    {
        self.selectors.len()
    }
}

/// Why an expression is not a path.
#[derive(Debug, Clone, Copy, PartialEq, Eq)]
pub enum PathSyntaxError {
    /// The expression is a sequence without items.
    Empty,
    /// The expression does not start with the root name `$`.
    MissingRoot,
    /// An item after the root is neither a key nor a wildcard.
    UnknownSelector,
}

/// The step that an item of a path expression stands for: a text is a key,
/// a mapping with the one entry `"*": 1` is the wildcard.
pub open spec fn step_of(item: Tree) -> Option<Step> {
    match item {
        Tree::Text(name) => Some(Step::Key(name)),
        Tree::Mapping(entries) => if entries.len() == 1 && entries[0] == ("*"@, Tree::Integer(1)) {
            Some(Step::Wildcard)
        } else {
            None
        },
        _ => None,
    }
}

/// What an expression compiles to. A path is written as the text `$`, or as
/// a sequence that starts with the text `$` and goes on with selectors.
pub open spec fn compiled(expression: Tree) -> Result<Seq<Step>, PathSyntaxError> {
    match expression {
        Tree::Text(name) => if name == "$"@ {
            Ok(seq![Step::Root])
        } else {
            Err(PathSyntaxError::MissingRoot)
        },
        Tree::Sequence(items) => if items.len() == 0 {
            Err(PathSyntaxError::Empty)
        } else if items[0] != Tree::Text("$"@) {
            Err(PathSyntaxError::MissingRoot)
        } else if exists|i: int| 1 <= i < items.len() && (#[trigger] step_of(items[i])) is None {
            Err(PathSyntaxError::UnknownSelector)
        } else {
            Ok(
                Seq::new(
                    items.len(),
                    |i: int|
                        if i == 0 {
                            Step::Root
                        } else {
                            step_of(items[i])->Some_0
                        },
                ),
            )
        },
        _ => Err(PathSyntaxError::MissingRoot),
    }
}

/// Whether `name` is the text `text`.
fn is_text(name: &String, text: &str) -> (same: bool)
    ensures
        same == (name@ == text@),
{
    let other = text.to_owned();
    *name == other
}

/// The selector that an item of a path expression stands for.
pub fn selector_of(item: &Node) -> (selector: Option<Selector>)
    ensures
        match selector {
            Some(s) => step_of(item@) == Some(s@),
            None => step_of(item@) is None,
        },
{
    match item {
        Node::Text(name) => Some(Selector::Key(name.clone())),
        Node::Mapping(entries) => {
            proof {
                lemma_mapping_view(*entries);
            }
            if entries.len() != 1 {
                return None;
            }
            assert(pairs(entries@)[0] == entries@[0]@);
            if !is_text(&entries[0].key, "*") {
                return None;
            }
            match &entries[0].value {
                Node::Integer(n) => if *n == 1 {
                    Some(Selector::Wildcard)
                } else {
                    None
                },
                _ => None,
            }
        },
        _ => None,
    }
}

/// Compiles a path expression.
///
/// Fails on a sequence without items, on an expression that does not start
/// with the root name, and on an item that is no selector. A compiled path
/// starts at the root and names it nowhere else.
pub fn compile(expression: &Node) -> (res: Result<PathExpression, PathSyntaxError>)
    ensures
        match compiled(expression@) {
            Ok(steps) => res is Ok && res->Ok_0@ == steps && res->Ok_0.well_formed(),
            Err(e) => res is Err && res->Err_0 == e,
        },
{
    match expression {
        Node::Text(name) => {
            if is_text(name, "$") {
                Ok(PathExpression::root())
            } else {
                Err(PathSyntaxError::MissingRoot)
            }
        },
        Node::Sequence(items) => {
            proof {
                lemma_sequence_view(*items);
            }
            if items.len() == 0 {
                return Err(PathSyntaxError::Empty);
            }
            assert(trees(items@)[0] == items@[0]@);
            let rooted_at_first = match &items[0] {
                Node::Text(name) => is_text(name, "$"),
                _ => false,
            };
            if !rooted_at_first {
                return Err(PathSyntaxError::MissingRoot);
            }
            let mut selectors: Vec<Selector> = Vec::new();
            selectors.push(Selector::Root);
            let mut i: usize = 1;
            while i < items.len()
                invariant
                    1 <= i <= items.len(),
                    expression@ == Tree::Sequence(trees(items@)),
                    trees(items@)[0] == Tree::Text("$"@),
                    selectors@.len() == i,
                    selectors@[0]@ == Step::Root,
                    forall|j: int|
                        1 <= j < i ==> (#[trigger] step_of(trees(items@)[j])) == Some(
                            selectors@[j]@,
                        ),
                decreases items.len() - i,
            {
                assert(trees(items@)[i as int] == items@[i as int]@);
                match selector_of(&items[i]) {
                    None => {
                        assert(step_of(trees(items@)[i as int]) is None);
                        return Err(PathSyntaxError::UnknownSelector);
                    },
                    Some(selector) => {
                        selectors.push(selector);
                    },
                }
                i += 1;
            }
            let path = PathExpression { selectors };
            proof {
                let steps = compiled(expression@)->Ok_0;
                assert(compiled(expression@) is Ok);
                assert(path@ =~= steps);
                assert forall|j: int| 1 <= j < path@.len() implies path@[j] != Step::Root by {
                    assert(step_of(trees(items@)[j]) == Some(path@[j]));
                }
            }
            Ok(path)
        },
        _ => Err(PathSyntaxError::MissingRoot),
    }
}

} // verus!
