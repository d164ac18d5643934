//! Appending values to every sequence that a path reaches.

use vstd::prelude::*;
use crate::engine::{
    copy_items, lemma_one_report_per_match, lemma_total_rewriter_never_fails, rebuild, select,
    tally, Outcome, Rewrite, Rewriter,
};
use crate::node::{lemma_sequence_view, trees, Node, Tree};
use crate::path::PathExpression;

verus! {

/// What is reported for one reached node.
#[derive(Debug, Clone, Copy, PartialEq, Eq)]
pub enum AppendResult {
    /// The node is not a sequence and was left as it is.
    Null,
    /// The node is a sequence; this is its length after the append.
    Length(u64),
}

/// The failure of an append decision. No decision ever returns it.
#[derive(Debug, Clone, Copy, PartialEq, Eq)]
pub struct AppendFailure;

/// The rewrite decision that extends sequences by `values`.
pub struct ArrayAppend {
    pub values: Vec<Node>,
}

/// The report for a reached node when `count` values are appended.
pub open spec fn append_report(node: Tree, count: nat) -> AppendResult {
    match node {
        Tree::Sequence(items) => AppendResult::Length((items.len() + count) as u64),
        _ => AppendResult::Null,
    }
}

/// The decision for a reached node when `values` are appended: a sequence
/// gives way to its items followed by `values`, anything else stays.
pub open spec fn append_rewrite(node: Tree, values: Seq<Tree>) -> Rewrite {
    match node {
        Tree::Sequence(items) => Rewrite::Replaced(Tree::Sequence(items + values)),
        _ => Rewrite::Unchanged,
    }
}

impl Rewriter for ArrayAppend {
    type Output = AppendResult;

    type Error = AppendFailure;

    open spec fn decision(&self, node: Tree) -> Result<(Rewrite, AppendResult), AppendFailure> {
        Ok((append_rewrite(node, trees(self.values@)), append_report(node, self.values@.len())))
    }

    fn rewrite(&self, node: &Node) -> (res: Result<(Outcome, AppendResult), AppendFailure>) {
        match node {
            Node::Sequence(items) => {
                let mut combined = copy_items(items, items.len());
                let mut i: usize = 0;
                while i < self.values.len()
                    invariant
                        i <= self.values@.len(),
                        combined@.len() == items@.len() + i,
                        forall|j: int|
                            0 <= j < items@.len() ==> (#[trigger] combined@[j])@ == items@[j]@,
                        forall|k: int|
                            items@.len() <= k < items@.len() + i ==> (#[trigger] combined@[k])@
                                == self.values@[k - items@.len()]@,
                    decreases self.values.len() - i,
                {
                    combined.push(self.values[i].duplicate());
                    i += 1;
                }
                let size = combined.len() as u64;
                proof {
                    lemma_sequence_view(*items);
                    lemma_sequence_view(combined);
                    assert(trees(combined@) =~= trees(items@) + trees(self.values@));
                }
                Ok((Outcome::Replaced(Node::Sequence(combined)), AppendResult::Length(size)))
            },
            _ => Ok((Outcome::Unchanged, AppendResult::Null)),
        }
    }
}

/// Appends `values`, in the order given, to every sequence that `path`
/// reaches in `existing`.
///
/// Returns the new document, or `None` where the path reaches nothing, and
/// one report per reached node in traversal order: the new length of a
/// sequence, `Null` for anything else.
pub fn array_append(existing: &Node, path: &PathExpression, values: Vec<Node>) -> (res: (
    Option<Node>,
    Vec<AppendResult>,
))
    ensures
        res.1@ == Seq::new(
            select(existing@, path@, 0).len(),
            |i: int| append_report(select(existing@, path@, 0)[i], values@.len()),
        ),
        match res.0 {
            None => select(existing@, path@, 0).len() == 0,
            Some(document) => {
                &&& select(existing@, path@, 0).len() > 0
                &&& document@ == rebuild(existing@, path@, 0, ArrayAppend { values })
            },
        },
{
    let policy = ArrayAppend { values };
    let ghost reached = select(existing@, path@, 0);
    proof {
        lemma_total_rewriter_never_fails(reached, policy);
        lemma_one_report_per_match(reached, policy);
    }
    match crate::engine::write(existing, path, &policy) {
        Ok(written) => {
            assert forall|i: int| 0 <= i < reached.len() implies written.outputs@[i]
                == append_report(reached[i], values@.len()) by {
                assert(policy.decision(reached[i]) is Ok);
            }
            assert(written.outputs@ =~= Seq::new(
                reached.len(),
                |i: int| append_report(reached[i], values@.len()),
            ));
            (written.document, written.outputs)
        },
        Err(_) => vstd::pervasive::unreached(),
    }
}

/// Why an append command is refused.
#[derive(Debug, Clone, Copy, PartialEq, Eq)]
pub enum CommandError {
    /// No value to append was given.
    WrongArity,
    /// Nothing is stored under the key.
    KeyNotFound,
}

/// What an append command leaves to its caller.
#[derive(Debug)]
pub struct AppendReply {
    /// The document to store, or `None` where nothing is to be stored and
    /// nobody to be told of a change.
    pub store: Option<Node>,
    /// One report per reached node, in traversal order.
    pub sizes: Vec<AppendResult>,
}

/// The append command on what was found under its key.
///
/// With no value the command is refused before anything else is looked at;
/// with no stored document it is refused next. Otherwise the values are
/// appended as `array_append` says.
pub fn cbor_arr_append(stored: Option<&Node>, path: &PathExpression, values: Vec<Node>) -> (res:
    Result<AppendReply, CommandError>)
    ensures
        values@.len() == 0 ==> res is Err && res->Err_0 == CommandError::WrongArity,
        values@.len() > 0 && stored is None ==> res is Err && res->Err_0
            == CommandError::KeyNotFound,
        values@.len() > 0 && stored is Some ==> {
            &&& res is Ok
            &&& res->Ok_0.sizes@ == Seq::new(
                select(stored->Some_0@, path@, 0).len(),
                |i: int| append_report(select(stored->Some_0@, path@, 0)[i], values@.len()),
            )
            &&& match res->Ok_0.store {
                None => select(stored->Some_0@, path@, 0).len() == 0,
                Some(document) => {
                    &&& select(stored->Some_0@, path@, 0).len() > 0
                    &&& document@ == rebuild(stored->Some_0@, path@, 0, ArrayAppend { values })
                },
            }
        },
{
    if values.len() == 0 {
        return Err(CommandError::WrongArity);
    }
    match stored {
        None => Err(CommandError::KeyNotFound),
        Some(existing) => {
            let (store, sizes) = array_append(existing, path, values);
            Ok(AppendReply { store, sizes })
        },
    }
}

} // verus!
