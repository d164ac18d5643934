//! The match and rewrite engine.
//!
//! `select` says which nodes a path reaches and in which order, `rebuild` says
//! what the document looks like once every reached node has been put to the
//! rewriter, and `tally` folds the rewriter's reports over the reached nodes.
//! The executable traversal is proved against these three.

use vstd::prelude::*;
use crate::node::{pairs, trees, lemma_mapping_view, lemma_sequence_view, Entry, Node, Tree};
use crate::path::{PathExpression, Selector, Step};

verus! {

/// The mathematical value of an outcome.
pub enum Rewrite {
    Unchanged,
    Replaced(Tree),
}

/// What a rewriter decides for one reached node.
#[derive(Debug, PartialEq, Eq)]
pub enum Outcome {
    /// The node stays as it is, and is not copied.
    Unchanged,
    /// The node gives way to this one.
    Replaced(Node),
}

impl View for Outcome {
    type V = Rewrite;

    open spec fn view(&self) -> Rewrite {
        match self {
            Outcome::Unchanged => Rewrite::Unchanged,
            Outcome::Replaced(node) => Rewrite::Replaced(node@),
        }
    }
}

/// A rewrite decision: a function of the reached node alone.
pub trait Rewriter {
    /// What is reported for each reached node.
    type Output;

    /// Why a decision can fail.
    type Error;

    /// The decision, as a function of the node's value.
    spec fn decision(&self, node: Tree) -> Result<(Rewrite, Self::Output), Self::Error>;

    /// Decides for one node, exactly as `decision` says.
    fn rewrite(&self, node: &Node) -> (res: Result<(Outcome, Self::Output), Self::Error>)
        ensures
            match res {
                Ok((outcome, report)) => self.decision(node@) == Ok::<
                    (Rewrite, Self::Output),
                    Self::Error,
                >((outcome@, report)),
                Err(e) => self.decision(node@) == Err::<(Rewrite, Self::Output), Self::Error>(e),
            },
    ;
}

/// Whether `i` is the position of the first entry with key `key`.
pub open spec fn first_with_key(entries: Seq<(Seq<char>, Tree)>, key: Seq<char>, i: int) -> bool {
    &&& 0 <= i < entries.len()
    &&& entries[i].0 == key
    &&& forall|j: int| 0 <= j < i ==> entries[j].0 != key
}

/// Whether some entry has key `key`.
pub open spec fn has_key(entries: Seq<(Seq<char>, Tree)>, key: Seq<char>) -> bool {
    exists|i: int| first_with_key(entries, key, i)
}

/// The position of the first entry with key `key`, where there is one.
pub open spec fn key_position(entries: Seq<(Seq<char>, Tree)>, key: Seq<char>) -> int {
    choose|i: int| first_with_key(entries, key, i)
}

/// The children that a wildcard fans out to: the items of a sequence, the
/// values of a mapping in stored order, and nothing for a scalar.
pub open spec fn children(tree: Tree) -> Seq<Tree> {
    match tree {
        Tree::Sequence(items) => items,
        Tree::Mapping(entries) => Seq::new(entries.len(), |i: int| entries[i].1),
        _ => Seq::empty(),
    }
}

/// The nodes that the steps of `path` from position `from` on reach below
/// `tree`, in traversal order.
pub open spec fn select(tree: Tree, path: Seq<Step>, from: int) -> Seq<Tree>
    decreases path.len() - from, 0int,
{
    if from < 0 || from >= path.len() {
        seq![tree]
    } else {
        match path[from] {
            Step::Root => select(tree, path, from + 1),
            Step::Key(name) => match tree {
                Tree::Mapping(entries) => if has_key(entries, name) {
                    select(entries[key_position(entries, name)].1, path, from + 1)
                } else {
                    Seq::empty()
                },
                _ => Seq::empty(),
            },
            Step::Wildcard => select_among(children(tree), children(tree).len() as int, path, from + 1),
        }
    }
}

/// The nodes reached below the first `n` of `nodes`, child by child.
pub open spec fn select_among(nodes: Seq<Tree>, n: int, path: Seq<Step>, from: int) -> Seq<Tree>
    decreases path.len() - from, 1int, n,
{
    if n <= 0 || n > nodes.len() || from < 0 || from > path.len() {
        Seq::empty()
    } else {
        select_among(nodes, n - 1, path, from) + select(nodes[n - 1], path, from)
    }
}

/// The reports gathered over a run of reached nodes.
pub struct Tally<O> {
    /// One report per node, in order.
    pub outputs: Seq<O>,
    /// Whether any node was replaced.
    pub replaced: bool,
}

/// The rewriter's decisions folded over `reached`: the first failure, or else
/// every report in order and whether anything was replaced.
pub open spec fn tally<R: Rewriter>(reached: Seq<Tree>, rewriter: R) -> Result<
    Tally<R::Output>,
    R::Error,
>
    decreases reached.len(),
{
    if reached.len() == 0 {
        Ok(Tally { outputs: Seq::empty(), replaced: false })
    } else {
        match tally(reached.drop_last(), rewriter) {
            Err(e) => Err(e),
            Ok(before) => match rewriter.decision(reached.last()) {
                Err(e) => Err(e),
                Ok((rewrite, report)) => Ok(
                    Tally {
                        outputs: before.outputs.push(report),
                        replaced: before.replaced || rewrite is Replaced,
                    },
                ),
            },
        }
    }
}

/// Two tallies one after the other.
pub open spec fn chain<O, E>(first: Result<Tally<O>, E>, second: Result<Tally<O>, E>) -> Result<
    Tally<O>,
    E,
> {
    match first {
        Err(e) => Err(e),
        Ok(a) => match second {
            Err(e) => Err(e),
            Ok(b) => Ok(
                Tally { outputs: a.outputs + b.outputs, replaced: a.replaced || b.replaced },
            ),
        },
    }
}

/// The node that stands where `tree` stood once `rewrite` is applied.
pub open spec fn applied(rewrite: Rewrite, tree: Tree) -> Tree {
    match rewrite {
        Rewrite::Unchanged => tree,
        Rewrite::Replaced(node) => node,
    }
}

/// The document after every node that the path reaches below `tree` has been
/// put to the rewriter; a failed decision leaves its node as it is.
pub open spec fn rebuild<R: Rewriter>(tree: Tree, path: Seq<Step>, from: int, rewriter: R) -> Tree
    decreases path.len() - from,
{
    if from < 0 || from >= path.len() {
        match rewriter.decision(tree) {
            Ok((rewrite, _)) => applied(rewrite, tree),
            Err(_) => tree,
        }
    } else {
        match path[from] {
            Step::Root => rebuild(tree, path, from + 1, rewriter),
            Step::Key(name) => match tree {
                Tree::Mapping(entries) => if has_key(entries, name) {
                    let at = key_position(entries, name);
                    Tree::Mapping(
                        entries.update(
                            at,
                            (entries[at].0, rebuild(entries[at].1, path, from + 1, rewriter)),
                        ),
                    )
                } else {
                    tree
                },
                _ => tree,
            },
            Step::Wildcard => match tree {
                Tree::Sequence(items) => Tree::Sequence(
                    Seq::new(items.len(), |i: int| rebuild(items[i], path, from + 1, rewriter)),
                ),
                Tree::Mapping(entries) => Tree::Mapping(
                    Seq::new(
                        entries.len(),
                        |i: int| (entries[i].0, rebuild(entries[i].1, path, from + 1, rewriter)),
                    ),
                ),
                _ => tree,
            },
        }
    }
}

/// The tally of two runs joined is the chain of their tallies.
pub proof fn lemma_tally_concat<R: Rewriter>(a: Seq<Tree>, b: Seq<Tree>, rewriter: R)
    ensures
        tally(a + b, rewriter) == chain(tally(a, rewriter), tally(b, rewriter)),
    decreases b.len(),
{
    if b.len() == 0 {
        assert(a + b =~= a);
        match tally(a, rewriter) {
            Ok(t) => {
                assert(t.outputs + Seq::<R::Output>::empty() =~= t.outputs);
            },
            Err(_) => {},
        }
    } else {
        lemma_tally_concat(a, b.drop_last(), rewriter);
        assert((a + b).drop_last() =~= a + b.drop_last());
        assert((a + b).last() == b.last());
        match (tally(a, rewriter), tally(b.drop_last(), rewriter)) {
            (Ok(ta), Ok(tb)) => {
                match rewriter.decision(b.last()) {
                    Ok((rewrite, report)) => {
                        assert((ta.outputs + tb.outputs).push(report) =~= ta.outputs
                            + tb.outputs.push(report));
                    },
                    Err(_) => {},
                }
            },
            _ => {},
        }
    }
}

/// A tally of one node is the rewriter's decision for it.
pub proof fn lemma_tally_one<R: Rewriter>(tree: Tree, rewriter: R)
    ensures
        tally(seq![tree], rewriter) == match rewriter.decision(tree) {
            Err(e) => Err::<Tally<R::Output>, R::Error>(e),
            Ok((rewrite, report)) => Ok(
                Tally { outputs: seq![report], replaced: rewrite is Replaced },
            ),
        },
{
    let one = seq![tree];
    assert(one.drop_last() =~= Seq::<Tree>::empty());
    assert(one.last() == tree);
    assert(tally(one.drop_last(), rewriter) == Ok::<Tally<R::Output>, R::Error>(
        Tally { outputs: Seq::empty(), replaced: false },
    ));
    match rewriter.decision(tree) {
        Ok((rewrite, report)) => {
            assert(Seq::<R::Output>::empty().push(report) =~= seq![report]);
        },
        Err(_) => {},
    }
}

/// Every reached node gets exactly one report, in the order in which the
/// nodes were reached, and a replacement is recorded exactly when some
/// decision replaced its node.
pub proof fn lemma_one_report_per_match<R: Rewriter>(reached: Seq<Tree>, rewriter: R)
    requires
        tally(reached, rewriter) is Ok,
    ensures
        tally(reached, rewriter)->Ok_0.outputs.len() == reached.len(),
        forall|i: int|
            0 <= i < reached.len() ==> {
                &&& (#[trigger] rewriter.decision(reached[i])) is Ok
                &&& rewriter.decision(reached[i])->Ok_0.1 == tally(
                    reached,
                    rewriter,
                )->Ok_0.outputs[i]
            },
        tally(reached, rewriter)->Ok_0.replaced <==> exists|i: int|
            0 <= i < reached.len() && (#[trigger] rewriter.decision(reached[i]))->Ok_0.0 is Replaced,
    decreases reached.len(),
{
    if reached.len() > 0 {
        let front = reached.drop_last();
        lemma_one_report_per_match(front, rewriter);
        assert forall|i: int| 0 <= i < front.len() implies front[i] == reached[i] by {}
        let whole = tally(reached, rewriter)->Ok_0;
        let before = tally(front, rewriter)->Ok_0;
        if whole.replaced {
            if before.replaced {
                let i = choose|i: int|
                    0 <= i < front.len() && (#[trigger] rewriter.decision(front[i]))->Ok_0.0 is Replaced;
                assert(rewriter.decision(reached[i])->Ok_0.0 is Replaced);
            } else {
                assert(rewriter.decision(reached[reached.len() - 1])->Ok_0.0 is Replaced);
            }
        }
        if exists|i: int|
            0 <= i < reached.len() && (#[trigger] rewriter.decision(reached[i]))->Ok_0.0 is Replaced {
            let i = choose|i: int|
                0 <= i < reached.len() && (#[trigger] rewriter.decision(
                    reached[i],
                ))->Ok_0.0 is Replaced;
            if i < front.len() {
                assert(rewriter.decision(front[i])->Ok_0.0 is Replaced);
            }
        }
    }
}

/// Once the nodes below the first `n` children hold a failure, it stays the
/// failure of the whole fan-out.
pub proof fn lemma_failure_persists<R: Rewriter>(
    nodes: Seq<Tree>,
    n: int,
    m: int,
    path: Seq<Step>,
    from: int,
    rewriter: R,
)
    requires
        0 <= n <= m <= nodes.len(),
        0 <= from <= path.len(),
        tally(select_among(nodes, n, path, from), rewriter) is Err,
    ensures
        tally(select_among(nodes, m, path, from), rewriter) == tally(
            select_among(nodes, n, path, from),
            rewriter,
        ),
    decreases m - n,
{
    if n < m {
        lemma_failure_persists(nodes, n, m - 1, path, from, rewriter);
        lemma_tally_concat(
            select_among(nodes, m - 1, path, from),
            select(nodes[m - 1], path, from),
            rewriter,
        );
    }
}

/// The first entry with a given key is at one position only.
pub proof fn lemma_first_key_unique(entries: Seq<(Seq<char>, Tree)>, key: Seq<char>, at: int)
    requires
        first_with_key(entries, key, at),
    ensures
        has_key(entries, key),
        key_position(entries, key) == at,
{
    let other = key_position(entries, key);
    assert(first_with_key(entries, key, other));
    if other < at {
        assert(entries[other].0 != key);
    }
    if at < other {
        assert(entries[at].0 != key);
    }
}

/// What a traversal of `tree` owes: the failure of the first decision that
/// failed, or else the reports appended in order, a replacement exactly when
/// some decision replaced its node, and the rebuilt node.
pub open spec fn settled<R: Rewriter>(
    tree: Tree,
    path: Seq<Step>,
    from: int,
    rewriter: R,
    before: Seq<R::Output>,
    after: Seq<R::Output>,
    res: Result<Outcome, R::Error>,
) -> bool {
    match tally(select(tree, path, from), rewriter) {
        Err(e) => res == Err::<Outcome, R::Error>(e),
        Ok(t) => {
            &&& res is Ok
            &&& after == before + t.outputs
            &&& (res->Ok_0 is Replaced <==> t.replaced)
            &&& applied(res->Ok_0@, tree) == rebuild(tree, path, from, rewriter)
        },
    }
}

/// The position of the first entry whose key is `name`.
pub fn find_key(entries: &Vec<Entry>, name: &String) -> (found: Option<usize>)
    ensures
        match found {
            Some(at) => first_with_key(pairs(entries@), name@, at as int),
            None => !has_key(pairs(entries@), name@),
        },
{
    let mut i: usize = 0;
    while i < entries.len()
        invariant
            i <= entries.len(),
            forall|j: int| 0 <= j < i ==> (#[trigger] pairs(entries@)[j]).0 != name@,
        decreases entries.len() - i,
    {
        if entries[i].key == *name {
            return Some(i);
        }
        i += 1;
    }
    assert forall|at: int| !first_with_key(pairs(entries@), name@, at) by {
        if 0 <= at < entries@.len() {
            assert(pairs(entries@)[at].0 != name@);
        }
    }
    None
}

/// Copies of the first `n` of `items`.
pub(crate) fn copy_items(items: &Vec<Node>, n: usize) -> (copies: Vec<Node>)
    requires
        n <= items@.len(),
    ensures
        copies@.len() == n,
        forall|j: int| 0 <= j < n ==> (#[trigger] copies@[j])@ == items@[j]@,
{
    let mut copies: Vec<Node> = Vec::new();
    let mut i: usize = 0;
    while i < n
        invariant
            i <= n <= items@.len(),
            copies@.len() == i,
            forall|j: int| 0 <= j < i ==> (#[trigger] copies@[j])@ == items@[j]@,
        decreases n - i,
    {
        copies.push(items[i].duplicate());
        i += 1;
    }
    copies
}

/// Copies of the first `n` of `entries`.
fn copy_entries(entries: &Vec<Entry>, n: usize) -> (copies: Vec<Entry>)
    requires
        n <= entries@.len(),
    ensures
        copies@.len() == n,
        forall|j: int| 0 <= j < n ==> (#[trigger] copies@[j])@ == entries@[j]@,
{
    let mut copies: Vec<Entry> = Vec::new();
    let mut i: usize = 0;
    while i < n
        invariant
            i <= n <= entries@.len(),
            copies@.len() == i,
            forall|j: int| 0 <= j < i ==> (#[trigger] copies@[j])@ == entries@[j]@,
        decreases n - i,
    {
        copies.push(Entry { key: entries[i].key.clone(), value: entries[i].value.duplicate() });
        i += 1;
    }
    copies
}

/// Copies of `entries`, with `value` in place of the value at `at`.
fn replace_entry(entries: &Vec<Entry>, at: usize, value: Node) -> (copies: Vec<Entry>)
    requires
        at < entries@.len(),
    ensures
        pairs(copies@) == pairs(entries@).update(at as int, (entries@[at as int].key@, value@)),
{
    let mut copies = copy_entries(entries, at);
    copies.push(Entry { key: entries[at].key.clone(), value });
    assert(at < entries.len());
    let mut i: usize = at + 1;
    while i < entries.len()
        invariant
            at < i <= entries@.len(),
            copies@.len() == i,
            forall|j: int| 0 <= j < i && j != at ==> (#[trigger] copies@[j])@ == entries@[j]@,
            copies@[at as int]@ == (entries@[at as int].key@, value@),
        decreases entries.len() - i,
    {
        copies.push(Entry { key: entries[i].key.clone(), value: entries[i].value.duplicate() });
        i += 1;
    }
    assert(pairs(copies@) =~= pairs(entries@).update(
        at as int,
        (entries@[at as int].key@, value@),
    ));
    copies
}

/// Traverses `node` with the selectors of `path` from position `from` on, puts
/// every node reached to the rewriter, appends its reports to `outputs` in
/// traversal order, and rebuilds only what lies above a replaced node.
///
/// The result is `Unchanged` exactly when no reached node was replaced; the
/// node is then not copied. A failed decision ends the traversal at once.
///
/// Every nested call consumes a selector, so the traversal descends no
/// further than the path is long, however deep the document nests. Only the
/// copies of untouched siblings of a replaced node go as deep as those
/// siblings do; `Node::nests_within` bounds that on documents taken from
/// outside.
pub fn rewrite_subtree<R: Rewriter>(
    node: &Node,
    path: &PathExpression,
    from: usize,
    rewriter: &R,
    outputs: &mut Vec<R::Output>,
) -> (res: Result<Outcome, R::Error>)
    ensures
        settled(node@, path@, from as int, *rewriter, old(outputs)@, final(outputs)@, res),
    decreases path@.len() - from, 0int,
{
    let ghost before = outputs@;
    if from >= path.selectors.len() {
        proof {
            lemma_tally_one(node@, *rewriter);
        }
        match rewriter.rewrite(node) {
            Err(e) => Err(e),
            Ok((outcome, report)) => {
                outputs.push(report);
                assert(outputs@ =~= before + seq![report]);
                Ok(outcome)
            },
        }
    } else {
        assert(path@[from as int] == path.selectors@[from as int]@);
        match &path.selectors[from] {
            Selector::Root => rewrite_subtree(node, path, from + 1, rewriter, outputs),
            Selector::Key(name) => match node {
                Node::Mapping(entries) => {
                    proof {
                        lemma_mapping_view(*entries);
                    }
                    match find_key(entries, name) {
                        None => {
                            assert(outputs@ =~= before + Seq::<R::Output>::empty());
                            Ok(Outcome::Unchanged)
                        },
                        Some(at) => {
                            proof {
                                lemma_first_key_unique(pairs(entries@), name@, at as int);
                                assert(pairs(entries@)[at as int] == entries@[at as int]@);
                            }
                            match rewrite_subtree(
                                &entries[at].value,
                                path,
                                from + 1,
                                rewriter,
                                outputs,
                            ) {
                                Err(e) => Err(e),
                                Ok(Outcome::Unchanged) => {
                                    assert(pairs(entries@).update(
                                        at as int,
                                        pairs(entries@)[at as int],
                                    ) =~= pairs(entries@));
                                    Ok(Outcome::Unchanged)
                                },
                                Ok(Outcome::Replaced(value)) => {
                                    let rebuilt = replace_entry(entries, at, value);
                                    proof {
                                        lemma_mapping_view(rebuilt);
                                    }
                                    Ok(Outcome::Replaced(Node::Mapping(rebuilt)))
                                },
                            }
                        },
                    }
                },
                _ => {
                    assert(outputs@ =~= before + Seq::<R::Output>::empty());
                    Ok(Outcome::Unchanged)
                },
            },
            Selector::Wildcard => match node {
                Node::Sequence(items) => {
                    proof {
                        lemma_sequence_view(*items);
                    }
                    rewrite_items(items, path, from + 1, rewriter, outputs)
                },
                Node::Mapping(entries) => {
                    proof {
                        lemma_mapping_view(*entries);
                    }
                    rewrite_entries(entries, path, from + 1, rewriter, outputs)
                },
                _ => {
                    assert(outputs@ =~= before + Seq::<R::Output>::empty());
                    assert(select_among(children(node@), 0, path@, from + 1) =~= Seq::<
                        Tree,
                    >::empty());
                    Ok(Outcome::Unchanged)
                },
            },
        }
    }
}

/// The wildcard's fan-out over the items of a sequence.
fn rewrite_items<R: Rewriter>(
    items: &Vec<Node>,
    path: &PathExpression,
    next: usize,
    rewriter: &R,
    outputs: &mut Vec<R::Output>,
) -> (res: Result<Outcome, R::Error>)
    requires
        1 <= next <= path@.len(),
        path@[next - 1] == Step::Wildcard,
    ensures
        settled(
            Tree::Sequence(trees(items@)),
            path@,
            next - 1,
            *rewriter,
            old(outputs)@,
            final(outputs)@,
            res,
        ),
    decreases path@.len() - next, 1int,
{
    let ghost before = outputs@;
    let ghost kids = trees(items@);
    let ghost whole = Tree::Sequence(kids);
    let mut rebuilt: Vec<Node> = Vec::new();
    let mut changed = false;
    let mut i: usize = 0;
    assert(outputs@ =~= before + Seq::<R::Output>::empty());
    while i < items.len()
        invariant
            i <= items.len(),
            kids == trees(items@),
            1 <= next <= path@.len(),
            path@[next - 1] == Step::Wildcard,
            tally(select_among(kids, i as int, path@, next as int), *rewriter) is Ok,
            outputs@ == before + tally(
                select_among(kids, i as int, path@, next as int),
                *rewriter,
            )->Ok_0.outputs,
            changed == tally(
                select_among(kids, i as int, path@, next as int),
                *rewriter,
            )->Ok_0.replaced,
            changed ==> rebuilt@.len() == i,
            !changed ==> rebuilt@.len() == 0,
            forall|j: int|
                0 <= j < i ==> rebuild(#[trigger] kids[j], path@, next as int, *rewriter) == (if changed {
                    rebuilt@[j]@
                } else {
                    kids[j]
                }),
        decreases items.len() - i,
    {
        let ghost so_far = select_among(kids, i as int, path@, next as int);
        let ghost below = select(kids[i as int], path@, next as int);
        proof {
            lemma_tally_concat(so_far, below, *rewriter);
            assert(select_among(kids, i + 1, path@, next as int) == so_far + below);
        }
        match rewrite_subtree(&items[i], path, next, rewriter, outputs) {
            Err(e) => {
                proof {
                    lemma_failure_persists(
                        kids,
                        i + 1,
                        items@.len() as int,
                        path@,
                        next as int,
                        *rewriter,
                    );
                }
                return Err(e);
            },
            Ok(outcome) => {
                proof {
                    let a = tally(so_far, *rewriter)->Ok_0.outputs;
                    let b = tally(below, *rewriter)->Ok_0.outputs;
                    assert(before + a + b =~= before + (a + b));
                }
                match outcome {
                    Outcome::Unchanged => {
                        if changed {
                            rebuilt.push(items[i].duplicate());
                        }
                    },
                    Outcome::Replaced(node) => {
                        if !changed {
                            rebuilt = copy_items(items, i);
                            changed = true;
                        }
                        rebuilt.push(node);
                    },
                }
            },
        }
        i += 1;
    }
    let ghost target = rebuild(whole, path@, next - 1, *rewriter);
    assert(target is Sequence);
    if changed {
        proof {
            lemma_sequence_view(rebuilt);
            assert(target->Sequence_0 =~= trees(rebuilt@));
        }
        Ok(Outcome::Replaced(Node::Sequence(rebuilt)))
    } else {
        assert(target->Sequence_0 =~= kids);
        Ok(Outcome::Unchanged)
    }
}

/// The wildcard's fan-out over the values of a mapping, in stored order.
fn rewrite_entries<R: Rewriter>(
    entries: &Vec<Entry>,
    path: &PathExpression,
    next: usize,
    rewriter: &R,
    outputs: &mut Vec<R::Output>,
) -> (res: Result<Outcome, R::Error>)
    requires
        1 <= next <= path@.len(),
        path@[next - 1] == Step::Wildcard,
    ensures
        settled(
            Tree::Mapping(pairs(entries@)),
            path@,
            next - 1,
            *rewriter,
            old(outputs)@,
            final(outputs)@,
            res,
        ),
    decreases path@.len() - next, 1int,
{
    let ghost before = outputs@;
    let ghost whole = Tree::Mapping(pairs(entries@));
    let ghost kids = children(whole);
    let mut rebuilt: Vec<Entry> = Vec::new();
    let mut changed = false;
    let mut i: usize = 0;
    assert(outputs@ =~= before + Seq::<R::Output>::empty());
    while i < entries.len()
        invariant
            i <= entries.len(),
            kids == children(Tree::Mapping(pairs(entries@))),
            kids.len() == entries@.len(),
            1 <= next <= path@.len(),
            path@[next - 1] == Step::Wildcard,
            tally(select_among(kids, i as int, path@, next as int), *rewriter) is Ok,
            outputs@ == before + tally(
                select_among(kids, i as int, path@, next as int),
                *rewriter,
            )->Ok_0.outputs,
            changed == tally(
                select_among(kids, i as int, path@, next as int),
                *rewriter,
            )->Ok_0.replaced,
            changed ==> rebuilt@.len() == i,
            !changed ==> rebuilt@.len() == 0,
            forall|j: int|
                0 <= j < i ==> rebuild(#[trigger] kids[j], path@, next as int, *rewriter) == (if changed {
                    rebuilt@[j].value@
                } else {
                    kids[j]
                }),
            forall|j: int| 0 <= j < i && changed ==> (#[trigger] rebuilt@[j]).key@ == entries@[j].key@,
        decreases entries.len() - i,
    {
        let ghost so_far = select_among(kids, i as int, path@, next as int);
        let ghost below = select(kids[i as int], path@, next as int);
        proof {
            lemma_tally_concat(so_far, below, *rewriter);
            assert(select_among(kids, i + 1, path@, next as int) == so_far + below);
            assert(kids[i as int] == entries@[i as int].value@);
        }
        match rewrite_subtree(&entries[i].value, path, next, rewriter, outputs) {
            Err(e) => {
                proof {
                    lemma_failure_persists(
                        kids,
                        i + 1,
                        entries@.len() as int,
                        path@,
                        next as int,
                        *rewriter,
                    );
                }
                return Err(e);
            },
            Ok(outcome) => {
                proof {
                    let a = tally(so_far, *rewriter)->Ok_0.outputs;
                    let b = tally(below, *rewriter)->Ok_0.outputs;
                    assert(before + a + b =~= before + (a + b));
                }
                match outcome {
                    Outcome::Unchanged => {
                        if changed {
                            rebuilt.push(
                                Entry {
                                    key: entries[i].key.clone(),
                                    value: entries[i].value.duplicate(),
                                },
                            );
                        }
                    },
                    Outcome::Replaced(node) => {
                        if !changed {
                            rebuilt = copy_entries(entries, i);
                            changed = true;
                        }
                        rebuilt.push(Entry { key: entries[i].key.clone(), value: node });
                    },
                }
            },
        }
        i += 1;
    }
    let ghost target = rebuild(whole, path@, next - 1, *rewriter);
    assert(target is Mapping);
    if changed {
        proof {
            lemma_mapping_view(rebuilt);
            assert forall|j: int| 0 <= j < entries@.len() implies target->Mapping_0[j] == pairs(
                rebuilt@,
            )[j] by {
                assert(kids[j] == pairs(entries@)[j].1);
                assert(rebuilt@[j].key@ == entries@[j].key@);
            }
            assert(target->Mapping_0 =~= pairs(rebuilt@));
        }
        Ok(Outcome::Replaced(Node::Mapping(rebuilt)))
    } else {
        assert forall|j: int| 0 <= j < entries@.len() implies target->Mapping_0[j] == pairs(
            entries@,
        )[j] by {
            assert(kids[j] == pairs(entries@)[j].1);
        }
        assert(target->Mapping_0 =~= pairs(entries@));
        Ok(Outcome::Unchanged)
    }
}

/// What a write hands back: the new document, if the path reached anything,
/// and one report per reached node in traversal order.
#[derive(Debug)]
pub struct Written<O> {
    /// `None` where the path reached nothing: there is nothing to store.
    pub document: Option<Node>,
    pub outputs: Vec<O>,
}

/// Puts every node of `document` that `path` reaches to `rewriter` and returns
/// the rebuilt document with the reports.
///
/// The input is never changed. Where the path reaches nothing the document is
/// `None` and there are no reports; where it reaches something the document is
/// present even if every decision kept its node. The first failed decision is
/// returned as it is, and nothing else.
pub fn write<R: Rewriter>(document: &Node, path: &PathExpression, rewriter: &R) -> (res: Result<
    Written<R::Output>,
    R::Error,
>)
    ensures
        match tally(select(document@, path@, 0), *rewriter) {
            Err(e) => res is Err && res->Err_0 == e,
            Ok(t) => {
                &&& res is Ok
                &&& res->Ok_0.outputs@ == t.outputs
                &&& match res->Ok_0.document {
                    None => select(document@, path@, 0).len() == 0,
                    Some(rebuilt) => {
                        &&& select(document@, path@, 0).len() > 0
                        &&& rebuilt@ == rebuild(document@, path@, 0, *rewriter)
                    },
                }
            },
        },
        select(document@, path@, 0).len() == 0 ==> {
            &&& res is Ok
            &&& res->Ok_0.document is None
            &&& res->Ok_0.outputs@.len() == 0
        },
{
    let mut outputs: Vec<R::Output> = Vec::new();
    let ghost reached = select(document@, path@, 0);
    match rewrite_subtree(document, path, 0, rewriter, &mut outputs) {
        Err(e) => Err(e),
        Ok(outcome) => {
            proof {
                lemma_one_report_per_match(reached, *rewriter);
                assert(outputs@ =~= tally(reached, *rewriter)->Ok_0.outputs);
            }
            if outputs.len() == 0 {
                Ok(Written { document: None, outputs })
            } else {
                let rebuilt = match outcome {
                    Outcome::Replaced(node) => node,
                    Outcome::Unchanged => document.duplicate(),
                };
                Ok(Written { document: Some(rebuilt), outputs })
            }
        },
    }
}

/// Where nothing is reached below the first `n` children, nothing is reached
/// below any one of them.
pub proof fn lemma_none_among(nodes: Seq<Tree>, n: int, path: Seq<Step>, from: int, j: int)
    requires
        0 <= j < n <= nodes.len(),
        0 <= from <= path.len(),
        select_among(nodes, n, path, from).len() == 0,
    ensures
        select(nodes[j], path, from).len() == 0,
    decreases n,
{
    if j < n - 1 {
        lemma_none_among(nodes, n - 1, path, from, j);
    }
}

/// A subtree below which the path reaches nothing is rebuilt as itself.
pub proof fn lemma_untouched_subtree_is_kept<R: Rewriter>(
    tree: Tree,
    path: Seq<Step>,
    from: int,
    rewriter: R,
)
    requires
        0 <= from,
        select(tree, path, from).len() == 0,
    ensures
        rebuild(tree, path, from, rewriter) == tree,
    decreases path.len() - from,
{
    if from < path.len() {
        match path[from] {
            Step::Root => {
                lemma_untouched_subtree_is_kept(tree, path, from + 1, rewriter);
            },
            Step::Key(name) => {
                match tree {
                    Tree::Mapping(entries) => {
                        if has_key(entries, name) {
                            let at = key_position(entries, name);
                            lemma_untouched_subtree_is_kept(entries[at].1, path, from + 1, rewriter);
                            assert(entries.update(at, entries[at]) =~= entries);
                        }
                    },
                    _ => {},
                }
            },
            Step::Wildcard => {
                let kids = children(tree);
                assert forall|j: int| 0 <= j < kids.len() implies rebuild(
                    #[trigger] kids[j],
                    path,
                    from + 1,
                    rewriter,
                ) == kids[j] by {
                    lemma_none_among(kids, kids.len() as int, path, from + 1, j);
                    lemma_untouched_subtree_is_kept(kids[j], path, from + 1, rewriter);
                }
                let target = rebuild(tree, path, from, rewriter);
                match tree {
                    Tree::Sequence(items) => {
                        assert(target->Sequence_0 =~= items);
                    },
                    Tree::Mapping(entries) => {
                        assert forall|j: int| 0 <= j < entries.len() implies target->Mapping_0[j]
                            == entries[j] by {
                            assert(kids[j] == entries[j].1);
                        }
                        assert(target->Mapping_0 =~= entries);
                    },
                    _ => {},
                }
            },
        }
    }
}

/// A rewriter whose decisions never fail never fails a traversal.
pub proof fn lemma_total_rewriter_never_fails<R: Rewriter>(reached: Seq<Tree>, rewriter: R)
    requires
        forall|tree: Tree| (#[trigger] rewriter.decision(tree)) is Ok,
    ensures
        tally(reached, rewriter) is Ok,
    decreases reached.len(),
{
    if reached.len() > 0 {
        lemma_total_rewriter_never_fails(reached.drop_last(), rewriter);
        assert(rewriter.decision(reached.last()) is Ok);
    }
}

/// The nodes reached through the first `n` children by a path that ends
/// there are those children themselves, in their order.
pub proof fn lemma_among_at_end(nodes: Seq<Tree>, n: int, path: Seq<Step>)
    requires
        0 <= n <= nodes.len(),
    ensures
        select_among(nodes, n, path, path.len() as int) == nodes.subrange(0, n),
    decreases n,
{
    if n > 0 {
        lemma_among_at_end(nodes, n - 1, path);
        assert(select(nodes[n - 1], path, path.len() as int) == seq![nodes[n - 1]]);
        assert(nodes.subrange(0, n - 1) + seq![nodes[n - 1]] =~= nodes.subrange(0, n));
    } else {
        assert(select_among(nodes, n, path, path.len() as int) =~= nodes.subrange(0, 0));
    }
}

/// A wildcard as the last selector reaches every item of a sequence in
/// index order, every value of a mapping in stored order, and nothing of a
/// scalar.
pub proof fn lemma_wildcard_reaches_children(tree: Tree, path: Seq<Step>, from: int)
    requires
        0 <= from,
        from + 1 == path.len(),
        path[from] == Step::Wildcard,
    ensures
        select(tree, path, from) == children(tree),
{
    let kids = children(tree);
    lemma_among_at_end(kids, kids.len() as int, path);
    assert(kids.subrange(0, kids.len() as int) =~= kids);
}

} // verus!
