//! What holds of every planned order of transformations.

use crate::collections::SignatureView;
use crate::schedule::{
    can_plan, depth, lemma_planned, lemma_planned_is, lemma_planned_step, marking, planned,
    planned_within, Planned,
};
use crate::transformations::{TransformationView, TreeView};
use vstd::prelude::*;

verus! {

/// Whether one of `steps` makes the collection `signature`.
pub open spec fn makes(steps: Seq<TransformationView>, signature: SignatureView) -> bool {
    exists|i: int| 0 <= i < steps.len() && #[trigger] steps[i].signature() == signature
}

/// Whether no two of `steps` make the same collection.
pub open spec fn makes_nothing_twice(steps: Seq<TransformationView>) -> bool {
    forall|i: int, j: int|
        0 <= i < j < steps.len() ==> #[trigger] steps[i].signature()
            != #[trigger] steps[j].signature()
}

pub(crate) proof fn lemma_makes_add(
    first: Seq<TransformationView>,
    second: Seq<TransformationView>,
    signature: SignatureView,
)
    ensures
        makes(first + second, signature) <==> makes(first, signature) || makes(second, signature),
{
    let all = first + second;
    if makes(first, signature) {
        let i = choose|i: int| 0 <= i < first.len() && #[trigger] first[i].signature() == signature;
        assert(all[i].signature() == signature);
    }
    if makes(second, signature) {
        let i = choose|i: int|
            0 <= i < second.len() && #[trigger] second[i].signature() == signature;
        assert(all[first.len() + i].signature() == signature);
    }
    if makes(all, signature) {
        let i = choose|i: int| 0 <= i < all.len() && #[trigger] all[i].signature() == signature;
        if i < first.len() {
            assert(first[i].signature() == signature);
        } else {
            assert(second[i - first.len()].signature() == signature);
        }
    }
}

proof fn lemma_makes_one(step: TransformationView, signature: SignatureView)
    ensures
        makes(seq![step], signature) <==> step.signature() == signature,
{
    assert(seq![step][0] == step);
}

/// Under sharing: what is made was neither seen nor lent, and nothing is made twice.
spec fn fresh(
    outcome: Planned,
    lent: Set<SignatureView>,
    seen: Set<SignatureView>,
) -> bool {
    &&& forall|s: SignatureView|
        #[trigger] outcome.seen.contains(s) <==> seen.contains(s) || makes(outcome.steps, s)
    &&& forall|s: SignatureView| #[trigger]
        makes(outcome.steps, s) ==> !seen.contains(s) && !lent.contains(s)
    &&& makes_nothing_twice(outcome.steps)
}

proof fn lemma_fresh_within(
    tree: TreeView,
    root: TransformationView,
    lent: Set<SignatureView>,
    seen: Set<SignatureView>,
    fuel: nat,
)
    requires
        planned_within(tree, root, lent, seen, true, fuel) is Some,
    ensures
        fresh(planned_within(tree, root, lent, seen, true, fuel)->0, lent, seen),
    decreases fuel,
{
    let outcome = planned_within(tree, root, lent, seen, true, fuel)->0;
    let own = root.signature();
    let marked = seen.insert(own);
    if lent.contains(own) || seen.contains(own) {
        assert forall|s: SignatureView| !#[trigger] makes(outcome.steps, s) by {}
    } else if !tree.contains_key(root) {
        assert forall|s: SignatureView| #[trigger] makes(outcome.steps, s) <==> s == own by {
            lemma_makes_one(root, s);
        }
    } else {
        let less = (fuel - 1) as nat;
        let left = planned_within(tree, tree[root].0, lent, marked, true, less)->0;
        let right = planned_within(tree, tree[root].1, lent, left.seen, true, less)->0;
        lemma_fresh_within(tree, tree[root].0, lent, marked, less);
        lemma_fresh_within(tree, tree[root].1, lent, left.seen, less);
        assert forall|s: SignatureView| #[trigger]
            makes(outcome.steps, s) <==> makes(left.steps, s) || makes(right.steps, s) || s
                == own by {
            lemma_makes_add(left.steps + right.steps, seq![root], s);
            lemma_makes_add(left.steps, right.steps, s);
            lemma_makes_one(root, s);
        }
        assert forall|i: int, j: int|
            0 <= i < j < outcome.steps.len() implies #[trigger] outcome.steps[i].signature()
            != #[trigger] outcome.steps[j].signature() by {
            let l = left.steps.len();
            let r = right.steps.len();
            if i < l {
                assert(outcome.steps[i] == left.steps[i]);
                assert(makes(left.steps, left.steps[i].signature()));
            } else if i < l + r {
                assert(outcome.steps[i] == right.steps[i - l]);
                assert(makes(right.steps, right.steps[i - l].signature()));
            }
            if j < l {
                assert(outcome.steps[j] == left.steps[j]);
            } else if j < l + r {
                assert(outcome.steps[j] == right.steps[j - l]);
                assert(makes(right.steps, right.steps[j - l].signature()));
            } else {
                assert(outcome.steps[j] == root);
            }
        }
    }
}

/// With sharing, a plan makes only collections that were neither seen nor lent, makes none of them
/// twice, and has seen afterwards what it had seen before and what it makes.
pub proof fn law_sharing_makes_each_once(
    tree: TreeView,
    root: TransformationView,
    lent: Set<SignatureView>,
    seen: Set<SignatureView>,
)
    requires
        can_plan(tree, root, true),
    ensures
        ({
            let outcome = planned(tree, root, lent, seen, true);
            &&& makes_nothing_twice(outcome.steps)
            &&& forall|s: SignatureView| #[trigger]
                makes(outcome.steps, s) ==> !seen.contains(s) && !lent.contains(s)
            &&& forall|s: SignatureView| #[trigger]
                outcome.seen.contains(s) <==> seen.contains(s) || makes(outcome.steps, s)
        }),
{
    lemma_planned(tree, root, lent, seen, true);
    lemma_fresh_within(tree, root, lent, seen, depth(tree, root, lent, seen, true));
}

/// Whether `step` is `root` or one of the two inputs of a transformation in the tree.
pub open spec fn is_from(
    tree: TreeView,
    root: TransformationView,
    step: TransformationView,
) -> bool {
    step == root || exists|node: TransformationView| #[trigger]
        tree.contains_key(node) && (tree[node].0 == step || tree[node].1 == step)
}

proof fn lemma_from_within(
    tree: TreeView,
    root: TransformationView,
    lent: Set<SignatureView>,
    seen: Set<SignatureView>,
    sharing: bool,
    fuel: nat,
)
    requires
        planned_within(tree, root, lent, seen, sharing, fuel) is Some,
    ensures
        ({
            let steps = planned_within(tree, root, lent, seen, sharing, fuel)->0.steps;
            forall|i: int| 0 <= i < steps.len() ==> is_from(tree, root, #[trigger] steps[i])
        }),
    decreases fuel,
{
    let steps = planned_within(tree, root, lent, seen, sharing, fuel)->0.steps;
    let marked = marking(seen, root.signature(), sharing);
    if tree.contains_key(root) && !(sharing && (lent.contains(root.signature()) || seen.contains(
        root.signature(),
    ))) {
        let less = (fuel - 1) as nat;
        let left = planned_within(tree, tree[root].0, lent, marked, sharing, less)->0;
        let right = planned_within(tree, tree[root].1, lent, left.seen, sharing, less)->0;
        lemma_from_within(tree, tree[root].0, lent, marked, sharing, less);
        lemma_from_within(tree, tree[root].1, lent, left.seen, sharing, less);
        assert forall|i: int| 0 <= i < steps.len() implies is_from(
            tree,
            root,
            #[trigger] steps[i],
        ) by {
            let l = left.steps.len();
            let r = right.steps.len();
            if i < l {
                assert(steps[i] == left.steps[i]);
            } else if i < l + r {
                assert(steps[i] == right.steps[i - l]);
            } else {
                assert(steps[i] == root);
            }
        }
    }
}

/// A plan carries out nothing but the transformation that was to be planned and transformations
/// that the tree has as inputs of others.
pub proof fn law_steps_come_from_the_tree(
    tree: TreeView,
    root: TransformationView,
    lent: Set<SignatureView>,
    seen: Set<SignatureView>,
    sharing: bool,
)
    requires
        can_plan(tree, root, sharing),
    ensures
        ({
            let steps = planned(tree, root, lent, seen, sharing).steps;
            forall|i: int| 0 <= i < steps.len() ==> is_from(tree, root, #[trigger] steps[i])
        }),
{
    lemma_planned(tree, root, lent, seen, sharing);
    lemma_from_within(tree, root, lent, seen, sharing, depth(tree, root, lent, seen, sharing));
}

/// A plan ends with the transformation that was to be planned. It is empty only where the output
/// of that was seen or lent.
pub proof fn law_root_comes_last(
    tree: TreeView,
    root: TransformationView,
    lent: Set<SignatureView>,
    seen: Set<SignatureView>,
    sharing: bool,
)
    requires
        can_plan(tree, root, sharing),
    ensures
        ({
            let steps = planned(tree, root, lent, seen, sharing).steps;
            &&& steps.len() == 0 <==> sharing && (lent.contains(root.signature())
                || seen.contains(root.signature()))
            &&& steps.len() > 0 ==> steps.last() == root
        }),
{
    lemma_planned(tree, root, lent, seen, sharing);
}

/// Without sharing: both inputs of each step that has them in the tree are steps before it.
pub open spec fn inputs_precede(tree: TreeView, steps: Seq<TransformationView>) -> bool {
    forall|i: int|
        #![trigger steps[i]]
        0 <= i < steps.len() && tree.contains_key(steps[i]) ==> {
            &&& steps.take(i).contains(tree[steps[i]].0)
            &&& steps.take(i).contains(tree[steps[i]].1)
        }
}

proof fn lemma_unshared_within(
    tree: TreeView,
    root: TransformationView,
    lent: Set<SignatureView>,
    seen: Set<SignatureView>,
    fuel: nat,
)
    requires
        planned_within(tree, root, lent, seen, false, fuel) is Some,
    ensures
        ({
            let outcome = planned_within(tree, root, lent, seen, false, fuel)->0;
            &&& outcome.seen == seen
            &&& outcome.steps.len() > 0
            &&& outcome.steps.last() == root
            &&& inputs_precede(tree, outcome.steps)
            &&& planned_within(tree, root, set![], set![], false, fuel) is Some
            &&& outcome.steps == planned_within(tree, root, set![], set![], false, fuel)->0.steps
            &&& outcome.scope == planned_within(tree, root, set![], set![], false, fuel)->0.scope
        }),
    decreases fuel,
{
    let steps = planned_within(tree, root, lent, seen, false, fuel)->0.steps;
    if tree.contains_key(root) {
        let less = (fuel - 1) as nat;
        let left = planned_within(tree, tree[root].0, lent, seen, false, less)->0.steps;
        lemma_unshared_within(tree, tree[root].0, lent, seen, less);
        lemma_unshared_within(tree, tree[root].0, set![], set![], less);
        let right = planned_within(tree, tree[root].1, lent, seen, false, less)->0.steps;
        lemma_unshared_within(tree, tree[root].1, lent, seen, less);
        let l = left.len() as int;
        let r = right.len() as int;
        assert forall|i: int|
            #![trigger steps[i]]
            0 <= i < steps.len() && tree.contains_key(steps[i]) implies steps.take(i).contains(
            tree[steps[i]].0,
        ) && steps.take(i).contains(tree[steps[i]].1) by {
            if i < l {
                assert(steps[i] == left[i]);
                assert(steps.take(i) =~= left.take(i));
            } else if i < l + r {
                assert(steps[i] == right[i - l]);
                let part = right.take(i - l);
                lemma_contains_behind(left, part, tree[steps[i]].0);
                lemma_contains_behind(left, part, tree[steps[i]].1);
                assert(steps.take(i) =~= left + part);
            } else {
                assert(steps.take(i)[l - 1] == tree[root].0);
                assert(steps.take(i)[l + r - 1] == tree[root].1);
            }
        }
    }
}

proof fn lemma_contains_behind(
    first: Seq<TransformationView>,
    second: Seq<TransformationView>,
    step: TransformationView,
)
    requires
        second.contains(step),
    ensures
        (first + second).contains(step),
{
    let i = choose|i: int| 0 <= i < second.len() && second[i] == step;
    assert((first + second)[first.len() + i] == step);
}

/// Without sharing, nothing is marked as seen, what was seen or lent plays no role, and every step
/// comes after the steps that make its inputs.
pub proof fn law_without_sharing_all_is_made(
    tree: TreeView,
    root: TransformationView,
    lent: Set<SignatureView>,
    seen: Set<SignatureView>,
)
    requires
        can_plan(tree, root, false),
    ensures
        ({
            let outcome = planned(tree, root, lent, seen, false);
            let anew = planned(tree, root, set![], set![], false);
            &&& outcome.seen == seen
            &&& outcome.steps == anew.steps
            &&& outcome.scope == anew.scope
            &&& inputs_precede(tree, outcome.steps)
        }),
{
    lemma_planned(tree, root, lent, seen, false);
    let fuel = depth(tree, root, lent, seen, false);
    lemma_unshared_within(tree, root, lent, seen, fuel);
    lemma_planned_is(tree, root, set![], set![], false, fuel);
}

/// Whether the inputs of each step that has them in the tree are made by steps before it, or are
/// `ready` from the start.
pub open spec fn inputs_ready(
    tree: TreeView,
    steps: Seq<TransformationView>,
    ready: Set<SignatureView>,
) -> bool {
    forall|i: int|
        #![trigger steps[i]]
        0 <= i < steps.len() && tree.contains_key(steps[i]) ==> {
            &&& is_ready(steps.take(i), ready, tree[steps[i]].0.signature())
            &&& is_ready(steps.take(i), ready, tree[steps[i]].1.signature())
        }
}

/// Whether `signature` is `ready` from the start or made by `steps`.
pub open spec fn is_ready(
    steps: Seq<TransformationView>,
    ready: Set<SignatureView>,
    signature: SignatureView,
) -> bool {
    ready.contains(signature) || makes(steps, signature)
}

/// Whether `to` is `n` inputs below `from`, on a way that ends at what is `ready`.
pub open spec fn reaches_within(
    tree: TreeView,
    ready: Set<SignatureView>,
    from: TransformationView,
    to: TransformationView,
    n: nat,
) -> bool
    decreases n,
{
    if n == 0 {
        from == to
    } else {
        &&& tree.contains_key(from)
        &&& !ready.contains(from.signature())
        &&& {
            ||| reaches_within(tree, ready, tree[from].0, to, (n - 1) as nat)
            ||| reaches_within(tree, ready, tree[from].1, to, (n - 1) as nat)
        }
    }
}

/// Whether `to` is `from` or below it: one of its inputs, or of their inputs, and so on, but for the
/// inputs of what is `ready`.
pub open spec fn reaches(
    tree: TreeView,
    ready: Set<SignatureView>,
    from: TransformationView,
    to: TransformationView,
) -> bool {
    exists|n: nat| reaches_within(tree, ready, from, to, n)
}

/// Whether `to` is below `from`.
pub open spec fn is_below(
    tree: TreeView,
    ready: Set<SignatureView>,
    from: TransformationView,
    to: TransformationView,
) -> bool {
    &&& tree.contains_key(from)
    &&& !ready.contains(from.signature())
    &&& reaches(tree, ready, tree[from].0, to) || reaches(tree, ready, tree[from].1, to)
}

/// Whether no transformation from `root` on down makes the same collection as one below it.
pub open spec fn nothing_feeds_itself(
    tree: TreeView,
    ready: Set<SignatureView>,
    root: TransformationView,
) -> bool {
    forall|a: TransformationView, b: TransformationView|
        #![trigger reaches(tree, ready, root, a), is_below(tree, ready, a, b)]
        reaches(tree, ready, root, a) && is_below(tree, ready, a, b) ==> a.signature()
            != b.signature()
}

/// What is reached from an input is reached from the transformation.
proof fn lemma_reaches_input(
    tree: TreeView,
    ready: Set<SignatureView>,
    root: TransformationView,
    input: TransformationView,
)
    requires
        tree.contains_key(root),
        !ready.contains(root.signature()),
        input == tree[root].0 || input == tree[root].1,
    ensures
        forall|to: TransformationView| #[trigger]
            reaches(tree, ready, input, to) ==> reaches(tree, ready, root, to) && is_below(
                tree,
                ready,
                root,
                to,
            ),
        nothing_feeds_itself(tree, ready, root) ==> nothing_feeds_itself(tree, ready, input),
{
    assert forall|to: TransformationView| #[trigger] reaches(tree, ready, input, to) implies reaches(
        tree,
        ready,
        root,
        to,
    ) by {
        let n = choose|n: nat| reaches_within(tree, ready, input, to, n);
        assert(reaches_within(tree, ready, root, to, n + 1));
    }
}

/// Whether the outputs of a tree's transformations are made in layers: each transformation's
/// output has a higher rank than the outputs of its two inputs.
pub open spec fn ranked(tree: TreeView, rank: spec_fn(SignatureView) -> nat) -> bool {
    forall|node: TransformationView| #[trigger]
        tree.contains_key(node) ==> {
            &&& rank(tree[node].0.signature()) < rank(node.signature())
            &&& rank(tree[node].1.signature()) < rank(node.signature())
        }
}

proof fn lemma_rank_falls(
    tree: TreeView,
    ready: Set<SignatureView>,
    rank: spec_fn(SignatureView) -> nat,
    from: TransformationView,
    to: TransformationView,
    n: nat,
)
    requires
        ranked(tree, rank),
        reaches_within(tree, ready, from, to, n),
    ensures
        rank(to.signature()) <= rank(from.signature()),
    decreases n,
{
    if n > 0 {
        let less = (n - 1) as nat;
        if reaches_within(tree, ready, tree[from].0, to, less) {
            lemma_rank_falls(tree, ready, rank, tree[from].0, to, less);
        } else {
            lemma_rank_falls(tree, ready, rank, tree[from].1, to, less);
        }
    }
}

/// In a tree that makes collections in layers, no transformation makes the same collection as one
/// below it.
pub proof fn law_layers_keep_apart(
    tree: TreeView,
    ready: Set<SignatureView>,
    root: TransformationView,
    rank: spec_fn(SignatureView) -> nat,
)
    requires
        ranked(tree, rank),
    ensures
        nothing_feeds_itself(tree, ready, root),
{
    assert forall|a: TransformationView, b: TransformationView|
        #![trigger reaches(tree, ready, root, a), is_below(tree, ready, a, b)]
        reaches(tree, ready, root, a) && is_below(tree, ready, a, b) implies a.signature()
        != b.signature() by {
        let input = if reaches(tree, ready, tree[a].0, b) {
            tree[a].0
        } else {
            tree[a].1
        };
        let n = choose|n: nat| reaches_within(tree, ready, input, b, n);
        lemma_rank_falls(tree, ready, rank, input, b, n);
    }
}

/// The more is ready, the less is looked at: a tree in which no transformation makes the same
/// collection as one below it stays so.
pub proof fn law_more_ready_keeps_apart(
    tree: TreeView,
    ready: Set<SignatureView>,
    more: Set<SignatureView>,
    root: TransformationView,
)
    requires
        ready.subset_of(more),
        nothing_feeds_itself(tree, ready, root),
    ensures
        nothing_feeds_itself(tree, more, root),
{
    assert forall|from: TransformationView, to: TransformationView| #[trigger]
        reaches(tree, more, from, to) implies reaches(tree, ready, from, to) by {
        let n = choose|n: nat| reaches_within(tree, more, from, to, n);
        lemma_less_is_reached(tree, ready, more, from, to, n);
    }
    assert forall|a: TransformationView, b: TransformationView|
        #![trigger reaches(tree, more, root, a), is_below(tree, more, a, b)]
        reaches(tree, more, root, a) && is_below(tree, more, a, b) implies a.signature()
        != b.signature() by {
        assert(reaches(tree, ready, root, a) && is_below(tree, ready, a, b));
    }
}

proof fn lemma_less_is_reached(
    tree: TreeView,
    ready: Set<SignatureView>,
    more: Set<SignatureView>,
    from: TransformationView,
    to: TransformationView,
    n: nat,
)
    requires
        ready.subset_of(more),
        reaches_within(tree, more, from, to, n),
    ensures
        reaches_within(tree, ready, from, to, n),
    decreases n,
{
    if n > 0 {
        let less = (n - 1) as nat;
        if reaches_within(tree, more, tree[from].0, to, less) {
            lemma_less_is_reached(tree, ready, more, tree[from].0, to, less);
        } else {
            lemma_less_is_reached(tree, ready, more, tree[from].1, to, less);
        }
    }
}

/// Planning a transformation, with `start` ready from the beginning and `ready` by now: what was seen
/// and is not ready is being made by transformations above.
proof fn lemma_ready_within(
    tree: TreeView,
    root: TransformationView,
    lent: Set<SignatureView>,
    seen: Set<SignatureView>,
    fuel: nat,
    start: Set<SignatureView>,
    ready: Set<SignatureView>,
)
    requires
        planned_within(tree, root, lent, seen, true, fuel) is Some,
        nothing_feeds_itself(tree, start, root),
        start.subset_of(lent.union(seen)),
        lent.subset_of(ready),
        forall|s: SignatureView, to: TransformationView|
            #![trigger seen.contains(s), reaches(tree, start, root, to)]
            seen.contains(s) && !ready.contains(s) && reaches(tree, start, root, to)
                ==> to.signature() != s,
    ensures
        ({
            let outcome = planned_within(tree, root, lent, seen, true, fuel)->0;
            &&& inputs_ready(tree, outcome.steps, ready)
            &&& is_ready(outcome.steps, ready, root.signature())
        }),
    decreases fuel,
{
    let outcome = planned_within(tree, root, lent, seen, true, fuel)->0;
    let steps = outcome.steps;
    let own = root.signature();
    let marked = seen.insert(own);
    assert(reaches_within(tree, start, root, root, 0));
    assert(reaches(tree, start, root, root));
    if lent.contains(own) || seen.contains(own) {
    } else if !tree.contains_key(root) {
        lemma_makes_one(root, own);
        assert(steps[0] == root);
    } else {
        let less = (fuel - 1) as nat;
        let left = planned_within(tree, tree[root].0, lent, marked, true, less)->0;
        let right = planned_within(tree, tree[root].1, lent, left.seen, true, less)->0;
        assert(!start.contains(own));
        lemma_reaches_input(tree, start, root, tree[root].0);
        lemma_reaches_input(tree, start, root, tree[root].1);
        lemma_ready_within(tree, tree[root].0, lent, marked, less, start, ready);
        lemma_fresh_within(tree, tree[root].0, lent, marked, less);
        let then = Set::new(|s: SignatureView| is_ready(left.steps, ready, s));
        assert forall|s: SignatureView, to: TransformationView|
            #![trigger left.seen.contains(s), reaches(tree, start, tree[root].1, to)]
            left.seen.contains(s) && !then.contains(s) && reaches(
                tree,
                start,
                tree[root].1,
                to,
            ) implies to.signature() != s by {
            assert(marked.contains(s) && !ready.contains(s));
        }
        lemma_ready_within(tree, tree[root].1, lent, left.seen, less, start, then);
        let l = left.steps.len() as int;
        let r = right.steps.len() as int;
        assert forall|i: int|
            #![trigger steps[i]]
            0 <= i < steps.len() && tree.contains_key(steps[i]) implies is_ready(
            steps.take(i),
            ready,
            tree[steps[i]].0.signature(),
        ) && is_ready(steps.take(i), ready, tree[steps[i]].1.signature()) by {
            let a = tree[steps[i]].0.signature();
            let b = tree[steps[i]].1.signature();
            if i < l {
                assert(steps[i] == left.steps[i]);
                assert(steps.take(i) =~= left.steps.take(i));
            } else if i < l + r {
                let part = right.steps.take(i - l);
                assert(steps[i] == right.steps[i - l]);
                assert(steps.take(i) =~= left.steps + part);
                lemma_makes_add(left.steps, part, a);
                lemma_makes_add(left.steps, part, b);
            } else {
                assert(steps.take(i) =~= left.steps + right.steps);
                lemma_makes_add(left.steps, right.steps, a);
                lemma_makes_add(left.steps, right.steps, b);
            }
        }
        lemma_makes_add(left.steps + right.steps, seq![root], own);
        lemma_makes_one(root, own);
    }
}

/// With sharing, where no transformation makes the same collection as one below it, the inputs of
/// each step are made by steps before it, or were seen or lent; and so is the output of the root in
/// the end.
pub proof fn law_sharing_keeps_inputs_first(
    tree: TreeView,
    root: TransformationView,
    lent: Set<SignatureView>,
    seen: Set<SignatureView>,
)
    requires
        can_plan(tree, root, true),
        nothing_feeds_itself(tree, lent.union(seen), root),
    ensures
        ({
            let steps = planned(tree, root, lent, seen, true).steps;
            &&& inputs_ready(tree, steps, lent.union(seen))
            &&& is_ready(steps, lent.union(seen), root.signature())
        }),
{
    lemma_planned(tree, root, lent, seen, true);
    let fuel = depth(tree, root, lent, seen, true);
    let ready = lent.union(seen);
    lemma_ready_within(tree, root, lent, seen, fuel, ready, ready);
}

/// Whether one of `steps` reads the collection `signature` without having it made in the tree.
pub open spec fn reads(
    tree: TreeView,
    steps: Seq<TransformationView>,
    signature: SignatureView,
) -> bool {
    exists|i: int|
        #![trigger steps[i]]
        0 <= i < steps.len() && !tree.contains_key(steps[i]) && steps[i].left.signature == signature
}

/// Whether one of `steps` has the collection `signature` made for it in the tree.
pub open spec fn consumes(
    tree: TreeView,
    steps: Seq<TransformationView>,
    signature: SignatureView,
) -> bool {
    exists|i: int|
        #![trigger steps[i]]
        0 <= i < steps.len() && tree.contains_key(steps[i]) && (tree[steps[i]].0.signature()
            == signature || tree[steps[i]].1.signature() == signature)
}

proof fn lemma_reads_add(
    tree: TreeView,
    first: Seq<TransformationView>,
    second: Seq<TransformationView>,
    signature: SignatureView,
)
    ensures
        reads(tree, first + second, signature) <==> reads(tree, first, signature) || reads(
            tree,
            second,
            signature,
        ),
        consumes(tree, first + second, signature) <==> consumes(tree, first, signature)
            || consumes(tree, second, signature),
{
    let all = first + second;
    assert forall|i: int| 0 <= i < first.len() implies first[i] == all[i] by {}
    assert forall|i: int| 0 <= i < second.len() implies #[trigger] second[i] == all[first.len()
        + i] by {}
    assert forall|i: int| first.len() <= i < all.len() implies #[trigger] all[i] == second[i
        - first.len()] by {}
}

/// What a plan takes from elsewhere, given what it was lent.
pub open spec fn scope_is(
    tree: TreeView,
    root: TransformationView,
    lent: Set<SignatureView>,
    sharing: bool,
    outcome: Planned,
) -> bool {
    forall|s: SignatureView| #[trigger]
        outcome.scope.contains(s) <==> {
            ||| reads(tree, outcome.steps, s)
            ||| sharing && lent.contains(s) && (s == root.signature() || consumes(
                tree,
                outcome.steps,
                s,
            ))
        }
}

proof fn lemma_scope_within(
    tree: TreeView,
    root: TransformationView,
    lent: Set<SignatureView>,
    seen: Set<SignatureView>,
    sharing: bool,
    fuel: nat,
)
    requires
        planned_within(tree, root, lent, seen, sharing, fuel) is Some,
    ensures
        scope_is(
            tree,
            root,
            lent,
            sharing,
            planned_within(tree, root, lent, seen, sharing, fuel)->0,
        ),
    decreases fuel,
{
    let outcome = planned_within(tree, root, lent, seen, sharing, fuel)->0;
    let steps = outcome.steps;
    let own = root.signature();
    let marked = marking(seen, own, sharing);
    if sharing && (lent.contains(own) || seen.contains(own)) {
    } else if !tree.contains_key(root) {
        assert(steps[0] == root);
    } else {
        let less = (fuel - 1) as nat;
        let left = planned_within(tree, tree[root].0, lent, marked, sharing, less)->0;
        let right = planned_within(tree, tree[root].1, lent, left.seen, sharing, less)->0;
        lemma_scope_within(tree, tree[root].0, lent, marked, sharing, less);
        lemma_scope_within(tree, tree[root].1, lent, left.seen, sharing, less);
        assert forall|s: SignatureView| #[trigger] outcome.scope.contains(s) <==> {
            ||| reads(tree, steps, s)
            ||| sharing && lent.contains(s) && (s == own || consumes(tree, steps, s))
        } by {
            lemma_reads_add(tree, left.steps + right.steps, seq![root], s);
            lemma_reads_add(tree, left.steps, right.steps, s);
            assert(seq![root][0] == root);
            assert(outcome.scope.contains(s) <==> left.scope.contains(s) || right.scope.contains(
                s,
            ));
        }
    }
}

/// A plan takes from elsewhere exactly what its steps read without having it made in the tree, and
/// those lent collections, in place of which nothing is made, that its steps consume or that it was
/// to make.
pub proof fn law_scope_is_what_comes_from_outside(
    tree: TreeView,
    root: TransformationView,
    lent: Set<SignatureView>,
    seen: Set<SignatureView>,
    sharing: bool,
)
    requires
        can_plan(tree, root, sharing),
    ensures
        scope_is(tree, root, lent, sharing, planned(tree, root, lent, seen, sharing)),
{
    lemma_planned(tree, root, lent, seen, sharing);
    lemma_scope_within(tree, root, lent, seen, sharing, depth(tree, root, lent, seen, sharing));
}

proof fn lemma_lent_as_seen_within(
    tree: TreeView,
    root: TransformationView,
    lent: Set<SignatureView>,
    seen: Set<SignatureView>,
    fuel: nat,
)
    requires
        planned_within(tree, root, lent, seen, true, fuel) is Some,
    ensures
        ({
            let outcome = planned_within(tree, root, lent, seen, true, fuel)->0;
            let other = planned_within(tree, root, set![], lent.union(seen), true, fuel);
            &&& other is Some
            &&& other->0.steps == outcome.steps
            &&& other->0.seen == lent.union(outcome.seen)
        }),
    decreases fuel,
{
    let own = root.signature();
    let marked = seen.insert(own);
    assert(lent.union(seen).insert(own) =~= lent.union(marked));
    if !lent.contains(own) && !seen.contains(own) && tree.contains_key(root) {
        let less = (fuel - 1) as nat;
        let left = planned_within(tree, tree[root].0, lent, marked, true, less)->0;
        lemma_lent_as_seen_within(tree, tree[root].0, lent, marked, less);
        lemma_lent_as_seen_within(tree, tree[root].1, lent, left.seen, less);
    }
}

/// It makes no difference to the steps whether a collection is lent or was seen: a transformation of
/// a recursive stratum is planned in the same order, and leaves out the same, as in a non-recursive
/// one that has seen both.
pub proof fn law_lent_is_left_out_like_seen(
    tree: TreeView,
    root: TransformationView,
    lent: Set<SignatureView>,
    seen: Set<SignatureView>,
    sharing: bool,
)
    requires
        can_plan(tree, root, sharing),
    ensures
        ({
            let outcome = planned(tree, root, lent, seen, sharing);
            let other = planned(tree, root, set![], lent.union(seen), sharing);
            &&& other.steps == outcome.steps
            &&& other.seen == lent.union(outcome.seen)
        }),
{
    if sharing {
        lemma_planned(tree, root, lent, seen, true);
        let fuel = depth(tree, root, lent, seen, true);
        lemma_lent_as_seen_within(tree, root, lent, seen, fuel);
        lemma_planned_is(tree, root, set![], lent.union(seen), true, fuel);
    } else {
        law_without_sharing_all_is_made(tree, root, lent, seen);
        law_without_sharing_all_is_made(tree, root, set![], lent.union(seen));
    }
}

/// With sharing, once a transformation is planned, planning it again, or any transformation that was
/// carried out for it, in the same tree or in another, adds no step and marks nothing.
pub proof fn law_planning_again_adds_nothing(
    tree: TreeView,
    first: TransformationView,
    lent: Set<SignatureView>,
    seen: Set<SignatureView>,
    other: TreeView,
    root: TransformationView,
)
    requires
        can_plan(tree, first, true),
        can_plan(other, root, true),
        root == first || planned(tree, first, lent, seen, true).steps.contains(root),
    ensures
        ({
            let then = planned(tree, first, lent, seen, true).seen;
            let again = planned(other, root, lent, then, true);
            again.steps == Seq::<TransformationView>::empty() && again.seen == then
        }),
{
    let outcome = planned(tree, first, lent, seen, true);
    law_sharing_makes_each_once(tree, first, lent, seen);
    law_root_comes_last(tree, first, lent, seen, true);
    if outcome.steps.contains(root) {
        let i = choose|i: int| 0 <= i < outcome.steps.len() && outcome.steps[i] == root;
        assert(outcome.steps[i].signature() == root.signature());
        assert(makes(outcome.steps, root.signature()));
    } else if outcome.steps.len() > 0 {
        assert(outcome.steps[outcome.steps.len() - 1] == root);
    }
    lemma_planned_step(other, root, lent, outcome.seen, true);
}

/// Without sharing, a transformation with inputs is planned as all of its left input, then all of its
/// right input, whatever they have in common, then the transformation; one without is a single step;
/// and nothing is marked as seen.
pub proof fn law_unshared_is_left_right_root(
    tree: TreeView,
    root: TransformationView,
    lent: Set<SignatureView>,
    seen: Set<SignatureView>,
)
    requires
        can_plan(tree, root, false),
    ensures
        planned(tree, root, lent, seen, false).steps == (if tree.contains_key(root) {
            planned(tree, tree[root].0, lent, seen, false).steps + planned(
                tree,
                tree[root].1,
                lent,
                seen,
                false,
            ).steps + seq![root]
        } else {
            seq![root]
        }),
        planned(tree, root, lent, seen, false).seen == seen,
        tree.contains_key(root) ==> can_plan(tree, tree[root].0, false) && can_plan(
            tree,
            tree[root].1,
            false,
        ),
{
    lemma_planned_step(tree, root, lent, seen, false);
    law_without_sharing_all_is_made(tree, root, lent, seen);
    if tree.contains_key(root) {
        law_without_sharing_all_is_made(tree, tree[root].0, lent, seen);
    }
}

/// How planning a transformation rests on planning its inputs. With sharing, a lent collection is
/// taken over and a seen one left out, without a step. Any other is marked as seen. One that is not
/// made from others is a single step, and takes its input from elsewhere. For one that is, the steps
/// for its left input come first, then those for its right input, which leave out what has been seen
/// by then, then itself; it takes from elsewhere what either takes.
pub proof fn law_planning_rests_on_the_inputs(
    tree: TreeView,
    root: TransformationView,
    lent: Set<SignatureView>,
    seen: Set<SignatureView>,
    sharing: bool,
)
    requires
        can_plan(tree, root, sharing),
    ensures
        ({
            let own = root.output.signature;
            let outcome = planned(tree, root, lent, seen, sharing);
            let marked = if sharing {
                seen.insert(own)
            } else {
                seen
            };
            if sharing && lent.contains(own) {
                &&& outcome.steps.len() == 0
                &&& outcome.scope == set![own]
                &&& outcome.seen == seen
            } else if sharing && seen.contains(own) {
                &&& outcome.steps.len() == 0
                &&& outcome.scope == Set::<SignatureView>::empty()
                &&& outcome.seen == seen
            } else if !tree.contains_key(root) {
                &&& outcome.steps == seq![root]
                &&& outcome.scope == set![root.left.signature]
                &&& outcome.seen == marked
            } else {
                let left = planned(tree, tree[root].0, lent, marked, sharing);
                let right = planned(tree, tree[root].1, lent, left.seen, sharing);
                &&& outcome.steps == left.steps + right.steps + seq![root]
                &&& outcome.scope == left.scope.union(right.scope)
                &&& outcome.seen == right.seen
            }
        }),
{
    lemma_planned_step(tree, root, lent, seen, sharing);
}

} // verus!
