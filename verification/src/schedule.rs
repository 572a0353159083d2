//! The order in which the transformations of a rule's tree are carried out.

use crate::collections::SignatureView;
use crate::transformations::{TransformationView, TreeView};
use vstd::prelude::*;

verus! {

/// What comes of planning a transformation and everything below it.
#[verifier::ext_equal]
pub struct Planned {
    /// The transformations to carry out, in order.
    pub steps: Seq<TransformationView>,
    /// The signatures of the collections that the steps take from elsewhere.
    pub scope: Set<SignatureView>,
    /// The signatures of what was planned before or is planned now.
    pub seen: Set<SignatureView>,
}

/// What was seen, with `signature` marked as seen too under `sharing`.
pub open spec fn marking(
    seen: Set<SignatureView>,
    signature: SignatureView,
    sharing: bool,
) -> Set<SignatureView> {
    if sharing {
        seen.insert(signature)
    } else {
        seen
    }
}

/// Plans `root` in `tree`, going down at most `fuel` levels; `None` where that is not deep enough.
///
/// Under `sharing`, a collection in `lent` is taken over from outside, and one in `seen` is not
/// made a second time.
pub open spec fn planned_within(
    tree: TreeView,
    root: TransformationView,
    lent: Set<SignatureView>,
    seen: Set<SignatureView>,
    sharing: bool,
    fuel: nat,
) -> Option<Planned>
    decreases fuel,
{
    if fuel == 0 {
        None
    } else if sharing && lent.contains(root.signature()) {
        Some(Planned { steps: seq![], scope: set![root.signature()], seen })
    } else if sharing && seen.contains(root.signature()) {
        Some(Planned { steps: seq![], scope: set![], seen })
    } else {
        let marked = marking(seen, root.signature(), sharing);
        if !tree.contains_key(root) {
            Some(Planned { steps: seq![root], scope: set![root.left.signature], seen: marked })
        } else {
            match planned_within(tree, tree[root].0, lent, marked, sharing, (fuel - 1) as nat) {
                None => None,
                Some(left) => match planned_within(
                    tree,
                    tree[root].1,
                    lent,
                    left.seen,
                    sharing,
                    (fuel - 1) as nat,
                ) {
                    None => None,
                    Some(right) => Some(both_and_root(left, right, root)),
                },
            }
        }
    }
}

/// First the left input, then the right input, then the transformation itself.
pub open spec fn both_and_root(left: Planned, right: Planned, root: TransformationView) -> Planned {
    Planned {
        steps: left.steps + right.steps + seq![root],
        scope: left.scope.union(right.scope),
        seen: right.seen,
    }
}

/// Whether `fuel` is the least number of levels that planning `root` takes.
pub open spec fn is_depth(
    tree: TreeView,
    root: TransformationView,
    lent: Set<SignatureView>,
    seen: Set<SignatureView>,
    sharing: bool,
    fuel: nat,
) -> bool {
    &&& planned_within(tree, root, lent, seen, sharing, fuel) is Some
    &&& forall|less: nat|
        less < fuel ==> #[trigger] planned_within(tree, root, lent, seen, sharing, less) is None
}

/// The number of levels that planning `root` takes.
pub open spec fn depth(
    tree: TreeView,
    root: TransformationView,
    lent: Set<SignatureView>,
    seen: Set<SignatureView>,
    sharing: bool,
) -> nat {
    choose|fuel: nat| is_depth(tree, root, lent, seen, sharing, fuel)
}

/// What comes of planning `root` in `tree` as deep as it takes.
pub open spec fn planned(
    tree: TreeView,
    root: TransformationView,
    lent: Set<SignatureView>,
    seen: Set<SignatureView>,
    sharing: bool,
) -> Planned {
    planned_within(tree, root, lent, seen, sharing, depth(tree, root, lent, seen, sharing))->0
}

/// Whether every path down from `root` leaves `tree` after fewer than `fuel` steps.
pub open spec fn unfolds_within(tree: TreeView, root: TransformationView, fuel: nat) -> bool
    decreases fuel,
{
    fuel > 0 && (tree.contains_key(root) ==> unfolds_within(tree, tree[root].0, (fuel - 1) as nat)
        && unfolds_within(tree, tree[root].1, (fuel - 1) as nat))
}

/// Whether every path down from `root` ends: no transformation below `root` feeds itself.
pub open spec fn unfolds(tree: TreeView, root: TransformationView) -> bool {
    exists|fuel: nat| unfolds_within(tree, root, fuel)
}

/// Whether planning `root` comes to an end. With sharing it always does.
pub open spec fn can_plan(tree: TreeView, root: TransformationView, sharing: bool) -> bool {
    if sharing {
        tree.dom().finite()
    } else {
        unfolds(tree, root)
    }
}

/// Going deeper than needed changes nothing.
proof fn lemma_more_fuel(
    tree: TreeView,
    root: TransformationView,
    lent: Set<SignatureView>,
    seen: Set<SignatureView>,
    sharing: bool,
    fuel: nat,
    more: nat,
)
    requires
        planned_within(tree, root, lent, seen, sharing, fuel) is Some,
        fuel <= more,
    ensures
        planned_within(tree, root, lent, seen, sharing, more) == planned_within(
            tree,
            root,
            lent,
            seen,
            sharing,
            fuel,
        ),
    decreases fuel,
{
    let marked = marking(seen, root.signature(), sharing);
    if !(sharing && lent.contains(root.signature())) && !(sharing && seen.contains(
        root.signature(),
    )) && tree.contains_key(root) {
        let less = (fuel - 1) as nat;
        let left = planned_within(tree, tree[root].0, lent, marked, sharing, less)->0;
        lemma_more_fuel(tree, tree[root].0, lent, marked, sharing, less, (more - 1) as nat);
        lemma_more_fuel(tree, tree[root].1, lent, left.seen, sharing, less, (more - 1) as nat);
    }
}

/// Where some depth is enough, there is a least one, and planning is what the depth gives.
pub(crate) proof fn lemma_planned_is(
    tree: TreeView,
    root: TransformationView,
    lent: Set<SignatureView>,
    seen: Set<SignatureView>,
    sharing: bool,
    fuel: nat,
)
    requires
        planned_within(tree, root, lent, seen, sharing, fuel) is Some,
    ensures
        is_depth(tree, root, lent, seen, sharing, depth(tree, root, lent, seen, sharing)),
        depth(tree, root, lent, seen, sharing) <= fuel,
        planned_within(tree, root, lent, seen, sharing, fuel) == Some(
            planned(tree, root, lent, seen, sharing),
        ),
    decreases fuel,
{
    if exists|less: nat|
        less < fuel && #[trigger] planned_within(tree, root, lent, seen, sharing, less) is Some {
        let less = choose|less: nat|
            less < fuel && #[trigger] planned_within(tree, root, lent, seen, sharing, less) is Some;
        lemma_planned_is(tree, root, lent, seen, sharing, less);
    } else {
        assert(is_depth(tree, root, lent, seen, sharing, fuel));
    }
    let least = depth(tree, root, lent, seen, sharing);
    assert(is_depth(tree, root, lent, seen, sharing, least));
    if fuel < least {
        assert(planned_within(tree, root, lent, seen, sharing, fuel) is None);
    }
    lemma_more_fuel(tree, root, lent, seen, sharing, least, fuel);
}

/// The transformations of `tree` whose output is not yet in `seen`.
spec fn unseen(tree: TreeView, seen: Set<SignatureView>) -> Set<TransformationView> {
    tree.dom().filter(|node: TransformationView| !seen.contains(node.signature()))
}

/// With sharing, each level marks a transformation, and there are only so many.
proof fn lemma_sharing_ends(
    tree: TreeView,
    root: TransformationView,
    lent: Set<SignatureView>,
    seen: Set<SignatureView>,
    fuel: nat,
)
    requires
        tree.dom().finite(),
        unseen(tree, seen).len() < fuel,
    ensures
        planned_within(tree, root, lent, seen, true, fuel) is Some,
        seen.subset_of(planned_within(tree, root, lent, seen, true, fuel)->0.seen),
    decreases fuel,
{
    let marked = seen.insert(root.signature());
    if !lent.contains(root.signature()) && !seen.contains(root.signature()) && tree.contains_key(
        root,
    ) {
        lemma_unseen_shrinks(tree, root, seen, marked);
        let less = (fuel - 1) as nat;
        lemma_sharing_ends(tree, tree[root].0, lent, marked, less);
        let left = planned_within(tree, tree[root].0, lent, marked, true, less)->0;
        lemma_unseen_shrinks(tree, root, seen, left.seen);
        lemma_sharing_ends(tree, tree[root].1, lent, left.seen, less);
    }
}

/// Marking one more transformation leaves fewer unmarked.
proof fn lemma_unseen_shrinks(
    tree: TreeView,
    node: TransformationView,
    before: Set<SignatureView>,
    after: Set<SignatureView>,
)
    requires
        tree.dom().finite(),
        tree.contains_key(node),
        !before.contains(node.signature()),
        after.contains(node.signature()),
        before.subset_of(after),
    ensures
        unseen(tree, after).len() < unseen(tree, before).len(),
{
    let big = unseen(tree, before);
    let small = unseen(tree, after);
    tree.dom().lemma_len_filter(|n: TransformationView| !before.contains(n.signature()));
    assert(big.contains(node));
    assert(!small.contains(node));
    assert(small.subset_of(big));
    assert(big.finite());
    vstd::set_lib::lemma_len_subset(small, big.remove(node));
}

/// Where every path down from the root ends, planning ends.
proof fn lemma_unfolding_ends(
    tree: TreeView,
    root: TransformationView,
    lent: Set<SignatureView>,
    seen: Set<SignatureView>,
    sharing: bool,
    fuel: nat,
)
    requires
        unfolds_within(tree, root, fuel),
    ensures
        planned_within(tree, root, lent, seen, sharing, fuel) is Some,
    decreases fuel,
{
    let marked = marking(seen, root.signature(), sharing);
    if tree.contains_key(root) {
        let less = (fuel - 1) as nat;
        lemma_unfolding_ends(tree, tree[root].0, lent, marked, sharing, less);
        match planned_within(tree, tree[root].0, lent, marked, sharing, less) {
            Some(left) => lemma_unfolding_ends(tree, tree[root].1, lent, left.seen, sharing, less),
            None => {},
        }
    }
}

/// Planning, where it ends, is what some depth gives.
pub(crate) proof fn lemma_planned(
    tree: TreeView,
    root: TransformationView,
    lent: Set<SignatureView>,
    seen: Set<SignatureView>,
    sharing: bool,
)
    requires
        can_plan(tree, root, sharing),
    ensures
        is_depth(tree, root, lent, seen, sharing, depth(tree, root, lent, seen, sharing)),
{
    if sharing {
        let fuel = unseen(tree, seen).len() + 1;
        lemma_sharing_ends(tree, root, lent, seen, fuel);
        lemma_planned_is(tree, root, lent, seen, sharing, fuel);
    } else {
        let fuel = choose|fuel: nat| unfolds_within(tree, root, fuel);
        lemma_unfolding_ends(tree, root, lent, seen, sharing, fuel);
        lemma_planned_is(tree, root, lent, seen, sharing, fuel);
    }
}

/// How planning a transformation rests on planning its inputs: a lent collection is taken over, a
/// seen one is left out, one that is read from a relation is a single step, and any other comes
/// after its left and its right input.
pub proof fn lemma_planned_step(
    tree: TreeView,
    root: TransformationView,
    lent: Set<SignatureView>,
    seen: Set<SignatureView>,
    sharing: bool,
)
    requires
        can_plan(tree, root, sharing),
    ensures
        planned(tree, root, lent, seen, sharing) == ({
            let marked = marking(seen, root.signature(), sharing);
            if sharing && lent.contains(root.signature()) {
                Planned { steps: seq![], scope: set![root.signature()], seen }
            } else if sharing && seen.contains(root.signature()) {
                Planned { steps: seq![], scope: set![], seen }
            } else if !tree.contains_key(root) {
                Planned { steps: seq![root], scope: set![root.left.signature], seen: marked }
            } else {
                let left = planned(tree, tree[root].0, lent, marked, sharing);
                let right = planned(tree, tree[root].1, lent, left.seen, sharing);
                both_and_root(left, right, root)
            }
        }),
        tree.contains_key(root) ==> can_plan(tree, tree[root].0, sharing) && can_plan(
            tree,
            tree[root].1,
            sharing,
        ),
        tree.contains_key(root) && !(sharing && (lent.contains(root.signature()) || seen.contains(
            root.signature(),
        ))) ==> {
            let marked = marking(seen, root.signature(), sharing);
            let left = planned(tree, tree[root].0, lent, marked, sharing);
            &&& depth(tree, tree[root].0, lent, marked, sharing) < depth(
                tree,
                root,
                lent,
                seen,
                sharing,
            )
            &&& depth(tree, tree[root].1, lent, left.seen, sharing) < depth(
                tree,
                root,
                lent,
                seen,
                sharing,
            )
        },
{
    lemma_planned(tree, root, lent, seen, sharing);
    let fuel = depth(tree, root, lent, seen, sharing);
    let less = (fuel - 1) as nat;
    let marked = marking(seen, root.signature(), sharing);
    if !sharing && tree.contains_key(root) {
        let enough = choose|enough: nat| unfolds_within(tree, root, enough);
        assert(unfolds_within(tree, tree[root].0, (enough - 1) as nat));
        assert(unfolds_within(tree, tree[root].1, (enough - 1) as nat));
    }
    if tree.contains_key(root) && !(sharing && (lent.contains(root.signature()) || seen.contains(
        root.signature(),
    ))) {
        lemma_planned_is(tree, tree[root].0, lent, marked, sharing, less);
        let left = planned_within(tree, tree[root].0, lent, marked, sharing, less)->0;
        lemma_planned_is(tree, tree[root].1, lent, left.seen, sharing, less);
    }
}

/// Where each transformation of a tree has a higher rank than its two inputs, no transformation
/// feeds itself, and planning ends even without sharing.
pub proof fn law_ranked_tree_unfolds(
    tree: TreeView,
    root: TransformationView,
    rank: spec_fn(TransformationView) -> nat,
)
    requires
        forall|node: TransformationView| #[trigger]
            tree.contains_key(node) ==> rank(tree[node].0) < rank(node) && rank(tree[node].1)
                < rank(node),
    ensures
        unfolds(tree, root),
{
    lemma_ranked_unfolds(tree, root, rank, rank(root) + 1);
}

proof fn lemma_ranked_unfolds(
    tree: TreeView,
    root: TransformationView,
    rank: spec_fn(TransformationView) -> nat,
    fuel: nat,
)
    requires
        rank(root) < fuel,
        forall|node: TransformationView| #[trigger]
            tree.contains_key(node) ==> rank(tree[node].0) < rank(node) && rank(tree[node].1)
                < rank(node),
    ensures
        unfolds_within(tree, root, fuel),
    decreases fuel,
{
    if tree.contains_key(root) {
        lemma_ranked_unfolds(tree, tree[root].0, rank, (fuel - 1) as nat);
        lemma_ranked_unfolds(tree, tree[root].1, rank, (fuel - 1) as nat);
    }
}

} // verus!
