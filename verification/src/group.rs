//! Groups of rules as mathematical values.

use crate::collections::{CollectionView, SignatureView};
use crate::rule::{RulePlanView, RuleView};
use crate::schedule::{planned, unfolds, Planned};
use crate::text::occurs_in;
use crate::transformations::{TransformationView, TreeView};
use vstd::prelude::*;

verus! {

/// A planned group of rules as a mathematical value.
#[verifier::ext_equal]
pub struct GroupView {
    pub is_recursive: bool,
    pub rules: Seq<RuleView>,
    /// What a recursive group takes from outside.
    pub enter_scope: Set<SignatureView>,
    /// Under each head, the last collection of each of its rules.
    pub last_signatures: Map<SignatureView, Seq<SignatureView>>,
    /// Under each last collection, the heads of the rules that end in it.
    pub reverse_last_signatures: Map<SignatureView, Seq<SignatureView>>,
    /// The transformations of each rule, in order.
    pub strata_plan: Seq<Seq<TransformationView>>,
    /// The last collection of each rule.
    pub per_rule_last: Seq<CollectionView>,
}

impl GroupView {
    /// Each rule has its transformations and its last collection.
    pub open spec fn wf(self) -> bool {
        &&& self.strata_plan.len() == self.rules.len()
        &&& self.per_rule_last.len() == self.rules.len()
    }

    /// The heads of the rules, but for those that only pass bindings sideways.
    pub open spec fn head_signatures(self) -> Set<SignatureView> {
        self.last_signatures.dom().filter(
            |signature: SignatureView| !occurs_in("_sip"@, signature.name()),
        )
    }

    /// Whether this is the group that comes of planning `plans` after `seen`.
    pub open spec fn is_plan_of(
        self,
        is_recursive: bool,
        plans: Seq<RulePlanView>,
        seen: Set<SignatureView>,
        disable_sharing: bool,
    ) -> bool {
        let outcomes = group_outcomes(is_recursive, plans, seen, disable_sharing);
        &&& self.wf()
        &&& self.is_recursive == is_recursive
        &&& self.rules == Seq::new(plans.len(), |i: int| plans[i].rule)
        &&& self.strata_plan == steps_of(outcomes)
        &&& self.enter_scope == (if is_recursive {
            scope_of(outcomes)
        } else {
            set![]
        })
        &&& self.last_signatures == last_signatures(plans)
        &&& is_reverse(self.last_signatures, self.reverse_last_signatures)
        &&& self.per_rule_last == Seq::new(plans.len(), |i: int| plans[i].root.output)
    }
}

/// What was seen once the `outcomes` are there, where `start` had been seen before.
pub open spec fn seen_after(outcomes: Seq<Planned>, start: Set<SignatureView>) -> Set<
    SignatureView,
> {
    if outcomes.len() == 0 {
        start
    } else {
        outcomes.last().seen
    }
}

/// The rules planned one after the other, each with what the ones before it have seen.
pub open spec fn outcomes(
    plans: Seq<RulePlanView>,
    lent: Set<SignatureView>,
    start: Set<SignatureView>,
    sharing: bool,
) -> Seq<Planned>
    decreases plans.len(),
{
    if plans.len() == 0 {
        seq![]
    } else {
        let before = outcomes(plans.drop_last(), lent, start, sharing);
        let plan = plans.last();
        before.push(planned(plan.tree, plan.root, lent, seen_after(before, start), sharing))
    }
}

/// What is lent to a group that comes after `seen`: nothing, unless the group is recursive.
pub open spec fn lent_to(is_recursive: bool, seen: Set<SignatureView>) -> Set<SignatureView> {
    if is_recursive {
        seen
    } else {
        set![]
    }
}

/// What a group that comes after `seen` has seen itself, to begin with: nothing, if it is recursive.
pub open spec fn seen_within(is_recursive: bool, seen: Set<SignatureView>) -> Set<SignatureView> {
    if is_recursive {
        set![]
    } else {
        seen
    }
}

/// The outcomes for a group that comes after `seen`: outside of recursion that is left out, inside
/// of recursion it is lent, and each rule leaves out what the group itself has planned.
pub open spec fn group_outcomes(
    is_recursive: bool,
    plans: Seq<RulePlanView>,
    seen: Set<SignatureView>,
    disable_sharing: bool,
) -> Seq<Planned> {
    outcomes(
        plans,
        lent_to(is_recursive, seen),
        seen_within(is_recursive, seen),
        !disable_sharing,
    )
}

/// What is seen after a group that came after `seen`: what its rules leave, unless it is recursive.
pub open spec fn seen_behind(
    is_recursive: bool,
    plans: Seq<RulePlanView>,
    seen: Set<SignatureView>,
    disable_sharing: bool,
) -> Set<SignatureView> {
    if is_recursive {
        seen
    } else {
        seen_after(group_outcomes(is_recursive, plans, seen, disable_sharing), seen)
    }
}

/// The steps of each outcome.
pub open spec fn steps_of(outcomes: Seq<Planned>) -> Seq<Seq<TransformationView>> {
    Seq::new(outcomes.len(), |i: int| outcomes[i].steps)
}

/// What any of the outcomes takes from elsewhere.
pub open spec fn scope_of(outcomes: Seq<Planned>) -> Set<SignatureView> {
    Set::new(
        |s: SignatureView|
            exists|i: int| 0 <= i < outcomes.len() && #[trigger] outcomes[i].scope.contains(s),
    )
}

/// Whether those of `steps` that are not made from other transformations have a single input.
pub open spec fn leaves_are_unary(tree: TreeView, steps: Seq<TransformationView>) -> bool {
    forall|i: int|
        #![trigger steps[i]]
        0 <= i < steps.len() && !tree.contains_key(steps[i]) ==> steps[i].operator.is_unary()
}

/// Whether the group can be planned: without sharing, no transformation feeds itself; and in
/// recursion, each transformation that reads a relation has no other input.
pub open spec fn can_plan_group(
    is_recursive: bool,
    plans: Seq<RulePlanView>,
    seen: Set<SignatureView>,
    disable_sharing: bool,
) -> bool {
    &&& disable_sharing ==> forall|i: int|
        #![trigger plans[i]]
        0 <= i < plans.len() ==> unfolds(plans[i].tree, plans[i].root)
    &&& is_recursive ==> forall|i: int|
        #![trigger plans[i]]
        0 <= i < plans.len() ==> leaves_are_unary(
            plans[i].tree,
            group_outcomes(is_recursive, plans, seen, disable_sharing)[i].steps,
        )
}

impl RulePlanView {
    /// The signature of the relation that the rule defines.
    pub open spec fn head(self) -> SignatureView {
        SignatureView::Atom { name: self.rule.name }
    }

    /// The signature of the rule's last collection.
    pub open spec fn last(self) -> SignatureView {
        self.root.signature()
    }
}

/// The last collections of those rules whose head is `head`, in the order of the rules.
pub open spec fn lasts_of(plans: Seq<RulePlanView>, head: SignatureView) -> Seq<SignatureView> {
    plans.filter(|plan: RulePlanView| plan.head() == head).map_values(
        |plan: RulePlanView| plan.last(),
    )
}

/// Under each head, the last collections of its rules.
pub open spec fn last_signatures(plans: Seq<RulePlanView>) -> Map<
    SignatureView,
    Seq<SignatureView>,
> {
    Map::new(
        |head: SignatureView|
            exists|i: int| 0 <= i < plans.len() && #[trigger] plans[i].head() == head,
        |head: SignatureView| lasts_of(plans, head),
    )
}

/// The arity of each head, that of the last rule where several have it.
pub open spec fn heads_of(rules: Seq<RuleView>) -> Map<Seq<char>, usize>
    decreases rules.len(),
{
    if rules.len() == 0 {
        Map::empty()
    } else {
        heads_of(rules.drop_last()).insert(rules.last().name, rules.last().arity)
    }
}

/// `item`, `n` times.
pub open spec fn repeated(item: SignatureView, n: nat) -> Seq<SignatureView> {
    Seq::new(n, |i: int| item)
}

/// The keys, in the given `order`, each as often as `forward` lists `item` under it.
pub open spec fn listing_keys(
    forward: Map<SignatureView, Seq<SignatureView>>,
    order: Seq<SignatureView>,
    item: SignatureView,
) -> Seq<SignatureView>
    decreases order.len(),
{
    if order.len() == 0 {
        seq![]
    } else {
        let key = order.last();
        listing_keys(forward, order.drop_last(), item) + repeated(
            key,
            forward[key].to_multiset().count(item),
        )
    }
}

/// Whether `reverse` lists under each item of `forward` the keys that list it, each as often as it
/// does, all lists following the given `order` of the keys.
pub open spec fn is_reverse_in(
    forward: Map<SignatureView, Seq<SignatureView>>,
    order: Seq<SignatureView>,
    reverse: Map<SignatureView, Seq<SignatureView>>,
) -> bool {
    &&& order.no_duplicates()
    &&& order.to_set() == forward.dom()
    &&& forall|item: SignatureView| #[trigger]
        reverse.contains_key(item) <==> exists|key: SignatureView| #[trigger]
            forward.contains_key(key) && forward[key].contains(item)
    &&& forall|item: SignatureView| #[trigger]
        reverse.contains_key(item) ==> reverse[item] == listing_keys(forward, order, item)
}

/// Whether `reverse` lists under each item of `forward` the keys that list it, each as often as it
/// does, all lists following one order of the keys.
pub open spec fn is_reverse(
    forward: Map<SignatureView, Seq<SignatureView>>,
    reverse: Map<SignatureView, Seq<SignatureView>>,
) -> bool {
    exists|order: Seq<SignatureView>| is_reverse_in(forward, order, reverse)
}

/// One more outcome adds what it takes from elsewhere.
pub(crate) proof fn lemma_scope_push(outcomes: Seq<Planned>, outcome: Planned)
    ensures
        scope_of(outcomes.push(outcome)) == scope_of(outcomes).union(outcome.scope),
{
    let more = outcomes.push(outcome);
    assert forall|s: SignatureView| #[trigger] scope_of(more).contains(s) <==> scope_of(
        outcomes,
    ).contains(s) || outcome.scope.contains(s) by {
        if scope_of(more).contains(s) {
            let i = choose|i: int| 0 <= i < more.len() && #[trigger] more[i].scope.contains(s);
            if i < outcomes.len() {
                assert(outcomes[i].scope.contains(s));
            }
        }
        if scope_of(outcomes).contains(s) {
            let i = choose|i: int|
                0 <= i < outcomes.len() && #[trigger] outcomes[i].scope.contains(s);
            assert(more[i].scope.contains(s));
        }
        assert(more[outcomes.len() as int] == outcome);
    }
    assert(scope_of(more) =~= scope_of(outcomes).union(outcome.scope));
}

/// There is an outcome for each rule, and it rests on the ones before it.
pub(crate) proof fn lemma_outcomes(
    plans: Seq<RulePlanView>,
    lent: Set<SignatureView>,
    start: Set<SignatureView>,
    sharing: bool,
)
    ensures
        outcomes(plans, lent, start, sharing).len() == plans.len(),
        forall|i: int|
            #![trigger outcomes(plans, lent, start, sharing)[i]]
            0 <= i < plans.len() ==> outcomes(plans, lent, start, sharing)[i] == planned(
                plans[i].tree,
                plans[i].root,
                lent,
                seen_after(outcomes(plans, lent, start, sharing).take(i), start),
                sharing,
            ),
    decreases plans.len(),
{
    if plans.len() > 0 {
        let before = outcomes(plans.drop_last(), lent, start, sharing);
        let all = outcomes(plans, lent, start, sharing);
        lemma_outcomes(plans.drop_last(), lent, start, sharing);
        assert forall|i: int| #![trigger all[i]] 0 <= i < plans.len() implies all[i] == planned(
            plans[i].tree,
            plans[i].root,
            lent,
            seen_after(all.take(i), start),
            sharing,
        ) by {
            assert(all.take(i) =~= before.take(i));
            if i < plans.len() - 1 {
                assert(all[i] == before[i]);
            } else {
                assert(before.take(i) =~= before);
            }
        }
    }
}

/// There is an outcome for each rule of the group.
pub(crate) proof fn lemma_outcomes_len(
    is_recursive: bool,
    plans: Seq<RulePlanView>,
    seen: Set<SignatureView>,
    disable_sharing: bool,
)
    ensures
        group_outcomes(is_recursive, plans, seen, disable_sharing).len() == plans.len(),
{
    lemma_outcomes(
        plans,
        lent_to(is_recursive, seen),
        seen_within(is_recursive, seen),
        !disable_sharing,
    );
}

/// What the outcome for one rule of the group is.
pub(crate) proof fn lemma_outcome(
    is_recursive: bool,
    plans: Seq<RulePlanView>,
    seen: Set<SignatureView>,
    disable_sharing: bool,
    i: int,
)
    requires
        0 <= i < plans.len(),
    ensures
        ({
            let all = group_outcomes(is_recursive, plans, seen, disable_sharing);
            &&& all.len() == plans.len()
            &&& is_recursive ==> all[i] == planned(
                plans[i].tree,
                plans[i].root,
                seen,
                seen_after(all.take(i), set![]),
                !disable_sharing,
            )
            &&& !is_recursive ==> all[i] == planned(
                plans[i].tree,
                plans[i].root,
                set![],
                seen_after(all.take(i), seen),
                !disable_sharing,
            )
        }),
{
    lemma_outcomes(
        plans,
        lent_to(is_recursive, seen),
        seen_within(is_recursive, seen),
        !disable_sharing,
    );
}

/// Every step of a rule is a step of the group.
pub(crate) proof fn lemma_flatten_contains(plan: Seq<Seq<TransformationView>>, i: int, j: int)
    requires
        0 <= i < plan.len(),
        0 <= j < plan[i].len(),
    ensures
        plan.flatten().contains(plan[i][j]),
    decreases plan.len(),
{
    let rest = plan.drop_first();
    let all = plan.flatten();
    assert(all == plan.first() + rest.flatten());
    if i == 0 {
        assert(all[j] == plan[0][j]);
    } else {
        lemma_flatten_contains(rest, i - 1, j);
        assert(rest[i - 1] == plan[i]);
        let k = choose|k: int| 0 <= k < rest.flatten().len() && rest.flatten()[k] == plan[i][j];
        assert(all[plan.first().len() + k] == plan[i][j]);
    }
}

/// Every step of the group is a step of one of its rules.
pub(crate) proof fn lemma_step_of_group(plan: Seq<Seq<TransformationView>>, n: int)
    requires
        0 <= n < plan.flatten().len(),
    ensures
        exists|i: int, j: int|
            0 <= i < plan.len() && 0 <= j < plan[i].len() && #[trigger] plan[i][j]
                == plan.flatten()[n],
    decreases plan.len(),
{
    let rest = plan.drop_first();
    assert(plan.len() > 0);
    assert(plan.flatten() == plan.first() + rest.flatten());
    if n < plan.first().len() {
        assert(plan[0][n] == plan.flatten()[n]);
    } else {
        lemma_step_of_group(rest, n - plan.first().len());
        let (i, j) = choose|i: int, j: int|
            0 <= i < rest.len() && 0 <= j < rest[i].len() && #[trigger] rest[i][j]
                == rest.flatten()[n - plan.first().len()];
        assert(plan[i + 1][j] == plan.flatten()[n]);
    }
}

} // verus!
