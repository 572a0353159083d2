//! What holds of every planned group.

use crate::collections::SignatureView;
use crate::group::{
    can_plan_group, group_outcomes, heads_of, is_reverse, last_signatures, leaves_are_unary,
    lemma_outcomes, lent_to, outcomes, scope_of, seen_after, seen_behind, seen_within, steps_of,
    GroupView,
};
use crate::heads::{law_lasts_stand_in_rule_order, law_reverse_counts_the_same};
use crate::order::{
    consumes, inputs_precede, inputs_ready, is_from, law_lent_is_left_out_like_seen,
    law_root_comes_last, law_scope_is_what_comes_from_outside, law_sharing_keeps_inputs_first,
    law_sharing_makes_each_once, law_steps_come_from_the_tree, law_without_sharing_all_is_made,
    lemma_makes_add, makes, makes_nothing_twice, nothing_feeds_itself, reads,
};
use crate::rule::RulePlanView;
use crate::schedule::{can_plan, planned};
use crate::text::law_occurring_is_standing_between;
use crate::transformations::TransformationView;
use vstd::prelude::*;

verus! {

/// Whether planning each of the rules comes to an end.
pub open spec fn all_can_plan(plans: Seq<RulePlanView>, sharing: bool) -> bool {
    forall|i: int|
        #![trigger plans[i]]
        0 <= i < plans.len() ==> can_plan(plans[i].tree, plans[i].root, sharing)
}

proof fn lemma_outcomes_make_each_once(
    plans: Seq<RulePlanView>,
    lent: Set<SignatureView>,
    start: Set<SignatureView>,
)
    requires
        all_can_plan(plans, true),
    ensures
        ({
            let all = outcomes(plans, lent, start, true);
            let steps = steps_of(all).flatten();
            &&& makes_nothing_twice(steps)
            &&& forall|s: SignatureView| #[trigger]
                makes(steps, s) ==> !start.contains(s) && !lent.contains(s)
            &&& forall|s: SignatureView| #[trigger]
                seen_after(all, start).contains(s) <==> start.contains(s) || makes(steps, s)
        }),
    decreases plans.len(),
{
    let all = outcomes(plans, lent, start, true);
    let steps = steps_of(all).flatten();
    if plans.len() == 0 {
        assert(steps_of(all) =~= Seq::<Seq<TransformationView>>::empty());
        assert(steps =~= Seq::<TransformationView>::empty());
    } else {
        let fewer = plans.drop_last();
        let before = outcomes(fewer, lent, start, true);
        let first = steps_of(before).flatten();
        lemma_fewer_can_plan(plans, true);
        lemma_outcomes_make_each_once(fewer, lent, start);
        let plan = plans.last();
        assert(plans[plans.len() - 1] == plan);
        let seen = seen_after(before, start);
        let last = planned(plan.tree, plan.root, lent, seen, true);
        law_sharing_makes_each_once(plan.tree, plan.root, lent, seen);
        assert(all == before.push(last));
        assert(steps_of(all) =~= steps_of(before).push(last.steps));
        steps_of(before).lemma_flatten_push(last.steps);
        assert(steps == first + last.steps);
        assert forall|s: SignatureView| #[trigger] makes(steps, s) <==> makes(first, s) || makes(
            last.steps,
            s,
        ) by {
            lemma_makes_add(first, last.steps, s);
        }
        assert forall|i: int, j: int|
            0 <= i < j < steps.len() implies #[trigger] steps[i].signature()
            != #[trigger] steps[j].signature() by {
            if i < first.len() {
                assert(steps[i] == first[i]);
                assert(makes(first, first[i].signature()));
            } else {
                assert(steps[i] == last.steps[i - first.len()]);
            }
            if j < first.len() {
                assert(steps[j] == first[j]);
            } else {
                assert(steps[j] == last.steps[j - first.len()]);
                assert(makes(last.steps, last.steps[j - first.len()].signature()));
            }
        }
    }
}

/// With sharing, a group makes no collection twice, in one rule or in several, and none that was
/// made before it. A non-recursive group leaves behind as seen what was seen and what it makes, so
/// that the groups after it do not make that again.
pub proof fn law_group_makes_each_once(
    is_recursive: bool,
    plans: Seq<RulePlanView>,
    seen: Set<SignatureView>,
)
    requires
        all_can_plan(plans, true),
    ensures
        ({
            let all = group_outcomes(is_recursive, plans, seen, false);
            let steps = steps_of(all).flatten();
            &&& makes_nothing_twice(steps)
            &&& forall|s: SignatureView| #[trigger] makes(steps, s) ==> !seen.contains(s)
            &&& !is_recursive ==> forall|s: SignatureView| #[trigger]
                seen_after(all, seen).contains(s) <==> seen.contains(s) || makes(steps, s)
        }),
{
    lemma_outcomes_make_each_once(plans, seen, set![]);
    lemma_outcomes_make_each_once(plans, set![], seen);
}

/// What is there with sharing when the `i`-th rule of a group is planned: what was seen before the
/// group, and what the rules before make.
pub open spec fn ready_before(
    is_recursive: bool,
    plans: Seq<RulePlanView>,
    seen: Set<SignatureView>,
    i: int,
) -> Set<SignatureView> {
    let before = steps_of(group_outcomes(is_recursive, plans, seen, false).take(i)).flatten();
    Set::new(|s: SignatureView| seen.contains(s) || makes(before, s))
}

/// With sharing, where no transformation of a rule makes the same collection as one below it, the
/// inputs of each step of the rule are made by steps before it, in this rule or in one before it, or
/// were seen before the group.
pub proof fn law_group_keeps_inputs_first(
    is_recursive: bool,
    plans: Seq<RulePlanView>,
    seen: Set<SignatureView>,
    i: int,
)
    requires
        all_can_plan(plans, true),
        0 <= i < plans.len(),
        nothing_feeds_itself(
            plans[i].tree,
            ready_before(is_recursive, plans, seen, i),
            plans[i].root,
        ),
    ensures
        inputs_ready(
            plans[i].tree,
            group_outcomes(is_recursive, plans, seen, false)[i].steps,
            ready_before(is_recursive, plans, seen, i),
        ),
{
    let lent = lent_to(is_recursive, seen);
    let start = seen_within(is_recursive, seen);
    let all = outcomes(plans, lent, start, true);
    let ready = ready_before(is_recursive, plans, seen, i);
    lemma_outcomes(plans, lent, start, true);
    lemma_outcomes_take(plans, lent, start, true, i);
    let earlier = plans.take(i);
    assert forall|k: int| #![trigger earlier[k]] 0 <= k < earlier.len() implies can_plan(
        earlier[k].tree,
        earlier[k].root,
        true,
    ) by {
        assert(earlier[k] == plans[k]);
    }
    lemma_outcomes_make_each_once(earlier, lent, start);
    let then = seen_after(all.take(i), start);
    assert(lent.union(then) =~= ready);
    law_sharing_keeps_inputs_first(plans[i].tree, plans[i].root, lent, then);
    assert(all[i] == planned(plans[i].tree, plans[i].root, lent, then, true));
}

/// The outcomes of the first rules are the first outcomes.
proof fn lemma_outcomes_take(
    plans: Seq<RulePlanView>,
    lent: Set<SignatureView>,
    start: Set<SignatureView>,
    sharing: bool,
    n: int,
)
    requires
        0 <= n <= plans.len(),
    ensures
        outcomes(plans.take(n), lent, start, sharing) == outcomes(plans, lent, start, sharing).take(
            n,
        ),
    decreases plans.len(),
{
    lemma_outcomes(plans, lent, start, sharing);
    let all = outcomes(plans, lent, start, sharing);
    if n == plans.len() {
        assert(plans.take(n) =~= plans);
        assert(all.take(n) =~= all);
    } else {
        let fewer = plans.drop_last();
        lemma_outcomes_take(fewer, lent, start, sharing, n);
        lemma_outcomes(fewer, lent, start, sharing);
        assert(fewer.take(n) =~= plans.take(n));
        assert(outcomes(fewer, lent, start, sharing).take(n) =~= all.take(n));
    }
}

/// Without sharing, each rule is carried out in full: its steps end with its last transformation,
/// inputs come first, and neither what was seen nor the other rules play a role.
pub proof fn law_unshared_rules_are_complete(
    is_recursive: bool,
    plans: Seq<RulePlanView>,
    seen: Set<SignatureView>,
    i: int,
)
    requires
        all_can_plan(plans, false),
        0 <= i < plans.len(),
    ensures
        ({
            let steps = group_outcomes(is_recursive, plans, seen, true)[i].steps;
            &&& steps == planned(plans[i].tree, plans[i].root, set![], set![], false).steps
            &&& steps.len() > 0
            &&& steps.last() == plans[i].root
            &&& inputs_precede(plans[i].tree, steps)
        }),
{
    let lent = lent_to(is_recursive, seen);
    let start = seen_within(is_recursive, seen);
    let all = outcomes(plans, lent, start, false);
    lemma_outcomes(plans, lent, start, false);
    let then = seen_after(all.take(i), start);
    assert(all[i] == planned(plans[i].tree, plans[i].root, lent, then, false));
    law_without_sharing_all_is_made(plans[i].tree, plans[i].root, lent, then);
    law_root_comes_last(plans[i].tree, plans[i].root, lent, then, false);
}

/// The heads by name are the heads under which last collections are listed.
pub proof fn law_heads_are_the_listed_ones(plans: Seq<RulePlanView>, name: Seq<char>)
    ensures
        heads_of(Seq::new(plans.len(), |i: int| plans[i].rule)).contains_key(name)
            <==> last_signatures(plans).contains_key(SignatureView::Atom { name }),
    decreases plans.len(),
{
    let rules = Seq::new(plans.len(), |i: int| plans[i].rule);
    let head = SignatureView::Atom { name };
    if plans.len() > 0 {
        let fewer = plans.drop_last();
        law_heads_are_the_listed_ones(fewer, name);
        assert(rules.drop_last() =~= Seq::new(fewer.len(), |i: int| fewer[i].rule));
        if last_signatures(plans).contains_key(head) {
            let i = choose|i: int| 0 <= i < plans.len() && #[trigger] plans[i].head() == head;
            if i < fewer.len() {
                assert(fewer[i].head() == head);
            }
        }
        if last_signatures(fewer).contains_key(head) {
            let i = choose|i: int| 0 <= i < fewer.len() && #[trigger] fewer[i].head() == head;
            assert(plans[i].head() == head);
        }
        if plans.last().rule.name == name {
            assert(plans[plans.len() - 1].head() == head);
        }
    }
}

/// Without sharing, a non-recursive group leaves behind as seen no more than what was seen.
pub proof fn law_unshared_group_marks_nothing(plans: Seq<RulePlanView>, seen: Set<SignatureView>)
    requires
        all_can_plan(plans, false),
    ensures
        seen_after(group_outcomes(false, plans, seen, true), seen) == seen,
    decreases plans.len(),
{
    if plans.len() > 0 {
        let fewer = plans.drop_last();
        lemma_fewer_can_plan(plans, false);
        law_unshared_group_marks_nothing(fewer, seen);
        assert(plans[plans.len() - 1] == plans.last());
        law_without_sharing_all_is_made(plans.last().tree, plans.last().root, set![], seen);
    }
}

/// Where planning each of the rules ends, planning each of all but the last ends.
proof fn lemma_fewer_can_plan(plans: Seq<RulePlanView>, sharing: bool)
    requires
        plans.len() > 0,
        all_can_plan(plans, sharing),
    ensures
        all_can_plan(plans.drop_last(), sharing),
{
    let fewer = plans.drop_last();
    assert forall|i: int| #![trigger fewer[i]] 0 <= i < fewer.len() implies can_plan(
        fewer[i].tree,
        fewer[i].root,
        sharing,
    ) by {
        assert(fewer[i] == plans[i]);
    }
}

/// A recursive group carries out what a non-recursive one would: what was made before it is left out
/// either way, unless sharing is disabled, and then it is made again either way.
pub proof fn law_recursion_makes_the_same(
    plans: Seq<RulePlanView>,
    seen: Set<SignatureView>,
    disable_sharing: bool,
)
    requires
        all_can_plan(plans, !disable_sharing),
    ensures
        steps_of(group_outcomes(true, plans, seen, disable_sharing)) == steps_of(
            group_outcomes(false, plans, seen, disable_sharing),
        ),
{
    lemma_lent_or_seen(plans, seen, !disable_sharing);
}

proof fn lemma_lent_or_seen(plans: Seq<RulePlanView>, seen: Set<SignatureView>, sharing: bool)
    requires
        all_can_plan(plans, sharing),
    ensures
        ({
            let lent = outcomes(plans, seen, set![], sharing);
            let left_out = outcomes(plans, set![], seen, sharing);
            &&& steps_of(lent) == steps_of(left_out)
            &&& seen_after(left_out, seen) == seen.union(seen_after(lent, set![]))
        }),
    decreases plans.len(),
{
    let lent = outcomes(plans, seen, set![], sharing);
    let left_out = outcomes(plans, set![], seen, sharing);
    if plans.len() == 0 {
        assert(steps_of(lent) =~= steps_of(left_out));
        assert(seen.union(set![]) =~= seen);
    } else {
        let fewer = plans.drop_last();
        let plan = plans.last();
        lemma_fewer_can_plan(plans, sharing);
        lemma_lent_or_seen(fewer, seen, sharing);
        assert(plans[plans.len() - 1] == plan);
        let lent_before = outcomes(fewer, seen, set![], sharing);
        let left_out_before = outcomes(fewer, set![], seen, sharing);
        law_lent_is_left_out_like_seen(
            plan.tree,
            plan.root,
            seen,
            seen_after(lent_before, set![]),
            sharing,
        );
        assert(steps_of(lent) =~= steps_of(lent_before).push(lent.last().steps));
        assert(steps_of(left_out) =~= steps_of(left_out_before).push(left_out.last().steps));
    }
}

/// A recursive group takes from outside exactly what the steps of its rules read without having it
/// made in a tree, and those collections made before it that its steps consume or in which its rules
/// end.
pub proof fn law_group_scope_comes_from_outside(
    plans: Seq<RulePlanView>,
    seen: Set<SignatureView>,
    disable_sharing: bool,
    s: SignatureView,
)
    requires
        all_can_plan(plans, !disable_sharing),
    ensures
        ({
            let all = group_outcomes(true, plans, seen, disable_sharing);
            scope_of(all).contains(s) <==> exists|i: int|
                #![trigger all[i]]
                0 <= i < plans.len() && {
                    ||| reads(plans[i].tree, all[i].steps, s)
                    ||| !disable_sharing && seen.contains(s) && (s == plans[i].root.signature()
                        || consumes(plans[i].tree, all[i].steps, s))
                }
        }),
{
    let all = group_outcomes(true, plans, seen, disable_sharing);
    lemma_outcomes(plans, seen, set![], !disable_sharing);
    assert forall|i: int| #![trigger all[i]] 0 <= i < plans.len() implies (
    all[i].scope.contains(s) <==> {
        ||| reads(plans[i].tree, all[i].steps, s)
        ||| !disable_sharing && seen.contains(s) && (s == plans[i].root.signature() || consumes(
            plans[i].tree,
            all[i].steps,
            s,
        ))
    }) by {
        law_scope_is_what_comes_from_outside(
            plans[i].tree,
            plans[i].root,
            seen,
            seen_after(all.take(i), set![]),
            !disable_sharing,
        );
    }
}

/// Whether each transformation of the rules that is not made from others has a single input.
pub open spec fn all_leaves_are_unary(plans: Seq<RulePlanView>) -> bool {
    forall|i: int, step: TransformationView|
        0 <= i < plans.len() && #[trigger] is_from(plans[i].tree, plans[i].root, step)
            && !plans[i].tree.contains_key(step) ==> step.operator.is_unary()
}

/// Rules can be planned together where planning each of them ends, and their transformations that
/// are not made from others have a single input.
pub proof fn law_unary_leaves_can_be_planned(
    is_recursive: bool,
    plans: Seq<RulePlanView>,
    seen: Set<SignatureView>,
    disable_sharing: bool,
)
    requires
        all_can_plan(plans, !disable_sharing),
        all_leaves_are_unary(plans),
    ensures
        can_plan_group(is_recursive, plans, seen, disable_sharing),
{
    let all = group_outcomes(is_recursive, plans, seen, disable_sharing);
    let lent = lent_to(is_recursive, seen);
    let start = seen_within(is_recursive, seen);
    lemma_outcomes(plans, lent, start, !disable_sharing);
    assert forall|i: int| #![trigger plans[i]] 0 <= i < plans.len() implies leaves_are_unary(
        plans[i].tree,
        all[i].steps,
    ) by {
        law_steps_come_from_the_tree(
            plans[i].tree,
            plans[i].root,
            lent,
            seen_after(all.take(i), start),
            !disable_sharing,
        );
    }
}

/// The rules of a group are planned in turn. Outside of recursion the first one leaves out what was
/// seen before the group, and each other what was seen once the one before it was planned. In
/// recursion each borrows what was seen before the group, and leaves out what the rules before it
/// have planned.
pub proof fn law_rules_are_planned_in_turn(
    is_recursive: bool,
    plans: Seq<RulePlanView>,
    seen: Set<SignatureView>,
    disable_sharing: bool,
    i: int,
)
    requires
        0 <= i < plans.len(),
    ensures
        ({
            let all = group_outcomes(is_recursive, plans, seen, disable_sharing);
            let lent = if is_recursive {
                seen
            } else {
                set![]
            };
            let then = if i > 0 {
                all[i - 1].seen
            } else if is_recursive {
                set![]
            } else {
                seen
            };
            &&& all.len() == plans.len()
            &&& all[i] == planned(plans[i].tree, plans[i].root, lent, then, !disable_sharing)
        }),
{
    let lent = lent_to(is_recursive, seen);
    let start = seen_within(is_recursive, seen);
    let all = group_outcomes(is_recursive, plans, seen, disable_sharing);
    lemma_outcomes(plans, lent, start, !disable_sharing);
    assert(all[i] == planned(
        plans[i].tree,
        plans[i].root,
        lent,
        seen_after(all.take(i), start),
        !disable_sharing,
    ));
    if i > 0 {
        assert(all.take(i).last() == all[i - 1]);
    }
}

/// What is seen after a group is what was seen once its last rule was planned; a group without rules
/// has seen nothing new.
pub proof fn law_the_last_rule_leaves_what_is_seen(
    is_recursive: bool,
    plans: Seq<RulePlanView>,
    seen: Set<SignatureView>,
    disable_sharing: bool,
)
    ensures
        ({
            let all = group_outcomes(is_recursive, plans, seen, disable_sharing);
            seen_after(all, seen) == (if plans.len() == 0 {
                seen
            } else {
                all[plans.len() - 1].seen
            })
        }),
{
    lemma_outcomes(
        plans,
        lent_to(is_recursive, seen),
        seen_within(is_recursive, seen),
        !disable_sharing,
    );
}

/// A planned group has for each rule what belongs to that rule: the rule itself, the transformations
/// planned for it, which end with its own root unless the root's output was there, and as its last
/// collection the output of its own root; and this is listed under the rule's head, behind those of
/// the rules before it with the same head.
pub proof fn law_planned_groups_keep_rules_apart(
    group: GroupView,
    is_recursive: bool,
    plans: Seq<RulePlanView>,
    seen: Set<SignatureView>,
    disable_sharing: bool,
    i: int,
)
    requires
        group.is_plan_of(is_recursive, plans, seen, disable_sharing),
        all_can_plan(plans, !disable_sharing),
        0 <= i < plans.len(),
    ensures
        group.is_recursive == is_recursive,
        group.rules.len() == plans.len(),
        group.strata_plan.len() == plans.len(),
        group.per_rule_last.len() == plans.len(),
        group.rules[i] == plans[i].rule,
        group.strata_plan[i] == group_outcomes(
            is_recursive,
            plans,
            seen,
            disable_sharing,
        )[i].steps,
        group.strata_plan[i].len() > 0 ==> group.strata_plan[i].last() == plans[i].root,
        group.per_rule_last[i] == plans[i].root.output,
        ({
            let head = SignatureView::Atom { name: plans[i].rule.name };
            let n = plans.take(i).filter(
                |p: RulePlanView| p.rule.name == plans[i].rule.name,
            ).len() as int;
            &&& group.last_signatures.contains_key(head)
            &&& n < group.last_signatures[head].len()
            &&& group.last_signatures[head][n] == group.per_rule_last[i].signature
        }),
{
    law_lasts_stand_in_rule_order(plans, i);
    law_rules_are_planned_in_turn(is_recursive, plans, seen, disable_sharing, i);
    let all = group_outcomes(is_recursive, plans, seen, disable_sharing);
    let lent = lent_to(is_recursive, seen);
    let then = if i > 0 {
        all[i - 1].seen
    } else {
        seen_within(is_recursive, seen)
    };
    law_root_comes_last(plans[i].tree, plans[i].root, lent, then, !disable_sharing);
}

/// The map of a planned group lists under each head what the rules list, and its reverse counts the
/// same the other way round.
pub proof fn law_planned_groups_list_lasts(
    group: GroupView,
    is_recursive: bool,
    plans: Seq<RulePlanView>,
    seen: Set<SignatureView>,
    disable_sharing: bool,
    last: SignatureView,
    head: SignatureView,
)
    requires
        group.is_plan_of(is_recursive, plans, seen, disable_sharing),
    ensures
        group.last_signatures == last_signatures(plans),
        is_reverse(group.last_signatures, group.reverse_last_signatures),
        group.reverse_last_signatures.contains_key(last) && group.last_signatures.contains_key(head)
            ==> group.reverse_last_signatures[last].to_multiset().count(head)
            == group.last_signatures[head].to_multiset().count(last),
{
    law_reverse_counts_the_same(group.last_signatures, group.reverse_last_signatures, last, head);
}

/// Whether a rule takes `s` from outside: its `steps` read it without having it made in the tree, or
/// it was seen before the group and, with sharing, the steps consume it or the rule ends in it.
pub open spec fn takes_from_outside(
    plan: RulePlanView,
    steps: Seq<TransformationView>,
    seen: Set<SignatureView>,
    disable_sharing: bool,
    s: SignatureView,
) -> bool {
    ||| reads(plan.tree, steps, s)
    ||| !disable_sharing && seen.contains(s) && (s == plan.root.output.signature || consumes(
        plan.tree,
        steps,
        s,
    ))
}

/// A recursive group that was planned takes from outside what its rules take, and nothing else; a
/// non-recursive one takes nothing.
pub proof fn law_planned_groups_take_from_outside(
    group: GroupView,
    is_recursive: bool,
    plans: Seq<RulePlanView>,
    seen: Set<SignatureView>,
    disable_sharing: bool,
    s: SignatureView,
)
    requires
        group.is_plan_of(is_recursive, plans, seen, disable_sharing),
        all_can_plan(plans, !disable_sharing),
    ensures
        group.enter_scope.contains(s) <==> is_recursive && exists|i: int|
            0 <= i < plans.len() && #[trigger] takes_from_outside(
                plans[i],
                group.strata_plan[i],
                seen,
                disable_sharing,
                s,
            ),
{
    if is_recursive {
        let all = group_outcomes(true, plans, seen, disable_sharing);
        lemma_outcomes(plans, seen, set![], !disable_sharing);
        assert forall|i: int| 0 <= i < plans.len() implies (all[i].scope.contains(s)
            <==> #[trigger] takes_from_outside(
            plans[i],
            group.strata_plan[i],
            seen,
            disable_sharing,
            s,
        )) by {
            assert(group.strata_plan[i] == all[i].steps);
            law_scope_is_what_comes_from_outside(
                plans[i].tree,
                plans[i].root,
                seen,
                seen_after(all.take(i), set![]),
                !disable_sharing,
            );
        }
        if group.enter_scope.contains(s) {
            let i = choose|i: int| 0 <= i < all.len() && #[trigger] all[i].scope.contains(s);
            assert(takes_from_outside(
                plans[i],
                group.strata_plan[i],
                seen,
                disable_sharing,
                s,
            ));
        }
        if exists|i: int|
            0 <= i < plans.len() && #[trigger] takes_from_outside(
                plans[i],
                group.strata_plan[i],
                seen,
                disable_sharing,
                s,
            ) {
            let i = choose|i: int|
                0 <= i < plans.len() && #[trigger] takes_from_outside(
                    plans[i],
                    group.strata_plan[i],
                    seen,
                    disable_sharing,
                    s,
                );
            assert(all[i].scope.contains(s));
        }
    }
}

/// After a group, exactly that is seen which was seen before it, and, with sharing and outside of
/// recursion, what the transformations of the group make.
pub proof fn law_groups_leave_what_they_make(
    group: GroupView,
    is_recursive: bool,
    plans: Seq<RulePlanView>,
    seen: Set<SignatureView>,
    disable_sharing: bool,
    s: SignatureView,
)
    requires
        group.is_plan_of(is_recursive, plans, seen, disable_sharing),
        all_can_plan(plans, !disable_sharing),
    ensures
        seen_behind(is_recursive, plans, seen, disable_sharing).contains(s) <==> {
            ||| seen.contains(s)
            ||| !is_recursive && !disable_sharing && exists|n: int|
                0 <= n < group.strata_plan.flatten().len() && (
                #[trigger] group.strata_plan.flatten()[n]).output.signature == s
        },
{
    let steps = group.strata_plan.flatten();
    if !is_recursive {
        if disable_sharing {
            law_unshared_group_marks_nothing(plans, seen);
        } else {
            law_group_makes_each_once(false, plans, seen);
            assert(seen_behind(false, plans, seen, false).contains(s) <==> seen.contains(s)
                || makes(steps, s));
            if makes(steps, s) {
                let n = choose|n: int| 0 <= n < steps.len() && #[trigger] steps[n].signature() == s;
                assert(steps[n].output.signature == s);
            }
            if exists|n: int|
                0 <= n < steps.len() && (#[trigger] steps[n]).output.signature == s {
                let n = choose|n: int|
                    0 <= n < steps.len() && (#[trigger] steps[n]).output.signature == s;
                assert(steps[n].signature() == s);
            }
        }
    }
}

/// The head signatures of a planned group are the relations that its rules define, but for those whose
/// name has the mark of a sideways rule anywhere in it.
pub proof fn law_heads_without_sideways_rules(
    group: GroupView,
    is_recursive: bool,
    plans: Seq<RulePlanView>,
    seen: Set<SignatureView>,
    disable_sharing: bool,
    s: SignatureView,
)
    requires
        group.is_plan_of(is_recursive, plans, seen, disable_sharing),
    ensures
        group.head_signatures().contains(s) <==> {
            &&& exists|i: int|
                0 <= i < plans.len() && s == (SignatureView::Atom {
                    name: (#[trigger] plans[i]).rule.name,
                })
            &&& !exists|before: Seq<char>, behind: Seq<char>|
                s->Atom_name == #[trigger] (before + "_sip"@ + behind)
        },
{
    if exists|i: int|
        0 <= i < plans.len() && s == (SignatureView::Atom {
            name: (#[trigger] plans[i]).rule.name,
        }) {
        let i = choose|i: int|
            0 <= i < plans.len() && s == (SignatureView::Atom {
                name: (#[trigger] plans[i]).rule.name,
            });
        assert(plans[i].head() == s);
        assert(s.name() == s->Atom_name);
        law_occurring_is_standing_between("_sip"@, s->Atom_name);
    }
    if group.last_signatures.contains_key(s) {
        let i = choose|i: int| 0 <= i < plans.len() && #[trigger] plans[i].head() == s;
        assert(s == (SignatureView::Atom { name: plans[i].rule.name }));
    }
}

} // verus!
