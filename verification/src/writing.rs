//! Planned groups whose outputs are named can be written.

use crate::collections::SignatureView;
use crate::expressions::atom_text;
use crate::group::{
    group_outcomes, lemma_outcomes, lemma_step_of_group, lent_to, seen_after, seen_within, steps_of,
    GroupView,
};
use crate::names::{dl_name, has_name};
use crate::numbering::{law_named_outputs_are_found, law_outputs_are_named, Numbering};
use crate::order::{is_from, is_ready, law_steps_come_from_the_tree, makes, nothing_feeds_itself};
use crate::rendering::{
    collection_args, extends, flow_fits, has_body, has_lines, law_rules_without_steps_copy,
};
use crate::rule::RulePlanView;
use crate::sharing::{
    all_can_plan, law_group_keeps_inputs_first, law_group_makes_each_once,
    law_unshared_group_marks_nothing, law_unshared_rules_are_complete, ready_before,
};
use crate::transformations::TransformationView;
use vstd::prelude::*;

verus! {

/// Whether `step` reads what the tree says: in the tree, the outputs of its two inputs; otherwise, a
/// single collection that has a name.
pub open spec fn reads_as_planned(
    plan: RulePlanView,
    step: TransformationView,
    names: Map<SignatureView, Seq<char>>,
) -> bool {
    if plan.tree.contains_key(step) {
        &&& step.left.signature == plan.tree[step].0.signature()
        &&& step.right matches Some(right) ==> right.signature == plan.tree[step].1.signature()
    } else {
        step.right is None && has_name(step.left.signature, names)
    }
}

/// Whether the transformations of all rules read what the trees say, and their flows only speak of
/// positions that are there.
pub open spec fn all_read_as_planned(
    plans: Seq<RulePlanView>,
    names: Map<SignatureView, Seq<char>>,
) -> bool {
    forall|i: int, step: TransformationView|
        0 <= i < plans.len() && #[trigger] is_from(plans[i].tree, plans[i].root, step)
            ==> reads_as_planned(plans[i], step, names) && flow_fits(step)
}

/// Whether, with sharing, no transformation of the rules makes the same collection as one below it.
pub open spec fn none_feed_themselves(
    is_recursive: bool,
    plans: Seq<RulePlanView>,
    seen: Set<SignatureView>,
) -> bool {
    forall|i: int|
        #![trigger plans[i]]
        0 <= i < plans.len() ==> nothing_feeds_itself(
            plans[i].tree,
            ready_before(is_recursive, plans, seen, i),
            plans[i].root,
        )
}

/// Whether all collections in `seen` have names.
pub open spec fn all_have_names(
    seen: Set<SignatureView>,
    names: Map<SignatureView, Seq<char>>,
) -> bool {
    forall|s: SignatureView| #[trigger] seen.contains(s) ==> has_name(s, names)
}

/// What the rules of a group up to the `n`-th make has a name.
proof fn lemma_made_is_named(group: GroupView, before: Numbering, n: int, s: SignatureView)
    requires
        group.wf(),
        before.names.dom().finite(),
        0 <= n <= group.rules.len(),
        makes(group.strata_plan.take(n).flatten(), s),
    ensures
        has_name(s, before.all_named(group.outputs()).names),
{
    let plan = group.strata_plan.take(n);
    let steps = plan.flatten();
    let k = choose|k: int| 0 <= k < steps.len() && #[trigger] steps[k].signature() == s;
    lemma_step_of_group(plan, k);
    let (i, j) = choose|i: int, j: int|
        0 <= i < plan.len() && 0 <= j < plan[i].len() && #[trigger] plan[i][j] == steps[k];
    law_named_outputs_are_found(group, before, i);
    assert(group.strata_plan[i][j].signature() == s);
}

/// The inputs of each transformation of a planned group have names, once its outputs have.
proof fn lemma_inputs_are_named(
    group: GroupView,
    is_recursive: bool,
    plans: Seq<RulePlanView>,
    seen: Set<SignatureView>,
    disable_sharing: bool,
    before: Numbering,
    i: int,
    j: int,
)
    requires
        group.is_plan_of(is_recursive, plans, seen, disable_sharing),
        all_can_plan(plans, !disable_sharing),
        !disable_sharing ==> none_feed_themselves(is_recursive, plans, seen),
        before.names.dom().finite(),
        all_have_names(seen, before.names),
        all_read_as_planned(plans, before.names),
        0 <= i < group.rules.len(),
        0 <= j < group.strata_plan[i].len(),
    ensures
        has_body(group.strata_plan[i][j], before.all_named(group.outputs()).names),
{
    let all = group_outcomes(is_recursive, plans, seen, disable_sharing);
    let names = before.all_named(group.outputs()).names;
    let steps = group.strata_plan[i];
    let step = steps[j];
    let tree = plans[i].tree;
    let lent = lent_to(is_recursive, seen);
    let start = seen_within(is_recursive, seen);
    lemma_outcomes(plans, lent, start, !disable_sharing);
    let then = seen_after(all.take(i), start);
    law_steps_come_from_the_tree(tree, plans[i].root, lent, then, !disable_sharing);
    assert(steps == all[i].steps);
    assert(is_from(tree, plans[i].root, step));
    law_named_outputs_are_found(group, before, i);
    assert(extends(names, before.names));
    if tree.contains_key(step) {
        let l = tree[step].0.signature();
        let r = tree[step].1.signature();
        if disable_sharing {
            law_unshared_rules_are_complete(is_recursive, plans, seen, i);
            let earlier = steps.take(j);
            assert(earlier.contains(tree[step].0) && earlier.contains(tree[step].1));
            let a = choose|a: int| 0 <= a < earlier.len() && earlier[a] == tree[step].0;
            let b = choose|b: int| 0 <= b < earlier.len() && earlier[b] == tree[step].1;
            assert(steps[a].signature() == l);
            assert(steps[b].signature() == r);
        } else {
            law_group_keeps_inputs_first(is_recursive, plans, seen, i);
            let made = steps_of(all.take(i)).flatten();
            let ready = ready_before(is_recursive, plans, seen, i);
            assert(is_ready(steps.take(j), ready, l) && is_ready(steps.take(j), ready, r));
            assert(steps_of(all.take(i)) =~= group.strata_plan.take(i));
            assert forall|s: SignatureView| #[trigger]
                is_ready(steps.take(j), ready, s) implies has_name(s, names) by {
                if makes(made, s) {
                    lemma_made_is_named(group, before, i, s);
                } else if makes(steps.take(j), s) {
                    let k = choose|k: int|
                        0 <= k < steps.take(j).len() && #[trigger] steps.take(j)[k].signature()
                            == s;
                    assert(steps[k].signature() == s);
                }
            }
        }
    }
}

/// Naming the outputs of a group is all it takes to write it. Where everything that was made before
/// the group has a name, where its transformations read what the trees say, and where, with sharing,
/// none makes the same collection as one below it, then with the group's outputs named all its
/// Datalog rules can be written and all its relations declared; and everything that was made before
/// or in the group has a name, so that the same holds of the next group.
pub proof fn law_named_groups_can_be_written(
    group: GroupView,
    is_recursive: bool,
    plans: Seq<RulePlanView>,
    seen: Set<SignatureView>,
    disable_sharing: bool,
    before: Numbering,
)
    requires
        group.is_plan_of(is_recursive, plans, seen, disable_sharing),
        all_can_plan(plans, !disable_sharing),
        !disable_sharing ==> none_feed_themselves(is_recursive, plans, seen),
        before.names.dom().finite(),
        all_have_names(seen, before.names),
        all_read_as_planned(plans, before.names),
    ensures
        ({
            let names = before.all_named(group.outputs()).names;
            &&& group.can_write(names)
            &&& group.arities_fit() ==> group.can_declare(names)
            &&& all_have_names(seen, names)
            &&& !is_recursive ==> all_have_names(
                seen_after(
                    group_outcomes(is_recursive, plans, seen, disable_sharing),
                    seen,
                ),
                names,
            )
        }),
{
    let all = group_outcomes(is_recursive, plans, seen, disable_sharing);
    let after = before.all_named(group.outputs());
    law_outputs_are_named(before, group.outputs());
    assert forall|i: int|
        #![trigger group.strata_plan[i]]
        0 <= i < group.strata_plan.len() implies has_lines(
        group.strata_plan[i],
        group.per_rule_last[i],
        after.names,
    ) by {
        law_named_outputs_are_found(group, before, i);
        let steps = group.strata_plan[i];
        assert forall|j: int| #![trigger steps[j]] 0 <= j < steps.len() implies has_body(
            steps[j],
            after.names,
        ) && has_name(steps[j].signature(), after.names) by {
            lemma_inputs_are_named(
                group,
                is_recursive,
                plans,
                seen,
                disable_sharing,
                before,
                i,
                j,
            );
            assert(has_name(group.strata_plan[i][j].signature(), after.names));
        }
    }
    assert forall|i: int, j: int|
        #![trigger group.strata_plan[i][j]]
        0 <= i < group.strata_plan.len() && 0 <= j < group.strata_plan[i].len() implies has_name(
        group.strata_plan[i][j].signature(),
        after.names,
    ) by {
        law_named_outputs_are_found(group, before, i);
    }
    if !is_recursive {
        let left = seen_after(all, seen);
        if disable_sharing {
            law_unshared_group_marks_nothing(plans, seen);
        } else {
            law_group_makes_each_once(is_recursive, plans, seen);
            assert forall|s: SignatureView| #[trigger] left.contains(s) implies has_name(
                s,
                after.names,
            ) by {
                if !seen.contains(s) {
                    let n = group.rules.len() as int;
                    assert(group.strata_plan.take(n) =~= group.strata_plan);
                    lemma_made_is_named(group, before, n, s);
                }
            }
        }
    }
}

/// In a planned group, a rule whose transformations are all carried out for others is written as a
/// copy of the collection that its own root makes, with the arguments of that.
pub proof fn law_shared_rules_copy_their_own_root(
    group: GroupView,
    is_recursive: bool,
    plans: Seq<RulePlanView>,
    seen: Set<SignatureView>,
    disable_sharing: bool,
    names: Map<SignatureView, Seq<char>>,
    i: int,
)
    requires
        group.is_plan_of(is_recursive, plans, seen, disable_sharing),
        0 <= i < plans.len(),
        group.strata_plan[i].len() == 0,
    ensures
        ({
            let own = plans[i].root.output;
            let args = collection_args(own, plans[i].rule.catalog);
            group.lines(names)[i] == seq![
                atom_text(plans[i].rule.name, args, false) + seq![' ', ':', '-', ' '] + atom_text(
                    dl_name(own.signature, names),
                    args,
                    false,
                ) + seq!['.'],
            ]
        }),
{
    law_rules_without_steps_copy(group, names, i);
}

} // verus!
