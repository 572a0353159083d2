//! Plans of groups of strata.

use crate::collections::{
    Collection, CollectionSignature, SignatureMap, SignatureSet, SignatureView,
};
use crate::declarations::{
    declares, first_of_each, intermediate, lemma_declares_push, outputs_declared,
};
use crate::expressions::format_atom_with_vars;
use crate::group::{
    can_plan_group, group_outcomes, heads_of, leaves_are_unary, lemma_outcome, lemma_outcomes_len,
    lemma_scope_push, lemma_step_of_group, scope_of, seen_after, seen_behind, steps_of, GroupView,
};
use crate::heads::{collect_last_signatures, reverse_signatures};
use crate::layout::{
    by_rule, format_group, group_text, lemma_prefix_len, list_views, slice_of,
};
use crate::model::{lemma_views_add, lemma_views_push, share, share_all, views};
use crate::names::{collection_dl_args, lookup_dl_name, type_prefix};
use crate::numbering::{lemma_counter_grows, Numbering};
use crate::order::{law_lent_is_left_out_like_seen, law_without_sharing_all_is_made};
use crate::rendering::{format_body, format_rule, has_lines, rule_lines};
use crate::rule::{FLRule, RuleQueryPlan};
use crate::schedule::{depth, lemma_planned_step, planned, unfolds};
use crate::text::{contains, occurs_in, to_decimal};
use crate::transformations::{Transformation, TransformationTree, TransformationView};
use std::sync::Arc;
use vstd::hash_map::StringHashMap;
use vstd::hash_set::StringHashSet;
use vstd::prelude::*;

verus! {

/// A group of non-recursive strata, or one recursive stratum.
#[derive(Debug)]
pub struct GroupStrataQueryPlan {
    is_recursive: bool,
    rules: Vec<FLRule>,
    enter_scope: SignatureSet,
    last_signatures_map: SignatureMap<Vec<Arc<CollectionSignature>>>,
    reverse_last_signatures_map: SignatureMap<Vec<Arc<CollectionSignature>>>,
    strata_plan: Vec<Vec<Transformation>>,
    per_rule_last_collection: Vec<Arc<Collection>>,
}

impl View for GroupStrataQueryPlan {
    type V = GroupView;

    closed spec fn view(&self) -> GroupView {
        GroupView {
            is_recursive: self.is_recursive,
            rules: views(self.rules@),
            enter_scope: self.enter_scope@,
            last_signatures: self.last_signatures_map@,
            reverse_last_signatures: self.reverse_last_signatures_map@,
            strata_plan: steps_views(self.strata_plan@),
            per_rule_last: views(self.per_rule_last_collection@),
        }
    }
}

/// The views of the transformations of each rule.
pub open spec fn steps_views(plan: Seq<Vec<Transformation>>) -> Seq<Seq<TransformationView>> {
    Seq::new(plan.len(), |i: int| views(plan[i]@))
}

impl GroupStrataQueryPlan {
    /// Each rule has its transformations and its last collection.
    #[verifier::type_invariant]
    spec fn complete(&self) -> bool {
        &&& self.strata_plan@.len() == self.rules@.len()
        &&& self.per_rule_last_collection@.len() == self.rules@.len()
    }

    /// Plans a group of rules in the order in which they are given, each after the others.
    ///
    /// Unless sharing is disabled, no collection is made twice. A non-recursive group leaves out
    /// what is in `seen_set` and adds what it makes. A recursive group borrows what is in
    /// `seen_set`, and adds nothing to it.
    pub fn new(
        is_recursive: bool,
        rule_plans: Vec<RuleQueryPlan>,
        seen_set: &mut SignatureSet,
        disable_sharing: bool,
    ) -> (group: GroupStrataQueryPlan)
        requires
            can_plan_group(is_recursive, views(rule_plans@), old(seen_set)@, disable_sharing),
        ensures
            group@.is_plan_of(
                is_recursive,
                views(rule_plans@),
                old(seen_set)@,
                disable_sharing,
            ),
            final(seen_set)@ == (if is_recursive {
                old(seen_set)@
            } else {
                seen_after(
                    group_outcomes(
                        is_recursive,
                        views(rule_plans@),
                        old(seen_set)@,
                        disable_sharing,
                    ),
                    old(seen_set)@,
                )
            }),
            final(seen_set)@ == seen_behind(
                is_recursive,
                views(rule_plans@),
                old(seen_set)@,
                disable_sharing,
            ),
    {
        let ghost plans = views(rule_plans@);
        let ghost start = seen_set@;
        let ghost all = group_outcomes(is_recursive, plans, start, disable_sharing);
        let last_signatures_map = collect_last_signatures(&rule_plans);
        let reverse_last_signatures_map = reverse_signatures(&last_signatures_map);
        let mut rules: Vec<FLRule> = Vec::new();
        let mut per_rule_last_collection: Vec<Arc<Collection>> = Vec::new();
        let mut strata_plan: Vec<Vec<Transformation>> = Vec::new();
        let mut enter_scope = SignatureSet::new();
        let mut nested_seen = SignatureSet::new();
        let mut i: usize = 0;
        proof {
            assert(steps_views(strata_plan@) =~= steps_of(all.take(0)));
            assert(enter_scope@ =~= scope_of(all.take(0)));
            lemma_outcomes_len(is_recursive, plans, start, disable_sharing);
        }
        while i < rule_plans.len()
            invariant
                i <= rule_plans@.len(),
                plans == views(rule_plans@),
                all == group_outcomes(is_recursive, plans, start, disable_sharing),
                all.len() == plans.len(),
                can_plan_group(is_recursive, plans, start, disable_sharing),
                rules@.len() == i,
                forall|j: int| 0 <= j < i ==> #[trigger] rules@[j]@ == plans[j].rule,
                per_rule_last_collection@.len() == i,
                forall|j: int|
                    0 <= j < i ==> #[trigger] per_rule_last_collection@[j]@ == plans[j].root.output,
                strata_plan@.len() == i,
                steps_views(strata_plan@) == steps_of(all.take(i as int)),
                is_recursive ==> enter_scope@ == scope_of(all.take(i as int)),
                is_recursive ==> seen_set@ == start && nested_seen@ == seen_after(
                    all.take(i as int),
                    set![],
                ),
                !is_recursive ==> enter_scope@ == Set::<SignatureView>::empty() && seen_set@
                    == seen_after(all.take(i as int), start),
            decreases rule_plans@.len() - i,
        {
            let rule_plan = &rule_plans[i];
            proof {
                assert(plans[i as int] == rule_plan@);
                lemma_outcome(is_recursive, plans, start, disable_sharing, i as int);
            }
            rules.push(rule_plan.rule.clone());
            per_rule_last_collection.push(share(rule_plan.root.output()));
            let ghost plan_before = strata_plan@;
            let plan = if !is_recursive {
                Self::construct_non_recursive(
                    seen_set,
                    &rule_plan.root,
                    &rule_plan.tree,
                    disable_sharing,
                )
            } else {
                let (plan, rule_enter_scope) = Self::construct_recursive(
                    seen_set,
                    &mut nested_seen,
                    &rule_plan.root,
                    &rule_plan.tree,
                    disable_sharing,
                );
                enter_scope.extend(&rule_enter_scope);
                plan
            };
            strata_plan.push(plan);
            proof {
                assert(all.take(i + 1) =~= all.take(i as int).push(all[i as int]));
                assert(steps_views(strata_plan@) =~= steps_views(plan_before).push(views(plan@)));
                assert(steps_of(all.take(i + 1)) =~= steps_of(all.take(i as int)).push(
                    all[i as int].steps,
                ));
                if is_recursive {
                    lemma_scope_push(all.take(i as int), all[i as int]);
                }
            }
            i += 1;
        }
        let group = GroupStrataQueryPlan {
            is_recursive,
            rules,
            enter_scope,
            last_signatures_map,
            reverse_last_signatures_map,
            strata_plan,
            per_rule_last_collection,
        };
        proof {
            assert(all.take(all.len() as int) =~= all);
            assert(group@.rules =~= Seq::new(plans.len(), |i: int| plans[i].rule));
            assert(group@.per_rule_last =~= Seq::new(plans.len(), |i: int| plans[i].root.output));
        }
        group
    }

    pub fn is_recursive(&self) -> (is_recursive: bool)
        ensures
            is_recursive == self@.is_recursive,
    {
        self.is_recursive
    }

    pub fn rules(&self) -> (rules: &Vec<FLRule>)
        ensures
            views(rules@) == self@.rules,
            self@.wf(),
    {
        proof {
            use_type_invariant(self);
        }
        &self.rules
    }

    /// All transformations, in order.
    pub fn strata_plan(&self) -> (plan: Vec<&Transformation>)
        ensures
            views(plan@) == self@.strata_plan.flatten(),
    {
        let mut plan: Vec<&Transformation> = Vec::new();
        let ghost all = self@.strata_plan;
        let mut i: usize = 0;
        proof {
            assert(views(plan@) =~= all.take(0).flatten());
        }
        while i < self.strata_plan.len()
            invariant
                i <= self.strata_plan@.len(),
                all == steps_views(self.strata_plan@),
                views(plan@) == all.take(i as int).flatten(),
            decreases self.strata_plan@.len() - i,
        {
            let steps = &self.strata_plan[i];
            let mut j: usize = 0;
            proof {
                assert(all[i as int] == views(steps@));
                assert(all.take(i + 1) =~= all.take(i as int).push(all[i as int]));
                all.take(i as int).lemma_flatten_push(all[i as int]);
                assert(views(plan@) =~= all.take(i as int).flatten() + views(steps@).take(0));
            }
            while j < steps.len()
                invariant
                    j <= steps@.len(),
                    views(plan@) == all.take(i as int).flatten() + views(steps@).take(j as int),
                decreases steps@.len() - j,
            {
                proof {
                    lemma_views_push(plan@, &steps@[j as int]);
                    assert(views(steps@).take(j + 1) =~= views(steps@).take(j as int).push(
                        steps@[j as int]@,
                    ));
                }
                plan.push(&steps[j]);
                proof {
                    assert(views(plan@) =~= all.take(i as int).flatten() + views(steps@).take(
                        j + 1,
                    ));
                }
                j += 1;
            }
            proof {
                assert(views(steps@).take(j as int) =~= views(steps@));
            }
            i += 1;
        }
        proof {
            assert(all.take(i as int) =~= all);
        }
        plan
    }

    /// The heads of the rules, but for those that only pass bindings sideways.
    pub fn head_signatures_set(&self) -> (heads: SignatureSet)
        ensures
            heads@ == self@.last_signatures.dom().filter(
                |signature: SignatureView| !occurs_in("_sip"@, signature.name()),
            ),
            heads@ == self@.head_signatures(),
    {
        let mut heads = SignatureSet::new();
        let keys = self.last_signatures_map.keys();
        let ghost all = views(keys@);
        let ghost is_head = |signature: SignatureView| !occurs_in("_sip"@, signature.name());
        let mut i: usize = 0;
        proof {
            assert(heads@ =~= all.take(0).to_set().filter(is_head));
        }
        while i < keys.len()
            invariant
                i <= keys@.len(),
                all == views(keys@),
                is_head == (|signature: SignatureView| !occurs_in("_sip"@, signature.name())),
                heads@ == all.take(i as int).to_set().filter(is_head),
            decreases keys@.len() - i,
        {
            let signature = keys[i];
            if !contains(signature.name(), "_sip") {
                heads.insert(share(signature));
            }
            proof {
                assert(all[i as int] == signature@);
                assert(all.take(i + 1) =~= all.take(i as int).push(signature@));
                all.take(i as int).lemma_push_to_set_commute(signature@);
                assert(heads@ =~= all.take(i + 1).to_set().filter(is_head));
            }
            i += 1;
        }
        proof {
            assert(all.take(i as int) =~= all);
        }
        heads
    }

    /// The heads of the rules, by name, with their arities. Where rules have a head in common, the
    /// last one counts.
    pub fn heads(&self) -> (heads: StringHashMap<usize>)
        ensures
            heads@ == heads_of(self@.rules),
    {
        let mut heads: StringHashMap<usize> = StringHashMap::new();
        let ghost rules = self@.rules;
        let mut i: usize = 0;
        while i < self.rules.len()
            invariant
                i <= self.rules@.len(),
                rules == views(self.rules@),
                heads@ == heads_of(rules.take(i as int)),
            decreases self.rules@.len() - i,
        {
            let head = &self.rules[i].head;
            heads.insert(head.name.clone(), head.arity);
            proof {
                assert(rules.take(i + 1).drop_last() =~= rules.take(i as int));
                assert(rules.take(i + 1).last() == rules[i as int]);
            }
            i += 1;
        }
        proof {
            assert(rules.take(i as int) =~= rules);
        }
        heads
    }

    /// Under each head, the last collection of each of its rules.
    pub fn last_signatures_map(&self) -> (map: &SignatureMap<Vec<Arc<CollectionSignature>>>)
        ensures
            map@ == self@.last_signatures,
    {
        &self.last_signatures_map
    }

    /// Under each last collection, the heads of the rules that end in it.
    pub fn reverse_last_signatures_map(&self) -> (map: &SignatureMap<
        Vec<Arc<CollectionSignature>>,
    >)
        ensures
            map@ == self@.reverse_last_signatures,
    {
        &self.reverse_last_signatures_map
    }

    /// What a recursive group takes from outside.
    pub fn enter_scope_set(&self) -> (scope: &SignatureSet)
        ensures
            scope@ == self@.enter_scope,
    {
        &self.enter_scope
    }

    /// Gives a name to each collection that the group makes, unless it is a relation or has one:
    /// by its kind, and the next number of the counter.
    pub fn populate_name_map(&self, name_map: &mut SignatureMap<String>, counter: &mut usize)
        requires
            (Numbering { names: old(name_map)@, counter: *old(counter) as nat }).all_named(
                self@.outputs(),
            ).counter <= usize::MAX,
        ensures
            (Numbering { names: final(name_map)@, counter: *final(counter) as nat }) == (Numbering {
                names: old(name_map)@,
                counter: *old(counter) as nat,
            }).all_named(self@.outputs()),
    {
        proof {
            use_type_invariant(self);
        }
        let plan = self.strata_plan();
        let lasts = &self.per_rule_last_collection;
        let ghost start = Numbering { names: name_map@, counter: *counter as nat };
        let ghost outputs = self@.outputs();
        proof {
            assert(views(plan@).len() == plan@.len());
            assert(views(lasts@).len() == lasts@.len());
            assert forall|i: int| 0 <= i < plan@.len() implies #[trigger] plan@[i]@.signature()
                == outputs[i] by {
                assert(views(plan@)[i] == plan@[i]@);
            }
            assert forall|i: int| 0 <= i < lasts@.len() implies #[trigger] lasts@[i]@.signature
                == outputs[plan@.len() + i] by {
                assert(views(lasts@)[i] == lasts@[i]@);
            }
        }
        let mut i: usize = 0;
        while i < plan.len()
            invariant
                i <= plan@.len(),
                plan@.len() <= outputs.len(),
                forall|j: int|
                    0 <= j < plan@.len() ==> #[trigger] plan@[j]@.signature() == outputs[j],
                start.all_named(outputs).counter <= usize::MAX,
                (Numbering { names: name_map@, counter: *counter as nat }) == start.all_named(
                    outputs.take(i as int),
                ),
            decreases plan@.len() - i,
        {
            proof {
                assert(plan@[i as int]@.signature() == outputs[i as int]);
                lemma_next_name(start, outputs, i as int);
            }
            name_output(&plan[i].output().signature, name_map, counter);
            i += 1;
        }
        let mut k: usize = 0;
        while k < lasts.len()
            invariant
                k <= lasts@.len(),
                plan@.len() + lasts@.len() == outputs.len(),
                forall|j: int|
                    0 <= j < lasts@.len() ==> #[trigger] lasts@[j]@.signature
                        == outputs[plan@.len() + j],
                start.all_named(outputs).counter <= usize::MAX,
                (Numbering { names: name_map@, counter: *counter as nat }) == start.all_named(
                    outputs.take(plan@.len() + k),
                ),
            decreases lasts@.len() - k,
        {
            proof {
                assert(lasts@[k as int]@.signature == outputs[plan@.len() + k]);
                lemma_next_name(start, outputs, plan@.len() + k);
            }
            name_output(&lasts[k].signature, name_map, counter);
            k += 1;
        }
        proof {
            assert(outputs.take(plan@.len() + k) =~= outputs);
        }
    }

    /// The name and the arity of every relation that the group defines: what its transformations
    /// make, relations aside, then the heads of its rules; each name once.
    pub fn collect_declarations(
        &self,
        name_map: &SignatureMap<String>,
    ) -> (declarations: Vec<(String, usize)>)
        requires
            self@.can_declare(name_map@),
        ensures
            declaration_views(declarations@) == self@.declarations(name_map@),
    {
        proof {
            use_type_invariant(self);
        }
        let mut seen = StringHashSet::new();
        let mut result: Vec<(String, usize)> = Vec::new();
        let plan = self.strata_plan();
        let ghost group = self@;
        let ghost names = name_map@;
        let ghost steps = group.strata_plan.flatten();
        let ghost made = |n: int| outputs_declared(intermediate(steps.take(n)), names);
        let mut i: usize = 0;
        proof {
            assert(views(plan@).len() == plan@.len());
            assert(steps.take(0) =~= Seq::<TransformationView>::empty());
            reveal(Seq::filter);
            assert(made(0) =~= Seq::<(Seq<char>, nat)>::empty());
            assert(declaration_views(result@) =~= first_of_each(made(0)));
            assert(seen@ =~= declared_names(result@));
        }
        while i < plan.len()
            invariant
                i <= plan@.len(),
                group == self@,
                names == name_map@,
                group.can_declare(names),
                steps == group.strata_plan.flatten(),
                steps == views(plan@),
                steps.len() == plan@.len(),
                made == (|n: int| outputs_declared(intermediate(steps.take(n)), names)),
                declaration_views(result@) == first_of_each(made(i as int)),
                seen@ == declared_names(result@),
            decreases plan@.len() - i,
        {
            let output = plan[i].output();
            let sig = &output.signature;
            let ghost step = plan@[i as int]@;
            proof {
                assert(steps[i as int] == step);
                assert(steps.take(i + 1) =~= steps.take(i as int).push(step));
                steps.take(i as int).lemma_filter_push(
                    step,
                    |t: TransformationView| !(t.signature() is Atom),
                );
                lemma_step_of_group(group.strata_plan, i as int);
            }
            if !sig.is_atom() {
                let dl_name = lookup_dl_name(sig, name_map);
                let (k, v) = output.arity();
                proof {
                    assert(made(i + 1) =~= made(i as int).push(
                        (dl_name@, step.output.total_arity()),
                    ));
                }
                declare(&mut seen, &mut result, dl_name, k + v, Ghost(made(i as int)));
            }
            i += 1;
        }
        let ghost outputs = outputs_declared(intermediate(steps), names);
        let ghost heads = group.heads_declared();
        let mut rule_idx: usize = 0;
        proof {
            assert(steps.take(i as int) =~= steps);
            assert(made(i as int) == outputs);
            assert(outputs + heads.take(0) =~= outputs);
        }
        while rule_idx < self.strata_plan.len()
            invariant
                rule_idx <= self.strata_plan@.len(),
                self.strata_plan@.len() == self.rules@.len(),
                self.per_rule_last_collection@.len() == self.rules@.len(),
                group == self@,
                names == name_map@,
                group.can_declare(names),
                heads == group.heads_declared(),
                declaration_views(result@) == first_of_each(
                    outputs + heads.take(rule_idx as int),
                ),
                seen@ == declared_names(result@),
            decreases self.strata_plan@.len() - rule_idx,
        {
            let transformations = &self.strata_plan[rule_idx];
            let head_name = self.rules[rule_idx].head.name.clone();
            let ghost r = rule_idx as int;
            proof {
                assert(group.strata_plan[r] == views(transformations@));
                assert(group.rules[r].name == head_name@);
                assert(group.per_rule_last[r] == self.per_rule_last_collection@[r]@);
            }
            let (k, v) = if transformations.len() == 0 {
                self.per_rule_last_collection[rule_idx].arity()
            } else {
                let last = transformations.len() - 1;
                proof {
                    assert(group.strata_plan[r].last() == transformations@[last as int]@);
                    assert(group.strata_plan[r][last as int] == transformations@[last as int]@);
                }
                transformations[last].output().arity()
            };
            proof {
                assert(heads[r] == (head_name@, (k + v) as nat));
                assert(outputs + heads.take(r + 1) =~= (outputs + heads.take(r)).push(heads[r]));
            }
            declare(&mut seen, &mut result, head_name, k + v, Ghost(outputs + heads.take(r)));
            rule_idx += 1;
        }
        proof {
            assert(heads.take(rule_idx as int) =~= heads);
        }
        result
    }

    /// Writes each transformation of the plan as a Datalog rule.
    ///
    /// The last transformation of a rule is written under the name of the rule's head, the others
    /// under the names in `name_map`. A rule whose transformations are all carried out for other
    /// rules copies the collection in which it ends.
    pub fn to_datalog_rules(&self, name_map: &SignatureMap<String>) -> (rules: Vec<String>)
        requires
            self@.can_write(name_map@),
        ensures
            views(rules@) == self@.lines(name_map@).flatten(),
    {
        proof {
            use_type_invariant(self);
        }
        let mut rules: Vec<String> = Vec::new();
        let ghost group = self@;
        let ghost names = name_map@;
        let ghost lines = group.lines(names);
        let mut rule_idx: usize = 0;
        proof {
            assert(views(rules@) =~= lines.take(0).flatten());
        }
        while rule_idx < self.strata_plan.len()
            invariant
                rule_idx <= self.strata_plan@.len(),
                self.strata_plan@.len() == self.rules@.len(),
                self.per_rule_last_collection@.len() == self.rules@.len(),
                group == self@,
                names == name_map@,
                group.can_write(names),
                lines == group.lines(names),
                views(rules@) == lines.take(rule_idx as int).flatten(),
            decreases self.strata_plan@.len() - rule_idx,
        {
            let transformations = &self.strata_plan[rule_idx];
            let rule = &self.rules[rule_idx];
            let last_coll = &self.per_rule_last_collection[rule_idx];
            let ghost r = rule_idx as int;
            proof {
                assert(group.strata_plan[r] == views(transformations@));
                assert(group.rules[r] == rule@);
                assert(group.per_rule_last[r] == last_coll@);
                assert(lines.take(r + 1) =~= lines.take(r).push(lines[r]));
                lines.take(r).lemma_flatten_push(lines[r]);
            }
            let mut more = rule_to_datalog(rule, transformations, last_coll, name_map);
            proof {
                lemma_views_add(rules@, more@);
            }
            rules.append(&mut more);
            rule_idx += 1;
        }
        proof {
            assert(lines.take(rule_idx as int) =~= lines);
        }
        rules
    }

    /// Lays out the plan as text, given the texts of what it takes from outside, of its rules, and
    /// of all its transformations.
    pub fn fmt(&self, scope: &Vec<String>, rules: &Vec<String>, steps: &Vec<String>) -> (text:
        String)
        requires
            scope@.len() == self@.enter_scope.len(),
            rules@.len() == self@.rules.len(),
            steps@.len() == self@.strata_plan.flatten().len(),
        ensures
            text@ == group_text(
                views(scope@),
                views(rules@),
                by_rule(views(steps@), self@.strata_plan),
            ),
    {
        proof {
            use_type_invariant(self);
        }
        let mut lists: Vec<Vec<String>> = Vec::new();
        let ghost plan = self@.strata_plan;
        let ghost texts = views(steps@);
        let total: usize = steps.len();
        let mut n: usize = 0;
        let mut i: usize = 0;
        proof {
            assert(plan.take(0).flatten().len() == 0);
        }
        while i < self.strata_plan.len()
            invariant
                i <= self.strata_plan@.len(),
                plan == steps_views(self.strata_plan@),
                texts == views(steps@),
                steps@.len() == plan.flatten().len(),
                n == plan.take(i as int).flatten().len(),
                n <= total,
                total == steps@.len(),
                lists@.len() == i,
                forall|k: int|
                    0 <= k < i ==> views(#[trigger] lists@[k]@) == by_rule(texts, plan)[k],
            decreases self.strata_plan@.len() - i,
        {
            let count: usize = self.strata_plan[i].len();
            proof {
                assert(plan[i as int].len() == count);
                assert(plan.take(i + 1) =~= plan.take(i as int).push(plan[i as int]));
                plan.take(i as int).lemma_flatten_push(plan[i as int]);
                lemma_prefix_len(plan, i + 1);
            }
            let list = slice_of(steps, n, count);
            lists.push(list);
            n += count;
            i += 1;
        }
        proof {
            assert(list_views(lists@) =~= by_rule(texts, plan));
        }
        format_group(scope, rules, &lists)
    }

    /// Plans `root` outside of recursion: inputs come first, and what was seen is left out.
    fn construct_non_recursive(
        seen: &mut SignatureSet,
        root: &Transformation,
        transformation_tree: &TransformationTree,
        disable_sharing: bool,
    ) -> (plan: Vec<Transformation>)
        requires
            disable_sharing ==> unfolds(transformation_tree@, root@),
        ensures
            views(plan@) == planned(
                transformation_tree@,
                root@,
                set![],
                old(seen)@,
                !disable_sharing,
            ).steps,
            final(seen)@ == planned(
                transformation_tree@,
                root@,
                set![],
                old(seen)@,
                !disable_sharing,
            ).seen,
            disable_sharing ==> final(seen)@ == old(seen)@,
        decreases depth(transformation_tree@, root@, set![], old(seen)@, !disable_sharing),
    {
        proof {
            transformation_tree.lemma_finite();
            lemma_planned_step(transformation_tree@, root@, set![], seen@, !disable_sharing);
            if disable_sharing {
                law_without_sharing_all_is_made(transformation_tree@, root@, set![], seen@);
            }
        }
        let output_signature = &root.output().signature;
        let mut plan: Vec<Transformation> = Vec::new();
        if !disable_sharing && seen.contains(output_signature) {
            proof {
                assert(views(plan@) =~= seq![]);
            }
            return plan;
        }
        if !disable_sharing {
            seen.insert(share(output_signature));
        }
        match transformation_tree.get(root) {
            None => {},
            Some((l_root, r_root)) => {
                let mut l_plan = Self::construct_non_recursive(
                    seen,
                    l_root,
                    transformation_tree,
                    disable_sharing,
                );
                let mut r_plan = Self::construct_non_recursive(
                    seen,
                    r_root,
                    transformation_tree,
                    disable_sharing,
                );
                proof {
                    lemma_views_add(l_plan@, r_plan@);
                    assert(plan@ + l_plan@ =~= l_plan@);
                }
                plan.append(&mut l_plan);
                plan.append(&mut r_plan);
            },
        }
        proof {
            lemma_views_push(plan@, *root);
        }
        plan.push(root.clone());
        proof {
            assert(views(plan@) =~= planned(
                transformation_tree@,
                root@,
                set![],
                old(seen)@,
                !disable_sharing,
            ).steps);
        }
        plan
    }

    /// Plans `root` inside of recursion: inputs come first, what was seen outside is borrowed, and
    /// what was seen inside is left out. Hands back the steps and what they take from outside.
    fn construct_recursive(
        seen: &SignatureSet,
        nested_seen: &mut SignatureSet,
        root: &Transformation,
        transformation_tree: &TransformationTree,
        disable_sharing: bool,
    ) -> (plan: (Vec<Transformation>, SignatureSet))
        requires
            disable_sharing ==> unfolds(transformation_tree@, root@),
            leaves_are_unary(
                transformation_tree@,
                planned(
                    transformation_tree@,
                    root@,
                    seen@,
                    old(nested_seen)@,
                    !disable_sharing,
                ).steps,
            ),
        ensures
            ({
                let outcome = planned(
                    transformation_tree@,
                    root@,
                    seen@,
                    old(nested_seen)@,
                    !disable_sharing,
                );
                &&& views(plan.0@) == outcome.steps
                &&& plan.1@ == outcome.scope
                &&& final(nested_seen)@ == outcome.seen
            }),
            views(plan.0@) == planned(
                transformation_tree@,
                root@,
                set![],
                seen@.union(old(nested_seen)@),
                !disable_sharing,
            ).steps,
        decreases depth(transformation_tree@, root@, seen@, old(nested_seen)@, !disable_sharing),
    {
        let ghost outcome = planned(
            transformation_tree@,
            root@,
            seen@,
            nested_seen@,
            !disable_sharing,
        );
        proof {
            transformation_tree.lemma_finite();
            lemma_planned_step(
                transformation_tree@,
                root@,
                seen@,
                nested_seen@,
                !disable_sharing,
            );
            law_lent_is_left_out_like_seen(
                transformation_tree@,
                root@,
                seen@,
                nested_seen@,
                !disable_sharing,
            );
        }
        let output_signature = &root.output().signature;
        let mut plan: Vec<Transformation> = Vec::new();
        let mut enter_scope = SignatureSet::new();
        if !disable_sharing && seen.contains(output_signature) {
            enter_scope.insert(share(output_signature));
            proof {
                assert(views(plan@) =~= outcome.steps);
                assert(enter_scope@ =~= outcome.scope);
            }
            return (plan, enter_scope);
        }
        if !disable_sharing && nested_seen.contains(output_signature) {
            proof {
                assert(views(plan@) =~= outcome.steps);
                assert(enter_scope@ =~= outcome.scope);
            }
            return (plan, enter_scope);
        }
        if !disable_sharing {
            nested_seen.insert(share(output_signature));
        }
        match transformation_tree.get(root) {
            None => {
                proof {
                    assert(outcome.steps[0] == root@);
                }
                enter_scope.insert(share(&root.unary().signature));
            },
            Some((l_root, r_root)) => {
                let ghost left = planned(
                    transformation_tree@,
                    l_root@,
                    seen@,
                    nested_seen@,
                    !disable_sharing,
                );
                let ghost right = planned(
                    transformation_tree@,
                    r_root@,
                    seen@,
                    left.seen,
                    !disable_sharing,
                );
                proof {
                    assert forall|i: int| 0 <= i < left.steps.len() implies left.steps[i]
                        == outcome.steps[i] by {}
                    assert forall|i: int| 0 <= i < right.steps.len() implies right.steps[i]
                        == outcome.steps[left.steps.len() + i] by {}
                }
                let (mut l_plan, l_enter_scope) = Self::construct_recursive(
                    seen,
                    nested_seen,
                    l_root,
                    transformation_tree,
                    disable_sharing,
                );
                let (mut r_plan, r_enter_scope) = Self::construct_recursive(
                    seen,
                    nested_seen,
                    r_root,
                    transformation_tree,
                    disable_sharing,
                );
                proof {
                    lemma_views_add(l_plan@, r_plan@);
                    assert(plan@ + l_plan@ =~= l_plan@);
                }
                plan.append(&mut l_plan);
                plan.append(&mut r_plan);
                enter_scope.extend(&l_enter_scope);
                enter_scope.extend(&r_enter_scope);
            },
        }
        proof {
            lemma_views_push(plan@, *root);
        }
        plan.push(root.clone());
        proof {
            assert(views(plan@) =~= outcome.steps);
            assert(enter_scope@ =~= outcome.scope);
        }
        (plan, enter_scope)
    }
}

impl Clone for GroupStrataQueryPlan {
    fn clone(&self) -> (copy: GroupStrataQueryPlan)
        ensures
            copy@ == self@,
    {
        proof {
            use_type_invariant(self);
        }
        let mut rules: Vec<FLRule> = Vec::new();
        let mut strata_plan: Vec<Vec<Transformation>> = Vec::new();
        let mut i: usize = 0;
        while i < self.rules.len()
            invariant
                i <= self.rules@.len(),
                self.strata_plan@.len() == self.rules@.len(),
                rules@ == self.rules@.take(i as int),
                strata_plan@.len() == i,
                forall|k: int| 0 <= k < i ==> #[trigger] strata_plan@[k]@ == self.strata_plan@[k]@,
            decreases self.rules@.len() - i,
        {
            rules.push(self.rules[i].clone());
            let steps = &self.strata_plan[i];
            let mut copies: Vec<Transformation> = Vec::new();
            let mut j: usize = 0;
            while j < steps.len()
                invariant
                    j <= steps@.len(),
                    copies@ == steps@.take(j as int),
                decreases steps@.len() - j,
            {
                copies.push(steps[j].clone());
                j += 1;
            }
            strata_plan.push(copies);
            i += 1;
        }
        let copy = GroupStrataQueryPlan {
            is_recursive: self.is_recursive,
            rules,
            enter_scope: self.enter_scope.clone(),
            last_signatures_map: self.last_signatures_map.clone(),
            reverse_last_signatures_map: self.reverse_last_signatures_map.clone(),
            strata_plan,
            per_rule_last_collection: share_all(&self.per_rule_last_collection),
        };
        proof {
            assert(steps_views(copy.strata_plan@) =~= steps_views(self.strata_plan@));
        }
        copy
    }
}

/// Writes the Datalog rules for one rule of a group.
fn rule_to_datalog(
    rule: &FLRule,
    transformations: &Vec<Transformation>,
    last_coll: &Collection,
    name_map: &SignatureMap<String>,
) -> (rules: Vec<String>)
    requires
        has_lines(views(transformations@), last_coll@, name_map@),
    ensures
        views(rules@) == rule_lines(rule@, views(transformations@), last_coll@, name_map@),
{
    let catalog = &rule.catalog;
    let mut rules: Vec<String> = Vec::new();
    let ghost steps = views(transformations@);
    let ghost expected = rule_lines(rule@, steps, last_coll@, name_map@);
    let len: usize = transformations.len();
    if len == 0 {
        let last_name = lookup_dl_name(&last_coll.signature, name_map);
        let args = collection_dl_args(last_coll, catalog);
        let mut body: Vec<String> = Vec::new();
        body.push(format_atom_with_vars(last_name.as_str(), args.as_slice(), false));
        proof {
            assert(views(body@) =~= seq![body@[0]@]);
        }
        rules.push(format_rule(rule.head.name.as_str(), &args, &body));
        proof {
            assert(views(rules@) =~= expected);
        }
        return rules;
    }
    let mut t_idx: usize = 0;
    while t_idx < len
        invariant
            t_idx <= len,
            len == transformations@.len(),
            len > 0,
            catalog == rule.catalog,
            steps == views(transformations@),
            has_lines(steps, last_coll@, name_map@),
            expected == rule_lines(rule@, steps, last_coll@, name_map@),
            rules@.len() == t_idx,
            forall|j: int| 0 <= j < t_idx ==> #[trigger] rules@[j]@ == expected[j],
        decreases len - t_idx,
    {
        let t = &transformations[t_idx];
        proof {
            assert(steps[t_idx as int] == t@);
        }
        let out_name = if t_idx == len - 1 {
            rule.head.name.clone()
        } else {
            lookup_dl_name(&t.output().signature, name_map)
        };
        let out_args = collection_dl_args(t.output(), catalog);
        let body = format_body(t, catalog, name_map);
        rules.push(format_rule(out_name.as_str(), &out_args, &body));
        t_idx += 1;
    }
    proof {
        assert(views(rules@) =~= expected);
    }
    rules
}

/// Declarations as mathematical values.
pub open spec fn declaration_views(declarations: Seq<(String, usize)>) -> Seq<(Seq<char>, nat)> {
    Seq::new(declarations.len(), |i: int| (declarations[i].0@, declarations[i].1 as nat))
}

/// The names that are declared.
spec fn declared_names(declarations: Seq<(String, usize)>) -> Set<Seq<char>> {
    Set::new(|name: Seq<char>| declares(declaration_views(declarations), name))
}

/// Declares `name`, unless it is declared.
fn declare(
    seen: &mut StringHashSet,
    declarations: &mut Vec<(String, usize)>,
    name: String,
    arity: usize,
    Ghost(candidates): Ghost<Seq<(Seq<char>, nat)>>,
)
    requires
        old(seen)@ == declared_names(old(declarations)@),
        declaration_views(old(declarations)@) == first_of_each(candidates),
    ensures
        final(seen)@ == declared_names(final(declarations)@),
        declaration_views(final(declarations)@) == first_of_each(
            candidates.push((name@, arity as nat)),
        ),
{
    let ghost before = declaration_views(declarations@);
    let ghost candidate = (name@, arity as nat);
    let added = seen.insert(name.clone());
    proof {
        assert(candidates.push(candidate).drop_last() =~= candidates);
    }
    if added {
        declarations.push((name, arity));
        proof {
            assert(declaration_views(declarations@) =~= before.push(candidate));
        }
    }
    proof {
        assert forall|n: Seq<char>| #[trigger] seen@.contains(n) <==> declares(
            declaration_views(declarations@),
            n,
        ) by {
            lemma_declares_push(before, candidate, n);
        }
        assert(seen@ =~= declared_names(declarations@));
    }
}

/// Names one collection, if it needs a name.
fn name_output(
    sig: &Arc<CollectionSignature>,
    name_map: &mut SignatureMap<String>,
    counter: &mut usize,
)
    requires
        (Numbering { names: old(name_map)@, counter: *old(counter) as nat }).named(sig@).counter
            <= usize::MAX,
    ensures
        (Numbering { names: final(name_map)@, counter: *final(counter) as nat }) == (Numbering {
            names: old(name_map)@,
            counter: *old(counter) as nat,
        }).named(sig@),
{
    if sig.is_atom() || name_map.contains_key(sig) {
        return;
    }
    let mut name = type_prefix(sig).to_owned();
    name.append(to_decimal(*counter).as_str());
    name_map.insert(share(sig), name);
    *counter += 1;
}

/// How naming one more collection goes on.
proof fn lemma_next_name(start: Numbering, signatures: Seq<SignatureView>, n: int)
    requires
        0 <= n < signatures.len(),
    ensures
        start.all_named(signatures.take(n + 1)) == start.all_named(signatures.take(n)).named(
            signatures[n],
        ),
        start.all_named(signatures.take(n + 1)).counter <= start.all_named(signatures).counter,
{
    assert(signatures.take(n + 1).drop_last() =~= signatures.take(n));
    assert(signatures.take(n + 1).last() == signatures[n]);
    lemma_counter_grows(start, signatures, n + 1);
}

/// A declaration stands for its name and its arity, each at its place.
pub proof fn law_declarations_keep_their_places(declarations: Seq<(String, usize)>, i: int)
    requires
        0 <= i < declarations.len(),
    ensures
        declaration_views(declarations).len() == declarations.len(),
        declaration_views(declarations)[i] == (declarations[i].0@, declarations[i].1 as nat),
{
}

} // verus!
