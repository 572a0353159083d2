//! Transformations written as Datalog rules.

use crate::collections::{AtomArgumentSignature, CollectionView, SignatureMap, SignatureView};
use crate::expressions::{
    atom_text, compares_known, compares_text, format_atom_with_vars, guards_known, guards_text,
    jn_guards_with_vars, jn_names, jn_scope, kv_guards_with_vars, kv_names, kv_scope,
    law_atoms_grow_by_an_argument,
};
use crate::group::GroupView;
use crate::inversion::{
    derive_jn_input_vars, derive_kv_input_vars, jn_flow_fits, jn_left_key_vars, jn_left_value_vars,
    jn_right_value_vars, kv_flow_fits, kv_key_vars, kv_value_vars,
};
use crate::model::{lemma_views_add, views};
use crate::names::{dl_name, has_name, lookup_dl_name, variable, variables};
use crate::rule::{Catalog, RuleView};
use crate::text::{join, joined, law_joining_lists_in_a_row, law_joining_up_to_one};
use crate::transformations::{Operator, Transformation, TransformationView};
use vstd::prelude::*;

verus! {

/// A Datalog rule.
pub open spec fn rule_text(
    head: Seq<char>,
    args: Seq<Seq<char>>,
    body: Seq<Seq<char>>,
) -> Seq<char> {
    atom_text(head, args, false) + " :- "@ + joined(body, ", "@) + "."@
}

/// The arguments of a collection, as the catalog writes them.
pub open spec fn collection_args(
    collection: CollectionView,
    catalog: Map<AtomArgumentSignature, Seq<char>>,
) -> Seq<Seq<char>> {
    variables(catalog, collection.key + collection.value)
}

/// The body of the rule for a transformation: an atom for its input and the guards; for a join, an
/// atom for each input, which have the key in common, and the guards; for an antijoin, an atom for
/// the left input and a negated one for the key of the right input.
pub open spec fn step_body(
    step: TransformationView,
    catalog: Map<AtomArgumentSignature, Seq<char>>,
    names: Map<SignatureView, Seq<char>>,
) -> Seq<Seq<char>> {
    let left_name = dl_name(step.left.signature, names);
    match step.right {
        None => {
            let keys = kv_key_vars(step.left, step.output, step.flow, catalog);
            let values = kv_value_vars(step.left, step.output, step.flow, catalog);
            seq![atom_text(left_name, keys + values, false)] + guards_text(
                step.flow,
                kv_names(keys, values),
            )
        },
        Some(right) => {
            let right_name = dl_name(right.signature, names);
            let keys = jn_left_key_vars(step.left, step.output, step.flow, catalog);
            let left_values = jn_left_value_vars(step.left, step.output, step.flow, catalog);
            let right_values = jn_right_value_vars(right, step.output, step.flow, catalog);
            if step.operator.is_antijoin() {
                seq![
                    atom_text(left_name, keys + left_values, false),
                    atom_text(right_name, keys, true),
                ]
            } else {
                seq![
                    atom_text(left_name, keys + left_values, false),
                    atom_text(right_name, keys + right_values, false),
                ] + compares_text(step.flow.compares, jn_names(keys, left_values, right_values))
            }
        },
    }
}

/// Whether the inputs of a transformation have names.
pub open spec fn inputs_named(
    step: TransformationView,
    names: Map<SignatureView, Seq<char>>,
) -> bool {
    &&& has_name(step.left.signature, names)
    &&& step.right matches Some(right) ==> has_name(right.signature, names)
}

/// Whether the flow of a transformation only speaks of positions that are there.
pub open spec fn flow_fits(step: TransformationView) -> bool {
    match step.right {
        None => {
            &&& kv_flow_fits(step.left, step.output, step.flow)
            &&& guards_known(step.flow, kv_scope(step.left.key.len(), step.left.value.len()))
        },
        Some(right) => {
            &&& jn_flow_fits(step.left, right, step.output, step.flow)
            &&& !step.operator.is_antijoin() ==> compares_known(
                step.flow.compares,
                jn_scope(step.left.key.len(), step.left.value.len(), right.value.len()),
            )
        },
    }
}

/// Whether the body of the rule for a transformation can be written: its inputs have names, and its
/// flow only speaks of positions that are there.
pub open spec fn has_body(
    step: TransformationView,
    names: Map<SignatureView, Seq<char>>,
) -> bool {
    inputs_named(step, names) && flow_fits(step)
}

/// The name under which the `j`-th of the `steps` of a rule is written: the last one makes the head.
pub open spec fn step_name(
    rule: RuleView,
    steps: Seq<TransformationView>,
    j: int,
    names: Map<SignatureView, Seq<char>>,
) -> Seq<char> {
    if j == steps.len() - 1 {
        rule.name
    } else {
        dl_name(steps[j].signature(), names)
    }
}

/// The Datalog rules for one rule of a group: one for each of its steps; or, where all of them are
/// carried out for other rules, one that copies its last collection.
pub open spec fn rule_lines(
    rule: RuleView,
    steps: Seq<TransformationView>,
    last: CollectionView,
    names: Map<SignatureView, Seq<char>>,
) -> Seq<Seq<char>> {
    if steps.len() == 0 {
        let args = collection_args(last, rule.catalog);
        seq![
            rule_text(
                rule.name,
                args,
                seq![atom_text(dl_name(last.signature, names), args, false)],
            ),
        ]
    } else {
        Seq::new(
            steps.len(),
            |j: int|
                rule_text(
                    step_name(rule, steps, j, names),
                    collection_args(steps[j].output, rule.catalog),
                    step_body(steps[j], rule.catalog, names),
                ),
        )
    }
}

/// Whether the Datalog rules for one rule of a group can be written.
pub open spec fn has_lines(
    steps: Seq<TransformationView>,
    last: CollectionView,
    names: Map<SignatureView, Seq<char>>,
) -> bool {
    &&& steps.len() == 0 ==> has_name(last.signature, names)
    &&& forall|j: int|
        #![trigger steps[j]]
        0 <= j < steps.len() ==> has_body(steps[j], names) && (j < steps.len() - 1 ==> has_name(
            steps[j].signature(),
            names,
        ))
}

impl GroupView {
    /// The Datalog rules for each rule of the group.
    pub open spec fn lines(self, names: Map<SignatureView, Seq<char>>) -> Seq<Seq<Seq<char>>> {
        Seq::new(
            self.rules.len(),
            |i: int|
                rule_lines(self.rules[i], self.strata_plan[i], self.per_rule_last[i], names),
        )
    }

    /// Whether all Datalog rules of the group can be written.
    pub open spec fn can_write(self, names: Map<SignatureView, Seq<char>>) -> bool {
        forall|i: int|
            #![trigger self.strata_plan[i]]
            0 <= i < self.strata_plan.len() ==> has_lines(
                self.strata_plan[i],
                self.per_rule_last[i],
                names,
            )
    }
}

/// The names of two lists, one after the other.
fn chain(first: &Vec<String>, second: &Vec<String>) -> (both: Vec<String>)
    ensures
        views(both@) == views(first@) + views(second@),
{
    let mut both: Vec<String> = Vec::new();
    let mut i: usize = 0;
    while i < first.len()
        invariant
            i <= first@.len(),
            both@.len() == i,
            forall|j: int| 0 <= j < i ==> #[trigger] both@[j]@ == first@[j]@,
        decreases first@.len() - i,
    {
        both.push(first[i].clone());
        i += 1;
    }
    i = 0;
    while i < second.len()
        invariant
            i <= second@.len(),
            both@.len() == first@.len() + i,
            forall|j: int| 0 <= j < first@.len() ==> #[trigger] both@[j]@ == first@[j]@,
            forall|j: int|
                first@.len() <= j < both@.len() ==> #[trigger] both@[j]@ == second@[j
                    - first@.len()]@,
        decreases second@.len() - i,
    {
        both.push(second[i].clone());
        i += 1;
    }
    proof {
        assert(views(both@) =~= views(first@) + views(second@));
    }
    both
}

/// Writes a Datalog rule.
pub(crate) fn format_rule(head: &str, args: &Vec<String>, body: &Vec<String>) -> (text: String)
    ensures
        text@ == rule_text(head@, views(args@), views(body@)),
{
    let mut text = format_atom_with_vars(head, args.as_slice(), false);
    text.append(" :- ");
    text.append(join(body.as_slice(), ", ").as_str());
    text.append(".");
    text
}

/// Writes the body of the Datalog rule for a transformation.
pub(crate) fn format_body(
    t: &Transformation,
    catalog: &Catalog,
    name_map: &SignatureMap<String>,
) -> (body: Vec<String>)
    requires
        has_body(t@, name_map@),
    ensures
        views(body@) == step_body(t@, catalog@, name_map@),
{
    let left = t.left();
    let left_name = lookup_dl_name(&left.signature, name_map);
    let mut body: Vec<String> = Vec::new();
    match t.right() {
        None => {
            let (in_key_vars, in_val_vars) = derive_kv_input_vars(
                left,
                t.output(),
                t.flow(),
                catalog,
            );
            proof {
                assert(views(in_key_vars@).len() == in_key_vars@.len());
                assert(views(in_val_vars@).len() == in_val_vars@.len());
            }
            let in_vars = chain(&in_key_vars, &in_val_vars);
            body.push(format_atom_with_vars(left_name.as_str(), in_vars.as_slice(), false));
            let mut guards = kv_guards_with_vars(
                t.flow(),
                in_key_vars.as_slice(),
                in_val_vars.as_slice(),
            );
            proof {
                lemma_views_add(body@, guards@);
                assert(views(body@) =~= seq![body@[0]@]);
            }
            body.append(&mut guards);
        },
        Some(right) => {
            let ((lk_vars, lv_vars), rv_vars) = derive_jn_input_vars(
                left,
                right,
                t.output(),
                t.flow(),
                catalog,
            );
            proof {
                assert(views(lk_vars@).len() == lk_vars@.len());
                assert(views(lv_vars@).len() == lv_vars@.len());
                assert(views(rv_vars@).len() == rv_vars@.len());
            }
            let left_vars = chain(&lk_vars, &lv_vars);
            let right_name = lookup_dl_name(&right.signature, name_map);
            body.push(format_atom_with_vars(left_name.as_str(), left_vars.as_slice(), false));
            let is_antijoin = match t.operator() {
                Operator::NjKvK | Operator::NjKK => true,
                _ => false,
            };
            if is_antijoin {
                body.push(format_atom_with_vars(right_name.as_str(), lk_vars.as_slice(), true));
                proof {
                    assert(views(body@) =~= seq![body@[0]@, body@[1]@]);
                }
            } else {
                let right_vars = chain(&lk_vars, &rv_vars);
                body.push(format_atom_with_vars(right_name.as_str(), right_vars.as_slice(), false));
                let mut guards = jn_guards_with_vars(
                    t.flow(),
                    lk_vars.as_slice(),
                    lv_vars.as_slice(),
                    rv_vars.as_slice(),
                );
                proof {
                    lemma_views_add(body@, guards@);
                    assert(views(body@) =~= seq![body@[0]@, body@[1]@]);
                }
                body.append(&mut guards);
            }
        },
    }
    body
}

/// Whether `later` has all that `names` has.
pub open spec fn extends(
    later: Map<SignatureView, Seq<char>>,
    names: Map<SignatureView, Seq<char>>,
) -> bool {
    forall|s: SignatureView| #[trigger]
        names.contains_key(s) ==> later.contains_key(s) && later[s] == names[s]
}

/// More names do not change the Datalog rules of a group that can be written without them.
pub proof fn law_written_rules_are_stable(
    group: GroupView,
    names: Map<SignatureView, Seq<char>>,
    later: Map<SignatureView, Seq<char>>,
)
    requires
        group.wf(),
        group.can_write(names),
        extends(later, names),
    ensures
        group.can_write(later),
        group.lines(later) == group.lines(names),
{
    assert forall|i: int| 0 <= i < group.rules.len() implies has_lines(
        group.strata_plan[i],
        group.per_rule_last[i],
        later,
    ) && #[trigger] group.lines(later)[i] == group.lines(names)[i] by {
        let steps = group.strata_plan[i];
        assert(has_lines(steps, group.per_rule_last[i], names));
        assert forall|j: int| 0 <= j < steps.len() implies has_body(#[trigger] steps[j], later) && (
        j < steps.len() - 1 ==> has_name(steps[j].signature(), later)) by {
            assert(has_body(steps[j], names));
        }
        assert(rule_lines(group.rules[i], steps, group.per_rule_last[i], later) =~= rule_lines(
            group.rules[i],
            steps,
            group.per_rule_last[i],
            names,
        ));
    }
    assert(group.lines(later) =~= group.lines(names));
}

/// Each rule of a group has at least one Datalog rule, and the last of these defines the rule's
/// head.
pub proof fn law_each_rule_defines_its_head(
    group: GroupView,
    names: Map<SignatureView, Seq<char>>,
    i: int,
)
    requires
        group.wf(),
        0 <= i < group.rules.len(),
    ensures
        group.lines(names)[i].len() > 0,
        exists|args: Seq<Seq<char>>, body: Seq<Seq<char>>|
            group.lines(names)[i].last() == #[trigger] rule_text(group.rules[i].name, args, body),
{
    let rule = group.rules[i];
    let steps = group.strata_plan[i];
    let last = group.per_rule_last[i];
    if steps.len() == 0 {
        let args = collection_args(last, rule.catalog);
        let body = seq![atom_text(dl_name(last.signature, names), args, false)];
        assert(group.lines(names)[i].last() == rule_text(rule.name, args, body));
    } else {
        let args = collection_args(steps.last().output, rule.catalog);
        let body = step_body(steps.last(), rule.catalog, names);
        assert(group.lines(names)[i].last() == rule_text(rule.name, args, body));
    }
}

/// A Datalog rule is its head, a sign and the parts of its body with a full stop at the end; one more
/// part of the body stands before the full stop, behind the others.
pub proof fn law_rules_grow_by_a_part(
    head: Seq<char>,
    args: Seq<Seq<char>>,
    body: Seq<Seq<char>>,
    part: Seq<char>,
)
    ensures
        rule_text(head, args, seq![part]) == atom_text(head, args, false) + seq![' ', ':', '-', ' ']
            + part + seq!['.'],
        body.len() > 0 ==> rule_text(head, args, body.push(part)) == rule_text(
            head,
            args,
            body,
        ).drop_last() + seq![',', ' '] + part + seq!['.'],
{
    reveal_strlit(" :- ");
    reveal_strlit(", ");
    reveal_strlit(".");
    law_joining_up_to_one(part, ", "@);
    assert(rule_text(head, args, seq![part]) =~= atom_text(head, args, false) + seq![
        ' ',
        ':',
        '-',
        ' ',
    ] + part + seq!['.']);
    if body.len() > 0 {
        law_joining_lists_in_a_row(body, seq![part], ", "@);
        assert(body + seq![part] =~= body.push(part));
        assert(rule_text(head, args, body.push(part)) =~= rule_text(
            head,
            args,
            body,
        ).drop_last() + seq![',', ' '] + part + seq!['.']);
    }
}

/// The arguments of a collection are those of its key, then those of its value, each at its place.
pub proof fn law_arguments_of_key_then_value(
    collection: CollectionView,
    catalog: Map<AtomArgumentSignature, Seq<char>>,
    i: int,
)
    ensures
        ({
            let args = collection_args(collection, catalog);
            &&& args.len() == collection.key.len() + collection.value.len()
            &&& 0 <= i < collection.key.len() ==> args[i] == variable(catalog, collection.key[i])
            &&& 0 <= i < collection.value.len() ==> args[collection.key.len() + i] == variable(
                catalog,
                collection.value[i],
            )
        }),
{
}

/// A transformation of a single input is written as an unnegated atom for the input, key before
/// value, then its guards, over the names that the input has in that atom.
pub proof fn law_body_of_a_single_input(
    step: TransformationView,
    catalog: Map<AtomArgumentSignature, Seq<char>>,
    names: Map<SignatureView, Seq<char>>,
)
    requires
        step.right is None,
    ensures
        ({
            let body = step_body(step, catalog, names);
            let keys = kv_key_vars(step.left, step.output, step.flow, catalog);
            let values = kv_value_vars(step.left, step.output, step.flow, catalog);
            &&& body.len() == 1 + step.flow.constraints.constant_eq.len()
                + step.flow.constraints.variable_eq.len() + step.flow.compares.len()
            &&& body[0] == atom_text(dl_name(step.left.signature, names), keys + values, false)
            &&& body.skip(1) == guards_text(step.flow, kv_names(keys, values))
        }),
{
    let body = step_body(step, catalog, names);
    let keys = kv_key_vars(step.left, step.output, step.flow, catalog);
    let values = kv_value_vars(step.left, step.output, step.flow, catalog);
    assert(body.skip(1) =~= guards_text(step.flow, kv_names(keys, values)));
}

/// A join or a product is written as an unnegated atom for each input, left before right, which begin
/// with the same key, then its comparisons.
pub proof fn law_body_of_a_join(
    step: TransformationView,
    right: CollectionView,
    catalog: Map<AtomArgumentSignature, Seq<char>>,
    names: Map<SignatureView, Seq<char>>,
)
    requires
        step.right == Some(right),
        step.operator != Operator::NjKvK && step.operator != Operator::NjKK,
    ensures
        ({
            let body = step_body(step, catalog, names);
            let keys = jn_left_key_vars(step.left, step.output, step.flow, catalog);
            let left_values = jn_left_value_vars(step.left, step.output, step.flow, catalog);
            let right_values = jn_right_value_vars(right, step.output, step.flow, catalog);
            &&& body.len() == 2 + step.flow.compares.len()
            &&& body[0] == atom_text(dl_name(step.left.signature, names), keys + left_values, false)
            &&& body[1] == atom_text(dl_name(right.signature, names), keys + right_values, false)
            &&& body.skip(2) == compares_text(
                step.flow.compares,
                jn_names(keys, left_values, right_values),
            )
        }),
{
    let body = step_body(step, catalog, names);
    let keys = jn_left_key_vars(step.left, step.output, step.flow, catalog);
    let left_values = jn_left_value_vars(step.left, step.output, step.flow, catalog);
    let right_values = jn_right_value_vars(right, step.output, step.flow, catalog);
    assert(body.skip(2) =~= compares_text(
        step.flow.compares,
        jn_names(keys, left_values, right_values),
    ));
}

/// An antijoin of either kind is written as an unnegated atom for the left input and a negated one
/// for the key in the right input, and nothing else.
pub proof fn law_body_of_an_antijoin(
    step: TransformationView,
    right: CollectionView,
    catalog: Map<AtomArgumentSignature, Seq<char>>,
    names: Map<SignatureView, Seq<char>>,
)
    requires
        step.right == Some(right),
        step.operator == Operator::NjKvK || step.operator == Operator::NjKK,
    ensures
        ({
            let body = step_body(step, catalog, names);
            let keys = jn_left_key_vars(step.left, step.output, step.flow, catalog);
            let values = jn_left_value_vars(step.left, step.output, step.flow, catalog);
            &&& body.len() == 2
            &&& body[0] == atom_text(dl_name(step.left.signature, names), keys + values, false)
            &&& body[1] == seq!['!'] + atom_text(dl_name(right.signature, names), keys, false)
            &&& body[1][0] == '!'
        }),
{
    let keys = jn_left_key_vars(step.left, step.output, step.flow, catalog);
    law_atoms_grow_by_an_argument(dl_name(right.signature, names), keys, Seq::empty());
}

/// A rule with transformations has one Datalog rule for each, in order. Each defines what its
/// transformation makes, with the arguments of that, by the body of that transformation; the last
/// one defines the head.
pub proof fn law_each_step_has_its_line(
    group: GroupView,
    names: Map<SignatureView, Seq<char>>,
    i: int,
    j: int,
)
    requires
        group.wf(),
        0 <= i < group.rules.len(),
        0 <= j < group.strata_plan[i].len(),
    ensures
        ({
            let step = group.strata_plan[i][j];
            let lines = group.lines(names);
            let name = if j + 1 == group.strata_plan[i].len() {
                group.rules[i].name
            } else {
                dl_name(step.output.signature, names)
            };
            &&& lines.len() == group.rules.len()
            &&& lines[i].len() == group.strata_plan[i].len()
            &&& lines[i][j] == rule_text(
                name,
                collection_args(step.output, group.rules[i].catalog),
                step_body(step, group.rules[i].catalog, names),
            )
        }),
{
}

/// A rule without transformations has a single Datalog rule, which defines its head as a copy of the
/// rule's own last collection.
pub proof fn law_rules_without_steps_copy(
    group: GroupView,
    names: Map<SignatureView, Seq<char>>,
    i: int,
)
    requires
        group.wf(),
        0 <= i < group.rules.len(),
        group.strata_plan[i].len() == 0,
    ensures
        ({
            let last = group.per_rule_last[i];
            let args = collection_args(last, group.rules[i].catalog);
            &&& group.lines(names).len() == group.rules.len()
            &&& group.lines(names)[i] == seq![
                atom_text(group.rules[i].name, args, false) + seq![' ', ':', '-', ' '] + atom_text(
                    dl_name(last.signature, names),
                    args,
                    false,
                ) + seq!['.'],
            ]
        }),
{
    let last = group.per_rule_last[i];
    let args = collection_args(last, group.rules[i].catalog);
    let copied = atom_text(dl_name(last.signature, names), args, false);
    law_rules_grow_by_a_part(group.rules[i].name, args, seq![], copied);
    assert(group.lines(names)[i] =~= seq![rule_text(group.rules[i].name, args, seq![copied])]);
}

} // verus!
