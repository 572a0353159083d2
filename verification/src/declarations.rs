//! Declarations of the relations that a group defines.

use crate::collections::SignatureView;
use crate::group::{lemma_flatten_contains, lemma_step_of_group, GroupView};
use crate::names::{dl_name, has_name};
use crate::order::makes_nothing_twice;
use crate::rendering::{collection_args, step_name};
use crate::transformations::TransformationView;
use vstd::prelude::*;

verus! {

/// Whether `declarations` has one for `name`.
pub open spec fn declares(declarations: Seq<(Seq<char>, nat)>, name: Seq<char>) -> bool {
    exists|i: int| 0 <= i < declarations.len() && #[trigger] declarations[i].0 == name
}

/// The first of the `candidates` for each name, in the order in which they come.
pub open spec fn first_of_each(candidates: Seq<(Seq<char>, nat)>) -> Seq<(Seq<char>, nat)>
    decreases candidates.len(),
{
    if candidates.len() == 0 {
        seq![]
    } else {
        let before = first_of_each(candidates.drop_last());
        if declares(before, candidates.last().0) {
            before
        } else {
            before.push(candidates.last())
        }
    }
}

/// The transformations that make something other than a relation.
pub open spec fn intermediate(steps: Seq<TransformationView>) -> Seq<TransformationView> {
    steps.filter(|t: TransformationView| !(t.signature() is Atom))
}

/// The name and the arity of what each of the `steps` makes.
pub open spec fn outputs_declared(
    steps: Seq<TransformationView>,
    names: Map<SignatureView, Seq<char>>,
) -> Seq<(Seq<char>, nat)> {
    Seq::new(
        steps.len(),
        |i: int| (dl_name(steps[i].signature(), names), steps[i].output.total_arity()),
    )
}

impl GroupView {
    /// The arity of what the `i`-th rule ends in.
    pub open spec fn last_arity(self, i: int) -> nat {
        if self.strata_plan[i].len() == 0 {
            self.per_rule_last[i].total_arity()
        } else {
            self.strata_plan[i].last().output.total_arity()
        }
    }

    /// The name of each rule's head, with the arity of what the rule ends in.
    pub open spec fn heads_declared(self) -> Seq<(Seq<char>, nat)> {
        Seq::new(self.rules.len(), |i: int| (self.rules[i].name, self.last_arity(i)))
    }

    /// All relations of the group: what its transformations make, relations aside, and its heads;
    /// each name once.
    pub open spec fn declarations(self, names: Map<SignatureView, Seq<char>>) -> Seq<
        (Seq<char>, nat),
    > {
        first_of_each(
            outputs_declared(intermediate(self.strata_plan.flatten()), names)
                + self.heads_declared(),
        )
    }

    /// Whether the arities of what the group makes are machine numbers.
    pub open spec fn arities_fit(self) -> bool {
        &&& forall|i: int, j: int|
            #![trigger self.strata_plan[i][j]]
            0 <= i < self.strata_plan.len() && 0 <= j < self.strata_plan[i].len()
                ==> self.strata_plan[i][j].output.total_arity() <= usize::MAX
        &&& forall|i: int|
            #![trigger self.per_rule_last[i]]
            0 <= i < self.per_rule_last.len() && self.strata_plan[i].len() == 0
                ==> self.per_rule_last[i].total_arity() <= usize::MAX
    }

    /// Whether all relations of the group can be declared: what its transformations make has a name,
    /// and the arities are machine numbers.
    pub open spec fn can_declare(self, names: Map<SignatureView, Seq<char>>) -> bool {
        &&& forall|i: int, j: int|
            #![trigger self.strata_plan[i][j]]
            0 <= i < self.strata_plan.len() && 0 <= j < self.strata_plan[i].len() ==> has_name(
                self.strata_plan[i][j].signature(),
                names,
            )
        &&& self.arities_fit()
    }
}

/// What is declared: each name that the candidates have, each once.
proof fn lemma_first_of_each(candidates: Seq<(Seq<char>, nat)>)
    ensures
        forall|name: Seq<char>| #[trigger]
            declares(first_of_each(candidates), name) <==> declares(candidates, name),
        forall|i: int, j: int|
            0 <= i < j < first_of_each(candidates).len() ==> #[trigger] first_of_each(
                candidates,
            )[i].0 != #[trigger] first_of_each(candidates)[j].0,
    decreases candidates.len(),
{
    if candidates.len() > 0 {
        let fewer = candidates.drop_last();
        let last = candidates.last();
        let before = first_of_each(fewer);
        let after = first_of_each(candidates);
        lemma_first_of_each(fewer);
        assert(candidates =~= fewer.push(last));
        assert forall|name: Seq<char>| #[trigger] declares(after, name) <==> declares(
            candidates,
            name,
        ) by {
            lemma_declares_push(fewer, last, name);
            lemma_declares_push(before, last, name);
        }
        if !declares(before, last.0) {
            assert forall|i: int, j: int|
                0 <= i < j < after.len() implies #[trigger] after[i].0 != #[trigger] after[j].0 by {
                assert(after[i] == before[i]);
            }
        }
    }
}

pub(crate) proof fn lemma_declares_push(
    declarations: Seq<(Seq<char>, nat)>,
    last: (Seq<char>, nat),
    name: Seq<char>,
)
    ensures
        declares(declarations.push(last), name) <==> declares(declarations, name) || last.0 == name,
{
    let more = declarations.push(last);
    assert(more[declarations.len() as int] == last);
    if declares(declarations, name) {
        let i = choose|i: int| 0 <= i < declarations.len() && #[trigger] declarations[i].0 == name;
        assert(more[i].0 == name);
    }
    if declares(more, name) {
        let i = choose|i: int| 0 <= i < more.len() && #[trigger] more[i].0 == name;
        if i < declarations.len() {
            assert(declarations[i].0 == name);
        }
    }
}

/// No name is declared twice.
pub proof fn law_nothing_is_declared_twice(group: GroupView, names: Map<SignatureView, Seq<char>>)
    ensures
        forall|i: int, j: int|
            0 <= i < j < group.declarations(names).len() ==> #[trigger] group.declarations(
                names,
            )[i].0 != #[trigger] group.declarations(names)[j].0,
{
    lemma_first_of_each(
        outputs_declared(intermediate(group.strata_plan.flatten()), names)
            + group.heads_declared(),
    );
}

/// Every relation that a Datalog rule of the group defines is declared, unless it is a relation
/// that keeps its own name.
pub proof fn law_what_is_defined_is_declared(
    group: GroupView,
    names: Map<SignatureView, Seq<char>>,
    i: int,
    j: int,
)
    requires
        group.wf(),
        0 <= i < group.rules.len(),
        0 <= j < group.strata_plan[i].len(),
    ensures
        declares(group.declarations(names), group.rules[i].name),
        j == group.strata_plan[i].len() - 1 || !(group.strata_plan[i][j].signature() is Atom)
            ==> declares(
            group.declarations(names),
            step_name(group.rules[i], group.strata_plan[i], j, names),
        ),
{
    law_heads_are_declared(group, names, i);
    let step = group.strata_plan[i][j];
    let steps = group.strata_plan.flatten();
    let made = outputs_declared(intermediate(steps), names);
    let candidates = made + group.heads_declared();
    lemma_first_of_each(candidates);
    if !(step.signature() is Atom) {
        lemma_flatten_contains(group.strata_plan, i, j);
        let k = choose|k: int| 0 <= k < steps.len() && steps[k] == step;
        steps.lemma_filter_contains(|t: TransformationView| !(t.signature() is Atom), k);
        let m = choose|m: int|
            0 <= m < intermediate(steps).len() && intermediate(steps)[m] == step;
        assert(candidates[m] == made[m]);
        assert(candidates[m].0 == dl_name(step.signature(), names));
    }
}

/// Every head is declared.
pub proof fn law_heads_are_declared(
    group: GroupView,
    names: Map<SignatureView, Seq<char>>,
    i: int,
)
    requires
        0 <= i < group.rules.len(),
    ensures
        declares(group.declarations(names), group.rules[i].name),
{
    let made = outputs_declared(intermediate(group.strata_plan.flatten()), names);
    let candidates = made + group.heads_declared();
    lemma_first_of_each(candidates);
    assert(candidates[made.len() + i] == group.heads_declared()[i]);
    assert(candidates[made.len() + i].0 == group.rules[i].name);
}

/// A candidate whose name no earlier one has is declared.
proof fn lemma_first_is_declared(candidates: Seq<(Seq<char>, nat)>, n: int)
    requires
        0 <= n < candidates.len(),
        forall|k: int| 0 <= k < n ==> (#[trigger] candidates[k]).0 != candidates[n].0,
    ensures
        first_of_each(candidates).contains(candidates[n]),
    decreases candidates.len(),
{
    let fewer = candidates.drop_last();
    let before = first_of_each(fewer);
    let after = first_of_each(candidates);
    if n == candidates.len() - 1 {
        lemma_first_of_each(fewer);
        if declares(fewer, candidates[n].0) {
            let k = choose|k: int| 0 <= k < fewer.len() && #[trigger] fewer[k].0 == candidates[n].0;
            assert(candidates[k].0 == candidates[n].0);
        }
        assert(after[before.len() as int] == candidates[n]);
    } else {
        assert forall|k: int| 0 <= k < n implies (#[trigger] fewer[k]).0 != fewer[n].0 by {
            assert(candidates[k].0 != candidates[n].0);
        }
        lemma_first_is_declared(fewer, n);
        let m = choose|m: int| 0 <= m < before.len() && before[m] == candidates[n];
        assert(after[m] == candidates[n]);
    }
}

/// Where no two steps make the same collection, no two of those that make something other than a
/// relation do.
proof fn lemma_intermediate_once(steps: Seq<TransformationView>)
    requires
        makes_nothing_twice(steps),
    ensures
        makes_nothing_twice(intermediate(steps)),
    decreases steps.len(),
{
    let pred = |t: TransformationView| !(t.signature() is Atom);
    reveal(Seq::filter);
    if steps.len() > 0 {
        let fewer = steps.drop_last();
        assert forall|i: int, j: int| 0 <= i < j < fewer.len() implies #[trigger] fewer[i].signature()
            != #[trigger] fewer[j].signature() by {
            assert(steps[i].signature() != steps[j].signature());
        }
        lemma_intermediate_once(fewer);
        let some = intermediate(fewer);
        assert forall|i: int| 0 <= i < some.len() implies #[trigger] some[i].signature()
            != steps.last().signature() by {
            assert(some.contains(some[i]));
            fewer.lemma_filter_contains_rev(pred, some[i]);
            let k = choose|k: int| 0 <= k < fewer.len() && fewer[k] == some[i];
            assert(steps[k].signature() != steps[steps.len() - 1].signature());
        }
        let more = intermediate(steps);
        assert forall|i: int, j: int| 0 <= i < j < more.len() implies #[trigger] more[i].signature()
            != #[trigger] more[j].signature() by {
            assert(more[i] == some[i]);
            if j < some.len() {
                assert(more[j] == some[j]);
            }
        }
    }
}

/// Where nothing is made twice and no two collections have the same name, each collection that the
/// group makes, relations aside, is declared with as many arguments as its Datalog rule has.
pub proof fn law_collections_are_declared_as_written(
    group: GroupView,
    names: Map<SignatureView, Seq<char>>,
    i: int,
    j: int,
)
    requires
        group.wf(),
        makes_nothing_twice(group.strata_plan.flatten()),
        forall|s: SignatureView, t: SignatureView|
            names.contains_key(s) && names.contains_key(t) && s != t ==> #[trigger] names[s]
                != #[trigger] names[t],
        group.can_declare(names),
        0 <= i < group.rules.len(),
        0 <= j < group.strata_plan[i].len(),
        !(group.strata_plan[i][j].signature() is Atom),
    ensures
        ({
            let step = group.strata_plan[i][j];
            group.declarations(names).contains(
                (
                    dl_name(step.signature(), names),
                    collection_args(step.output, group.rules[i].catalog).len(),
                ),
            )
        }),
{
    let step = group.strata_plan[i][j];
    let steps = group.strata_plan.flatten();
    let some = intermediate(steps);
    let pred = |t: TransformationView| !(t.signature() is Atom);
    let made = outputs_declared(some, names);
    let candidates = made + group.heads_declared();
    lemma_flatten_contains(group.strata_plan, i, j);
    let k = choose|k: int| 0 <= k < steps.len() && steps[k] == step;
    steps.lemma_filter_contains(pred, k);
    let m = choose|m: int| 0 <= m < some.len() && some[m] == step;
    lemma_intermediate_once(steps);
    assert(candidates[m] == made[m]);
    assert forall|n: int| 0 <= n < m implies (#[trigger] candidates[n]).0 != candidates[m].0 by {
        assert(candidates[n] == made[n]);
        assert(some[n].signature() != some[m].signature());
        assert(some.contains(some[n]));
        steps.lemma_filter_contains_rev(pred, some[n]);
        steps.lemma_filter_pred(pred, n);
        let a = choose|a: int| 0 <= a < steps.len() && steps[a] == some[n];
        lemma_step_of_group(group.strata_plan, a);
        let (b, c) = choose|b: int, c: int|
            0 <= b < group.strata_plan.len() && 0 <= c < group.strata_plan[b].len()
                && #[trigger] group.strata_plan[b][c] == steps[a];
        assert(has_name(group.strata_plan[b][c].signature(), names));
        assert(names[some[n].signature()] != names[some[m].signature()]);
    }
    lemma_first_is_declared(candidates, m);
}

/// Where no other collection of the group has the name of a rule's head, and no rule before it has
/// the same head, that head is declared with as many arguments as the rule ends in.
pub proof fn law_heads_are_declared_as_written(
    group: GroupView,
    names: Map<SignatureView, Seq<char>>,
    i: int,
)
    requires
        group.wf(),
        0 <= i < group.rules.len(),
        !declares(
            outputs_declared(intermediate(group.strata_plan.flatten()), names),
            group.rules[i].name,
        ),
        forall|k: int| 0 <= k < i ==> (#[trigger] group.rules[k]).name != group.rules[i].name,
    ensures
        ({
            let last = if group.strata_plan[i].len() == 0 {
                group.per_rule_last[i]
            } else {
                group.strata_plan[i].last().output
            };
            group.declarations(names).contains(
                (group.rules[i].name, collection_args(last, group.rules[i].catalog).len()),
            )
        }),
{
    let made = outputs_declared(intermediate(group.strata_plan.flatten()), names);
    let heads = group.heads_declared();
    let candidates = made + heads;
    let n = made.len() + i;
    assert(candidates[n] == heads[i]);
    assert forall|k: int| 0 <= k < n implies (#[trigger] candidates[k]).0 != candidates[n].0 by {
        if k < made.len() {
            assert(candidates[k] == made[k]);
            assert(made[k].0 != group.rules[i].name);
        } else {
            assert(candidates[k] == heads[k - made.len()]);
            assert(group.rules[k - made.len()].name != group.rules[i].name);
        }
    }
    lemma_first_is_declared(candidates, n);
}

/// The candidates of a group: what each of its transformations makes, relations aside, by name and
/// number of arguments, in order, then each head with the number of arguments of what its rule ends
/// in. Declared is the first candidate for each name, and nothing else, in the order in which the
/// candidates come.
pub proof fn law_declarations_are_the_first_candidates(
    group: GroupView,
    names: Map<SignatureView, Seq<char>>,
    p: int,
    q: int,
    m: int,
    n: int,
)
    requires
        group.wf(),
    ensures
        ({
            let made = group.strata_plan.flatten().filter(
                |t: TransformationView| !(t.output.signature is Atom),
            );
            let candidates = Seq::new(
                made.len() + group.rules.len(),
                |k: int|
                    if k < made.len() {
                        (
                            dl_name(made[k].output.signature, names),
                            made[k].output.key.len() + made[k].output.value.len(),
                        )
                    } else {
                        let i = k - made.len();
                        let last = if group.strata_plan[i].len() == 0 {
                            group.per_rule_last[i]
                        } else {
                            group.strata_plan[i].last().output
                        };
                        (group.rules[i].name, last.key.len() + last.value.len())
                    },
            );
            let declared = group.declarations(names);
            &&& 0 <= p < declared.len() ==> exists|k: int| #[trigger]
                is_first(candidates, k) && candidates[k] == declared[p]
            &&& is_first(candidates, m) ==> declared.contains(candidates[m])
            &&& 0 <= p < q < declared.len() && is_first(candidates, m) && is_first(candidates, n)
                && declared[p] == candidates[m] && declared[q] == candidates[n] ==> m < n
        }),
{
    let made = group.strata_plan.flatten().filter(
        |t: TransformationView| !(t.output.signature is Atom),
    );
    let candidates = Seq::new(
        made.len() + group.rules.len(),
        |k: int|
            if k < made.len() {
                (
                    dl_name(made[k].output.signature, names),
                    made[k].output.key.len() + made[k].output.value.len(),
                )
            } else {
                let i = k - made.len();
                let last = if group.strata_plan[i].len() == 0 {
                    group.per_rule_last[i]
                } else {
                    group.strata_plan[i].last().output
                };
                (group.rules[i].name, last.key.len() + last.value.len())
            },
    );
    let pred = |t: TransformationView| !(t.signature() is Atom);
    assert(pred =~= (|t: TransformationView| !(t.output.signature is Atom)));
    assert(made == intermediate(group.strata_plan.flatten()));
    assert(candidates =~= outputs_declared(made, names) + group.heads_declared());
    lemma_order_of_firsts(candidates);
    if is_first(candidates, m) {
        lemma_first_is_declared(candidates, m);
    }
}

/// Whether no candidate before the `n`-th has its name.
pub open spec fn is_first(candidates: Seq<(Seq<char>, nat)>, n: int) -> bool {
    &&& 0 <= n < candidates.len()
    &&& forall|k: int| 0 <= k < n ==> (#[trigger] candidates[k]).0 != candidates[n].0
}

/// What is declared are first candidates, in their order.
proof fn lemma_order_of_firsts(candidates: Seq<(Seq<char>, nat)>)
    ensures
        forall|p: int|
            #![trigger first_of_each(candidates)[p]]
            0 <= p < first_of_each(candidates).len() ==> exists|k: int| #[trigger]
                is_first(candidates, k) && candidates[k] == first_of_each(candidates)[p],
        forall|p: int, q: int, m: int, n: int|
            #![trigger
                first_of_each(candidates)[p],
                first_of_each(candidates)[q],
                is_first(candidates, m),
                is_first(candidates, n)
            ]
            0 <= p < q < first_of_each(candidates).len() && is_first(candidates, m) && is_first(
                candidates,
                n,
            ) && first_of_each(candidates)[p] == candidates[m] && first_of_each(candidates)[q]
                == candidates[n] ==> m < n,
    decreases candidates.len(),
{
    if candidates.len() > 0 {
        let fewer = candidates.drop_last();
        let last = candidates.last();
        let before = first_of_each(fewer);
        let after = first_of_each(candidates);
        let end = candidates.len() - 1;
        lemma_order_of_firsts(fewer);
        lemma_first_of_each(fewer);
        lemma_first_of_each(candidates);
        assert forall|k: int| 0 <= k < end implies (is_first(fewer, k) <==> #[trigger] is_first(
            candidates,
            k,
        )) by {
            assert(fewer[k] == candidates[k]);
            assert forall|l: int| 0 <= l < k implies fewer[l] == candidates[l] by {}
        }
        assert(is_first(candidates, end) <==> !declares(fewer, last.0)) by {
            if !is_first(candidates, end) {
                let k = choose|k: int|
                    0 <= k < end && (#[trigger] candidates[k]).0 == candidates[end].0;
                assert(fewer[k].0 == last.0);
            } else if declares(fewer, last.0) {
                let k = choose|k: int| 0 <= k < fewer.len() && #[trigger] fewer[k].0 == last.0;
                assert(candidates[k].0 == last.0);
            }
        }
        assert forall|p: int| #![trigger after[p]] 0 <= p < after.len() implies exists|k: int|
         #[trigger]
            is_first(candidates, k) && candidates[k] == after[p] by {
            if p < before.len() {
                assert(after[p] == before[p]);
                let k = choose|k: int| #[trigger] is_first(fewer, k) && fewer[k] == before[p];
                assert(is_first(candidates, k) && candidates[k] == after[p]);
            } else {
                assert(is_first(candidates, end) && candidates[end] == after[p]);
            }
        }
        assert forall|p: int, q: int, m: int, n: int|
            #![trigger after[p], after[q], is_first(candidates, m), is_first(candidates, n)]
            0 <= p < q < after.len() && is_first(candidates, m) && is_first(candidates, n)
                && after[p] == candidates[m] && after[q] == candidates[n] implies m < n by {
            assert(after[p].0 != after[q].0);
            assert(after[p] == before[p]);
            if q < before.len() {
                assert(after[q] == before[q]);
                if m == end {
                    assert(declares(before, last.0)) by {
                        assert(before[p].0 == last.0);
                    }
                }
                if n == end {
                    assert(declares(before, last.0)) by {
                        assert(before[q].0 == last.0);
                    }
                }
                assert(fewer[m] == candidates[m] && fewer[n] == candidates[n]);
                assert(is_first(fewer, m) && is_first(fewer, n));
            } else {
                if m == end {
                    assert(declares(before, last.0)) by {
                        assert(before[p].0 == last.0);
                    }
                }
                if n < end {
                    assert(declares(fewer, last.0)) by {
                        assert(fewer[n].0 == last.0);
                    }
                }
            }
        }
    }
}

} // verus!
