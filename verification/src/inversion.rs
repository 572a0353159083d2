//! Names for the inputs of transformations.
//!
//! The arguments of an input may be those of another rule, which the catalog at hand does not know.
//! Those of the output it does know. So each position of an input gets the name of the output
//! position to which it flows.

use crate::arguments::{FlowView, TransformationArgument, TransformationFlow};
use crate::collections::{AtomArgumentSignature, Collection, CollectionView};
use crate::model::views;
use crate::names::{sigs_to_vars, variable, variables};
use crate::rule::Catalog;
use vstd::prelude::*;

verus! {

/// A position in an input of a transformation. The positions of the right one of two inputs are not
/// told apart by key and value.
pub enum Slot {
    Key(int),
    Value(int),
    LeftKey(int),
    LeftValue(int),
    Right(int),
}

/// Whether `argument` is read at `slot`.
pub open spec fn is_at(argument: TransformationArgument, slot: Slot) -> bool {
    match (argument, slot) {
        (TransformationArgument::KV((is_val, id)), Slot::Key(i)) => !is_val && id == i,
        (TransformationArgument::KV((is_val, id)), Slot::Value(i)) => is_val && id == i,
        (TransformationArgument::Jn((is_right, is_val, id)), Slot::LeftKey(i)) => !is_right
            && !is_val && id == i,
        (TransformationArgument::Jn((is_right, is_val, id)), Slot::LeftValue(i)) => !is_right
            && is_val && id == i,
        (TransformationArgument::Jn((is_right, is_val, id)), Slot::Right(i)) => is_right && id == i,
        _ => false,
    }
}

/// The name of the last of the `arguments` that is read at `slot`; `otherwise` where none is.
pub open spec fn last_name(
    arguments: Seq<TransformationArgument>,
    names: Seq<Seq<char>>,
    slot: Slot,
    otherwise: Seq<char>,
) -> Seq<char>
    decreases arguments.len(),
{
    if arguments.len() == 0 {
        otherwise
    } else if is_at(arguments.last(), slot) {
        names[arguments.len() - 1]
    } else {
        last_name(arguments.drop_last(), names, slot, otherwise)
    }
}

/// The name of the last output position to which `slot` flows, keys before values; a wildcard where
/// it flows nowhere.
pub open spec fn slot_name(
    flow: FlowView,
    output: CollectionView,
    catalog: Map<AtomArgumentSignature, Seq<char>>,
    slot: Slot,
) -> Seq<char> {
    last_name(
        flow.value,
        variables(catalog, output.value),
        slot,
        last_name(flow.key, variables(catalog, output.key), slot, "_"@),
    )
}

/// `n` wildcards.
fn wildcards(n: usize) -> (vars: Vec<String>)
    ensures
        vars@.len() == n,
        forall|i: int| 0 <= i < n ==> #[trigger] vars@[i]@ == "_"@,
{
    let mut vars: Vec<String> = Vec::new();
    let mut i: usize = 0;
    while i < n
        invariant
            i <= n,
            vars@.len() == i,
            forall|j: int| 0 <= j < i ==> #[trigger] vars@[j]@ == "_"@,
        decreases n - i,
    {
        vars.push("_".to_owned());
        i += 1;
    }
    vars
}

/// Whether each of the `arguments` that reads a single input reads a position that is there, and
/// has one of `outputs` names.
pub open spec fn kv_fits(
    arguments: Seq<TransformationArgument>,
    outputs: nat,
    keys: nat,
    values: nat,
) -> bool {
    forall|i: int|
        #![trigger arguments[i]]
        0 <= i < arguments.len() ==> match arguments[i] {
            TransformationArgument::KV((is_val, id)) => i < outputs && id < (if is_val {
                values
            } else {
                keys
            }),
            _ => true,
        }
}

/// Whether a flow from `input` to `output` only speaks of positions that are there.
pub open spec fn kv_flow_fits(
    input: CollectionView,
    output: CollectionView,
    flow: FlowView,
) -> bool {
    &&& !flow.joins
    &&& kv_fits(flow.key, output.key.len(), input.key.len(), input.value.len())
    &&& kv_fits(flow.value, output.value.len(), input.key.len(), input.value.len())
}

/// How the key of a single input is written.
pub open spec fn kv_key_vars(
    input: CollectionView,
    output: CollectionView,
    flow: FlowView,
    catalog: Map<AtomArgumentSignature, Seq<char>>,
) -> Seq<Seq<char>> {
    Seq::new(input.key.len(), |i: int| slot_name(flow, output, catalog, Slot::Key(i)))
}

/// How the value of a single input is written.
pub open spec fn kv_value_vars(
    input: CollectionView,
    output: CollectionView,
    flow: FlowView,
    catalog: Map<AtomArgumentSignature, Seq<char>>,
) -> Seq<Seq<char>> {
    Seq::new(input.value.len(), |i: int| slot_name(flow, output, catalog, Slot::Value(i)))
}

/// Names the input positions that the `arguments` read, each by the last of `names` that it has.
fn name_kv_slots(
    arguments: &Vec<TransformationArgument>,
    names: &Vec<String>,
    key_vars: &mut Vec<String>,
    val_vars: &mut Vec<String>,
)
    requires
        kv_fits(arguments@, names@.len(), old(key_vars)@.len(), old(val_vars)@.len()),
    ensures
        final(key_vars)@.len() == old(key_vars)@.len(),
        final(val_vars)@.len() == old(val_vars)@.len(),
        forall|i: int|
            0 <= i < final(key_vars)@.len() ==> #[trigger] final(key_vars)@[i]@ == last_name(
                arguments@,
                views(names@),
                Slot::Key(i),
                old(key_vars)@[i]@,
            ),
        forall|i: int|
            0 <= i < final(val_vars)@.len() ==> #[trigger] final(val_vars)@[i]@ == last_name(
                arguments@,
                views(names@),
                Slot::Value(i),
                old(val_vars)@[i]@,
            ),
{
    let mut n: usize = 0;
    while n < arguments.len()
        invariant
            n <= arguments@.len(),
            key_vars@.len() == old(key_vars)@.len(),
            val_vars@.len() == old(val_vars)@.len(),
            kv_fits(arguments@, names@.len(), old(key_vars)@.len(), old(val_vars)@.len()),
            forall|i: int|
                0 <= i < key_vars@.len() ==> #[trigger] key_vars@[i]@ == last_name(
                    arguments@.take(n as int),
                    views(names@),
                    Slot::Key(i),
                    old(key_vars)@[i]@,
                ),
            forall|i: int|
                0 <= i < val_vars@.len() ==> #[trigger] val_vars@[i]@ == last_name(
                    arguments@.take(n as int),
                    views(names@),
                    Slot::Value(i),
                    old(val_vars)@[i]@,
                ),
        decreases arguments@.len() - n,
    {
        proof {
            assert(arguments@.take(n + 1).drop_last() =~= arguments@.take(n as int));
            assert(arguments@.take(n + 1).last() == arguments@[n as int]);
        }
        if let TransformationArgument::KV((is_val, id)) = arguments[n] {
            let var = names[n].clone();
            if is_val {
                val_vars.set(id, var);
            } else {
                key_vars.set(id, var);
            }
        }
        n += 1;
    }
    proof {
        assert(arguments@.take(n as int) =~= arguments@);
    }
}

/// Names the arguments of a transformation's input after the outputs to which they flow.
pub fn derive_kv_input_vars(
    input: &Collection,
    output: &Collection,
    flow: &TransformationFlow,
    catalog: &Catalog,
) -> (vars: (Vec<String>, Vec<String>))
    requires
        kv_flow_fits(input@, output@, flow@),
    ensures
        views(vars.0@) == kv_key_vars(input@, output@, flow@, catalog@),
        views(vars.1@) == kv_value_vars(input@, output@, flow@, catalog@),
{
    let out_keys = sigs_to_vars(&output.key_argument_signatures, catalog);
    let out_vals = sigs_to_vars(&output.value_argument_signatures, catalog);
    let (in_key_arity, in_val_arity) = input.arity();
    let mut in_key_vars = wildcards(in_key_arity);
    let mut in_val_vars = wildcards(in_val_arity);
    proof {
        assert(views(out_keys@).len() == output@.key.len());
        assert(views(out_vals@).len() == output@.value.len());
    }
    name_kv_slots(flow.key(), &out_keys, &mut in_key_vars, &mut in_val_vars);
    name_kv_slots(flow.value(), &out_vals, &mut in_key_vars, &mut in_val_vars);
    proof {
        assert(views(in_key_vars@) =~= kv_key_vars(input@, output@, flow@, catalog@));
        assert(views(in_val_vars@) =~= kv_value_vars(input@, output@, flow@, catalog@));
    }
    (in_key_vars, in_val_vars)
}

/// Whether each of the `arguments` that reads one of two inputs reads a position that is there, and
/// has one of `outputs` names.
pub open spec fn jn_fits(
    arguments: Seq<TransformationArgument>,
    outputs: nat,
    left_keys: nat,
    left_values: nat,
    right_values: nat,
) -> bool {
    forall|i: int|
        #![trigger arguments[i]]
        0 <= i < arguments.len() ==> match arguments[i] {
            TransformationArgument::Jn((is_right, is_val, id)) => i < outputs && id < (
            if is_right {
                right_values
            } else if is_val {
                left_values
            } else {
                left_keys
            }),
            _ => true,
        }
}

/// Whether a flow from `left` and `right` to `output` only speaks of positions that are there.
pub open spec fn jn_flow_fits(
    left: CollectionView,
    right: CollectionView,
    output: CollectionView,
    flow: FlowView,
) -> bool {
    &&& flow.joins
    &&& jn_fits(
        flow.key,
        output.key.len(),
        left.key.len(),
        left.value.len(),
        right.value.len(),
    )
    &&& jn_fits(
        flow.value,
        output.value.len(),
        left.key.len(),
        left.value.len(),
        right.value.len(),
    )
}

/// How the key of the left one of two inputs is written; the right one has the same key.
pub open spec fn jn_left_key_vars(
    left: CollectionView,
    output: CollectionView,
    flow: FlowView,
    catalog: Map<AtomArgumentSignature, Seq<char>>,
) -> Seq<Seq<char>> {
    Seq::new(left.key.len(), |i: int| slot_name(flow, output, catalog, Slot::LeftKey(i)))
}

/// How the value of the left one of two inputs is written.
pub open spec fn jn_left_value_vars(
    left: CollectionView,
    output: CollectionView,
    flow: FlowView,
    catalog: Map<AtomArgumentSignature, Seq<char>>,
) -> Seq<Seq<char>> {
    Seq::new(left.value.len(), |i: int| slot_name(flow, output, catalog, Slot::LeftValue(i)))
}

/// How the value of the right one of two inputs is written.
pub open spec fn jn_right_value_vars(
    right: CollectionView,
    output: CollectionView,
    flow: FlowView,
    catalog: Map<AtomArgumentSignature, Seq<char>>,
) -> Seq<Seq<char>> {
    Seq::new(right.value.len(), |i: int| slot_name(flow, output, catalog, Slot::Right(i)))
}

/// Names the input positions that the `arguments` read, each by the last of `names` that it has.
fn name_jn_slots(
    arguments: &Vec<TransformationArgument>,
    names: &Vec<String>,
    lk_vars: &mut Vec<String>,
    lv_vars: &mut Vec<String>,
    rv_vars: &mut Vec<String>,
)
    requires
        jn_fits(
            arguments@,
            names@.len(),
            old(lk_vars)@.len(),
            old(lv_vars)@.len(),
            old(rv_vars)@.len(),
        ),
    ensures
        final(lk_vars)@.len() == old(lk_vars)@.len(),
        final(lv_vars)@.len() == old(lv_vars)@.len(),
        final(rv_vars)@.len() == old(rv_vars)@.len(),
        forall|i: int|
            0 <= i < final(lk_vars)@.len() ==> #[trigger] final(lk_vars)@[i]@ == last_name(
                arguments@,
                views(names@),
                Slot::LeftKey(i),
                old(lk_vars)@[i]@,
            ),
        forall|i: int|
            0 <= i < final(lv_vars)@.len() ==> #[trigger] final(lv_vars)@[i]@ == last_name(
                arguments@,
                views(names@),
                Slot::LeftValue(i),
                old(lv_vars)@[i]@,
            ),
        forall|i: int|
            0 <= i < final(rv_vars)@.len() ==> #[trigger] final(rv_vars)@[i]@ == last_name(
                arguments@,
                views(names@),
                Slot::Right(i),
                old(rv_vars)@[i]@,
            ),
{
    let mut n: usize = 0;
    while n < arguments.len()
        invariant
            n <= arguments@.len(),
            lk_vars@.len() == old(lk_vars)@.len(),
            lv_vars@.len() == old(lv_vars)@.len(),
            rv_vars@.len() == old(rv_vars)@.len(),
            jn_fits(
                arguments@,
                names@.len(),
                old(lk_vars)@.len(),
                old(lv_vars)@.len(),
                old(rv_vars)@.len(),
            ),
            forall|i: int|
                0 <= i < lk_vars@.len() ==> #[trigger] lk_vars@[i]@ == last_name(
                    arguments@.take(n as int),
                    views(names@),
                    Slot::LeftKey(i),
                    old(lk_vars)@[i]@,
                ),
            forall|i: int|
                0 <= i < lv_vars@.len() ==> #[trigger] lv_vars@[i]@ == last_name(
                    arguments@.take(n as int),
                    views(names@),
                    Slot::LeftValue(i),
                    old(lv_vars)@[i]@,
                ),
            forall|i: int|
                0 <= i < rv_vars@.len() ==> #[trigger] rv_vars@[i]@ == last_name(
                    arguments@.take(n as int),
                    views(names@),
                    Slot::Right(i),
                    old(rv_vars)@[i]@,
                ),
        decreases arguments@.len() - n,
    {
        proof {
            assert(arguments@.take(n + 1).drop_last() =~= arguments@.take(n as int));
            assert(arguments@.take(n + 1).last() == arguments@[n as int]);
        }
        if let TransformationArgument::Jn((is_right, is_val, id)) = arguments[n] {
            let var = names[n].clone();
            if is_right {
                rv_vars.set(id, var);
            } else if is_val {
                lv_vars.set(id, var);
            } else {
                lk_vars.set(id, var);
            }
        }
        n += 1;
    }
    proof {
        assert(arguments@.take(n as int) =~= arguments@);
    }
}

/// Names the arguments of a transformation's two inputs after the outputs to which they flow: those
/// of the left key and the left value, and those of the right value.
pub fn derive_jn_input_vars(
    left: &Collection,
    right: &Collection,
    output: &Collection,
    flow: &TransformationFlow,
    catalog: &Catalog,
) -> (vars: ((Vec<String>, Vec<String>), Vec<String>))
    requires
        jn_flow_fits(left@, right@, output@, flow@),
    ensures
        views(vars.0.0@) == jn_left_key_vars(left@, output@, flow@, catalog@),
        views(vars.0.1@) == jn_left_value_vars(left@, output@, flow@, catalog@),
        views(vars.1@) == jn_right_value_vars(right@, output@, flow@, catalog@),
{
    let out_keys = sigs_to_vars(&output.key_argument_signatures, catalog);
    let out_vals = sigs_to_vars(&output.value_argument_signatures, catalog);
    let (lk_arity, lv_arity) = left.arity();
    let (_, rv_arity) = right.arity();
    let mut lk_vars = wildcards(lk_arity);
    let mut lv_vars = wildcards(lv_arity);
    let mut rv_vars = wildcards(rv_arity);
    proof {
        assert(views(out_keys@).len() == output@.key.len());
        assert(views(out_vals@).len() == output@.value.len());
    }
    name_jn_slots(flow.key(), &out_keys, &mut lk_vars, &mut lv_vars, &mut rv_vars);
    name_jn_slots(flow.value(), &out_vals, &mut lk_vars, &mut lv_vars, &mut rv_vars);
    proof {
        assert(views(lk_vars@) =~= jn_left_key_vars(left@, output@, flow@, catalog@));
        assert(views(lv_vars@) =~= jn_left_value_vars(left@, output@, flow@, catalog@));
        assert(views(rv_vars@) =~= jn_right_value_vars(right@, output@, flow@, catalog@));
    }
    ((lk_vars, lv_vars), rv_vars)
}

/// Whether one of the `arguments` from the `start`-th on is read at `slot`.
pub open spec fn reads_from(
    arguments: Seq<TransformationArgument>,
    slot: Slot,
    start: int,
) -> bool {
    exists|i: int| start <= i < arguments.len() && is_at(#[trigger] arguments[i], slot)
}

proof fn lemma_last_name(
    arguments: Seq<TransformationArgument>,
    names: Seq<Seq<char>>,
    slot: Slot,
    otherwise: Seq<char>,
    i: int,
)
    requires
        0 <= i < arguments.len(),
        is_at(arguments[i], slot),
        !reads_from(arguments, slot, i + 1),
    ensures
        last_name(arguments, names, slot, otherwise) == names[i],
    decreases arguments.len(),
{
    if i < arguments.len() - 1 {
        let fewer = arguments.drop_last();
        if reads_from(fewer, slot, i + 1) {
            let j = choose|j: int| i + 1 <= j < fewer.len() && is_at(#[trigger] fewer[j], slot);
            assert(is_at(arguments[j], slot));
        }
        lemma_last_name(fewer, names, slot, otherwise, i);
    }
}

proof fn lemma_no_name(
    arguments: Seq<TransformationArgument>,
    names: Seq<Seq<char>>,
    slot: Slot,
    otherwise: Seq<char>,
)
    requires
        !reads_from(arguments, slot, 0),
    ensures
        last_name(arguments, names, slot, otherwise) == otherwise,
    decreases arguments.len(),
{
    if arguments.len() > 0 {
        let fewer = arguments.drop_last();
        if reads_from(fewer, slot, 0) {
            let j = choose|j: int| 0 <= j < fewer.len() && is_at(#[trigger] fewer[j], slot);
            assert(is_at(arguments[j], slot));
        }
        lemma_no_name(fewer, names, slot, otherwise);
    }
}

/// An input position that flows to the `i`-th part of the output's value, and to none behind it, has
/// the name of that part.
pub proof fn law_named_like_output_value(
    flow: FlowView,
    output: CollectionView,
    catalog: Map<AtomArgumentSignature, Seq<char>>,
    slot: Slot,
    i: int,
)
    requires
        0 <= i < flow.value.len(),
        i < output.value.len(),
        is_at(flow.value[i], slot),
        !reads_from(flow.value, slot, i + 1),
    ensures
        slot_name(flow, output, catalog, slot) == variable(catalog, output.value[i]),
{
    let by_key = last_name(flow.key, variables(catalog, output.key), slot, "_"@);
    lemma_last_name(flow.value, variables(catalog, output.value), slot, by_key, i);
}

/// An input position that flows to the `i`-th part of the output's key, to none behind it, and not
/// to the output's value, has the name of that part.
pub proof fn law_named_like_output_key(
    flow: FlowView,
    output: CollectionView,
    catalog: Map<AtomArgumentSignature, Seq<char>>,
    slot: Slot,
    i: int,
)
    requires
        0 <= i < flow.key.len(),
        i < output.key.len(),
        is_at(flow.key[i], slot),
        !reads_from(flow.key, slot, i + 1),
        !reads_from(flow.value, slot, 0),
    ensures
        slot_name(flow, output, catalog, slot) == variable(catalog, output.key[i]),
{
    let keys = variables(catalog, output.key);
    lemma_last_name(flow.key, keys, slot, "_"@, i);
    lemma_no_name(
        flow.value,
        variables(catalog, output.value),
        slot,
        last_name(flow.key, keys, slot, "_"@),
    );
}

/// An input position that does not flow to the output is a wildcard.
pub proof fn law_unused_is_wildcard(
    flow: FlowView,
    output: CollectionView,
    catalog: Map<AtomArgumentSignature, Seq<char>>,
    slot: Slot,
)
    requires
        !reads_from(flow.key, slot, 0),
        !reads_from(flow.value, slot, 0),
    ensures
        slot_name(flow, output, catalog, slot) == "_"@,
{
    lemma_no_name(flow.key, variables(catalog, output.key), slot, "_"@);
    lemma_no_name(flow.value, variables(catalog, output.value), slot, "_"@);
}

/// Whether `argument` does not occur from the `start`-th of the `arguments` on.
pub open spec fn unread(
    arguments: Seq<TransformationArgument>,
    argument: TransformationArgument,
    start: int,
) -> bool {
    forall|m: int| start <= m < arguments.len() ==> #[trigger] arguments[m] != argument
}

/// Whether none of the `arguments` from the `start`-th on reads the right input at position `i`.
pub open spec fn right_unread(
    arguments: Seq<TransformationArgument>,
    i: usize,
    start: int,
) -> bool {
    forall|m: int|
        start <= m < arguments.len() ==> #[trigger] arguments[m] != TransformationArgument::Jn(
            (true, true, i),
        ) && arguments[m] != TransformationArgument::Jn((true, false, i))
}

/// The `i`-th part of a single input's key has the name of the last part of
/// the output's value to which it flows, or, if it flows to none, of the last part of the output's
/// key to which it flows; if it flows nowhere, it is a wildcard.
pub proof fn law_input_keys_are_inverted(
    input: CollectionView,
    output: CollectionView,
    flow: FlowView,
    catalog: Map<AtomArgumentSignature, Seq<char>>,
    i: usize,
    k: int,
)
    requires
        i < input.key.len(),
    ensures
        ({
            let vars = kv_key_vars(input, output, flow, catalog);
            let here = TransformationArgument::KV((false, i));
            &&& vars.len() == input.key.len()
            &&& 0 <= k < flow.value.len() && k < output.value.len() && flow.value[k] == here
                && unread(flow.value, here, k + 1) ==> vars[i as int] == variable(
                catalog,
                output.value[k],
            )
            &&& 0 <= k < flow.key.len() && k < output.key.len() && flow.key[k] == here
                && unread(flow.key, here, k + 1) && unread(flow.value, here, 0)
                ==> vars[i as int] == variable(catalog, output.key[k])
            &&& unread(flow.key, here, 0) && unread(flow.value, here, 0) ==> vars[i as int]
                == "_"@
        }),
{
    let slot = Slot::Key(i as int);
    let here = TransformationArgument::KV((false, i));
    assert(is_at(here, slot));
    assert forall|arguments: Seq<TransformationArgument>, start: int|
        0 <= start && #[trigger] unread(arguments, here, start) implies !reads_from(
        arguments,
        slot,
        start,
    ) by {
        if reads_from(arguments, slot, start) {
            let m = choose|m: int| start <= m < arguments.len() && is_at(#[trigger] arguments[m], slot);
            assert(arguments[m] == here);
        }
    }
    if 0 <= k < flow.value.len() && k < output.value.len() && flow.value[k] == here && unread(
        flow.value,
        here,
        k + 1,
    ) {
        law_named_like_output_value(flow, output, catalog, slot, k);
    }
    if 0 <= k < flow.key.len() && k < output.key.len() && flow.key[k] == here && unread(
        flow.key,
        here,
        k + 1,
    ) && unread(flow.value, here, 0) {
        law_named_like_output_key(flow, output, catalog, slot, k);
    }
    if unread(flow.key, here, 0) && unread(flow.value, here, 0) {
        law_unused_is_wildcard(flow, output, catalog, slot);
    }
}

/// The `i`-th part of a single input's value has the name of the last part of
/// the output's value to which it flows, or, if it flows to none, of the last part of the output's
/// key to which it flows; if it flows nowhere, it is a wildcard.
pub proof fn law_input_values_are_inverted(
    input: CollectionView,
    output: CollectionView,
    flow: FlowView,
    catalog: Map<AtomArgumentSignature, Seq<char>>,
    i: usize,
    k: int,
)
    requires
        i < input.value.len(),
    ensures
        ({
            let vars = kv_value_vars(input, output, flow, catalog);
            let here = TransformationArgument::KV((true, i));
            &&& vars.len() == input.value.len()
            &&& 0 <= k < flow.value.len() && k < output.value.len() && flow.value[k] == here
                && unread(flow.value, here, k + 1) ==> vars[i as int] == variable(
                catalog,
                output.value[k],
            )
            &&& 0 <= k < flow.key.len() && k < output.key.len() && flow.key[k] == here
                && unread(flow.key, here, k + 1) && unread(flow.value, here, 0)
                ==> vars[i as int] == variable(catalog, output.key[k])
            &&& unread(flow.key, here, 0) && unread(flow.value, here, 0) ==> vars[i as int]
                == "_"@
        }),
{
    let slot = Slot::Value(i as int);
    let here = TransformationArgument::KV((true, i));
    assert(is_at(here, slot));
    assert forall|arguments: Seq<TransformationArgument>, start: int|
        0 <= start && #[trigger] unread(arguments, here, start) implies !reads_from(
        arguments,
        slot,
        start,
    ) by {
        if reads_from(arguments, slot, start) {
            let m = choose|m: int| start <= m < arguments.len() && is_at(#[trigger] arguments[m], slot);
            assert(arguments[m] == here);
        }
    }
    if 0 <= k < flow.value.len() && k < output.value.len() && flow.value[k] == here && unread(
        flow.value,
        here,
        k + 1,
    ) {
        law_named_like_output_value(flow, output, catalog, slot, k);
    }
    if 0 <= k < flow.key.len() && k < output.key.len() && flow.key[k] == here && unread(
        flow.key,
        here,
        k + 1,
    ) && unread(flow.value, here, 0) {
        law_named_like_output_key(flow, output, catalog, slot, k);
    }
    if unread(flow.key, here, 0) && unread(flow.value, here, 0) {
        law_unused_is_wildcard(flow, output, catalog, slot);
    }
}

/// The `i`-th part of a left input's key has the name of the last part of
/// the output's value to which it flows, or, if it flows to none, of the last part of the output's
/// key to which it flows; if it flows nowhere, it is a wildcard.
pub proof fn law_left_keys_are_inverted(
    left: CollectionView,
    output: CollectionView,
    flow: FlowView,
    catalog: Map<AtomArgumentSignature, Seq<char>>,
    i: usize,
    k: int,
)
    requires
        i < left.key.len(),
    ensures
        ({
            let vars = jn_left_key_vars(left, output, flow, catalog);
            let here = TransformationArgument::Jn((false, false, i));
            &&& vars.len() == left.key.len()
            &&& 0 <= k < flow.value.len() && k < output.value.len() && flow.value[k] == here
                && unread(flow.value, here, k + 1) ==> vars[i as int] == variable(
                catalog,
                output.value[k],
            )
            &&& 0 <= k < flow.key.len() && k < output.key.len() && flow.key[k] == here
                && unread(flow.key, here, k + 1) && unread(flow.value, here, 0)
                ==> vars[i as int] == variable(catalog, output.key[k])
            &&& unread(flow.key, here, 0) && unread(flow.value, here, 0) ==> vars[i as int]
                == "_"@
        }),
{
    let slot = Slot::LeftKey(i as int);
    let here = TransformationArgument::Jn((false, false, i));
    assert(is_at(here, slot));
    assert forall|arguments: Seq<TransformationArgument>, start: int|
        0 <= start && #[trigger] unread(arguments, here, start) implies !reads_from(
        arguments,
        slot,
        start,
    ) by {
        if reads_from(arguments, slot, start) {
            let m = choose|m: int| start <= m < arguments.len() && is_at(#[trigger] arguments[m], slot);
            assert(arguments[m] == here);
        }
    }
    if 0 <= k < flow.value.len() && k < output.value.len() && flow.value[k] == here && unread(
        flow.value,
        here,
        k + 1,
    ) {
        law_named_like_output_value(flow, output, catalog, slot, k);
    }
    if 0 <= k < flow.key.len() && k < output.key.len() && flow.key[k] == here && unread(
        flow.key,
        here,
        k + 1,
    ) && unread(flow.value, here, 0) {
        law_named_like_output_key(flow, output, catalog, slot, k);
    }
    if unread(flow.key, here, 0) && unread(flow.value, here, 0) {
        law_unused_is_wildcard(flow, output, catalog, slot);
    }
}

/// The `i`-th part of a left input's value has the name of the last part of
/// the output's value to which it flows, or, if it flows to none, of the last part of the output's
/// key to which it flows; if it flows nowhere, it is a wildcard.
pub proof fn law_left_values_are_inverted(
    left: CollectionView,
    output: CollectionView,
    flow: FlowView,
    catalog: Map<AtomArgumentSignature, Seq<char>>,
    i: usize,
    k: int,
)
    requires
        i < left.value.len(),
    ensures
        ({
            let vars = jn_left_value_vars(left, output, flow, catalog);
            let here = TransformationArgument::Jn((false, true, i));
            &&& vars.len() == left.value.len()
            &&& 0 <= k < flow.value.len() && k < output.value.len() && flow.value[k] == here
                && unread(flow.value, here, k + 1) ==> vars[i as int] == variable(
                catalog,
                output.value[k],
            )
            &&& 0 <= k < flow.key.len() && k < output.key.len() && flow.key[k] == here
                && unread(flow.key, here, k + 1) && unread(flow.value, here, 0)
                ==> vars[i as int] == variable(catalog, output.key[k])
            &&& unread(flow.key, here, 0) && unread(flow.value, here, 0) ==> vars[i as int]
                == "_"@
        }),
{
    let slot = Slot::LeftValue(i as int);
    let here = TransformationArgument::Jn((false, true, i));
    assert(is_at(here, slot));
    assert forall|arguments: Seq<TransformationArgument>, start: int|
        0 <= start && #[trigger] unread(arguments, here, start) implies !reads_from(
        arguments,
        slot,
        start,
    ) by {
        if reads_from(arguments, slot, start) {
            let m = choose|m: int| start <= m < arguments.len() && is_at(#[trigger] arguments[m], slot);
            assert(arguments[m] == here);
        }
    }
    if 0 <= k < flow.value.len() && k < output.value.len() && flow.value[k] == here && unread(
        flow.value,
        here,
        k + 1,
    ) {
        law_named_like_output_value(flow, output, catalog, slot, k);
    }
    if 0 <= k < flow.key.len() && k < output.key.len() && flow.key[k] == here && unread(
        flow.key,
        here,
        k + 1,
    ) && unread(flow.value, here, 0) {
        law_named_like_output_key(flow, output, catalog, slot, k);
    }
    if unread(flow.key, here, 0) && unread(flow.value, here, 0) {
        law_unused_is_wildcard(flow, output, catalog, slot);
    }
}

/// The `i`-th part of a right input's value has the name of the last part of
/// the output's value to which it flows, or, if it flows to none, of the last part of the output's
/// key to which it flows; if it flows nowhere, it is a wildcard.
pub proof fn law_right_values_are_inverted(
    right: CollectionView,
    output: CollectionView,
    flow: FlowView,
    catalog: Map<AtomArgumentSignature, Seq<char>>,
    i: usize,
    k: int,
    is_val: bool,
)
    requires
        i < right.value.len(),
    ensures
        ({
            let vars = jn_right_value_vars(right, output, flow, catalog);
            let here = TransformationArgument::Jn((true, is_val, i));
            &&& vars.len() == right.value.len()
            &&& 0 <= k < flow.value.len() && k < output.value.len() && flow.value[k] == here
                && right_unread(flow.value, i, k + 1) ==> vars[i as int] == variable(
                catalog,
                output.value[k],
            )
            &&& 0 <= k < flow.key.len() && k < output.key.len() && flow.key[k] == here
                && right_unread(flow.key, i, k + 1) && right_unread(flow.value, i, 0)
                ==> vars[i as int] == variable(catalog, output.key[k])
            &&& right_unread(flow.key, i, 0) && right_unread(flow.value, i, 0) ==> vars[i as int]
                == "_"@
        }),
{
    let slot = Slot::Right(i as int);
    let here = TransformationArgument::Jn((true, is_val, i));
    assert(is_at(here, slot));
    assert forall|arguments: Seq<TransformationArgument>, start: int|
        0 <= start && #[trigger] right_unread(arguments, i, start) implies !reads_from(
        arguments,
        slot,
        start,
    ) by {
        if reads_from(arguments, slot, start) {
            let m = choose|m: int| start <= m < arguments.len() && is_at(#[trigger] arguments[m], slot);
            if let TransformationArgument::Jn((_, v, _)) = arguments[m] {
                assert(arguments[m] == TransformationArgument::Jn((true, v, i)));
                assert(v || v == false);
            }
        }
    }
    if 0 <= k < flow.value.len() && k < output.value.len() && flow.value[k] == here && right_unread(
        flow.value,
        i,
        k + 1,
    ) {
        law_named_like_output_value(flow, output, catalog, slot, k);
    }
    if 0 <= k < flow.key.len() && k < output.key.len() && flow.key[k] == here && right_unread(
        flow.key,
        i,
        k + 1,
    ) && right_unread(flow.value, i, 0) {
        law_named_like_output_key(flow, output, catalog, slot, k);
    }
    if right_unread(flow.key, i, 0) && right_unread(flow.value, i, 0) {
        law_unused_is_wildcard(flow, output, catalog, slot);
    }
}

} // verus!
