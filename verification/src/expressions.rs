//! Atoms, expressions and guards as they are written in the bodies of Datalog rules.

use crate::arguments::{
    ArithmeticArgument, ArithmeticView, ComparisonExprArgument, ComparisonView, ConstraintsView,
    FactorArgument, FactorView, FlowView, TransformationArgument, TransformationFlow,
};
use crate::model::views;
use crate::text::{join, joined, law_joining_lists_in_a_row, law_joining_up_to_one};
use vstd::prelude::*;

verus! {

/// An atom, negated or not.
pub open spec fn atom_text(name: Seq<char>, vars: Seq<Seq<char>>, negate: bool) -> Seq<char> {
    (if negate {
        "!"@
    } else {
        ""@
    }) + name + "("@ + joined(vars, ", "@) + ")"@
}

/// Writes an atom.
pub fn format_atom_with_vars(name: &str, vars: &[String], negate: bool) -> (text: String)
    ensures
        text@ == atom_text(name@, views(vars@), negate),
{
    let mut text = if negate {
        "!".to_owned()
    } else {
        "".to_owned()
    };
    text.append(name);
    text.append("(");
    text.append(join(vars, ", ").as_str());
    text.append(")");
    text
}

/// Whether `argument` reads a single input at a position that is there.
pub open spec fn kv_known(argument: TransformationArgument, keys: nat, values: nat) -> bool {
    match argument {
        TransformationArgument::KV((is_val, id)) => id < (if is_val {
            values
        } else {
            keys
        }),
        _ => false,
    }
}

/// The name of an argument that reads a single input.
pub open spec fn kv_name(
    argument: TransformationArgument,
    keys: Seq<Seq<char>>,
    values: Seq<Seq<char>>,
) -> Seq<char> {
    match argument {
        TransformationArgument::KV((is_val, id)) => if is_val {
            values[id as int]
        } else {
            keys[id as int]
        },
        _ => ""@,
    }
}

/// Whether `argument` reads one of two inputs at a position that is there.
pub open spec fn jn_known(
    argument: TransformationArgument,
    left_keys: nat,
    left_values: nat,
    right_values: nat,
) -> bool {
    match argument {
        TransformationArgument::Jn((is_right, is_val, id)) => id < (if is_right {
            right_values
        } else if is_val {
            left_values
        } else {
            left_keys
        }),
        _ => false,
    }
}

/// The name of an argument that reads one of two inputs.
pub open spec fn jn_name(
    argument: TransformationArgument,
    left_keys: Seq<Seq<char>>,
    left_values: Seq<Seq<char>>,
    right_values: Seq<Seq<char>>,
) -> Seq<char> {
    match argument {
        TransformationArgument::Jn((is_right, is_val, id)) => if is_right {
            right_values[id as int]
        } else if is_val {
            left_values[id as int]
        } else {
            left_keys[id as int]
        },
        _ => ""@,
    }
}

/// The names of all arguments that read a single input.
pub open spec fn kv_names(keys: Seq<Seq<char>>, values: Seq<Seq<char>>) -> spec_fn(
    TransformationArgument,
) -> Seq<char> {
    |argument: TransformationArgument| kv_name(argument, keys, values)
}

/// The names of all arguments that read one of two inputs.
pub open spec fn jn_names(
    left_keys: Seq<Seq<char>>,
    left_values: Seq<Seq<char>>,
    right_values: Seq<Seq<char>>,
) -> spec_fn(TransformationArgument) -> Seq<char> {
    |argument: TransformationArgument| jn_name(argument, left_keys, left_values, right_values)
}

/// The arguments that read a single input at a position that is there.
pub open spec fn kv_scope(keys: nat, values: nat) -> spec_fn(TransformationArgument) -> bool {
    |argument: TransformationArgument| kv_known(argument, keys, values)
}

/// The arguments that read one of two inputs at a position that is there.
pub open spec fn jn_scope(left_keys: nat, left_values: nat, right_values: nat) -> spec_fn(
    TransformationArgument,
) -> bool {
    |argument: TransformationArgument| jn_known(argument, left_keys, left_values, right_values)
}

/// Whether a factor reads nothing outside of `scope`.
pub open spec fn factor_known(
    factor: FactorView,
    scope: spec_fn(TransformationArgument) -> bool,
) -> bool {
    match factor {
        FactorView::Var(argument) => scope(argument),
        FactorView::Const(_) => true,
    }
}

/// Whether an arithmetic expression reads nothing outside of `scope`.
pub open spec fn arithmetic_known(
    expression: ArithmeticView,
    scope: spec_fn(TransformationArgument) -> bool,
) -> bool {
    &&& factor_known(expression.init, scope)
    &&& forall|i: int|
        #![trigger expression.rest[i]]
        0 <= i < expression.rest.len() ==> factor_known(expression.rest[i].1, scope)
}

/// Whether a comparison reads nothing outside of `scope`.
pub open spec fn comparison_known(
    comparison: ComparisonView,
    scope: spec_fn(TransformationArgument) -> bool,
) -> bool {
    arithmetic_known(comparison.left, scope) && arithmetic_known(comparison.right, scope)
}

/// A factor, as it is written with the given names.
pub open spec fn factor_text(
    factor: FactorView,
    names: spec_fn(TransformationArgument) -> Seq<char>,
) -> Seq<char> {
    match factor {
        FactorView::Var(argument) => names(argument),
        FactorView::Const(constant) => constant,
    }
}

/// Operators and the factors behind them, as they are written with the given names.
pub open spec fn terms_text(
    terms: Seq<(Seq<char>, FactorView)>,
    names: spec_fn(TransformationArgument) -> Seq<char>,
) -> Seq<char>
    decreases terms.len(),
{
    if terms.len() == 0 {
        ""@
    } else {
        terms_text(terms.drop_last(), names) + " "@ + terms.last().0 + " "@ + factor_text(
            terms.last().1,
            names,
        )
    }
}

/// An arithmetic expression, as it is written with the given names.
pub open spec fn arithmetic_text(
    expression: ArithmeticView,
    names: spec_fn(TransformationArgument) -> Seq<char>,
) -> Seq<char> {
    factor_text(expression.init, names) + terms_text(expression.rest, names)
}

/// A comparison, as it is written with the given names.
pub open spec fn comparison_text(
    comparison: ComparisonView,
    names: spec_fn(TransformationArgument) -> Seq<char>,
) -> Seq<char> {
    arithmetic_text(comparison.left, names) + " "@ + comparison.operator + " "@ + arithmetic_text(
        comparison.right,
        names,
    )
}

/// The name of an argument that reads a single input.
pub fn resolve_kv_arg_vars(
    ta: &TransformationArgument,
    key_vars: &[String],
    val_vars: &[String],
) -> (var: String)
    requires
        kv_known(*ta, key_vars@.len(), val_vars@.len()),
    ensures
        var@ == kv_name(*ta, views(key_vars@), views(val_vars@)),
{
    match ta {
        TransformationArgument::KV((is_val, id)) => {
            if *is_val {
                val_vars[*id].clone()
            } else {
                key_vars[*id].clone()
            }
        },
        _ => String::new(),
    }
}

/// The name of an argument that reads one of two inputs.
pub fn resolve_jn_arg_vars(
    ta: &TransformationArgument,
    lk: &[String],
    lv: &[String],
    rv: &[String],
) -> (var: String)
    requires
        jn_known(*ta, lk@.len(), lv@.len(), rv@.len()),
    ensures
        var@ == jn_name(*ta, views(lk@), views(lv@), views(rv@)),
{
    match ta {
        TransformationArgument::Jn((is_right, is_val, id)) => {
            if !*is_right {
                if *is_val {
                    lv[*id].clone()
                } else {
                    lk[*id].clone()
                }
            } else {
                rv[*id].clone()
            }
        },
        _ => String::new(),
    }
}

/// Writes a factor over a single input.
pub fn format_factor_kv_vars(
    fa: &FactorArgument,
    key_vars: &[String],
    val_vars: &[String],
) -> (text: String)
    requires
        factor_known(fa@, kv_scope(key_vars@.len(), val_vars@.len())),
    ensures
        text@ == factor_text(fa@, kv_names(views(key_vars@), views(val_vars@))),
{
    match fa {
        FactorArgument::Var(ta) => resolve_kv_arg_vars(ta, key_vars, val_vars),
        FactorArgument::Const(c) => c.clone(),
    }
}

/// Writes a factor over two inputs.
pub fn format_factor_jn_vars(
    fa: &FactorArgument,
    lk: &[String],
    lv: &[String],
    rv: &[String],
) -> (text: String)
    requires
        factor_known(fa@, jn_scope(lk@.len(), lv@.len(), rv@.len())),
    ensures
        text@ == factor_text(fa@, jn_names(views(lk@), views(lv@), views(rv@))),
{
    match fa {
        FactorArgument::Var(ta) => resolve_jn_arg_vars(ta, lk, lv, rv),
        FactorArgument::Const(c) => c.clone(),
    }
}

/// Writes an arithmetic expression over a single input.
pub fn format_arithmetic_kv_vars(
    aa: &ArithmeticArgument,
    key_vars: &[String],
    val_vars: &[String],
) -> (text: String)
    requires
        arithmetic_known(aa@, kv_scope(key_vars@.len(), val_vars@.len())),
    ensures
        text@ == arithmetic_text(aa@, kv_names(views(key_vars@), views(val_vars@))),
{
    let ghost names = kv_names(views(key_vars@), views(val_vars@));
    let mut s = format_factor_kv_vars(&aa.init, key_vars, val_vars);
    let mut i: usize = 0;
    proof {
        reveal_strlit("");
        assert(s@ + terms_text(aa@.rest.take(0), names) =~= s@);
    }
    while i < aa.rest.len()
        invariant
            i <= aa.rest@.len(),
            names == kv_names(views(key_vars@), views(val_vars@)),
            arithmetic_known(aa@, kv_scope(key_vars@.len(), val_vars@.len())),
            s@ == factor_text(aa@.init, names) + terms_text(aa@.rest.take(i as int), names),
        decreases aa.rest@.len() - i,
    {
        let (op, factor) = &aa.rest[i];
        proof {
            assert(aa@.rest[i as int] == (op@, factor@));
            assert(aa@.rest.take(i + 1).drop_last() =~= aa@.rest.take(i as int));
            assert(aa@.rest.take(i + 1).last() == aa@.rest[i as int]);
        }
        s.append(" ");
        s.append(op.as_str());
        s.append(" ");
        s.append(format_factor_kv_vars(factor, key_vars, val_vars).as_str());
        proof {
            assert(s@ =~= factor_text(aa@.init, names) + terms_text(aa@.rest.take(i + 1), names));
        }
        i += 1;
    }
    proof {
        assert(aa@.rest.take(i as int) =~= aa@.rest);
    }
    s
}

/// Writes an arithmetic expression over two inputs.
pub fn format_arithmetic_jn_vars(
    aa: &ArithmeticArgument,
    lk: &[String],
    lv: &[String],
    rv: &[String],
) -> (text: String)
    requires
        arithmetic_known(aa@, jn_scope(lk@.len(), lv@.len(), rv@.len())),
    ensures
        text@ == arithmetic_text(aa@, jn_names(views(lk@), views(lv@), views(rv@))),
{
    let ghost names = jn_names(views(lk@), views(lv@), views(rv@));
    let mut s = format_factor_jn_vars(&aa.init, lk, lv, rv);
    let mut i: usize = 0;
    proof {
        reveal_strlit("");
        assert(s@ + terms_text(aa@.rest.take(0), names) =~= s@);
    }
    while i < aa.rest.len()
        invariant
            i <= aa.rest@.len(),
            names == jn_names(views(lk@), views(lv@), views(rv@)),
            arithmetic_known(aa@, jn_scope(lk@.len(), lv@.len(), rv@.len())),
            s@ == factor_text(aa@.init, names) + terms_text(aa@.rest.take(i as int), names),
        decreases aa.rest@.len() - i,
    {
        let (op, factor) = &aa.rest[i];
        proof {
            assert(aa@.rest[i as int] == (op@, factor@));
            assert(aa@.rest.take(i + 1).drop_last() =~= aa@.rest.take(i as int));
            assert(aa@.rest.take(i + 1).last() == aa@.rest[i as int]);
        }
        s.append(" ");
        s.append(op.as_str());
        s.append(" ");
        s.append(format_factor_jn_vars(factor, lk, lv, rv).as_str());
        proof {
            assert(s@ =~= factor_text(aa@.init, names) + terms_text(aa@.rest.take(i + 1), names));
        }
        i += 1;
    }
    proof {
        assert(aa@.rest.take(i as int) =~= aa@.rest);
    }
    s
}

/// Writes a comparison over a single input.
pub fn format_compare_kv_vars(
    ca: &ComparisonExprArgument,
    key_vars: &[String],
    val_vars: &[String],
) -> (text: String)
    requires
        comparison_known(ca@, kv_scope(key_vars@.len(), val_vars@.len())),
    ensures
        text@ == comparison_text(ca@, kv_names(views(key_vars@), views(val_vars@))),
{
    let mut text = format_arithmetic_kv_vars(&ca.left, key_vars, val_vars);
    text.append(" ");
    text.append(ca.operator.as_str());
    text.append(" ");
    text.append(format_arithmetic_kv_vars(&ca.right, key_vars, val_vars).as_str());
    text
}

/// Writes a comparison over two inputs.
pub fn format_compare_jn_vars(
    ca: &ComparisonExprArgument,
    lk: &[String],
    lv: &[String],
    rv: &[String],
) -> (text: String)
    requires
        comparison_known(ca@, jn_scope(lk@.len(), lv@.len(), rv@.len())),
    ensures
        text@ == comparison_text(ca@, jn_names(views(lk@), views(lv@), views(rv@))),
{
    let mut text = format_arithmetic_jn_vars(&ca.left, lk, lv, rv);
    text.append(" ");
    text.append(ca.operator.as_str());
    text.append(" ");
    text.append(format_arithmetic_jn_vars(&ca.right, lk, lv, rv).as_str());
    text
}

/// Whether none of the comparisons reads anything outside of `scope`.
pub open spec fn compares_known(
    compares: Seq<ComparisonView>,
    scope: spec_fn(TransformationArgument) -> bool,
) -> bool {
    forall|i: int| 0 <= i < compares.len() ==> comparison_known(#[trigger] compares[i], scope)
}

/// Comparisons, as they are written with the given names.
pub open spec fn compares_text(
    compares: Seq<ComparisonView>,
    names: spec_fn(TransformationArgument) -> Seq<char>,
) -> Seq<Seq<char>> {
    Seq::new(compares.len(), |i: int| comparison_text(compares[i], names))
}

/// Whether neither the equalities nor the comparisons of `flow` read anything outside of `scope`.
pub open spec fn guards_known(
    flow: FlowView,
    scope: spec_fn(TransformationArgument) -> bool,
) -> bool {
    &&& forall|i: int|
        #![trigger flow.constraints.constant_eq[i]]
        0 <= i < flow.constraints.constant_eq.len() ==> scope(flow.constraints.constant_eq[i].0)
    &&& forall|i: int|
        #![trigger flow.constraints.variable_eq[i]]
        0 <= i < flow.constraints.variable_eq.len() ==> scope(flow.constraints.variable_eq[i].0)
            && scope(flow.constraints.variable_eq[i].1)
    &&& compares_known(flow.compares, scope)
}

/// The guards of a transformation of a single input: equalities with constants, equalities of
/// arguments, comparisons.
pub open spec fn guards_text(
    flow: FlowView,
    names: spec_fn(TransformationArgument) -> Seq<char>,
) -> Seq<Seq<char>> {
    let constants = flow.constraints.constant_eq;
    let variables = flow.constraints.variable_eq;
    Seq::new(constants.len(), |i: int| names(constants[i].0) + " = "@ + constants[i].1) + Seq::new(
        variables.len(),
        |i: int| names(variables[i].0) + " = "@ + names(variables[i].1),
    ) + compares_text(flow.compares, names)
}

/// Writes the guards of a transformation of a single input.
pub fn kv_guards_with_vars(
    flow: &TransformationFlow,
    key_vars: &[String],
    val_vars: &[String],
) -> (guards: Vec<String>)
    requires
        guards_known(flow@, kv_scope(key_vars@.len(), val_vars@.len())),
    ensures
        views(guards@) == guards_text(flow@, kv_names(views(key_vars@), views(val_vars@))),
{
    let ghost names = kv_names(views(key_vars@), views(val_vars@));
    let ghost scope = kv_scope(key_vars@.len(), val_vars@.len());
    let ghost expected = guards_text(flow@, names);
    let constraints = flow.constraints();
    let constants = &constraints.constant_eq_constraints;
    let variables = &constraints.variable_eq_constraints;
    let compares = flow.compares();
    let mut guards: Vec<String> = Vec::new();
    let mut i: usize = 0;
    while i < constants.len()
        invariant
            i <= constants@.len(),
            views(constants@) == flow@.constraints.constant_eq,
            names == kv_names(views(key_vars@), views(val_vars@)),
            scope == kv_scope(key_vars@.len(), val_vars@.len()),
            guards_known(flow@, scope),
            expected == guards_text(flow@, names),
            guards@.len() == i,
            forall|j: int| 0 <= j < guards@.len() ==> #[trigger] guards@[j]@ == expected[j],
        decreases constants@.len() - i,
    {
        let (ta, constant) = &constants[i];
        proof {
            assert(flow@.constraints.constant_eq[i as int] == (*ta, constant@));
        }
        let mut guard = resolve_kv_arg_vars(ta, key_vars, val_vars);
        guard.append(" = ");
        guard.append(constant.as_str());
        guards.push(guard);
        i += 1;
    }
    i = 0;
    while i < variables.len()
        invariant
            i <= variables@.len(),
            views(constants@) == flow@.constraints.constant_eq,
            views(variables@) == flow@.constraints.variable_eq,
            names == kv_names(views(key_vars@), views(val_vars@)),
            scope == kv_scope(key_vars@.len(), val_vars@.len()),
            guards_known(flow@, scope),
            expected == guards_text(flow@, names),
            guards@.len() == constants@.len() + i,
            forall|j: int| 0 <= j < guards@.len() ==> #[trigger] guards@[j]@ == expected[j],
        decreases variables@.len() - i,
    {
        let (ta1, ta2) = &variables[i];
        proof {
            assert(flow@.constraints.variable_eq[i as int] == (*ta1, *ta2));
            assert(views(constants@).len() == constants@.len());
        }
        let mut guard = resolve_kv_arg_vars(ta1, key_vars, val_vars);
        guard.append(" = ");
        guard.append(resolve_kv_arg_vars(ta2, key_vars, val_vars).as_str());
        guards.push(guard);
        i += 1;
    }
    i = 0;
    while i < compares.len()
        invariant
            i <= compares@.len(),
            views(constants@) == flow@.constraints.constant_eq,
            views(variables@) == flow@.constraints.variable_eq,
            views(compares@) == flow@.compares,
            names == kv_names(views(key_vars@), views(val_vars@)),
            scope == kv_scope(key_vars@.len(), val_vars@.len()),
            guards_known(flow@, scope),
            expected == guards_text(flow@, names),
            guards@.len() == constants@.len() + variables@.len() + i,
            forall|j: int| 0 <= j < guards@.len() ==> #[trigger] guards@[j]@ == expected[j],
        decreases compares@.len() - i,
    {
        proof {
            assert(flow@.compares[i as int] == compares@[i as int]@);
            assert(views(constants@).len() == constants@.len());
            assert(views(variables@).len() == variables@.len());
        }
        guards.push(format_compare_kv_vars(&compares[i], key_vars, val_vars));
        i += 1;
    }
    proof {
        assert(views(constants@).len() == constants@.len());
        assert(views(variables@).len() == variables@.len());
        assert(views(compares@).len() == compares@.len());
        assert(views(guards@) =~= expected);
    }
    guards
}

/// Writes the guards of a join: its comparisons.
pub fn jn_guards_with_vars(
    flow: &TransformationFlow,
    lk: &[String],
    lv: &[String],
    rv: &[String],
) -> (guards: Vec<String>)
    requires
        compares_known(flow@.compares, jn_scope(lk@.len(), lv@.len(), rv@.len())),
    ensures
        views(guards@) == compares_text(
            flow@.compares,
            jn_names(views(lk@), views(lv@), views(rv@)),
        ),
{
    let ghost names = jn_names(views(lk@), views(lv@), views(rv@));
    let compares = flow.compares();
    let mut guards: Vec<String> = Vec::new();
    let mut i: usize = 0;
    while i < compares.len()
        invariant
            i <= compares@.len(),
            views(compares@) == flow@.compares,
            names == jn_names(views(lk@), views(lv@), views(rv@)),
            compares_known(flow@.compares, jn_scope(lk@.len(), lv@.len(), rv@.len())),
            guards@.len() == i,
            forall|j: int|
                0 <= j < i ==> #[trigger] guards@[j]@ == comparison_text(flow@.compares[j], names),
        decreases compares@.len() - i,
    {
        proof {
            assert(flow@.compares[i as int] == compares@[i as int]@);
        }
        guards.push(format_compare_jn_vars(&compares[i], lk, lv, rv));
        i += 1;
    }
    proof {
        assert(views(compares@).len() == compares@.len());
        assert(views(guards@) =~= compares_text(flow@.compares, names));
    }
    guards
}

/// A negated atom is the atom with a sign in front, and an atom without arguments is its name with
/// brackets; with one more argument, that one stands before the closing bracket, behind the others.
pub proof fn law_atoms_grow_by_an_argument(name: Seq<char>, vars: Seq<Seq<char>>, var: Seq<char>)
    ensures
        atom_text(name, vars, true) == seq!['!'] + atom_text(name, vars, false),
        atom_text(name, Seq::empty(), false) == name + seq!['(', ')'],
        atom_text(name, seq![var], false) == name + seq!['('] + var + seq![')'],
        vars.len() > 0 ==> atom_text(name, vars.push(var), false) == atom_text(
            name,
            vars,
            false,
        ).drop_last() + seq![',', ' '] + var + seq![')'],
{
    reveal_strlit("!");
    reveal_strlit("");
    reveal_strlit("(");
    reveal_strlit(")");
    reveal_strlit(", ");
    assert(atom_text(name, vars, true) =~= seq!['!'] + atom_text(name, vars, false));
    law_joining_up_to_one(var, ", "@);
    assert(atom_text(name, Seq::empty(), false) =~= name + seq!['(', ')']);
    assert(atom_text(name, seq![var], false) =~= name + seq!['('] + var + seq![')']);
    if vars.len() > 0 {
        law_joining_lists_in_a_row(vars, seq![var], ", "@);
        assert(vars + seq![var] =~= vars.push(var));
        assert(atom_text(name, vars.push(var), false) =~= atom_text(
            name,
            vars,
            false,
        ).drop_last() + seq![',', ' '] + var + seq![')']);
    }
}

/// An argument that reads a single input has the name at its position in the key or in the value.
pub proof fn law_arguments_of_one_input_by_position(
    keys: Seq<Seq<char>>,
    values: Seq<Seq<char>>,
    id: usize,
)
    ensures
        kv_names(keys, values)(TransformationArgument::KV((false, id))) == keys[id as int],
        kv_names(keys, values)(TransformationArgument::KV((true, id))) == values[id as int],
        kv_name(TransformationArgument::KV((false, id)), keys, values) == keys[id as int],
        kv_name(TransformationArgument::KV((true, id)), keys, values) == values[id as int],
{
}

/// An argument that reads the left one of two inputs has the name at its position in the key or in
/// the value; one that reads the right one has the name at its position in the right value.
pub proof fn law_arguments_of_two_inputs_by_position(
    left_keys: Seq<Seq<char>>,
    left_values: Seq<Seq<char>>,
    right_values: Seq<Seq<char>>,
    is_val: bool,
    id: usize,
)
    ensures
        ({
            let names = jn_names(left_keys, left_values, right_values);
            &&& names(TransformationArgument::Jn((false, false, id))) == left_keys[id as int]
            &&& names(TransformationArgument::Jn((false, true, id))) == left_values[id as int]
            &&& names(TransformationArgument::Jn((true, is_val, id))) == right_values[id as int]
        }),
        jn_name(
            TransformationArgument::Jn((false, false, id)),
            left_keys,
            left_values,
            right_values,
        ) == left_keys[id as int],
        jn_name(
            TransformationArgument::Jn((false, true, id)),
            left_keys,
            left_values,
            right_values,
        ) == left_values[id as int],
        jn_name(
            TransformationArgument::Jn((true, is_val, id)),
            left_keys,
            left_values,
            right_values,
        ) == right_values[id as int],
{
}

/// A constant is written as it is, and a variable by its name; an expression of a single factor is
/// written as that factor; and one more operator with its factor is written behind, each after a
/// space.
pub proof fn law_expressions_grow_by_a_term(
    argument: TransformationArgument,
    constant: Seq<char>,
    expression: ArithmeticView,
    operator: Seq<char>,
    factor: FactorView,
    names: spec_fn(TransformationArgument) -> Seq<char>,
)
    ensures
        factor_text(FactorView::Const(constant), names) == constant,
        factor_text(FactorView::Var(argument), names) == names(argument),
        arithmetic_text(ArithmeticView { init: factor, rest: Seq::empty() }, names) == factor_text(
            factor,
            names,
        ),
        arithmetic_text(
            ArithmeticView {
                init: expression.init,
                rest: expression.rest.push((operator, factor)),
            },
            names,
        ) == arithmetic_text(expression, names) + seq![' '] + operator + seq![' '] + factor_text(
            factor,
            names,
        ),
{
    reveal_strlit("");
    reveal_strlit(" ");
    let single = ArithmeticView { init: factor, rest: Seq::empty() };
    assert(arithmetic_text(single, names) =~= factor_text(factor, names));
    let rest = expression.rest.push((operator, factor));
    assert(rest.drop_last() =~= expression.rest);
    let longer = ArithmeticView { init: expression.init, rest };
    assert(arithmetic_text(longer, names) =~= arithmetic_text(expression, names) + seq![' ']
        + operator + seq![' '] + factor_text(factor, names));
}

/// A comparison is its left side, its operator and its right side, with a space on either side of the
/// operator.
pub proof fn law_comparisons_have_their_sides(
    comparison: ComparisonView,
    names: spec_fn(TransformationArgument) -> Seq<char>,
)
    ensures
        ({
            let text = comparison_text(comparison, names);
            let left = arithmetic_text(comparison.left, names);
            let right = arithmetic_text(comparison.right, names);
            let operator = comparison.operator;
            &&& text.len() == left.len() + operator.len() + right.len() + 2
            &&& left.is_prefix_of(text)
            &&& right.is_suffix_of(text)
            &&& text.subrange(left.len() as int, text.len() - right.len()) == seq![' '] + operator
                + seq![' ']
        }),
{
    reveal_strlit(" ");
    let text = comparison_text(comparison, names);
    let left = arithmetic_text(comparison.left, names);
    let right = arithmetic_text(comparison.right, names);
    assert(text.subrange(0, left.len() as int) =~= left);
    assert(text.subrange(text.len() - right.len(), text.len() as int) =~= right);
    assert(text.subrange(left.len() as int, text.len() - right.len()) =~= seq![' ']
        + comparison.operator + seq![' ']);
}

/// Comparisons are written one by one.
pub proof fn law_comparisons_in_turn(
    compares: Seq<ComparisonView>,
    names: spec_fn(TransformationArgument) -> Seq<char>,
    i: int,
)
    requires
        0 <= i < compares.len(),
    ensures
        compares_text(compares, names).len() == compares.len(),
        compares_text(compares, names)[i] == comparison_text(compares[i], names),
{
}

/// There is a guard for each equality with a constant, then one for each equality of arguments, then
/// one for each comparison. Each guard speaks of its own constraint: the argument and the constant
/// of that equality, the two arguments of that equality, the sides of that comparison.
pub proof fn law_each_guard_writes_its_constraint(
    flow: FlowView,
    names: spec_fn(TransformationArgument) -> Seq<char>,
    i: int,
)
    ensures
        ({
            let guards = guards_text(flow, names);
            let constants = flow.constraints.constant_eq;
            let variables = flow.constraints.variable_eq;
            let equals = seq![' ', '=', ' '];
            &&& guards.len() == constants.len() + variables.len() + flow.compares.len()
            &&& 0 <= i < constants.len() ==> guards[i] == names(constants[i].0) + equals
                + constants[i].1
            &&& 0 <= i < variables.len() ==> guards[constants.len() + i] == names(variables[i].0)
                + equals + names(variables[i].1)
            &&& 0 <= i < flow.compares.len() ==> guards[constants.len() + variables.len() + i]
                == comparison_text(flow.compares[i], names)
        }),
{
    reveal_strlit(" = ");
    assert(" = "@ =~= seq![' ', '=', ' ']);
}

/// A guard depends on its constraint alone: with more constraints of a kind, the guards of those that
/// were there stay as they are, and those of the new ones are what these have by themselves.
pub proof fn law_guards_of_constraints_in_a_row(
    first: FlowView,
    second: FlowView,
    names: spec_fn(TransformationArgument) -> Seq<char>,
)
    requires
        first.constraints.variable_eq.len() == 0,
        first.compares.len() == 0,
    ensures
        guards_text(
            FlowView {
                constraints: ConstraintsView {
                    constant_eq: first.constraints.constant_eq + second.constraints.constant_eq,
                    variable_eq: second.constraints.variable_eq,
                },
                ..second
            },
            names,
        ) == guards_text(first, names) + guards_text(second, names),
{
    let both = FlowView {
        constraints: ConstraintsView {
            constant_eq: first.constraints.constant_eq + second.constraints.constant_eq,
            variable_eq: second.constraints.variable_eq,
        },
        ..second
    };
    assert(guards_text(both, names) =~= guards_text(first, names) + guards_text(second, names));
}

} // verus!
