use planning::arguments::{
    ArithmeticArgument, ComparisonExprArgument, Constraints, FactorArgument,
    TransformationArgument, TransformationFlow,
};
use planning::collections::{
    AtomArgumentSignature, Collection, CollectionSignature, SignatureMap, SignatureSet,
};
use planning::expressions::{
    format_arithmetic_jn_vars, format_arithmetic_kv_vars, format_atom_with_vars,
    format_compare_jn_vars, format_compare_kv_vars, format_factor_jn_vars, format_factor_kv_vars,
    jn_guards_with_vars, kv_guards_with_vars, resolve_jn_arg_vars, resolve_kv_arg_vars,
};
use planning::inversion::{derive_jn_input_vars, derive_kv_input_vars};
use planning::keyed::KeyedMap;
use planning::names::{collection_dl_args, lookup_dl_name, sig_to_var, type_prefix};
use planning::rule::{Catalog, FLRule, Head, RuleQueryPlan};
use planning::strata::GroupStrataQueryPlan;
use planning::transformations::Transformation;
use std::sync::Arc;

fn arg(rhs_id: usize, argument_id: usize) -> AtomArgumentSignature {
    AtomArgumentSignature { is_positive: true, rhs_id, argument_id }
}

fn kv(is_val: bool, id: usize) -> TransformationArgument {
    TransformationArgument::KV((is_val, id))
}

fn jn(is_right: bool, is_val: bool, id: usize) -> TransformationArgument {
    TransformationArgument::Jn((is_right, is_val, id))
}

fn strings(items: &[&str]) -> Vec<String> {
    items.iter().map(|s| s.to_string()).collect()
}

fn catalog() -> Catalog {
    let mut names: KeyedMap<AtomArgumentSignature, String> = KeyedMap::new();
    names.insert(arg(0, 0), "x".to_string());
    names.insert(arg(0, 1), "y".to_string());
    names.insert(arg(1, 1), "z".to_string());
    Catalog { signature_to_argument_str_map: names }
}

fn unary(name: &str) -> CollectionSignature {
    CollectionSignature::UnaryTransformationOutput { name: name.to_string() }
}

fn collection(
    signature: CollectionSignature,
    key: Vec<AtomArgumentSignature>,
    value: Vec<AtomArgumentSignature>,
) -> Collection {
    Collection {
        signature: Arc::new(signature),
        key_argument_signatures: key,
        value_argument_signatures: value,
    }
}

fn no_constraints() -> Constraints {
    Constraints { constant_eq_constraints: vec![], variable_eq_constraints: vec![] }
}

/// `first + 1`.
fn plus_one(first: TransformationArgument) -> ArithmeticArgument {
    ArithmeticArgument {
        init: FactorArgument::Var(first),
        rest: vec![("+".to_string(), FactorArgument::Const("1".to_string()))],
    }
}

fn less(left: ArithmeticArgument, right: ArithmeticArgument) -> ComparisonExprArgument {
    ComparisonExprArgument { operator: "<".to_string(), left, right }
}

fn just(argument: TransformationArgument) -> ArithmeticArgument {
    ArithmeticArgument { init: FactorArgument::Var(argument), rest: vec![] }
}

#[test]
fn variables_and_wildcards() {
    assert_eq!(sig_to_var(&arg(0, 1), &catalog()), "y");
    assert_eq!(sig_to_var(&arg(5, 0), &catalog()), "_");
    let negated = AtomArgumentSignature { is_positive: false, rhs_id: 0, argument_id: 1 };
    assert_eq!(sig_to_var(&negated, &catalog()), "_");
    let coll = collection(unary("R"), vec![arg(0, 1)], vec![arg(5, 5), arg(0, 0)]);
    assert_eq!(collection_dl_args(&coll, &catalog()), strings(&["y", "_", "x"]));
}

#[test]
fn prefixes_by_kind() {
    assert_eq!(type_prefix(&unary("KvToKv")), "kv");
    assert_eq!(type_prefix(&unary("K")), "k_");
    assert_eq!(type_prefix(&unary("KK")), "k_");
    assert_eq!(type_prefix(&unary("Row")), "rw");
    assert_eq!(type_prefix(&unary("")), "rw");
    assert_eq!(type_prefix(&CollectionSignature::JnOutput { name: "Kv".to_string() }), "jn");
    assert_eq!(type_prefix(&CollectionSignature::NegJnOutput { name: "n".to_string() }), "nj");
}

#[test]
fn names_of_collections() {
    let mut names: SignatureMap<String> = KeyedMap::new();
    names.insert(Arc::new(unary("a")), "rw0".to_string());
    assert_eq!(lookup_dl_name(&Arc::new(unary("a")), &names), "rw0");
    assert_eq!(lookup_dl_name(&Arc::new(CollectionSignature::new_atom("a")), &names), "a");
}

#[test]
fn input_of_one_is_named_after_the_output() {
    let input = collection(unary("i"), vec![arg(9, 0)], vec![arg(9, 1), arg(9, 2)]);
    let output = collection(unary("o"), vec![arg(0, 0)], vec![arg(0, 1)]);
    let flow = TransformationFlow::KVToKV {
        key: vec![kv(true, 1)],
        value: vec![kv(false, 0)],
        constraints: no_constraints(),
        compares: vec![],
    };
    let (keys, values) = derive_kv_input_vars(&input, &output, &flow, &catalog());
    assert_eq!(keys, strings(&["y"]));
    assert_eq!(values, strings(&["_", "x"]));
}

#[test]
fn the_last_output_position_names_an_input() {
    let input = collection(unary("i"), vec![], vec![arg(9, 1)]);
    let output = collection(unary("o"), vec![arg(0, 0), arg(0, 1)], vec![arg(1, 1)]);
    let flow = TransformationFlow::KVToKV {
        key: vec![kv(true, 0), kv(true, 0)],
        value: vec![],
        constraints: no_constraints(),
        compares: vec![],
    };
    assert_eq!(derive_kv_input_vars(&input, &output, &flow, &catalog()).1, strings(&["y"]));
    let flow = TransformationFlow::KVToKV {
        key: vec![kv(true, 0), kv(true, 0), jn(true, true, 7)],
        value: vec![kv(true, 0)],
        constraints: no_constraints(),
        compares: vec![],
    };
    assert_eq!(derive_kv_input_vars(&input, &output, &flow, &catalog()).1, strings(&["z"]));
}

#[test]
fn inputs_of_a_join_are_named_after_the_output() {
    let left = collection(unary("l"), vec![arg(9, 0)], vec![arg(9, 1), arg(9, 2)]);
    let right = collection(unary("r"), vec![arg(8, 0)], vec![arg(8, 1), arg(8, 2)]);
    let output = collection(unary("o"), vec![arg(0, 0)], vec![arg(0, 1), arg(1, 1)]);
    let flow = TransformationFlow::JnToKV {
        key: vec![jn(false, true, 1)],
        value: vec![jn(true, false, 0), jn(false, false, 0)],
        constraints: no_constraints(),
        compares: vec![],
    };
    let ((lk, lv), rv) = derive_jn_input_vars(&left, &right, &output, &flow, &catalog());
    assert_eq!(lk, strings(&["z"]));
    assert_eq!(lv, strings(&["_", "x"]));
    assert_eq!(rv, strings(&["y", "_"]));
}

#[test]
fn atoms() {
    assert_eq!(format_atom_with_vars("p", &strings(&["x", "y"]), false), "p(x, y)");
    assert_eq!(format_atom_with_vars("p", &strings(&["x"]), true), "!p(x)");
    assert_eq!(format_atom_with_vars("p", &[], false), "p()");
}

#[test]
fn expressions_over_one_input() {
    let keys = strings(&["a"]);
    let values = strings(&["b", "c"]);
    assert_eq!(resolve_kv_arg_vars(&kv(false, 0), &keys, &values), "a");
    assert_eq!(resolve_kv_arg_vars(&kv(true, 1), &keys, &values), "c");
    assert_eq!(format_factor_kv_vars(&FactorArgument::Var(kv(true, 0)), &keys, &values), "b");
    let constant = FactorArgument::Const("42".to_string());
    assert_eq!(format_factor_kv_vars(&constant, &keys, &values), "42");
    assert_eq!(format_arithmetic_kv_vars(&plus_one(kv(true, 1)), &keys, &values), "c + 1");
    let two = ArithmeticArgument {
        init: constant,
        rest: vec![
            ("*".to_string(), FactorArgument::Var(kv(false, 0))),
            ("-".to_string(), FactorArgument::Var(kv(true, 0))),
        ],
    };
    assert_eq!(format_arithmetic_kv_vars(&two, &keys, &values), "42 * a - b");
    assert_eq!(
        format_compare_kv_vars(&less(two, plus_one(kv(true, 1))), &keys, &values),
        "42 * a - b < c + 1"
    );
}

#[test]
fn expressions_over_two_inputs() {
    let lk = strings(&["k"]);
    let lv = strings(&["l"]);
    let rv = strings(&["q", "r"]);
    assert_eq!(resolve_jn_arg_vars(&jn(false, false, 0), &lk, &lv, &rv), "k");
    assert_eq!(resolve_jn_arg_vars(&jn(false, true, 0), &lk, &lv, &rv), "l");
    assert_eq!(resolve_jn_arg_vars(&jn(true, true, 1), &lk, &lv, &rv), "r");
    assert_eq!(resolve_jn_arg_vars(&jn(true, false, 0), &lk, &lv, &rv), "q");
    assert_eq!(
        format_factor_jn_vars(&FactorArgument::Const("7".to_string()), &lk, &lv, &rv),
        "7"
    );
    assert_eq!(
        format_arithmetic_jn_vars(&plus_one(jn(false, true, 0)), &lk, &lv, &rv),
        "l + 1"
    );
    let compare = less(just(jn(true, true, 0)), plus_one(jn(false, false, 0)));
    assert_eq!(format_compare_jn_vars(&compare, &lk, &lv, &rv), "q < k + 1");
    let flow = TransformationFlow::JnToKV {
        key: vec![],
        value: vec![],
        constraints: no_constraints(),
        compares: vec![compare],
    };
    assert_eq!(jn_guards_with_vars(&flow, &lk, &lv, &rv), strings(&["q < k + 1"]));
}

#[test]
fn guards_over_one_input() {
    let flow = TransformationFlow::KVToKV {
        key: vec![],
        value: vec![],
        constraints: Constraints {
            constant_eq_constraints: vec![(kv(true, 0), "5".to_string())],
            variable_eq_constraints: vec![(kv(false, 0), kv(true, 1))],
        },
        compares: vec![less(just(kv(true, 0)), plus_one(kv(false, 0)))],
    };
    assert_eq!(
        kv_guards_with_vars(&flow, &strings(&["a"]), &strings(&["b", "c"])),
        strings(&["b = 5", "a = c", "b < a + 1"])
    );
}

/// The Datalog rule for a plan of a single transformation.
fn only_rule(root: Transformation, named: Vec<(CollectionSignature, &str)>) -> String {
    let rule = FLRule {
        head: Head { name: "p".to_string(), arity: 2 },
        catalog: Arc::new(catalog()),
    };
    let plan = RuleQueryPlan { rule, root, tree: KeyedMap::new() };
    let mut seen = SignatureSet::new();
    let group = GroupStrataQueryPlan::new(false, vec![plan], &mut seen, false);
    let mut names: SignatureMap<String> = KeyedMap::new();
    for (signature, name) in named {
        names.insert(Arc::new(signature), name.to_string());
    }
    let rules = group.to_datalog_rules(&names);
    assert_eq!(rules.len(), 1);
    rules[0].clone()
}

#[test]
fn rule_with_guards() {
    let root = Transformation::KvToKv {
        input: Arc::new(collection(unary("i"), vec![arg(9, 0)], vec![arg(9, 1)])),
        output: Arc::new(collection(unary("o"), vec![arg(0, 0)], vec![arg(0, 1)])),
        flow: Arc::new(TransformationFlow::KVToKV {
            key: vec![kv(true, 0)],
            value: vec![kv(false, 0)],
            constraints: Constraints {
                constant_eq_constraints: vec![(kv(true, 0), "5".to_string())],
                variable_eq_constraints: vec![],
            },
            compares: vec![less(just(kv(false, 0)), just(kv(true, 0)))],
        }),
    };
    assert_eq!(
        only_rule(root, vec![(unary("i"), "rw3")]),
        "p(x, y) :- rw3(y, x), x = 5, y < x."
    );
}

#[test]
fn rule_for_an_antijoin() {
    let root = Transformation::NjKvK {
        input: (
            Arc::new(collection(unary("l"), vec![arg(9, 0)], vec![arg(9, 1)])),
            Arc::new(collection(CollectionSignature::new_atom("n"), vec![arg(8, 0)], vec![])),
        ),
        output: Arc::new(collection(unary("o"), vec![arg(0, 0)], vec![arg(0, 1)])),
        flow: Arc::new(TransformationFlow::JnToKV {
            key: vec![jn(false, false, 0)],
            value: vec![jn(false, true, 0)],
            constraints: no_constraints(),
            compares: vec![less(just(jn(false, false, 0)), just(jn(false, true, 0)))],
        }),
    };
    assert_eq!(only_rule(root, vec![(unary("l"), "kv1")]), "p(x, y) :- kv1(x, y), !n(x).");
}

#[test]
fn rule_for_a_product() {
    let root = Transformation::Cartesian {
        input: (
            Arc::new(collection(CollectionSignature::new_atom("a"), vec![], vec![arg(9, 0)])),
            Arc::new(collection(CollectionSignature::new_atom("b"), vec![], vec![arg(8, 0)])),
        ),
        output: Arc::new(collection(unary("o"), vec![], vec![arg(0, 0), arg(0, 1)])),
        flow: Arc::new(TransformationFlow::JnToKV {
            key: vec![],
            value: vec![jn(false, true, 0), jn(true, true, 0)],
            constraints: no_constraints(),
            compares: vec![less(just(jn(false, true, 0)), just(jn(true, true, 0)))],
        }),
    };
    assert_eq!(only_rule(root, vec![]), "p(x, y) :- a(x), b(y), x < y.");
}

#[test]
fn a_join_key_that_does_not_come_out_is_a_wildcard() {
    let root = Transformation::JnKvKv {
        input: (
            Arc::new(collection(CollectionSignature::new_atom("a"), vec![arg(9, 0)], vec![arg(9, 1)])),
            Arc::new(collection(CollectionSignature::new_atom("b"), vec![arg(8, 0)], vec![arg(8, 1)])),
        ),
        output: Arc::new(collection(unary("o"), vec![], vec![arg(0, 0), arg(0, 1)])),
        flow: Arc::new(TransformationFlow::JnToKV {
            key: vec![],
            value: vec![jn(false, true, 0), jn(true, true, 0)],
            constraints: no_constraints(),
            compares: vec![],
        }),
    };
    assert_eq!(only_rule(root, vec![]), "p(x, y) :- a(_, x), b(_, y).");
}

#[test]
fn maps_and_sets_of_signatures() {
    let mut map: SignatureMap<String> = KeyedMap::new();
    map.insert(Arc::new(unary("a")), "1".to_string());
    map.insert(Arc::new(unary("b")), "2".to_string());
    map.insert(Arc::new(unary("a")), "3".to_string());
    assert_eq!(map.get(&Arc::new(unary("a"))).unwrap(), "3");
    assert!(map.contains_key(&Arc::new(unary("b"))));
    assert!(!map.contains_key(&Arc::new(CollectionSignature::new_atom("a"))));
    assert_eq!(map.keys().len(), 2);
    let mut lists: SignatureMap<Vec<Arc<CollectionSignature>>> = KeyedMap::new();
    lists.append(Arc::new(unary("a")), Arc::new(unary("x")));
    lists.append(Arc::new(unary("a")), Arc::new(unary("y")));
    assert_eq!(lists.get(&Arc::new(unary("a"))).unwrap().len(), 2);
    let mut set = SignatureSet::new();
    assert!(set.insert(Arc::new(unary("a"))));
    assert!(!set.insert(Arc::new(unary("a"))));
    let mut other = SignatureSet::new();
    other.insert(Arc::new(unary("b")));
    other.extend(&set);
    let copy = other.clone();
    assert!(copy.contains(&Arc::new(unary("a"))) && copy.contains(&Arc::new(unary("b"))));
    assert_eq!(copy.members().len(), 2);
    assert!(!set.contains(&Arc::new(unary("b"))));
}
