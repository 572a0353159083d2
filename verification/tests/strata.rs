use planning::arguments::{Constraints, TransformationArgument, TransformationFlow};
use planning::collections::{
    AtomArgumentSignature, Collection, CollectionSignature, SignatureMap, SignatureSet,
};
use planning::keyed::KeyedMap;
use planning::rule::{Catalog, FLRule, Head, RuleQueryPlan};
use planning::strata::GroupStrataQueryPlan;
use planning::transformations::{Transformation, TransformationTree};
use std::sync::Arc;

fn arg(rhs_id: usize, argument_id: usize) -> AtomArgumentSignature {
    AtomArgumentSignature { is_positive: true, rhs_id, argument_id }
}

fn atom(name: &str) -> CollectionSignature {
    CollectionSignature::new_atom(name)
}

fn unary(name: &str) -> CollectionSignature {
    CollectionSignature::UnaryTransformationOutput { name: name.to_string() }
}

fn jn(name: &str) -> CollectionSignature {
    CollectionSignature::JnOutput { name: name.to_string() }
}

fn coll(
    signature: CollectionSignature,
    key: Vec<AtomArgumentSignature>,
    value: Vec<AtomArgumentSignature>,
) -> Arc<Collection> {
    Arc::new(Collection {
        signature: Arc::new(signature),
        key_argument_signatures: key,
        value_argument_signatures: value,
    })
}

fn no_constraints() -> Constraints {
    Constraints { constant_eq_constraints: vec![], variable_eq_constraints: vec![] }
}

fn kv_flow(
    key: Vec<TransformationArgument>,
    value: Vec<TransformationArgument>,
) -> Arc<TransformationFlow> {
    Arc::new(TransformationFlow::KVToKV {
        key,
        value,
        constraints: no_constraints(),
        compares: vec![],
    })
}

fn jn_flow(
    key: Vec<TransformationArgument>,
    value: Vec<TransformationArgument>,
) -> Arc<TransformationFlow> {
    Arc::new(TransformationFlow::JnToKV {
        key,
        value,
        constraints: no_constraints(),
        compares: vec![],
    })
}

/// Reads the relation `input` and makes `output`.
fn read(input: &str, output: &str) -> Transformation {
    Transformation::RowToKv {
        input: coll(atom(input), vec![], vec![arg(0, 0), arg(0, 1)]),
        output: coll(unary(output), vec![arg(0, 0)], vec![arg(0, 1)]),
        flow: kv_flow(
            vec![TransformationArgument::KV((true, 0))],
            vec![TransformationArgument::KV((true, 1))],
        ),
    }
}

/// Joins what `left` and `right` make.
fn joining(left: &Transformation, right: &Transformation, output: &str) -> Transformation {
    Transformation::JnKvKv {
        input: (Arc::clone(left.output()), Arc::clone(right.output())),
        output: coll(jn(output), vec![arg(0, 0)], vec![arg(0, 1), arg(1, 1)]),
        flow: jn_flow(
            vec![TransformationArgument::Jn((false, false, 0))],
            vec![
                TransformationArgument::Jn((false, true, 0)),
                TransformationArgument::Jn((true, true, 0)),
            ],
        ),
    }
}

fn rule(name: &str, arity: usize) -> FLRule {
    let mut names: KeyedMap<AtomArgumentSignature, String> = KeyedMap::new();
    names.insert(arg(0, 0), "x".to_string());
    names.insert(arg(0, 1), "y".to_string());
    names.insert(arg(1, 1), "z".to_string());
    FLRule {
        head: Head { name: name.to_string(), arity },
        catalog: Arc::new(Catalog { signature_to_argument_str_map: names }),
    }
}

/// A rule that joins `e` with `f`.
fn join_plan(head: &str) -> RuleQueryPlan {
    let left = read("e", "KvE");
    let right = read("f", "KvF");
    let root = joining(&left, &right, "J");
    let mut tree: TransformationTree = KeyedMap::new();
    tree.insert(root.clone(), (left, right));
    RuleQueryPlan { rule: rule(head, 3), root, tree }
}

/// A rule that copies `e`.
fn copy_plan(head: &str) -> RuleQueryPlan {
    RuleQueryPlan { rule: rule(head, 2), root: read("e", "KvE"), tree: KeyedMap::new() }
}

fn made(group: &GroupStrataQueryPlan) -> Vec<String> {
    group.strata_plan().iter().map(|t| t.output().signature.name().to_string()).collect()
}

fn members(set: &SignatureSet) -> Vec<String> {
    let mut names: Vec<String> = set.members().iter().map(|s| s.name().to_string()).collect();
    names.sort();
    names
}

fn listed(
    map: &SignatureMap<Vec<Arc<CollectionSignature>>>,
    key: CollectionSignature,
) -> Option<Vec<String>> {
    map.get(&Arc::new(key)).map(|list| list.iter().map(|s| s.name().to_string()).collect())
}

#[test]
fn inputs_come_first_and_the_root_last() {
    let mut seen = SignatureSet::new();
    let group = GroupStrataQueryPlan::new(false, vec![join_plan("p")], &mut seen, false);
    assert_eq!(made(&group), vec!["KvE", "KvF", "J"]);
    assert_eq!(members(&seen), vec!["J", "KvE", "KvF"]);
    assert!(!group.is_recursive());
    assert_eq!(members(group.enter_scope_set()), Vec::<String>::new());
    assert_eq!(group.rules().len(), 1);
    assert_eq!(group.rules()[0].head.name, "p");
}

#[test]
fn shared_collections_are_made_once() {
    let mut seen = SignatureSet::new();
    let plans = vec![copy_plan("c"), join_plan("p"), join_plan("q")];
    let group = GroupStrataQueryPlan::new(false, plans, &mut seen, false);
    assert_eq!(made(&group), vec!["KvE", "KvF", "J"]);
    let again = GroupStrataQueryPlan::new(false, vec![join_plan("r")], &mut seen, false);
    assert_eq!(made(&again), Vec::<String>::new());
}

#[test]
fn without_sharing_each_rule_is_complete() {
    let mut seen = SignatureSet::new();
    seen.insert(Arc::new(unary("KvE")));
    let plans = vec![copy_plan("c"), join_plan("p")];
    let group = GroupStrataQueryPlan::new(false, plans, &mut seen, true);
    assert_eq!(made(&group), vec!["KvE", "KvE", "KvF", "J"]);
    assert_eq!(members(&seen), vec!["KvE"]);
}

#[test]
fn recursion_borrows_what_was_seen_outside() {
    let mut seen = SignatureSet::new();
    seen.insert(Arc::new(unary("KvE")));
    let group =
        GroupStrataQueryPlan::new(true, vec![join_plan("p"), join_plan("q")], &mut seen, false);
    assert!(group.is_recursive());
    assert_eq!(made(&group), vec!["KvF", "J"]);
    assert_eq!(members(group.enter_scope_set()), vec!["KvE", "f"]);
    assert_eq!(members(&seen), vec!["KvE"]);
}

#[test]
fn recursion_with_a_borrowed_root_makes_nothing() {
    let mut seen = SignatureSet::new();
    seen.insert(Arc::new(jn("J")));
    let group = GroupStrataQueryPlan::new(true, vec![join_plan("p")], &mut seen, false);
    assert_eq!(made(&group), Vec::<String>::new());
    assert_eq!(members(group.enter_scope_set()), vec!["J"]);
}

#[test]
fn recursion_without_sharing_enters_all_relations() {
    let mut seen = SignatureSet::new();
    seen.insert(Arc::new(unary("KvE")));
    let plans = vec![join_plan("p"), copy_plan("q")];
    let group = GroupStrataQueryPlan::new(true, plans, &mut seen, true);
    assert_eq!(made(&group), vec!["KvE", "KvF", "J", "KvE"]);
    assert_eq!(members(group.enter_scope_set()), vec!["e", "f"]);
    assert_eq!(members(&seen), vec!["KvE"]);
}

#[test]
fn recursion_makes_what_a_group_would_that_had_seen_the_same() {
    let mut seen = SignatureSet::new();
    seen.insert(Arc::new(unary("KvF")));
    let recursive = GroupStrataQueryPlan::new(true, vec![join_plan("p")], &mut seen, false);
    let plain = GroupStrataQueryPlan::new(false, vec![join_plan("p")], &mut seen, false);
    assert_eq!(made(&recursive), made(&plain));
}

#[test]
fn sharing_copes_with_a_transformation_that_feeds_itself() {
    let left = read("e", "KvE");
    let root = joining(&left, &left, "J");
    let mut tree: TransformationTree = KeyedMap::new();
    tree.insert(root.clone(), (left, root.clone()));
    let plan = RuleQueryPlan { rule: rule("p", 3), root, tree };
    let mut seen = SignatureSet::new();
    let group = GroupStrataQueryPlan::new(false, vec![plan], &mut seen, false);
    assert_eq!(made(&group), vec!["KvE", "J"]);
}

#[test]
fn trees_find_transformations_by_all_of_their_parts() {
    let left = read("e", "KvE");
    let other = read("f", "KvE");
    let mut tree: TransformationTree = KeyedMap::new();
    tree.insert(left.clone(), (other.clone(), other.clone()));
    assert!(tree.get(&read("e", "KvE")).is_some());
    assert!(tree.get(&other).is_none());
    assert!(tree.get(&joining(&left, &left, "J")).is_none());
}

#[test]
fn last_collections_by_head_and_back() {
    let mut seen = SignatureSet::new();
    let plans = vec![join_plan("p"), copy_plan("q"), join_plan("q"), join_plan("p"), copy_plan("p")];
    let group = GroupStrataQueryPlan::new(false, plans, &mut seen, false);
    let forward = group.last_signatures_map();
    assert_eq!(listed(forward, atom("p")), Some(vec!["J".into(), "J".into(), "KvE".into()]));
    assert_eq!(listed(forward, atom("q")), Some(vec!["KvE".into(), "J".into()]));
    assert_eq!(listed(forward, atom("r")), None);
    let reverse = group.reverse_last_signatures_map();
    let mut heads = listed(reverse, jn("J")).unwrap();
    assert!(heads[0] != "q" || heads[2] != "q");
    heads.sort();
    assert_eq!(heads, vec!["p", "p", "q"]);
    let mut heads = listed(reverse, unary("KvE")).unwrap();
    heads.sort();
    assert_eq!(heads, vec!["p", "q"]);
    assert_eq!(listed(reverse, unary("J")), None);
}

#[test]
fn heads_by_name() {
    let mut seen = SignatureSet::new();
    let plans = vec![join_plan("p"), copy_plan("p_sip"), copy_plan("q"), copy_plan("p")];
    let group = GroupStrataQueryPlan::new(false, plans, &mut seen, false);
    let heads = group.heads();
    assert_eq!(heads.len(), 3);
    assert_eq!(heads.get("p"), Some(&2));
    assert_eq!(heads.get("p_sip"), Some(&2));
    assert_eq!(heads.get("q"), Some(&2));
    assert_eq!(heads.get("r"), None);
    assert_eq!(members(&group.head_signatures_set()), vec!["p", "q"]);
}

#[test]
fn names_are_numbered_and_kept() {
    let mut seen = SignatureSet::new();
    let first = GroupStrataQueryPlan::new(false, vec![join_plan("p")], &mut seen, false);
    let mut names: SignatureMap<String> = KeyedMap::new();
    let mut counter = 7;
    first.populate_name_map(&mut names, &mut counter);
    assert_eq!(counter, 10);
    assert_eq!(names.get(&Arc::new(unary("KvE"))).unwrap(), "kv7");
    assert_eq!(names.get(&Arc::new(unary("KvF"))).unwrap(), "kv8");
    assert_eq!(names.get(&Arc::new(jn("J"))).unwrap(), "jn9");
    assert!(names.get(&Arc::new(atom("e"))).is_none());
    first.populate_name_map(&mut names, &mut counter);
    assert_eq!(counter, 10);
    let second = GroupStrataQueryPlan::new(false, vec![join_plan("q")], &mut seen, false);
    second.populate_name_map(&mut names, &mut counter);
    assert_eq!(counter, 10);
    assert_eq!(names.get(&Arc::new(jn("J"))).unwrap(), "jn9");
}

#[test]
fn last_collections_are_named_though_nothing_is_made() {
    let mut seen = SignatureSet::new();
    seen.insert(Arc::new(jn("J")));
    let group = GroupStrataQueryPlan::new(false, vec![join_plan("p")], &mut seen, false);
    let mut names: SignatureMap<String> = KeyedMap::new();
    let mut counter = 0;
    group.populate_name_map(&mut names, &mut counter);
    assert_eq!(counter, 1);
    assert_eq!(names.get(&Arc::new(jn("J"))).unwrap(), "jn0");
    assert_eq!(group.to_datalog_rules(&names), vec!["p(x, y, z) :- jn0(x, y, z)."]);
    assert_eq!(group.collect_declarations(&names), vec![("p".to_string(), 3)]);
}

#[test]
fn declarations_name_each_relation_once() {
    let mut seen = SignatureSet::new();
    let plans = vec![join_plan("p"), join_plan("q"), copy_plan("p")];
    let group = GroupStrataQueryPlan::new(false, plans, &mut seen, false);
    let mut names: SignatureMap<String> = KeyedMap::new();
    let mut counter = 0;
    group.populate_name_map(&mut names, &mut counter);
    let declared = group.collect_declarations(&names);
    assert_eq!(
        declared,
        vec![
            ("kv0".to_string(), 2),
            ("kv1".to_string(), 2),
            ("jn2".to_string(), 3),
            ("p".to_string(), 3),
            ("q".to_string(), 3),
        ]
    );
}

#[test]
fn relations_that_transformations_make_are_not_declared() {
    let root = Transformation::RowToRow {
        input: coll(atom("e"), vec![], vec![arg(0, 0)]),
        output: coll(atom("given"), vec![], vec![arg(0, 0)]),
        flow: kv_flow(vec![], vec![TransformationArgument::KV((true, 0))]),
    };
    let plan = RuleQueryPlan { rule: rule("p", 1), root, tree: KeyedMap::new() };
    let mut seen = SignatureSet::new();
    let group = GroupStrataQueryPlan::new(false, vec![plan], &mut seen, false);
    let mut names: SignatureMap<String> = KeyedMap::new();
    let mut counter = 0;
    group.populate_name_map(&mut names, &mut counter);
    assert_eq!(counter, 0);
    assert_eq!(group.collect_declarations(&names), vec![("p".to_string(), 1)]);
    assert_eq!(group.to_datalog_rules(&names), vec!["p(x) :- e(x)."]);
}

#[test]
fn rules_in_datalog() {
    let mut seen = SignatureSet::new();
    let plans = vec![join_plan("p"), join_plan("q")];
    let group = GroupStrataQueryPlan::new(false, plans, &mut seen, false);
    let mut names: SignatureMap<String> = KeyedMap::new();
    let mut counter = 0;
    group.populate_name_map(&mut names, &mut counter);
    let expected = vec![
        "kv0(x, y) :- e(x, y).",
        "kv1(x, y) :- f(x, y).",
        "p(x, y, z) :- kv0(x, y), kv1(x, z).",
        "q(x, y, z) :- jn2(x, y, z).",
    ];
    assert_eq!(group.to_datalog_rules(&names), expected);
    names.insert(Arc::new(unary("Other")), "rw9".to_string());
    assert_eq!(group.to_datalog_rules(&names), expected);
}

#[test]
fn layout_of_a_plan() {
    let mut seen = SignatureSet::new();
    let none = GroupStrataQueryPlan::new(false, vec![], &mut seen, false);
    assert_eq!(none.fmt(&vec![], &vec![], &vec![]), "[∅]");
    let plans = vec![join_plan("p"), copy_plan("q")];
    let group = GroupStrataQueryPlan::new(true, plans, &mut seen, false);
    let scope = members(group.enter_scope_set());
    assert_eq!(scope, vec!["e", "f"]);
    let rules: Vec<String> = group.rules().iter().map(|r| r.head.name.clone()).collect();
    let steps = made(&group);
    assert_eq!(
        group.fmt(&scope, &rules, &steps),
        "[ent] e && f\np\n  ├── KvE\n  ├── KvF\n  └── J\nq\n"
    );
}

#[test]
fn layout_without_a_scope() {
    let mut seen = SignatureSet::new();
    let group =
        GroupStrataQueryPlan::new(false, vec![copy_plan("p"), join_plan("q")], &mut seen, false);
    let rules = vec!["P".to_string(), "Q".to_string()];
    let text = group.fmt(&vec![], &rules, &made(&group));
    assert_eq!(text, "P\n  └── KvE\nQ\n  ├── KvF\n  └── J");
}

#[test]
fn copies_are_the_same() {
    let mut seen = SignatureSet::new();
    let plans = vec![join_plan("p"), copy_plan("q"), join_plan("q")];
    let group = GroupStrataQueryPlan::new(true, plans, &mut seen, false);
    let copy = group.clone();
    assert_eq!(copy.is_recursive(), group.is_recursive());
    assert_eq!(made(&copy), made(&group));
    assert_eq!(members(copy.enter_scope_set()), members(group.enter_scope_set()));
    assert_eq!(
        listed(copy.last_signatures_map(), atom("q")),
        listed(group.last_signatures_map(), atom("q"))
    );
    assert_eq!(
        listed(copy.reverse_last_signatures_map(), jn("J")),
        listed(group.reverse_last_signatures_map(), jn("J"))
    );
    assert_eq!(copy.heads().get("q"), Some(&3));
}

#[test]
fn a_later_group_reads_what_an_earlier_one_made() {
    let mut seen = SignatureSet::new();
    let mut names: SignatureMap<String> = KeyedMap::new();
    let mut counter = 0;
    let first = GroupStrataQueryPlan::new(false, vec![copy_plan("c")], &mut seen, false);
    first.populate_name_map(&mut names, &mut counter);
    assert_eq!(first.to_datalog_rules(&names), vec!["c(x, y) :- e(x, y)."]);
    let second = GroupStrataQueryPlan::new(true, vec![join_plan("p")], &mut seen, false);
    second.populate_name_map(&mut names, &mut counter);
    assert_eq!(counter, 3);
    assert_eq!(
        second.to_datalog_rules(&names),
        vec!["kv1(x, y) :- f(x, y).", "p(x, y, z) :- kv0(x, y), kv1(x, z)."]
    );
    assert_eq!(
        second.collect_declarations(&names),
        vec![("kv1".to_string(), 2), ("jn2".to_string(), 3), ("p".to_string(), 3)]
    );
}

#[test]
fn transformations_of_each_kind() {
    let left = read("e", "KvE");
    let right = read("f", "KvF");
    let join = joining(&left, &right, "J");
    assert_eq!(left.unary().signature.name(), "e");
    assert!(left.right().is_none());
    assert_eq!(join.left().signature.name(), "KvE");
    assert_eq!(join.right().unwrap().signature.name(), "KvF");
    assert_eq!(join.output().arity(), (1, 2));
    assert!(join.flow().joins());
    assert!(!left.flow().joins());
    assert_ne!(join.operator(), left.operator());
}

#[test]
fn branches_may_make_what_the_other_reads() {
    // The left branch makes A from the leaf B, the right branch makes B from the leaf A.
    let leaf_a = read("e", "A");
    let leaf_b = read("f", "B");
    let make = |from: &Transformation, to: &str| Transformation::KvToKv {
        input: Arc::clone(from.output()),
        output: coll(unary(to), vec![arg(0, 0)], vec![arg(0, 1)]),
        flow: kv_flow(
            vec![TransformationArgument::KV((false, 0))],
            vec![TransformationArgument::KV((true, 0))],
        ),
    };
    let left = make(&leaf_b, "A");
    let right = make(&leaf_a, "B");
    let root = joining(&left, &right, "J");
    let mut tree: TransformationTree = KeyedMap::new();
    tree.insert(left.clone(), (leaf_b.clone(), leaf_b));
    tree.insert(right.clone(), (leaf_a.clone(), leaf_a));
    tree.insert(root.clone(), (left, right));
    let plan = RuleQueryPlan { rule: rule("p", 3), root, tree };
    let mut seen = SignatureSet::new();
    let group = GroupStrataQueryPlan::new(false, vec![plan], &mut seen, false);
    assert_eq!(made(&group), vec!["B", "A", "J"]);
}

#[test]
fn unshared_plans_are_the_same_in_recursion() {
    let mut seen = SignatureSet::new();
    seen.insert(Arc::new(unary("KvE")));
    let recursive = GroupStrataQueryPlan::new(true, vec![join_plan("p")], &mut seen, true);
    let plain = GroupStrataQueryPlan::new(false, vec![join_plan("p")], &mut seen, true);
    assert_eq!(made(&recursive), vec!["KvE", "KvF", "J"]);
    assert_eq!(made(&plain), made(&recursive));
    assert_eq!(members(&seen), vec!["KvE"]);
}

#[test]
fn without_sharing_common_inputs_are_repeated() {
    let leaf = read("e", "KvE");
    let root = joining(&leaf, &leaf, "J");
    let mut tree: TransformationTree = KeyedMap::new();
    tree.insert(root.clone(), (leaf.clone(), leaf));
    let plan = RuleQueryPlan { rule: rule("p", 3), root, tree };
    let mut seen = SignatureSet::new();
    let group = GroupStrataQueryPlan::new(false, vec![plan], &mut seen, true);
    assert_eq!(made(&group), vec!["KvE", "KvE", "J"]);
    assert_eq!(members(&seen), Vec::<String>::new());
}

#[test]
fn parts_of_a_plan_are_not_planned_again() {
    let mut seen = SignatureSet::new();
    GroupStrataQueryPlan::new(false, vec![join_plan("p")], &mut seen, false);
    let part = GroupStrataQueryPlan::new(false, vec![copy_plan("q")], &mut seen, false);
    assert_eq!(made(&part), Vec::<String>::new());
    assert_eq!(members(&seen), vec!["J", "KvE", "KvF"]);
}

#[test]
fn given_names_are_kept_and_new_ones_differ() {
    let mut seen = SignatureSet::new();
    let group = GroupStrataQueryPlan::new(false, vec![join_plan("p")], &mut seen, false);
    let mut names: SignatureMap<String> = KeyedMap::new();
    names.insert(Arc::new(atom("e")), "jn1".to_string());
    names.insert(Arc::new(unary("KvF")), "given".to_string());
    let mut counter = 2;
    group.populate_name_map(&mut names, &mut counter);
    assert_eq!(counter, 4);
    assert_eq!(names.get(&Arc::new(unary("KvE"))).unwrap(), "kv2");
    assert_eq!(names.get(&Arc::new(unary("KvF"))).unwrap(), "given");
    assert_eq!(names.get(&Arc::new(jn("J"))).unwrap(), "jn3");
    assert_eq!(names.get(&Arc::new(atom("e"))).unwrap(), "jn1");
}

#[test]
fn heads_come_in_one_order() {
    let mut seen = SignatureSet::new();
    let plans = vec![join_plan("p"), copy_plan("q"), join_plan("q"), copy_plan("r"), copy_plan("p")];
    let group = GroupStrataQueryPlan::new(false, plans, &mut seen, false);
    let reverse = group.reverse_last_signatures_map();
    let all = listed(reverse, unary("KvE")).unwrap();
    assert_eq!(all.len(), 3);
    let of_join = listed(reverse, jn("J")).unwrap();
    let same_order: Vec<String> = all.into_iter().filter(|head| head != "r").collect();
    assert_eq!(of_join, same_order);
}
