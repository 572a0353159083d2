//! Rules, their catalogs and their plans.

use crate::collections::AtomArgumentSignature;
use crate::keyed::KeyedMap;
use crate::model::share;
use crate::transformations::{
    Transformation, TransformationTree, TransformationView, TreeView,
};
use std::sync::Arc;
use vstd::prelude::*;

verus! {

/// The head of a rule.
#[derive(Debug)]
pub struct Head {
    pub name: String,
    pub arity: usize,
}

/// What is known of a rule by its text: how each argument of each atom in its body is written.
#[derive(Debug)]
pub struct Catalog {
    pub signature_to_argument_str_map: KeyedMap<AtomArgumentSignature, String>,
}

impl View for Catalog {
    type V = Map<AtomArgumentSignature, Seq<char>>;

    open spec fn view(&self) -> Map<AtomArgumentSignature, Seq<char>> {
        self.signature_to_argument_str_map@
    }
}

/// A rule: its head, and the catalog of its body.
#[derive(Debug)]
pub struct FLRule {
    pub head: Head,
    pub catalog: Arc<Catalog>,
}

/// A rule as a mathematical value.
#[verifier::ext_equal]
pub struct RuleView {
    pub name: Seq<char>,
    pub arity: usize,
    pub catalog: Map<AtomArgumentSignature, Seq<char>>,
}

impl View for FLRule {
    type V = RuleView;

    open spec fn view(&self) -> RuleView {
        RuleView { name: self.head.name@, arity: self.head.arity, catalog: self.catalog@ }
    }
}

impl Clone for FLRule {
    fn clone(&self) -> (copy: FLRule)
        ensures
            copy == *self,
    {
        FLRule {
            head: Head { name: self.head.name.clone(), arity: self.head.arity },
            catalog: share(&self.catalog),
        }
    }
}

/// The plan of one rule: the transformation that makes its head, and the tree below it.
#[derive(Debug)]
pub struct RuleQueryPlan {
    pub rule: FLRule,
    pub root: Transformation,
    pub tree: TransformationTree,
}

/// A rule's plan as a mathematical value.
#[verifier::ext_equal]
pub struct RulePlanView {
    pub rule: RuleView,
    pub root: TransformationView,
    pub tree: TreeView,
}

impl View for RuleQueryPlan {
    type V = RulePlanView;

    open spec fn view(&self) -> RulePlanView {
        RulePlanView { rule: self.rule@, root: self.root@, tree: self.tree@ }
    }
}

/// A rule has the name and the arity of its head and what its catalog says; its plan has its root and
/// its tree.
pub proof fn law_rules_have_their_parts(plan: RuleQueryPlan)
    ensures
        plan@.rule.name == plan.rule.head.name@,
        plan@.rule.arity == plan.rule.head.arity,
        plan@.rule.catalog == plan.rule.catalog.signature_to_argument_str_map@,
        plan@.root == plan.root@,
        plan@.tree == plan.tree@,
{
}

} // verus!
