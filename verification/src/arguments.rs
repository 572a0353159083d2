//! The arguments of transformations, and the expressions and flows made of them.

use crate::model::{same_items, views, Same};
use vstd::prelude::*;

verus! {

/// Where a transformation reads one of its arguments.
#[derive(Clone, Copy, Debug, PartialEq, Eq, Hash)]
pub enum TransformationArgument {
    /// In a single input: whether in its value rather than its key, and at which position.
    KV((bool, usize)),
    /// In one of two joined inputs: whether in the right one rather than the left one, whether in
    /// its value rather than its key, and at which position.
    Jn((bool, bool, usize)),
}

impl View for TransformationArgument {
    type V = TransformationArgument;

    open spec fn view(&self) -> TransformationArgument {
        *self
    }
}

impl Same for TransformationArgument {
    fn same(&self, other: &Self) -> (result: bool) {
        match (self, other) {
            (TransformationArgument::KV((v, i)), TransformationArgument::KV((w, j))) => *v == *w
                && *i == *j,
            (TransformationArgument::Jn((r, v, i)), TransformationArgument::Jn((s, w, j))) => *r
                == *s && *v == *w && *i == *j,
            _ => false,
        }
    }
}

/// A factor of an arithmetic expression.
#[derive(Debug)]
pub enum FactorArgument {
    /// The argument that is read there.
    Var(TransformationArgument),
    /// A constant, as it is written.
    Const(String),
}

/// A factor as a mathematical value.
pub enum FactorView {
    Var(TransformationArgument),
    Const(Seq<char>),
}

impl View for FactorArgument {
    type V = FactorView;

    open spec fn view(&self) -> FactorView {
        match self {
            FactorArgument::Var(argument) => FactorView::Var(*argument),
            FactorArgument::Const(constant) => FactorView::Const(constant@),
        }
    }
}

impl Same for FactorArgument {
    fn same(&self, other: &Self) -> (result: bool) {
        match (self, other) {
            (FactorArgument::Var(a), FactorArgument::Var(b)) => a.same(b),
            (FactorArgument::Const(a), FactorArgument::Const(b)) => a.same(b),
            _ => false,
        }
    }
}

/// An arithmetic expression: a factor, then operators, as they are written, each with the factor
/// behind it.
#[derive(Debug)]
pub struct ArithmeticArgument {
    pub init: FactorArgument,
    pub rest: Vec<(String, FactorArgument)>,
}

/// An arithmetic expression as a mathematical value.
#[verifier::ext_equal]
pub struct ArithmeticView {
    pub init: FactorView,
    pub rest: Seq<(Seq<char>, FactorView)>,
}

impl View for ArithmeticArgument {
    type V = ArithmeticView;

    open spec fn view(&self) -> ArithmeticView {
        ArithmeticView { init: self.init@, rest: views(self.rest@) }
    }
}

impl Same for ArithmeticArgument {
    fn same(&self, other: &Self) -> (result: bool) {
        self.init.same(&other.init) && same_items(&self.rest, &other.rest)
    }
}

/// A comparison of two arithmetic expressions, with its operator as it is written.
#[derive(Debug)]
pub struct ComparisonExprArgument {
    pub operator: String,
    pub left: ArithmeticArgument,
    pub right: ArithmeticArgument,
}

/// A comparison as a mathematical value.
#[verifier::ext_equal]
pub struct ComparisonView {
    pub operator: Seq<char>,
    pub left: ArithmeticView,
    pub right: ArithmeticView,
}

impl View for ComparisonExprArgument {
    type V = ComparisonView;

    open spec fn view(&self) -> ComparisonView {
        ComparisonView { operator: self.operator@, left: self.left@, right: self.right@ }
    }
}

impl Same for ComparisonExprArgument {
    fn same(&self, other: &Self) -> (result: bool) {
        self.operator.same(&other.operator) && self.left.same(&other.left) && self.right.same(
            &other.right,
        )
    }
}

/// Equalities that a transformation demands of its input.
#[derive(Debug)]
pub struct Constraints {
    /// Arguments that equal a constant, which is kept as it is written.
    pub constant_eq_constraints: Vec<(TransformationArgument, String)>,
    /// Arguments that equal each other.
    pub variable_eq_constraints: Vec<(TransformationArgument, TransformationArgument)>,
}

/// Constraints as a mathematical value.
#[verifier::ext_equal]
pub struct ConstraintsView {
    pub constant_eq: Seq<(TransformationArgument, Seq<char>)>,
    pub variable_eq: Seq<(TransformationArgument, TransformationArgument)>,
}

impl View for Constraints {
    type V = ConstraintsView;

    open spec fn view(&self) -> ConstraintsView {
        ConstraintsView {
            constant_eq: views(self.constant_eq_constraints@),
            variable_eq: views(self.variable_eq_constraints@),
        }
    }
}

impl Same for Constraints {
    fn same(&self, other: &Self) -> (result: bool) {
        same_items(&self.constant_eq_constraints, &other.constant_eq_constraints) && same_items(
            &self.variable_eq_constraints,
            &other.variable_eq_constraints,
        )
    }
}

/// How a transformation makes the key and the value of each output tuple, and what it demands of
/// the input.
#[derive(Debug)]
pub enum TransformationFlow {
    /// From one input.
    KVToKV {
        key: Vec<TransformationArgument>,
        value: Vec<TransformationArgument>,
        constraints: Constraints,
        compares: Vec<ComparisonExprArgument>,
    },
    /// From two joined inputs.
    JnToKV {
        key: Vec<TransformationArgument>,
        value: Vec<TransformationArgument>,
        constraints: Constraints,
        compares: Vec<ComparisonExprArgument>,
    },
}

/// A flow as a mathematical value.
#[verifier::ext_equal]
pub struct FlowView {
    /// Whether there are two joined inputs.
    pub joins: bool,
    pub key: Seq<TransformationArgument>,
    pub value: Seq<TransformationArgument>,
    pub constraints: ConstraintsView,
    pub compares: Seq<ComparisonView>,
}

impl View for TransformationFlow {
    type V = FlowView;

    open spec fn view(&self) -> FlowView {
        match self {
            TransformationFlow::KVToKV { key, value, constraints, compares } => FlowView {
                joins: false,
                key: key@,
                value: value@,
                constraints: constraints@,
                compares: views(compares@),
            },
            TransformationFlow::JnToKV { key, value, constraints, compares } => FlowView {
                joins: true,
                key: key@,
                value: value@,
                constraints: constraints@,
                compares: views(compares@),
            },
        }
    }
}

impl TransformationFlow {
    /// Whether there are two joined inputs.
    pub fn joins(&self) -> (joins: bool)
        ensures
            joins == self@.joins,
    {
        match self {
            TransformationFlow::KVToKV { .. } => false,
            TransformationFlow::JnToKV { .. } => true,
        }
    }

    /// Where the parts of an output key come from.
    pub fn key(&self) -> (key: &Vec<TransformationArgument>)
        ensures
            key@ == self@.key,
    {
        match self {
            TransformationFlow::KVToKV { key, .. } => key,
            TransformationFlow::JnToKV { key, .. } => key,
        }
    }

    /// Where the parts of an output value come from.
    pub fn value(&self) -> (value: &Vec<TransformationArgument>)
        ensures
            value@ == self@.value,
    {
        match self {
            TransformationFlow::KVToKV { value, .. } => value,
            TransformationFlow::JnToKV { value, .. } => value,
        }
    }

    pub fn constraints(&self) -> (constraints: &Constraints)
        ensures
            constraints@ == self@.constraints,
    {
        match self {
            TransformationFlow::KVToKV { constraints, .. } => constraints,
            TransformationFlow::JnToKV { constraints, .. } => constraints,
        }
    }

    pub fn compares(&self) -> (compares: &Vec<ComparisonExprArgument>)
        ensures
            views(compares@) == self@.compares,
    {
        match self {
            TransformationFlow::KVToKV { compares, .. } => compares,
            TransformationFlow::JnToKV { compares, .. } => compares,
        }
    }
}

impl Same for TransformationFlow {
    fn same(&self, other: &Self) -> (result: bool) {
        proof {
            assert(views(self@.key) == self@.key);
            assert(views(other@.key) == other@.key);
            assert(views(self@.value) == self@.value);
            assert(views(other@.value) == other@.value);
        }
        self.joins() == other.joins() && same_items(self.key(), other.key()) && same_items(
            self.value(),
            other.value(),
        ) && self.constraints().same(other.constraints()) && same_items(
            self.compares(),
            other.compares(),
        )
    }
}

/// A flow has its own key, value, constraints and comparisons, each item at its place.
pub proof fn law_flows_have_their_parts(flow: TransformationFlow, i: int)
    ensures
        match flow {
            TransformationFlow::KVToKV { key, value, constraints, compares } => !flow@.joins
                && flow@.key == key@ && flow@.value == value@ && flow@.constraints == constraints@
                && flow@.compares.len() == compares@.len() && (0 <= i < compares@.len()
                ==> flow@.compares[i] == compares@[i]@),
            TransformationFlow::JnToKV { key, value, constraints, compares } => flow@.joins
                && flow@.key == key@ && flow@.value == value@ && flow@.constraints == constraints@
                && flow@.compares.len() == compares@.len() && (0 <= i < compares@.len()
                ==> flow@.compares[i] == compares@[i]@),
        },
{
}

/// Constraints have their own arguments and constants, each at its place.
pub proof fn law_constraints_have_their_parts(constraints: Constraints, i: int)
    ensures
        ({
            let constants = constraints.constant_eq_constraints@;
            let variables = constraints.variable_eq_constraints@;
            &&& constraints@.constant_eq.len() == constants.len()
            &&& constraints@.variable_eq.len() == variables.len()
            &&& 0 <= i < constants.len() ==> constraints@.constant_eq[i] == (
                constants[i].0,
                constants[i].1@,
            )
            &&& 0 <= i < variables.len() ==> constraints@.variable_eq[i] == variables[i]
        }),
{
}

/// Expressions and comparisons have their own parts, each at its place.
pub proof fn law_expressions_have_their_parts(
    expression: ArithmeticArgument,
    comparison: ComparisonExprArgument,
    i: int,
)
    ensures
        match expression.init {
            FactorArgument::Var(argument) => expression@.init == FactorView::Var(argument),
            FactorArgument::Const(constant) => expression@.init == FactorView::Const(constant@),
        },
        expression@.rest.len() == expression.rest@.len(),
        0 <= i < expression.rest@.len() ==> expression@.rest[i] == (
            expression.rest@[i].0@,
            expression.rest@[i].1@,
        ),
        comparison@.operator == comparison.operator@,
        comparison@.left == comparison.left@,
        comparison@.right == comparison.right@,
{
}

} // verus!
