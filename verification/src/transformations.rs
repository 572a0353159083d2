//! Transformations of collections, and the trees in which they feed each other.

use crate::arguments::{FlowView, TransformationFlow};
use crate::collections::{Collection, CollectionView, SignatureView};
use crate::keyed::KeyedMap;
use crate::model::{share, Same};
use std::sync::Arc;
use vstd::prelude::*;

verus! {

/// A transformation: the collections that go in, the collection that comes out, and how the tuples
/// of one are made from those of the others.
#[allow(inconsistent_fields)]
#[derive(Debug)]
pub enum Transformation {
    RowToRow { input: Arc<Collection>, output: Arc<Collection>, flow: Arc<TransformationFlow> },
    RowToK { input: Arc<Collection>, output: Arc<Collection>, flow: Arc<TransformationFlow> },
    RowToKv { input: Arc<Collection>, output: Arc<Collection>, flow: Arc<TransformationFlow> },
    KvToKv { input: Arc<Collection>, output: Arc<Collection>, flow: Arc<TransformationFlow> },
    KvToK { input: Arc<Collection>, output: Arc<Collection>, flow: Arc<TransformationFlow> },
    JnKK {
        input: (Arc<Collection>, Arc<Collection>),
        output: Arc<Collection>,
        flow: Arc<TransformationFlow>,
    },
    JnKKv {
        input: (Arc<Collection>, Arc<Collection>),
        output: Arc<Collection>,
        flow: Arc<TransformationFlow>,
    },
    JnKvK {
        input: (Arc<Collection>, Arc<Collection>),
        output: Arc<Collection>,
        flow: Arc<TransformationFlow>,
    },
    JnKvKv {
        input: (Arc<Collection>, Arc<Collection>),
        output: Arc<Collection>,
        flow: Arc<TransformationFlow>,
    },
    Cartesian {
        input: (Arc<Collection>, Arc<Collection>),
        output: Arc<Collection>,
        flow: Arc<TransformationFlow>,
    },
    NjKvK {
        input: (Arc<Collection>, Arc<Collection>),
        output: Arc<Collection>,
        flow: Arc<TransformationFlow>,
    },
    NjKK {
        input: (Arc<Collection>, Arc<Collection>),
        output: Arc<Collection>,
        flow: Arc<TransformationFlow>,
    },
}

/// The kinds of transformations.
#[derive(Clone, Copy, Debug, PartialEq, Eq, Hash, Structural)]
pub enum Operator {
    RowToRow,
    RowToK,
    RowToKv,
    KvToKv,
    KvToK,
    JnKK,
    JnKKv,
    JnKvK,
    JnKvKv,
    Cartesian,
    NjKvK,
    NjKK,
}

impl Operator {
    /// Whether a transformation of this kind has a single input.
    pub open spec fn is_unary(self) -> bool {
        ||| self is RowToRow
        ||| self is RowToK
        ||| self is RowToKv
        ||| self is KvToKv
        ||| self is KvToK
    }

    /// Whether a transformation of this kind is an antijoin.
    pub open spec fn is_antijoin(self) -> bool {
        self is NjKvK || self is NjKK
    }
}

/// A transformation as a mathematical value.
#[verifier::ext_equal]
pub struct TransformationView {
    pub operator: Operator,
    pub left: CollectionView,
    /// The second input, where there are two.
    pub right: Option<CollectionView>,
    pub output: CollectionView,
    pub flow: FlowView,
}

impl TransformationView {
    /// The signature of the output.
    pub open spec fn signature(self) -> SignatureView {
        self.output.signature
    }
}

impl View for Transformation {
    type V = TransformationView;

    open spec fn view(&self) -> TransformationView {
        let operator = match self {
            Transformation::RowToRow { .. } => Operator::RowToRow,
            Transformation::RowToK { .. } => Operator::RowToK,
            Transformation::RowToKv { .. } => Operator::RowToKv,
            Transformation::KvToKv { .. } => Operator::KvToKv,
            Transformation::KvToK { .. } => Operator::KvToK,
            Transformation::JnKK { .. } => Operator::JnKK,
            Transformation::JnKKv { .. } => Operator::JnKKv,
            Transformation::JnKvK { .. } => Operator::JnKvK,
            Transformation::JnKvKv { .. } => Operator::JnKvKv,
            Transformation::Cartesian { .. } => Operator::Cartesian,
            Transformation::NjKvK { .. } => Operator::NjKvK,
            Transformation::NjKK { .. } => Operator::NjKK,
        };
        match self {
            Transformation::RowToRow { input, output, flow }
            | Transformation::RowToK { input, output, flow }
            | Transformation::RowToKv { input, output, flow }
            | Transformation::KvToKv { input, output, flow }
            | Transformation::KvToK { input, output, flow } => TransformationView {
                operator,
                left: input@,
                right: None,
                output: output@,
                flow: flow@,
            },
            Transformation::JnKK { input, output, flow }
            | Transformation::JnKKv { input, output, flow }
            | Transformation::JnKvK { input, output, flow }
            | Transformation::JnKvKv { input, output, flow }
            | Transformation::Cartesian { input, output, flow }
            | Transformation::NjKvK { input, output, flow }
            | Transformation::NjKK { input, output, flow } => TransformationView {
                operator,
                left: input.0@,
                right: Some(input.1@),
                output: output@,
                flow: flow@,
            },
        }
    }
}

impl Transformation {
    /// The kind of the transformation.
    pub fn operator(&self) -> (operator: Operator)
        ensures
            operator == self@.operator,
    {
        match self {
            Transformation::RowToRow { .. } => Operator::RowToRow,
            Transformation::RowToK { .. } => Operator::RowToK,
            Transformation::RowToKv { .. } => Operator::RowToKv,
            Transformation::KvToKv { .. } => Operator::KvToKv,
            Transformation::KvToK { .. } => Operator::KvToK,
            Transformation::JnKK { .. } => Operator::JnKK,
            Transformation::JnKKv { .. } => Operator::JnKKv,
            Transformation::JnKvK { .. } => Operator::JnKvK,
            Transformation::JnKvKv { .. } => Operator::JnKvKv,
            Transformation::Cartesian { .. } => Operator::Cartesian,
            Transformation::NjKvK { .. } => Operator::NjKvK,
            Transformation::NjKK { .. } => Operator::NjKK,
        }
    }

    /// The first input.
    pub fn left(&self) -> (left: &Arc<Collection>)
        ensures
            left@ == self@.left,
    {
        match self {
            Transformation::RowToRow { input, .. }
            | Transformation::RowToK { input, .. }
            | Transformation::RowToKv { input, .. }
            | Transformation::KvToKv { input, .. }
            | Transformation::KvToK { input, .. } => input,
            Transformation::JnKK { input, .. }
            | Transformation::JnKKv { input, .. }
            | Transformation::JnKvK { input, .. }
            | Transformation::JnKvKv { input, .. }
            | Transformation::Cartesian { input, .. }
            | Transformation::NjKvK { input, .. }
            | Transformation::NjKK { input, .. } => &input.0,
        }
    }

    /// The second input, where there are two.
    pub fn right(&self) -> (right: Option<&Arc<Collection>>)
        ensures
            match right {
                Some(right) => self@.right == Some(right@),
                None => self@.right is None,
            },
    {
        match self {
            Transformation::RowToRow { .. }
            | Transformation::RowToK { .. }
            | Transformation::RowToKv { .. }
            | Transformation::KvToKv { .. }
            | Transformation::KvToK { .. } => None,
            Transformation::JnKK { input, .. }
            | Transformation::JnKKv { input, .. }
            | Transformation::JnKvK { input, .. }
            | Transformation::JnKvKv { input, .. }
            | Transformation::Cartesian { input, .. }
            | Transformation::NjKvK { input, .. }
            | Transformation::NjKK { input, .. } => Some(&input.1),
        }
    }

    pub fn output(&self) -> (output: &Arc<Collection>)
        ensures
            output@ == self@.output,
    {
        match self {
            Transformation::RowToRow { output, .. }
            | Transformation::RowToK { output, .. }
            | Transformation::RowToKv { output, .. }
            | Transformation::KvToKv { output, .. }
            | Transformation::KvToK { output, .. }
            | Transformation::JnKK { output, .. }
            | Transformation::JnKKv { output, .. }
            | Transformation::JnKvK { output, .. }
            | Transformation::JnKvKv { output, .. }
            | Transformation::Cartesian { output, .. }
            | Transformation::NjKvK { output, .. }
            | Transformation::NjKK { output, .. } => output,
        }
    }

    pub fn flow(&self) -> (flow: &Arc<TransformationFlow>)
        ensures
            flow@ == self@.flow,
    {
        match self {
            Transformation::RowToRow { flow, .. }
            | Transformation::RowToK { flow, .. }
            | Transformation::RowToKv { flow, .. }
            | Transformation::KvToKv { flow, .. }
            | Transformation::KvToK { flow, .. }
            | Transformation::JnKK { flow, .. }
            | Transformation::JnKKv { flow, .. }
            | Transformation::JnKvK { flow, .. }
            | Transformation::JnKvKv { flow, .. }
            | Transformation::Cartesian { flow, .. }
            | Transformation::NjKvK { flow, .. }
            | Transformation::NjKK { flow, .. } => flow,
        }
    }

    /// The input of a transformation that has a single one.
    pub fn unary(&self) -> (input: &Arc<Collection>)
        requires
            self@.operator.is_unary(),
        ensures
            input@ == self@.left,
    {
        self.left()
    }
}

impl Same for Transformation {
    fn same(&self, other: &Self) -> (result: bool) {
        let same_right = match (self.right(), other.right()) {
            (Some(a), Some(b)) => a.same(b),
            (None, None) => true,
            _ => false,
        };
        self.operator() == other.operator() && self.left().same(other.left()) && same_right
            && self.output().same(other.output()) && self.flow().same(other.flow())
    }
}

impl Clone for Transformation {
    fn clone(&self) -> (copy: Transformation)
        ensures
            copy == *self,
    {
        match self {
            Transformation::RowToRow { input, output, flow } => Transformation::RowToRow {
                input: share(input),
                output: share(output),
                flow: share(flow),
            },
            Transformation::RowToK { input, output, flow } => Transformation::RowToK {
                input: share(input),
                output: share(output),
                flow: share(flow),
            },
            Transformation::RowToKv { input, output, flow } => Transformation::RowToKv {
                input: share(input),
                output: share(output),
                flow: share(flow),
            },
            Transformation::KvToKv { input, output, flow } => Transformation::KvToKv {
                input: share(input),
                output: share(output),
                flow: share(flow),
            },
            Transformation::KvToK { input, output, flow } => Transformation::KvToK {
                input: share(input),
                output: share(output),
                flow: share(flow),
            },
            Transformation::JnKK { input, output, flow } => Transformation::JnKK {
                input: (share(&input.0), share(&input.1)),
                output: share(output),
                flow: share(flow),
            },
            Transformation::JnKKv { input, output, flow } => Transformation::JnKKv {
                input: (share(&input.0), share(&input.1)),
                output: share(output),
                flow: share(flow),
            },
            Transformation::JnKvK { input, output, flow } => Transformation::JnKvK {
                input: (share(&input.0), share(&input.1)),
                output: share(output),
                flow: share(flow),
            },
            Transformation::JnKvKv { input, output, flow } => Transformation::JnKvKv {
                input: (share(&input.0), share(&input.1)),
                output: share(output),
                flow: share(flow),
            },
            Transformation::Cartesian { input, output, flow } => Transformation::Cartesian {
                input: (share(&input.0), share(&input.1)),
                output: share(output),
                flow: share(flow),
            },
            Transformation::NjKvK { input, output, flow } => Transformation::NjKvK {
                input: (share(&input.0), share(&input.1)),
                output: share(output),
                flow: share(flow),
            },
            Transformation::NjKK { input, output, flow } => Transformation::NjKK {
                input: (share(&input.0), share(&input.1)),
                output: share(output),
                flow: share(flow),
            },
        }
    }
}

impl DeepView for Transformation {
    type V = TransformationView;

    open spec fn deep_view(&self) -> TransformationView {
        self@
    }
}

/// Which two transformations make the inputs of a transformation. One that is not a key reads its
/// input from a relation.
pub type TransformationTree = KeyedMap<Transformation, (Transformation, Transformation)>;

/// A transformation tree as a mathematical value.
pub type TreeView = Map<TransformationView, (TransformationView, TransformationView)>;

/// A transformation is told by its kind and has its own parts: a unary one its single input, any other
/// its two inputs, the first on the left; each its own output and flow.
pub proof fn law_transformations_have_their_parts(t: Transformation)
    ensures
        match t {
            Transformation::RowToRow { input, output, flow }
            | Transformation::RowToK { input, output, flow }
            | Transformation::RowToKv { input, output, flow }
            | Transformation::KvToKv { input, output, flow }
            | Transformation::KvToK { input, output, flow } => t@.left == input@ && t@.right is None
                && t@.output == output@ && t@.flow == flow@ && t@.operator.is_unary(),
            Transformation::JnKK { input, output, flow }
            | Transformation::JnKKv { input, output, flow }
            | Transformation::JnKvK { input, output, flow }
            | Transformation::JnKvKv { input, output, flow }
            | Transformation::Cartesian { input, output, flow }
            | Transformation::NjKvK { input, output, flow }
            | Transformation::NjKK { input, output, flow } => t@.left == input.0@ && t@.right
                == Some(input.1@) && t@.output == output@ && t@.flow == flow@
                && !t@.operator.is_unary(),
        },
        t is RowToRow <==> t@.operator == Operator::RowToRow,
        t is RowToK <==> t@.operator == Operator::RowToK,
        t is RowToKv <==> t@.operator == Operator::RowToKv,
        t is KvToKv <==> t@.operator == Operator::KvToKv,
        t is KvToK <==> t@.operator == Operator::KvToK,
        t is JnKK <==> t@.operator == Operator::JnKK,
        t is JnKKv <==> t@.operator == Operator::JnKKv,
        t is JnKvK <==> t@.operator == Operator::JnKvK,
        t is JnKvKv <==> t@.operator == Operator::JnKvKv,
        t is Cartesian <==> t@.operator == Operator::Cartesian,
        t is NjKvK <==> t@.operator == Operator::NjKvK,
        t is NjKK <==> t@.operator == Operator::NjKK,
        t@.operator.is_antijoin() <==> t is NjKvK || t is NjKK,
        t@.signature() == t@.output.signature,
{
}

} // verus!
