//! Collections: the relations that flow between transformations.

use crate::keyed::KeyedMap;
use crate::model::{same_items, share, share_all, views, Same};
use std::sync::Arc;
use vstd::prelude::*;

verus! {

/// One argument position of one atom in a rule's body.
#[derive(Clone, Copy, Debug, PartialEq, Eq, Hash, Structural)]
pub struct AtomArgumentSignature {
    /// Whether the atom occurs positively or under a negation.
    pub is_positive: bool,
    /// Which of the body's positive, or negated, atoms it is.
    pub rhs_id: usize,
    /// Which of the atom's arguments it is.
    pub argument_id: usize,
}

impl View for AtomArgumentSignature {
    type V = AtomArgumentSignature;

    open spec fn view(&self) -> AtomArgumentSignature {
        *self
    }
}

impl Same for AtomArgumentSignature {
    fn same(&self, other: &Self) -> (result: bool) {
        *self == *other
    }
}

/// What identifies a collection: how it comes about, and its name.
#[derive(Debug, PartialEq, Eq, Hash)]
pub enum CollectionSignature {
    /// A relation of the program, given or defined by its rules.
    Atom { name: String },
    /// What a transformation of a single collection puts out.
    UnaryTransformationOutput { name: String },
    /// What a join puts out.
    JnOutput { name: String },
    /// What an antijoin puts out.
    NegJnOutput { name: String },
}

/// A collection signature as a mathematical value.
pub enum SignatureView {
    Atom { name: Seq<char> },
    UnaryTransformationOutput { name: Seq<char> },
    JnOutput { name: Seq<char> },
    NegJnOutput { name: Seq<char> },
}

impl SignatureView {
    pub open spec fn name(self) -> Seq<char> {
        match self {
            SignatureView::Atom { name } => name,
            SignatureView::UnaryTransformationOutput { name } => name,
            SignatureView::JnOutput { name } => name,
            SignatureView::NegJnOutput { name } => name,
        }
    }
}

impl View for CollectionSignature {
    type V = SignatureView;

    open spec fn view(&self) -> SignatureView {
        match self {
            CollectionSignature::Atom { name } => SignatureView::Atom { name: name@ },
            CollectionSignature::UnaryTransformationOutput { name } =>
                SignatureView::UnaryTransformationOutput { name: name@ },
            CollectionSignature::JnOutput { name } => SignatureView::JnOutput { name: name@ },
            CollectionSignature::NegJnOutput { name } => SignatureView::NegJnOutput { name: name@ },
        }
    }
}

impl DeepView for CollectionSignature {
    type V = SignatureView;

    open spec fn deep_view(&self) -> SignatureView {
        self@
    }
}

impl Clone for CollectionSignature {
    fn clone(&self) -> (copy: CollectionSignature)
        ensures
            copy == *self,
    {
        match self {
            CollectionSignature::Atom { name } => CollectionSignature::Atom { name: name.clone() },
            CollectionSignature::UnaryTransformationOutput { name } =>
                CollectionSignature::UnaryTransformationOutput { name: name.clone() },
            CollectionSignature::JnOutput { name } => CollectionSignature::JnOutput {
                name: name.clone(),
            },
            CollectionSignature::NegJnOutput { name } => CollectionSignature::NegJnOutput {
                name: name.clone(),
            },
        }
    }
}

impl Same for CollectionSignature {
    fn same(&self, other: &Self) -> (result: bool) {
        match (self, other) {
            (CollectionSignature::Atom { name: a }, CollectionSignature::Atom { name: b }) =>
                *a == *b,
            (
                CollectionSignature::UnaryTransformationOutput { name: a },
                CollectionSignature::UnaryTransformationOutput { name: b },
            ) => *a == *b,
            (CollectionSignature::JnOutput { name: a }, CollectionSignature::JnOutput { name: b }) =>
                *a == *b,
            (
                CollectionSignature::NegJnOutput { name: a },
                CollectionSignature::NegJnOutput { name: b },
            ) => *a == *b,
            _ => false,
        }
    }
}

impl CollectionSignature {
    /// The signature of the relation called `name`.
    pub fn new_atom(name: &str) -> (signature: CollectionSignature)
        ensures
            signature@ == (SignatureView::Atom { name: name@ }),
    {
        CollectionSignature::Atom { name: name.to_owned() }
    }

    pub fn name(&self) -> (name: &str)
        ensures
            name@ == self@.name(),
    {
        match self {
            CollectionSignature::Atom { name } => name.as_str(),
            CollectionSignature::UnaryTransformationOutput { name } => name.as_str(),
            CollectionSignature::JnOutput { name } => name.as_str(),
            CollectionSignature::NegJnOutput { name } => name.as_str(),
        }
    }

    pub fn is_atom(&self) -> (result: bool)
        ensures
            result == (self@ is Atom),
    {
        match self {
            CollectionSignature::Atom { .. } => true,
            _ => false,
        }
    }
}

/// A collection of tuples, each a key and a value, either of which may be empty.
#[derive(Debug)]
pub struct Collection {
    pub signature: Arc<CollectionSignature>,
    pub key_argument_signatures: Vec<AtomArgumentSignature>,
    pub value_argument_signatures: Vec<AtomArgumentSignature>,
}

/// A collection as a mathematical value.
#[verifier::ext_equal]
pub struct CollectionView {
    pub signature: SignatureView,
    pub key: Seq<AtomArgumentSignature>,
    pub value: Seq<AtomArgumentSignature>,
}

impl CollectionView {
    /// How many arguments a tuple of the collection has in all.
    pub open spec fn total_arity(self) -> nat {
        self.key.len() + self.value.len()
    }
}

impl View for Collection {
    type V = CollectionView;

    open spec fn view(&self) -> CollectionView {
        CollectionView {
            signature: self.signature@,
            key: self.key_argument_signatures@,
            value: self.value_argument_signatures@,
        }
    }
}

impl Same for Collection {
    fn same(&self, other: &Self) -> (result: bool) {
        proof {
            assert(views(self.key_argument_signatures@) == self@.key);
            assert(views(other.key_argument_signatures@) == other@.key);
            assert(views(self.value_argument_signatures@) == self@.value);
            assert(views(other.value_argument_signatures@) == other@.value);
        }
        self.signature.same(&other.signature) && same_items(
            &self.key_argument_signatures,
            &other.key_argument_signatures,
        ) && same_items(&self.value_argument_signatures, &other.value_argument_signatures)
    }
}

impl Collection {
    /// How many arguments the key and the value have.
    pub fn arity(&self) -> (arity: (usize, usize))
        ensures
            arity.0 == self@.key.len(),
            arity.1 == self@.value.len(),
    {
        (self.key_argument_signatures.len(), self.value_argument_signatures.len())
    }
}

/// A set of collection signatures.
#[derive(Debug)]
pub struct SignatureSet {
    members: Vec<Arc<CollectionSignature>>,
}

impl View for SignatureSet {
    type V = Set<SignatureView>;

    closed spec fn view(&self) -> Set<SignatureView> {
        views(self.members@).to_set()
    }
}

impl SignatureSet {
    /// No signature is stored twice.
    #[verifier::type_invariant]
    spec fn distinct(&self) -> bool {
        views(self.members@).no_duplicates()
    }

    /// The empty set.
    pub fn new() -> (set: SignatureSet)
        ensures
            set@ == Set::<SignatureView>::empty(),
    {
        let set = SignatureSet { members: Vec::new() };
        proof {
            assert(set@ =~= Set::<SignatureView>::empty());
        }
        set
    }

    pub fn contains(&self, signature: &Arc<CollectionSignature>) -> (result: bool)
        ensures
            result == self@.contains(signature@),
    {
        let mut i: usize = 0;
        while i < self.members.len()
            invariant
                i <= self.members@.len(),
                forall|j: int| 0 <= j < i ==> #[trigger] self.members@[j]@ != signature@,
            decreases self.members@.len() - i,
        {
            if self.members[i].same(signature) {
                proof {
                    assert(views(self.members@)[i as int] == signature@);
                }
                return true;
            }
            i += 1;
        }
        false
    }

    /// Adds `signature` unless it is there; says whether it was added.
    pub fn insert(&mut self, signature: Arc<CollectionSignature>) -> (added: bool)
        ensures
            added == !old(self)@.contains(signature@),
            final(self)@ == old(self)@.insert(signature@),
    {
        if self.contains(&signature) {
            proof {
                assert(self@ =~= old(self)@.insert(signature@));
            }
            return false;
        }
        proof {
            use_type_invariant(&*self);
        }
        let mut members: Vec<Arc<CollectionSignature>> = Vec::new();
        std::mem::swap(&mut members, &mut self.members);
        let ghost before = views(members@);
        members.push(signature);
        proof {
            assert(views(members@) == before.push(signature@));
            before.lemma_push_to_set_commute(signature@);
        }
        self.members = members;
        true
    }

    /// Adds the members of `other`.
    pub fn extend(&mut self, other: &SignatureSet)
        ensures
            final(self)@ == old(self)@.union(other@),
    {
        let mut i: usize = 0;
        while i < other.members.len()
            invariant
                i <= other.members@.len(),
                self@ == old(self)@.union(views(other.members@).take(i as int).to_set()),
            decreases other.members@.len() - i,
        {
            self.insert(share(&other.members[i]));
            proof {
                let all = views(other.members@);
                assert(all.take(i + 1) == all.take(i as int).push(all[i as int]));
                all.take(i as int).lemma_push_to_set_commute(all[i as int]);
                assert(self@ =~= old(self)@.union(all.take(i + 1).to_set()));
            }
            i += 1;
        }
        proof {
            assert(views(other.members@).take(i as int) == views(other.members@));
        }
    }

    /// The members, each once.
    pub fn members(&self) -> (members: &Vec<Arc<CollectionSignature>>)
        ensures
            views(members@).no_duplicates(),
            views(members@).to_set() == self@,
    {
        proof {
            use_type_invariant(self);
        }
        &self.members
    }
}

impl Clone for SignatureSet {
    fn clone(&self) -> (copy: SignatureSet)
        ensures
            copy@ == self@,
    {
        let mut copy = SignatureSet::new();
        copy.extend(self);
        proof {
            assert(Set::<SignatureView>::empty().union(self@) =~= self@);
        }
        copy
    }
}

/// A map whose keys are collection signatures.
pub type SignatureMap<V> = KeyedMap<Arc<CollectionSignature>, V>;

impl Clone for KeyedMap<Arc<CollectionSignature>, Vec<Arc<CollectionSignature>>> {
    fn clone(&self) -> (copy: Self)
        ensures
            copy@ == self@,
    {
        let mut copy: SignatureMap<Vec<Arc<CollectionSignature>>> = SignatureMap::new();
        let keys = self.keys();
        let ghost all = views(keys@);
        let mut i: usize = 0;
        proof {
            assert(copy@ =~= self@.restrict(all.take(0).to_set()));
        }
        while i < keys.len()
            invariant
                i <= keys@.len(),
                all == views(keys@),
                all.to_set() == self@.dom(),
                copy@ == self@.restrict(all.take(i as int).to_set()),
            decreases keys@.len() - i,
        {
            let key = keys[i];
            proof {
                assert(all[i as int] == key@);
                assert(all.to_set().contains(key@));
                assert(all.take(i + 1) =~= all.take(i as int).push(key@));
                all.take(i as int).lemma_push_to_set_commute(key@);
            }
            if let Some(list) = self.get(key) {
                let items = share_all(list);
                proof {
                    assert(items.deep_view() =~= list.deep_view());
                }
                copy.insert(share(key), items);
                proof {
                    assert(copy@ =~= self@.restrict(all.take(i + 1).to_set()));
                }
            }
            i += 1;
        }
        proof {
            assert(all.take(i as int) =~= all);
            assert(copy@ =~= self@);
        }
        copy
    }
}

/// Signatures are told apart by how their collections come about and by their names.
pub proof fn law_signatures_have_kind_and_name(signature: CollectionSignature)
    ensures
        match signature {
            CollectionSignature::Atom { name } => signature@ is Atom && signature@.name() == name@,
            CollectionSignature::UnaryTransformationOutput { name } =>
                signature@ is UnaryTransformationOutput && signature@.name() == name@,
            CollectionSignature::JnOutput { name } => signature@ is JnOutput && signature@.name()
                == name@,
            CollectionSignature::NegJnOutput { name } => signature@ is NegJnOutput
                && signature@.name() == name@,
        },
{
}

/// A collection has its own signature, key and value.
pub proof fn law_collections_have_their_parts(collection: Collection)
    ensures
        collection@.signature == collection.signature@,
        collection@.key == collection.key_argument_signatures@,
        collection@.value == collection.value_argument_signatures@,
        collection@.total_arity() == collection.key_argument_signatures@.len()
            + collection.value_argument_signatures@.len(),
{
}

} // verus!
