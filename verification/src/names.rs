//! The names of collections and of their arguments in Datalog.

use crate::collections::{
    AtomArgumentSignature, Collection, CollectionSignature, SignatureMap, SignatureView,
};
use crate::model::views;
use crate::rule::Catalog;
use crate::text::starts_with;
use std::sync::Arc;
use vstd::prelude::*;

verus! {

/// How an argument is written: by the catalog, or as a wildcard where it has no entry.
pub open spec fn variable(
    catalog: Map<AtomArgumentSignature, Seq<char>>,
    signature: AtomArgumentSignature,
) -> Seq<char> {
    if catalog.contains_key(signature) {
        catalog[signature]
    } else {
        "_"@
    }
}

/// How several arguments are written.
pub open spec fn variables(
    catalog: Map<AtomArgumentSignature, Seq<char>>,
    signatures: Seq<AtomArgumentSignature>,
) -> Seq<Seq<char>> {
    Seq::new(signatures.len(), |i: int| variable(catalog, signatures[i]))
}

/// The variable that stands for an argument.
pub fn sig_to_var(sig: &AtomArgumentSignature, catalog: &Catalog) -> (var: String)
    ensures
        var@ == variable(catalog@, *sig),
{
    match catalog.signature_to_argument_str_map.get(sig) {
        Some(name) => name.clone(),
        None => "_".to_owned(),
    }
}

/// The variables that stand for several arguments.
pub(crate) fn sigs_to_vars(
    sigs: &Vec<AtomArgumentSignature>,
    catalog: &Catalog,
) -> (vars: Vec<String>)
    ensures
        views(vars@) == variables(catalog@, sigs@),
{
    let mut vars: Vec<String> = Vec::new();
    let mut i: usize = 0;
    while i < sigs.len()
        invariant
            i <= sigs@.len(),
            vars@.len() == i,
            forall|j: int| 0 <= j < i ==> #[trigger] vars@[j]@ == variable(catalog@, sigs@[j]),
        decreases sigs@.len() - i,
    {
        vars.push(sig_to_var(&sigs[i], catalog));
        i += 1;
    }
    proof {
        assert(views(vars@) =~= variables(catalog@, sigs@));
    }
    vars
}

/// What the names of the collections that a transformation of this kind makes begin with.
pub open spec fn prefix_of(signature: SignatureView) -> Seq<char> {
    match signature {
        SignatureView::UnaryTransformationOutput { name } => if "Kv"@.is_prefix_of(name) {
            "kv"@
        } else if "K"@.is_prefix_of(name) {
            "k_"@
        } else {
            "rw"@
        },
        SignatureView::JnOutput { .. } => "jn"@,
        SignatureView::NegJnOutput { .. } => "nj"@,
        SignatureView::Atom { .. } => ""@,
    }
}

/// What the Datalog name of an intermediate collection begins with.
pub fn type_prefix(sig: &CollectionSignature) -> (prefix: &'static str)
    requires
        !(sig@ is Atom),
    ensures
        prefix@ == prefix_of(sig@),
{
    match sig {
        CollectionSignature::UnaryTransformationOutput { name } => {
            if starts_with(name.as_str(), "Kv") {
                "kv"
            } else if starts_with(name.as_str(), "K") {
                "k_"
            } else {
                "rw"
            }
        },
        CollectionSignature::JnOutput { .. } => "jn",
        CollectionSignature::NegJnOutput { .. } => "nj",
        CollectionSignature::Atom { .. } => "",
    }
}

/// Whether a collection has a Datalog name: relations have their own, others need an entry.
pub open spec fn has_name(
    signature: SignatureView,
    names: Map<SignatureView, Seq<char>>,
) -> bool {
    signature is Atom || names.contains_key(signature)
}

/// The Datalog name of a collection.
pub open spec fn dl_name(
    signature: SignatureView,
    names: Map<SignatureView, Seq<char>>,
) -> Seq<char> {
    if signature is Atom {
        signature.name()
    } else {
        names[signature]
    }
}

/// Looks up the Datalog name of a collection.
pub fn lookup_dl_name(
    sig: &Arc<CollectionSignature>,
    name_map: &SignatureMap<String>,
) -> (name: String)
    requires
        has_name(sig@, name_map@),
    ensures
        name@ == dl_name(sig@, name_map@),
{
    if sig.is_atom() {
        sig.name().to_owned()
    } else {
        match name_map.get(sig) {
            Some(name) => name.clone(),
            None => String::new(),
        }
    }
}

/// The variables for all arguments of a collection: those of the key, then those of the value.
pub fn collection_dl_args(coll: &Collection, catalog: &Catalog) -> (args: Vec<String>)
    ensures
        views(args@) == variables(catalog@, coll@.key + coll@.value),
{
    let mut args = sigs_to_vars(&coll.key_argument_signatures, catalog);
    let mut more = sigs_to_vars(&coll.value_argument_signatures, catalog);
    let ghost first = args@;
    let ghost second = more@;
    args.append(&mut more);
    proof {
        assert(views(first).len() == coll@.key.len());
        assert(views(second).len() == coll@.value.len());
        assert forall|i: int| 0 <= i < args@.len() implies #[trigger] args@[i]@ == variable(
            catalog@,
            (coll@.key + coll@.value)[i],
        ) by {
            if i < first.len() {
                assert(views(first)[i] == variables(catalog@, coll@.key)[i]);
            } else {
                let j = i - first.len();
                assert(views(second)[j] == variables(catalog@, coll@.value)[j]);
            }
        }
        assert(views(args@) =~= variables(catalog@, coll@.key + coll@.value));
    }
    args
}

/// An argument that the catalog knows is written as the catalog says, and any other as a wildcard.
pub proof fn law_arguments_are_written_by_the_catalog(
    catalog: Map<AtomArgumentSignature, Seq<char>>,
    signature: AtomArgumentSignature,
    name: Seq<char>,
)
    ensures
        variable(catalog.insert(signature, name), signature) == name,
        variable(catalog.remove(signature), signature) == "_"@,
{
}

/// What the catalog says of one argument does not change how another is written.
pub proof fn law_arguments_are_written_apart(
    catalog: Map<AtomArgumentSignature, Seq<char>>,
    signature: AtomArgumentSignature,
    name: Seq<char>,
    other: AtomArgumentSignature,
)
    requires
        other != signature,
    ensures
        variable(catalog.insert(signature, name), other) == variable(catalog, other),
{
}

/// Several arguments are written one by one.
pub proof fn law_arguments_are_written_in_turn(
    catalog: Map<AtomArgumentSignature, Seq<char>>,
    signatures: Seq<AtomArgumentSignature>,
    i: int,
)
    requires
        0 <= i < signatures.len(),
    ensures
        variables(catalog, signatures).len() == signatures.len(),
        variables(catalog, signatures)[i] == variable(catalog, signatures[i]),
{
}

/// The names of what unary transformations make tell keys with values, keys alone and rows apart by
/// how the collection is called; those of joins and antijoins do not look at that.
pub proof fn law_prefixes_tell_kinds_apart(name: Seq<char>, rest: Seq<char>)
    ensures
        prefix_of(SignatureView::UnaryTransformationOutput { name: seq!['K', 'v'] + rest })
            == "kv"@,
        rest.len() == 0 || rest[0] != 'v' ==> prefix_of(
            SignatureView::UnaryTransformationOutput { name: seq!['K'] + rest },
        ) == "k_"@,
        name.len() == 0 || name[0] != 'K' ==> prefix_of(
            SignatureView::UnaryTransformationOutput { name },
        ) == "rw"@,
        prefix_of(SignatureView::JnOutput { name }) == "jn"@,
        prefix_of(SignatureView::NegJnOutput { name }) == "nj"@,
{
    reveal_strlit("Kv");
    reveal_strlit("K");
    let kv = seq!['K', 'v'] + rest;
    let k = seq!['K'] + rest;
    assert("Kv"@ =~= kv.take(2));
    assert("Kv"@.is_prefix_of(kv)) by {
        assert(kv.subrange(0, 2) =~= "Kv"@);
    }
    assert("K"@.is_prefix_of(k)) by {
        assert(k.subrange(0, 1) =~= "K"@);
    }
    if rest.len() == 0 || rest[0] != 'v' {
        if "Kv"@.is_prefix_of(k) {
            assert(k.subrange(0, 2)[1] == "Kv"@[1]);
            assert(k[1] == rest[0]);
        }
    }
    if name.len() == 0 || name[0] != 'K' {
        if "K"@.is_prefix_of(name) {
            assert(name.subrange(0, 1)[0] == "K"@[0]);
        }
        if "Kv"@.is_prefix_of(name) {
            assert(name.subrange(0, 2)[0] == "Kv"@[0]);
        }
    }
}

/// A relation keeps its own name whatever names are given, and any other collection has the name
/// that it was given.
pub proof fn law_relations_keep_their_names(
    names: Map<SignatureView, Seq<char>>,
    signature: SignatureView,
    own: Seq<char>,
    given: Seq<char>,
)
    ensures
        dl_name(SignatureView::Atom { name: own }, names) == own,
        !(signature is Atom) ==> dl_name(signature, names.insert(signature, given)) == given,
        forall|other: SignatureView|
            other != signature ==> #[trigger] dl_name(other, names.insert(signature, given))
                == dl_name(other, names),
{
}

} // verus!
