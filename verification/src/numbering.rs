//! Numbered names for the collections that transformations make.

use crate::collections::{CollectionView, SignatureView};
use crate::group::{lemma_flatten_contains, GroupView};
use crate::names::{has_name, prefix_of};
use crate::rendering::extends;
use crate::text::{decimal, lemma_decimal_injective};
use crate::transformations::TransformationView;
use vstd::prelude::*;

verus! {

/// Names and the number that the next name gets.
#[verifier::ext_equal]
pub struct Numbering {
    pub names: Map<SignatureView, Seq<char>>,
    pub counter: nat,
}

impl Numbering {
    /// Whether `signature` needs a new name: it is no relation and has none.
    pub open spec fn lacks(self, signature: SignatureView) -> bool {
        !(signature is Atom) && !self.names.contains_key(signature)
    }

    /// Names `signature` if it needs a name: by the kind of its collection, and the next number.
    pub open spec fn named(self, signature: SignatureView) -> Numbering {
        if self.lacks(signature) {
            Numbering {
                names: self.names.insert(signature, numbered(signature, self.counter)),
                counter: self.counter + 1,
            }
        } else {
            self
        }
    }

    /// Names those of the `signatures` that need a name, in turn.
    pub open spec fn all_named(self, signatures: Seq<SignatureView>) -> Numbering
        decreases signatures.len(),
    {
        if signatures.len() == 0 {
            self
        } else {
            self.all_named(signatures.drop_last()).named(signatures.last())
        }
    }

    /// Whether no two collections have the same name.
    pub open spec fn distinct(self) -> bool {
        forall|s: SignatureView, t: SignatureView|
            self.names.contains_key(s) && self.names.contains_key(t) && s != t
                ==> #[trigger] self.names[s] != #[trigger] self.names[t]
    }

    /// Whether no name is one that numbering may give from the counter on.
    pub open spec fn unclaimed(self) -> bool {
        forall|s: SignatureView, prefix: Seq<char>, n: nat|
            #![trigger self.names[s], prefix + decimal(n)]
            self.names.contains_key(s) && is_prefix(prefix) && self.counter <= n ==> self.names[s]
                != prefix + decimal(n)
    }

    /// Whether each name is a prefix with a number below the counter.
    pub open spec fn all_numbered(self) -> bool {
        forall|s: SignatureView| #[trigger]
            self.names.contains_key(s) ==> exists|prefix: Seq<char>, n: nat|
                is_prefix(prefix) && n < self.counter && self.names[s] == #[trigger] (prefix
                    + decimal(n))
    }

    /// Whether each name is that of a collection that is no relation, and says its kind.
    pub open spec fn by_kind(self) -> bool {
        forall|s: SignatureView| #[trigger]
            self.names.contains_key(s) ==> !(s is Atom) && exists|n: nat|
                n < self.counter && self.names[s] == #[trigger] numbered(s, n)
    }
}

/// The prefixes of numbered names.
pub open spec fn is_prefix(prefix: Seq<char>) -> bool {
    ||| prefix == "kv"@
    ||| prefix == "k_"@
    ||| prefix == "rw"@
    ||| prefix == "jn"@
    ||| prefix == "nj"@
}

/// The name for a collection with a number.
pub open spec fn numbered(signature: SignatureView, number: nat) -> Seq<char> {
    prefix_of(signature) + decimal(number)
}

impl GroupView {
    /// The outputs of the group: those of its transformations, then the last collections of its
    /// rules.
    pub open spec fn outputs(self) -> Seq<SignatureView> {
        self.strata_plan.flatten().map_values(|t: TransformationView| t.signature())
            + self.per_rule_last.map_values(|c: CollectionView| c.signature)
    }
}

/// Names with different numbers differ.
proof fn lemma_numbers_differ(a: Seq<char>, m: nat, b: Seq<char>, n: nat)
    requires
        is_prefix(a),
        is_prefix(b),
        m != n,
    ensures
        a + decimal(m) != b + decimal(n),
{
    reveal_strlit("kv");
    reveal_strlit("k_");
    reveal_strlit("rw");
    reveal_strlit("jn");
    reveal_strlit("nj");
    if a + decimal(m) == b + decimal(n) {
        assert((a + decimal(m)).skip(2) =~= decimal(m));
        assert((b + decimal(n)).skip(2) =~= decimal(n));
        lemma_decimal_injective(m, n);
    }
}

/// Where no two collections have the same name, and no name is one that numbering may give from the
/// counter on, that stays so: no name is given twice, in one group or in several.
pub proof fn law_names_stay_distinct(before: Numbering, signatures: Seq<SignatureView>)
    requires
        before.distinct(),
        before.unclaimed(),
    ensures
        before.all_named(signatures).distinct(),
        before.all_named(signatures).unclaimed(),
    decreases signatures.len(),
{
    if signatures.len() > 0 {
        let last = signatures.last();
        let middle = before.all_named(signatures.drop_last());
        let after = before.all_named(signatures);
        law_names_stay_distinct(before, signatures.drop_last());
        if middle.lacks(last) {
            let own = prefix_of(last);
            assert(after.names[last] == own + decimal(middle.counter));
            assert forall|s: SignatureView, prefix: Seq<char>, n: nat|
                #![trigger after.names[s], prefix + decimal(n)]
                after.names.contains_key(s) && is_prefix(prefix) && after.counter
                    <= n implies after.names[s] != prefix + decimal(n) by {
                if s == last {
                    lemma_numbers_differ(own, middle.counter, prefix, n);
                } else {
                    assert(middle.names[s] == after.names[s]);
                }
            }
            assert forall|s: SignatureView| #[trigger] middle.names.contains_key(
                s,
            ) implies middle.names[s] != after.names[last] by {}
        }
    }
}

/// Names that were given by numbering up to the counter are not ones that it may give from there on.
proof fn lemma_numbered_are_unclaimed(numbering: Numbering)
    requires
        numbering.all_numbered(),
    ensures
        numbering.unclaimed(),
{
    assert forall|s: SignatureView, prefix: Seq<char>, n: nat|
        #![trigger numbering.names[s], prefix + decimal(n)]
        numbering.names.contains_key(s) && is_prefix(prefix) && numbering.counter
            <= n implies numbering.names[s] != prefix + decimal(n) by {
        let (own, m) = choose|own: Seq<char>, m: nat|
            is_prefix(own) && m < numbering.counter && numbering.names[s] == #[trigger] (own
                + decimal(m));
        lemma_numbers_differ(own, m, prefix, n);
    }
}

/// Where no two collections have the same name, and each name is a prefix with a number below the
/// counter, that stays so.
pub proof fn law_numbered_names_stay_distinct(before: Numbering, signatures: Seq<SignatureView>)
    requires
        before.distinct(),
        before.all_numbered(),
    ensures
        before.all_named(signatures).distinct(),
        before.all_named(signatures).all_numbered(),
{
    lemma_numbered_are_unclaimed(before);
    law_names_stay_distinct(before, signatures);
    lemma_stay_numbered(before, signatures);
}

proof fn lemma_stay_numbered(before: Numbering, signatures: Seq<SignatureView>)
    requires
        before.all_numbered(),
    ensures
        before.all_named(signatures).all_numbered(),
    decreases signatures.len(),
{
    if signatures.len() > 0 {
        let last = signatures.last();
        let middle = before.all_named(signatures.drop_last());
        let after = before.all_named(signatures);
        lemma_stay_numbered(before, signatures.drop_last());
        assert forall|s: SignatureView| #[trigger] after.names.contains_key(s) implies exists|
            prefix: Seq<char>,
            n: nat,
        |
            is_prefix(prefix) && n < after.counter && after.names[s] == #[trigger] (prefix
                + decimal(n)) by {
            if middle.names.contains_key(s) {
                let (prefix, n) = choose|prefix: Seq<char>, n: nat|
                    is_prefix(prefix) && n < middle.counter && middle.names[s] == #[trigger] (prefix
                        + decimal(n));
                assert(after.names[s] == prefix + decimal(n));
            } else {
                assert(is_prefix(prefix_of(last)));
                assert(after.names[s] == prefix_of(last) + decimal(middle.counter));
            }
        }
    }
}

/// Where each name is that of a collection that is no relation, and is made of the prefix for its
/// kind and a number below the counter, that stays so.
pub proof fn law_names_say_their_kind(before: Numbering, signatures: Seq<SignatureView>)
    requires
        before.by_kind(),
    ensures
        before.all_named(signatures).by_kind(),
    decreases signatures.len(),
{
    if signatures.len() > 0 {
        let last = signatures.last();
        let middle = before.all_named(signatures.drop_last());
        let after = before.all_named(signatures);
        law_names_say_their_kind(before, signatures.drop_last());
        assert forall|s: SignatureView| #[trigger] after.names.contains_key(s) implies !(s is Atom)
            && exists|n: nat| n < after.counter && after.names[s] == #[trigger] numbered(s, n) by {
            if middle.names.contains_key(s) {
                let n = choose|n: nat|
                    n < middle.counter && middle.names[s] == #[trigger] numbered(s, n);
                assert(after.names[s] == numbered(s, n));
            } else {
                assert(after.names[s] == numbered(s, middle.counter));
            }
        }
    }
}

/// Nothing is named to begin with.
pub proof fn law_no_names_are_distinct(counter: nat)
    ensures
        (Numbering { names: Map::empty(), counter }).distinct(),
        (Numbering { names: Map::empty(), counter }).unclaimed(),
        (Numbering { names: Map::empty(), counter }).all_numbered(),
        (Numbering { names: Map::empty(), counter }).by_kind(),
{
}

/// Naming keeps the names that are there; afterwards exactly those have a name that had one before
/// and those of the given collections that are no relations; and the counter has advanced by the
/// number of new names.
pub proof fn law_outputs_are_named(before: Numbering, signatures: Seq<SignatureView>)
    requires
        before.names.dom().finite(),
    ensures
        ({
            let after = before.all_named(signatures);
            &&& forall|s: SignatureView| #[trigger]
                before.names.contains_key(s) ==> after.names[s] == before.names[s]
            &&& forall|s: SignatureView| #[trigger]
                after.names.contains_key(s) <==> before.names.contains_key(s) || (!(s is Atom)
                    && signatures.contains(s))
            &&& after.names.dom().finite()
            &&& after.names.dom().len() - before.names.dom().len() == after.counter - before.counter
        }),
    decreases signatures.len(),
{
    if signatures.len() > 0 {
        let fewer = signatures.drop_last();
        let middle = before.all_named(fewer);
        let after = before.all_named(signatures);
        law_outputs_are_named(before, fewer);
        assert(signatures =~= fewer.push(signatures.last()));
        assert forall|s: SignatureView| #[trigger] signatures.contains(s) <==> fewer.contains(s)
            || s == signatures.last() by {
            if fewer.contains(s) {
                let i = choose|i: int| 0 <= i < fewer.len() && fewer[i] == s;
                assert(signatures[i] == s);
            }
            if signatures.contains(s) {
                let i = choose|i: int| 0 <= i < signatures.len() && signatures[i] == s;
                if i < fewer.len() {
                    assert(fewer[i] == s);
                }
            }
            assert(signatures[signatures.len() - 1] == signatures.last());
        }
        if middle.lacks(signatures.last()) {
            assert(after.names.dom() =~= middle.names.dom().insert(signatures.last()));
        }
    }
}

/// Once the outputs of a group are named, each of its transformations and each last collection has
/// a name to be looked up, and names that were there before are still there.
pub proof fn law_named_outputs_are_found(
    group: GroupView,
    before: Numbering,
    i: int,
)
    requires
        before.names.dom().finite(),
        group.wf(),
        0 <= i < group.rules.len(),
    ensures
        ({
            let after = before.all_named(group.outputs());
            &&& extends(after.names, before.names)
            &&& has_name(group.per_rule_last[i].signature, after.names)
            &&& forall|j: int|
                0 <= j < group.strata_plan[i].len() ==> has_name(
                    #[trigger] group.strata_plan[i][j].signature(),
                    after.names,
                )
        }),
{
    let after = before.all_named(group.outputs());
    let outputs = group.outputs();
    let steps = group.strata_plan.flatten();
    law_outputs_are_named(before, outputs);
    assert(outputs[steps.len() + i] == group.per_rule_last[i].signature);
    assert(outputs.contains(group.per_rule_last[i].signature));
    assert forall|j: int| 0 <= j < group.strata_plan[i].len() implies has_name(
        #[trigger] group.strata_plan[i][j].signature(),
        after.names,
    ) by {
        lemma_flatten_contains(group.strata_plan, i, j);
        let k = choose|k: int| 0 <= k < steps.len() && steps[k] == group.strata_plan[i][j];
        assert(outputs[k] == group.strata_plan[i][j].signature());
        assert(outputs.contains(group.strata_plan[i][j].signature()));
    }
}

/// Naming the same collections again changes nothing.
pub proof fn law_naming_again_changes_nothing(before: Numbering, signatures: Seq<SignatureView>)
    requires
        before.names.dom().finite(),
    ensures
        before.all_named(signatures).all_named(signatures) == before.all_named(signatures),
{
    let after = before.all_named(signatures);
    law_outputs_are_named(before, signatures);
    lemma_nothing_lacks(after, signatures);
}

proof fn lemma_nothing_lacks(numbering: Numbering, signatures: Seq<SignatureView>)
    requires
        forall|s: SignatureView| #[trigger] signatures.contains(s) ==> !numbering.lacks(s),
    ensures
        numbering.all_named(signatures) == numbering,
    decreases signatures.len(),
{
    if signatures.len() > 0 {
        let fewer = signatures.drop_last();
        assert forall|s: SignatureView| #[trigger] fewer.contains(s) implies !numbering.lacks(
            s,
        ) by {
            let i = choose|i: int| 0 <= i < fewer.len() && fewer[i] == s;
            assert(signatures[i] == s);
            assert(signatures.contains(s));
        }
        lemma_nothing_lacks(numbering, fewer);
        assert(signatures.contains(signatures.last()));
    }
}

/// The counter never goes back.
pub(crate) proof fn lemma_counter_grows(
    numbering: Numbering,
    signatures: Seq<SignatureView>,
    n: int,
)
    requires
        0 <= n <= signatures.len(),
    ensures
        numbering.all_named(signatures.take(n)).counter <= numbering.all_named(signatures).counter,
    decreases signatures.len() - n,
{
    if n < signatures.len() {
        lemma_counter_grows(numbering, signatures, n + 1);
        assert(signatures.take(n + 1).drop_last() =~= signatures.take(n));
    } else {
        assert(signatures.take(n) =~= signatures);
    }
}

/// Naming nothing changes nothing. A relation, or a collection that has a name, gets none; any other
/// gets the prefix of its kind with the counter's number, and the counter moves on by one.
pub proof fn law_one_name_at_a_time(before: Numbering, signature: SignatureView)
    ensures
        before.all_named(Seq::empty()) == before,
        signature is Atom || before.names.contains_key(signature) ==> before.all_named(
            seq![signature],
        ) == before,
        !(signature is Atom) && !before.names.contains_key(signature) ==> {
            let after = before.all_named(seq![signature]);
            &&& after.counter == before.counter + 1
            &&& after.names == before.names.insert(
                signature,
                prefix_of(signature) + decimal(before.counter),
            )
        },
{
    assert(seq![signature].drop_last() =~= Seq::<SignatureView>::empty());
    assert(seq![signature].last() == signature);
}

/// Naming two lists in a row is naming the second where naming the first has ended: numbers are given
/// in the order in which collections come, in one call or in several.
pub proof fn law_naming_goes_on(
    before: Numbering,
    first: Seq<SignatureView>,
    second: Seq<SignatureView>,
)
    ensures
        before.all_named(first + second) == before.all_named(first).all_named(second),
    decreases second.len(),
{
    if second.len() == 0 {
        assert(first + second =~= first);
    } else {
        law_naming_goes_on(before, first, second.drop_last());
        assert((first + second).drop_last() =~= first + second.drop_last());
        assert((first + second).last() == second.last());
    }
}

/// The outputs of a group are what each of its transformations makes, in order, then what each of its
/// rules ends in.
pub proof fn law_outputs_in_order(group: GroupView, n: int)
    requires
        group.wf(),
    ensures
        ({
            let steps = group.strata_plan.flatten();
            let outputs = group.outputs();
            &&& outputs.len() == steps.len() + group.rules.len()
            &&& 0 <= n < steps.len() ==> outputs[n] == steps[n].output.signature
            &&& 0 <= n < group.rules.len() ==> outputs[steps.len() + n]
                == group.per_rule_last[n].signature
        }),
{
}

} // verus!
