//! Which heads rules have, and in which collections they end.

use crate::collections::{CollectionSignature, SignatureMap, SignatureView};
use crate::group::{
    heads_of, is_reverse, is_reverse_in, last_signatures, lasts_of, listing_keys, repeated,
};
use crate::keyed::listed;
use crate::model::{share, views};
use crate::rule::{RulePlanView, RuleQueryPlan, RuleView};
use std::sync::Arc;
use vstd::prelude::*;

verus! {

/// One more rule adds its last collection under its head.
proof fn lemma_last_signatures_push(plans: Seq<RulePlanView>, plan: RulePlanView)
    ensures
        last_signatures(plans.push(plan)) == last_signatures(plans).insert(
            plan.head(),
            listed(last_signatures(plans), plan.head()).push(plan.last()),
        ),
{
    let more = plans.push(plan);
    let before = last_signatures(plans);
    let after = last_signatures(more);
    assert forall|head: SignatureView| lasts_of(more, head) == (if head == plan.head() {
        lasts_of(plans, head).push(plan.last())
    } else {
        lasts_of(plans, head)
    }) by {
        let of_head = |p: RulePlanView| p.head() == head;
        let last = |p: RulePlanView| p.last();
        plans.lemma_filter_push(plan, of_head);
        plans.filter(of_head).lemma_push_map_commute(last, plan);
    }
    assert forall|head: SignatureView| #[trigger] after.contains_key(head) <==> before.contains_key(
        head,
    ) || head == plan.head() by {
        if after.contains_key(head) {
            let i = choose|i: int| 0 <= i < more.len() && #[trigger] more[i].head() == head;
            if i < plans.len() {
                assert(plans[i].head() == head);
            }
        }
        if before.contains_key(head) {
            let i = choose|i: int| 0 <= i < plans.len() && #[trigger] plans[i].head() == head;
            assert(more[i].head() == head);
        }
        assert(more[plans.len() as int] == plan);
    }
    if !before.contains_key(plan.head()) {
        lemma_no_lasts(plans, plan.head());
    }
    assert(after =~= before.insert(plan.head(), listed(before, plan.head()).push(plan.last())));
}

/// A head without rules has no last collections.
proof fn lemma_no_lasts(plans: Seq<RulePlanView>, head: SignatureView)
    requires
        !last_signatures(plans).contains_key(head),
    ensures
        lasts_of(plans, head) == Seq::<SignatureView>::empty(),
{
    let of_head = |p: RulePlanView| p.head() == head;
    let found = plans.filter(of_head);
    if found.len() > 0 {
        assert(found.contains(found[0]));
        plans.lemma_filter_contains_rev(of_head, found[0]);
        plans.lemma_filter_pred(of_head, 0);
        let i = choose|i: int| 0 <= i < plans.len() && plans[i] == found[0];
        assert(plans[i].head() == head);
    }
    assert(lasts_of(plans, head) =~= Seq::<SignatureView>::empty());
}

/// Lists under each head the last collections of its rules.
pub(crate) fn collect_last_signatures(rule_plans: &Vec<RuleQueryPlan>) -> (map: SignatureMap<
    Vec<Arc<CollectionSignature>>,
>)
    ensures
        map@ == last_signatures(views(rule_plans@)),
{
    let mut map: SignatureMap<Vec<Arc<CollectionSignature>>> = SignatureMap::new();
    let mut i: usize = 0;
    let ghost plans = views(rule_plans@);
    proof {
        assert(map@ =~= last_signatures(plans.take(0)));
    }
    while i < rule_plans.len()
        invariant
            i <= rule_plans@.len(),
            plans == views(rule_plans@),
            map@ == last_signatures(plans.take(i as int)),
        decreases rule_plans@.len() - i,
    {
        let plan = &rule_plans[i];
        let head = Arc::new(CollectionSignature::new_atom(plan.rule.head.name.as_str()));
        map.append(head, share(&plan.root.output().signature));
        proof {
            assert(plans[i as int] == plan@);
            assert(plans.take(i + 1) =~= plans.take(i as int).push(plan@));
            lemma_last_signatures_push(plans.take(i as int), plan@);
        }
        i += 1;
    }
    proof {
        assert(plans.take(plans.len() as int) =~= plans);
    }
    map
}

/// What is listed under `item`, once the first `whole` of the `keys` are done and the first `part`
/// items of the next.
spec fn listed_so_far(
    forward: Map<SignatureView, Seq<SignatureView>>,
    keys: Seq<SignatureView>,
    whole: int,
    part: int,
    item: SignatureView,
) -> Seq<SignatureView> {
    let done = listing_keys(forward, keys.take(whole), item);
    if whole < keys.len() {
        done + repeated(keys[whole], forward[keys[whole]].take(part).to_multiset().count(item))
    } else {
        done
    }
}

/// What holds of `reverse` once the first `whole` of the `keys` are done and the first `part` items
/// of the next.
spec fn reversed_so_far(
    forward: Map<SignatureView, Seq<SignatureView>>,
    keys: Seq<SignatureView>,
    whole: int,
    part: int,
    reverse: Map<SignatureView, Seq<SignatureView>>,
) -> bool {
    &&& forall|item: SignatureView| #[trigger]
        listed(reverse, item) == listed_so_far(forward, keys, whole, part, item)
    &&& forall|item: SignatureView| #[trigger]
        reverse.contains_key(item) ==> reverse[item].len() > 0
}

/// No item of the current key is done.
proof fn lemma_nothing_of_the_next(
    forward: Map<SignatureView, Seq<SignatureView>>,
    keys: Seq<SignatureView>,
    whole: int,
    item: SignatureView,
)
    requires
        0 <= whole <= keys.len(),
    ensures
        listed_so_far(forward, keys, whole, 0, item) == listing_keys(
            forward,
            keys.take(whole),
            item,
        ),
{
    if whole < keys.len() {
        assert(forward[keys[whole]].take(0) =~= Seq::<SignatureView>::empty());
        Seq::<SignatureView>::empty().to_multiset_ensures();
    }
    assert(listed_so_far(forward, keys, whole, 0, item) =~= listing_keys(
        forward,
        keys.take(whole),
        item,
    ));
}

/// One more item of the current key.
proof fn lemma_reverse_item(
    forward: Map<SignatureView, Seq<SignatureView>>,
    keys: Seq<SignatureView>,
    whole: int,
    part: int,
    reverse: Map<SignatureView, Seq<SignatureView>>,
)
    requires
        0 <= whole < keys.len(),
        0 <= part < forward[keys[whole]].len(),
        reversed_so_far(forward, keys, whole, part, reverse),
    ensures
        ({
            let key = keys[whole];
            let item = forward[key][part];
            reversed_so_far(
                forward,
                keys,
                whole,
                part + 1,
                reverse.insert(item, listed(reverse, item).push(key)),
            )
        }),
{
    let key = keys[whole];
    let item = forward[key][part];
    let after = reverse.insert(item, listed(reverse, item).push(key));
    let some = forward[key].take(part);
    assert(forward[key].take(part + 1) =~= some.push(item));
    some.to_multiset_ensures();
    assert forall|i: SignatureView| #[trigger] listed(after, i) == listed_so_far(
        forward,
        keys,
        whole,
        part + 1,
        i,
    ) by {
        assert(listed(reverse, i) == listed_so_far(forward, keys, whole, part, i));
        assert(listed(after, i) =~= listed_so_far(forward, keys, whole, part + 1, i));
    }
}

/// The current key is done.
proof fn lemma_reverse_key(
    forward: Map<SignatureView, Seq<SignatureView>>,
    keys: Seq<SignatureView>,
    whole: int,
    reverse: Map<SignatureView, Seq<SignatureView>>,
)
    requires
        0 <= whole < keys.len(),
        reversed_so_far(forward, keys, whole, forward[keys[whole]].len() as int, reverse),
    ensures
        reversed_so_far(forward, keys, whole + 1, 0, reverse),
{
    let part = forward[keys[whole]].len() as int;
    assert(forward[keys[whole]].take(part) =~= forward[keys[whole]]);
    assert(keys.take(whole + 1).drop_last() =~= keys.take(whole));
    assert(keys.take(whole + 1).last() == keys[whole]);
    assert forall|i: SignatureView| #[trigger] listed(reverse, i) == listed_so_far(
        forward,
        keys,
        whole + 1,
        0,
        i,
    ) by {
        assert(listed(reverse, i) == listed_so_far(forward, keys, whole, part, i));
        lemma_nothing_of_the_next(forward, keys, whole + 1, i);
    }
}

/// How often a key stands in a list of repeated keys.
proof fn lemma_repeated_count(item: SignatureView, n: nat, key: SignatureView)
    ensures
        repeated(item, n).to_multiset().count(key) == (if key == item {
            n
        } else {
            0
        }),
    decreases n,
{
    repeated(item, n).to_multiset_ensures();
    if n > 0 {
        let less = (n - 1) as nat;
        lemma_repeated_count(item, less, key);
        assert(repeated(item, n) =~= repeated(item, less).push(item));
        repeated(item, less).to_multiset_ensures();
    }
}

/// How often a key stands among those that list `item`.
proof fn lemma_listing_count(
    forward: Map<SignatureView, Seq<SignatureView>>,
    order: Seq<SignatureView>,
    item: SignatureView,
    key: SignatureView,
)
    requires
        order.no_duplicates(),
    ensures
        listing_keys(forward, order, item).to_multiset().count(key) == (if order.contains(key) {
            forward[key].to_multiset().count(item)
        } else {
            0
        }),
    decreases order.len(),
{
    let all = listing_keys(forward, order, item);
    all.to_multiset_ensures();
    if order.len() > 0 {
        let fewer = order.drop_last();
        let last = order.last();
        let some = listing_keys(forward, fewer, item);
        let more = repeated(last, forward[last].to_multiset().count(item));
        lemma_listing_count(forward, fewer, item, key);
        lemma_repeated_count(last, forward[last].to_multiset().count(item), key);
        vstd::seq_lib::lemma_multiset_commutative(some, more);
        assert(order =~= fewer.push(last));
        assert(order.contains(key) <==> fewer.contains(key) || key == last) by {
            if fewer.contains(key) {
                let i = choose|i: int| 0 <= i < fewer.len() && fewer[i] == key;
                assert(order[i] == key);
            }
            if order.contains(key) {
                let i = choose|i: int| 0 <= i < order.len() && order[i] == key;
                if i < fewer.len() {
                    assert(fewer[i] == key);
                }
            }
            assert(order[order.len() - 1] == last);
        }
        assert(!fewer.contains(last)) by {
            if fewer.contains(last) {
                let i = choose|i: int| 0 <= i < fewer.len() && fewer[i] == last;
                assert(order[i] == order[order.len() - 1]);
            }
        }
    }
}

/// The reverse lists under each item the keys that list it, each as often as it does.
pub proof fn law_reverse_counts_the_same(
    forward: Map<SignatureView, Seq<SignatureView>>,
    reverse: Map<SignatureView, Seq<SignatureView>>,
    item: SignatureView,
    key: SignatureView,
)
    requires
        is_reverse(forward, reverse),
    ensures
        listed(reverse, item).to_multiset().count(key) == listed(
            forward,
            key,
        ).to_multiset().count(item),
{
    let order = choose|order: Seq<SignatureView>| is_reverse_in(forward, order, reverse);
    lemma_listing_count(forward, order, item, key);
    assert(order.to_set().contains(key) <==> forward.contains_key(key));
    Seq::<SignatureView>::empty().to_multiset_ensures();
    if !reverse.contains_key(item) && forward.contains_key(key) {
        forward[key].to_multiset_ensures();
        assert(!forward[key].contains(item));
    }
}

/// All keys are done.
proof fn lemma_reverse_done(
    forward: Map<SignatureView, Seq<SignatureView>>,
    keys: Seq<SignatureView>,
    reverse: Map<SignatureView, Seq<SignatureView>>,
)
    requires
        keys.no_duplicates(),
        keys.to_set() == forward.dom(),
        reversed_so_far(forward, keys, keys.len() as int, 0, reverse),
    ensures
        is_reverse(forward, reverse),
{
    assert(keys.take(keys.len() as int) =~= keys);
    assert forall|item: SignatureView| #[trigger] listed(reverse, item) == listing_keys(
        forward,
        keys,
        item,
    ) by {
        assert(listed(reverse, item) == listed_so_far(forward, keys, keys.len() as int, 0, item));
    }
    assert forall|item: SignatureView| #[trigger]
        reverse.contains_key(item) <==> exists|key: SignatureView| #[trigger]
            forward.contains_key(key) && forward[key].contains(item) by {
        let list = listed(reverse, item);
        list.to_multiset_ensures();
        if reverse.contains_key(item) {
            let key = list[0];
            assert(list.contains(key));
            lemma_listing_count(forward, keys, item, key);
            assert(keys.to_set().contains(key));
            forward[key].to_multiset_ensures();
            assert(forward.contains_key(key) && forward[key].contains(item));
        }
        if exists|key: SignatureView| #[trigger]
            forward.contains_key(key) && forward[key].contains(item) {
            let key = choose|key: SignatureView| #[trigger]
                forward.contains_key(key) && forward[key].contains(item);
            forward[key].to_multiset_ensures();
            assert(keys.to_set().contains(key));
            lemma_listing_count(forward, keys, item, key);
            assert(list.contains(key));
        }
    }
    assert forall|item: SignatureView| #[trigger] reverse.contains_key(item) implies reverse[item]
        == listing_keys(forward, keys, item) by {
        assert(listed(reverse, item) == reverse[item]);
    }
    assert(is_reverse_in(forward, keys, reverse));
}

/// Lists under each last collection the heads whose rules end in it.
pub(crate) fn reverse_signatures(forward: &SignatureMap<Vec<Arc<CollectionSignature>>>) -> (reverse:
    SignatureMap<Vec<Arc<CollectionSignature>>>)
    ensures
        is_reverse(forward@, reverse@),
{
    let mut reverse: SignatureMap<Vec<Arc<CollectionSignature>>> = SignatureMap::new();
    let heads = forward.keys();
    let ghost keys = views(heads@);
    proof {
        assert forall|i: SignatureView| #[trigger] listed(reverse@, i) == listed_so_far(
            forward@,
            keys,
            0,
            0,
            i,
        ) by {
            lemma_nothing_of_the_next(forward@, keys, 0, i);
        }
    }
    let mut h: usize = 0;
    while h < heads.len()
        invariant
            h <= heads@.len(),
            keys == views(heads@),
            keys.no_duplicates(),
            keys.to_set() == forward@.dom(),
            reversed_so_far(forward@, keys, h as int, 0, reverse@),
        decreases heads@.len() - h,
    {
        let head = heads[h];
        proof {
            assert(keys[h as int] == head@);
            assert(keys.to_set().contains(head@));
        }
        if let Some(lasts) = forward.get(head) {
            let mut l: usize = 0;
            while l < lasts.len()
                invariant
                    h < heads@.len(),
                    keys == views(heads@),
                    keys.no_duplicates(),
                    keys[h as int] == head@,
                    lasts.deep_view() == forward@[head@],
                    l <= lasts@.len(),
                    reversed_so_far(forward@, keys, h as int, l as int, reverse@),
                decreases lasts@.len() - l,
            {
                proof {
                    lemma_reverse_item(forward@, keys, h as int, l as int, reverse@);
                    assert(forward@[head@][l as int] == lasts@[l as int]@);
                }
                reverse.append(share(&lasts[l]), share(head));
                l += 1;
            }
            proof {
                lemma_reverse_key(forward@, keys, h as int, reverse@);
            }
        }
        h += 1;
    }
    proof {
        lemma_reverse_done(forward@, keys, reverse@);
    }
    reverse
}

/// Where no later rule has the same head, the head has the arity that its rule gives it.
pub proof fn law_heads_have_their_last_arity(rules: Seq<RuleView>, i: int)
    requires
        0 <= i < rules.len(),
        forall|k: int| i < k < rules.len() ==> (#[trigger] rules[k]).name != rules[i].name,
    ensures
        heads_of(rules).contains_key(rules[i].name),
        heads_of(rules)[rules[i].name] == rules[i].arity,
    decreases rules.len(),
{
    if i < rules.len() - 1 {
        let fewer = rules.drop_last();
        assert forall|k: int| i < k < fewer.len() implies (#[trigger] fewer[k]).name
            != fewer[i].name by {
            assert(fewer[k] == rules[k]);
        }
        law_heads_have_their_last_arity(fewer, i);
        assert(rules[rules.len() - 1].name != rules[i].name);
    }
}

/// The heads are those of the rules, and no others.
pub proof fn law_heads_are_those_of_rules(rules: Seq<RuleView>, name: Seq<char>)
    ensures
        heads_of(rules).contains_key(name) <==> exists|i: int|
            0 <= i < rules.len() && (#[trigger] rules[i]).name == name,
    decreases rules.len(),
{
    if rules.len() > 0 {
        let fewer = rules.drop_last();
        law_heads_are_those_of_rules(fewer, name);
        if heads_of(fewer).contains_key(name) {
            let i = choose|i: int| 0 <= i < fewer.len() && (#[trigger] fewer[i]).name == name;
            assert(rules[i].name == name);
        }
        if exists|i: int| 0 <= i < rules.len() && (#[trigger] rules[i]).name == name {
            let i = choose|i: int| 0 <= i < rules.len() && (#[trigger] rules[i]).name == name;
            if i < fewer.len() {
                assert(fewer[i].name == name);
            }
        }
        assert(rules[rules.len() - 1] == rules.last());
    }
}

/// Without rules nothing is listed; one more rule adds the output of its own root behind what is
/// listed under its own head, and leaves all else as it is.
pub proof fn law_rules_list_their_own_last(plans: Seq<RulePlanView>, plan: RulePlanView)
    ensures
        last_signatures(Seq::empty()) == Map::<SignatureView, Seq<SignatureView>>::empty(),
        ({
            let before = last_signatures(plans);
            let head = SignatureView::Atom { name: plan.rule.name };
            last_signatures(plans.push(plan)) == before.insert(
                head,
                (if before.contains_key(head) {
                    before[head]
                } else {
                    Seq::empty()
                }).push(plan.root.output.signature),
            )
        }),
{
    assert(last_signatures(Seq::empty()) =~= Map::<SignatureView, Seq<SignatureView>>::empty());
    lemma_last_signatures_push(plans, plan);
}

/// Under its head, a rule's last collection stands behind those of the rules before it that have the
/// same head.
pub proof fn law_lasts_stand_in_rule_order(plans: Seq<RulePlanView>, i: int)
    requires
        0 <= i < plans.len(),
    ensures
        ({
            let head = SignatureView::Atom { name: plans[i].rule.name };
            let n = plans.take(i).filter(
                |p: RulePlanView| p.rule.name == plans[i].rule.name,
            ).len() as int;
            &&& last_signatures(plans).contains_key(head)
            &&& n < last_signatures(plans)[head].len()
            &&& last_signatures(plans)[head][n] == plans[i].root.output.signature
        }),
{
    let name = plans[i].rule.name;
    let head = SignatureView::Atom { name };
    let same = |p: RulePlanView| p.rule.name == name;
    let of_head = |p: RulePlanView| p.head() == head;
    assert(same =~= of_head);
    assert(plans[i].head() == head);
    lemma_filtered_place(plans, of_head, i);
}

proof fn lemma_filtered_place(
    plans: Seq<RulePlanView>,
    pred: spec_fn(RulePlanView) -> bool,
    i: int,
)
    requires
        0 <= i < plans.len(),
        pred(plans[i]),
    ensures
        plans.take(i).filter(pred).len() < plans.filter(pred).len(),
        plans.filter(pred)[plans.take(i).filter(pred).len() as int] == plans[i],
    decreases plans.len(),
{
    let fewer = plans.drop_last();
    assert(plans =~= fewer.push(plans.last()));
    fewer.lemma_filter_push(plans.last(), pred);
    if i == plans.len() - 1 {
        assert(plans.take(i) =~= fewer);
    } else {
        lemma_filtered_place(fewer, pred, i);
        assert(fewer.take(i) =~= plans.take(i));
    }
}

/// The reverse has an entry for each item that is listed, and for no others.
pub proof fn law_reverse_has_what_is_listed(
    forward: Map<SignatureView, Seq<SignatureView>>,
    reverse: Map<SignatureView, Seq<SignatureView>>,
    item: SignatureView,
)
    requires
        is_reverse(forward, reverse),
    ensures
        reverse.contains_key(item) <==> exists|key: SignatureView| #[trigger]
            forward.contains_key(key) && forward[key].contains(item),
{
    let order = choose|order: Seq<SignatureView>| is_reverse_in(forward, order, reverse);
}

/// The keys of a listing come from the order, and follow it.
proof fn lemma_listing_follows(
    forward: Map<SignatureView, Seq<SignatureView>>,
    order: Seq<SignatureView>,
    item: SignatureView,
)
    requires
        order.no_duplicates(),
    ensures
        ({
            let list = listing_keys(forward, order, item);
            &&& forall|i: int| 0 <= i < list.len() ==> order.contains(#[trigger] list[i])
            &&& forall|i: int, j: int|
                0 <= i < j < list.len() ==> order.index_of(#[trigger] list[i]) <= order.index_of(
                    #[trigger] list[j],
                )
        }),
    decreases order.len(),
{
    let list = listing_keys(forward, order, item);
    if order.len() > 0 {
        let fewer = order.drop_last();
        let last = order.last();
        let some = listing_keys(forward, fewer, item);
        lemma_listing_follows(forward, fewer, item);
        let end = order.len() - 1;
        assert(order[end] == last);
        assert forall|key: SignatureView| fewer.contains(key) implies order.contains(key)
            && #[trigger] order.index_of(key) == fewer.index_of(key) && order.index_of(key)
            < end by {
            let a = fewer.index_of(key);
            assert(order[a] == key);
            let b = order.index_of(key);
            assert(order[b] == key);
        }
        assert(order.contains(last));
        assert(order.index_of(last) == end);
        assert forall|i: int| 0 <= i < list.len() implies order.contains(#[trigger] list[i]) by {
            if i < some.len() {
                assert(list[i] == some[i]);
            }
        }
        assert forall|i: int, j: int| 0 <= i < j < list.len() implies order.index_of(
            #[trigger] list[i],
        ) <= order.index_of(#[trigger] list[j]) by {
            if i < some.len() {
                assert(list[i] == some[i]);
            }
            if j < some.len() {
                assert(list[j] == some[j]);
            }
        }
    }
}

/// All lists of the reverse have their keys in one order: where one key stands before another in one
/// list, it stands before it wherever both stand in a list, that same list included.
pub proof fn law_reverse_lists_follow_one_order(
    forward: Map<SignatureView, Seq<SignatureView>>,
    reverse: Map<SignatureView, Seq<SignatureView>>,
    item: SignatureView,
    i: int,
    j: int,
    other: SignatureView,
    k: int,
    l: int,
)
    requires
        is_reverse(forward, reverse),
        reverse.contains_key(item),
        reverse.contains_key(other),
        0 <= i < j < reverse[item].len(),
        0 <= k < reverse[other].len(),
        0 <= l < reverse[other].len(),
        reverse[item][i] != reverse[item][j],
        reverse[other][k] == reverse[item][i],
        reverse[other][l] == reverse[item][j],
    ensures
        k < l,
{
    let order = choose|order: Seq<SignatureView>| is_reverse_in(forward, order, reverse);
    lemma_listing_follows(forward, order, item);
    lemma_listing_follows(forward, order, other);
    let a = reverse[item][i];
    let b = reverse[item][j];
    assert(order[order.index_of(a)] == a);
    assert(order[order.index_of(b)] == b);
    if l < k {
        assert(order.index_of(reverse[other][l]) <= order.index_of(reverse[other][k]));
    }
}

} // verus!
