//! Plans laid out as text, given the texts of their parts.

use crate::model::views;
use crate::text::{join, joined, law_joining_lists_in_a_row, law_joining_up_to_one};
use crate::transformations::TransformationView;
use vstd::prelude::*;

verus! {

/// What is taken from outside, on a line of its own; nothing where there is nothing to take.
pub open spec fn scope_text(scope: Seq<Seq<char>>) -> Seq<char> {
    if scope.len() == 0 {
        ""@
    } else {
        "[ent] "@ + joined(scope, " && "@) + "\n"@
    }
}

/// The steps of a rule, each as a branch; the last one closes the tree.
pub open spec fn branches(steps: Seq<Seq<char>>) -> Seq<Seq<char>> {
    Seq::new(
        steps.len(),
        |j: int|
            "  "@ + (if j == steps.len() - 1 {
                "└── "@
            } else {
                "├── "@
            }) + steps[j],
    )
}

/// A rule with its steps below it.
pub open spec fn rule_with_steps(rule: Seq<char>, steps: Seq<Seq<char>>) -> Seq<char> {
    rule + "\n"@ + joined(branches(steps), "\n"@)
}

/// The rules with their steps, one below the other; a sign where there are none.
pub open spec fn plan_text(rules: Seq<Seq<char>>, steps: Seq<Seq<Seq<char>>>) -> Seq<char> {
    if steps.len() == 0 {
        "[∅]"@
    } else {
        joined(Seq::new(steps.len(), |i: int| rule_with_steps(rules[i], steps[i])), "\n"@)
    }
}

/// A plan: what it takes from outside, then its rules with their steps.
pub open spec fn group_text(
    scope: Seq<Seq<char>>,
    rules: Seq<Seq<char>>,
    steps: Seq<Seq<Seq<char>>>,
) -> Seq<char> {
    scope_text(scope) + plan_text(rules, steps)
}

/// The texts of each list.
pub open spec fn list_views(lists: Seq<Vec<String>>) -> Seq<Seq<Seq<char>>> {
    Seq::new(lists.len(), |i: int| views(lists[i]@))
}

/// The `texts` of all steps of a plan, rule by rule.
pub open spec fn by_rule(
    texts: Seq<Seq<char>>,
    plan: Seq<Seq<TransformationView>>,
) -> Seq<Seq<Seq<char>>> {
    Seq::new(
        plan.len(),
        |i: int|
            texts.subrange(
                plan.take(i).flatten().len() as int,
                plan.take(i + 1).flatten().len() as int,
            ),
    )
}

/// `count` of the `texts`, from the `start`-th on.
pub(crate) fn slice_of(texts: &Vec<String>, start: usize, count: usize) -> (slice: Vec<String>)
    requires
        start + count <= texts@.len(),
    ensures
        views(slice@) == views(texts@).subrange(start as int, start + count),
{
    let length: usize = texts.len();
    let mut slice: Vec<String> = Vec::new();
    let mut i: usize = 0;
    while i < count
        invariant
            i <= count,
            length == texts@.len(),
            start + count <= length,
            slice@.len() == i,
            forall|k: int| 0 <= k < i ==> #[trigger] slice@[k]@ == texts@[start + k]@,
        decreases count - i,
    {
        slice.push(texts[start + i].clone());
        i += 1;
    }
    proof {
        assert(views(slice@) =~= views(texts@).subrange(start as int, start + count));
    }
    slice
}

/// Lays out a rule with its steps.
fn format_rule_with_steps(rule: &str, steps: &Vec<String>) -> (text: String)
    ensures
        text@ == rule_with_steps(rule@, views(steps@)),
{
    let mut lines: Vec<String> = Vec::new();
    let mut j: usize = 0;
    while j < steps.len()
        invariant
            j <= steps@.len(),
            lines@.len() == j,
            forall|k: int| 0 <= k < j ==> #[trigger] lines@[k]@ == branches(views(steps@))[k],
        decreases steps@.len() - j,
    {
        let prefix = if j == steps.len() - 1 {
            "└── "
        } else {
            "├── "
        };
        let mut line = "  ".to_owned();
        line.append(prefix);
        line.append(steps[j].as_str());
        lines.push(line);
        j += 1;
    }
    proof {
        assert(views(lines@) =~= branches(views(steps@)));
    }
    let mut text = rule.to_owned();
    text.append("\n");
    text.append(join(lines.as_slice(), "\n").as_str());
    text
}

/// Lays out a plan.
pub(crate) fn format_group(
    scope: &Vec<String>,
    rules: &Vec<String>,
    steps: &Vec<Vec<String>>,
) -> (text: String)
    requires
        steps@.len() <= rules@.len(),
    ensures
        text@ == group_text(views(scope@), views(rules@), list_views(steps@)),
{
    let mut text = String::new();
    if scope.len() > 0 {
        text.append("[ent] ");
        text.append(join(scope.as_slice(), " && ").as_str());
        text.append("\n");
    }
    proof {
        reveal_strlit("");
        assert(text@ =~= scope_text(views(scope@)));
    }
    if steps.len() == 0 {
        text.append("[∅]");
        return text;
    }
    let ghost expected = Seq::new(
        list_views(steps@).len(),
        |i: int| rule_with_steps(views(rules@)[i], list_views(steps@)[i]),
    );
    let mut blocks: Vec<String> = Vec::new();
    let mut i: usize = 0;
    while i < steps.len()
        invariant
            i <= steps@.len(),
            steps@.len() <= rules@.len(),
            blocks@.len() == i,
            expected == Seq::new(
                list_views(steps@).len(),
                |i: int| rule_with_steps(views(rules@)[i], list_views(steps@)[i]),
            ),
            forall|k: int| 0 <= k < i ==> #[trigger] blocks@[k]@ == expected[k],
        decreases steps@.len() - i,
    {
        blocks.push(format_rule_with_steps(rules[i].as_str(), &steps[i]));
        i += 1;
    }
    proof {
        assert(views(blocks@) =~= expected);
    }
    text.append(join(blocks.as_slice(), "\n").as_str());
    text
}

/// The transformations of the first rules are no more than those of all rules.
pub(crate) proof fn lemma_prefix_len(plan: Seq<Seq<TransformationView>>, n: int)
    requires
        0 <= n <= plan.len(),
    ensures
        plan.take(n).flatten().len() <= plan.flatten().len(),
    decreases plan.len() - n,
{
    if n < plan.len() {
        assert(plan.take(n + 1) =~= plan.take(n).push(plan[n]));
        plan.take(n).lemma_flatten_push(plan[n]);
        lemma_prefix_len(plan, n + 1);
    } else {
        assert(plan.take(n) =~= plan);
    }
}

/// The first parts of a text divided by rule.
proof fn lemma_first_rules(texts: Seq<Seq<char>>, plan: Seq<Seq<TransformationView>>, n: int)
    requires
        texts.len() == plan.flatten().len(),
        0 <= n <= plan.len(),
    ensures
        by_rule(texts, plan).take(n).flatten() == texts.take(plan.take(n).flatten().len() as int),
        forall|i: int|
            0 <= i < n ==> (#[trigger] by_rule(texts, plan)[i]).len() == plan[i].len(),
    decreases n,
{
    let parts = by_rule(texts, plan);
    lemma_prefix_len(plan, n);
    if n == 0 {
        assert(parts.take(0).flatten() =~= texts.take(plan.take(0).flatten().len() as int));
    } else {
        lemma_first_rules(texts, plan, n - 1);
        lemma_prefix_len(plan, n - 1);
        assert(plan.take(n) =~= plan.take(n - 1).push(plan[n - 1]));
        plan.take(n - 1).lemma_flatten_push(plan[n - 1]);
        assert(parts.take(n) =~= parts.take(n - 1).push(parts[n - 1]));
        parts.take(n - 1).lemma_flatten_push(parts[n - 1]);
        assert(parts.take(n).flatten() =~= texts.take(plan.take(n).flatten().len() as int));
    }
}

/// The text of every step is laid out, once and in order, and below each rule stand as many as the
/// rule has steps.
pub proof fn law_every_step_is_laid_out(
    texts: Seq<Seq<char>>,
    plan: Seq<Seq<TransformationView>>,
)
    requires
        texts.len() == plan.flatten().len(),
    ensures
        by_rule(texts, plan).flatten() == texts,
        by_rule(texts, plan).len() == plan.len(),
        forall|i: int|
            0 <= i < plan.len() ==> (#[trigger] by_rule(texts, plan)[i]).len() == plan[i].len(),
{
    let n = plan.len() as int;
    lemma_first_rules(texts, plan, n);
    assert(by_rule(texts, plan).take(n) =~= by_rule(texts, plan));
    assert(plan.take(n) =~= plan);
    assert(texts.take(texts.len() as int) =~= texts);
}

/// What a plan takes from outside stands on a line of its own before the rest, which does not depend
/// on it; where it takes nothing, there is no such line. Without rules the rest is a sign.
pub proof fn law_scope_stands_in_front(
    scope: Seq<Seq<char>>,
    rules: Seq<Seq<char>>,
    steps: Seq<Seq<Seq<char>>>,
)
    ensures
        scope.len() > 0 ==> group_text(scope, rules, steps) == "[ent] "@ + joined(scope, " && "@)
            + "\n"@ + group_text(Seq::empty(), rules, steps),
        group_text(Seq::empty(), rules, Seq::empty()) == "[∅]"@,
{
    reveal_strlit("");
    let rest = plan_text(rules, steps);
    assert(group_text(Seq::empty(), rules, steps) =~= rest);
    assert(group_text(Seq::empty(), rules, Seq::empty()) =~= "[∅]"@);
}

/// One more rule is laid out below the others, as it is by itself.
pub proof fn law_rules_are_laid_out_in_turn(
    rules: Seq<Seq<char>>,
    steps: Seq<Seq<Seq<char>>>,
    rule: Seq<char>,
    of_rule: Seq<Seq<char>>,
)
    requires
        rules.len() == steps.len(),
        steps.len() > 0,
    ensures
        group_text(Seq::empty(), rules.push(rule), steps.push(of_rule)) == group_text(
            Seq::empty(),
            rules,
            steps,
        ) + "\n"@ + group_text(Seq::empty(), seq![rule], seq![of_rule]),
{
    reveal_strlit("");
    let more_rules = rules.push(rule);
    let more = steps.push(of_rule);
    let one_rule = seq![rule];
    let one = seq![of_rule];
    let blocks = Seq::new(steps.len(), |i: int| rule_with_steps(rules[i], steps[i]));
    let more_blocks = Seq::new(more.len(), |i: int| rule_with_steps(more_rules[i], more[i]));
    let one_block = Seq::new(one.len(), |i: int| rule_with_steps(one_rule[i], one[i]));
    assert(more_blocks =~= blocks + one_block);
    law_joining_lists_in_a_row(blocks, one_block, "\n"@);
    assert(group_text(Seq::empty(), more_rules, more) =~= group_text(Seq::empty(), rules, steps)
        + "\n"@ + group_text(Seq::empty(), one_rule, one));
}

/// A rule is laid out with its steps below it, each on a line with a branch. The last branch closes
/// the tree; one more step in front gets an open branch and leaves the others as they are.
pub proof fn law_steps_are_laid_out_in_turn(
    rule: Seq<char>,
    step: Seq<char>,
    others: Seq<Seq<char>>,
)
    ensures
        group_text(Seq::empty(), seq![rule], seq![Seq::empty()]) == rule + "\n"@,
        group_text(Seq::empty(), seq![rule], seq![seq![step]]) == rule + "\n"@ + "  "@ + "└── "@
            + step,
        others.len() > 0 ==> group_text(Seq::empty(), seq![rule], seq![seq![step] + others])
            == rule + "\n"@ + "  "@ + "├── "@ + step + "\n"@ + group_text(
            Seq::empty(),
            seq![rule],
            seq![others],
        ).skip(rule.len() as int + 1),
{
    reveal_strlit("");
    reveal_strlit("\n");
    lemma_one_rule(rule, Seq::empty());
    lemma_one_rule(rule, seq![step]);
    lemma_one_rule(rule, others);
    lemma_one_rule(rule, seq![step] + others);
    assert(branches(seq![step]) =~= seq!["  "@ + "└── "@ + step]);
    assert(group_text(Seq::empty(), seq![rule], seq![Seq::empty()]) =~= rule + "\n"@);
    assert(group_text(Seq::empty(), seq![rule], seq![seq![step]]) =~= rule + "\n"@ + "  "@
        + "└── "@ + step);
    if others.len() > 0 {
        let front = seq!["  "@ + "├── "@ + step];
        assert(branches(seq![step] + others) =~= front + branches(others));
        law_joining_lists_in_a_row(front, branches(others), "\n"@);
        let text = group_text(Seq::empty(), seq![rule], seq![others]);
        assert(text.skip(rule.len() as int + 1) =~= joined(branches(others), "\n"@));
        assert(group_text(Seq::empty(), seq![rule], seq![seq![step] + others]) =~= rule + "\n"@
            + "  "@ + "├── "@ + step + "\n"@ + text.skip(rule.len() as int + 1));
    }
}

proof fn lemma_one_rule(rule: Seq<char>, steps: Seq<Seq<char>>)
    ensures
        group_text(Seq::empty(), seq![rule], seq![steps]) == rule + "\n"@ + joined(
            branches(steps),
            "\n"@,
        ),
{
    reveal_strlit("");
    let rules = seq![rule];
    let lists = seq![steps];
    let blocks = Seq::new(lists.len(), |i: int| rule_with_steps(rules[i], lists[i]));
    assert(blocks =~= seq![rule_with_steps(rule, steps)]);
    law_joining_up_to_one(rule_with_steps(rule, steps), "\n"@);
    assert(group_text(Seq::empty(), rules, lists) =~= rule_with_steps(rule, steps));
}

} // verus!
