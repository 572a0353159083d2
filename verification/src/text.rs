//! Strings as sequences of characters.

use crate::model::views;
use vstd::prelude::*;

verus! {

/// `parts` one after the other, with `separator` between neighbours.
pub open spec fn joined(parts: Seq<Seq<char>>, separator: Seq<char>) -> Seq<char>
    decreases parts.len(),
{
    if parts.len() == 0 {
        Seq::empty()
    } else if parts.len() == 1 {
        parts[0]
    } else {
        joined(parts.drop_last(), separator) + separator + parts.last()
    }
}

/// Joins `parts` with `separator` between neighbours.
pub fn join(parts: &[String], separator: &str) -> (text: String)
    ensures
        text@ == joined(views(parts@), separator@),
{
    let mut text = String::new();
    let mut i: usize = 0;
    while i < parts.len()
        invariant
            i <= parts@.len(),
            text@ == joined(views(parts@).take(i as int), separator@),
        decreases parts@.len() - i,
    {
        proof {
            let all = views(parts@);
            assert(all.take(i + 1).drop_last() == all.take(i as int));
            assert(all.take(i + 1).last() == parts@[i as int]@);
        }
        if i > 0 {
            text.append(separator);
        }
        text.append(parts[i].as_str());
        i += 1;
    }
    proof {
        assert(views(parts@).take(parts@.len() as int) == views(parts@));
    }
    text
}

/// The decimal digits of `n`, most significant first, without leading zeros.
pub open spec fn decimal(n: nat) -> Seq<char>
    decreases n,
{
    if n < 10 {
        seq!["0123456789"@[n as int]]
    } else {
        decimal(n / 10).push("0123456789"@[(n % 10) as int])
    }
}

/// Different numbers have different digits.
pub proof fn lemma_decimal_injective(m: nat, n: nat)
    requires
        decimal(m) == decimal(n),
    ensures
        m == n,
    decreases m,
{
    reveal_strlit("0123456789");
    let a = decimal(m);
    let b = decimal(n);
    assert(a.last() == b.last());
    if m >= 10 {
        assert(a.drop_last() =~= decimal(m / 10));
    }
    if n >= 10 {
        assert(b.drop_last() =~= decimal(n / 10));
    }
    if m >= 10 && n >= 10 {
        lemma_decimal_injective(m / 10, n / 10);
    } else if m >= 10 {
        lemma_decimal_nonempty(m / 10);
    } else if n >= 10 {
        lemma_decimal_nonempty(n / 10);
    }
}

proof fn lemma_decimal_nonempty(n: nat)
    ensures
        decimal(n).len() > 0,
{
}

/// Writes `n` in decimal.
pub fn to_decimal(n: usize) -> (text: String)
    ensures
        text@ == decimal(n as nat),
    decreases n,
{
    proof {
        reveal_strlit("0123456789");
    }
    let digit: usize = n % 10;
    let last = "0123456789".substring_char(digit, digit + 1);
    let mut text = if n < 10 {
        String::new()
    } else {
        to_decimal(n / 10)
    };
    text.append(last);
    assert(text@ == decimal(n as nat));
    text
}

/// The characters of `s`.
pub fn chars_of(s: &str) -> (chars: Vec<char>)
    ensures
        chars@ == s@,
{
    let mut chars: Vec<char> = Vec::new();
    for c in it: s.chars()
        invariant
            it.seq() == s@,
            chars@ == s@.take(it.index() as int),
    {
        chars.push(c);
    }
    chars
}

/// Whether `s` begins with `prefix`.
pub fn starts_with(s: &str, prefix: &str) -> (result: bool)
    ensures
        result == prefix@.is_prefix_of(s@),
{
    let all = chars_of(s);
    let start = chars_of(prefix);
    if start.len() > all.len() {
        return false;
    }
    matches_at(&all, &start, 0)
}

/// Whether `part` stands in `all` at `position`.
fn matches_at(all: &Vec<char>, part: &Vec<char>, position: usize) -> (result: bool)
    requires
        position + part@.len() <= all@.len(),
    ensures
        result == (all@.subrange(position as int, position + part@.len()) == part@),
{
    let length: usize = all.len();
    let mut i: usize = 0;
    while i < part.len()
        invariant
            length == all@.len(),
            i <= part@.len(),
            position + part@.len() <= all@.len(),
            forall|j: int| 0 <= j < i ==> all@[position + j] == #[trigger] part@[j],
        decreases part@.len() - i,
    {
        if all[position + i] != part[i] {
            proof {
                assert(all@.subrange(position as int, position + part@.len())[i as int]
                    != part@[i as int]);
            }
            return false;
        }
        i += 1;
    }
    proof {
        assert(all@.subrange(position as int, position + part@.len()) =~= part@);
    }
    true
}

/// Whether `part` stands somewhere in `all`.
pub open spec fn occurs_in(part: Seq<char>, all: Seq<char>) -> bool {
    exists|i: int|
        0 <= i && i + part.len() <= all.len() && #[trigger] all.subrange(i, i + part.len()) == part
}

/// Whether `part` stands somewhere in `s`.
pub fn contains(s: &str, part: &str) -> (result: bool)
    ensures
        result == occurs_in(part@, s@),
{
    let all = chars_of(s);
    let sought = chars_of(part);
    let mut i: usize = 0;
    while all.len() - i >= sought.len()
        invariant
            all@ == s@,
            sought@ == part@,
            i <= all@.len(),
            forall|j: int|
                0 <= j < i && j + sought@.len() <= all@.len() ==> #[trigger] all@.subrange(
                    j,
                    j + sought@.len(),
                ) != sought@,
        decreases all@.len() - i,
    {
        if matches_at(&all, &sought, i) {
            return true;
        }
        proof {
            if i == all@.len() {
                assert(all@.subrange(i as int, i + sought@.len()) =~= sought@);
            }
        }
        i += 1;
    }
    false
}

/// Joining nothing gives nothing, and joining a single part gives that part.
pub proof fn law_joining_up_to_one(part: Seq<char>, separator: Seq<char>)
    ensures
        joined(Seq::<Seq<char>>::empty(), separator) == Seq::<char>::empty(),
        joined(seq![part], separator) == part,
{
}

/// Joining two lists in a row is joining each, with one separator between them.
pub proof fn law_joining_lists_in_a_row(
    first: Seq<Seq<char>>,
    second: Seq<Seq<char>>,
    separator: Seq<char>,
)
    requires
        first.len() > 0,
        second.len() > 0,
    ensures
        joined(first + second, separator) == joined(first, separator) + separator + joined(
            second,
            separator,
        ),
    decreases second.len(),
{
    let all = first + second;
    assert(all.last() == second.last());
    assert(all.drop_last() =~= first + second.drop_last());
    if second.len() == 1 {
        assert(all.drop_last() =~= first);
        assert(second[0] == second.last());
    } else {
        law_joining_lists_in_a_row(first, second.drop_last(), separator);
    }
    assert(joined(all, separator) =~= joined(first, separator) + separator + joined(
        second,
        separator,
    ));
}

/// A number below ten is written as its digit, and any other as what comes before its last digit,
/// then that digit.
pub proof fn law_decimal_is_digit_by_digit(n: nat, digit: nat)
    requires
        digit < 10,
    ensures
        decimal(digit) == seq![(48 + digit) as char],
        n > 0 ==> decimal(10 * n + digit) == decimal(n) + decimal(digit),
{
    reveal_strlit("0123456789");
    let digits = "0123456789"@;
    assert(digits[0] == 48 as char && digits[1] == 49 as char && digits[2] == 50 as char
        && digits[3] == 51 as char && digits[4] == 52 as char && digits[5] == 53 as char
        && digits[6] == 54 as char && digits[7] == 55 as char && digits[8] == 56 as char
        && digits[9] == 57 as char);
    if n > 0 {
        let m = 10 * n + digit;
        assert(m / 10 == n && m % 10 == digit);
        assert(decimal(m) =~= decimal(n) + decimal(digit));
    }
}

/// A part occurs in a text if and only if the text is that part with something before and something
/// behind it, either of which may be empty.
pub proof fn law_occurring_is_standing_between(part: Seq<char>, all: Seq<char>)
    ensures
        occurs_in(part, all) <==> exists|before: Seq<char>, behind: Seq<char>|
            all == #[trigger] (before + part + behind),
{
    if occurs_in(part, all) {
        let i = choose|i: int|
            0 <= i && i + part.len() <= all.len() && #[trigger] all.subrange(i, i + part.len())
                == part;
        assert(all =~= all.take(i) + part + all.skip(i + part.len()));
    }
    if exists|before: Seq<char>, behind: Seq<char>| all == #[trigger] (before + part + behind) {
        let (before, behind) = choose|before: Seq<char>, behind: Seq<char>|
            all == #[trigger] (before + part + behind);
        let at = before.len() as int;
        assert(all.subrange(at, at + part.len()) =~= part);
    }
}

} // verus!
