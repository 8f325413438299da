//! Text: decimal numerals, concatenation, prefixes and ordering.

use vstd::prelude::*;
use vstd::string::*;

verus! {

/// The decimal digit that stands for `d`.
pub open spec fn digit_char(d: nat) -> char {
    if d == 0 { '0' }
    else if d == 1 { '1' }
    else if d == 2 { '2' }
    else if d == 3 { '3' }
    else if d == 4 { '4' }
    else if d == 5 { '5' }
    else if d == 6 { '6' }
    else if d == 7 { '7' }
    else if d == 8 { '8' }
    else { '9' }
}

/// The decimal numeral of `n`, without leading zeros.
pub open spec fn decimal_text(n: nat) -> Seq<char>
    decreases n,
{
    if n < 10 {
        seq![digit_char(n)]
    } else {
        decimal_text(n / 10).push(digit_char(n % 10))
    }
}

fn digit(d: u128) -> (text: &'static str)
    requires
        d < 10,
    ensures
        text@ =~= seq![digit_char(d as nat)],
{
    proof {
        reveal_strlit("0");
        reveal_strlit("1");
        reveal_strlit("2");
        reveal_strlit("3");
        reveal_strlit("4");
        reveal_strlit("5");
        reveal_strlit("6");
        reveal_strlit("7");
        reveal_strlit("8");
        reveal_strlit("9");
    }
    if d == 0 { "0" }
    else if d == 1 { "1" }
    else if d == 2 { "2" }
    else if d == 3 { "3" }
    else if d == 4 { "4" }
    else if d == 5 { "5" }
    else if d == 6 { "6" }
    else if d == 7 { "7" }
    else if d == 8 { "8" }
    else { "9" }
}

/// Writes `n` as a decimal numeral.
pub fn decimal(n: u128) -> (text: String)
    ensures
        text@ == decimal_text(n as nat),
    decreases n,
{
    if n < 10 {
        digit(n).to_owned()
    } else {
        let mut text = decimal(n / 10);
        text.append(digit(n % 10));
        assert(text@ =~= decimal_text(n as nat));
        text
    }
}

/// Joins two texts.
pub fn join(first: &str, second: &str) -> (text: String)
    ensures
        text@ == first@ + second@,
{
    let mut text = first.to_owned();
    text.append(second);
    text
}

/// The characters of a text.
pub fn characters(text: &str) -> (out: Vec<char>)
    ensures
        out@ == text@,
{
    let mut out: Vec<char> = Vec::new();
    for c in it: text.chars()
        invariant
            out@ == it.seq().take(it.index() as int),
            it.seq() == text@,
    {
        out.push(c);
        assert(out@ =~= it.seq().take(it.index() + 1));
    }
    assert(out@ =~= text@);
    out
}

/// Whether `text` begins with `prefix`.
pub open spec fn begins_with(text: Seq<char>, prefix: Seq<char>) -> bool {
    prefix.len() <= text.len() && text.take(prefix.len() as int) == prefix
}

fn matches_at(text: &Vec<char>, at: usize, part: &Vec<char>) -> (found: bool)
    requires
        at + part@.len() <= text.len(),
    ensures
        found == (text@.subrange(at as int, at + part@.len()) == part@),
{
    let mut i: usize = 0;
    while i < part.len()
        invariant
            at + part@.len() <= text.len(),
            i <= part@.len(),
            forall|j: int| 0 <= j < i ==> text@[at + j] == part@[j],
        decreases part@.len() - i,
    {
        if text[at + i] != part[i] {
            assert(text@.subrange(at as int, at + part@.len())[i as int] != part@[i as int]);
            return false;
        }
        i += 1;
    }
    assert(text@.subrange(at as int, at + part@.len()) =~= part@);
    true
}

/// Whether `text` begins with `prefix`.
pub fn starts_with(text: &str, prefix: &str) -> (found: bool)
    ensures
        found == begins_with(text@, prefix@),
{
    let text_chars = characters(text);
    let prefix_chars = characters(prefix);
    if prefix_chars.len() > text_chars.len() {
        return false;
    }
    assert(text@.take(prefix@.len() as int) =~= text@.subrange(0, prefix@.len() as int));
    matches_at(&text_chars, 0, &prefix_chars)
}

/// Whether `part` occurs in `text` at position `at`.
pub open spec fn occurs_at(text: Seq<char>, part: Seq<char>, at: int) -> bool {
    0 <= at && at + part.len() <= text.len() && text.subrange(at, at + part.len()) == part
}

/// Whether `part` occurs in `text`.
pub open spec fn occurs_in(text: Seq<char>, part: Seq<char>) -> bool {
    exists|at: int| occurs_at(text, part, at)
}

/// Whether `part` occurs in `text`.
pub fn contains(text: &str, part: &str) -> (found: bool)
    ensures
        found == occurs_in(text@, part@),
{
    let text_chars = characters(text);
    let part_chars = characters(part);
    if part_chars.len() > text_chars.len() {
        return false;
    }
    let last: usize = text_chars.len() - part_chars.len();
    let mut at: usize = 0;
    loop
        invariant
            text_chars@ == text@,
            part_chars@ == part@,
            last + part@.len() == text@.len(),
            at <= last,
            forall|k: int| 0 <= k < at ==> !occurs_at(text@, part@, k),
        decreases last - at,
    {
        if matches_at(&text_chars, at, &part_chars) {
            assert(occurs_at(text@, part@, at as int));
            return true;
        }
        assert(!occurs_at(text@, part@, at as int));
        if at == last {
            assert(forall|k: int| !occurs_at(text@, part@, k));
            return false;
        }
        at += 1;
    }
}

/// Whether `first` comes before `second` in code-point order.
pub open spec fn text_before(first: Seq<char>, second: Seq<char>) -> bool
    decreases second.len(),
{
    if second.len() == 0 {
        false
    } else if first.len() == 0 {
        true
    } else if first[0] != second[0] {
        (first[0] as int) < (second[0] as int)
    } else {
        text_before(first.drop_first(), second.drop_first())
    }
}

/// `text_before` is irreflexive.
pub proof fn lemma_text_before_irreflexive(text: Seq<char>)
    ensures
        !text_before(text, text),
    decreases text.len(),
{
    if text.len() > 0 {
        lemma_text_before_irreflexive(text.drop_first());
    }
}

/// `text_before` is transitive.
pub proof fn lemma_text_before_transitive(first: Seq<char>, second: Seq<char>, third: Seq<char>)
    requires
        text_before(first, second),
        text_before(second, third),
    ensures
        text_before(first, third),
    decreases third.len(),
{
    if first.len() > 0 && first[0] == second[0] && second[0] == third[0] {
        lemma_text_before_transitive(first.drop_first(), second.drop_first(), third.drop_first());
    }
}

/// Of two different texts one comes before the other.
pub proof fn lemma_text_before_total(first: Seq<char>, second: Seq<char>)
    ensures
        text_before(first, second) || text_before(second, first) || first == second,
    decreases second.len(),
{
    if first.len() == 0 {
        if second.len() == 0 {
            assert(first =~= second);
        }
    } else if second.len() > 0 && first[0] == second[0] {
        lemma_text_before_total(first.drop_first(), second.drop_first());
        if first.drop_first() == second.drop_first() {
            assert(first =~= seq![first[0]] + first.drop_first());
            assert(second =~= seq![second[0]] + second.drop_first());
        }
    }
}

fn code_point(c: char) -> (code: u32)
    ensures
        code == c as int,
{
    c as u32
}

/// Whether `first` comes before `second` in code-point order.
pub fn comes_before(first: &str, second: &str) -> (before: bool)
    ensures
        before == text_before(first@, second@),
{
    let a = characters(first);
    let b = characters(second);
    assert(first@.skip(0) =~= first@);
    assert(second@.skip(0) =~= second@);
    let mut i: usize = 0;
    while i < b.len()
        invariant
            a@ == first@,
            b@ == second@,
            i <= b@.len(),
            i <= a@.len(),
            text_before(first@, second@) == text_before(
                first@.skip(i as int),
                second@.skip(i as int),
            ),
        decreases b@.len() - i,
    {
        if i == a.len() {
            return true;
        }
        if a[i] != b[i] {
            assert(first@.skip(i as int)[0] == a@[i as int]);
            assert(second@.skip(i as int)[0] == b@[i as int]);
            return code_point(a[i]) < code_point(b[i]);
        }
        assert(first@.skip(i as int).drop_first() =~= first@.skip(i + 1));
        assert(second@.skip(i as int).drop_first() =~= second@.skip(i + 1));
        i += 1;
    }
    false
}

/// Numerals of different numbers differ.
pub proof fn lemma_decimal_injective(a: nat, b: nat)
    requires
        decimal_text(a) == decimal_text(b),
    ensures
        a == b,
    decreases a + b,
{
    assert(decimal_text(a).len() >= 1) by {
        lemma_decimal_nonempty(a);
    }
    if a < 10 && b < 10 {
        assert(decimal_text(a)[0] == digit_char(a));
        assert(decimal_text(b)[0] == digit_char(b));
    } else if a >= 10 && b >= 10 {
        assert(decimal_text(a).drop_last() =~= decimal_text(a / 10));
        assert(decimal_text(b).drop_last() =~= decimal_text(b / 10));
        assert(decimal_text(a).last() == digit_char(a % 10));
        assert(decimal_text(b).last() == digit_char(b % 10));
        lemma_decimal_injective(a / 10, b / 10);
    } else {
        lemma_decimal_nonempty(a / 10);
        lemma_decimal_nonempty(b / 10);
        assert(decimal_text(a).len() == decimal_text(b).len());
    }
}

/// A numeral has at least one digit.
pub proof fn lemma_decimal_nonempty(n: nat)
    ensures
        decimal_text(n).len() >= 1,
    decreases n,
{
    if n >= 10 {
        lemma_decimal_nonempty(n / 10);
    }
}

} // verus!
