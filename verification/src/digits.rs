//! Specification-level machinery for decimal text: the digit characters
//! of a number, the number a digit string denotes, comma grouping of a
//! digit string, and the position of the first full stop in a text.
//!
//! These spec functions give the currency type's parsing and formatting
//! their exact contracts, and the lemmas here tie the two directions
//! together.

use vstd::prelude::*;

verus! {

/// Whether a character is a decimal digit: its code point lies between
/// those of '0' and '9'.
pub open spec fn is_digit(c: char) -> bool {
    48 <= c as u32 && c as u32 <= 57
}

/// The numeric value of a digit character.
pub open spec fn digit_val(c: char) -> int {
    c as u32 - 48
}

/// The digit character for a value below ten.
pub open spec fn digit_char(d: int) -> char {
    if d == 0 {
        '0'
    } else if d == 1 {
        '1'
    } else if d == 2 {
        '2'
    } else if d == 3 {
        '3'
    } else if d == 4 {
        '4'
    } else if d == 5 {
        '5'
    } else if d == 6 {
        '6'
    } else if d == 7 {
        '7'
    } else if d == 8 {
        '8'
    } else {
        '9'
    }
}

/// The decimal digit characters of a non-negative number, most
/// significant first, with no leading zeros (zero itself is "0").
pub open spec fn digits_of(n: nat) -> Seq<char>
    decreases n,
{
    if n < 10 {
        seq![digit_char(n as int)]
    } else {
        digits_of(n / 10).push(digit_char((n % 10) as int))
    }
}

/// Whether every character of a text is a decimal digit.
pub open spec fn all_digits(s: Seq<char>) -> bool {
    forall|i: int| 0 <= i < s.len() ==> is_digit(#[trigger] s[i])
}

/// The number denoted by a digit string, read most significant first.
pub open spec fn parse_digits(s: Seq<char>) -> int
    decreases s.len(),
{
    if s.len() == 0 {
        0
    } else {
        parse_digits(s.drop_last()) * 10 + digit_val(s.last())
    }
}

/// A digit string with a comma inserted between each group of three
/// digits, counted from the least significant end.
pub open spec fn group_digits(s: Seq<char>) -> Seq<char>
    decreases s.len(),
{
    if s.len() <= 3 {
        s
    } else {
        group_digits(s.subrange(0, s.len() - 3)) + seq![','] + s.subrange(
            s.len() - 3,
            s.len() as int,
        )
    }
}

/// A text with every comma removed.
pub open spec fn remove_commas(s: Seq<char>) -> Seq<char> {
    s.filter(|c: char| c != ',')
}

/// The index of the first full stop in a text, or -1 if there is none.
pub open spec fn first_dot(s: Seq<char>) -> int
    decreases s.len(),
{
    if s.len() == 0 {
        -1
    } else if s[0] == '.' {
        0
    } else if first_dot(s.subrange(1, s.len() as int)) == -1 {
        -1
    } else {
        1 + first_dot(s.subrange(1, s.len() as int))
    }
}

/// A digit character below ten round-trips through its numeric value.
pub proof fn lemma_digit_char_val(d: int)
    requires
        0 <= d < 10,
    ensures
        is_digit(digit_char(d)),
        digit_val(digit_char(d)) == d,
{
}

/// The digit characters of a number are all digits, there is at least
/// one of them, and reading them back yields the number.
pub proof fn lemma_digits_of_correct(n: nat)
    ensures
        all_digits(digits_of(n)),
        digits_of(n).len() >= 1,
        parse_digits(digits_of(n)) == n,
    decreases n,
{
    if n < 10 {
        lemma_digit_char_val(n as int);
        assert(digits_of(n) =~= seq![digit_char(n as int)]);
        assert(digits_of(n).drop_last() =~= Seq::<char>::empty());
        reveal_with_fuel(parse_digits, 2);
    } else {
        lemma_digits_of_correct(n / 10);
        lemma_digit_char_val((n % 10) as int);
        let prefix = digits_of(n / 10);
        let whole = prefix.push(digit_char((n % 10) as int));
        assert(whole.drop_last() =~= prefix);
        assert(parse_digits(whole) == parse_digits(prefix) * 10 + (n % 10) as int);
        vstd::arithmetic::div_mod::lemma_fundamental_div_mod(n as int, 10);
        assert(forall|i: int|
            0 <= i < whole.len() ==> is_digit(#[trigger] whole[i]) == if i < prefix.len() {
                is_digit(prefix[i])
            } else {
                is_digit(digit_char((n % 10) as int))
            });
    }
}

/// Every character of a grouped digit string is a digit or a comma.
pub proof fn lemma_group_digits_chars(s: Seq<char>)
    requires
        all_digits(s),
    ensures
        forall|i: int|
            0 <= i < group_digits(s).len() ==> is_digit(#[trigger] group_digits(s)[i])
                || group_digits(s)[i] == ',',
    decreases s.len(),
{
    if s.len() > 3 {
        let head = s.subrange(0, s.len() - 3);
        let tail = s.subrange(s.len() - 3, s.len() as int);
        lemma_group_digits_chars(head);
        let g = group_digits(head);
        assert(group_digits(s) =~= g + seq![','] + tail);
        assert(forall|i: int|
            0 <= i < group_digits(s).len() ==> #[trigger] group_digits(s)[i] == if i < g.len() {
                g[i]
            } else if i == g.len() {
                ','
            } else {
                tail[i - g.len() - 1]
            });
    }
}

/// Removing the commas of a grouped digit string yields the digit string
/// back.
pub proof fn lemma_group_digits_remove_commas(s: Seq<char>)
    requires
        all_digits(s),
    ensures
        remove_commas(group_digits(s)) == s,
    decreases s.len(),
{
    broadcast use vstd::seq_lib::group_filter_ensures;

    let pred = |c: char| c != ',';
    if s.len() <= 3 {
        lemma_all_digits_filter_id(s);
    } else {
        let head = s.subrange(0, s.len() - 3);
        let tail = s.subrange(s.len() - 3, s.len() as int);
        lemma_group_digits_remove_commas(head);
        Seq::filter_distributes_over_add(group_digits(head), seq![','] + tail, pred);
        Seq::filter_distributes_over_add(seq![','], tail, pred);
        assert(seq![','].filter(pred) =~= Seq::<char>::empty()) by {
            reveal_with_fuel(Seq::filter, 2);
            assert(seq![','].drop_last() =~= Seq::<char>::empty());
        }
        lemma_all_digits_filter_id(tail);
        assert(group_digits(s) =~= group_digits(head) + (seq![','] + tail));
        assert(remove_commas(group_digits(s)) =~= head + tail);
        assert(head + tail =~= s);
    }
}

/// Filtering out commas from an all-digit text changes nothing.
proof fn lemma_all_digits_filter_id(s: Seq<char>)
    requires
        all_digits(s),
    ensures
        s.filter(|c: char| c != ',') == s,
    decreases s.len(),
{
    reveal_with_fuel(Seq::filter, 1);
    if s.len() == 0 {
        assert(s.filter(|c: char| c != ',') =~= s);
    } else {
        lemma_all_digits_filter_id(s.drop_last());
        assert(is_digit(s.last()));
        assert(s.drop_last().filter(|c: char| c != ',').push(s.last()) =~= s);
    }
}

/// Removing commas from an empty text yields an empty text.
pub proof fn lemma_remove_commas_empty()
    ensures
        remove_commas(Seq::<char>::empty()) == Seq::<char>::empty(),
{
    reveal_with_fuel(Seq::filter, 1);
    assert(remove_commas(Seq::<char>::empty()) =~= Seq::<char>::empty());
}

/// Removing commas commutes with appending one character.
pub proof fn lemma_remove_commas_push(s: Seq<char>, c: char)
    ensures
        remove_commas(s.push(c)) == if c != ',' {
            remove_commas(s).push(c)
        } else {
            remove_commas(s)
        },
{
    s.lemma_filter_push(c, |x: char| x != ',');
}

/// Removing commas distributes over concatenation.
pub proof fn lemma_remove_commas_add(a: Seq<char>, b: Seq<char>)
    ensures
        remove_commas(a + b) == remove_commas(a) + remove_commas(b),
{
    Seq::filter_distributes_over_add(a, b, |x: char| x != ',');
}

/// What the first-dot position means: -1 exactly when the text holds no
/// full stop, otherwise the position of the first one.
pub proof fn lemma_first_dot(s: Seq<char>)
    ensures
        first_dot(s) == -1 ==> forall|i: int| 0 <= i < s.len() ==> s[i] != '.',
        first_dot(s) >= 0 ==> 0 <= first_dot(s) < s.len() && s[first_dot(s)] == '.' && forall|
            i: int,
        | 0 <= i < first_dot(s) ==> s[i] != '.',
        first_dot(s) >= -1,
    decreases s.len(),
{
    if s.len() == 0 {
    } else if s[0] == '.' {
    } else {
        let rest = s.subrange(1, s.len() as int);
        lemma_first_dot(rest);
        assert(forall|i: int| 1 <= i < s.len() ==> s[i] == rest[i - 1]);
    }
}

/// Reading one more digit multiplies the value so far by ten and adds
/// that digit.
pub proof fn lemma_parse_digits_push(s: Seq<char>, c: char)
    ensures
        parse_digits(s.push(c)) == parse_digits(s) * 10 + digit_val(c),
{
    assert(s.push(c).drop_last() =~= s);
}

/// The value of a digit string is non-negative.
pub proof fn lemma_parse_digits_nonneg(s: Seq<char>)
    requires
        all_digits(s),
    ensures
        parse_digits(s) >= 0,
    decreases s.len(),
{
    if s.len() > 0 {
        lemma_parse_digits_nonneg(s.drop_last());
        assert(is_digit(s.last()));
    }
}

/// A digit string's value never shrinks as more digits are read: the
/// value of any prefix is at most the value of the whole.
pub proof fn lemma_parse_digits_prefix_le(s: Seq<char>, i: int)
    requires
        all_digits(s),
        0 <= i <= s.len(),
    ensures
        parse_digits(s.subrange(0, i)) <= parse_digits(s),
    decreases s.len() - i,
{
    if i < s.len() {
        let p = s.subrange(0, i);
        let q = s.subrange(0, i + 1);
        assert(q.drop_last() =~= p);
        assert(is_digit(s[i]));
        lemma_parse_digits_nonneg(p);
        assert(parse_digits(q) == parse_digits(p) * 10 + digit_val(s[i]));
        lemma_parse_digits_prefix_le(s, i + 1);
    } else {
        assert(s.subrange(0, i) =~= s);
    }
}

} // verus!
