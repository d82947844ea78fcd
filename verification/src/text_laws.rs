//! What reading texts promises, character by character.

use crate::text::{
    all_digits, decimal, digits_fault, digits_value, first_at, holds_text, is_digit, is_white,
    law_fault_or_number, lemma_decimal, lemma_first_at, lemma_first_at_is, lines, lines_of,
    number_fault, parse_number, parts, push_decimal, same_text, split, split_once, stands_at,
    starts_with, trim, trimmed, trimmed_end, trimmed_start, views, white, without_plus, word,
    word_prefix, NumberFault,
};
use vstd::prelude::*;

verus! {

/// All of the text is white space.
pub open spec fn all_white(s: Seq<char>) -> bool {
    forall|i: int| 0 <= i < s.len() ==> is_white(#[trigger] s[i])
}

/// Spaces, tabs and the ends of lines are white space; signs, digits and letters are not.
pub proof fn law_spaces_and_line_ends_are_white(c: char, blank: bool)
    requires
        call_ensures(white, (c,), blank),
    ensures
        c == ' ' || c == '\t' || c == '\n' || c == '\r' ==> blank,
        0x21 <= c as int <= 0x7e ==> !blank,
        0x400 <= c as int <= 0x4ff ==> !blank,
{
}

pub proof fn lemma_trimmed_start(s: Seq<char>) -> (n: int)
    ensures
        0 <= n <= s.len(),
        trimmed_start(s) == s.skip(n),
        all_white(s.take(n)),
        n < s.len() ==> !is_white(s[n]),
    decreases s.len(),
{
    if s.len() > 0 && is_white(s[0]) {
        let n = lemma_trimmed_start(s.drop_first());
        assert(s.drop_first().skip(n) =~= s.skip(n + 1));
        assert forall|i: int| 0 <= i < n + 1 implies is_white(#[trigger] s.take(n + 1)[i]) by {
            if i > 0 {
                assert(s.drop_first().take(n)[i - 1] == s[i]);
            }
        }
        n + 1
    } else {
        assert(s.skip(0) =~= s);
        0
    }
}

pub proof fn lemma_trimmed_end(s: Seq<char>) -> (n: int)
    ensures
        0 <= n <= s.len(),
        trimmed_end(s) == s.take(n),
        all_white(s.skip(n)),
        n > 0 ==> !is_white(s[n - 1]),
    decreases s.len(),
{
    if s.len() > 0 && is_white(s.last()) {
        let t = s.drop_last();
        let n = lemma_trimmed_end(t);
        assert(t.take(n) =~= s.take(n));
        assert forall|i: int| 0 <= i < s.skip(n).len() implies is_white(#[trigger] s.skip(n)[i]) by {
            if i < t.skip(n).len() {
                assert(t.skip(n)[i] == s.skip(n)[i]);
            }
        }
        n
    } else {
        assert(s.take(s.len() as int) =~= s);
        s.len() as int
    }
}

/// A text that neither starts nor ends with white space stays as it is.
pub proof fn lemma_trimmed_same(s: Seq<char>)
    requires
        s.len() > 0 ==> !is_white(s[0]) && !is_white(s.last()),
    ensures
        trimmed(s) == s,
{
}

/// Trimming takes white space off both ends, all of it and nothing else.
pub proof fn law_trimming_takes_off_white_space_alone(s: &str, out: &str)
    requires
        call_ensures(trim, (s,), out),
    ensures
        exists|a: Seq<char>, b: Seq<char>|
            all_white(a) && all_white(b) && s@ == #[trigger] (a + out@ + b),
        out@.len() > 0 ==> !is_white(out@[0]) && !is_white(out@.last()),
{
    let n = lemma_trimmed_start(s@);
    let t = s@.skip(n);
    let m = lemma_trimmed_end(t);
    let (a, b) = (s@.take(n), t.skip(m));
    assert(a + out@ + b =~= s@);
    if m > 0 {
        assert(out@[0] == s@[n]);
        assert(out@.last() == t[m - 1]);
    }
}

/// The parts with the separator between them.
pub open spec fn with_between(ps: Seq<Seq<char>>, separator: char) -> Seq<char>
    decreases ps.len(),
{
    if ps.len() == 0 {
        Seq::empty()
    } else if ps.len() == 1 {
        ps[0]
    } else {
        ps[0] + seq![separator] + with_between(ps.skip(1), separator)
    }
}

/// Splitting a text loses nothing: with the separator between them the parts are the text again,
/// and no part holds the separator. So there is one part more than separators.
pub proof fn law_parts_make_up_the_text(s: &str, separator: char, out: Vec<&str>, i: int)
    requires
        call_ensures(split, (s, separator), out),
        0 <= i < out@.len(),
    ensures
        out@.len() > 0,
        with_between(views(out@), separator) == s@,
        !out@[i]@.contains(separator),
{
    lemma_parts(s@, separator);
    assert(views(out@)[i] == out@[i]@);
}

pub proof fn lemma_parts(s: Seq<char>, separator: char)
    ensures
        parts(s, separator).len() > 0,
        with_between(parts(s, separator), separator) == s,
        forall|i: int|
            0 <= i < parts(s, separator).len() ==> !(#[trigger] parts(s, separator)[i]).contains(
                separator,
            ),
    decreases s.len(),
{
    let n = first_at(s, separator);
    lemma_first_at(s, separator);
    if n < s.len() {
        let rest = parts(s.skip(n + 1), separator);
        lemma_parts(s.skip(n + 1), separator);
        let all = parts(s, separator);
        assert(all.skip(1) =~= rest);
        assert(s.take(n) + seq![separator] + s.skip(n + 1) =~= s);
        assert forall|i: int| 0 <= i < all.len() implies !(#[trigger] all[i]).contains(separator) by {
            if i > 0 {
                assert(all[i] == rest[i - 1]);
            }
        }
    }
}

/// A text is split in two at the first separator, if it holds one.
pub proof fn law_a_text_is_split_at_the_first_separator(
    s: &str,
    c: char,
    split: Option<(&str, &str)>,
)
    requires
        call_ensures(split_once, (s, c), split),
    ensures
        split is Some <==> s@.contains(c),
        split matches Some((a, b)) ==> s@ == a@ + seq![c] + b@ && !a@.contains(c),
{
    let n = first_at(s@, c);
    lemma_first_at(s@, c);
    if s@.contains(c) {
        let i = choose|i: int| 0 <= i < s@.len() && s@[i] == c;
        assert(n <= i);
    }
    if let Some((a, b)) = split {
        assert(a@ + seq![c] + b@ =~= s@);
        assert(s@[n] == c);
    }
}

/// A line ends with a line feed, with or without a carriage return before it; what follows is read
/// by itself. A last line without an end is a line too, and an empty text has none.
pub proof fn law_lines_end_with_line_feeds(a: Seq<char>, rest: Seq<char>)
    requires
        !a.contains('\n'),
    ensures
        a.len() == 0 || a.last() != '\r' ==> lines_of(a + seq!['\n'] + rest) == seq![a] + lines_of(
            rest,
        ),
        lines_of(a + seq!['\r', '\n'] + rest) == seq![a] + lines_of(rest),
        a.len() > 0 ==> lines_of(a) == seq![a],
        lines_of(Seq::empty()) == Seq::<Seq<char>>::empty(),
{
    assert forall|i: int| 0 <= i < a.len() implies a[i] != '\n' by {
        assert(a.contains(a[i]));
    }
    let s = a + seq!['\n'] + rest;
    lemma_first_at_is(s, '\n', a.len() as int);
    assert(s.take(a.len() as int) =~= a);
    assert(s.skip(a.len() as int + 1) =~= rest);
    let b = a.push('\r');
    let t = a + seq!['\r', '\n'] + rest;
    lemma_first_at_is(t, '\n', b.len() as int);
    assert(t.take(b.len() as int) =~= b);
    assert(b.drop_last() =~= a);
    assert(t.skip(b.len() as int + 1) =~= rest);
    lemma_first_at_is(a, '\n', a.len() as int);
}

/// A number is read back from its digits, with zeros or a plus sign before them, if it is not above
/// the bound.
pub proof fn law_numbers_are_read(text: &str, max: u64, n: Option<u64>, value: nat, zeros: Seq<char>)
    requires
        call_ensures(parse_number, (text, max), n),
        forall|i: int| 0 <= i < zeros.len() ==> #[trigger] zeros[i] == '0',
        text@ == zeros + decimal(value) || text@ == seq!['+'] + zeros + decimal(value),
    ensures
        n is Some <==> value <= max,
        n matches Some(x) ==> x == value,
{
    let d = zeros + decimal(value);
    lemma_decimal(value);
    lemma_zeros(zeros, decimal(value));
    assert(is_digit(d[0])) by {
        if zeros.len() > 0 {
            assert(zeros[0] == '0');
        } else {
            assert(is_digit(decimal(value)[0]));
        }
    }
    if text@ == seq!['+'] + zeros + decimal(value) {
        assert(text@.drop_first() =~= d);
    }
    assert(without_plus(text@) =~= d);
}

proof fn lemma_zeros(zeros: Seq<char>, d: Seq<char>)
    requires
        forall|i: int| 0 <= i < zeros.len() ==> #[trigger] zeros[i] == '0',
        all_digits(d),
    ensures
        all_digits(zeros + d),
        digits_value(zeros + d) == digits_value(d),
    decreases d.len(),
{
    let s = zeros + d;
    assert forall|i: int| 0 <= i < s.len() implies is_digit(#[trigger] s[i]) by {
        if i < zeros.len() {
            assert(zeros[i] == '0');
        } else {
            assert(is_digit(d[i - zeros.len()]));
        }
    }
    if d.len() > 0 {
        assert(s.drop_last() =~= zeros + d.drop_last());
        assert(all_digits(d.drop_last())) by {
            assert forall|i: int| 0 <= i < d.drop_last().len() implies is_digit(
                #[trigger] d.drop_last()[i],
            ) by {
                assert(is_digit(d[i]));
            }
        }
        lemma_zeros(zeros, d.drop_last());
    } else {
        assert(s =~= zeros);
        lemma_all_zero(zeros);
    }
}

proof fn lemma_all_zero(zeros: Seq<char>)
    requires
        forall|i: int| 0 <= i < zeros.len() ==> #[trigger] zeros[i] == '0',
    ensures
        digits_value(zeros) == 0,
    decreases zeros.len(),
{
    if zeros.len() > 0 {
        assert forall|i: int| 0 <= i < zeros.drop_last().len() implies #[trigger] zeros.drop_last()[i]
            == '0' by {
            assert(zeros[i] == '0');
        }
        lemma_all_zero(zeros.drop_last());
        assert(zeros[zeros.len() - 1] == '0');
    }
}

/// A text that holds anything else than digits behind a plus sign, or nothing, is no number.
pub proof fn law_other_texts_are_no_numbers(text: &str, max: u64, n: Option<u64>, i: int)
    requires
        call_ensures(parse_number, (text, max), n),
        text@.len() == 0 || (0 <= i < text@.len() && !('0' <= text@[i] <= '9') && (i > 0 || text@[0]
            != '+')),
    ensures
        n is None,
{
    let d = without_plus(text@);
    if text@.len() > 0 && n is Some {
        if text@[0] == '+' {
            assert(d[i - 1] == text@[i]);
            assert(is_digit(d[i - 1]));
        } else {
            assert(is_digit(d[i]));
        }
    }
}

/// A number is written with its digits, the highest first: the last one is its remainder by ten,
/// and those before it are its tenth part.
pub proof fn law_numbers_are_written_in_tens(n: nat)
    ensures
        n < 10 ==> decimal(n).len() == 1 && decimal(n)[0] as int == '0' as int + n,
        n >= 10 ==> decimal(n).drop_last() == decimal(n / 10) && decimal(n).last() as int
            == '0' as int + n % 10,
{
    lemma_decimal(n);
    let d = decimal(n);
    if n >= 10 {
        assert(d =~= decimal(n / 10).push(d.last()));
        lemma_decimal(n / 10);
    } else {
        reveal_with_fuel(digits_value, 2);
        assert(is_digit(d[0]));
    }
}

/// A number is appended to a text, and what stood there before stays.
pub proof fn law_a_number_is_appended(n: u64)
    ensures
        forall|out: &mut String| #[trigger]
            call_ensures(push_decimal, (out, n), ()) ==> final(out)@ == (*out)@ + decimal(n as nat),
{
}

/// The first word of a text stands between white space and holds none.
pub proof fn law_a_word_ends_at_white_space(s: &str, out: &str)
    requires
        call_ensures(word, (s,), out),
    ensures
        exists|a: Seq<char>, b: Seq<char>|
            all_white(a) && (b.len() == 0 || is_white(b[0])) && s@ == #[trigger] (a + out@ + b),
        forall|i: int| 0 <= i < out@.len() ==> !is_white(#[trigger] out@[i]),
{
    let n = lemma_trimmed_start(s@);
    let t = s@.skip(n);
    let m = lemma_word_prefix(t);
    assert(s@.take(n) + out@ + t.skip(m) =~= s@);
}

pub proof fn lemma_word_prefix(s: Seq<char>) -> (n: int)
    ensures
        0 <= n <= s.len(),
        word_prefix(s) == s.take(n),
        forall|i: int| 0 <= i < n ==> !is_white(#[trigger] s[i]),
        n < s.len() ==> is_white(s[n]),
    decreases s.len(),
{
    if s.len() == 0 || is_white(s[0]) {
        assert(s.take(0) =~= Seq::<char>::empty());
        0
    } else {
        let n = lemma_word_prefix(s.drop_first());
        assert(seq![s[0]] + s.drop_first().take(n) =~= s.take(n + 1));
        assert forall|i: int| 0 <= i < n + 1 implies !is_white(#[trigger] s[i]) by {
            if i > 0 {
                assert(!is_white(s.drop_first()[i - 1]));
            }
        }
        n + 1
    }
}

/// Lines are read as they stand in the text.
pub proof fn law_lines_are_those_of_the_text(s: &str, out: Vec<&str>)
    requires
        call_ensures(lines, (s,), out),
    ensures
        views(out@) == lines_of(s@),
{
}

/// A text that is no number has a fault, and no other has: an empty one is empty, one of digits
/// alone is too large, and a single character that is no digit is none.
pub proof fn law_a_text_that_is_no_number_has_a_fault(
    text: &str,
    max: u64,
    n: Option<u64>,
    fault: Option<NumberFault>,
)
    requires
        call_ensures(parse_number, (text, max), n),
        call_ensures(number_fault, (text, max), fault),
    ensures
        n is Some <==> fault is None,
        text@.len() == 0 <==> fault == Some(NumberFault::Empty),
        all_digits(text@) && fault is Some && text@.len() > 0 ==> fault == Some(NumberFault::TooLarge),
        text@.len() == 1 && !is_digit(text@[0]) ==> fault == Some(NumberFault::Digit),
{
    law_fault_or_number(text@, max as nat);
    lemma_faults(without_plus(text@), max as nat);
    lemma_faults(text@, max as nat);
    if text@.len() == 1 {
        assert(text@.drop_last() =~= Seq::<char>::empty());
        assert(text@.last() == text@[0]);
        reveal_with_fuel(digits_fault, 2);
    }
    if all_digits(text@) && text@.len() > 0 {
        assert(is_digit(text@[0]));
    }
}

proof fn lemma_faults(d: Seq<char>, max: nat)
    ensures
        digits_fault(d, max) != Some(NumberFault::Empty),
        all_digits(d) ==> digits_fault(d, max) != Some(NumberFault::Digit),
    decreases d.len(),
{
    if d.len() > 0 {
        if all_digits(d) {
            assert(is_digit(d[d.len() - 1]));
            assert forall|i: int| 0 <= i < d.drop_last().len() implies is_digit(
                #[trigger] d.drop_last()[i],
            ) by {
                assert(d.drop_last()[i] == d[i]);
            }
        }
        lemma_faults(d.drop_last(), max);
    }
}

/// Texts are compared character by character; one starts with another, or holds it, where its
/// characters stand.
pub proof fn law_texts_are_compared_by_their_characters(
    a: &str,
    b: &str,
    same: bool,
    starts_so: bool,
    held: bool,
    front: Seq<char>,
    rest: Seq<char>,
)
    requires
        call_ensures(same_text, (a, b), same),
        call_ensures(starts_with, (a, b), starts_so),
        call_ensures(holds_text, (a, b), held),
    ensures
        same <==> a@ == b@,
        a@ == b@ + rest ==> starts_so,
        starts_so ==> a@ == b@ + a@.skip(b@.len() as int),
        a@ == front + b@ + rest ==> held,
        held ==> exists|n: int| 0 <= n && n + b@.len() <= a@.len() && #[trigger] a@.subrange(
            n,
            n + b@.len(),
        ) == b@,
{
    if a@ == b@ + rest {
        assert(a@.take(b@.len() as int) =~= b@);
    }
    if starts_so {
        assert(a@ =~= b@ + a@.skip(b@.len() as int));
    }
    if a@ == front + b@ + rest {
        let n = front.len() as int;
        assert(a@.subrange(n, n + b@.len()) =~= b@);
        assert(stands_at(a@, b@, n));
    }
    if held {
        let n = choose|n: int| stands_at(a@, b@, n);
        assert(a@.subrange(n, n + b@.len()) =~= b@);
    }
}

} // verus!
