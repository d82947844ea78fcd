//! Text: numbers, spaces, lines and lists.

use vstd::prelude::*;
use vstd::string::*;

verus! {

/// The digit `d`.
pub open spec fn digit(d: nat) -> char {
    (48 + d) as char
}

/// A number in decimal.
pub open spec fn decimal(n: nat) -> Seq<char>
    decreases n,
{
    if n < 10 {
        seq![digit(n)]
    } else {
        decimal(n / 10).push(digit(n % 10))
    }
}

/// The character is a decimal digit.
pub open spec fn is_digit(c: char) -> bool {
    48 <= c as int <= 57
}

/// Every character is a decimal digit.
pub open spec fn all_digits(s: Seq<char>) -> bool {
    forall|i: int| 0 <= i < s.len() ==> is_digit(#[trigger] s[i])
}

/// The number that the digits make up.
pub open spec fn digits_value(s: Seq<char>) -> nat
    decreases s.len(),
{
    if s.len() == 0 {
        0
    } else {
        10 * digits_value(s.drop_last()) + (s.last() as int - 48) as nat
    }
}

/// The text without a leading plus sign.
pub open spec fn without_plus(s: Seq<char>) -> Seq<char> {
    if s.len() > 0 && s[0] == '+' {
        s.drop_first()
    } else {
        s
    }
}

/// The number from 0 to `max` that the text denotes: digits, with or without a plus sign before
/// them.
pub open spec fn number_in(s: Seq<char>, max: nat) -> Option<nat> {
    let d = without_plus(s);
    if d.len() > 0 && all_digits(d) && digits_value(d) <= max {
        Some(digits_value(d))
    } else {
        None
    }
}

/// White space (the Unicode property).
pub open spec fn is_white(c: char) -> bool {
    let n = c as int;
    9 <= n <= 13 || n == 0x20 || n == 0x85 || n == 0xa0 || n == 0x1680 || 0x2000 <= n <= 0x200a || n == 0x2028
        || n == 0x2029 || n == 0x202f || n == 0x205f || n == 0x3000
}

/// Without the white space at the beginning.
pub open spec fn trimmed_start(s: Seq<char>) -> Seq<char>
    decreases s.len(),
{
    if s.len() > 0 && is_white(s[0]) {
        trimmed_start(s.drop_first())
    } else {
        s
    }
}

/// Without the white space at the end.
pub open spec fn trimmed_end(s: Seq<char>) -> Seq<char>
    decreases s.len(),
{
    if s.len() > 0 && is_white(s.last()) {
        trimmed_end(s.drop_last())
    } else {
        s
    }
}

/// Without the white space at both ends.
pub open spec fn trimmed(s: Seq<char>) -> Seq<char> {
    trimmed_end(trimmed_start(s))
}

/// Where `c` first occurs, or the length of the text.
pub open spec fn first_at(s: Seq<char>, c: char) -> int
    decreases s.len(),
{
    if s.len() == 0 || s[0] == c {
        0
    } else {
        1 + first_at(s.drop_first(), c)
    }
}

/// The parts between the separators.
pub open spec fn parts(s: Seq<char>, separator: char) -> Seq<Seq<char>>
    decreases s.len(),
{
    let n = first_at(s, separator);
    if 0 <= n < s.len() {
        seq![s.take(n)] + parts(s.skip(n + 1), separator)
    } else {
        seq![s]
    }
}

/// A line without a carriage return at its end.
pub open spec fn without_return(s: Seq<char>) -> Seq<char> {
    if s.len() > 0 && s.last() == '\r' {
        s.drop_last()
    } else {
        s
    }
}

/// The lines: they end with a line feed, or a carriage return and a line feed; the end of the
/// last line is optional.
pub open spec fn lines_of(s: Seq<char>) -> Seq<Seq<char>>
    decreases s.len(),
{
    let n = first_at(s, '\n');
    if s.len() == 0 {
        Seq::empty()
    } else if 0 <= n < s.len() {
        seq![without_return(s.take(n))] + lines_of(s.skip(n + 1))
    } else {
        seq![s]
    }
}

/// `s` starts with `prefix`.
pub open spec fn starts(s: Seq<char>, prefix: Seq<char>) -> bool {
    s.len() >= prefix.len() && s.take(prefix.len() as int) == prefix
}

/// The characters of a text.
pub fn chars(s: &str) -> (out: Vec<char>)
    ensures
        out@ == s@,
{
    let mut out: Vec<char> = Vec::new();
    for c in iter: s.chars()
        invariant
            out@ == iter.seq().take(iter.index() as int),
            iter.seq() == s@,
    {
        out.push(c);
        assert(out@ =~= iter.seq().take(iter.index() + 1));
    }
    assert(out@ =~= s@);
    out
}

/// Appends a number in decimal.
pub fn push_decimal(out: &mut String, n: u64)
    ensures
        final(out)@ == old(out)@ + decimal(n as nat),
    decreases n,
{
    if n >= 10 {
        push_decimal(out, n / 10);
    }
    let d: u64 = n % 10;
    let text = if d == 0 {
        "0"
    } else if d == 1 {
        "1"
    } else if d == 2 {
        "2"
    } else if d == 3 {
        "3"
    } else if d == 4 {
        "4"
    } else if d == 5 {
        "5"
    } else if d == 6 {
        "6"
    } else if d == 7 {
        "7"
    } else if d == 8 {
        "8"
    } else {
        "9"
    };
    proof {
        reveal_strlit("0");
        reveal_strlit("1");
        reveal_strlit("2");
        reveal_strlit("3");
        reveal_strlit("4");
        reveal_strlit("5");
        reveal_strlit("6");
        reveal_strlit("7");
        reveal_strlit("8");
        reveal_strlit("9");
        assert(text@ =~= seq![digit((n % 10) as nat)]);
    }
    out.append(text);
    assert(out@ =~= old(out)@ + decimal(n as nat));
}

/// The number of a character.
pub fn code(c: char) -> (n: u32)
    ensures
        n as int == c as int,
{
    c as u32
}

/// The character is white space.
pub fn white(c: char) -> (is: bool)
    ensures
        is == is_white(c),
{
    let n: u32 = c as u32;
    (9 <= n && n <= 13) || n == 0x20 || n == 0x85 || n == 0xa0 || n == 0x1680 || (0x2000 <= n && n <= 0x200a) || n
        == 0x2028 || n == 0x2029 || n == 0x202f || n == 0x205f || n == 0x3000
}

/// The text without the white space at both ends.
pub fn trim<'a>(s: &'a str) -> (out: &'a str)
    ensures
        out@ == trimmed(s@),
{
    let text: Vec<char> = chars(s);
    let mut a: usize = 0;
    assert(s@.skip(0) =~= s@);
    while a < text.len() && white(text[a])
        invariant
            text@ == s@,
            a <= s@.len(),
            trimmed_start(s@) == trimmed_start(s@.skip(a as int)),
        decreases s@.len() - a,
    {
        assert(s@.skip(a as int).drop_first() =~= s@.skip(a + 1));
        a += 1;
    }
    let mut b: usize = text.len();
    assert(s@.subrange(a as int, b as int) =~= s@.skip(a as int));
    while b > a && white(text[b - 1])
        invariant
            text@ == s@,
            a <= b <= s@.len(),
            trimmed(s@) == trimmed_end(s@.subrange(a as int, b as int)),
        decreases b,
    {
        assert(s@.subrange(a as int, b as int).drop_last() =~= s@.subrange(a as int, b - 1));
        b -= 1;
    }
    s.substring_char(a, b)
}

pub proof fn lemma_first_at(s: Seq<char>, c: char)
    ensures
        0 <= first_at(s, c) <= s.len(),
        first_at(s, c) < s.len() ==> s[first_at(s, c)] == c,
        forall|i: int| 0 <= i < first_at(s, c) ==> s[i] != c,
    decreases s.len(),
{
    if s.len() > 0 && s[0] != c {
        let t = s.drop_first();
        lemma_first_at(t, c);
        assert forall|i: int| 0 <= i < first_at(s, c) implies s[i] != c by {
            if i > 0 {
                assert(s[i] == t[i - 1]);
            }
        }
    }
}

/// Characters before the first `c` do not contain it.
pub proof fn lemma_first_at_is(s: Seq<char>, c: char, n: int)
    requires
        0 <= n <= s.len(),
        forall|i: int| 0 <= i < n ==> s[i] != c,
        n < s.len() ==> s[n] == c,
    ensures
        first_at(s, c) == n,
    decreases s.len(),
{
    if n > 0 {
        let t = s.drop_first();
        assert(forall|i: int| 0 <= i < n - 1 ==> t[i] == s[i + 1]);
        lemma_first_at_is(t, c, n - 1);
    }
}

/// Where `c` first occurs at or after `from`, or the length of the text.
pub fn find(text: &Vec<char>, from: usize, c: char) -> (at: usize)
    requires
        from <= text@.len(),
    ensures
        from <= at <= text@.len(),
        at - from == first_at(text@.skip(from as int), c),
{
    let mut i: usize = from;
    while i < text.len() && text[i] != c
        invariant
            from <= i <= text@.len(),
            forall|k: int| from <= k < i ==> text@[k] != c,
        decreases text@.len() - i,
    {
        i += 1;
    }
    proof {
        let t = text@.skip(from as int);
        assert(forall|k: int| 0 <= k < i - from ==> t[k] == text@[k + from]);
        lemma_first_at_is(t, c, i - from);
    }
    i
}

/// The text before and after the first `c`.
pub fn split_once<'a>(s: &'a str, c: char) -> (split: Option<(&'a str, &'a str)>)
    ensures
        split is Some <==> first_at(s@, c) < s@.len(),
        split matches Some((a, b)) ==> a@ == s@.take(first_at(s@, c)) && b@ == s@.skip(first_at(s@, c) + 1),
{
    let text: Vec<char> = chars(s);
    assert(s@.skip(0) =~= s@);
    let n: usize = find(&text, 0, c);
    if n == text.len() {
        return None;
    }
    assert(s@.subrange(0, n as int) =~= s@.take(n as int));
    assert(s@.subrange(n + 1, s@.len() as int) =~= s@.skip(n + 1));
    Some((s.substring_char(0, n), s.substring_char(n + 1, text.len())))
}

/// The views of texts.
pub open spec fn views(texts: Seq<&str>) -> Seq<Seq<char>> {
    Seq::new(texts.len(), |i: int| texts[i]@)
}

/// The parts between the separators.
pub fn split<'a>(s: &'a str, separator: char) -> (out: Vec<&'a str>)
    ensures
        views(out@) == parts(s@, separator),
{
    let text: Vec<char> = chars(s);
    let mut out: Vec<&'a str> = Vec::new();
    let mut from: usize = 0;
    assert(s@.skip(0) =~= s@);
    assert(views(out@) + parts(s@, separator) =~= parts(s@, separator));
    loop
        invariant
            text@ == s@,
            from <= s@.len(),
            parts(s@, separator) == views(out@) + parts(s@.skip(from as int), separator),
        decreases s@.len() - from,
    {
        let n: usize = find(&text, from, separator);
        let ghost rest = s@.skip(from as int);
        let ghost before = out@;
        let part = s.substring_char(from, n);
        out.push(part);
        proof {
            assert(views(out@) =~= views(before).push(part@));
            if n < s@.len() {
                assert(part@ =~= rest.take(n - from));
                assert(rest.skip(n - from + 1) =~= s@.skip(n + 1));
                assert(views(out@) + parts(s@.skip(n + 1), separator) =~= views(before) + parts(rest, separator));
            } else {
                assert(part@ =~= rest);
                assert(views(out@) =~= views(before) + parts(rest, separator));
            }
        }
        if n == text.len() {
            return out;
        }
        from = n + 1;
    }
}

/// The lines of a text.
pub fn lines<'a>(s: &'a str) -> (out: Vec<&'a str>)
    ensures
        views(out@) == lines_of(s@),
{
    let text: Vec<char> = chars(s);
    let mut out: Vec<&'a str> = Vec::new();
    let mut from: usize = 0;
    assert(s@.skip(0) =~= s@);
    assert(views(out@) + lines_of(s@) =~= lines_of(s@));
    while from < text.len()
        invariant
            text@ == s@,
            from <= s@.len(),
            lines_of(s@) == views(out@) + lines_of(s@.skip(from as int)),
        decreases s@.len() - from,
    {
        let n: usize = find(&text, from, '\n');
        let ghost rest = s@.skip(from as int);
        let ghost before = out@;
        let end: usize = if n < text.len() && n > from && text[n - 1] == '\r' {
            n - 1
        } else {
            n
        };
        let line = s.substring_char(from, end);
        out.push(line);
        proof {
            assert(views(out@) =~= views(before).push(line@));
            if n < s@.len() {
                assert(line@ =~= without_return(rest.take(n - from)));
                assert(rest.skip(n - from + 1) =~= s@.skip(n + 1));
                assert(views(out@) + lines_of(s@.skip(n + 1)) =~= views(before) + lines_of(rest));
            } else {
                assert(line@ =~= rest);
                assert(s@.skip(n as int) =~= Seq::<char>::empty());
                assert(views(out@) + lines_of(s@.skip(n as int)) =~= views(before) + lines_of(rest));
            }
        }
        from = if n < text.len() {
            n + 1
        } else {
            n
        };
    }
    assert(s@.skip(from as int) =~= Seq::<char>::empty());
    assert(views(out@) + Seq::<Seq<char>>::empty() =~= views(out@));
    out
}

/// A longer row of digits is not a smaller number.
proof fn lemma_digits_prefix(s: Seq<char>, n: int)
    requires
        all_digits(s),
        0 <= n <= s.len(),
    ensures
        digits_value(s.take(n)) <= digits_value(s),
    decreases s.len(),
{
    if n < s.len() {
        assert(s.drop_last().take(n) =~= s.take(n));
        lemma_digits_prefix(s.drop_last(), n);
    } else {
        assert(s.take(n) =~= s);
    }
}

/// The number from 0 to `max` in `text[from..to]`, made of digits alone.
pub fn digits(text: &Vec<char>, from: usize, to: usize, max: u64) -> (n: Option<u64>)
    requires
        from <= to <= text@.len(),
    ensures
        n is Some <==> {
            let d = text@.subrange(from as int, to as int);
            d.len() > 0 && all_digits(d) && digits_value(d) <= max
        },
        n matches Some(v) ==> v == digits_value(text@.subrange(from as int, to as int)),
{
    let ghost d = text@.subrange(from as int, to as int);
    if from == to {
        return None;
    }
    let mut v: u64 = 0;
    let mut i: usize = from;
    assert(d.take(0) =~= Seq::<char>::empty());
    while i < to
        invariant
            from <= i <= to <= text@.len(),
            d == text@.subrange(from as int, to as int),
            forall|k: int| 0 <= k < i - from ==> is_digit(#[trigger] d[k]),
            v == digits_value(d.take(i - from)),
            v <= max,
        decreases to - i,
    {
        let c: u32 = code(text[i]);
        let ghost k = i - from;
        assert(d[k] == text@[i as int]);
        if c < 48 || c > 57 {
            assert(!is_digit(d[k]));
            return None;
        }
        let x: u64 = (c - 48) as u64;
        assert(d.take(k + 1).drop_last() =~= d.take(k));
        if v > max / 10 || x > max - v * 10 {
            proof {
                assert(digits_value(d.take(k + 1)) > max);
                if all_digits(d) {
                    lemma_digits_prefix(d, k + 1);
                }
            }
            return None;
        }
        v = v * 10 + x;
        i += 1;
    }
    assert(d.take(i - from) =~= d);
    Some(v)
}

/// The number from 0 to `max` that the text denotes.
pub fn parse_number(s: &str, max: u64) -> (n: Option<u64>)
    ensures
        n is Some <==> number_in(s@, max as nat) is Some,
        n matches Some(v) ==> number_in(s@, max as nat) == Some(v as nat),
{
    let text: Vec<char> = chars(s);
    let from: usize = if text.len() > 0 && text[0] == '+' {
        1
    } else {
        0
    };
    assert(text@.subrange(from as int, text@.len() as int) =~= without_plus(s@));
    digits(&text, from, text.len(), max)
}

/// Why a text is no number of a range that starts at 0.
#[derive(Clone, Copy, Debug, PartialEq, Eq, Structural)]
pub enum NumberFault {
    /// There is no text.
    Empty,
    /// Something else than a digit comes first.
    Digit,
    /// The number gets too large first.
    TooLarge,
}

/// What is the first thing wrong with a row of digits, from the left.
pub open spec fn digits_fault(d: Seq<char>, max: nat) -> Option<NumberFault>
    decreases d.len(),
{
    if d.len() == 0 {
        None
    } else {
        match digits_fault(d.drop_last(), max) {
            Some(fault) => Some(fault),
            None => if !is_digit(d.last()) {
                Some(NumberFault::Digit)
            } else if digits_value(d) > max {
                Some(NumberFault::TooLarge)
            } else {
                None
            },
        }
    }
}

/// Why a text is no number from 0 to `max`: a plus sign counts as a sign where something follows.
pub open spec fn number_fault_in(s: Seq<char>, max: nat) -> Option<NumberFault> {
    if s.len() == 0 {
        Some(NumberFault::Empty)
    } else if s.len() == 1 {
        digits_fault(s, max)
    } else {
        digits_fault(without_plus(s), max)
    }
}

proof fn lemma_digits_fault(d: Seq<char>, max: nat)
    ensures
        digits_fault(d, max) is None <==> all_digits(d) && digits_value(d) <= max,
    decreases d.len(),
{
    if d.len() > 0 {
        let before = d.drop_last();
        lemma_digits_fault(before, max);
        assert(d =~= before.push(d.last()));
        if all_digits(d) {
            assert forall|i: int| 0 <= i < before.len() implies is_digit(#[trigger] before[i]) by {
                assert(before[i] == d[i]);
            }
        } else if all_digits(before) && is_digit(d.last()) {
            assert forall|i: int| 0 <= i < d.len() implies is_digit(#[trigger] d[i]) by {
                if i < before.len() {
                    assert(d[i] == before[i]);
                }
            }
        }
    }
}

/// Once something is wrong, what comes later does not matter.
proof fn lemma_fault_stays(d: Seq<char>, n: int, max: nat)
    requires
        0 <= n <= d.len(),
        digits_fault(d.take(n), max) is Some,
    ensures
        digits_fault(d, max) == digits_fault(d.take(n), max),
    decreases d.len(),
{
    if n < d.len() {
        assert(d.drop_last().take(n) =~= d.take(n));
        lemma_fault_stays(d.drop_last(), n, max);
    } else {
        assert(d.take(n) =~= d);
    }
}

/// A text has a fault exactly if it denotes no number.
pub proof fn law_fault_or_number(s: Seq<char>, max: nat)
    ensures
        number_fault_in(s, max) is None <==> number_in(s, max) is Some,
{
    lemma_digits_fault(s, max);
    lemma_digits_fault(without_plus(s), max);
}

/// Tells why a text is no number from 0 to `max`.
pub fn number_fault(s: &str, max: u64) -> (fault: Option<NumberFault>)
    ensures
        fault == number_fault_in(s@, max as nat),
{
    let text: Vec<char> = chars(s);
    if text.len() == 0 {
        return Some(NumberFault::Empty);
    }
    let from: usize = if text.len() > 1 && text[0] == '+' {
        1
    } else {
        0
    };
    let ghost d = text@.skip(from as int);
    assert(d =~= if s@.len() == 1 {
        s@
    } else {
        without_plus(s@)
    });
    let mut v: u64 = 0;
    let mut i: usize = from;
    assert(d.take(0) =~= Seq::<char>::empty());
    while i < text.len()
        invariant
            from <= i <= text@.len(),
            d == text@.skip(from as int),
            digits_fault(d, max as nat) == number_fault_in(s@, max as nat),
            digits_fault(d.take(i - from), max as nat) is None,
            v == digits_value(d.take(i - from)),
            v <= max,
        decreases text@.len() - i,
    {
        let c: u32 = code(text[i]);
        let ghost k = i - from;
        assert(d[k] == text@[i as int]);
        assert(d.take(k + 1).drop_last() =~= d.take(k));
        assert(d.take(k + 1).last() == d[k]);
        if c < 48 || c > 57 {
            proof {
                lemma_fault_stays(d, k + 1, max as nat);
            }
            return Some(NumberFault::Digit);
        }
        let x: u64 = (c - 48) as u64;
        if v > max / 10 || x > max - v * 10 {
            proof {
                assert(digits_value(d.take(k + 1)) > max);
                lemma_fault_stays(d, k + 1, max as nat);
            }
            return Some(NumberFault::TooLarge);
        }
        v = v * 10 + x;
        i += 1;
    }
    assert(d.take(i - from) =~= d);
    None
}

/// The texts are equal.
pub fn same_text(a: &str, b: &str) -> (same: bool)
    ensures
        same == (a@ == b@),
{
    let (x, y) = (chars(a), chars(b));
    if x.len() != y.len() {
        return false;
    }
    let mut i: usize = 0;
    while i < x.len()
        invariant
            x@ == a@,
            y@ == b@,
            i <= x@.len() == y@.len(),
            forall|k: int| 0 <= k < i ==> x@[k] == y@[k],
        decreases x@.len() - i,
    {
        if x[i] != y[i] {
            return false;
        }
        i += 1;
    }
    assert(x@ =~= y@);
    true
}

/// The text starts with `prefix`.
pub fn starts_with(s: &str, prefix: &str) -> (is: bool)
    ensures
        is == starts(s@, prefix@),
{
    let (x, y) = (chars(s), chars(prefix));
    if x.len() < y.len() {
        return false;
    }
    let mut i: usize = 0;
    while i < y.len()
        invariant
            x@ == s@,
            y@ == prefix@,
            i <= y@.len() <= x@.len(),
            forall|k: int| 0 <= k < i ==> x@[k] == y@[k],
        decreases y@.len() - i,
    {
        if x[i] != y[i] {
            assert(x@.take(y@.len() as int)[i as int] != y@[i as int]);
            return false;
        }
        i += 1;
    }
    assert(x@.take(y@.len() as int) =~= y@);
    true
}

/// The first word of a text: what stands before the first white space, after that at the
/// beginning.
pub open spec fn first_word(s: Seq<char>) -> Seq<char> {
    word_prefix(trimmed_start(s))
}

/// What stands before the first white space.
pub open spec fn word_prefix(s: Seq<char>) -> Seq<char>
    decreases s.len(),
{
    if s.len() == 0 || is_white(s[0]) {
        Seq::empty()
    } else {
        seq![s[0]] + word_prefix(s.drop_first())
    }
}

/// The first word of a text.
pub fn word<'a>(s: &'a str) -> (out: &'a str)
    ensures
        out@ == first_word(s@),
{
    let text: Vec<char> = chars(s);
    let mut a: usize = 0;
    assert(s@.skip(0) =~= s@);
    while a < text.len() && white(text[a])
        invariant
            text@ == s@,
            a <= s@.len(),
            trimmed_start(s@) == trimmed_start(s@.skip(a as int)),
        decreases s@.len() - a,
    {
        assert(s@.skip(a as int).drop_first() =~= s@.skip(a + 1));
        a += 1;
    }
    let mut b: usize = a;
    let ghost rest = s@.skip(a as int);
    assert(s@.subrange(a as int, a as int) + word_prefix(rest) =~= word_prefix(rest));
    while b < text.len() && !white(text[b])
        invariant
            text@ == s@,
            a <= b <= s@.len(),
            word_prefix(rest) == s@.subrange(a as int, b as int) + word_prefix(s@.skip(b as int)),
        decreases s@.len() - b,
    {
        assert(s@.skip(b as int).drop_first() =~= s@.skip(b + 1));
        assert(s@.subrange(a as int, b + 1) + word_prefix(s@.skip(b + 1)) =~= s@.subrange(a as int, b as int)
            + word_prefix(s@.skip(b as int)));
        b += 1;
    }
    assert(s@.subrange(a as int, b as int) + Seq::<char>::empty() =~= s@.subrange(a as int, b as int));
    s.substring_char(a, b)
}

/// A number in decimal: digits that make up the number, without a zero before others.
pub proof fn lemma_decimal(n: nat)
    ensures
        decimal(n).len() >= 1,
        all_digits(decimal(n)),
        digits_value(decimal(n)) == n,
        decimal(n).len() > 1 ==> decimal(n)[0] != '0',
        n < 10 ==> decimal(n).len() == 1,
        n < 100 ==> decimal(n).len() <= 2,
        n < 1000 ==> decimal(n).len() <= 3,
        n > 0 ==> decimal(n)[0] != '0',
    decreases n,
{
    let s = decimal(n);
    if n < 10 {
        assert(s.drop_last() =~= Seq::<char>::empty());
        reveal_with_fuel(digits_value, 2);
        assert(is_digit(s[0]));
    } else {
        lemma_decimal(n / 10);
        let t = decimal(n / 10);
        assert(s.drop_last() =~= t);
        assert(s[0] == t[0]);
        assert forall|i: int| 0 <= i < s.len() implies is_digit(#[trigger] s[i]) by {
            if i < t.len() {
                assert(s[i] == t[i]);
            }
        }
    }
}

/// A text of digits alone holds no other character.
pub proof fn lemma_digits_hold_no(s: Seq<char>, c: char)
    requires
        all_digits(s),
        !is_digit(c),
    ensures
        forall|i: int| 0 <= i < s.len() ==> s[i] != c,
{
    assert forall|i: int| 0 <= i < s.len() implies s[i] != c by {
        assert(is_digit(s[i]));
    }
}

/// The first part, where it does not hold the separator.
pub proof fn lemma_parts_join(a: Seq<char>, separator: char, rest: Seq<char>)
    requires
        forall|i: int| 0 <= i < a.len() ==> a[i] != separator,
    ensures
        parts(a + seq![separator] + rest, separator) == seq![a] + parts(rest, separator),
        first_at(a + seq![separator] + rest, separator) == a.len(),
{
    let s = a + seq![separator] + rest;
    lemma_first_at_is(s, separator, a.len() as int);
    assert(s.take(a.len() as int) =~= a);
    assert(s.skip(a.len() as int + 1) =~= rest);
}

/// A text that does not hold the separator is one part.
pub proof fn lemma_parts_one(a: Seq<char>, separator: char)
    requires
        forall|i: int| 0 <= i < a.len() ==> a[i] != separator,
    ensures
        parts(a, separator) == seq![a],
        first_at(a, separator) == a.len(),
{
    lemma_first_at_is(a, separator, a.len() as int);
}

/// The part stands in the text at a position.
pub open spec fn stands_at(s: Seq<char>, part: Seq<char>, at: int) -> bool {
    0 <= at && at + part.len() <= s.len() && s.subrange(at, at + part.len()) == part
}

/// The part stands somewhere in the text.
pub open spec fn text_holds(s: Seq<char>, part: Seq<char>) -> bool {
    exists|at: int| stands_at(s, part, at)
}

/// The text holds the part.
pub fn holds_text(s: &str, part: &str) -> (is: bool)
    ensures
        is == text_holds(s@, part@),
{
    let (x, y) = (chars(s), chars(part));
    if x.len() < y.len() {
        return false;
    }
    let last: usize = x.len() - y.len();
    let mut at: usize = 0;
    while at < last
        invariant
            x@ == s@,
            y@ == part@,
            at <= last,
            last + y@.len() == x@.len(),
            forall|i: int| 0 <= i < at ==> !stands_at(s@, part@, i),
        decreases last - at,
    {
        if is_at(&x, &y, at) {
            return true;
        }
        at += 1;
    }
    is_at(&x, &y, last)
}

fn is_at(x: &Vec<char>, y: &Vec<char>, at: usize) -> (is: bool)
    requires
        at + y@.len() <= x@.len(),
    ensures
        is == stands_at(x@, y@, at as int),
{
    let size: usize = x.len();
    let mut k: usize = 0;
    while k < y.len()
        invariant
            k <= y@.len(),
            at + y@.len() <= x@.len() == size,
            forall|j: int| 0 <= j < k ==> x@[at + j] == y@[j],
        decreases y@.len() - k,
    {
        if x[at + k] != y[k] {
            assert(x@.subrange(at as int, at + y@.len())[k as int] != y@[k as int]);
            return false;
        }
        k += 1;
    }
    assert(x@.subrange(at as int, at + y@.len()) =~= y@);
    true
}

} // verus!
