//! The book of addresses as text, so that addresses survive a restart of the server.

use crate::addresses::{book_line, book_says, AddressBook, AddressError, BookFault, BookLine};
use crate::net::{ipv4_in, ipv4_text, law_ipv4_text_is_read_back, push_ipv4};
use crate::text::{
    all_digits, decimal, is_digit, is_white, lemma_decimal, lemma_first_at_is, lines_of, trimmed,
    trimmed_start,
};
use crate::text_map::holds;
use crate::text_sort::{dictionary, lemma_dictionary_is_total, sorted, text_le, texts};
use vstd::prelude::*;
use vstd::string::*;

verus! {

/// The first line of the text.
pub open spec fn heading() -> Seq<char> {
    "# адреса в туннеле, выданные клиентам (ключ адрес)"@
}

/// A line of the text: key and address.
pub open spec fn entry_text(entry: (Seq<char>, u32)) -> Seq<char> {
    entry.0 + " "@ + ipv4_text(entry.1)
}

/// The lines of the entries.
pub open spec fn entry_texts(entries: Seq<(Seq<char>, u32)>) -> Seq<Seq<char>> {
    Seq::new(entries.len(), |i: int| entry_text(entries[i]))
}

/// Every line with a line feed before it.
pub open spec fn on_new_lines(ls: Seq<Seq<char>>) -> Seq<char>
    decreases ls.len(),
{
    if ls.len() == 0 {
        Seq::empty()
    } else {
        on_new_lines(ls.drop_last()) + "\n"@ + ls.last()
    }
}

/// The book as text: the heading, then the entries in dictionary order. A book without entries
/// has an empty line there.
pub open spec fn saved(entries: Seq<(Seq<char>, u32)>) -> Seq<char> {
    if entries.len() == 0 {
        heading() + "\n"@ + "\n"@
    } else {
        heading() + on_new_lines(entry_texts(entries).sort_by(dictionary())) + "\n"@
    }
}

impl AddressBook {
    /// The book as text.
    pub fn save(&self) -> (text: String)
        ensures
            text@ == saved(self.entries()),
    {
        let mut all: Vec<String> = Vec::new();
        let mut i: usize = 0;
        let n: usize = self.entry_count();
        while i < n
            invariant
                i <= n == self.entries().len(),
                texts(all@) == entry_texts(self.entries()).take(i as int),
            decreases n - i,
        {
            let ghost before = texts(all@);
            let (key, address) = self.entry(i);
            let mut line: String = key.to_owned();
            line.append(" ");
            push_ipv4(&mut line, address);
            proof {
                assert(line@ =~= entry_text(self.entries()[i as int]));
            }
            all.push(line);
            proof {
                assert(texts(all@) =~= before.push(line@));
                assert(texts(all@) =~= entry_texts(self.entries()).take(i + 1));
            }
            i += 1;
        }
        assert(texts(all@) =~= entry_texts(self.entries()));
        let mut text: String = "# адреса в туннеле, выданные клиентам (ключ адрес)".to_owned();
        let ghost ordered = texts(all@).sort_by(dictionary());
        let lines: Vec<String> = sorted(all);
        if lines.len() == 0 {
            text.append("\n");
            text.append("\n");
            proof {
                lemma_dictionary_is_total();
                entry_texts(self.entries()).lemma_sort_by_ensures(dictionary());
                entry_texts(self.entries()).to_multiset_ensures();
                ordered.to_multiset_ensures();
            }
            return text;
        }
        let mut j: usize = 0;
        proof {
            assert(ordered.take(0) =~= Seq::<Seq<char>>::empty());
            assert(text@ =~= heading() + on_new_lines(ordered.take(0)));
        }
        while j < lines.len()
            invariant
                j <= lines@.len(),
                texts(lines@) == ordered,
                text@ == heading() + on_new_lines(ordered.take(j as int)),
            decreases lines@.len() - j,
        {
            text.append("\n");
            text.append(lines[j].as_str());
            proof {
                assert(ordered.take(j + 1).drop_last() =~= ordered.take(j as int));
                assert(ordered[j as int] == lines@[j as int]@);
                assert(text@ =~= heading() + on_new_lines(ordered.take(j + 1)));
            }
            j += 1;
        }
        text.append("\n");
        proof {
            assert(ordered.take(j as int) =~= ordered);
            lemma_dictionary_is_total();
            entry_texts(self.entries()).lemma_sort_by_ensures(dictionary());
            entry_texts(self.entries()).to_multiset_ensures();
            ordered.to_multiset_ensures();
        }
        text
    }
}

/// A key that a line can hold: not empty, without white space, and not a comment.
pub open spec fn is_plain(key: Seq<char>) -> bool {
    key.len() > 0 && key[0] != '#' && forall|i: int| 0 <= i < key.len() ==> !is_white(#[trigger] key[i])
}

/// A line that stays as it is when the text is cut into lines.
spec fn is_one_line(s: Seq<char>) -> bool {
    &&& forall|i: int| 0 <= i < s.len() ==> s[i] != '\n'
    &&& s.len() > 0 ==> s.last() != '\r'
}

proof fn lemma_first_line(a: Seq<char>, rest: Seq<char>)
    requires
        is_one_line(a),
    ensures
        lines_of(a + seq!['\n'] + rest) == seq![a] + lines_of(rest),
{
    let s = a + seq!['\n'] + rest;
    lemma_first_at_is(s, '\n', a.len() as int);
    assert(s.take(a.len() as int) =~= a);
    assert(s.skip(a.len() as int + 1) =~= rest);
}

proof fn lemma_new_lines_front(ls: Seq<Seq<char>>)
    requires
        ls.len() > 0,
    ensures
        on_new_lines(ls) == seq!['\n'] + ls[0] + on_new_lines(ls.drop_first()),
    decreases ls.len(),
{
    reveal_strlit("\n");
    assert("\n"@ =~= seq!['\n']);
    if ls.len() == 1 {
        assert(ls.drop_last() =~= Seq::<Seq<char>>::empty());
        assert(ls.drop_first() =~= Seq::<Seq<char>>::empty());
        assert(on_new_lines(ls) =~= seq!['\n'] + ls[0] + on_new_lines(ls.drop_first()));
    } else {
        lemma_new_lines_front(ls.drop_last());
        assert(ls.drop_last().drop_first() =~= ls.drop_first().drop_last());
        assert(on_new_lines(ls) =~= seq!['\n'] + ls[0] + on_new_lines(ls.drop_first()));
    }
}

/// Lines on new lines are cut into the same lines.
proof fn lemma_lines(h: Seq<char>, ls: Seq<Seq<char>>)
    requires
        is_one_line(h),
        forall|i: int| 0 <= i < ls.len() ==> is_one_line(#[trigger] ls[i]),
    ensures
        lines_of(h + on_new_lines(ls) + seq!['\n']) == seq![h] + ls,
    decreases ls.len(),
{
    let end = seq!['\n'];
    if ls.len() == 0 {
        lemma_first_line(h, Seq::empty());
        assert(h + on_new_lines(ls) + end =~= h + seq!['\n'] + Seq::<char>::empty());
        assert(seq![h] + Seq::<Seq<char>>::empty() =~= seq![h] + ls);
    } else {
        lemma_new_lines_front(ls);
        let rest = ls.drop_first();
        let tail = ls[0] + on_new_lines(rest) + end;
        assert(h + on_new_lines(ls) + end =~= h + seq!['\n'] + tail);
        lemma_first_line(h, tail);
        assert(is_one_line(ls[0]));
        assert forall|i: int| 0 <= i < rest.len() implies is_one_line(#[trigger] rest[i]) by {
            assert(rest[i] == ls[i + 1]);
        }
        lemma_lines(ls[0], rest);
        assert(seq![ls[0]] + rest =~= ls);
    }
}

/// The text of an address: digits and dots, a digit at both ends.
pub proof fn lemma_ipv4_text(a: u32)
    ensures
        ipv4_text(a).len() > 0,
        is_digit(ipv4_text(a)[0]),
        is_digit(ipv4_text(a).last()),
        forall|i: int| 0 <= i < ipv4_text(a).len() ==> is_digit(#[trigger] ipv4_text(a)[i]) || ipv4_text(a)[i] == '.',
{
    reveal_strlit(".");
    let (p, q, r, s) = (
        decimal((a / 0x100_0000) as nat),
        decimal((a / 0x1_0000 % 256) as nat),
        decimal((a / 0x100 % 256) as nat),
        decimal((a % 256) as nat),
    );
    lemma_decimal((a / 0x100_0000) as nat);
    lemma_decimal((a / 0x1_0000 % 256) as nat);
    lemma_decimal((a / 0x100 % 256) as nat);
    lemma_decimal((a % 256) as nat);
    lemma_dotted(p, q, r, s);
}

proof fn lemma_dotted(p: Seq<char>, q: Seq<char>, r: Seq<char>, s: Seq<char>)
    requires
        p.len() > 0,
        s.len() > 0,
        all_digits(p),
        all_digits(q),
        all_digits(r),
        all_digits(s),
    ensures
        ({
            let t = p + "."@ + q + "."@ + r + "."@ + s;
            &&& t.len() > 0
            &&& is_digit(t[0])
            &&& is_digit(t.last())
            &&& forall|i: int| 0 <= i < t.len() ==> is_digit(#[trigger] t[i]) || t[i] == '.'
        }),
{
    reveal_strlit(".");
    let t = p + "."@ + q + "."@ + r + "."@ + s;
    let (a, b, c, d) = (p.len() as int, q.len() as int, r.len() as int, s.len() as int);
    assert(t[0] == p[0]);
    assert(t.last() == s.last());
    assert(is_digit(s[d - 1]));
    assert forall|i: int| 0 <= i < t.len() implies is_digit(#[trigger] t[i]) || t[i] == '.' by {
        if i < a {
            assert(t[i] == p[i]);
        } else if i == a {
            assert(t[i] == "."@[0]);
        } else if i < a + 1 + b {
            assert(t[i] == q[i - a - 1]);
        } else if i == a + 1 + b {
            assert(t[i] == "."@[0]);
        } else if i < a + b + c + 2 {
            assert(t[i] == r[i - a - b - 2]);
        } else if i == a + b + c + 2 {
            assert(t[i] == "."@[0]);
        } else {
            assert(t[i] == s[i - a - b - c - 3]);
        }
    }
}

/// A line of the text is one line and says its entry.
proof fn lemma_entry_line(key: Seq<char>, a: u32)
    requires
        is_plain(key),
    ensures
        is_one_line(entry_text((key, a))),
        book_line(entry_text((key, a))) == BookLine::Entry(key, a),
{
    let line = entry_text((key, a));
    let t = ipv4_text(a);
    let n = key.len() as int;
    reveal_strlit(" ");
    assert(" "@ =~= seq![' ']);
    lemma_ipv4_text(a);
    law_ipv4_text_is_read_back(a);
    assert forall|i: int| 0 <= i < line.len() implies line[i] != '\n' by {
        if i < n {
            assert(line[i] == key[i]);
            assert(!is_white(key[i]));
        } else if i > n {
            assert(line[i] == t[i - n - 1]);
        }
    }
    assert(line.last() == t.last());
    assert(line[0] == key[0]);
    assert(!is_white(key[0]));
    assert(trimmed_start(line) == line);
    assert(trimmed(line) == line);
    assert forall|i: int| 0 <= i < n implies line[i] != ' ' by {
        assert(line[i] == key[i]);
        assert(!is_white(key[i]));
    }
    assert(line[n] == ' ');
    lemma_first_at_is(line, ' ', n);
    assert(line.take(n) =~= key);
    assert(line.skip(n + 1) =~= t);
    assert(trimmed_start(t) == t);
    assert(trimmed(t) == t);
}

proof fn lemma_heading()
    ensures
        is_one_line(heading()),
        book_line(heading()) is Skip,
{
    reveal_strlit("# адреса в туннеле, выданные клиентам (ключ адрес)");
    let h = heading();
    assert(h[0] == '#' && h.last() == ')');
    assert(trimmed_start(h) == h);
    assert(trimmed(h) == h);
}

/// Lines that all say entries of `m`: what they say together is a part of `m`.
proof fn lemma_entries_say(m: Map<Seq<char>, u32>, h: Seq<char>, ls: Seq<Seq<char>>)
    requires
        book_line(h) is Skip,
        forall|i: int| 0 <= i < ls.len() ==> {
            &&& book_line(#[trigger] ls[i]) matches BookLine::Entry(k, a)
            &&& holds(m, k, a)
        },
    ensures
        book_says(seq![h] + ls) matches Ok(said) && forall|k: Seq<char>| #[trigger]
            said.contains_key(k) ==> m.contains_key(k) && said[k] == m[k],
        forall|i: int|
            0 <= i < ls.len() ==> (book_line(#[trigger] ls[i]) matches BookLine::Entry(k, _) ==> (book_says(
                seq![h] + ls,
            )->Ok_0).contains_key(k)),
    decreases ls.len(),
{
    let all = seq![h] + ls;
    if ls.len() == 0 {
        assert(all.drop_last() =~= Seq::<Seq<char>>::empty());
        assert(all.last() == h);
        reveal_with_fuel(book_says, 2);
    } else {
        let before = ls.drop_last();
        assert forall|i: int| 0 <= i < before.len() implies before[i] == ls[i] by {}
        lemma_entries_say(m, h, before);
        assert(all.drop_last() =~= seq![h] + before);
        assert(all.last() == ls.last());
        assert(ls[ls.len() - 1] == ls.last());
        assert forall|i: int| 0 <= i < ls.len() implies (book_line(#[trigger] ls[i]) matches BookLine::Entry(k, _) ==> (
        book_says(all)->Ok_0).contains_key(k)) by {
            if i < before.len() {
                assert(before[i] == ls[i]);
            }
        }
    }
}

/// The book survives a restart: what is read from the saved text are the same addresses under
/// the same keys. Keys have to be plain, as those of [`crate::addresses::client_key`] are.
pub proof fn law_book_survives_a_restart(m: Map<Seq<char>, u32>, entries: Seq<(Seq<char>, u32)>)
    requires
        forall|i: int| 0 <= i < entries.len() ==> {
            &&& holds(m, (#[trigger] entries[i]).0, entries[i].1)
            &&& is_plain(entries[i].0)
        },
        forall|k: Seq<char>| #[trigger] m.contains_key(k) ==> entries.contains((k, m[k])),
    ensures
        book_says(lines_of(saved(entries))) == Ok::<Map<Seq<char>, u32>, BookFault>(m),
{
    let h = heading();
    reveal_strlit("\n");
    assert("\n"@ =~= seq!['\n']);
    lemma_heading();
    if entries.len() == 0 {
        let none = Seq::<char>::empty();
        assert(m =~= Map::<Seq<char>, u32>::empty()) by {
            assert forall|k: Seq<char>| !m.contains_key(k) by {
                if m.contains_key(k) {
                    assert(entries.contains((k, m[k])));
                }
            }
        }
        lemma_first_line(none, none);
        assert(none + seq!['\n'] + none =~= seq!['\n']);
        lemma_first_line(h, seq!['\n']);
        assert(lines_of(none) =~= Seq::<Seq<char>>::empty());
        let ls = lines_of(saved(entries));
        assert(ls =~= seq![h, none]);
        assert(ls.drop_last() =~= seq![h]);
        assert(ls.drop_last().drop_last() =~= Seq::<Seq<char>>::empty());
        reveal_with_fuel(book_says, 3);
    } else {
        let lines = entry_texts(entries);
        let ls = lines.sort_by(dictionary());
        lemma_dictionary_is_total();
        lines.lemma_sort_by_ensures(dictionary());
        assert forall|i: int| 0 <= i < ls.len() implies {
            &&& is_one_line(#[trigger] ls[i])
            &&& book_line(ls[i]) matches BookLine::Entry(k, a)
            &&& holds(m, k, a)
        } by {
            assert(ls.contains(ls[i]));
            assert(lines.contains(ls[i]));
            let j = choose|j: int| 0 <= j < lines.len() && lines[j] == ls[i];
            assert(lines[j] == entry_text(entries[j]));
            lemma_entry_line(entries[j].0, entries[j].1);
        }
        lemma_lines(h, ls);
        lemma_entries_say(m, h, ls);
        let said = book_says(seq![h] + ls)->Ok_0;
        assert forall|k: Seq<char>| #[trigger] m.contains_key(k) implies said.contains_key(k) by {
            assert(entries.contains((k, m[k])));
            let j = choose|j: int| 0 <= j < entries.len() && entries[j] == (k, m[k]);
            assert(lines[j] == entry_text(entries[j]));
            lemma_entry_line(k, m[k]);
            broadcast use vstd::seq_lib::group_to_multiset_ensures;

            assert(lines.contains(lines[j]));
            assert(lines.to_multiset().count(lines[j]) > 0);
            assert(ls.to_multiset().count(lines[j]) > 0);
            assert(ls.contains(lines[j]));
            let i = choose|i: int| 0 <= i < ls.len() && ls[i] == lines[j];
            assert(book_line(ls[i]) == BookLine::Entry(k, m[k]));
        }
        assert(said =~= m);
    }
}

/// A line more in a book: one that is empty or starts with a number sign adds nothing; one of a
/// key, a space and an address gives the key that address, whatever it had before; any other, and
/// any in a book that cannot be read, leaves no book to read. White space around a line, or around
/// its address, does not matter.
pub proof fn law_a_line_adds_to_the_book(
    server: u32,
    prefix: u8,
    front: &str,
    whole: &str,
    line: Seq<char>,
    key: Seq<char>,
    rest: Seq<char>,
    before: Result<AddressBook, AddressError>,
    after: Result<AddressBook, AddressError>,
)
    requires
        8 <= prefix <= 30,
        call_ensures(AddressBook::load, (server, prefix, Some(front)), before),
        call_ensures(AddressBook::load, (server, prefix, Some(whole)), after),
        lines_of(whole@) == lines_of(front@).push(line),
    ensures
        before is Err ==> after is Err,
        before matches Ok(b) ==> {
            let text = trimmed(line);
            &&& text.len() == 0 || text[0] == '#' ==> (after matches Ok(a) && a.assigned()
                == b.assigned())
            &&& text.len() > 0 && text[0] != '#' && !text.contains(' ') ==> (after matches Err(
                AddressError::NoAddress(shown),
            ) && shown@ == text)
            &&& text.len() > 0 && text[0] != '#' && text == key + seq![' '] + rest && !key.contains(' ')
                ==> match ipv4_in(trimmed(rest)) {
                Some(ip) => after matches Ok(a) && a.assigned() == b.assigned().insert(key, ip),
                None => after matches Err(AddressError::BadAddress(shown)) && shown@ == text,
            }
        },
{
    let ls = lines_of(whole@);
    assert(ls.drop_last() =~= lines_of(front@));
    let text = trimmed(line);
    if !text.contains(' ') {
        assert forall|i: int| 0 <= i < text.len() implies text[i] != ' ' by {
            assert(text.contains(text[i]));
        }
        lemma_first_at_is(text, ' ', text.len() as int);
    } else if text == key + seq![' '] + rest && !key.contains(' ') {
        assert forall|i: int| 0 <= i < key.len() implies text[i] != ' ' by {
            assert(key.contains(key[i]));
        }
        lemma_first_at_is(text, ' ', key.len() as int);
        assert(text.take(key.len() as int) =~= key);
        assert(text.skip(key.len() as int + 1) =~= rest);
    }
    if text == key + seq![' '] + rest {
        assert(text[key.len() as int] == ' ');
    }
}

/// A book as text has a heading, which is a comment, and a line for each client, which is its key,
/// a space and its address; the lines of the clients are in dictionary order.
pub proof fn law_a_saved_book_has_a_line_for_each_client(
    book: &AddressBook,
    text: String,
    key: Seq<char>,
    i: int,
    j: int,
)
    requires
        book.wf(),
        call_ensures(AddressBook::save, (book,), text),
        book.assigned().contains_key(key),
        forall|k: Seq<char>| #[trigger] book.assigned().contains_key(k) ==> is_plain(k),
    ensures
        ({
            let ls = lines_of(text@);
            &&& ls.len() == book.entries().len() + 1
            &&& ls[0].len() > 0 && ls[0][0] == '#'
            &&& ls.contains(key + seq![' '] + ipv4_text(book.assigned()[key]))
            &&& 1 <= i < j < ls.len() ==> text_le(ls[i], ls[j])
        }),
{
    book.lemma_wf();
    let entries = book.entries();
    let a = book.assigned()[key];
    assert(entries.contains((key, a)));
    let n = choose|n: int| 0 <= n < entries.len() && entries[n] == (key, a);
    let h = heading();
    reveal_strlit("\n");
    assert("\n"@ =~= seq!['\n']);
    reveal_strlit(" ");
    assert(" "@ =~= seq![' ']);
    lemma_heading();
    assert(h.len() > 0 && h[0] == '#') by {
        reveal_strlit("# адреса в туннеле, выданные клиентам (ключ адрес)");
    }
    let lines = entry_texts(entries);
    let ls = lines.sort_by(dictionary());
    lemma_dictionary_is_total();
    lines.lemma_sort_by_ensures(dictionary());
    assert forall|i: int| 0 <= i < ls.len() implies is_one_line(#[trigger] ls[i]) by {
        assert(ls.contains(ls[i]));
        assert(lines.contains(ls[i]));
        let m = choose|m: int| 0 <= m < lines.len() && lines[m] == ls[i];
        assert(lines[m] == entry_text(entries[m]));
        assert(holds(book.assigned(), entries[m].0, entries[m].1));
        lemma_entry_line(entries[m].0, entries[m].1);
    }
    lemma_lines(h, ls);
    let all = lines_of(text@);
    assert(all == seq![h] + ls);
    assert(lines[n] == key + seq![' '] + ipv4_text(a));
    broadcast use vstd::seq_lib::group_to_multiset_ensures;

    assert(lines.contains(lines[n]));
    assert(ls.to_multiset().count(lines[n]) > 0);
    assert(ls.contains(lines[n]));
    assert(ls.to_multiset().len() == lines.to_multiset().len());
    assert(ls.len() == lines.len());
    let m = choose|m: int| 0 <= m < ls.len() && ls[m] == lines[n];
    assert(all[m + 1] == lines[n]);
    if 1 <= i < j < all.len() {
        assert(dictionary()(ls[i - 1], ls[j - 1]));
        assert(all[i] == ls[i - 1] && all[j] == ls[j - 1]);
    }
}

} // verus!
