//! DNS servers that clients are told of.

use crate::book_text::lemma_ipv4_text;
use crate::net::{ipv4_in, ipv4_text, law_ipv4_text_is_read_back, parse_ipv4};
use crate::text::{
    first_word, is_digit, is_white, lines, lines_of, parts, split, starts, starts_with, trim, trimmed,
    views, word,
};
use crate::text_laws::{lemma_trimmed_same, lemma_trimmed_start, lemma_word_prefix};
use crate::text_sort::texts;
use vstd::prelude::*;
use vstd::string::*;

verus! {

/// Fallback servers, always at the end of the list: 8.8.8.8 and 1.1.1.1.
pub const FALLBACK_DNS: [u32; 2] = [0x0808_0808, 0x0101_0101];

/// The numbers without repetitions, each where it first stands.
pub open spec fn without_repeats(s: Seq<u32>) -> Seq<u32>
    decreases s.len(),
{
    if s.len() == 0 {
        Seq::empty()
    } else {
        let before = without_repeats(s.drop_last());
        if before.contains(s.last()) {
            before
        } else {
            before.push(s.last())
        }
    }
}

/// The addresses in the parts of a list; parts that are empty do not count, and the first one
/// that is no IPv4 address decides.
pub open spec fn addresses_in(ps: Seq<Seq<char>>) -> Result<Seq<u32>, Seq<char>>
    decreases ps.len(),
{
    if ps.len() == 0 {
        Ok(Seq::empty())
    } else {
        match addresses_in(ps.drop_last()) {
            Ok(found) => {
                let part = trimmed(ps.last());
                if part.len() == 0 {
                    Ok(found)
                } else {
                    match ipv4_in(part) {
                        Some(a) => Ok(found.push(a)),
                        None => Err(part),
                    }
                }
            },
            Err(part) => Err(part),
        }
    }
}

proof fn lemma_bad_part(ps: Seq<Seq<char>>, n: int)
    requires
        0 < n <= ps.len(),
        addresses_in(ps.take(n)) is Err,
    ensures
        addresses_in(ps) == addresses_in(ps.take(n)),
    decreases ps.len(),
{
    if n < ps.len() {
        assert(ps.drop_last().take(n) =~= ps.take(n));
        lemma_bad_part(ps.drop_last(), n);
    } else {
        assert(ps.take(n) =~= ps);
    }
}

/// The address that a line of `resolv.conf` names: an IPv4 address that others can reach.
pub open spec fn nameserver_in(line: Seq<char>) -> Option<u32> {
    let l = trimmed(line);
    if starts(l, "nameserver"@) {
        match ipv4_in(first_word(l.skip("nameserver"@.len() as int))) {
            Some(a) => if a / 0x100_0000 == 127 || a == 0 {
                None
            } else {
                Some(a)
            },
            None => None,
        }
    } else {
        None
    }
}

/// The addresses that the lines of `resolv.conf` name.
pub open spec fn nameservers_in(ls: Seq<Seq<char>>) -> Seq<u32>
    decreases ls.len(),
{
    if ls.len() == 0 {
        Seq::empty()
    } else {
        match nameserver_in(ls.last()) {
            Some(a) => nameservers_in(ls.drop_last()).push(a),
            None => nameservers_in(ls.drop_last()),
        }
    }
}

/// The IPv4 addresses of `nameserver` lines, without loopback and unspecified ones.
pub fn nameservers(text: &str) -> (found: Vec<u32>)
    ensures
        found@ == nameservers_in(lines_of(text@)),
{
    let all: Vec<&str> = lines(text);
    let ghost ls = lines_of(text@);
    let mut found: Vec<u32> = Vec::new();
    let mut i: usize = 0;
    assert(ls.take(0) =~= Seq::<Seq<char>>::empty());
    while i < all.len()
        invariant
            i <= all@.len(),
            views(all@) == ls,
            found@ == nameservers_in(ls.take(i as int)),
        decreases all@.len() - i,
    {
        proof {
            assert(ls.take(i + 1).drop_last() =~= ls.take(i as int));
            assert(ls[i as int] == all@[i as int]@);
        }
        let line = trim(all[i]);
        if starts_with(line, "nameserver") {
            let n: usize = "nameserver".unicode_len();
            let size: usize = line.unicode_len();
            assert(line@.subrange(n as int, size as int) =~= line@.skip(n as int));
            if let Some(a) = parse_ipv4(word(line.substring_char(n, size))) {
                if a / 0x100_0000 != 127 && a != 0 {
                    found.push(a);
                }
            }
        }
        i += 1;
    }
    assert(ls.take(i as int) =~= ls);
    found
}

/// What the first of the texts that names a server says.
pub open spec fn resolvers_in(files: Seq<Seq<char>>) -> Seq<u32>
    decreases files.len(),
{
    if files.len() == 0 {
        Seq::empty()
    } else if nameservers_in(lines_of(files[0])).len() > 0 {
        nameservers_in(lines_of(files[0]))
    } else {
        resolvers_in(files.drop_first())
    }
}

fn resolvers(files: &Vec<String>) -> (found: Vec<u32>)
    ensures
        found@ == resolvers_in(texts(files@)),
{
    let ghost all = texts(files@);
    let mut i: usize = 0;
    assert(all.skip(0) =~= all);
    while i < files.len()
        invariant
            i <= files@.len(),
            all == texts(files@),
            resolvers_in(all) == resolvers_in(all.skip(i as int)),
        decreases files@.len() - i,
    {
        assert(all.skip(i as int).drop_first() =~= all.skip(i + 1));
        assert(all.skip(i as int)[0] == files@[i as int]@);
        let found = nameservers(files[i].as_str());
        if found.len() > 0 {
            return found;
        }
        i += 1;
    }
    let none: Vec<u32> = Vec::new();
    assert(none@ =~= Seq::<u32>::empty());
    none
}

fn configured_list(list: &str) -> (own: Result<Vec<u32>, String>)
    ensures
        match own {
            Ok(v) => addresses_in(parts(list@, ',')) == Ok::<Seq<u32>, Seq<char>>(v@),
            Err(part) => addresses_in(parts(list@, ',')) == Err::<Seq<u32>, Seq<char>>(part@),
        },
{
    let all: Vec<&str> = split(list, ',');
    let ghost ps = parts(list@, ',');
    let mut own: Vec<u32> = Vec::new();
    let mut i: usize = 0;
    assert(ps.take(0) =~= Seq::<Seq<char>>::empty());
    while i < all.len()
        invariant
            i <= all@.len(),
            views(all@) == ps,
            ps == parts(list@, ','),
            addresses_in(ps.take(i as int)) == Ok::<Seq<u32>, Seq<char>>(own@),
        decreases all@.len() - i,
    {
        proof {
            assert(ps.take(i + 1).drop_last() =~= ps.take(i as int));
            assert(ps[i as int] == all@[i as int]@);
            assert(ps.take(i + 1).last() == all@[i as int]@);
            if addresses_in(ps.take(i + 1)) is Err {
                lemma_bad_part(ps, i + 1);
            }
        }
        let part = trim(all[i]);
        if !part.is_empty() {
            match parse_ipv4(part) {
                Some(a) => {
                    own.push(a);
                },
                None => {
                    return Err(part.to_owned());
                },
            }
        }
        i += 1;
    }
    assert(ps.take(i as int) =~= ps);
    Ok(own)
}

/// Appends a number unless it is there.
fn push_new(all: &mut Vec<u32>, a: u32)
    ensures
        final(all)@ == if old(all)@.contains(a) {
            old(all)@
        } else {
            old(all)@.push(a)
        },
{
    let mut i: usize = 0;
    while i < all.len()
        invariant
            i <= all@.len(),
            all@ == old(all)@,
            forall|k: int| 0 <= k < i ==> all@[k] != a,
        decreases all@.len() - i,
    {
        if all[i] == a {
            return;
        }
        i += 1;
    }
    all.push(a);
}

/// The servers that clients are told of: those of the settings, else those of this machine's
/// resolver files, then the fallback ones, without repetitions; the part of the settings that is
/// no IPv4 address where there is one.
pub open spec fn dns_for(configured: Option<Seq<char>>, files: Seq<Seq<char>>) -> Result<Seq<u32>, Seq<char>> {
    let own = match configured {
        Some(list) => addresses_in(parts(list, ',')),
        None => Ok(resolvers_in(files)),
    };
    match own {
        Ok(own) => Ok(without_repeats(own + FALLBACK_DNS@)),
        Err(part) => Err(part),
    }
}

/// DNS for clients.
pub fn client_dns(configured: Option<&str>, files: &Vec<String>) -> (dns: Result<Vec<u32>, String>)
    ensures
        (match dns {
            Ok(all) => Ok::<Seq<u32>, Seq<char>>(all@),
            Err(part) => Err(part@),
        }) == dns_for(
            match configured {
                Some(list) => Some(list@),
                None => None,
            },
            texts(files@),
        ),
{
    let mut own: Vec<u32> = match configured {
        Some(list) => match configured_list(list) {
            Ok(own) => own,
            Err(part) => {
                return Err(part);
            },
        },
        None => resolvers(files),
    };
    let ghost found = own@;
    let fallback: [u32; 2] = FALLBACK_DNS;
    own.push(fallback[0]);
    own.push(fallback[1]);
    assert(own@ =~= found + FALLBACK_DNS@);
    let mut all: Vec<u32> = Vec::new();
    let mut i: usize = 0;
    assert(own@.take(0) =~= Seq::<u32>::empty());
    while i < own.len()
        invariant
            i <= own@.len(),
            all@ == without_repeats(own@.take(i as int)),
        decreases own@.len() - i,
    {
        assert(own@.take(i + 1).drop_last() =~= own@.take(i as int));
        push_new(&mut all, own[i]);
        i += 1;
    }
    assert(own@.take(i as int) =~= own@);
    Ok(all)
}

proof fn lemma_without_repeats(s: Seq<u32>)
    ensures
        without_repeats(s).no_duplicates(),
        forall|a: u32| #[trigger] without_repeats(s).contains(a) <==> s.contains(a),
    decreases s.len(),
{
    if s.len() > 0 {
        let t = s.drop_last();
        lemma_without_repeats(t);
        let before = without_repeats(t);
        let after = without_repeats(s);
        assert forall|a: u32| #[trigger] after.contains(a) <==> s.contains(a) by {
            if s.contains(a) {
                let i = choose|i: int| 0 <= i < s.len() && s[i] == a;
                if i < t.len() {
                    assert(t[i] == a);
                    assert(before.contains(a));
                    let j = choose|j: int| 0 <= j < before.len() && before[j] == a;
                    assert(after[j] == a);
                } else if !before.contains(a) {
                    assert(after[before.len() as int] == a);
                }
            }
            if after.contains(a) {
                let j = choose|j: int| 0 <= j < after.len() && after[j] == a;
                if j < before.len() {
                    assert(before[j] == a);
                    assert(before.contains(a));
                    assert(t.contains(a));
                    let i = choose|i: int| 0 <= i < t.len() && t[i] == a;
                    assert(s[i] == a);
                } else {
                    assert(s[s.len() - 1] == a);
                }
            }
        }
    }
}

/// The list of DNS servers has no repetitions and always holds the fallback ones.
pub proof fn law_dns_has_fallbacks_and_no_repeats(configured: Option<Seq<char>>, files: Seq<Seq<char>>)
    ensures
        dns_for(configured, files) matches Ok(all) ==> all.no_duplicates() && all.contains(FALLBACK_DNS@[0])
            && all.contains(FALLBACK_DNS@[1]),
{
    if let Ok(all) = dns_for(configured, files) {
        let own = match configured {
            Some(list) => addresses_in(parts(list, ',')),
            None => Ok(resolvers_in(files)),
        };
        let given = own->Ok_0 + FALLBACK_DNS@;
        lemma_without_repeats(given);
        let n = (own->Ok_0).len() as int;
        assert(given[n] == FALLBACK_DNS@[0] && given[n + 1] == FALLBACK_DNS@[1]);
        assert(given.contains(given[n]) && given.contains(given[n + 1]));
    }
}

proof fn lemma_first_stays(s: Seq<u32>)
    requires
        s.len() > 0,
    ensures
        without_repeats(s).len() > 0,
        without_repeats(s)[0] == s[0],
    decreases s.len(),
{
    if s.len() > 1 {
        lemma_first_stays(s.drop_last());
    } else {
        assert(without_repeats(s.drop_last()) =~= Seq::<u32>::empty());
    }
}

proof fn lemma_addresses(ps: Seq<Seq<char>>, i: int, a: u32)
    requires
        0 <= i < ps.len() || ps.len() == 0,
    ensures
        match addresses_in(ps) {
            Ok(found) => {
                &&& ps.len() > 0 && trimmed(ps[i]).len() > 0 ==> ipv4_in(trimmed(ps[i])) is Some
                    && found.contains(ipv4_in(trimmed(ps[i]))->0)
                &&& found.contains(a) ==> exists|k: int|
                    0 <= k < ps.len() && ipv4_in(trimmed(#[trigger] ps[k])) == Some(a)
                &&& ps.len() > 0 && trimmed(ps[0]).len() > 0 ==> found[0] == ipv4_in(
                    trimmed(ps[0]),
                )->0
            },
            Err(part) => part.len() > 0 && ipv4_in(part) is None,
        },
    decreases ps.len(),
{
    if ps.len() > 0 {
        let before = ps.drop_last();
        let j = if i < before.len() {
            i
        } else {
            0
        };
        lemma_addresses(before, j, a);
        assert(ps[ps.len() - 1] == ps.last());
        if before.len() > 0 {
            assert(before[0] == ps[0]);
            lemma_addresses(before, 0, a);
        }
        if let Ok(found) = addresses_in(ps) {
            let old = addresses_in(before)->Ok_0;
            if i < before.len() {
                assert(before[i] == ps[i]);
                if trimmed(ps[i]).len() > 0 {
                    let x = ipv4_in(trimmed(ps[i]))->0;
                    let k = choose|k: int| 0 <= k < old.len() && old[k] == x;
                    assert(found[k] == x);
                }
            } else if trimmed(ps[i]).len() > 0 {
                assert(found[found.len() - 1] == ipv4_in(trimmed(ps[i]))->0);
            }
            if found.contains(a) {
                let k = choose|k: int| 0 <= k < found.len() && found[k] == a;
                if k < old.len() {
                    assert(old[k] == a);
                    let n = choose|n: int|
                        0 <= n < before.len() && ipv4_in(trimmed(#[trigger] before[n])) == Some(a);
                    assert(ps[n] == before[n]);
                } else {
                    assert(ipv4_in(trimmed(ps[ps.len() - 1])) == Some(a));
                }
            }
        }
    }
}

/// The servers that are configured come first, whatever the files say: every entry of the list
/// that is not blank has to be an IPv4 address and is one of the servers. Behind them stand 8.8.8.8
/// and 1.1.1.1, and there is no other.
pub proof fn law_configured_servers_come_first(
    list: &str,
    files: &Vec<String>,
    dns: Result<Vec<u32>, String>,
    i: int,
    a: u32,
)
    requires
        call_ensures(client_dns, (Some(list), files), dns),
        0 <= i < parts(list@, ',').len(),
    ensures
        ({
            let ps = parts(list@, ',');
            &&& dns matches Ok(all) ==> {
                &&& all@.no_duplicates()
                &&& all@.contains(0x0808_0808) && all@.contains(0x0101_0101)
                &&& trimmed(ps[i]).len() > 0 ==> ipv4_in(trimmed(ps[i])) is Some && all@.contains(
                    ipv4_in(trimmed(ps[i]))->0,
                )
                &&& trimmed(ps[0]).len() > 0 ==> all@[0] == ipv4_in(trimmed(ps[0]))->0
                &&& all@.contains(a) && a != 0x0808_0808 && a != 0x0101_0101 ==> exists|k: int|
                    0 <= k < ps.len() && ipv4_in(trimmed(#[trigger] ps[k])) == Some(a)
            }
            &&& dns matches Err(part) ==> part@.len() > 0 && ipv4_in(part@) is None
        }),
{
    let ps = parts(list@, ',');
    lemma_addresses(ps, i, a);
    lemma_addresses(ps, 0, a);
    if let Ok(all) = dns {
        let own = addresses_in(ps)->Ok_0;
        let given = own + FALLBACK_DNS@;
        lemma_without_repeats(given);
        let n = own.len() as int;
        assert(given[n] == 0x0808_0808 && given[n + 1] == 0x0101_0101);
        assert(given.contains(given[n]) && given.contains(given[n + 1]));
        lemma_first_stays(given);
        if trimmed(ps[i]).len() > 0 {
            let x = ipv4_in(trimmed(ps[i]))->0;
            let k = choose|k: int| 0 <= k < own.len() && own[k] == x;
            assert(given[k] == x);
        }
        if all@.contains(a) && a != 0x0808_0808 && a != 0x0101_0101 {
            assert(given.contains(a));
            let k = choose|k: int| 0 <= k < given.len() && given[k] == a;
            assert(own[k] == a);
        }
    }
}

/// Without a configured list the servers of the first file that names any are taken, in its order;
/// a file that names none is passed over. 8.8.8.8 and 1.1.1.1 are there either way.
pub proof fn law_the_first_file_with_servers_counts(
    files: &Vec<String>,
    dns: Result<Vec<u32>, String>,
    found: Seq<u32>,
    i: int,
    n: int,
)
    requires
        call_ensures(client_dns, (None::<&str>, files), dns),
        0 <= n < files@.len(),
        forall|k: int| 0 <= k < n ==> nameservers_in(lines_of(#[trigger] files@[k]@)).len() == 0,
        found == nameservers_in(lines_of(files@[n]@)),
        0 <= i < found.len(),
    ensures
        dns matches Ok(all) && {
            &&& all@.no_duplicates()
            &&& all@[0] == found[0]
            &&& all@.contains(found[i])
            &&& all@.contains(0x0808_0808) && all@.contains(0x0101_0101)
            &&& forall|a: u32| #[trigger]
                all@.contains(a) ==> found.contains(a) || a == 0x0808_0808 || a == 0x0101_0101
        },
{
    let all_texts = texts(files@);
    lemma_resolvers(all_texts, n);
    let own = resolvers_in(all_texts);
    assert(own == found);
    let given = own + FALLBACK_DNS@;
    lemma_without_repeats(given);
    lemma_first_stays(given);
    let m = own.len() as int;
    assert(given[m] == 0x0808_0808 && given[m + 1] == 0x0101_0101);
    assert(given.contains(given[m]) && given.contains(given[m + 1]));
    assert(given[i] == found[i]);
    assert(given.contains(given[i]));
    assert forall|a: u32| given.contains(a) implies found.contains(a) || a == 0x0808_0808 || a
        == 0x0101_0101 by {
        let k = choose|k: int| 0 <= k < given.len() && given[k] == a;
        if k < m {
            assert(found[k] == a);
        }
    }
}

proof fn lemma_resolvers(files: Seq<Seq<char>>, n: int)
    requires
        0 <= n < files.len(),
        forall|k: int| 0 <= k < n ==> nameservers_in(lines_of(#[trigger] files[k])).len() == 0,
        nameservers_in(lines_of(files[n])).len() > 0,
    ensures
        resolvers_in(files) == nameservers_in(lines_of(files[n])),
    decreases files.len(),
{
    if n > 0 {
        let rest = files.drop_first();
        assert forall|k: int| 0 <= k < n - 1 implies nameservers_in(lines_of(#[trigger] rest[k])).len()
            == 0 by {
            assert(rest[k] == files[k + 1]);
        }
        assert(nameservers_in(lines_of(files[0])).len() == 0);
        lemma_resolvers(rest, n - 1);
    }
}

/// A line that names a server gives its address, unless that is one of this very machine (it starts
/// with 127) or none (0.0.0.0).
pub proof fn law_nameserver_lines_name_servers(ip: u32)
    ensures
        nameserver_in("nameserver "@ + ipv4_text(ip)) == if ip / 0x100_0000 == 127 || ip == 0 {
            None::<u32>
        } else {
            Some(ip)
        },
{
    let (l, t) = ("nameserver "@ + ipv4_text(ip), ipv4_text(ip));
    reveal_strlit("nameserver ");
    reveal_strlit("nameserver");
    lemma_ipv4_text(ip);
    law_ipv4_text_is_read_back(ip);
    assert(l[0] == 'n' && l.last() == t.last());
    assert(is_digit(t.last()));
    lemma_trimmed_same(l);
    let rest = l.skip(10);
    assert(rest =~= seq![' '] + t);
    assert(l.take(10) =~= "nameserver"@);
    let n = lemma_trimmed_start(rest);
    assert(rest[0] == ' ');
    assert(rest[1] == t[0] && is_digit(t[0]));
    if n > 1 {
        assert(rest.take(n)[1] == t[0]);
    }
    assert(n == 1);
    assert(rest.skip(1) =~= t);
    let m = lemma_word_prefix(t);
    assert forall|i: int| 0 <= i < t.len() implies !is_white(#[trigger] t[i]) by {
        assert(is_digit(t[i]) || t[i] == '.');
    }
    assert(t.take(m) =~= t);
}

/// The servers of a file are those of its lines, one after the other.
pub proof fn law_servers_are_read_line_by_line(text: &str, found: Vec<u32>, a: u32)
    requires
        call_ensures(nameservers, (text,), found),
    ensures
        found@.contains(a) <==> exists|i: int|
            0 <= i < lines_of(text@).len() && nameserver_in(#[trigger] lines_of(text@)[i]) == Some(a),
{
    lemma_nameservers(lines_of(text@), a);
}

proof fn lemma_nameservers(ls: Seq<Seq<char>>, a: u32)
    ensures
        nameservers_in(ls).contains(a) <==> exists|i: int|
            0 <= i < ls.len() && nameserver_in(#[trigger] ls[i]) == Some(a),
    decreases ls.len(),
{
    if ls.len() > 0 {
        let t = ls.drop_last();
        lemma_nameservers(t, a);
        let (x, y) = (nameservers_in(t), nameservers_in(ls));
        assert(ls[ls.len() - 1] == ls.last());
        if x.contains(a) {
            let k = choose|k: int| 0 <= k < x.len() && x[k] == a;
            assert(y[k] == a);
            let i = choose|i: int| 0 <= i < t.len() && nameserver_in(#[trigger] t[i]) == Some(a);
            assert(ls[i] == t[i]);
        }
        if exists|i: int| 0 <= i < ls.len() && nameserver_in(#[trigger] ls[i]) == Some(a) {
            let i = choose|i: int| 0 <= i < ls.len() && nameserver_in(#[trigger] ls[i]) == Some(a);
            if i < t.len() {
                assert(t[i] == ls[i]);
            } else {
                assert(y[y.len() - 1] == a);
            }
        }
        if y.contains(a) && !x.contains(a) {
            let k = choose|k: int| 0 <= k < y.len() && y[k] == a;
            if k < x.len() {
                assert(x[k] == a);
            }
            assert(nameserver_in(ls[ls.len() - 1]) == Some(a));
        }
    }
}

} // verus!
