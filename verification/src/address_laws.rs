//! How addresses are written, character by character.

use crate::address_pools::lemma_two_to_is_pow2;
use crate::address_text::{beside, parse_endpoint, AddressTexts};
use crate::endpoints::{add_endpoint, add_without, holds_endpoint, without};
use crate::net::{
    ipv4, ipv4_in, ipv4_text, is_interface_name, law_ipv4_text_is_read_back, octet_in, parse_cidr, parse_ipv4,
    prefix_mask, push_ipv4, Endpoint, Ip,
};
use crate::subnet::lemma_two_to;
use crate::text::{
    all_digits, decimal, digit, digits_value, first_at, is_digit, lemma_decimal, lemma_first_at,
    lemma_parts_join, parts, trimmed,
};
use crate::text_laws::{lemma_parts, with_between};
use vstd::arithmetic::power2::pow2;
use vstd::prelude::*;
use vstd::string::*;

verus! {

/// Four numbers with dots between them.
pub open spec fn dotted(a: u8, b: u8, c: u8, d: u8) -> Seq<char> {
    decimal(a as nat) + seq!['.'] + decimal(b as nat) + seq!['.'] + decimal(c as nat) + seq!['.']
        + decimal(d as nat)
}

/// The address of four numbers, the first one the highest.
pub open spec fn of_four(a: u8, b: u8, c: u8, d: u8) -> u32 {
    (a * 16777216 + b * 65536 + c * 256 + d) as u32
}

proof fn lemma_dotted(a: u8, b: u8, c: u8, d: u8)
    ensures
        ipv4_text(of_four(a, b, c, d)) == dotted(a, b, c, d),
        ipv4_in(dotted(a, b, c, d)) == Some(of_four(a, b, c, d)),
        !dotted(a, b, c, d).contains('/'),
        !dotted(a, b, c, d).contains(':'),
{
    reveal_strlit(".");
    assert("."@ =~= seq!['.']);
    let ip = of_four(a, b, c, d);
    lemma_of_four(a, b, c, d);
    law_ipv4_text_is_read_back(ip);
    lemma_dotted_holds_no(a, b, c, d, '/');
    lemma_dotted_holds_no(a, b, c, d, ':');
}

proof fn lemma_of_four(a: u8, b: u8, c: u8, d: u8)
    ensures
        ({
            let ip = of_four(a, b, c, d);
            &&& ip / 0x100_0000 == a
            &&& ip / 0x1_0000 % 256 == b
            &&& ip / 0x100 % 256 == c
            &&& ip % 256 == d
        }),
{
    let (x, y) = (b * 65536 + c * 256 + d, c * 256 + d);
    assert(0 <= x < 0x100_0000 && 0 <= y < 0x1_0000);
    assert((a * 0x100_0000 + x) / 0x100_0000 == a);
    assert((a * 256 + b) * 0x1_0000 + y == a * 0x100_0000 + x);
    assert(((a * 256 + b) * 0x1_0000 + y) / 0x1_0000 == a * 256 + b);
    assert((a * 256 + b) % 256 == b);
    let z = a * 65536 + b * 256 + c;
    assert((z * 256 + d) / 256 == z && (z * 256 + d) % 256 == d);
    assert(z % 256 == c);
}

proof fn lemma_dotted_holds_no(a: u8, b: u8, c: u8, d: u8, x: char)
    requires
        !is_digit(x),
        x != '.',
    ensures
        !dotted(a, b, c, d).contains(x),
{
    let one = decimal(a as nat) + seq!['.'];
    let two = one + decimal(b as nat) + seq!['.'];
    let three = two + decimal(c as nat) + seq!['.'];
    lemma_digits_and_dot(Seq::empty(), a, x);
    assert(Seq::<char>::empty() + decimal(a as nat) + seq!['.'] =~= one);
    lemma_digits_and_dot(one, b, x);
    lemma_digits_and_dot(two, c, x);
    lemma_digits_and_dot(three, d, x);
}

proof fn lemma_digits_and_dot(before: Seq<char>, n: u8, x: char)
    requires
        !is_digit(x),
        x != '.',
        !before.contains(x),
    ensures
        !(before + decimal(n as nat)).contains(x),
        !(before + decimal(n as nat) + seq!['.']).contains(x),
{
    lemma_decimal(n as nat);
    let all = before + decimal(n as nat);
    assert forall|i: int| 0 <= i < all.len() implies all[i] != x by {
        if i < before.len() {
            assert(before.contains(before[i]));
        } else {
            assert(is_digit(decimal(n as nat)[i - before.len()]));
        }
    }
    let more = all + seq!['.'];
    assert forall|i: int| 0 <= i < more.len() implies more[i] != x by {
        if i < all.len() {
            assert(all.contains(all[i]));
        }
    }
}

/// Digits without a zero before others are how their number is written.
proof fn lemma_canonical(s: Seq<char>)
    requires
        s.len() > 0,
        all_digits(s),
        s.len() == 1 || s[0] != '0',
    ensures
        decimal(digits_value(s)) == s,
        s.len() > 1 ==> digits_value(s) >= 10,
        s[0] != '0' ==> digits_value(s) > 0,
    decreases s.len(),
{
    let rest = s.drop_last();
    assert(is_digit(s.last()));
    assert(is_digit(s[0]));
    let last = (s.last() as int - 48) as nat;
    assert(digit(last) == s.last());
    if s.len() == 1 {
        reveal_with_fuel(digits_value, 2);
        assert(digits_value(s) == last);
        assert(s =~= seq![s.last()]);
    } else {
        assert forall|i: int| 0 <= i < rest.len() implies is_digit(#[trigger] rest[i]) by {
            assert(rest[i] == s[i]);
        }
        lemma_canonical(rest);
        let v = digits_value(rest);
        assert(digits_value(s) == 10 * v + last);
        assert((10 * v + last) / 10 == v && (10 * v + last) % 10 == last);
        assert(s =~= rest.push(s.last()));
    }
}

/// Four numbers up to 255 with dots between them are an address, the first number its highest
/// byte, and an address is written like that.
pub proof fn law_an_address_is_four_numbers(
    text: &str,
    a: u8,
    b: u8,
    c: u8,
    d: u8,
    read: Option<u32>,
    ip: u32,
)
    requires
        call_ensures(parse_ipv4, (text,), read),
        call_ensures(ipv4, (a, b, c, d), ip),
    ensures
        ip == of_four(a, b, c, d),
        text@ == dotted(a, b, c, d) ==> read == Some(of_four(a, b, c, d)),
        forall|out: &mut String| #[trigger]
            call_ensures(push_ipv4, (out, ip), ()) ==> final(out)@ == (*out)@ + dotted(a, b, c, d),
{
    lemma_dotted(a, b, c, d);
}

/// No other text is an address: what is read as one is how it is written. So no number has a zero
/// before its digits, a sign, or a value over 255.
pub proof fn law_no_other_text_is_an_address(text: &str, read: Option<u32>)
    requires
        call_ensures(parse_ipv4, (text,), read),
    ensures
        read is Some ==> exists|a: u8, b: u8, c: u8, d: u8|
            text@ == #[trigger] dotted(a, b, c, d) && read == Some(of_four(a, b, c, d)),
{
    if read is Some {
        let ps = parts(text@, '.');
        lemma_parts(text@, '.');
        let (a, b, c, d) = (
            octet_in(ps[0])->0,
            octet_in(ps[1])->0,
            octet_in(ps[2])->0,
            octet_in(ps[3])->0,
        );
        lemma_canonical(ps[0]);
        lemma_canonical(ps[1]);
        lemma_canonical(ps[2]);
        lemma_canonical(ps[3]);
        reveal_with_fuel(with_between, 5);
        assert(ps.skip(1).skip(1) =~= ps.skip(2));
        assert(ps.skip(2).skip(1) =~= ps.skip(3));
        assert(with_between(ps.skip(3), '.') == ps[3]);
        assert(with_between(ps.skip(2), '.') == ps[2] + seq!['.'] + ps[3]);
        assert(with_between(ps.skip(1), '.') == ps[1] + seq!['.'] + (ps[2] + seq!['.'] + ps[3]));
        assert(text@ =~= dotted(a, b, c, d));
    }
}

/// An address with a prefix is an address, a slash and a number up to 32, with white space around
/// them or not.
pub proof fn law_a_prefix_follows_a_slash(
    text: &str,
    a: u8,
    b: u8,
    c: u8,
    d: u8,
    prefix: nat,
    read: Option<(u32, u8)>,
)
    requires
        call_ensures(parse_cidr, (text,), read),
        trimmed(text@) == dotted(a, b, c, d) + seq!['/'] + decimal(prefix),
    ensures
        prefix <= 32 ==> read == Some((of_four(a, b, c, d), prefix as u8)),
        prefix > 32 ==> read is None,
{
    let t = trimmed(text@);
    lemma_dotted(a, b, c, d);
    let front = dotted(a, b, c, d);
    assert forall|i: int| 0 <= i < front.len() implies front[i] != '/' by {
        assert(front.contains(front[i]));
    }
    lemma_parts_join(front, '/', decimal(prefix));
    assert(t.take(front.len() as int) =~= front);
    assert(t.skip(front.len() as int + 1) =~= decimal(prefix));
    lemma_decimal(prefix);
    assert(is_digit(decimal(prefix)[0]));
}

/// What is read as an address with a prefix has a prefix of at most 32 bits.
pub proof fn law_a_prefix_has_at_most_32_bits(text: &str, read: Option<(u32, u8)>)
    requires
        call_ensures(parse_cidr, (text,), read),
    ensures
        read matches Some((_, prefix)) ==> prefix <= 32 && trimmed(text@).contains('/'),
{
    if read is Some {
        let t = trimmed(text@);
        lemma_first_at(t, '/');
        assert(t[first_at(t, '/')] == '/');
    }
}

/// An endpoint is an address, a colon and a port up to 65535.
pub proof fn law_a_port_follows_a_colon(
    text: &str,
    a: u8,
    b: u8,
    c: u8,
    d: u8,
    port: nat,
    read: Option<Endpoint>,
    texts: &AddressTexts,
    denoted: Option<Endpoint>,
)
    requires
        call_ensures(parse_endpoint, (text,), read),
        call_ensures(AddressTexts::endpoint, (texts, text), denoted),
        text@ == dotted(a, b, c, d) + seq![':'] + decimal(port),
    ensures
        port <= 65535 ==> (read matches Some(e) && e.ip == Ip::V4(of_four(a, b, c, d)) && e.port == port
            && e.flow_info == 0 && e.scope_id == 0),
        port > 65535 ==> read is None,
        read is Some ==> denoted == read,
{
    lemma_dotted(a, b, c, d);
    let front = dotted(a, b, c, d);
    assert forall|i: int| 0 <= i < front.len() implies front[i] != ':' by {
        assert(front.contains(front[i]));
    }
    lemma_parts_join(front, ':', decimal(port));
    assert(text@.take(front.len() as int) =~= front);
    assert(text@.skip(front.len() as int + 1) =~= decimal(port));
    lemma_decimal(port);
}

pub proof fn lemma_beside<T>(entries: Seq<(String, T)>, text: Seq<char>, i: int)
    requires
        0 <= i < entries.len(),
        entries[i].0@ == text,
        forall|k: int| 0 <= k < i ==> (#[trigger] entries[k]).0@ != text,
    ensures
        beside(entries, text) == Some(entries[i].1),
    decreases i,
{
    if i > 0 {
        let rest = entries.skip(1);
        assert(entries[0].0@ != text);
        assert forall|k: int| 0 <= k < i - 1 implies (#[trigger] rest[k]).0@ != text by {
            assert(rest[k] == entries[k + 1]);
        }
        lemma_beside(rest, text, i - 1);
    }
}

pub proof fn lemma_beside_none<T>(entries: Seq<(String, T)>, text: Seq<char>)
    requires
        forall|k: int| 0 <= k < entries.len() ==> (#[trigger] entries[k]).0@ != text,
    ensures
        beside(entries, text) is None,
    decreases entries.len(),
{
    if entries.len() > 0 {
        let rest = entries.skip(1);
        assert forall|k: int| 0 <= k < rest.len() implies (#[trigger] rest[k]).0@ != text by {
            assert(rest[k] == entries[k + 1]);
        }
        lemma_beside_none(rest, text);
    }
}

/// A text that is not read here has the meaning that is listed for it, the first one where there
/// are several, and none where there is none.
pub proof fn law_other_endpoints_are_looked_up(
    texts: &AddressTexts,
    text: &str,
    read: Option<Endpoint>,
    denoted: Option<Endpoint>,
    i: int,
)
    requires
        call_ensures(parse_endpoint, (text,), read),
        call_ensures(AddressTexts::endpoint, (texts, text), denoted),
        0 <= i <= texts.endpoints@.len(),
        forall|k: int| 0 <= k < i ==> (#[trigger] texts.endpoints@[k]).0@ != text@,
        i < texts.endpoints@.len() ==> texts.endpoints@[i].0@ == text@,
    ensures
        read is Some ==> denoted == read,
        read is None && i < texts.endpoints@.len() ==> denoted == Some(texts.endpoints@[i].1),
        read is None && i == texts.endpoints@.len() ==> denoted is None,
{
    if i < texts.endpoints@.len() {
        lemma_beside(texts.endpoints@, text@, i);
    } else {
        lemma_beside_none(texts.endpoints@, text@);
    }
}

/// The same holds of addresses without a port.
pub proof fn law_other_addresses_are_looked_up(
    texts: &AddressTexts,
    text: &str,
    read: Option<u32>,
    denoted: Option<Ip>,
    i: int,
)
    requires
        call_ensures(parse_ipv4, (text,), read),
        call_ensures(AddressTexts::ip, (texts, text), denoted),
        0 <= i <= texts.ips@.len(),
        forall|k: int| 0 <= k < i ==> (#[trigger] texts.ips@[k]).0@ != text@,
        i < texts.ips@.len() ==> texts.ips@[i].0@ == text@,
    ensures
        read matches Some(ip) ==> denoted == Some(Ip::V4(ip)),
        read is None && i < texts.ips@.len() ==> denoted == Some(texts.ips@[i].1),
        read is None && i == texts.ips@.len() ==> denoted is None,
{
    if i < texts.ips@.len() {
        lemma_beside(texts.ips@, text@, i);
    } else {
        lemma_beside_none(texts.ips@, text@);
    }
}

/// A mask and the part of an address that it leaves out make up all bits.
pub proof fn law_a_mask_leaves_out_the_hosts(prefix: u8, mask: u32)
    requires
        call_ensures(prefix_mask, (prefix,), mask),
        prefix <= 32,
    ensures
        mask + pow2((32 - prefix) as nat) == 0x1_0000_0000,
{
    lemma_two_to_is_pow2((32 - prefix) as nat);
    lemma_two_to();
}

/// The name of an interface has at most 15 bytes, and none of them is zero.
pub proof fn law_interface_names_are_short(name: &str, is_one: bool, i: int)
    requires
        call_ensures(is_interface_name, (name,), is_one),
        0 <= i < name.spec_bytes().len(),
    ensures
        is_one ==> name.spec_bytes().len() <= 15 && name.spec_bytes()[i] != 0,
        !is_one && name.spec_bytes().len() <= 15 ==> name.spec_bytes().contains(0),
{
}

proof fn lemma_without_is_filter(s: Seq<Endpoint>, e: Endpoint)
    ensures
        without(s, e) == s.filter(|x: Endpoint| x != e),
    decreases s.len(),
{
    reveal(Seq::filter);
    if s.len() > 0 {
        lemma_without_is_filter(s.drop_last(), e);
    }
}

/// Lists of endpoints: one is appended only where it is not yet listed; of others all but one are
/// appended, in their order.
pub proof fn law_lists_of_endpoints_grow(e: Endpoint, from: &[Endpoint], start: usize, x: Endpoint)
    requires
        start <= from@.len(),
    ensures
        forall|list: &mut Vec<Endpoint>| #[trigger]
            call_ensures(add_endpoint, (list, e), ()) ==> {
                &&& final(list)@.contains(e)
                &&& (*list)@.is_prefix_of(final(list)@)
                &&& final(list)@.contains(x) ==> x == e || (*list)@.contains(x)
                &&& (*list)@.no_duplicates() ==> final(list)@.no_duplicates()
            },
        forall|list: &mut Vec<Endpoint>| #[trigger]
            call_ensures(add_without, (list, from, start, e), ()) ==> final(list)@ == (*list)@
                + from@.skip(start as int).filter(|x: Endpoint| x != e),
{
    assert forall|list: &mut Vec<Endpoint>| #[trigger] call_ensures(add_endpoint, (list, e), ()) implies {
        &&& final(list)@.contains(e)
        &&& (*list)@.is_prefix_of(final(list)@)
        &&& final(list)@.contains(x) ==> x == e || (*list)@.contains(x)
        &&& (*list)@.no_duplicates() ==> final(list)@.no_duplicates()
    } by {
        let (before, after) = ((*list)@, final(list)@);
        if !before.contains(e) {
            assert(after[before.len() as int] == e);
            assert(before =~= after.take(before.len() as int));
            if after.contains(x) {
                let k = after.index_of(x);
                assert(after[k] == x);
                if k < before.len() {
                    assert(before[k] == x);
                }
            }
        } else {
            assert(before =~= after.take(before.len() as int));
        }
    }
    lemma_without_is_filter(from@.skip(start as int), e);
}

/// Looking an endpoint up finds it wherever it stands.
pub proof fn law_listed_endpoints_are_found(list: &Vec<Endpoint>, e: Endpoint, found: bool, i: int)
    requires
        call_ensures(holds_endpoint, (list, e), found),
        0 <= i < list@.len(),
    ensures
        list@[i] == e ==> found,
        found ==> exists|k: int| 0 <= k < list@.len() && list@[k] == e,
{
}

} // verus!
