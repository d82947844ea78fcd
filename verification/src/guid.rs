//! GUIDs of peers and sessions.

use crate::bytes::{be_bytes, lemma_be_bytes, lemma_pow256_16, put_be};
use vstd::arithmetic::div_mod::lemma_div_denominator;
use vstd::arithmetic::power::{lemma_pow0, lemma_pow_adds, lemma_pow_positive, pow};
use vstd::prelude::*;

verus! {

/// A GUID: a number of 16 bytes, most significant first. The order of the numbers is the
/// dictionary order of the bytes.
#[derive(Clone, Copy, Debug, PartialEq, Eq, Structural)]
pub struct Guid {
    pub value: u128,
}

/// `uuid::Uuid::new_v4`: a random GUID. What holds of every one is its version (4) and its
/// variant.
#[verifier::external_body]
fn random_uuid() -> (value: u128)
    ensures
        (value / 0x1000_0000_0000_0000_0000) % 16 == 4,
        (value / 0x4000_0000_0000_0000) % 4 == 2,
{
    uuid::Uuid::new_v4().as_u128()
}

/// The hexadecimal digits.
pub open spec fn hex_digits() -> Seq<char> {
    seq!['0', '1', '2', '3', '4', '5', '6', '7', '8', '9', 'a', 'b', 'c', 'd', 'e', 'f']
}

/// The four bits of `value` that have `i` hexadecimal digits of the 32 before them.
pub open spec fn hex_at(value: u128, i: int) -> char {
    hex_digits()[(value as nat / pow(16, (31 - i) as nat) as nat % 16) as int]
}

/// A GUID as text: 32 hexadecimal digits in groups of 8, 4, 4, 4 and 12, with hyphens between.
pub open spec fn guid_text(value: u128) -> Seq<char> {
    Seq::new(
        36,
        |i: int|
            if i == 8 || i == 13 || i == 18 || i == 23 {
                '-'
            } else if i < 8 {
                hex_at(value, i)
            } else if i < 13 {
                hex_at(value, i - 1)
            } else if i < 18 {
                hex_at(value, i - 2)
            } else if i < 23 {
                hex_at(value, i - 3)
            } else {
                hex_at(value, i - 4)
            },
    )
}

/// `uuid::Uuid`'s `to_string`: the hyphenated form in lower case.
#[verifier::external_body]
fn uuid_to_string(value: u128) -> (text: String)
    ensures
        text@ == guid_text(value),
{
    uuid::Uuid::from_u128(value).to_string()
}

/// A GUID as text without hyphens.
pub open spec fn plain_text(value: u128) -> Seq<char> {
    Seq::new(32, |i: int| hex_at(value, i))
}

/// The text with the letters A to Z in lower case.
pub open spec fn lowered(text: Seq<char>) -> Seq<char> {
    text.map_values(
        |c: char|
            if 65 <= c as int <= 90 {
                ((c as int + 32) as u8) as char
            } else {
                c
            },
    )
}

/// The text is a form of the GUID, in lower or upper case: 32 digits, the same with hyphens, the
/// latter in braces or after `urn:uuid:`.
pub open spec fn is_form(text: Seq<char>, value: u128) -> bool {
    ||| lowered(text) == plain_text(value)
    ||| lowered(text) == guid_text(value)
    ||| lowered(text) == seq!['{'] + guid_text(value) + seq!['}']
    ||| lowered(text) == "urn:uuid:"@ + guid_text(value)
}

/// What the text denotes as a GUID, if anything.
pub open spec fn guid_of_text(text: Seq<char>) -> Option<u128> {
    if exists|value: u128| is_form(text, value) {
        Some(choose|value: u128| is_form(text, value))
    } else {
        None
    }
}

/// `uuid::Uuid::parse_str`: the GUID of which the text is a form (simple, hyphenated, braced or
/// URN, the letters in either case), and nothing, where it is a form of none.
#[verifier::external_body]
fn parse_uuid(text: &str) -> (value: Option<u128>)
    ensures
        match value {
            Some(v) => is_form(text@, v),
            None => forall|v: u128| !is_form(text@, v),
        },
{
    uuid::Uuid::parse_str(text).ok().map(|id| id.as_u128())
}

/// Two GUIDs with the same digits up to place `n` agree above that place.
proof fn lemma_same_digits(v: u128, w: u128, n: nat)
    requires
        n <= 32,
        forall|i: int| 0 <= i < n ==> hex_at(v, i) == #[trigger] hex_at(w, i),
    ensures
        pow(16, (32 - n) as nat) > 0,
        v as int / pow(16, (32 - n) as nat) == w as int / pow(16, (32 - n) as nat),
    decreases n,
{
    lemma_pow_positive(16, (32 - n) as nat);
    if n == 0 {
        assert(pow(16, 32) == 0x1_0000_0000_0000_0000_0000_0000_0000_0000) by {
            assert(pow(16, 8) == 0x1_0000_0000) by {
                reveal_with_fuel(pow, 9);
            }
            lemma_pow_adds(16, 8, 8);
            assert(pow(16, 8 + 8) == 0x1_0000_0000_0000_0000);
            lemma_pow_adds(16, 16, 16);
            assert(pow(16, 16 + 16) == pow(16, 16) * pow(16, 16));
        }
    } else {
        let k = (n - 1) as nat;
        lemma_same_digits(v, w, k);
        let p = pow(16, (31 - k) as nat);
        assert(pow(16, (32 - k) as nat) == 16 * p) by {
            reveal(pow);
        }
        lemma_div_denominator(v as int, p, 16);
        lemma_div_denominator(w as int, p, 16);
        assert(p * 16 == 16 * p);
        let (x, y) = (v as int / p, w as int / p);
        assert(x / 16 == y / 16);
        assert(hex_at(v, k as int) == hex_at(w, k as int));
        assert(hex_digits()[x % 16] == hex_digits()[y % 16]);
        assert(x % 16 == y % 16);
    }
}

/// GUIDs with the same 32 digits are the same.
proof fn lemma_digits_tell(v: u128, w: u128)
    requires
        forall|i: int| 0 <= i < 32 ==> hex_at(v, i) == #[trigger] hex_at(w, i),
    ensures
        v == w,
{
    lemma_same_digits(v, w, 32);
    lemma_pow0(16);
}

/// GUIDs with the same text are the same.
pub proof fn law_text_tells_the_guid(v: u128, w: u128)
    requires
        guid_text(v) == guid_text(w),
    ensures
        v == w,
{
    assert forall|i: int| 0 <= i < 32 implies hex_at(v, i) == #[trigger] hex_at(w, i) by {
        let (a, b) = (guid_text(v), guid_text(w));
        if i < 8 {
            assert(a[i] == hex_at(v, i) && b[i] == hex_at(w, i));
        } else if i < 12 {
            assert(a[i + 1] == hex_at(v, i) && b[i + 1] == hex_at(w, i));
        } else if i < 16 {
            assert(a[i + 2] == hex_at(v, i) && b[i + 2] == hex_at(w, i));
        } else if i < 20 {
            assert(a[i + 3] == hex_at(v, i) && b[i + 3] == hex_at(w, i));
        } else {
            assert(a[i + 4] == hex_at(v, i) && b[i + 4] == hex_at(w, i));
        }
    }
    lemma_digits_tell(v, w);
}

/// A text is a form of one GUID at most, and denotes it.
pub proof fn law_a_form_denotes_its_guid(text: Seq<char>, value: u128)
    requires
        is_form(text, value),
    ensures
        guid_of_text(text) == Some(value),
{
    let w = choose|w: u128| is_form(text, w);
    let (a, b) = (guid_text(value), guid_text(w));
    reveal_strlit("urn:uuid:");
    assert(lowered(text).len() == text.len());
    if text.len() == 32 {
        assert forall|i: int| 0 <= i < 32 implies hex_at(value, i) == #[trigger] hex_at(w, i) by {
            assert(plain_text(value)[i] == plain_text(w)[i]);
        }
        lemma_digits_tell(value, w);
    } else if text.len() == 36 {
        law_text_tells_the_guid(value, w);
    } else if text.len() == 38 {
        assert((seq!['{'] + a + seq!['}']).subrange(1, 37) =~= a);
        assert((seq!['{'] + b + seq!['}']).subrange(1, 37) =~= b);
        law_text_tells_the_guid(value, w);
    } else {
        assert(("urn:uuid:"@ + a).skip(9) =~= a);
        assert(("urn:uuid:"@ + b).skip(9) =~= b);
        law_text_tells_the_guid(value, w);
    }
}

/// The text of a GUID, in lower or upper case, denotes it.
pub proof fn law_guid_text_is_read_back(text: Seq<char>, value: u128)
    requires
        text == guid_text(value) || lowered(text) == guid_text(value),
    ensures
        guid_of_text(text) == Some(value),
{
    if text == guid_text(value) {
        assert forall|i: int| 0 <= i < 36 implies lowered(text)[i] == #[trigger] text[i] by {
            assert forall|k: int| 0 <= k < 32 implies !(65 <= #[trigger] hex_at(value, k) as int <= 90) by {}
        }
        assert(lowered(text) =~= text);
    }
    law_a_form_denotes_its_guid(text, value);
}

impl Guid {
    /// The bytes of the GUID, most significant first.
    pub open spec fn bytes(self) -> Seq<u8> {
        be_bytes(self.value as nat, 16)
    }

    /// Reads a GUID.
    pub fn parse(text: &str) -> (guid: Option<Guid>)
        ensures
            guid is Some <==> guid_of_text(text@) is Some,
            guid matches Some(g) ==> Some(g.value) == guid_of_text(text@),
    {
        match parse_uuid(text) {
            Some(value) => {
                proof {
                    law_a_form_denotes_its_guid(text@, value);
                }
                Some(Guid { value })
            },
            None => None,
        }
    }

    /// The GUID as text.
    pub fn text(self) -> (text: String)
        ensures
            text@ == guid_text(self.value),
            guid_of_text(text@) == Some(self.value),
    {
        proof {
            law_guid_text_is_read_back(guid_text(self.value), self.value);
        }
        uuid_to_string(self.value)
    }

    /// A new random GUID.
    pub fn random() -> (guid: Guid)
        ensures
            (guid.value / 0x1000_0000_0000_0000_0000) % 16 == 4,
            (guid.value / 0x4000_0000_0000_0000) % 4 == 2,
    {
        Guid { value: random_uuid() }
    }

    /// The bytes of the GUID, most significant first.
    pub fn to_bytes(self) -> (out: [u8; 16])
        ensures
            out@ == self.bytes(),
    {
        let mut bytes: Vec<u8> = Vec::new();
        put_be(&mut bytes, self.value, 16);
        proof {
            lemma_be_bytes(self.value as nat, 16);
            assert(bytes@ =~= self.bytes());
        }
        let mut out: [u8; 16] = [0u8; 16];
        let mut i: usize = 0;
        while i < 16
            invariant
                i <= 16,
                bytes@.len() == 16,
                forall|k: int| 0 <= k < i ==> out@[k] == bytes@[k],
            decreases 16 - i,
        {
            out[i] = bytes[i];
            i += 1;
        }
        assert(out@ =~= bytes@);
        out
    }
}

/// Different GUIDs have different bytes.
pub proof fn lemma_bytes_injective(a: Guid, b: Guid)
    requires
        a.bytes() == b.bytes(),
    ensures
        a == b,
{
    lemma_pow256_16();
    lemma_be_bytes(a.value as nat, 16);
    lemma_be_bytes(b.value as nat, 16);
}

/// The lower one of two GUIDs.
pub open spec fn low(a: Guid, b: Guid) -> Guid {
    if a.value <= b.value {
        a
    } else {
        b
    }
}

/// The higher one of two GUIDs.
pub open spec fn high(a: Guid, b: Guid) -> Guid {
    if a.value <= b.value {
        b
    } else {
        a
    }
}

/// Two GUIDs in ascending order.
pub fn ordered(a: Guid, b: Guid) -> (pair: (Guid, Guid))
    ensures
        pair == (low(a, b), high(a, b)),
{
    if a.value <= b.value {
        (a, b)
    } else {
        (b, a)
    }
}

/// Two GUIDs in order are those two, the lower one first.
pub proof fn law_the_lower_guid_comes_first(a: Guid, b: Guid, pair: (Guid, Guid))
    requires
        call_ensures(ordered, (a, b), pair),
    ensures
        pair.0.value <= pair.1.value,
        pair == (a, b) || pair == (b, a),
{
}

/// The bytes of a GUID are those of its number, highest byte first.
pub proof fn law_the_highest_byte_of_a_guid_comes_first(guid: Guid, bytes: [u8; 16], i: nat)
    requires
        call_ensures(Guid::to_bytes, (guid,), bytes),
        i < 16,
    ensures
        bytes@[15 - i] == guid.value as int / pow(256, i) % 256,
{
    crate::number_laws::lemma_pow256_is_pow(i);
    crate::bytes::lemma_be_index(guid.value as nat, 16, i);
}

/// A GUID is written in 36 characters: the digits of its number to the base sixteen, the highest
/// first, in small letters, in groups of 8, 4, 4, 4 and 12 with hyphens between them.
pub proof fn law_guids_are_written_in_sixteens(guid: Guid, text: String, i: int)
    requires
        call_ensures(Guid::text, (guid,), text),
        0 <= i < 36,
    ensures
        text@.len() == 36,
        i == 8 || i == 13 || i == 18 || i == 23 ==> text@[i] == '-',
        i != 8 && i != 13 && i != 18 && i != 23 ==> {
            let before: int = if i < 8 {
                0
            } else if i < 13 {
                1
            } else if i < 18 {
                2
            } else if i < 23 {
                3
            } else {
                4
            };
            let d = guid.value as int / pow(16, (31 - i + before) as nat) % 16;
            text@[i] as int == if d < 10 {
                '0' as int + d
            } else {
                'a' as int + d - 10
            }
        },
{
    let before: int = if i < 8 {
        0
    } else if i < 13 {
        1
    } else if i < 18 {
        2
    } else if i < 23 {
        3
    } else {
        4
    };
    let p = pow(16, (31 - i + before) as nat);
    lemma_pow_positive(16, (31 - i + before) as nat);
    let d = guid.value as int / p % 16;
    assert(0 <= d < 16);
}

/// A GUID is read from its text, and from its text in braces, behind `urn:uuid:`, or without its
/// hyphens.
pub proof fn law_guids_are_read_in_four_forms(guid: Guid, text: String, given: &str, read: Option<Guid>)
    requires
        call_ensures(Guid::text, (guid,), text),
        call_ensures(Guid::parse, (given,), read),
        ({
            let t = text@;
            ||| given@ == t
            ||| given@ == seq!['{'] + t + seq!['}']
            ||| given@ == seq!['u', 'r', 'n', ':', 'u', 'u', 'i', 'd', ':'] + t
            ||| given@ == t.take(8) + t.subrange(9, 13) + t.subrange(14, 18) + t.subrange(19, 23)
                + t.skip(24)
        }),
    ensures
        read == Some(guid),
{
    let v = guid.value;
    let t = text@;
    let g = given@;
    reveal_strlit("urn:uuid:");
    assert("urn:uuid:"@ =~= seq!['u', 'r', 'n', ':', 'u', 'u', 'i', 'd', ':']);
    assert forall|k: int| 0 <= k < 32 implies !(65 <= #[trigger] hex_at(v, k) as int <= 90) by {}
    assert forall|i: int| 0 <= i < 36 implies !(65 <= #[trigger] t[i] as int <= 90) by {}
    if g == t {
        assert(lowered(g) =~= t);
    } else if g == seq!['{'] + t + seq!['}'] {
        assert(lowered(g) =~= g);
    } else if g == "urn:uuid:"@ + t {
        assert(lowered(g) =~= g);
    } else {
        assert(g =~= plain_text(v));
        assert(lowered(g) =~= g);
    }
    law_a_form_denotes_its_guid(g, v);
}

} // verus!
