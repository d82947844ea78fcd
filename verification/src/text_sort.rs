//! Texts in dictionary order.

use crate::text::{chars, code};
use vstd::prelude::*;
use vstd::relations::{sorted_by, total_ordering};
use vstd::string::*;

verus! {

/// `a` comes before `b` in the dictionary order of characters, or is equal to it.
pub open spec fn text_le(a: Seq<char>, b: Seq<char>) -> bool
    decreases a.len(),
{
    if a.len() == 0 {
        true
    } else if b.len() == 0 {
        false
    } else if a[0] != b[0] {
        (a[0] as int) < (b[0] as int)
    } else {
        text_le(a.drop_first(), b.drop_first())
    }
}

pub open spec fn dictionary() -> spec_fn(Seq<char>, Seq<char>) -> bool {
    |a: Seq<char>, b: Seq<char>| text_le(a, b)
}

proof fn lemma_reflexive(a: Seq<char>)
    ensures
        text_le(a, a),
    decreases a.len(),
{
    if a.len() > 0 {
        lemma_reflexive(a.drop_first());
    }
}

proof fn lemma_antisymmetric(a: Seq<char>, b: Seq<char>)
    requires
        text_le(a, b),
        text_le(b, a),
    ensures
        a == b,
    decreases a.len(),
{
    if a.len() > 0 && b.len() > 0 {
        assert(a[0] == b[0]);
        lemma_antisymmetric(a.drop_first(), b.drop_first());
        assert(a =~= seq![a[0]] + a.drop_first());
        assert(b =~= seq![b[0]] + b.drop_first());
    } else {
        assert(a =~= b);
    }
}

proof fn lemma_transitive(a: Seq<char>, b: Seq<char>, c: Seq<char>)
    requires
        text_le(a, b),
        text_le(b, c),
    ensures
        text_le(a, c),
    decreases a.len(),
{
    if a.len() > 0 && b.len() > 0 && c.len() > 0 {
        if a[0] == b[0] && b[0] == c[0] {
            lemma_transitive(a.drop_first(), b.drop_first(), c.drop_first());
        }
    }
}

proof fn lemma_connected(a: Seq<char>, b: Seq<char>)
    ensures
        text_le(a, b) || text_le(b, a),
    decreases a.len(),
{
    if a.len() > 0 && b.len() > 0 && a[0] == b[0] {
        lemma_connected(a.drop_first(), b.drop_first());
    }
}

pub proof fn lemma_dictionary_is_total()
    ensures
        total_ordering(dictionary()),
{
    let le = dictionary();
    assert forall|a: Seq<char>| #[trigger] le(a, a) by {
        lemma_reflexive(a);
    }
    assert forall|a: Seq<char>, b: Seq<char>| #[trigger] le(a, b) && #[trigger] le(b, a) implies a == b by {
        lemma_antisymmetric(a, b);
    }
    assert forall|a: Seq<char>, b: Seq<char>, c: Seq<char>| #[trigger] le(a, b) && #[trigger] le(b, c) implies le(a, c) by {
        lemma_transitive(a, b, c);
    }
    assert forall|a: Seq<char>, b: Seq<char>| #[trigger] le(a, b) || #[trigger] le(b, a) by {
        lemma_connected(a, b);
    }
}

fn is_le(a: &str, b: &str) -> (le: bool)
    ensures
        le == text_le(a@, b@),
{
    let (x, y) = (chars(a), chars(b));
    let mut i: usize = 0;
    assert(x@.skip(0) =~= x@ && y@.skip(0) =~= y@);
    while i < x.len() && i < y.len()
        invariant
            x@ == a@,
            y@ == b@,
            i <= x@.len(),
            i <= y@.len(),
            text_le(a@, b@) == text_le(x@.skip(i as int), y@.skip(i as int)),
        decreases x@.len() - i,
    {
        assert(x@.skip(i as int).drop_first() =~= x@.skip(i + 1));
        assert(y@.skip(i as int).drop_first() =~= y@.skip(i + 1));
        if x[i] != y[i] {
            return code(x[i]) < code(y[i]);
        }
        i += 1;
    }
    i == x.len()
}

/// The views of texts.
pub open spec fn texts(v: Seq<String>) -> Seq<Seq<char>> {
    Seq::new(v.len(), |i: int| v[i]@)
}

fn insert_sorted(v: &mut Vec<String>, x: String)
    requires
        sorted_by(texts(old(v)@), dictionary()),
    ensures
        sorted_by(texts(final(v)@), dictionary()),
        texts(final(v)@).to_multiset() == texts(old(v)@).to_multiset().insert(x@),
{
    let ghost before = texts(v@);
    let ghost text = x@;
    let mut i: usize = v.len();
    while i > 0 && !is_le(v[i - 1].as_str(), x.as_str())
        invariant
            i <= v@.len(),
            text == x@,
            v@ == old(v)@,
            before == texts(v@),
            sorted_by(before, dictionary()),
            forall|k: int| i <= k < before.len() ==> !text_le(#[trigger] before[k], text),
        decreases i,
    {
        assert(before[i - 1] == v@[i - 1]@);
        i -= 1;
    }
    proof {
        lemma_dictionary_is_total();
        let le = dictionary();
        assert forall|k: int| 0 <= k < i implies text_le(#[trigger] before[k], text) by {
            assert(before[i - 1] == v@[i - 1]@);
            if k < i - 1 {
                assert(le(before[k], before[i - 1]));
                lemma_transitive(before[k], before[i - 1], text);
            }
        }
        assert forall|k: int| i <= k < before.len() implies text_le(text, #[trigger] before[k]) by {
            lemma_connected(text, before[k]);
        }
    }
    v.insert(i, x);
    proof {
        broadcast use vstd::seq_lib::group_to_multiset_ensures;

        let after = texts(v@);
        assert(after =~= before.insert(i as int, text));
        assert(after.remove(i as int) =~= before);
        assert(after.contains(after[i as int]));
        assert(after.to_multiset() =~= before.to_multiset().insert(text));
        let le = dictionary();
        assert forall|a: int, b: int| 0 <= a < b < after.len() implies #[trigger] le(after[a], after[b]) by {
            if a < i && b > i {
                assert(le(before[a], before[b - 1]));
            } else if b < i {
                assert(le(before[a], before[b]));
            } else if a > i {
                assert(le(before[a - 1], before[b - 1]));
            }
        }
    }
}

/// The texts in dictionary order.
pub fn sorted(mut given: Vec<String>) -> (out: Vec<String>)
    ensures
        texts(out@) == texts(given@).sort_by(dictionary()),
{
    let ghost all = texts(given@);
    let mut out: Vec<String> = Vec::new();
    proof {
        assert(texts(out@) =~= Seq::<Seq<char>>::empty());
        assert(all.skip(all.len() as int) =~= Seq::<Seq<char>>::empty());
    }
    loop
        invariant
            texts(given@) == all.take(given@.len() as int),
            given@.len() <= all.len(),
            sorted_by(texts(out@), dictionary()),
            texts(out@).to_multiset() == all.skip(given@.len() as int).to_multiset(),
        ensures
            given@.len() == 0,
        decreases given@.len(),
    {
        let ghost n = given@.len();
        let ghost last = texts(given@).last();
        match given.pop() {
            Some(x) => {
                proof {
                    assert(x@ == last);
                    assert(texts(given@) =~= all.take(n - 1));
                    let rest = all.skip(n as int);
                    let more = all.skip(n - 1);
                    assert(more =~= seq![x@] + rest);
                    broadcast use vstd::seq_lib::group_to_multiset_ensures;

                    assert(more.remove(0) =~= rest);
                    assert(more.contains(more[0]));
                    assert(more.to_multiset() =~= rest.to_multiset().insert(x@));
                }
                insert_sorted(&mut out, x);
            },
            None => {
                break ;
            },
        }
    }
    proof {
        assert(all.skip(0) =~= all);
        lemma_dictionary_is_total();
        all.lemma_sort_by_ensures(dictionary());
        vstd::seq_lib::lemma_sorted_unique(texts(out@), all.sort_by(dictionary()), dictionary());
    }
    out
}

/// In dictionary order the first character in which two texts differ decides, by its number; a
/// text comes before its continuations.
pub proof fn law_the_first_difference_decides(a: Seq<char>, b: Seq<char>, n: int)
    requires
        0 <= n <= a.len(),
        n <= b.len(),
        a.take(n) == b.take(n),
    ensures
        n == a.len() ==> text_le(a, b),
        n == b.len() && n < a.len() ==> !text_le(a, b),
        n < a.len() && n < b.len() && (a[n] as int) < (b[n] as int) ==> text_le(a, b) && !text_le(
            b,
            a,
        ),
    decreases n,
{
    if n > 0 {
        let (x, y) = (a.drop_first(), b.drop_first());
        assert(a[0] == a.take(n)[0] && b[0] == b.take(n)[0]);
        assert(x.take(n - 1) =~= a.take(n).drop_first());
        assert(y.take(n - 1) =~= b.take(n).drop_first());
        law_the_first_difference_decides(x, y, n - 1);
        if n < a.len() && n < b.len() {
            assert(x[n - 1] == a[n] && y[n - 1] == b[n]);
        }
    }
}

} // verus!
