//! Lists of endpoints.

use crate::net::Endpoint;
use vstd::prelude::*;

verus! {

/// The list without repetitions: of equal endpoints the first stays.
pub open spec fn distinct(s: Seq<Endpoint>) -> Seq<Endpoint>
    decreases s.len(),
{
    if s.len() == 0 {
        Seq::empty()
    } else {
        let before = distinct(s.drop_last());
        if before.contains(s.last()) {
            before
        } else {
            before.push(s.last())
        }
    }
}

/// The list without one endpoint.
pub open spec fn without(s: Seq<Endpoint>, e: Endpoint) -> Seq<Endpoint>
    decreases s.len(),
{
    if s.len() == 0 {
        Seq::empty()
    } else if s.last() == e {
        without(s.drop_last(), e)
    } else {
        without(s.drop_last(), e).push(s.last())
    }
}

/// The list holds the endpoint.
pub fn holds_endpoint(list: &Vec<Endpoint>, e: Endpoint) -> (is: bool)
    ensures
        is == list@.contains(e),
{
    let mut i: usize = 0;
    while i < list.len()
        invariant
            i <= list@.len(),
            forall|k: int| 0 <= k < i ==> list@[k] != e,
        decreases list@.len() - i,
    {
        if list[i] == e {
            assert(list@[i as int] == e);
            return true;
        }
        i += 1;
    }
    false
}

/// Appends the endpoint unless the list holds it.
pub fn add_endpoint(list: &mut Vec<Endpoint>, e: Endpoint)
    ensures
        final(list)@ == if old(list)@.contains(e) {
            old(list)@
        } else {
            old(list)@.push(e)
        },
{
    if !holds_endpoint(list, e) {
        list.push(e);
    }
}

/// Appends the endpoints of `from` that differ from `e`.
pub fn add_without(list: &mut Vec<Endpoint>, from: &[Endpoint], start: usize, e: Endpoint)
    requires
        start <= from@.len(),
    ensures
        final(list)@ == old(list)@ + without(from@.skip(start as int), e),
{
    let ghost rest = from@.skip(start as int);
    let mut i: usize = start;
    assert(rest.take(0) =~= Seq::<Endpoint>::empty());
    while i < from.len()
        invariant
            start <= i <= from@.len(),
            rest == from@.skip(start as int),
            list@ == old(list)@ + without(rest.take(i - start), e),
        decreases from@.len() - i,
    {
        proof {
            assert(rest.take(i + 1 - start).drop_last() =~= rest.take(i - start));
            assert(rest.take(i + 1 - start).last() == from@[i as int]);
        }
        let ghost before = list@;
        if from[i] != e {
            list.push(from[i]);
        }
        assert(list@ =~= old(list)@ + without(rest.take(i + 1 - start), e));
        i += 1;
    }
    assert(rest.take(rest.len() as int) =~= rest);
}

/// A list without repetitions holds the same endpoints, each once, the first one first.
pub proof fn lemma_distinct(s: Seq<Endpoint>)
    ensures
        distinct(s).no_duplicates(),
        forall|e: Endpoint| #[trigger] distinct(s).contains(e) <==> s.contains(e),
        s.len() > 0 ==> distinct(s).len() > 0 && distinct(s)[0] == s[0],
    decreases s.len(),
{
    if s.len() > 0 {
        lemma_distinct(s.drop_last());
        let before = distinct(s.drop_last());
        let all = distinct(s);
        assert forall|e: Endpoint| #[trigger] all.contains(e) <==> s.contains(e) by {
            if s.contains(e) {
                let i = choose|i: int| 0 <= i < s.len() && s[i] == e;
                if i < s.len() - 1 {
                    assert(s.drop_last()[i] == e);
                    assert(before.contains(e));
                    let k = choose|k: int| 0 <= k < before.len() && before[k] == e;
                    assert(all[k] == e);
                } else if !before.contains(e) {
                    assert(all[before.len() as int] == e);
                }
            }
            if all.contains(e) {
                let k = choose|k: int| 0 <= k < all.len() && all[k] == e;
                if k < before.len() {
                    assert(before[k] == e);
                    assert(before.contains(e));
                    assert(s.drop_last().contains(e));
                    let i = choose|i: int| 0 <= i < s.len() - 1 && s.drop_last()[i] == e;
                    assert(s[i] == e);
                } else {
                    assert(s[s.len() - 1] == e);
                }
            }
        }
        assert(all.no_duplicates()) by {
            assert forall|i: int, j: int| 0 <= i < j < all.len() implies all[i] != all[j] by {
                if j == before.len() {
                    assert(all[i] == before[i]);
                    assert(before.contains(before[i]));
                }
            }
        }
        if s.len() == 1 {
            assert(before =~= Seq::empty());
        } else {
            assert(s.drop_last()[0] == s[0]);
        }
    }
}

/// A list without one endpoint holds all the others.
pub proof fn lemma_without(s: Seq<Endpoint>, e: Endpoint)
    ensures
        forall|x: Endpoint| #[trigger] without(s, e).contains(x) <==> s.contains(x) && x != e,
    decreases s.len(),
{
    if s.len() > 0 {
        lemma_without(s.drop_last(), e);
        let before = without(s.drop_last(), e);
        let all = without(s, e);
        assert forall|x: Endpoint| #[trigger] all.contains(x) <==> s.contains(x) && x != e by {
            if s.contains(x) && x != e {
                let i = choose|i: int| 0 <= i < s.len() && s[i] == x;
                if i < s.len() - 1 {
                    assert(s.drop_last()[i] == x);
                    assert(before.contains(x));
                    let k = choose|k: int| 0 <= k < before.len() && before[k] == x;
                    assert(all[k] == x);
                } else {
                    assert(all[before.len() as int] == x);
                }
            }
            if all.contains(x) {
                let k = choose|k: int| 0 <= k < all.len() && all[k] == x;
                if k < before.len() {
                    assert(before[k] == x);
                    assert(before.contains(x));
                    assert(s.drop_last().contains(x));
                    let i = choose|i: int| 0 <= i < s.len() - 1 && s.drop_last()[i] == x;
                    assert(s[i] == x);
                } else {
                    assert(s[s.len() - 1] == x);
                }
            }
        }
    }
}

} // verus!
