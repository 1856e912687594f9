//! Facts about sequences that several modules use.
use vstd::prelude::*;

verus! {

/// What is in a sequence with one more element at its end.
pub proof fn lemma_push_contains<A>(s: Seq<A>, x: A)
    ensures
        forall|y: A| #[trigger] s.push(x).contains(y) <==> s.contains(y) || y == x,
        s.push(x).drop_last() == s,
        s.push(x).last() == x,
{
    assert(s.push(x).drop_last() =~= s);
    assert forall|y: A| #[trigger] s.push(x).contains(y) <==> s.contains(y) || y == x by {
        if s.contains(y) {
            let i = choose|i: int| 0 <= i < s.len() && s[i] == y;
            assert(s.push(x)[i] == y);
        }
        assert(s.push(x)[s.len() as int] == x);
    }
}

/// What is in a sequence that is not empty: its last element, and what is in the
/// rest.
pub proof fn lemma_last_contains<A>(s: Seq<A>)
    requires
        s.len() > 0,
    ensures
        s == s.drop_last().push(s.last()),
        forall|y: A|
            #![trigger s.contains(y)]
            #![trigger s.drop_last().contains(y)]
            s.contains(y) <==> s.drop_last().contains(y) || y == s.last(),
{
    assert(s =~= s.drop_last().push(s.last()));
    lemma_push_contains(s.drop_last(), s.last());
}

/// How often something occurs in a sequence.
pub open spec fn often<A>(s: Seq<A>, x: A) -> nat
    decreases s.len(),
{
    if s.len() == 0 {
        0
    } else {
        often(s.drop_last(), x) + if s.last() == x {
            1nat
        } else {
            0
        }
    }
}

/// What occurs in a sequence with one more element at its end.
pub proof fn lemma_often_push<A>(s: Seq<A>, y: A, x: A)
    ensures
        often(s.push(y), x) == often(s, x) + if y == x {
            1nat
        } else {
            0
        },
{
    assert(s.push(y).drop_last() =~= s);
}

/// What occurs in two sequences one after the other.
pub proof fn lemma_often_add<A>(a: Seq<A>, b: Seq<A>, x: A)
    ensures
        often(a + b, x) == often(a, x) + often(b, x),
    decreases b.len(),
{
    if b.len() == 0 {
        assert(a + b =~= a);
    } else {
        assert((a + b).drop_last() =~= a + b.drop_last());
        lemma_often_add(a, b.drop_last(), x);
    }
}

/// What is in a sequence occurs in it, and the other way round.
pub proof fn lemma_often_contains<A>(s: Seq<A>, x: A)
    ensures
        often(s, x) > 0 <==> s.contains(x),
        often(s, x) <= s.len(),
    decreases s.len(),
{
    if s.len() > 0 {
        lemma_often_contains(s.drop_last(), x);
        lemma_last_contains(s);
    }
}

/// What begins a sequence occurs in it no more often than in the whole of it.
pub proof fn lemma_often_prefix<A>(s: Seq<A>, n: int, x: A)
    requires
        0 <= n <= s.len(),
    ensures
        often(s.take(n), x) <= often(s, x),
{
    assert(s =~= s.take(n) + s.skip(n));
    lemma_often_add(s.take(n), s.skip(n), x);
}

/// What is at two places of a sequence occurs in it twice.
pub proof fn lemma_often_twice<A>(s: Seq<A>, i: int, j: int)
    requires
        0 <= i < j < s.len(),
        s[i] == s[j],
    ensures
        often(s, s[i]) >= 2,
{
    let x = s[i];
    assert(s.take(j + 1).drop_last() =~= s.take(j));
    assert(s.take(j)[i] == x);
    lemma_often_contains(s.take(j), x);
    lemma_often_prefix(s, j + 1, x);
}

/// Where something that occurs twice is.
pub proof fn lemma_twice_often<A>(s: Seq<A>, x: A) -> (at: (int, int))
    requires
        often(s, x) >= 2,
    ensures
        0 <= at.0 < at.1 < s.len(),
        s[at.0] == x,
        s[at.1] == x,
    decreases s.len(),
{
    let rest = s.drop_last();
    if s.last() == x {
        lemma_often_contains(rest, x);
        let i = choose|i: int| 0 <= i < rest.len() && rest[i] == x;
        (i, s.len() - 1)
    } else {
        lemma_twice_often(rest, x)
    }
}

proof fn lemma_often_multiset<A>(s: Seq<A>, x: A)
    ensures
        often(s, x) == s.to_multiset().count(x),
    decreases s.len(),
{
    broadcast use vstd::multiset::group_multiset_axioms;
    broadcast use vstd::seq_lib::group_to_multiset_ensures;

    if s.len() > 0 {
        lemma_often_multiset(s.drop_last(), x);
        assert(s =~= s.drop_last().push(s.last()));
    }
}

/// A sequence in which nothing occurs more often than in another is not longer
/// than that, and if it is as long, everything occurs as often.
pub proof fn lemma_often_len<A>(a: Seq<A>, b: Seq<A>)
    requires
        forall|x: A| #[trigger] often(a, x) <= often(b, x),
    ensures
        a.len() <= b.len(),
        a.len() == b.len() ==> forall|x: A| #[trigger] often(a, x) == often(b, x),
{
    broadcast use vstd::multiset::group_multiset_axioms;
    broadcast use vstd::seq_lib::group_to_multiset_ensures;

    let m = a.to_multiset();
    let n = b.to_multiset();
    assert forall|x: A| #[trigger] m.count(x) <= n.count(x) by {
        lemma_often_multiset(a, x);
        lemma_often_multiset(b, x);
        assert(often(a, x) <= often(b, x));
    }
    assert(m.subset_of(n));
    let rest = n.sub(m);
    assert(rest.len() == n.len() - m.len());
    if a.len() == b.len() {
        vstd::multiset::lemma_multiset_empty_len(rest);
        assert forall|x: A| #[trigger] often(a, x) == often(b, x) by {
            lemma_often_multiset(a, x);
            lemma_often_multiset(b, x);
            assert(rest.count(x) == n.count(x) - m.count(x));
        }
    }
}

} // verus!
