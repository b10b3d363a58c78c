//! Facts about sequences, filters and multisets that the selection and
//! draw proofs share.

use vstd::multiset::Multiset;
use vstd::prelude::*;

verus! {

/// The pointwise negation of a predicate.
pub open spec fn not_pred<A>(p: spec_fn(A) -> bool) -> spec_fn(A) -> bool {
    |x: A| !p(x)
}

/// Membership in a fixed sequence as a one-element predicate.
pub open spec fn in_list_pred<A>(list: Seq<A>) -> spec_fn(A) -> bool {
    |x: A| list.contains(x)
}

/// Whether two sequences share no element.
pub open spec fn disjoint_seqs<A>(a: Seq<A>, b: Seq<A>) -> bool {
    forall|x: A| !(a.contains(x) && b.contains(x))
}

/// A filter whose predicate passes every element changes nothing.
pub proof fn lemma_filter_identity<A>(s: Seq<A>, p: spec_fn(A) -> bool)
    requires
        forall|i: int| 0 <= i < s.len() ==> p(s[i]),
    ensures
        s.filter(p) == s,
    decreases s.len(),
{
    reveal(Seq::filter);
    if s.len() > 0 {
        lemma_filter_identity(s.drop_last(), p);
        assert(s.drop_last().push(s.last()) =~= s);
    }
}

/// How often an element occurs in a filtered sequence: as often as in
/// the sequence when it passes the predicate, never otherwise.
pub proof fn lemma_filter_multiset_count<A>(s: Seq<A>, p: spec_fn(A) -> bool, c: A)
    ensures
        s.filter(p).to_multiset().count(c) == if p(c) {
            s.to_multiset().count(c)
        } else {
            0
        },
    decreases s.len(),
{
    broadcast use vstd::multiset::group_multiset_axioms;
    broadcast use vstd::seq_lib::group_to_multiset_ensures;

    reveal(Seq::filter);
    if s.len() == 0 {
        assert(s.filter(p) =~= s);
    } else {
        lemma_filter_multiset_count(s.drop_last(), p, c);
        assert(s.drop_last().push(s.last()) =~= s);
        if p(s.last()) {
            assert(s.filter(p) == s.drop_last().filter(p).push(s.last()));
        }
    }
}

/// A filter and its complement split a sequence's cards exactly.
pub proof fn lemma_filter_partition_multiset<A>(s: Seq<A>, p: spec_fn(A) -> bool)
    ensures
        s.filter(p).to_multiset().add(s.filter(not_pred(p)).to_multiset()) == s.to_multiset(),
{
    broadcast use vstd::multiset::group_multiset_axioms;

    assert forall|c: A|
        s.filter(p).to_multiset().add(s.filter(not_pred(p)).to_multiset()).count(c)
            == s.to_multiset().count(c) by {
        lemma_filter_multiset_count(s, p, c);
        lemma_filter_multiset_count(s, not_pred(p), c);
        assert(not_pred(p)(c) == !p(c));
    };
    assert(s.filter(p).to_multiset().add(s.filter(not_pred(p)).to_multiset())
        =~= s.to_multiset());
}

/// In a duplicate-free sequence every element occurs exactly once.
pub proof fn lemma_no_dup_count<A>(s: Seq<A>, c: A)
    requires
        s.no_duplicates(),
    ensures
        s.to_multiset().count(c) == if s.contains(c) {
            1int
        } else {
            0int
        },
{
    broadcast use vstd::multiset::group_multiset_axioms;
    broadcast use vstd::seq_lib::group_to_multiset_ensures;

    s.lemma_multiset_has_no_duplicates();
}

/// Two sides that split a duplicate-free sequence exactly are themselves
/// duplicate-free, disjoint, and drawn from the sequence.
pub proof fn lemma_partition_sides<A>(s0: Seq<A>, s1: Seq<A>, s: Seq<A>)
    requires
        s.no_duplicates(),
        s0.to_multiset().add(s1.to_multiset()) == s.to_multiset(),
    ensures
        s0.no_duplicates(),
        s1.no_duplicates(),
        forall|c: A| s0.contains(c) ==> s.contains(c),
        forall|c: A| s1.contains(c) ==> s.contains(c),
        forall|c: A| !(s0.contains(c) && s1.contains(c)),
{
    broadcast use vstd::multiset::group_multiset_axioms;
    broadcast use vstd::seq_lib::group_to_multiset_ensures;

    assert forall|c: A| s.to_multiset().count(c) <= 1 by {
        lemma_no_dup_count(s, c);
    };
    assert forall|x: A| s0.to_multiset().contains(x) implies s0.to_multiset().count(x) == 1 by {
        assert(s0.to_multiset().count(x) + s1.to_multiset().count(x) == s.to_multiset().count(x));
    };
    assert forall|x: A| s1.to_multiset().contains(x) implies s1.to_multiset().count(x) == 1 by {
        assert(s0.to_multiset().count(x) + s1.to_multiset().count(x) == s.to_multiset().count(x));
    };
    s0.lemma_multiset_has_no_duplicates_conv();
    s1.lemma_multiset_has_no_duplicates_conv();
    assert forall|c: A| s0.contains(c) || s1.contains(c) implies s.contains(c) by {
        assert(s0.to_multiset().count(c) + s1.to_multiset().count(c) == s.to_multiset().count(c));
    };
    assert forall|c: A| !(s0.contains(c) && s1.contains(c)) by {
        if s0.contains(c) && s1.contains(c) {
            assert(s0.to_multiset().count(c) + s1.to_multiset().count(c)
                == s.to_multiset().count(c));
        }
    };
}

/// Appending disjoint duplicate-free sequences keeps them duplicate-free.
pub proof fn lemma_append_no_dup<A>(a: Seq<A>, b: Seq<A>)
    requires
        a.no_duplicates(),
        b.no_duplicates(),
        forall|c: A| !(a.contains(c) && b.contains(c)),
    ensures
        (a + b).no_duplicates(),
{
    assert forall|i: int, j: int|
        0 <= i < j < (a + b).len() implies (a + b)[i] != (a + b)[j] by {
        if i < a.len() && j >= a.len() {
            assert(a.contains((a + b)[i]));
            assert(b.contains((a + b)[j]));
        }
    };
}

/// The cards of a concatenation, counted together.
pub proof fn lemma_append_multiset<A>(a: Seq<A>, b: Seq<A>)
    ensures
        (a + b).to_multiset() == a.to_multiset().add(b.to_multiset()),
{
    vstd::seq_lib::lemma_multiset_commutative(a, b);
}

} // verus!
