//! Stable insertion sort of terms by ascending degree, as a specification,
//! with the lemmas the constructor's proof needs and the laws the sort obeys:
//! the result ascends, it is a rearrangement, and terms of equal degree keep
//! their input order.

use vstd::prelude::*;

verus! {

/// A term: a degree paired with the coefficient payload it carries.
pub type Term = (i32, u64);

/// The degree components are in ascending order.
pub open spec fn sorted_by_degree(s: Seq<Term>) -> bool {
    forall|i: int, j: int| 0 <= i < j < s.len() ==> s[i].0 <= s[j].0
}

/// Insert `t` before the first element of strictly greater degree, so after
/// every element of equal degree: the stable position.
pub open spec fn insert_term(t: Term, s: Seq<Term>) -> Seq<Term>
    decreases s.len(),
{
    if s.len() == 0 {
        seq![t]
    } else if t.0 < s[0].0 {
        seq![t] + s
    } else {
        seq![s[0]] + insert_term(t, s.drop_first())
    }
}

/// Stable sort by degree: terms are taken left to right, each inserted after
/// any terms of equal degree already placed.
pub open spec fn sort_terms(s: Seq<Term>) -> Seq<Term>
    decreases s.len(),
{
    if s.len() == 0 {
        Seq::empty()
    } else {
        insert_term(s.last(), sort_terms(s.drop_last()))
    }
}

/// The subsequence of terms whose degree is `g`, in their order in `s`.
pub open spec fn with_degree(s: Seq<Term>, g: i32) -> Seq<Term>
    decreases s.len(),
{
    if s.len() == 0 {
        Seq::empty()
    } else if s[0].0 == g {
        seq![s[0]] + with_degree(s.drop_first(), g)
    } else {
        with_degree(s.drop_first(), g)
    }
}

/// Every element of the insertion's result is `t` or comes from `s`.
pub proof fn lemma_insert_term_elems(t: Term, s: Seq<Term>)
    ensures
        forall|k: int|
            0 <= k < insert_term(t, s).len() ==> insert_term(t, s)[k] == t || s.contains(
                insert_term(t, s)[k],
            ),
    decreases s.len(),
{
    if s.len() == 0 {
    } else if t.0 < s[0].0 {
    } else {
        lemma_insert_term_elems(t, s.drop_first());
        assert forall|k: int|
            0 <= k < insert_term(t, s).len() implies insert_term(t, s)[k] == t || s.contains(
            insert_term(t, s)[k],
        ) by {
            if k > 0 {
                let e = insert_term(t, s.drop_first())[k - 1];
                if e != t {
                    let i = choose|i: int| 0 <= i < s.drop_first().len() && s.drop_first()[i] == e;
                    assert(s[i + 1] == e);
                }
            }
        }
    }
}

pub proof fn lemma_insert_term_sorted(t: Term, s: Seq<Term>)
    requires
        sorted_by_degree(s),
    ensures
        sorted_by_degree(insert_term(t, s)),
    decreases s.len(),
{
    if s.len() == 0 {
    } else if t.0 < s[0].0 {
    } else {
        assert(sorted_by_degree(s.drop_first()));
        lemma_insert_term_sorted(t, s.drop_first());
        lemma_insert_term_elems(t, s.drop_first());
        let r = insert_term(t, s);
        assert forall|i: int, j: int| 0 <= i < j < r.len() implies r[i].0 <= r[j].0 by {
            if i == 0 {
                let e = insert_term(t, s.drop_first())[j - 1];
                if e == t {
                } else {
                    let k = choose|k: int|
                        0 <= k < s.drop_first().len() && s.drop_first()[k] == e;
                    assert(s[k + 1] == e);
                }
            }
        }
    }
}

pub proof fn lemma_insert_term_multiset(t: Term, s: Seq<Term>)
    ensures
        insert_term(t, s).to_multiset() =~= s.to_multiset().insert(t),
    decreases s.len(),
{
    broadcast use vstd::seq_lib::group_to_multiset_ensures;

    if s.len() == 0 {
        assert(seq![t] =~= Seq::<Term>::empty().push(t));
    } else if t.0 < s[0].0 {
        assert(seq![t] + s =~= (seq![t] + s.drop_last()).push(s.last()));
        lemma_insert_head_multiset(t, s);
    } else {
        lemma_insert_term_multiset(t, s.drop_first());
        lemma_insert_head_multiset(s[0], seq![s[0]].drop_first() + insert_term(t, s.drop_first()));
        assert(seq![s[0]].drop_first() + insert_term(t, s.drop_first()) =~= insert_term(
            t,
            s.drop_first(),
        ));
        assert(seq![s[0]] + insert_term(t, s.drop_first()) =~= seq![s[0]] + (seq![
            s[0],
        ].drop_first() + insert_term(t, s.drop_first())));
        assert(s =~= seq![s[0]] + s.drop_first());
        lemma_insert_head_multiset(s[0], s.drop_first());
    }
}

/// Prepending one element inserts it into the multiset.
proof fn lemma_insert_head_multiset(t: Term, s: Seq<Term>)
    ensures
        (seq![t] + s).to_multiset() =~= s.to_multiset().insert(t),
    decreases s.len(),
{
    broadcast use vstd::seq_lib::group_to_multiset_ensures;

    if s.len() == 0 {
        assert(seq![t] + s =~= Seq::<Term>::empty().push(t));
    } else {
        lemma_insert_head_multiset(t, s.drop_last());
        assert(seq![t] + s =~= (seq![t] + s.drop_last()).push(s.last()));
        assert(s =~= s.drop_last().push(s.last()));
    }
}

/// The sorted term sequence ascends by degree.
pub proof fn lemma_sort_terms_sorted(s: Seq<Term>)
    ensures
        sorted_by_degree(sort_terms(s)),
    decreases s.len(),
{
    if s.len() > 0 {
        lemma_sort_terms_sorted(s.drop_last());
        lemma_insert_term_sorted(s.last(), sort_terms(s.drop_last()));
    }
}

/// A sequence with no term of degree `g` projects to nothing.
proof fn lemma_with_degree_none(s: Seq<Term>, g: i32)
    requires
        forall|k: int| 0 <= k < s.len() ==> s[k].0 != g,
    ensures
        with_degree(s, g) == Seq::<Term>::empty(),
    decreases s.len(),
{
    if s.len() > 0 {
        lemma_with_degree_none(s.drop_first(), g);
    }
}

/// Taking the last term off the end commutes with the projection.
proof fn lemma_with_degree_last(s: Seq<Term>, g: i32)
    requires
        s.len() > 0,
    ensures
        with_degree(s, g) == if s.last().0 == g {
            with_degree(s.drop_last(), g).push(s.last())
        } else {
            with_degree(s.drop_last(), g)
        },
    decreases s.len(),
{
    if s.len() == 1 {
        assert(s.drop_first() =~= Seq::<Term>::empty());
        assert(s.drop_last() =~= Seq::<Term>::empty());
        assert(s[0] == s.last());
        if s.last().0 == g {
            assert(with_degree(s, g) =~= with_degree(s.drop_last(), g).push(s.last()));
        }
    } else {
        lemma_with_degree_last(s.drop_first(), g);
        assert(s.drop_first().drop_last() =~= s.drop_last().drop_first());
        assert(s.drop_first().last() == s.last());
        assert(s.drop_last()[0] == s[0]);
        if s[0].0 == g {
            if s.last().0 == g {
                assert(seq![s[0]] + with_degree(s.drop_last().drop_first(), g).push(s.last())
                    =~= (seq![s[0]] + with_degree(s.drop_last().drop_first(), g)).push(s.last()));
            }
        }
    }
}

/// Stable insertion appends `t` to the terms of its own degree and leaves
/// every other degree's terms unchanged.
proof fn lemma_with_degree_insert(t: Term, s: Seq<Term>, g: i32)
    requires
        sorted_by_degree(s),
    ensures
        with_degree(insert_term(t, s), g) == if t.0 == g {
            with_degree(s, g).push(t)
        } else {
            with_degree(s, g)
        },
    decreases s.len(),
{
    if s.len() == 0 {
        assert(seq![t].drop_first() =~= Seq::<Term>::empty());
        assert(with_degree(Seq::<Term>::empty(), g) =~= Seq::<Term>::empty());
        if t.0 == g {
            assert(with_degree(seq![t], g) =~= with_degree(s, g).push(t));
        }
    } else if t.0 < s[0].0 {
        let r = seq![t] + s;
        assert(r[0] == t);
        assert(r.drop_first() =~= s);
        if t.0 == g {
            assert(forall|k: int| 0 <= k < s.len() ==> #[trigger] s[k].0 != g);
            lemma_with_degree_none(s, g);
            assert(with_degree(r, g) =~= with_degree(s, g).push(t));
        }
    } else {
        assert(sorted_by_degree(s.drop_first()));
        lemma_with_degree_insert(t, s.drop_first(), g);
        let r = seq![s[0]] + insert_term(t, s.drop_first());
        assert(r[0] == s[0]);
        assert(r.drop_first() =~= insert_term(t, s.drop_first()));
        if s[0].0 == g {
            if t.0 == g {
                assert(seq![s[0]] + with_degree(s.drop_first(), g).push(t) =~= (seq![s[0]]
                    + with_degree(s.drop_first(), g)).push(t));
            }
        }
    }
}

/// Stability: for every degree, the sorted result holds exactly the input's
/// terms of that degree, in their input order.
pub proof fn lemma_sort_terms_stable(s: Seq<Term>, g: i32)
    ensures
        with_degree(sort_terms(s), g) == with_degree(s, g),
    decreases s.len(),
{
    if s.len() > 0 {
        lemma_sort_terms_stable(s.drop_last(), g);
        lemma_sort_terms_sorted(s.drop_last());
        lemma_with_degree_insert(s.last(), sort_terms(s.drop_last()), g);
        lemma_with_degree_last(s, g);
    }
}

/// Sorting rearranges the terms and neither drops, adds nor alters any.
pub proof fn lemma_sort_terms_multiset(s: Seq<Term>)
    ensures
        sort_terms(s).to_multiset() =~= s.to_multiset(),
    decreases s.len(),
{
    broadcast use vstd::seq_lib::group_to_multiset_ensures;

    if s.len() > 0 {
        lemma_sort_terms_multiset(s.drop_last());
        lemma_insert_term_multiset(s.last(), sort_terms(s.drop_last()));
        assert(s =~= s.drop_last().push(s.last()));
    }
}

} // verus!
