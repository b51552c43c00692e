use vstd::prelude::*;

use crate::term::Term;

verus! {

/// Two to the given power; the number of subsets of a set of that size.
pub open spec fn two_pow(n: nat) -> nat
    decreases n,
{
    if n == 0 {
        1
    } else {
        2 * two_pow((n - 1) as nat)
    }
}

/// `two_pow` grows with its argument.
pub proof fn lemma_two_pow_le(m: nat, n: nat)
    requires
        m <= n,
    ensures
        two_pow(m) <= two_pow(n),
    decreases n,
{
    if m < n {
        lemma_two_pow_le(m, (n - 1) as nat);
        assert(two_pow((n - 1) as nat) >= 1) by {
            lemma_two_pow_pos((n - 1) as nat);
        }
    }
}

/// `two_pow` is positive.
pub proof fn lemma_two_pow_pos(n: nat)
    ensures
        two_pow(n) >= 1,
    decreases n,
{
    if n > 0 {
        lemma_two_pow_pos((n - 1) as nat);
    }
}

/// The family of all subsets of `s`.
pub open spec fn subsets_of(s: Set<Term>) -> Set<Set<Term>> {
    Set::new(|t: Set<Term>| t.finite() && t.subset_of(s))
}

/// A finite set of terms has at most `two_pow(len)` subsets: the clauses
/// over a finite stock of terms are finitely many.
pub proof fn lemma_subsets_of_finite(s: Set<Term>)
    requires
        s.finite(),
    ensures
        subsets_of(s).finite(),
        subsets_of(s).len() <= two_pow(s.len()),
    decreases s.len(),
{
    broadcast use vstd::set_lib::lemma_set_empty_equivalency_len;

    if s.len() == 0 {
        assert(s =~= Set::<Term>::empty());
        assert(subsets_of(s) =~= set![Set::<Term>::empty()]) by {
            assert forall|t: Set<Term>| #[trigger] subsets_of(s).contains(t) implies t == Set::<
                Term,
            >::empty() by {
                assert(t =~= Set::<Term>::empty());
            }
            assert(Set::<Term>::empty().finite() && Set::<Term>::empty().subset_of(s));
        }
        assert(set![Set::<Term>::empty()].len() == 1);
    } else {
        let x = s.choose();
        assert(s.contains(x));
        let rest = s.remove(x);
        assert(rest.len() == s.len() - 1);
        lemma_subsets_of_finite(rest);
        let small = subsets_of(rest);
        let grown = small.map(|t: Set<Term>| t.insert(x));
        assert(subsets_of(s) =~= small.union(grown)) by {
            assert forall|t: Set<Term>| #[trigger] subsets_of(s).contains(t) implies small.union(
                grown,
            ).contains(t) by {
                if t.contains(x) {
                    let t0 = t.remove(x);
                    assert(t0.finite() && t0.subset_of(rest));
                    assert(small.contains(t0));
                    assert(t0.insert(x) =~= t);
                    assert(grown.contains(t));
                } else {
                    assert(t.subset_of(rest));
                }
            }
            assert forall|t: Set<Term>| small.union(grown).contains(t) implies #[trigger] subsets_of(
                s,
            ).contains(t) by {
                if small.contains(t) {
                    assert(t.subset_of(s));
                } else {
                    let t0 = choose|t0: Set<Term>|
                        small.contains(t0) && #[trigger] t0.insert(x) == t;
                    assert(t.finite());
                    assert(t.subset_of(s));
                }
            }
        }
        vstd::set_lib::lemma_map_size_bound(small, grown, |t: Set<Term>| t.insert(x));
        vstd::set_lib::lemma_len_union(small, grown);
        assert(subsets_of(s).len() <= small.len() + grown.len());
        assert(small.len() + grown.len() <= 2 * two_pow(rest.len()));
        assert(2 * two_pow(rest.len()) == two_pow(s.len()));
    }
}

/// Every term, positive or negative, whose name is in `names`.
pub open spec fn lits_over(names: Set<char>) -> Set<Term> {
    names.map(|c: char| Term::Pos(c)).union(names.map(|c: char| Term::Neg(c)))
}

/// A finite alphabet yields finitely many terms: at most two per name.
pub proof fn lemma_lits_over_finite(names: Set<char>)
    requires
        names.finite(),
    ensures
        lits_over(names).finite(),
        lits_over(names).len() <= 2 * names.len(),
{
    let pos = names.map(|c: char| Term::Pos(c));
    let neg = names.map(|c: char| Term::Neg(c));
    vstd::set_lib::lemma_map_size_bound(names, pos, |c: char| Term::Pos(c));
    vstd::set_lib::lemma_map_size_bound(names, neg, |c: char| Term::Neg(c));
    vstd::set_lib::lemma_len_union(pos, neg);
}

/// The names of the terms of a clause.
pub open spec fn clause_names(s: Seq<Term>) -> Set<char> {
    s.to_set().map(|t: Term| t.spec_name())
}

/// A clause whose names lie in `names` holds only terms of `lits_over(names)`.
pub proof fn lemma_clause_in_lits(s: Seq<Term>, names: Set<char>)
    requires
        clause_names(s).subset_of(names),
    ensures
        s.to_set().subset_of(lits_over(names)),
{
    assert forall|t: Term| #[trigger] s.to_set().contains(t) implies lits_over(names).contains(
        t,
    ) by {
        assert(clause_names(s).contains(t.spec_name()));
        assert(names.contains(t.spec_name()));
        match t {
            Term::Pos(c) => {
                assert(names.map(|c2: char| Term::Pos(c2)).contains(t));
            },
            Term::Neg(c) => {
                assert(names.map(|c2: char| Term::Neg(c2)).contains(t));
            },
        }
    }
}

} // verus!
