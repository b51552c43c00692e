use vstd::prelude::*;

use crate::disj::chosen_annihilating;
use crate::disj::has_cross_pair;
use crate::disj::lemma_chosen_annihilating;
use crate::disj::without_name;
use crate::kb::Cause;
use crate::kb::combine_candidate;
use crate::kb::derivation_ok;
use crate::kb::entries_wf;
use crate::kb::stored;
use crate::term::Term;

verus! {

/// Whether the valuation makes the term true: the variable's value agrees
/// with the term's polarity.
pub open spec fn term_true(v: spec_fn(char) -> bool, t: Term) -> bool {
    v(t.spec_name()) == t.spec_sign()
}

/// Whether the valuation makes the clause true: a disjunction holds when
/// some of its terms does. The empty clause is false under every valuation.
pub open spec fn clause_true(v: spec_fn(char) -> bool, s: Set<Term>) -> bool {
    exists|t: Term| #[trigger] s.contains(t) && term_true(v, t)
}

/// No name occurs twice in the clause, in particular not with both
/// polarities; validated input clauses have this shape.
pub open spec fn name_distinct(s: Set<Term>) -> bool {
    forall|t1: Term, t2: Term|
        s.contains(t1) && s.contains(t2) && t1.spec_name() == t2.spec_name() ==> t1 == t2
}

/// Terms of one name are determined by their polarity.
proof fn lemma_same_name(t1: Term, t2: Term)
    requires
        t1.spec_name() == t2.spec_name(),
    ensures
        t1.spec_sign() == t2.spec_sign() ==> t1 == t2,
        t1.spec_sign() != t2.spec_sign() ==> t2 == t1.spec_opposite(),
{
}

/// A union of name-distinct sets with no cross pair is name-distinct.
proof fn lemma_union_distinct(aset: Set<Term>, bset: Set<Term>)
    requires
        name_distinct(aset),
        name_distinct(bset),
        !has_cross_pair(aset, bset),
    ensures
        name_distinct(aset.union(bset)),
{
    assert forall|t1: Term, t2: Term|
        aset.union(bset).contains(t1) && aset.union(bset).contains(t2) && t1.spec_name()
            == t2.spec_name() implies t1 == t2 by {
        lemma_same_name(t1, t2);
        if t1 != t2 {
            // Different terms of one name are opposites, so one set holds a
            // term whose opposite the other holds: a cross pair.
            assert(t2 == t1.spec_opposite());
            if aset.contains(t1) && bset.contains(t2) {
                assert(has_cross_pair(aset, bset));
            } else if aset.contains(t2) && bset.contains(t1) {
                assert(bset.contains(t2.spec_opposite()));
                assert(has_cross_pair(aset, bset));
            }
        }
    }
}

/// Combination is sound on name-distinct clauses: when two premises are
/// true under a valuation, the candidate their combination yields is true
/// as well, and is itself name-distinct. (Name-distinctness matters: on a
/// clause holding both polarities of one name, eliminating that name could
/// discard the only true term of each premise.)
pub proof fn lemma_candidate_sound(a: Seq<Term>, b: Seq<Term>, v: spec_fn(char) -> bool)
    requires
        name_distinct(a.to_set()),
        name_distinct(b.to_set()),
        clause_true(v, a.to_set()),
        clause_true(v, b.to_set()),
    ensures
        combine_candidate(a, b) matches Some((cset, e)) ==> name_distinct(cset) && clause_true(
            v,
            cset,
        ),
{
    let aset = a.to_set();
    let bset = b.to_set();
    lemma_chosen_annihilating(a, b);
    match combine_candidate(a, b) {
        None => {},
        Some((cset, e)) => match chosen_annihilating(a, b) {
            None => {
                assert(cset == aset.union(bset));
                lemma_union_distinct(aset, bset);
                let ta = choose|t: Term| #[trigger] aset.contains(t) && term_true(v, t);
                assert(cset.contains(ta));
            },
            Some(t) => {
                let n = t.spec_name();
                let wa = without_name(aset, n);
                let wb = without_name(bset, n);
                assert(cset == wa.union(wb));
                assert(!has_cross_pair(wa, wb));
                assert(name_distinct(wa) && name_distinct(wb));
                lemma_union_distinct(wa, wb);
                let ta = choose|t2: Term| #[trigger] aset.contains(t2) && term_true(v, t2);
                let tb = choose|t2: Term| #[trigger] bset.contains(t2) && term_true(v, t2);
                if ta.spec_name() != n {
                    assert(wa.contains(ta));
                    assert(cset.contains(ta));
                } else if tb.spec_name() != n {
                    assert(wb.contains(tb));
                    assert(cset.contains(tb));
                } else {
                    // Both witnesses sit on the eliminated name; each side's
                    // only such term is one of the annihilating pair, and a
                    // valuation cannot make a term and its opposite true.
                    if aset.contains(t) && bset.contains(t.spec_opposite()) {
                        assert(ta == t) by {
                            lemma_same_name(ta, t);
                        }
                        assert(tb == t.spec_opposite()) by {
                            lemma_same_name(tb, t.spec_opposite());
                        }
                        assert(false);
                    } else {
                        assert(bset.contains(t) && aset.contains(t.spec_opposite()));
                        assert(ta == t.spec_opposite()) by {
                            lemma_same_name(ta, t.spec_opposite());
                        }
                        assert(tb == t) by {
                            lemma_same_name(tb, t);
                        }
                        assert(false);
                    }
                }
            },
        },
    }
}

/// Entry by entry: every clause of a well-formed base whose initial
/// entries are name-distinct and true under `v` is itself name-distinct
/// and true under `v`.
proof fn lemma_sound_upto(
    es: Seq<(Seq<Term>, Cause)>,
    base: int,
    v: spec_fn(char) -> bool,
    n: int,
)
    requires
        entries_wf(es),
        0 <= base <= es.len(),
        n <= es.len(),
        forall|i: int| base <= i < es.len() ==> (#[trigger] es[i].1) is Derived,
        forall|i: int| 0 <= i < base ==> name_distinct((#[trigger] es[i].0).to_set()),
        forall|i: int| 0 <= i < base ==> clause_true(v, (#[trigger] es[i].0).to_set()),
    ensures
        forall|i: int|
            0 <= i < n ==> name_distinct((#[trigger] es[i].0).to_set()) && clause_true(
                v,
                (es[i].0).to_set(),
            ),
    decreases n,
{
    if n > 0 {
        lemma_sound_upto(es, base, v, n - 1);
        let i = n - 1;
        if i >= base {
            assert(derivation_ok(es, i));
            match es[i].1 {
                Cause::Derived(l, r, e) => {
                    lemma_candidate_sound(es[l as int].0, es[r as int].0, v);
                },
                _ => {
                    assert(false);
                },
            }
        }
    }
}

/// Every stored clause is a logical consequence of the initial entries:
/// both resolution and plain union preserve truth under any valuation.
pub proof fn lemma_entailment_from_initial(
    es: Seq<(Seq<Term>, Cause)>,
    base: int,
    v: spec_fn(char) -> bool,
)
    requires
        entries_wf(es),
        0 <= base <= es.len(),
        forall|i: int| base <= i < es.len() ==> (#[trigger] es[i].1) is Derived,
        forall|i: int| 0 <= i < base ==> name_distinct((#[trigger] es[i].0).to_set()),
        forall|i: int| 0 <= i < base ==> clause_true(v, (#[trigger] es[i].0).to_set()),
    ensures
        forall|i: int| 0 <= i < es.len() ==> clause_true(v, (#[trigger] es[i].0).to_set()),
{
    lemma_sound_upto(es, base, v, es.len() as int);
}

/// Refutation soundness, semantically: a base that stores the empty
/// clause has unsatisfiable initial entries — no valuation makes every
/// initial clause (the facts and the negated goal) true.
pub proof fn lemma_refutation_sound(
    es: Seq<(Seq<Term>, Cause)>,
    base: int,
    v: spec_fn(char) -> bool,
)
    requires
        entries_wf(es),
        0 <= base <= es.len(),
        forall|i: int| base <= i < es.len() ==> (#[trigger] es[i].1) is Derived,
        forall|i: int| 0 <= i < base ==> name_distinct((#[trigger] es[i].0).to_set()),
        stored(es, Seq::<Term>::empty()),
    ensures
        !(forall|i: int| 0 <= i < base ==> clause_true(v, (#[trigger] es[i].0).to_set())),
{
    if forall|i: int| 0 <= i < base ==> clause_true(v, (#[trigger] es[i].0).to_set()) {
        lemma_entailment_from_initial(es, base, v);
        let k = choose|k: int| 0 <= k < es.len() && (#[trigger] es[k].0) == Seq::<Term>::empty();
        assert(clause_true(v, (es[k].0).to_set()));
        let t = choose|t: Term| #[trigger] (es[k].0).to_set().contains(t) && term_true(v, t);
        assert((es[k].0).contains(t));
        assert(false);
    }
}

} // verus!
