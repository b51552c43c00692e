use vstd::prelude::*;
use vstd::pervasive::unreached;

use crate::counting::clause_names;
use crate::counting::lemma_clause_in_lits;
use crate::counting::lemma_lits_over_finite;
use crate::counting::lemma_subsets_of_finite;
use crate::counting::lemma_two_pow_le;
use crate::counting::lits_over;
use crate::counting::subsets_of;
use crate::counting::two_pow;
use crate::disj::Disj;
use crate::disj::chosen_annihilating;
use crate::disj::has_cross_pair;
use crate::disj::lemma_canonical;
use crate::disj::lemma_chosen_annihilating;
use crate::disj::sorted_terms;
use crate::disj::without_name;
use crate::term::Term;

verus! {

/// The reason a `Disj` is in the `KB`.
#[derive(Clone, Copy, Debug, PartialEq, Eq)]
pub enum Cause {
    /// The `Disj` was assumed, in order to prove by contradiction.
    Assumed,
    /// The `Disj` was part of the initial knowledge base.
    Known,
    /// The `Disj` was derived by combining the entries at the two recorded
    /// positions, each strictly earlier in the base. If the derivation was
    /// performed by annihilation, the annihilated variable is present.
    Derived(usize, usize, Option<char>),
}

/// What combining a left clause `a` with a right clause `b` yields.
///
/// When the two clauses annihilate, the term found by `find_annihilating`
/// names the variable to eliminate; removing that name from both sides and
/// taking the union gives the candidate, unless the remainders still hold a
/// term and its opposite between them, which makes the combination a
/// discarded tautology (`None`). When the clauses do not annihilate at all,
/// the candidate is the plain union, and no variable is eliminated.
pub open spec fn combine_candidate(a: Seq<Term>, b: Seq<Term>) -> Option<(Set<Term>, Option<char>)> {
    match chosen_annihilating(a, b) {
        Some(t) => {
            let n = t.spec_name();
            if has_cross_pair(without_name(a.to_set(), n), without_name(b.to_set(), n)) {
                None
            } else {
                Some(
                    (without_name(a.to_set(), n).union(without_name(b.to_set(), n)), Some(n)),
                )
            }
        },
        None => Some((a.to_set().union(b.to_set()), None)),
    }
}

/// A derived entry records two strictly earlier premises, holds exactly the
/// clause their combination yields, and differs from every earlier clause.
pub open spec fn derivation_ok(es: Seq<(Seq<Term>, Cause)>, i: int) -> bool {
    match es[i].1 {
        Cause::Derived(l, r, e) => {
            &&& l < i
            &&& r < i
            &&& combine_candidate(es[l as int].0, es[r as int].0) == Some(
                (es[i].0.to_set(), e),
            )
            &&& forall|j: int| 0 <= j < i ==> (#[trigger] es[j].0) != es[i].0
        },
        _ => true,
    }
}

/// The knowledge base invariant: every clause is in canonical form, every
/// derived entry is a faithful, novel combination of two earlier entries,
/// and derived entries form a suffix after the initial ones.
pub open spec fn entries_wf(es: Seq<(Seq<Term>, Cause)>) -> bool {
    &&& forall|i: int| 0 <= i < es.len() ==> sorted_terms(#[trigger] es[i].0)
    &&& forall|i: int| 0 <= i < es.len() ==> #[trigger] derivation_ok(es, i)
    &&& forall|i: int, j: int|
        #![trigger es[i].1, es[j].1]
        0 <= i < j < es.len() && es[i].1 is Derived ==> es[j].1 is Derived
}

/// Whether some entry stores the clause `c`.
pub open spec fn stored(es: Seq<(Seq<Term>, Cause)>, c: Seq<Term>) -> bool {
    exists|k: int| 0 <= k < es.len() && (#[trigger] es[k].0) == c
}

/// The position of the last entry storing `c`, or -1 when none does; a
/// clause duplicated among the initial entries is looked up at its last
/// occurrence.
pub open spec fn last_index_of(es: Seq<(Seq<Term>, Cause)>, c: Seq<Term>) -> int
    decreases es.len(),
{
    if es.len() == 0 {
        -1
    } else if es.last().0 == c {
        es.len() - 1
    } else {
        last_index_of(es.drop_last(), c)
    }
}

/// What `last_index_of` returns: the greatest matching position when the
/// clause is stored, and -1 otherwise.
pub proof fn lemma_last_index_of(es: Seq<(Seq<Term>, Cause)>, c: Seq<Term>)
    ensures
        stored(es, c) <==> 0 <= last_index_of(es, c) < es.len(),
        !stored(es, c) ==> last_index_of(es, c) == -1,
        stored(es, c) ==> es[last_index_of(es, c)].0 == c,
        forall|k: int| last_index_of(es, c) < k < es.len() ==> (#[trigger] es[k].0) != c,
    decreases es.len(),
{
    if es.len() == 0 {
    } else if es.last().0 == c {
        assert(es[es.len() - 1].0 == c);
    } else {
        let head = es.drop_last();
        lemma_last_index_of(head, c);
        assert(forall|k: int| 0 <= k < head.len() ==> (#[trigger] es[k].0) == head[k].0);
        if stored(head, c) {
            let k = choose|k: int| 0 <= k < head.len() && (#[trigger] head[k].0) == c;
            assert(es[k].0 == c);
        }
        if stored(es, c) {
            let k = choose|k: int| 0 <= k < es.len() && (#[trigger] es[k].0) == c;
            assert(k < es.len() - 1);
            assert(head[k].0 == c);
        }
    }
}

/// A combination already answered by `es` stays answered when the base only
/// grows.
proof fn lemma_redundant_monotone(
    es: Seq<(Seq<Term>, Cause)>,
    es2: Seq<(Seq<Term>, Cause)>,
    i: int,
    j: int,
)
    requires
        es.len() <= es2.len(),
        es == es2.subrange(0, es.len() as int),
        0 <= i < es.len(),
        0 <= j < es.len(),
        pair_redundant(es, i, j),
    ensures
        pair_redundant(es2, i, j),
{
    assert(forall|k: int| 0 <= k < es.len() ==> (#[trigger] es2[k]) == es[k]);
    match combine_candidate(es[i].0, es[j].0) {
        None => {},
        Some((cset, e)) => {
            let k = choose|k: int| 0 <= k < es.len() && (#[trigger] es[k].0).to_set() == cset;
            assert((es2[k].0).to_set() == cset);
        },
    }
}

/// Combining the entry at `i` (left) with the entry at `j` (right) yields
/// nothing new: a tautology, or a clause some entry already stores.
pub open spec fn pair_redundant(es: Seq<(Seq<Term>, Cause)>, i: int, j: int) -> bool {
    match combine_candidate(es[i].0, es[j].0) {
        None => true,
        Some((cset, e)) => exists|k: int|
            0 <= k < es.len() && (#[trigger] es[k].0).to_set() == cset,
    }
}

/// The names that occur anywhere in the base.
pub open spec fn entries_names(es: Seq<(Seq<Term>, Cause)>) -> Set<char>
    decreases es.len(),
{
    if es.len() == 0 {
        Set::empty()
    } else {
        entries_names(es.drop_last()).union(clause_names(es.last().0))
    }
}

/// The names of a base are finitely many and cover every entry.
proof fn lemma_entries_names(es: Seq<(Seq<Term>, Cause)>)
    ensures
        entries_names(es).finite(),
        forall|i: int|
            0 <= i < es.len() ==> clause_names(#[trigger] es[i].0).subset_of(entries_names(es)),
    decreases es.len(),
{
    broadcast use vstd::seq_lib::seq_to_set_is_finite;

    if es.len() > 0 {
        let head = es.drop_last();
        lemma_entries_names(head);
        assert((es.last().0).to_set().finite());
        (es.last().0).to_set().lemma_map_finite(|t: Term| t.spec_name());
        assert forall|i: int| 0 <= i < es.len() implies clause_names(
            #[trigger] es[i].0,
        ).subset_of(entries_names(es)) by {
            if i < es.len() - 1 {
                assert(head[i].0 == es[i].0);
                assert(clause_names(es[i].0).subset_of(entries_names(head)));
            } else {
                assert(es[i].0 == es.last().0);
            }
        }
    }
}

/// Entries past `base` are pairwise-new clauses drawn from `space`, so the
/// base cannot hold more than `base + space.len()` entries.
proof fn lemma_kb_size_bound(es: Seq<(Seq<Term>, Cause)>, base: int, space: Set<Set<Term>>)
    requires
        0 <= base <= es.len(),
        forall|i: int| 0 <= i < es.len() ==> sorted_terms(#[trigger] es[i].0),
        forall|i: int| 0 <= i < es.len() ==> #[trigger] derivation_ok(es, i),
        forall|i: int| base <= i < es.len() ==> (#[trigger] es[i].1) is Derived,
        space.finite(),
        forall|i: int| base <= i < es.len() ==> space.contains((#[trigger] es[i].0).to_set()),
    ensures
        es.len() <= base + space.len(),
{
    let sets = Seq::new((es.len() - base) as nat, |k: int| (es[base + k].0).to_set());
    assert(sets.no_duplicates()) by {
        assert forall|k1: int, k2: int|
            0 <= k1 < sets.len() && 0 <= k2 < sets.len() && k1 != k2 implies sets[k1]
            != sets[k2] by {
            let (a, b): (int, int) = if k1 < k2 {
                (k1, k2)
            } else {
                (k2, k1)
            };
            let i1 = base + a;
            let i2 = base + b;
            assert(derivation_ok(es, i2));
            match es[i2].1 {
                Cause::Derived(dl, dr, de) => {
                    assert(es[i1].0 != es[i2].0);
                },
                _ => {
                    assert(false);
                },
            }
            if sets[a] == sets[b] {
                lemma_canonical(es[i1].0, es[i2].0);
            }
        }
    }
    sets.unique_seq_to_set();
    assert(sets.to_set().subset_of(space)) by {
        assert forall|x: Set<Term>| #[trigger] sets.to_set().contains(x) implies space.contains(
            x,
        ) by {
            let k = choose|k: int| 0 <= k < sets.len() && sets[k] == x;
            assert(space.contains((es[base + k].0).to_set()));
        }
    }
    vstd::set_lib::lemma_len_subset(sets.to_set(), space);
}

/// Derivation introduces no new variable: in a well-formed base whose
/// entries past `base` are all derived, every clause draws its names from
/// the first `base` entries.
pub proof fn lemma_names_from_initial(es: Seq<(Seq<Term>, Cause)>, base: int, names: Set<char>)
    requires
        entries_wf(es),
        0 <= base <= es.len(),
        forall|i: int| base <= i < es.len() ==> (#[trigger] es[i].1) is Derived,
        forall|i: int| 0 <= i < base ==> clause_names(#[trigger] es[i].0).subset_of(names),
    ensures
        forall|i: int| 0 <= i < es.len() ==> clause_names(#[trigger] es[i].0).subset_of(names),
{
    lemma_names_upto(es, base, names, es.len() as int);
}

/// The induction behind `lemma_names_from_initial`: entry by entry, a
/// derived clause is a subset of the union of its premises, so its names
/// come from theirs.
proof fn lemma_names_upto(es: Seq<(Seq<Term>, Cause)>, base: int, names: Set<char>, n: int)
    requires
        entries_wf(es),
        0 <= base <= es.len(),
        n <= es.len(),
        forall|i: int| base <= i < es.len() ==> (#[trigger] es[i].1) is Derived,
        forall|i: int| 0 <= i < base ==> clause_names(#[trigger] es[i].0).subset_of(names),
    ensures
        forall|i: int| 0 <= i < n ==> clause_names(#[trigger] es[i].0).subset_of(names),
    decreases n,
{
    if n > 0 {
        lemma_names_upto(es, base, names, n - 1);
        let i = n - 1;
        if i >= base {
            assert(derivation_ok(es, i));
            match es[i].1 {
                Cause::Derived(l, r, e) => {
                    let la = es[l as int].0.to_set();
                    let rb = es[r as int].0.to_set();
                    let cset = (es[i].0).to_set();
                    assert(cset.subset_of(la.union(rb))) by {
                        match combine_candidate(es[l as int].0, es[r as int].0) {
                            None => {
                                assert(false);
                            },
                            Some((cs, e2)) => {
                                assert(cs == cset);
                            },
                        }
                    }
                    assert forall|c: char| #[trigger]
                        clause_names(es[i].0).contains(c) implies names.contains(c) by {
                        let t = choose|t: Term| #[trigger]
                            cset.contains(t) && t.spec_name() == c;
                        if la.contains(t) {
                            assert(clause_names(es[l as int].0).contains(c));
                        } else {
                            assert(rb.contains(t));
                            assert(clause_names(es[r as int].0).contains(c));
                        }
                    }
                },
                _ => {
                    assert(false);
                },
            }
        }
    }
}

/// Saturation terminates because the base is bounded: past its first
/// `base` entries (the initial facts and assumptions), every entry is a
/// derived clause that differs from all earlier ones and draws its names
/// from the initial entries, and over a finite alphabet of `k` names there
/// are at most `two_pow(2 * k)` distinct clauses to derive.
pub proof fn lemma_saturation_bounded(kb: KB, base: int, names: Set<char>)
    requires
        kb.wf(),
        names.finite(),
        0 <= base <= kb@.len(),
        forall|i: int| base <= i < kb@.len() ==> (#[trigger] kb@[i].1) is Derived,
        forall|i: int| 0 <= i < base ==> clause_names(#[trigger] kb@[i].0).subset_of(names),
    ensures
        kb@.len() <= base + two_pow(2 * names.len()),
{
    broadcast use vstd::seq_lib::seq_to_set_is_finite;

    lemma_names_from_initial(kb@, base, names);
    let lits = lits_over(names);
    lemma_lits_over_finite(names);
    lemma_subsets_of_finite(lits);
    let space = subsets_of(lits);
    assert forall|i: int| base <= i < kb@.len() implies space.contains(
        (#[trigger] kb@[i].0).to_set(),
    ) by {
        lemma_clause_in_lits(kb@[i].0, names);
        assert((kb@[i].0).to_set().finite());
    }
    lemma_kb_size_bound(kb@, base, space);
    lemma_two_pow_le(lits.len(), 2 * names.len());
}

/// The knowledge base: an append-only store of disjunctions, each with the
/// reason it is present.
#[derive(Debug)]
pub struct KB {
    pub(crate) entries: Vec<(Disj, Cause)>,
}

impl View for KB {
    type V = Seq<(Seq<Term>, Cause)>;

    open(crate) spec fn view(&self) -> Seq<(Seq<Term>, Cause)> {
        self.entries@.map_values(|e: (Disj, Cause)| (e.0@, e.1))
    }
}

impl KB {
    /// The knowledge base invariant; see [`entries_wf`].
    pub open spec fn wf(self) -> bool {
        entries_wf(self@)
    }

    /// Creates a new `KB` with the given goal and known facts: first one
    /// entry per fact, marked `Known`, then one entry per goal term, holding
    /// the single opposite of that term and marked `Assumed`. The latter
    /// entries implement refutation: the goal's negation is assumed.
    pub fn new(goal: Disj, facts: Vec<Disj>) -> (kb: KB)
        requires
            goal.wf(),
            forall|i: int| 0 <= i < facts@.len() ==> (#[trigger] facts@[i]).wf(),
        ensures
            kb.wf(),
            kb@.len() == facts@.len() + goal@.len(),
            forall|i: int|
                0 <= i < facts@.len() ==> (#[trigger] kb@[i]) == (facts@[i]@, Cause::Known),
            forall|i: int|
                facts@.len() <= i < kb@.len() ==> (#[trigger] kb@[i]) == (
                    seq![goal@[i - facts@.len()].spec_opposite()],
                    Cause::Assumed,
                ),
    {
        let mut entries: Vec<(Disj, Cause)> = Vec::new();
        let mut i: usize = 0;
        while i < facts.len()
            invariant
                i <= facts@.len(),
                entries@.len() == i,
                forall|k: int| 0 <= k < facts@.len() ==> (#[trigger] facts@[k]).wf(),
                forall|k: int|
                    0 <= k < i ==> (#[trigger] entries@[k]).0@ == facts@[k]@ && entries@[k].1
                        == Cause::Known,
            decreases facts@.len() - i,
        {
            let d = facts[i].clone();
            entries.push((d, Cause::Known));
            i = i + 1;
        }
        let ghost nf = facts@.len();
        let mut j: usize = 0;
        while j < goal.terms.len()
            invariant
                j <= goal@.len(),
                goal.wf(),
                entries@.len() == nf + j,
                forall|k: int|
                    0 <= k < nf ==> (#[trigger] entries@[k]).0@ == facts@[k]@ && entries@[k].1
                        == Cause::Known,
                forall|k: int|
                    nf <= k < entries@.len() ==> (#[trigger] entries@[k]).0@ == seq![
                        goal@[k - nf].spec_opposite(),
                    ] && entries@[k].1 == Cause::Assumed,
            decreases goal@.len() - j,
        {
            let t = goal.terms[j].opposite();
            let single = Disj { terms: vec![t] };
            assert(single@ =~= seq![goal@[j as int].spec_opposite()]);
            entries.push((single, Cause::Assumed));
            j = j + 1;
        }
        let kb = KB { entries };
        proof {
            assert forall|i2: int| 0 <= i2 < kb@.len() implies (#[trigger] kb@[i2]) == (
                kb.entries@[i2].0@,
                kb.entries@[i2].1,
            ) by {}
            assert forall|i2: int| 0 <= i2 < kb@.len() implies sorted_terms(
                #[trigger] kb@[i2].0,
            ) by {
                if i2 < nf {
                    assert(kb@[i2].0 == facts@[i2]@);
                } else {
                    assert(kb@[i2].0 == seq![goal@[i2 - nf].spec_opposite()]);
                }
            }
            assert forall|i2: int| 0 <= i2 < kb@.len() implies #[trigger] derivation_ok(
                kb@,
                i2,
            ) by {
                assert(kb@[i2].1 == kb.entries@[i2].1);
                assert(!(kb@[i2].1 is Derived));
            }
        }
        kb
    }

    /// The number of entries in the base.
    pub fn len(&self) -> (n: usize)
        ensures
            n == self@.len(),
    {
        self.entries.len()
    }

    /// Returns the stored clauses in entry order. Saturation visits this
    /// list by position, re-reading the length as the base grows.
    pub fn iter(&self) -> (r: Vec<Disj>)
        ensures
            r@.len() == self@.len(),
            forall|i: int| 0 <= i < r@.len() ==> (#[trigger] r@[i])@ == self@[i].0,
    {
        let mut r: Vec<Disj> = Vec::new();
        let mut i: usize = 0;
        while i < self.entries.len()
            invariant
                i <= self@.len(),
                self@.len() == self.entries@.len(),
                r@.len() == i,
                forall|k: int| 0 <= k < i ==> (#[trigger] r@[k])@ == self@[k].0,
            decreases self@.len() - i,
        {
            proof {
                assert(self@[i as int] == (self.entries@[i as int].0@, self.entries@[i as int].1));
            }
            r.push(self.entries[i].0.clone());
            i = i + 1;
        }
        r
    }

    /// Returns whether the given clause is stored in the base.
    pub fn contains_clause(&self, disj: &Disj) -> (b: bool)
        ensures
            b == stored(self@, disj@),
    {
        let mut i: usize = 0;
        while i < self.entries.len()
            invariant
                i <= self@.len(),
                self@.len() == self.entries@.len(),
                forall|k: int| 0 <= k < i ==> (#[trigger] self@[k].0) != disj@,
            decreases self@.len() - i,
        {
            proof {
                assert(self@[i as int] == (self.entries@[i as int].0@, self.entries@[i as int].1));
            }
            if self.entries[i].0 == *disj {
                assert(self@[i as int].0 == disj@);
                return true;
            }
            i = i + 1;
        }
        false
    }

    /// Returns the position of the last entry storing the given clause.
    /// The clause must be present: querying any other clause is a caller
    /// error.
    pub fn last_index(&self, disj: &Disj) -> (k: usize)
        requires
            stored(self@, disj@),
        ensures
            k as int == last_index_of(self@, disj@),
    {
        proof {
            lemma_last_index_of(self@, disj@);
        }
        let mut i: usize = self.entries.len();
        while i > 0
            invariant
                i <= self@.len(),
                self@.len() == self.entries@.len(),
                stored(self@, disj@),
                last_index_of(self@, disj@) < i,
                forall|k: int| last_index_of(self@, disj@) < k < self@.len() ==> (
                #[trigger] self@[k].0) != disj@,
                self@[last_index_of(self@, disj@)].0 == disj@,
            decreases i,
        {
            i = i - 1;
            proof {
                assert(self@[i as int] == (self.entries@[i as int].0@, self.entries@[i as int].1));
            }
            if self.entries[i].0 == *disj {
                assert(self@[i as int].0 == disj@);
                assert(i as int == last_index_of(self@, disj@));
                return i;
            }
        }
        proof {
            assert(false);
        }
        unreached()
    }

    /// Returns the reason the given `Disj` is in the `KB`; a clause stored
    /// more than once among the initial entries answers with the cause of
    /// its last occurrence. The clause must be present: querying any other
    /// clause is a caller error.
    pub fn cause(&self, disj: &Disj) -> (c: Cause)
        requires
            stored(self@, disj@),
        ensures
            c == self@[last_index_of(self@, disj@)].1,
    {
        proof {
            lemma_last_index_of(self@, disj@);
        }
        let k = self.last_index(disj);
        proof {
            assert(self@[k as int] == (self.entries@[k as int].0@, self.entries@[k as int].1));
        }
        self.entries[k].1
    }

    /// Tries combining the entries at the given two positions, adding the
    /// result to the `KB` if it is novel. Returns the new clause, or `None`
    /// when the combination is a tautology or already stored, in which case
    /// the base does not change.
    #[verifier::loop_isolation(false)]
    pub fn combine(&mut self, l: usize, r: usize) -> (res: Option<Disj>)
        requires
            old(self).wf(),
            l < old(self)@.len(),
            r < old(self)@.len(),
        ensures
            final(self).wf(),
            match combine_candidate(old(self)@[l as int].0, old(self)@[r as int].0) {
                None => res is None && final(self)@ == old(self)@,
                Some((cset, e)) => {
                    if exists|k: int|
                        0 <= k < old(self)@.len() && (#[trigger] old(self)@[k].0).to_set()
                            == cset {
                        res is None && final(self)@ == old(self)@
                    } else {
                        res matches Some(d) && d.wf() && d@.to_set() == cset && final(self)@
                            == old(self)@.push((d@, Cause::Derived(l, r, e)))
                    }
                },
            },
    {
        let ghost es0 = self@;
        proof {
            assert(es0[l as int] == (self.entries@[l as int].0@, self.entries@[l as int].1));
            assert(es0[r as int] == (self.entries@[r as int].0@, self.entries@[r as int].1));
        }
        let lc = &self.entries[l].0;
        let rc = &self.entries[r].0;
        assert(lc@ == es0[l as int].0 && rc@ == es0[r as int].0);
        assert(sorted_terms(lc@) && sorted_terms(rc@));
        let (cand, elim): (Disj, Option<char>) = match lc.annihilate(rc) {
            None => {
                proof {
                    lemma_chosen_annihilating(lc@, rc@);
                }
                let u = lc.union(rc);
                (u.unwrap(), None)
            },
            Some((None, _)) => {
                return None;
            },
            Some((Some(d), c)) => (d, Some(c)),
        };
        assert(combine_candidate(es0[l as int].0, es0[r as int].0) == Some(
            (cand@.to_set(), elim),
        ));
        assert(cand.wf());
        let ghost cset = cand@.to_set();
        let mut k: usize = 0;
        while k < self.entries.len()
            invariant
                k <= es0.len(),
                self@ == es0,
                self@.len() == self.entries@.len(),
                cand.wf(),
                forall|k2: int| 0 <= k2 < k ==> (#[trigger] es0[k2].0) != cand@,
            decreases es0.len() - k,
        {
            proof {
                assert(es0[k as int] == (self.entries@[k as int].0@, self.entries@[k as int].1));
            }
            if self.entries[k].0 == cand {
                proof {
                    assert(self.entries@[k as int].0@ == cand@);
                    assert(es0[k as int] == (self.entries@[k as int].0@, self.entries@[k as int].1));
                    assert(es0[k as int].0 == cand@);
                    assert((es0[k as int].0).to_set() == cset);
                }
                return None;
            }
            k = k + 1;
        }
        proof {
            assert forall|k2: int| 0 <= k2 < es0.len() implies (#[trigger] es0[k2].0).to_set()
                != cset by {
                if (es0[k2].0).to_set() == cset {
                    lemma_canonical(es0[k2].0, cand@);
                }
            }
        }
        let out = cand.clone();
        self.entries.push((cand, Cause::Derived(l, r, elim)));
        proof {
            assert(self@ =~= es0.push((out@, Cause::Derived(l, r, elim))));
            let es1 = self@;
            let n = es0.len() as int;
            assert(forall|m: int| 0 <= m < n ==> (#[trigger] es1[m]) == es0[m]);
            assert forall|i2: int| 0 <= i2 < es1.len() implies sorted_terms(
                #[trigger] es1[i2].0,
            ) by {
                if i2 < n {
                    assert(sorted_terms(es0[i2].0));
                }
            }
            assert forall|i2: int| 0 <= i2 < es1.len() implies #[trigger] derivation_ok(
                es1,
                i2,
            ) by {
                if i2 < n {
                    assert(derivation_ok(es0, i2));
                    match es0[i2].1 {
                        Cause::Derived(dl, dr, de) => {
                            assert(es1[dl as int] == es0[dl as int]);
                            assert(es1[dr as int] == es0[dr as int]);
                            assert(forall|j: int|
                                0 <= j < i2 ==> (#[trigger] es1[j].0) == es0[j].0);
                        },
                        _ => {},
                    }
                } else {
                    assert(es1[i2].1 == Cause::Derived(l, r, elim));
                    assert(es1[l as int] == es0[l as int]);
                    assert(es1[r as int] == es0[r as int]);
                    assert(combine_candidate(es1[l as int].0, es1[r as int].0) == Some(
                        (es1[i2].0.to_set(), elim),
                    ));
                    assert(forall|j: int| 0 <= j < i2 ==> (#[trigger] es1[j].0) != es1[i2].0);
                }
            }
        }
        Some(out)
    }

    /// Forward chains until a contradiction is reached, returning false if a
    /// contradiction is found: every entry it appends is a derived
    /// combination of two earlier entries, it halts the moment such a
    /// combination yields the empty clause, and it returns false exactly
    /// then. Every ordered pair of entries is tried, including entries
    /// appended during the pass; when no pair yields a new clause the base
    /// has reached a fixpoint and the goal is unprovable.
    #[verifier::loop_isolation(false)]
    pub fn forward_chain(&mut self) -> (consistent: bool)
        requires
            old(self).wf(),
        ensures
            final(self).wf(),
            old(self)@.len() <= final(self)@.len(),
            old(self)@ == final(self)@.subrange(0, old(self)@.len() as int),
            forall|i: int|
                old(self)@.len() <= i < final(self)@.len() ==> (#[trigger] final(self)@[i].1)
                    is Derived,
            consistent <==> !(exists|i: int|
                old(self)@.len() <= i < final(self)@.len() && (#[trigger] final(self)@[i].0)
                    == Seq::<Term>::empty()),
            !consistent ==> final(self)@.len() > old(self)@.len() && final(self)@.last().0
                == Seq::<Term>::empty() && final(self)@.last().1 is Derived,
            consistent ==> forall|i: int, j: int|
                0 <= j <= i < final(self)@.len() ==> pair_redundant(final(self)@, i, j),
    {
        let ghost es0 = self@;
        let ghost names = entries_names(es0);
        proof {
            lemma_entries_names(es0);
            lemma_lits_over_finite(names);
            lemma_subsets_of_finite(lits_over(names));
        }
        let ghost space = subsets_of(lits_over(names));
        let ghost cap = es0.len() + space.len();
        proof {
            assert(es0 =~= self@.subrange(0, es0.len() as int));
        }
        let mut l: usize = 0;
        while l < self.entries.len()
            invariant
                self.wf(),
                es0.len() <= self@.len(),
                es0 == self@.subrange(0, es0.len() as int),
                l <= self@.len(),
                self@.len() <= cap,
                forall|i: int|
                    es0.len() <= i < self@.len() ==> (#[trigger] self@[i].1) is Derived,
                forall|i: int|
                    es0.len() <= i < self@.len() ==> (#[trigger] self@[i].0) != Seq::<
                        Term,
                    >::empty(),
                forall|i: int|
                    0 <= i < self@.len() ==> clause_names(#[trigger] self@[i].0).subset_of(
                        names,
                    ),
                forall|i: int, j: int| 0 <= j <= i < l ==> pair_redundant(self@, i, j),
            decreases cap - self@.len(), self@.len() - l,
        {
            let ghost len_at = self@.len();
            let mut r: usize = 0;
            while r < self.entries.len()
                invariant
                    self.wf(),
                    es0.len() <= self@.len(),
                    es0 == self@.subrange(0, es0.len() as int),
                    l < self@.len(),
                    r <= self@.len(),
                    len_at <= self@.len(),
                    self@.len() <= cap,
                    forall|i: int|
                        es0.len() <= i < self@.len() ==> (#[trigger] self@[i].1) is Derived,
                    forall|i: int|
                        es0.len() <= i < self@.len() ==> (#[trigger] self@[i].0) != Seq::<
                            Term,
                        >::empty(),
                    forall|i: int|
                        0 <= i < self@.len() ==> clause_names(#[trigger] self@[i].0).subset_of(
                            names,
                        ),
                    forall|i: int, j: int| 0 <= j <= i < l ==> pair_redundant(self@, i, j),
                    forall|j: int| 0 <= j < r ==> pair_redundant(self@, l as int, j),
                decreases cap - self@.len(), self@.len() - r,
            {
                let ghost pre = self@;
                let res = self.combine(l, r);
                proof {
                    assert(pre =~= self@.subrange(0, pre.len() as int));
                    assert(es0 =~= self@.subrange(0, es0.len() as int));
                    assert forall|i: int, j: int| 0 <= j <= i < l implies pair_redundant(
                        self@,
                        i,
                        j,
                    ) by {
                        lemma_redundant_monotone(pre, self@, i, j);
                    }
                    assert forall|j: int| 0 <= j < r implies pair_redundant(
                        self@,
                        l as int,
                        j,
                    ) by {
                        lemma_redundant_monotone(pre, self@, l as int, j);
                    }
                    // The pair just tried is now answered as well.
                    match combine_candidate(pre[l as int].0, pre[r as int].0) {
                        None => {},
                        Some((cset, e)) => {
                            if exists|k: int|
                                0 <= k < pre.len() && (#[trigger] pre[k].0).to_set() == cset {
                                let k = choose|k: int|
                                    0 <= k < pre.len() && (#[trigger] pre[k].0).to_set()
                                        == cset;
                                assert((self@[k].0).to_set() == cset);
                            } else {
                                assert((self@[self@.len() - 1].0).to_set() == cset);
                            }
                        },
                    }
                    assert(pair_redundant(self@, l as int, r as int));
                    if self@.len() > pre.len() {
                        // The appended clause is derived, draws its names from
                        // its premises, and keeps the base under its bound.
                        let last = self@.len() - 1;
                        let cset = (self@[last].0).to_set();
                        assert(forall|m: int| 0 <= m < pre.len() ==> (#[trigger] self@[m])
                            == pre[m]);
                        assert(self@[last].1 is Derived);
                        assert(clause_names(self@[last].0).subset_of(names)) by {
                            let la = pre[l as int].0.to_set();
                            let rb = pre[r as int].0.to_set();
                            assert(cset.subset_of(la.union(rb))) by {
                                match combine_candidate(pre[l as int].0, pre[r as int].0) {
                                    None => {
                                        assert(false);
                                    },
                                    Some((cs, e)) => {
                                        assert(cs == cset);
                                    },
                                }
                            }
                            assert forall|c: char| #[trigger]
                                clause_names(self@[last].0).contains(c) implies names.contains(
                                c,
                            ) by {
                                let t = choose|t: Term| #[trigger]
                                    cset.contains(t) && t.spec_name() == c;
                                if la.contains(t) {
                                    assert(clause_names(pre[l as int].0).contains(c));
                                } else {
                                    assert(rb.contains(t));
                                    assert(clause_names(pre[r as int].0).contains(c));
                                }
                            }
                        }
                        assert forall|i: int| es0.len() <= i < self@.len() implies (
                        #[trigger] self@[i].1) is Derived by {}
                        assert(self@.len() <= cap) by {
                            assert forall|i: int|
                                es0.len() <= i < self@.len() implies space.contains(
                                (#[trigger] self@[i].0).to_set(),
                            ) by {
                                broadcast use vstd::seq_lib::seq_to_set_is_finite;

                                lemma_clause_in_lits(self@[i].0, names);
                            }
                            lemma_kb_size_bound(self@, es0.len() as int, space);
                        }
                    }
                }
                if let Some(d) = res {
                    if d.is_contradiction() {
                        proof {
                            assert(self@.last().0 == d@);
                            assert(d@ =~= Seq::<Term>::empty());
                            assert(self@.len() == pre.len() + 1);
                            assert(self@.len() > es0.len());
                            assert(self@[self@.len() - 1].1 is Derived);
                            assert(es0.len() <= self@.len() - 1 < self@.len() && self@[self@.len()
                                - 1].0 == Seq::<Term>::empty());
                        }
                        return false;
                    }
                    proof {
                        assert(self@.last().0 == d@);
                        assert(self@.last().0 != Seq::<Term>::empty());
                    }
                }
                r = r + 1;
            }
            l = l + 1;
        }
        true
    }
}

/// Round-trip of provenance: a derived entry records two strictly earlier
/// premises, and recombining those premises — eliminating the recorded
/// variable, if any — yields exactly the clause the entry stores.
pub proof fn lemma_provenance_round_trip(kb: KB, i: int)
    requires
        kb.wf(),
        0 <= i < kb@.len(),
        kb@[i].1 is Derived,
    ensures
        kb@[i].1 matches Cause::Derived(l, r, e) ==> 0 <= l < i && 0 <= r < i
            && combine_candidate(kb@[l as int].0, kb@[r as int].0) == Some(
            ((kb@[i].0).to_set(), e),
        ),
{
    assert(derivation_ok(kb@, i));
}

} // verus!
