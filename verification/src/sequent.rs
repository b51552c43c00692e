use vstd::prelude::*;

use crate::disj::Disj;
use crate::kb::Cause;
use crate::kb::KB;
use crate::kb::derivation_ok;
use crate::kb::entries_wf;
use crate::kb::last_index_of;
use crate::kb::lemma_last_index_of;
use crate::kb::stored;
use crate::term::Term;

verus! {

/// One rendered proof step: a clause, its assigned index, and, for a
/// derived step, the indices of its two premises.
///
/// Reconstruction is not memoized: a clause used as a premise by two
/// different derived clauses appears once per use, each time under a fresh
/// index.
#[derive(Debug, PartialEq)]
pub enum Sequent {
    /// The clause was assumed, to prove the goal by refutation.
    Assumed { clause: Disj, index: usize },
    /// The clause was part of the initial fact set.
    Known { clause: Disj, index: usize },
    /// The clause resolves the two premise steps, eliminating `name`.
    Resolution { clause: Disj, index: usize, left: usize, right: usize, name: char },
    /// The clause is the plain union of the two premise steps.
    Union { clause: Disj, index: usize, left: usize, right: usize },
}

/// The ghost shape of a rendered proof step.
pub enum SequentView {
    Assumed(Seq<Term>, int),
    Known(Seq<Term>, int),
    Resolution(Seq<Term>, int, int, int, char),
    Union(Seq<Term>, int, int, int),
}

impl View for Sequent {
    type V = SequentView;

    open spec fn view(&self) -> SequentView {
        match self {
            Sequent::Assumed { clause, index } => SequentView::Assumed(clause@, *index as int),
            Sequent::Known { clause, index } => SequentView::Known(clause@, *index as int),
            Sequent::Resolution { clause, index, left, right, name } => SequentView::Resolution(
                clause@,
                *index as int,
                *left as int,
                *right as int,
                *name,
            ),
            Sequent::Union { clause, index, left, right } => SequentView::Union(
                clause@,
                *index as int,
                *left as int,
                *right as int,
            ),
        }
    }
}

/// The clause a step displays.
pub open spec fn sv_clause(s: SequentView) -> Seq<Term> {
    match s {
        SequentView::Assumed(c, _) => c,
        SequentView::Known(c, _) => c,
        SequentView::Resolution(c, _, _, _, _) => c,
        SequentView::Union(c, _, _, _) => c,
    }
}

/// The index a step was assigned.
pub open spec fn sv_index(s: SequentView) -> int {
    match s {
        SequentView::Assumed(_, n) => n,
        SequentView::Known(_, n) => n,
        SequentView::Resolution(_, n, _, _, _) => n,
        SequentView::Union(_, n, _, _) => n,
    }
}

/// The ghost shapes of a vector of steps.
pub open spec fn views_of(s: Seq<Sequent>) -> Seq<SequentView> {
    s.map_values(|q: Sequent| q@)
}

/// The flat step sequence that replaying the provenance of entry `i` emits,
/// when the first step emitted is numbered `start`: the left premise's
/// subtree, then the right premise's, then one step for the entry itself.
/// Each premise is looked up at the last position storing its clause.
pub open spec fn spec_sequents(es: Seq<(Seq<Term>, Cause)>, i: int, start: int) -> Seq<
    SequentView,
>
    decreases i,
{
    if 0 <= i < es.len() {
        match es[i].1 {
            Cause::Assumed => seq![SequentView::Assumed(es[i].0, start)],
            Cause::Known => seq![SequentView::Known(es[i].0, start)],
            Cause::Derived(l, r, e) => {
                if (l as int) < i && (r as int) < i {
                    let li = last_index_of(es, es[l as int].0);
                    let ri = last_index_of(es, es[r as int].0);
                    if 0 <= li < i && 0 <= ri < i {
                        let ls = spec_sequents(es, li, start);
                        let rs = spec_sequents(es, ri, start + ls.len());
                        let n = start + ls.len() + rs.len();
                        let lroot = start + ls.len() - 1;
                        let rroot = start + ls.len() + rs.len() - 1;
                        match e {
                            Some(c) => ls + rs + seq![
                                SequentView::Resolution(es[i].0, n, lroot, rroot, c),
                            ],
                            None => ls + rs + seq![SequentView::Union(es[i].0, n, lroot, rroot)],
                        }
                    } else {
                        Seq::empty()
                    }
                } else {
                    Seq::empty()
                }
            },
        }
    } else {
        Seq::empty()
    }
}

/// In a well-formed base, the premises of a derived entry are found, by
/// last position, strictly before the entry itself, so replaying
/// provenance terminates.
pub proof fn lemma_premise_last_index(es: Seq<(Seq<Term>, Cause)>, i: int)
    requires
        entries_wf(es),
        0 <= i < es.len(),
        es[i].1 is Derived,
    ensures
        es[i].1 matches Cause::Derived(l, r, e) ==> {
            &&& stored(es, es[l as int].0)
            &&& stored(es, es[r as int].0)
            &&& 0 <= last_index_of(es, es[l as int].0) < i
            &&& 0 <= last_index_of(es, es[r as int].0) < i
        },
{
    match es[i].1 {
        Cause::Derived(l, r, e) => {
            assert(derivation_ok(es, i));
            lemma_one_premise(es, i, l as int);
            lemma_one_premise(es, i, r as int);
        },
        _ => {},
    }
}

/// The last position storing the clause of a premise `p` of the derived
/// entry `i` lies strictly before `i`.
proof fn lemma_one_premise(es: Seq<(Seq<Term>, Cause)>, i: int, p: int)
    requires
        entries_wf(es),
        0 <= i < es.len(),
        es[i].1 is Derived,
        0 <= p < i,
    ensures
        stored(es, es[p].0),
        0 <= last_index_of(es, es[p].0) < i,
{
    assert(stored(es, es[p].0)) by {
        assert(0 <= p < es.len() && es[p].0 == es[p].0);
    }
    lemma_last_index_of(es, es[p].0);
    let m = last_index_of(es, es[p].0);
    if m >= i {
        assert(es[m].0 == es[p].0);
        if es[m].1 is Derived {
            // A derived entry differs from every earlier clause.
            assert(derivation_ok(es, m));
            match es[m].1 {
                Cause::Derived(dl, dr, de) => {
                    assert(es[p].0 != es[m].0);
                },
                _ => {},
            }
        } else {
            // Initial entries never follow a derived one.
            assert(i < m);
            assert(es[m].1 is Derived);
        }
        assert(false);
    }
}

/// The replayed sequence always holds at least the step for the entry
/// replayed.
pub proof fn lemma_spec_sequents_len(es: Seq<(Seq<Term>, Cause)>, i: int, start: int)
    requires
        entries_wf(es),
        0 <= i < es.len(),
    ensures
        spec_sequents(es, i, start).len() >= 1,
    decreases i,
{
    match es[i].1 {
        Cause::Derived(l, r, e) => {
            assert(derivation_ok(es, i));
            lemma_premise_last_index(es, i);
            let li = last_index_of(es, es[l as int].0);
            let ri = last_index_of(es, es[r as int].0);
            lemma_spec_sequents_len(es, li, start);
            lemma_spec_sequents_len(es, ri, start + spec_sequents(es, li, start).len());
        },
        _ => {},
    }
}

/// What a replayed proof looks like: one step per emission, numbered
/// consecutively from `start`; the last step shows the clause whose
/// provenance was replayed; every derived step cites two earlier steps of
/// the sequence; and every leaf step shows a clause the base stores as
/// `Assumed` or `Known` — reconstruction never reaches anything else.
pub proof fn lemma_reconstruction_shape(es: Seq<(Seq<Term>, Cause)>, i: int, start: int)
    requires
        entries_wf(es),
        0 <= i < es.len(),
    ensures
        spec_sequents(es, i, start).len() >= 1,
        sv_clause(spec_sequents(es, i, start).last()) == es[i].0,
        forall|k: int|
            0 <= k < spec_sequents(es, i, start).len() ==> sv_index(
                #[trigger] spec_sequents(es, i, start)[k],
            ) == start + k,
        forall|k: int|
            #![trigger spec_sequents(es, i, start)[k]]
            0 <= k < spec_sequents(es, i, start).len() ==> match spec_sequents(es, i, start)[k] {
                SequentView::Assumed(c, _) => exists|m: int|
                    0 <= m < es.len() && (#[trigger] es[m]) == (c, Cause::Assumed),
                SequentView::Known(c, _) => exists|m: int|
                    0 <= m < es.len() && (#[trigger] es[m]) == (c, Cause::Known),
                SequentView::Resolution(_, n, a, b, _) => start <= a < n && start <= b < n,
                SequentView::Union(_, n, a, b) => start <= a < n && start <= b < n,
            },
    decreases i,
{
    lemma_spec_sequents_len(es, i, start);
    let ss = spec_sequents(es, i, start);
    match es[i].1 {
        Cause::Derived(l, r, e) => {
            assert(derivation_ok(es, i));
            lemma_premise_last_index(es, i);
            let li = last_index_of(es, es[l as int].0);
            let ri = last_index_of(es, es[r as int].0);
            let ls = spec_sequents(es, li, start);
            let rs = spec_sequents(es, ri, start + ls.len());
            lemma_reconstruction_shape(es, li, start);
            lemma_reconstruction_shape(es, ri, start + ls.len());
            assert forall|k: int| 0 <= k < ss.len() implies sv_index(#[trigger] ss[k]) == start
                + k by {
                if k < ls.len() {
                    assert(ss[k] == ls[k]);
                } else if k < ls.len() + rs.len() {
                    assert(ss[k] == rs[k - ls.len()]);
                } else {
                    assert(k == ss.len() - 1);
                }
            }
            assert forall|k: int| #![trigger ss[k]] 0 <= k < ss.len() implies match ss[k] {
                SequentView::Assumed(c, _) => exists|m: int|
                    0 <= m < es.len() && (#[trigger] es[m]) == (c, Cause::Assumed),
                SequentView::Known(c, _) => exists|m: int|
                    0 <= m < es.len() && (#[trigger] es[m]) == (c, Cause::Known),
                SequentView::Resolution(_, n, a, b, _) => start <= a < n && start <= b < n,
                SequentView::Union(_, n, a, b) => start <= a < n && start <= b < n,
            } by {
                if k < ls.len() {
                    assert(ss[k] == ls[k]);
                } else if k < ls.len() + rs.len() {
                    assert(ss[k] == rs[k - ls.len()]);
                } else {
                    assert(k == ss.len() - 1);
                    assert(ls.len() >= 1 && rs.len() >= 1);
                }
            }
        },
        _ => {},
    }
}

/// Replays the provenance of entry `i`, appending its steps to `steps`.
fn reconstruct_rec(kb: &KB, i: usize, steps: &mut Vec<Sequent>)
    requires
        kb.wf(),
        i < kb@.len(),
    ensures
        views_of(final(steps)@) == views_of(old(steps)@) + spec_sequents(
            kb@,
            i as int,
            old(steps)@.len() as int,
        ),
    decreases i,
{
    let ghost es = kb@;
    let ghost start = steps@.len() as int;
    proof {
        assert(es[i as int] == (kb.entries@[i as int].0@, kb.entries@[i as int].1));
    }
    let cause = kb.entries[i].1;
    match cause {
        Cause::Assumed => {
            let clause = kb.entries[i].0.clone();
            let index = steps.len();
            steps.push(Sequent::Assumed { clause, index });
            assert(views_of(steps@) =~= views_of(old(steps)@) + spec_sequents(es, i as int, start));
        },
        Cause::Known => {
            let clause = kb.entries[i].0.clone();
            let index = steps.len();
            steps.push(Sequent::Known { clause, index });
            assert(views_of(steps@) =~= views_of(old(steps)@) + spec_sequents(es, i as int, start));
        },
        Cause::Derived(l, r, e) => {
            proof {
                assert(derivation_ok(es, i as int));
                lemma_premise_last_index(es, i as int);
                assert(es[l as int] == (kb.entries@[l as int].0@, kb.entries@[l as int].1));
                assert(es[r as int] == (kb.entries@[r as int].0@, kb.entries@[r as int].1));
                lemma_last_index_of(es, es[l as int].0);
                lemma_last_index_of(es, es[r as int].0);
            }
            let li = kb.last_index(&kb.entries[l].0);
            reconstruct_rec(kb, li, steps);
            let ghost ls = spec_sequents(es, li as int, start);
            proof {
                lemma_spec_sequents_len(es, li as int, start);
                assert(views_of(steps@).len() == steps@.len());
                assert(steps@.len() == start + ls.len());
            }
            let left = steps.len() - 1;
            let ri = kb.last_index(&kb.entries[r].0);
            reconstruct_rec(kb, ri, steps);
            let ghost rs = spec_sequents(es, ri as int, start + ls.len());
            proof {
                lemma_spec_sequents_len(es, ri as int, start + ls.len());
                assert(views_of(steps@).len() == steps@.len());
                assert(steps@.len() == start + ls.len() + rs.len());
            }
            let right = steps.len() - 1;
            let index = steps.len();
            let clause = kb.entries[i].0.clone();
            let step = match e {
                Some(name) => Sequent::Resolution { clause, index, left, right, name },
                None => Sequent::Union { clause, index, left, right },
            };
            let ghost sv = step@;
            let ghost before = steps@;
            steps.push(step);
            proof {
                assert(views_of(steps@) =~= views_of(before).push(sv));
                assert(views_of(before) == views_of(old(steps)@) + ls + rs);
                assert(views_of(before).push(sv) =~= views_of(old(steps)@) + spec_sequents(
                    es,
                    i as int,
                    start,
                ));
            }
        },
    }
}

/// Walks the provenance of the given clause — which must be stored — and
/// returns the proof as a flat sequence of steps in rendering order: the
/// step at position `k` carries index `k`, premises always precede the
/// steps citing them, and the last step shows the queried clause. Each
/// reconstruction starts counting afresh at index 0.
pub fn reconstruct(kb: &KB, clause: &Disj) -> (steps: Vec<Sequent>)
    requires
        kb.wf(),
        stored(kb@, clause@),
    ensures
        views_of(steps@) == spec_sequents(kb@, last_index_of(kb@, clause@), 0),
        steps@.len() >= 1,
{
    proof {
        lemma_last_index_of(kb@, clause@);
    }
    let i = kb.last_index(clause);
    let mut steps: Vec<Sequent> = Vec::new();
    reconstruct_rec(kb, i, &mut steps);
    proof {
        assert(views_of(Seq::<Sequent>::empty()) =~= Seq::<SequentView>::empty());
        lemma_spec_sequents_len(kb@, i as int, 0);
        assert(views_of(steps@).len() == steps@.len());
    }
    steps
}

} // verus!
