use resolution::Cause;
use resolution::Disj;
use resolution::KB;
use resolution::Sequent;
use resolution::Term;
use resolution::reconstruct;

fn pos(c: char) -> Term {
    Term::Pos(c)
}

fn neg(c: char) -> Term {
    Term::Neg(c)
}

fn clause(terms: Vec<Term>) -> Disj {
    Disj::from_terms(terms)
}

#[test]
fn term_basics() {
    assert_eq!(pos('a').name(), 'a');
    assert_eq!(neg('a').name(), 'a');
    assert!(pos('a').sign());
    assert!(!neg('a').sign());
    assert_eq!(pos('a').opposite(), neg('a'));
    assert_eq!(neg('a').opposite(), pos('a'));
    assert!(pos('a').opposes(neg('a')));
    assert!(!pos('a').opposes(pos('a')));
    assert!(!pos('a').opposes(neg('b')));
}

#[test]
fn clause_canonical_construction_order() {
    // The same literal set compares equal whatever the construction order.
    let d1 = clause(vec![pos('a'), neg('b')]);
    let d2 = clause(vec![neg('b'), pos('a')]);
    assert_eq!(d1, d2);
    let d3 = clause(vec![pos('a'), pos('a'), neg('b')]);
    assert_eq!(d1, d3);
    let d4 = clause(vec![pos('a'), pos('b')]);
    assert_ne!(d1, d4);
}

#[test]
fn contradiction_is_empty() {
    let f = Disj::contradiction();
    assert!(f.is_contradiction());
    assert!(!clause(vec![pos('a')]).is_contradiction());
}

#[test]
fn union_reports_tautology() {
    // Any two clauses sharing a literal and its opposite never union.
    let a = clause(vec![pos('a')]);
    let not_a = clause(vec![neg('a')]);
    assert_eq!(a.union(&not_a), None);
    assert_eq!(not_a.union(&a), None);
    let ab = clause(vec![pos('a'), pos('b')]);
    assert_eq!(ab.union(&not_a), None);
    let big = clause(vec![neg('a'), pos('c'), neg('d')]);
    assert_eq!(ab.union(&big), None);
}

#[test]
fn union_of_disjoint_clauses() {
    let a = clause(vec![pos('a')]);
    let b = clause(vec![pos('b')]);
    let u = a.union(&b).expect("no complementary pair");
    assert_eq!(u, clause(vec![pos('a'), pos('b')]));
    // Sharing a literal with the same polarity is fine and does not repeat it.
    let ab = clause(vec![pos('a'), pos('b')]);
    let bc = clause(vec![pos('b'), neg('c')]);
    let u2 = ab.union(&bc).expect("no complementary pair");
    assert_eq!(u2, clause(vec![pos('a'), pos('b'), neg('c')]));
}

#[test]
fn find_annihilating_pairs() {
    let a = clause(vec![pos('a'), neg('b')]);
    let b = clause(vec![pos('b'), pos('c')]);
    let t = a.find_annihilating(&b).expect("b is complementary");
    assert_eq!(t.name(), 'b');
    let c = clause(vec![pos('c'), neg('d')]);
    assert_eq!(a.find_annihilating(&c), None);
}

#[test]
fn annihilate_eliminates_one_variable() {
    let l = clause(vec![pos('a'), neg('b')]);
    let r = clause(vec![pos('b'), pos('c')]);
    let (d, c) = l.annihilate(&r).expect("they annihilate");
    assert_eq!(c, 'b');
    assert_eq!(d.expect("no residual pair"), clause(vec![pos('a'), pos('c')]));
}

#[test]
fn annihilate_rejects_residual_tautology() {
    // Eliminating one shared variable still leaves b and !b: a tautology.
    let l = clause(vec![pos('a'), pos('b')]);
    let r = clause(vec![neg('a'), neg('b')]);
    let (d, c) = l.annihilate(&r).expect("they annihilate");
    assert_eq!(c, 'a');
    assert_eq!(d, None);
    // Clauses with no shared variable do not annihilate at all.
    let s = clause(vec![pos('c')]);
    assert!(l.annihilate(&s).is_none());
}

#[test]
fn without_removes_both_polarities() {
    let d = clause(vec![pos('a'), neg('b'), pos('c')]);
    assert_eq!(d.without('a'), clause(vec![neg('b'), pos('c')]));
    assert_eq!(d.without('x'), d);
    let taut = clause(vec![pos('a'), neg('a'), pos('b')]);
    assert_eq!(taut.without('a'), clause(vec![pos('b')]));
}

#[test]
fn kb_initial_entries_in_order() {
    // Facts first, marked Known; then one assumed opposite per goal term.
    let goal = clause(vec![pos('a'), neg('b')]);
    let facts = vec![clause(vec![pos('x')]), clause(vec![neg('y')])];
    let kb = KB::new(goal, facts);
    assert_eq!(kb.len(), 4);
    let all = kb.iter();
    assert_eq!(all[0], clause(vec![pos('x')]));
    assert_eq!(all[1], clause(vec![neg('y')]));
    assert_eq!(all[2], clause(vec![neg('a')]));
    assert_eq!(all[3], clause(vec![pos('b')]));
    assert!(matches!(kb.cause(&all[0]), Cause::Known));
    assert!(matches!(kb.cause(&all[2]), Cause::Assumed));
}

#[test]
fn combine_tags_plain_union() {
    // Two clauses with no shared variable combine only by plain union.
    let mut kb = KB::new(Disj::contradiction(), vec![
        clause(vec![pos('a')]),
        clause(vec![pos('b')]),
    ]);
    let d = kb.combine(0, 1).expect("novel union");
    assert_eq!(d, clause(vec![pos('a'), pos('b')]));
    assert_eq!(kb.len(), 3);
    match kb.cause(&d) {
        Cause::Derived(l, r, e) => {
            assert_eq!((l, r, e), (0, 1, None));
        },
        _ => panic!("expected a derived entry"),
    }
}

#[test]
fn combine_deduplicates() {
    // A combination equal to a stored clause adds no entry.
    let mut kb = KB::new(Disj::contradiction(), vec![
        clause(vec![pos('a')]),
        clause(vec![pos('b')]),
    ]);
    assert!(kb.combine(0, 1).is_some());
    assert_eq!(kb.len(), 3);
    assert_eq!(kb.combine(0, 1), None);
    assert_eq!(kb.len(), 3);
    // The reversed pair unions to the same clause, so it is a duplicate too.
    assert_eq!(kb.combine(1, 0), None);
    assert_eq!(kb.len(), 3);
    // Self-pairing never yields new information.
    assert_eq!(kb.combine(0, 0), None);
    assert_eq!(kb.len(), 3);
}

#[test]
fn duplicate_initial_clause_keeps_last_cause() {
    // Goal a, fact !a: the assumed clause duplicates the fact; a lookup
    // answers with the later entry's cause.
    let kb = KB::new(clause(vec![pos('a')]), vec![clause(vec![neg('a')])]);
    assert_eq!(kb.len(), 2);
    assert!(matches!(kb.cause(&clause(vec![neg('a')])), Cause::Assumed));
}

#[test]
fn unprovable_goal_reaches_fixpoint() {
    // Goal a with fact !a: a unit clause cannot self-resolve to empty.
    let mut kb = KB::new(clause(vec![pos('a')]), vec![clause(vec![neg('a')])]);
    assert!(kb.forward_chain());
    assert_eq!(kb.len(), 2);
    assert!(!kb.contains_clause(&Disj::contradiction()));
}

#[test]
fn direct_contradiction_and_reconstruction() {
    // Goal a with fact a: the assumption !a resolves with the fact to the
    // empty clause; the proof replays as exactly three numbered steps.
    let mut kb = KB::new(clause(vec![pos('a')]), vec![clause(vec![pos('a')])]);
    assert!(!kb.forward_chain());
    let empty = Disj::contradiction();
    assert!(kb.contains_clause(&empty));
    let steps = reconstruct(&kb, &empty);
    assert_eq!(steps.len(), 3);
    assert_eq!(steps[0], Sequent::Known { clause: clause(vec![pos('a')]), index: 0 });
    assert_eq!(steps[1], Sequent::Assumed { clause: clause(vec![neg('a')]), index: 1 });
    assert_eq!(
        steps[2],
        Sequent::Resolution { clause: empty, index: 2, left: 0, right: 1, name: 'a' },
    );
}

#[test]
fn contradiction_from_facts_alone() {
    // Facts b and !b contradict each other before the assumption is used:
    // every leaf of the replayed proof is a Known step.
    let mut kb = KB::new(clause(vec![pos('a')]), vec![
        clause(vec![pos('b')]),
        clause(vec![neg('b')]),
        clause(vec![pos('a')]),
    ]);
    assert!(!kb.forward_chain());
    let steps = reconstruct(&kb, &Disj::contradiction());
    assert_eq!(steps.len(), 3);
    assert_eq!(steps[0], Sequent::Known { clause: clause(vec![pos('b')]), index: 0 });
    assert_eq!(steps[1], Sequent::Known { clause: clause(vec![neg('b')]), index: 1 });
    assert_eq!(
        steps[2],
        Sequent::Resolution {
            clause: Disj::contradiction(),
            index: 2,
            left: 0,
            right: 1,
            name: 'b',
        },
    );
    for s in &steps {
        match s {
            Sequent::Assumed { .. } => panic!("the assumption was never needed"),
            _ => {},
        }
    }
}

#[test]
fn saturation_halts_without_contradiction() {
    // Goal a, fact (a V !b): resolving on a gives !b, the assumption and
    // !b union into (!a V !b), and saturation stops at that fixpoint.
    let mut kb = KB::new(clause(vec![pos('a')]), vec![clause(vec![pos('a'), neg('b')])]);
    assert!(kb.forward_chain());
    assert_eq!(kb.len(), 4);
    let all = kb.iter();
    assert_eq!(all[2], clause(vec![neg('b')]));
    assert_eq!(all[3], clause(vec![neg('a'), neg('b')]));
}

#[test]
fn multi_step_refutation() {
    // Goal c, facts (c V !a), a: assume !c; resolve to derive c; resolve
    // with the assumption to reach the empty clause.
    let mut kb = KB::new(clause(vec![pos('c')]), vec![
        clause(vec![pos('c'), neg('a')]),
        clause(vec![pos('a')]),
    ]);
    assert!(!kb.forward_chain());
    let steps = reconstruct(&kb, &Disj::contradiction());
    // Every step is numbered by its position, premises come before the
    // steps that cite them, and the last step shows the empty clause.
    for (k, s) in steps.iter().enumerate() {
        match s {
            Sequent::Assumed { index, .. } => assert_eq!(*index, k),
            Sequent::Known { index, .. } => assert_eq!(*index, k),
            Sequent::Resolution { index, left, right, .. } => {
                assert_eq!(*index, k);
                assert!(*left < k && *right < k);
            },
            Sequent::Union { index, left, right, .. } => {
                assert_eq!(*index, k);
                assert!(*left < k && *right < k);
            },
        }
    }
    match steps.last().expect("a proof was rendered") {
        Sequent::Resolution { clause: c, .. } => assert!(c.is_contradiction()),
        _ => panic!("the root of a refutation is a resolution step"),
    }
}

#[test]
fn chained_resolution_through_intermediates() {
    // Goal d, facts (d V !c), (c V !b), b: the refutation needs a chain of
    // resolutions, and reconstruction replays it from the empty clause.
    let mut kb = KB::new(clause(vec![pos('d')]), vec![
        clause(vec![pos('d'), neg('c')]),
        clause(vec![pos('c'), neg('b')]),
        clause(vec![pos('b')]),
    ]);
    assert!(!kb.forward_chain());
    assert!(kb.contains_clause(&Disj::contradiction()));
    let steps = reconstruct(&kb, &Disj::contradiction());
    assert!(steps.len() >= 3);
    // Leaves are only ever Known or Assumed entries of the base.
    for s in &steps {
        match s {
            Sequent::Assumed { clause: c, .. } => {
                assert!(kb.contains_clause(c));
                assert!(matches!(kb.cause(c), Cause::Assumed));
            },
            Sequent::Known { clause: c, .. } => {
                assert!(kb.contains_clause(c));
                assert!(matches!(kb.cause(c), Cause::Known));
            },
            Sequent::Resolution { clause: c, .. } => assert!(kb.contains_clause(c)),
            Sequent::Union { clause: c, .. } => assert!(kb.contains_clause(c)),
        }
    }
}

#[test]
fn empty_known_clause_is_never_rediscovered() {
    // An empty clause among the facts is already stored, so no combination
    // re-derives it, and saturation reports no contradiction.
    let mut kb = KB::new(clause(vec![pos('a')]), vec![Disj::contradiction()]);
    assert!(kb.forward_chain());
    assert!(kb.contains_clause(&Disj::contradiction()));
}

#[test]
fn provenance_re_derivation_round_trip() {
    // Re-deriving each derived entry from its recorded premises, via the
    // same combination rule, yields the stored clause.
    let mut kb = KB::new(clause(vec![pos('c')]), vec![
        clause(vec![pos('c'), neg('a')]),
        clause(vec![pos('a')]),
        clause(vec![pos('x')]),
    ]);
    kb.forward_chain();
    let all = kb.iter();
    let mut derived = 0;
    for d in &all {
        if let Cause::Derived(l, r, e) = kb.cause(d) {
            derived += 1;
            let redone = match all[l].annihilate(&all[r]) {
                Some((inner, c)) => {
                    assert_eq!(Some(c), e, "the recorded variable was eliminated");
                    inner.expect("a stored combination is no tautology")
                },
                None => {
                    assert_eq!(e, None);
                    all[l].union(&all[r]).expect("a stored union is no tautology")
                },
            };
            assert_eq!(&redone, d);
        }
    }
    assert!(derived > 0, "saturation derived something");
}
