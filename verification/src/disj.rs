use vstd::prelude::*;

use crate::term::Term;
use crate::term::push_char;

verus! {

/// A disjunction, formed as a set of `Term`s.
///
/// The terms are stored sorted in the canonical order with no repetition,
/// so two disjunctions denote the same set of terms exactly when their
/// representations are equal.
#[derive(Debug)]
pub struct Disj {
    pub terms: Vec<Term>,
}

impl View for Disj {
    type V = Seq<Term>;

    open spec fn view(&self) -> Seq<Term> {
        self.terms@
    }
}

/// Strictly ascending in the canonical term order; no term repeats.
pub open spec fn sorted_terms(s: Seq<Term>) -> bool {
    forall|i: int, j: int| 0 <= i < j < s.len() ==> s[i].spec_precedes(s[j])
}

/// The terms of `s` whose name is not `name`.
pub open spec fn without_name(s: Set<Term>, name: char) -> Set<Term> {
    s.filter(|t: Term| t.spec_name() != name)
}

/// Whether some term of `a` has its opposite in `b`; such a pair makes the
/// plain union of `a` and `b` a tautology.
pub open spec fn has_cross_pair(a: Set<Term>, b: Set<Term>) -> bool {
    exists|t: Term| #[trigger] a.contains(t) && b.contains(t.spec_opposite())
}

/// The first term of `a`, in stored order, whose opposite is in `b`.
pub open spec fn first_annihilating(a: Seq<Term>, b: Seq<Term>) -> Option<Term>
    decreases a.len(),
{
    if a.len() == 0 {
        None
    } else if b.to_set().contains(a[0].spec_opposite()) {
        Some(a[0])
    } else {
        first_annihilating(a.drop_first(), b)
    }
}

/// The annihilating term that `find_annihilating` picks: the first hit while
/// scanning the smaller of the two clauses.
pub open spec fn chosen_annihilating(a: Seq<Term>, b: Seq<Term>) -> Option<Term> {
    if a.len() > b.len() {
        first_annihilating(b, a)
    } else {
        first_annihilating(a, b)
    }
}

/// The name of the chosen annihilating term, when there is one.
pub open spec fn chosen_name(a: Seq<Term>, b: Seq<Term>) -> char
    recommends
        chosen_annihilating(a, b) is Some,
{
    chosen_annihilating(a, b)->Some_0.spec_name()
}

/// A cross pair between two sets can be read in either direction.
pub proof fn lemma_cross_pair_symmetric(a: Set<Term>, b: Set<Term>)
    ensures
        has_cross_pair(a, b) == has_cross_pair(b, a),
{
    if has_cross_pair(a, b) {
        let t = choose|t: Term| #[trigger] a.contains(t) && b.contains(t.spec_opposite());
        assert(b.contains(t.spec_opposite()) && a.contains(t.spec_opposite().spec_opposite()));
    }
    if has_cross_pair(b, a) {
        let t = choose|t: Term| #[trigger] b.contains(t) && a.contains(t.spec_opposite());
        assert(a.contains(t.spec_opposite()) && b.contains(t.spec_opposite().spec_opposite()));
    }
}

proof fn lemma_first_annihilating(a: Seq<Term>, b: Seq<Term>)
    ensures
        match first_annihilating(a, b) {
            Some(t) => a.to_set().contains(t) && b.to_set().contains(t.spec_opposite()),
            None => !has_cross_pair(a.to_set(), b.to_set()),
        },
    decreases a.len(),
{
    if a.len() == 0 {
        assert(forall|t: Term| !(#[trigger] a.to_set().contains(t)));
    } else if b.to_set().contains(a[0].spec_opposite()) {
        assert(a.to_set().contains(a[0]));
    } else {
        lemma_first_annihilating(a.drop_first(), b);
        match first_annihilating(a.drop_first(), b) {
            Some(t) => {
                assert(a.drop_first().to_set().contains(t));
                let i = choose|i: int|
                    0 <= i < a.drop_first().len() && a.drop_first()[i] == t;
                assert(a[i + 1] == t);
                assert(a.to_set().contains(t));
            },
            None => {
                assert forall|t: Term| #[trigger]
                    a.to_set().contains(t) implies !b.to_set().contains(t.spec_opposite()) by {
                    let i = choose|i: int| 0 <= i < a.len() && a[i] == t;
                    if i == 0 {
                    } else {
                        assert(a.drop_first()[i - 1] == t);
                        assert(a.drop_first().to_set().contains(t));
                    }
                }
            },
        }
    }
}

/// `find_annihilating` succeeds exactly when the two clauses hold a term and
/// its opposite between them.
pub proof fn lemma_chosen_annihilating(a: Seq<Term>, b: Seq<Term>)
    ensures
        chosen_annihilating(a, b) is Some <==> has_cross_pair(a.to_set(), b.to_set()),
        chosen_annihilating(a, b) matches Some(t) ==> (a.to_set().contains(t) && b.to_set().contains(
            t.spec_opposite(),
        )) || (b.to_set().contains(t) && a.to_set().contains(t.spec_opposite())),
{
    lemma_first_annihilating(a, b);
    lemma_first_annihilating(b, a);
    lemma_cross_pair_symmetric(a.to_set(), b.to_set());
}

/// Two sorted representations with the same term set are the same sequence:
/// a clause's stored form is canonical.
pub proof fn lemma_canonical(a: Seq<Term>, b: Seq<Term>)
    requires
        sorted_terms(a),
        sorted_terms(b),
        a.to_set() == b.to_set(),
    ensures
        a == b,
    decreases a.len(),
{
    if a.len() == 0 {
        if b.len() > 0 {
            assert(b.to_set().contains(b[0]));
            assert(a.to_set().contains(b[0]));
            assert(false);
        }
        assert(a =~= b);
    } else {
        assert(a.to_set().contains(a[0]));
        assert(b.to_set().contains(a[0]));
        if b.len() == 0 {
            assert(false);
        }
        // The head of each sequence is the least element of the shared set,
        // so the heads agree.
        let i = choose|i: int| 0 <= i < a.len() && a[i] == b[0];
        let j = choose|j: int| 0 <= j < b.len() && b[j] == a[0];
        assert(b.to_set().contains(b[0]));
        assert(a.to_set().contains(b[0]));
        assert(a[i] == b[0]);
        if i > 0 && j > 0 {
            assert(a[0].spec_precedes(a[i]));
            assert(b[0].spec_precedes(b[j]));
            assert(false);
        }
        assert(a[0] == b[0]);
        // The head is in neither tail, so the tails share a set and recurse.
        assert(a.drop_first().to_set() =~= a.to_set().remove(a[0])) by {
            lemma_drop_first_to_set(a);
        }
        assert(b.drop_first().to_set() =~= b.to_set().remove(b[0])) by {
            lemma_drop_first_to_set(b);
        }
        lemma_canonical(a.drop_first(), b.drop_first());
        assert(a =~= b) by {
            assert(forall|k: int| 1 <= k < a.len() ==> a[k] == a.drop_first()[k - 1]);
            assert(forall|k: int| 1 <= k < b.len() ==> b[k] == b.drop_first()[k - 1]);
        }
    }
}

/// For a sorted sequence, dropping the head removes exactly the head from
/// the term set.
proof fn lemma_drop_first_to_set(s: Seq<Term>)
    requires
        sorted_terms(s),
        s.len() > 0,
    ensures
        s.drop_first().to_set() =~= s.to_set().remove(s[0]),
{
    assert forall|t: Term| #[trigger]
        s.drop_first().to_set().contains(t) implies s.to_set().remove(s[0]).contains(t) by {
        let i = choose|i: int| 0 <= i < s.drop_first().len() && s.drop_first()[i] == t;
        assert(s[i + 1] == t);
        assert(s.to_set().contains(t));
        assert(s[0].spec_precedes(s[i + 1]));
        crate::term::lemma_precedes_total(s[0], t);
    }
    assert forall|t: Term| #[trigger]
        s.to_set().remove(s[0]).contains(t) implies s.drop_first().to_set().contains(t) by {
        let i = choose|i: int| 0 <= i < s.len() && s[i] == t;
        assert(i != 0);
        assert(s.drop_first()[i - 1] == t);
    }
}

/// Copies a term vector element by element.
fn copy_terms(v: &Vec<Term>) -> (r: Vec<Term>)
    ensures
        r@ == v@,
{
    let mut r: Vec<Term> = Vec::new();
    let mut i: usize = 0;
    while i < v.len()
        invariant
            i <= v.len(),
            r@ == v@.subrange(0, i as int),
        decreases v.len() - i,
    {
        r.push(v[i]);
        assert(r@ =~= v@.subrange(0, i + 1 as int));
        i = i + 1;
    }
    assert(r@ =~= v@);
    r
}

/// Inserts a term into a sorted vector, keeping it sorted and ignoring a
/// term that is already present.
fn insert_term(v: &mut Vec<Term>, t: Term)
    requires
        sorted_terms(old(v)@),
    ensures
        sorted_terms(final(v)@),
        final(v)@.to_set() == old(v)@.to_set().insert(t),
{
    let ghost orig = v@;
    let mut i: usize = 0;
    while i < v.len() && v[i].precedes(t)
        invariant
            i <= v.len(),
            v@ == orig,
            forall|k: int| 0 <= k < i ==> orig[k].spec_precedes(t),
        decreases v.len() - i,
    {
        i = i + 1;
    }
    if i < v.len() && !t.precedes(v[i]) {
        // Neither order holds, so the term is already stored here.
        proof {
            crate::term::lemma_precedes_total(t, orig[i as int]);
        }
        assert(orig[i as int] == t);
        assert(v@.to_set() =~= orig.to_set().insert(t)) by {
            assert(orig.to_set().contains(t));
        }
        return ;
    }
    v.insert(i, t);
    assert forall|p: int, q: int| 0 <= p < q < v@.len() implies v@[p].spec_precedes(v@[q]) by {
        let ii = i as int;
        if q < ii {
            assert(v@[p] == orig[p] && v@[q] == orig[q]);
        } else if p > ii {
            assert(v@[p] == orig[p - 1] && v@[q] == orig[q - 1]);
        } else if p == ii {
            assert(v@[p] == t && v@[q] == orig[q - 1]);
            assert(t.spec_precedes(orig[ii]));
            if q - 1 > ii {
                crate::term::lemma_precedes_transitive(t, orig[ii], orig[q - 1]);
            }
        } else if q == ii {
            assert(v@[p] == orig[p] && v@[q] == t);
        } else {
            // p < ii < q, so both sides come from distinct slots of `orig`.
            assert(v@[p] == orig[p] && v@[q] == orig[q - 1]);
            assert(orig[p].spec_precedes(orig[q - 1]));
        }
    }
    assert(v@.to_set() =~= orig.to_set().insert(t)) by {
        assert forall|x: Term| #[trigger] v@.to_set().contains(x) implies orig.to_set().insert(
            t,
        ).contains(x) by {
            let k = choose|k: int| 0 <= k < v@.len() && v@[k] == x;
            if k < i as int {
                assert(orig[k] == x);
                assert(orig.to_set().contains(x));
            } else if k > i as int {
                assert(orig[k - 1] == x);
                assert(orig.to_set().contains(x));
            }
        }
        assert forall|x: Term| #[trigger]
            orig.to_set().insert(t).contains(x) implies v@.to_set().contains(x) by {
            if x == t {
                assert(v@[i as int] == x);
            } else {
                let k = choose|k: int| 0 <= k < orig.len() && orig[k] == x;
                if k < i as int {
                    assert(v@[k] == x);
                } else {
                    assert(v@[k + 1] == x);
                }
            }
        }
    }
}

impl Disj {
    /// The disjunction holds its terms sorted with no repetition.
    pub open spec fn wf(self) -> bool {
        sorted_terms(self@)
    }

    /// Builds the disjunction over the given terms, in any order and with
    /// repetition allowed: only set membership matters.
    pub fn from_terms(terms: Vec<Term>) -> (r: Disj)
        ensures
            r.wf(),
            r@.to_set() == terms@.to_set(),
    {
        let mut v: Vec<Term> = Vec::new();
        let mut i: usize = 0;
        while i < terms.len()
            invariant
                i <= terms.len(),
                sorted_terms(v@),
                v@.to_set() == terms@.subrange(0, i as int).to_set(),
            decreases terms.len() - i,
        {
            insert_term(&mut v, terms[i]);
            assert(terms@.subrange(0, i + 1 as int).to_set() =~= terms@.subrange(
                0,
                i as int,
            ).to_set().insert(terms@[i as int])) by {
                let pre = terms@.subrange(0, i as int);
                let post = terms@.subrange(0, i + 1 as int);
                assert(post =~= pre.push(terms@[i as int]));
                assert forall|x: Term| #[trigger] post.to_set().contains(x) implies pre.to_set().insert(
                    terms@[i as int],
                ).contains(x) by {
                    let k = choose|k: int| 0 <= k < post.len() && post[k] == x;
                    if k < i as int {
                        assert(pre[k] == x);
                    }
                }
                assert forall|x: Term| #[trigger]
                    pre.to_set().insert(terms@[i as int]).contains(x) implies post.to_set().contains(
                    x,
                ) by {
                    if x == terms@[i as int] {
                        assert(post[i as int] == x);
                    } else {
                        let k = choose|k: int| 0 <= k < pre.len() && pre[k] == x;
                        assert(post[k] == x);
                    }
                }
            }
            i = i + 1;
        }
        assert(terms@.subrange(0, terms@.len() as int) =~= terms@);
        Disj { terms: v }
    }

    /// Returns the contradictory `Disj`: the empty clause, logically false.
    pub fn contradiction() -> (r: Disj)
        ensures
            r.wf(),
            r@ == Seq::<Term>::empty(),
    {
        Disj { terms: Vec::new() }
    }

    /// Returns whether the given disjunction is a contradiction, that is,
    /// holds no term.
    pub fn is_contradiction(&self) -> (b: bool)
        ensures
            b == (self@.len() == 0),
    {
        self.terms.len() == 0
    }

    /// Returns whether the disjunction contains the given term.
    pub fn contains(&self, t: Term) -> (b: bool)
        ensures
            b == self@.to_set().contains(t),
    {
        let mut i: usize = 0;
        while i < self.terms.len()
            invariant
                i <= self.terms@.len(),
                forall|k: int| 0 <= k < i ==> self.terms@[k] != t,
            decreases self.terms@.len() - i,
        {
            if self.terms[i] == t {
                assert(self@.to_set().contains(t));
                return true;
            }
            i = i + 1;
        }
        assert(!self@.to_set().contains(t));
        false
    }

    /// Finds a term that appears in one disjunction while its opposite
    /// appears in the other; the smaller clause is the one scanned.
    pub fn find_annihilating(&self, other: &Disj) -> (r: Option<Term>)
        ensures
            r == chosen_annihilating(self@, other@),
    {
        let (a, b) = if self.terms.len() > other.terms.len() {
            (other, self)
        } else {
            (self, other)
        };
        let ghost av = a@;
        let ghost bv = b@;
        proof {
            assert(av.skip(0) =~= av);
            assert(chosen_annihilating(self@, other@) == first_annihilating(av, bv));
        }
        let mut i: usize = 0;
        while i < a.terms.len()
            invariant
                i <= av.len(),
                a@ == av,
                b@ == bv,
                chosen_annihilating(self@, other@) == first_annihilating(av, bv),
                first_annihilating(av, bv) == first_annihilating(av.skip(i as int), bv),
            decreases av.len() - i,
        {
            if b.contains(a.terms[i].opposite()) {
                proof {
                    assert(av.skip(i as int)[0] == av[i as int]);
                    assert(first_annihilating(av.skip(i as int), bv) == Some(av[i as int]));
                }
                return Some(a.terms[i]);
            }
            proof {
                assert(av.skip(i as int).drop_first() =~= av.skip(i + 1 as int));
                assert(av.skip(i as int)[0] == av[i as int]);
            }
            i = i + 1;
        }
        assert(av.skip(av.len() as int) =~= Seq::<Term>::empty());
        None
    }

    /// Returns a new disjunction without the terms of the given name, in
    /// either polarity.
    pub fn without(&self, name: char) -> (r: Disj)
        requires
            self.wf(),
        ensures
            r.wf(),
            r@.to_set() == without_name(self@.to_set(), name),
    {
        let mut v: Vec<Term> = Vec::new();
        let mut i: usize = 0;
        while i < self.terms.len()
            invariant
                i <= self.terms@.len(),
                self.wf(),
                sorted_terms(v@),
                v@.to_set() == without_name(self@.subrange(0, i as int).to_set(), name),
                forall|k: int| #![trigger v@[k]]
                    0 <= k < v@.len() ==> exists|j: int| 0 <= j < i && self@[j] == v@[k],
            decreases self.terms@.len() - i,
        {
            let ghost pre = v@;
            let t = self.terms[i];
            if t.name() != name {
                v.push(t);
                assert forall|p: int, q: int| 0 <= p < q < v@.len() implies v@[p].spec_precedes(
                    v@[q],
                ) by {
                    if q == v@.len() - 1 {
                        let j = choose|j: int| 0 <= j < i && self@[j] == pre[p];
                        assert(self@[j].spec_precedes(self@[i as int]));
                    }
                }
            }
            assert(v@.to_set() =~= without_name(self@.subrange(0, i + 1 as int).to_set(), name))
                by {
                let prefix = self@.subrange(0, i as int);
                let longer = self@.subrange(0, i + 1 as int);
                assert(longer =~= prefix.push(t));
                assert forall|x: Term| #[trigger] longer.to_set().contains(x) implies x == t
                    || prefix.to_set().contains(x) by {
                    let k = choose|k: int| 0 <= k < longer.len() && longer[k] == x;
                    if k < i as int {
                        assert(prefix[k] == x);
                    }
                }
                assert forall|x: Term| #[trigger] prefix.to_set().contains(x) implies longer.to_set().contains(
                    x,
                ) by {
                    let k = choose|k: int| 0 <= k < prefix.len() && prefix[k] == x;
                    assert(longer[k] == x);
                }
                assert(longer.to_set().contains(t)) by {
                    assert(longer[i as int] == t);
                }
                if t.spec_name() != name {
                    assert(v@ =~= pre.push(t));
                    assert forall|x: Term| #[trigger] v@.to_set().contains(x) implies pre.to_set().insert(
                        t,
                    ).contains(x) by {
                        let k = choose|k: int| 0 <= k < v@.len() && v@[k] == x;
                        if k < v@.len() - 1 {
                            assert(pre[k] == x);
                        }
                    }
                    assert(v@.to_set().contains(t)) by {
                        assert(v@[v@.len() - 1] == t);
                    }
                    assert forall|x: Term| pre.to_set().contains(x) implies #[trigger] v@.to_set().contains(
                        x,
                    ) by {
                        let k = choose|k: int| 0 <= k < pre.len() && pre[k] == x;
                        assert(v@[k] == x);
                    }
                }
            }
            i = i + 1;
        }
        assert(self@.subrange(0, self@.len() as int) =~= self@);
        Disj { terms: v }
    }

    /// Unions two disjunctions together. Returns `None` if the union is a
    /// tautology: some term of one clause has its opposite in the other.
    pub fn union(&self, other: &Disj) -> (r: Option<Disj>)
        requires
            self.wf(),
            other.wf(),
        ensures
            r is None <==> has_cross_pair(self@.to_set(), other@.to_set()),
            r matches Some(d) ==> d.wf() && d@.to_set() == self@.to_set().union(other@.to_set()),
    {
        proof {
            lemma_chosen_annihilating(self@, other@);
        }
        if self.find_annihilating(other).is_some() {
            return None;
        }
        let mut v = copy_terms(&self.terms);
        let mut i: usize = 0;
        while i < other.terms.len()
            invariant
                i <= other.terms@.len(),
                other.wf(),
                sorted_terms(v@),
                v@.to_set() == self@.to_set().union(other@.subrange(0, i as int).to_set()),
            decreases other.terms@.len() - i,
        {
            insert_term(&mut v, other.terms[i]);
            assert(self@.to_set().union(other@.subrange(0, i + 1 as int).to_set())
                =~= self@.to_set().union(other@.subrange(0, i as int).to_set()).insert(
                other@[i as int],
            )) by {
                let pre = other@.subrange(0, i as int);
                let post = other@.subrange(0, i + 1 as int);
                assert(post =~= pre.push(other@[i as int]));
                assert forall|x: Term| #[trigger] post.to_set().contains(x) implies x
                    == other@[i as int] || pre.to_set().contains(x) by {
                    let k = choose|k: int| 0 <= k < post.len() && post[k] == x;
                    if k < i as int {
                        assert(pre[k] == x);
                    }
                }
                assert forall|x: Term| #[trigger] pre.to_set().contains(x) implies post.to_set().contains(
                    x,
                ) by {
                    let k = choose|k: int| 0 <= k < pre.len() && pre[k] == x;
                    assert(post[k] == x);
                }
                assert(post.to_set().contains(other@[i as int])) by {
                    assert(post[i as int] == other@[i as int]);
                }
            }
            i = i + 1;
        }
        assert(other@.subrange(0, other@.len() as int) =~= other@);
        Some(Disj { terms: v })
    }

    /// Tries to annihilate two disjunctions together. Returns `None` if they
    /// do not annihilate, `Some((None, c))` if eliminating the term named `c`
    /// leaves a tautology, and `Some((Some(d), c))` if eliminating `c` forms
    /// the new disjunction `d`.
    pub fn annihilate(&self, other: &Disj) -> (r: Option<(Option<Disj>, char)>)
        requires
            self.wf(),
            other.wf(),
        ensures
            r is None <==> chosen_annihilating(self@, other@) is None,
            r matches Some((opt, c)) ==> {
                &&& c == chosen_name(self@, other@)
                &&& opt is None <==> has_cross_pair(
                    without_name(self@.to_set(), c),
                    without_name(other@.to_set(), c),
                )
                &&& opt matches Some(d) ==> d.wf() && d@.to_set() == without_name(
                    self@.to_set(),
                    c,
                ).union(without_name(other@.to_set(), c))
            },
    {
        let t = match self.find_annihilating(other) {
            None => {
                return None;
            },
            Some(t) => t,
        };
        let c = t.name();
        let l = self.without(c);
        let r = other.without(c);
        Some((l.union(&r), c))
    }
}

/// The separator written between terms: ` V `, or ` ∨ ` with U+2228.
pub open spec fn sep_chars(unicode: bool) -> Seq<char> {
    if unicode {
        seq![' ', '\u{2228}', ' ']
    } else {
        seq![' ', 'V', ' ']
    }
}

/// The characters of one term, in the chosen alphabet.
pub open spec fn term_chars(t: Term, unicode: bool) -> Seq<char> {
    if unicode {
        t.spec_display_unicode()
    } else {
        t.spec_display_ascii()
    }
}

/// The characters written for the terms from position `i` on, each with a
/// leading separator.
pub open spec fn rest_chars(s: Seq<Term>, i: int, unicode: bool) -> Seq<char>
    decreases s.len() - i,
{
    if i < 0 || i >= s.len() {
        Seq::empty()
    } else {
        sep_chars(unicode) + term_chars(s[i], unicode) + rest_chars(s, i + 1, unicode)
    }
}

/// The textual form of a clause: `F` (or U+22A5) for the empty clause, a
/// single term bare, and several terms parenthesised and joined by the
/// separator.
pub open spec fn disj_chars(s: Seq<Term>, unicode: bool) -> Seq<char> {
    if s.len() == 0 {
        if unicode {
            seq!['\u{22a5}']
        } else {
            seq!['F']
        }
    } else if s.len() == 1 {
        term_chars(s[0], unicode)
    } else {
        seq!['('] + term_chars(s[0], unicode) + rest_chars(s, 1, unicode) + seq![')']
    }
}

/// Appends the characters of one term.
fn push_term_chars(out: &mut String, t: Term, unicode: bool)
    ensures
        final(out)@ == old(out)@ + term_chars(t, unicode),
{
    match t {
        Term::Pos(c) => {
            push_char(out, c);
        },
        Term::Neg(c) => {
            if unicode {
                push_char(out, '\u{00ac}');
            } else {
                push_char(out, '!');
            }
            push_char(out, c);
        },
    }
    assert(out@ =~= old(out)@ + term_chars(t, unicode));
}

impl Disj {
    /// The characters of the plain-text form of the clause.
    pub open spec fn spec_display_ascii(self) -> Seq<char> {
        disj_chars(self@, false)
    }

    /// The characters of the form that uses U+22A5, U+2228 and U+00AC.
    pub open spec fn spec_display_unicode(self) -> Seq<char> {
        disj_chars(self@, true)
    }

    /// Writes the clause in the chosen alphabet.
    #[verifier::loop_isolation(false)]
    fn display_with(&self, unicode: bool) -> (out: String)
        ensures
            out@ == disj_chars(self@, unicode),
    {
        let n = self.terms.len();
        let mut out = String::new();
        if n == 0 {
            if unicode {
                push_char(&mut out, '\u{22a5}');
            } else {
                push_char(&mut out, 'F');
            }
            assert(out@ =~= disj_chars(self@, unicode));
            return out;
        }
        if n == 1 {
            push_term_chars(&mut out, self.terms[0], unicode);
            assert(out@ =~= disj_chars(self@, unicode));
            return out;
        }
        push_char(&mut out, '(');
        push_term_chars(&mut out, self.terms[0], unicode);
        proof {
            assert(out@ =~= seq!['('] + term_chars(self@[0], unicode));
        }
        let mut i: usize = 1;
        while i < n
            invariant
                1 <= i <= n,
                disj_chars(self@, unicode) == out@ + rest_chars(self@, i as int, unicode)
                    + seq![')'],
            decreases n - i,
        {
            let ghost out0 = out@;
            push_char(&mut out, ' ');
            if unicode {
                push_char(&mut out, '\u{2228}');
            } else {
                push_char(&mut out, 'V');
            }
            push_char(&mut out, ' ');
            push_term_chars(&mut out, self.terms[i], unicode);
            proof {
                assert(out@ =~= out0 + sep_chars(unicode) + term_chars(self@[i as int], unicode));
                assert(disj_chars(self@, unicode) == out@ + rest_chars(
                    self@,
                    i as int + 1,
                    unicode,
                ) + seq![')']) by {
                    assert(rest_chars(self@, i as int, unicode) == sep_chars(unicode) + term_chars(
                        self@[i as int],
                        unicode,
                    ) + rest_chars(self@, i as int + 1, unicode));
                    assert(out@ + rest_chars(self@, i as int + 1, unicode) + seq![')'] =~= out0
                        + rest_chars(self@, i as int, unicode) + seq![')']);
                }
            }
            i = i + 1;
        }
        push_char(&mut out, ')');
        proof {
            assert(rest_chars(self@, n as int, unicode) =~= Seq::<char>::empty());
            assert(out@ =~= disj_chars(self@, unicode));
        }
        out
    }

    /// Returns the plain-text form of the clause: `F` for the empty clause,
    /// a single term bare, several terms parenthesised and joined by ` V `.
    pub fn display_ascii(&self) -> (out: String)
        ensures
            out@ == self.spec_display_ascii(),
    {
        self.display_with(false)
    }

    /// Returns the form of the clause that uses U+22A5, U+2228 and U+00AC
    /// instead of `F`, `V` and `!`.
    pub fn display_unicode(&self) -> (out: String)
        ensures
            out@ == self.spec_display_unicode(),
    {
        self.display_with(true)
    }
}

impl PartialEq for Disj {
    /// Structural equality: the same term set, independent of construction
    /// history.
    fn eq(&self, other: &Disj) -> (r: bool) {
        if self.terms.len() != other.terms.len() {
            return false;
        }
        let mut i: usize = 0;
        while i < self.terms.len()
            invariant
                i <= self.terms@.len(),
                self.terms@.len() == other.terms@.len(),
                forall|k: int| 0 <= k < i ==> self.terms@[k] == other.terms@[k],
            decreases self.terms@.len() - i,
        {
            if self.terms[i] != other.terms[i] {
                return false;
            }
            i = i + 1;
        }
        assert(self.terms@ =~= other.terms@);
        true
    }
}

impl vstd::std_specs::cmp::PartialEqSpecImpl for Disj {
    open spec fn obeys_eq_spec() -> bool {
        true
    }

    open spec fn eq_spec(&self, other: &Disj) -> bool {
        self@ == other@
    }
}

impl Clone for Disj {
    /// The copy denotes the same term set.
    fn clone(&self) -> (r: Self)
        ensures
            r@ == self@,
    {
        Disj { terms: copy_terms(&self.terms) }
    }
}

} // verus!
