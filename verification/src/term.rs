use vstd::prelude::*;

verus! {

/// A variable, or its negation.
#[derive(Clone, Copy, Debug, PartialEq, Eq, Structural)]
pub enum Term {
    /// A positive variable.
    Pos(char),
    /// A negative variable.
    Neg(char),
}

impl Term {
    /// The name of the term.
    pub open spec fn spec_name(self) -> char {
        match self {
            Term::Pos(c) => c,
            Term::Neg(c) => c,
        }
    }

    /// Returns the name of the term.
    #[verifier::when_used_as_spec(spec_name)]
    pub fn name(self) -> (c: char)
        ensures
            c == self.spec_name(),
    {
        match self {
            Term::Pos(c) => c,
            Term::Neg(c) => c,
        }
    }

    /// Whether the term is positive.
    pub open spec fn spec_sign(self) -> bool {
        match self {
            Term::Pos(_) => true,
            Term::Neg(_) => false,
        }
    }

    /// Returns true if the term is positive.
    #[verifier::when_used_as_spec(spec_sign)]
    pub fn sign(self) -> (b: bool)
        ensures
            b == self.spec_sign(),
    {
        match self {
            Term::Pos(_) => true,
            Term::Neg(_) => false,
        }
    }

    /// The same name with the polarity flipped.
    pub open spec fn spec_opposite(self) -> Term {
        match self {
            Term::Pos(c) => Term::Neg(c),
            Term::Neg(c) => Term::Pos(c),
        }
    }

    /// Returns the opposite of the term.
    #[verifier::when_used_as_spec(spec_opposite)]
    pub fn opposite(self) -> (t: Term)
        ensures
            t == self.spec_opposite(),
    {
        match self {
            Term::Pos(c) => Term::Neg(c),
            Term::Neg(c) => Term::Pos(c),
        }
    }

    /// Two terms are inverses when they share a name but not a polarity.
    pub open spec fn spec_opposes(self, other: Term) -> bool {
        self.spec_name() == other.spec_name() && self.spec_sign() != other.spec_sign()
    }

    /// Returns whether the two terms are inverses.
    #[verifier::when_used_as_spec(spec_opposes)]
    pub fn opposes(self, other: Term) -> (b: bool)
        ensures
            b == self.spec_opposes(other),
    {
        self.name() == other.name() && self.sign() != other.sign()
    }

    /// The total order that keeps a clause's representation canonical:
    /// by name, with the negative term before the positive one.
    /// It only fixes the stored order of terms; it carries no logical meaning.
    pub open spec fn spec_precedes(self, other: Term) -> bool {
        ||| (self.spec_name() as u32) < (other.spec_name() as u32)
        ||| (self.spec_name() == other.spec_name() && !self.spec_sign() && other.spec_sign())
    }

    /// Returns whether this term comes strictly before the other in the
    /// canonical order.
    #[verifier::when_used_as_spec(spec_precedes)]
    pub fn precedes(self, other: Term) -> (b: bool)
        ensures
            b == self.spec_precedes(other),
    {
        (self.name() as u32) < (other.name() as u32) || (self.name() == other.name()
            && !self.sign() && other.sign())
    }

    /// The characters of the term's plain-text form: `c` or `!c`.
    pub open spec fn spec_display_ascii(self) -> Seq<char> {
        match self {
            Term::Pos(c) => seq![c],
            Term::Neg(c) => seq!['!', c],
        }
    }

    /// Returns the plain-text form of the term, `c` or `!c`.
    pub fn display_ascii(&self) -> (s: String)
        ensures
            s@ == self.spec_display_ascii(),
    {
        let mut s = String::new();
        match self {
            Term::Pos(c) => push_char(&mut s, *c),
            Term::Neg(c) => {
                push_char(&mut s, '!');
                push_char(&mut s, *c);
            },
        }
        s
    }

    /// The characters of the term's form that uses U+00AC instead of `!`.
    pub open spec fn spec_display_unicode(self) -> Seq<char> {
        match self {
            Term::Pos(c) => seq![c],
            Term::Neg(c) => seq!['\u{00ac}', c],
        }
    }

    /// Returns the form of the term that uses U+00AC instead of `!`.
    pub fn display_unicode(&self) -> (s: String)
        ensures
            s@ == self.spec_display_unicode(),
    {
        let mut s = String::new();
        match self {
            Term::Pos(c) => push_char(&mut s, *c),
            Term::Neg(c) => {
                push_char(&mut s, '\u{00ac}');
                push_char(&mut s, *c);
            },
        }
        s
    }
}

/// The canonical order is total: two terms that neither precede one another
/// are the same term.
pub proof fn lemma_precedes_total(a: Term, b: Term)
    ensures
        a.spec_precedes(b) || b.spec_precedes(a) || a == b,
{
}

/// The canonical order is transitive.
pub proof fn lemma_precedes_transitive(a: Term, b: Term, c: Term)
    requires
        a.spec_precedes(b),
        b.spec_precedes(c),
    ensures
        a.spec_precedes(c),
{
}

/// Relies on String::push, which appends the given character to the string.
#[verifier::external_body]
pub(crate) fn push_char(s: &mut String, c: char)
    ensures
        final(s)@ == old(s)@.push(c),
{
    s.push(c);
}

} // verus!
