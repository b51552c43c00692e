use vstd::prelude::*;
use vstd::string::StrSliceExecFns;

use crate::disj::Disj;
use crate::semantics::name_distinct;
use crate::term::Term;

verus! {

/// Why a clause's textual form was rejected.
#[derive(Clone, Copy, Debug, PartialEq, Eq)]
pub enum ParseError {
    /// A duplicate name was found.
    DuplicateName(char),
    /// An invalid name was found.
    InvalidName,
    /// A vertical bar was not found.
    MissingBar,
    /// Too many vertical bars were found.
    TooManyBars,
}

/// A lowercase letter: the only characters admitted as variable names.
pub open spec fn is_name_char(c: char) -> bool {
    0x61 <= (c as u32) <= 0x7a
}

/// A white-space character, as the parser skips them: the Unicode
/// white-space set.
pub open spec fn is_space_char(c: char) -> bool {
    ||| (0x09 <= (c as u32) <= 0x0d)
    ||| (c as u32) == 0x20
    ||| (c as u32) == 0x85
    ||| (c as u32) == 0xa0
    ||| (c as u32) == 0x1680
    ||| (0x2000 <= (c as u32) <= 0x200a)
    ||| (c as u32) == 0x2028
    ||| (c as u32) == 0x2029
    ||| (c as u32) == 0x202f
    ||| (c as u32) == 0x205f
    ||| (c as u32) == 0x3000
}

/// A character the clause syntax has no place for: not a name, not the
/// bar, not white space.
pub open spec fn spec_invalid_char(c: char) -> bool {
    !(is_name_char(c) || c == '|' || is_space_char(c))
}

/// Returns whether the character can appear nowhere in a clause's text.
#[verifier::when_used_as_spec(spec_invalid_char)]
pub fn invalid_char(ch: char) -> (b: bool)
    ensures
        b == spec_invalid_char(ch),
{
    let u = ch as u32;
    let name = 0x61 <= u && u <= 0x7a;
    let bar = u == 0x7c;
    let space = (0x09 <= u && u <= 0x0d) || u == 0x20 || u == 0x85 || u == 0xa0 || u == 0x1680
        || (0x2000 <= u && u <= 0x200a) || u == 0x2028 || u == 0x2029 || u == 0x202f || u == 0x205f
        || u == 0x3000;
    assert(bar == (ch == '|')) by {
        assert(('|' as u32) == 0x7c);
    }
    !(name || bar || space)
}

/// The position of the first vertical bar, or -1 when there is none.
pub open spec fn bar_index(s: Seq<char>) -> int
    decreases s.len(),
{
    if s.len() == 0 {
        -1
    } else if s[0] == '|' {
        0
    } else {
        let rest = bar_index(s.drop_first());
        if rest < 0 {
            -1
        } else {
            rest + 1
        }
    }
}

/// The first position at or before which every character differs from a
/// bar, while a bar stands at the position itself, is the first bar.
proof fn lemma_bar_index_found(s: Seq<char>, i: int)
    requires
        0 <= i < s.len(),
        s[i] == '|',
        forall|k: int| 0 <= k < i ==> s[k] != '|',
    ensures
        bar_index(s) == i,
    decreases i,
{
    if i > 0 {
        assert(forall|k: int| 1 <= k < s.len() ==> s.drop_first()[k - 1] == s[k]);
        assert(forall|k: int| 0 <= k < i - 1 ==> s.drop_first()[k] == s[k + 1]);
        lemma_bar_index_found(s.drop_first(), i - 1);
    }
}

/// A text without bars has no first bar.
proof fn lemma_bar_index_none(s: Seq<char>)
    requires
        forall|k: int| 0 <= k < s.len() ==> s[k] != '|',
    ensures
        bar_index(s) == -1,
    decreases s.len(),
{
    if s.len() > 0 {
        assert(forall|k: int| 0 <= k < s.len() - 1 ==> s.drop_first()[k] == s[k + 1]);
        lemma_bar_index_none(s.drop_first());
    }
}

/// No name occurs twice among the non-space characters around the bar at
/// position `b`.
pub open spec fn distinct_names(s: Seq<char>, b: int) -> bool {
    forall|k1: int, k2: int|
        0 <= k1 < k2 < s.len() && k1 != b && k2 != b && !is_space_char(s[k1]) && !is_space_char(
            s[k2],
        ) ==> s[k1] != s[k2]
}

/// The term set a well-formed clause text denotes, with the bar at
/// position `b`: names before the bar positive, names after it negative.
pub open spec fn clause_of_text(s: Seq<char>, b: int) -> Set<Term> {
    Set::new(
        |t: Term|
            match t {
                Term::Pos(c) => exists|k: int|
                    0 <= k < b && s[k] == c && !is_space_char(#[trigger] s[k]),
                Term::Neg(c) => exists|k: int|
                    b < k < s.len() && s[k] == c && !is_space_char(#[trigger] s[k]),
            },
    )
}

/// Returns whether the vector holds the character.
fn seen_contains(v: &Vec<char>, c: char) -> (b: bool)
    ensures
        b == v@.contains(c),
{
    let mut i: usize = 0;
    while i < v.len()
        invariant
            i <= v@.len(),
            forall|k: int| 0 <= k < i ==> v@[k] != c,
        decreases v@.len() - i,
    {
        if v[i] == c {
            return true;
        }
        i = i + 1;
    }
    false
}

/// Parses the textual form of a disjunction: the names of its positive
/// terms, a vertical bar, then the names of its negative terms, with white
/// space ignored. Rejects, in this order of checks: any character outside
/// the syntax; a missing bar; a second bar; a name used twice.
#[verifier::loop_isolation(false)]
pub fn parse_disj(s: &str) -> (r: Result<Disj, ParseError>)
    ensures
        match r {
            Ok(d) => {
                &&& forall|k: int| 0 <= k < s@.len() ==> !spec_invalid_char(#[trigger] s@[k])
                &&& bar_index(s@) >= 0
                &&& forall|k: int| bar_index(s@) < k < s@.len() ==> s@[k] != '|'
                &&& distinct_names(s@, bar_index(s@))
                &&& d.wf()
                &&& d@.to_set() == clause_of_text(s@, bar_index(s@))
                &&& name_distinct(d@.to_set())
            },
            Err(ParseError::InvalidName) => exists|k: int|
                0 <= k < s@.len() && spec_invalid_char(#[trigger] s@[k]),
            Err(ParseError::MissingBar) => {
                &&& forall|k: int| 0 <= k < s@.len() ==> !spec_invalid_char(#[trigger] s@[k])
                &&& bar_index(s@) == -1
            },
            Err(ParseError::TooManyBars) => {
                &&& forall|k: int| 0 <= k < s@.len() ==> !spec_invalid_char(#[trigger] s@[k])
                &&& bar_index(s@) >= 0
                &&& exists|k: int| bar_index(s@) < k < s@.len() && s@[k] == '|'
            },
            Err(ParseError::DuplicateName(c)) => {
                &&& forall|k: int| 0 <= k < s@.len() ==> !spec_invalid_char(#[trigger] s@[k])
                &&& bar_index(s@) >= 0
                &&& forall|k: int| bar_index(s@) < k < s@.len() ==> s@[k] != '|'
                &&& exists|k1: int, k2: int|
                    0 <= k1 < k2 < s@.len() && k1 != bar_index(s@) && k2 != bar_index(s@)
                        && !is_space_char(s@[k1]) && !is_space_char(s@[k2]) && s@[k1] == c
                        && s@[k2] == c
            },
        },
{
    let n = s.unicode_len();
    let mut i: usize = 0;
    while i < n
        invariant
            i <= n,
            forall|k: int| 0 <= k < i ==> !spec_invalid_char(#[trigger] s@[k]),
        decreases n - i,
    {
        if invalid_char(s.get_char(i)) {
            return Err(ParseError::InvalidName);
        }
        i = i + 1;
    }
    let b = match find_bar(s) {
        None => {
            return Err(ParseError::MissingBar);
        },
        Some(b) => b,
    };
    let mut i: usize = b + 1;
    while i < n
        invariant
            b < i <= n,
            forall|k: int| b < k < i ==> s@[k] != '|',
        decreases n - i,
    {
        if s.get_char(i) == '|' {
            return Err(ParseError::TooManyBars);
        }
        i = i + 1;
    }
    let mut seen: Vec<char> = Vec::new();
    let mut terms: Vec<Term> = Vec::new();
    let mut i: usize = 0;
    while i < b
        invariant
            i <= b,
            forall|c: char|
                #![trigger seen@.contains(c)]
                seen@.contains(c) <==> exists|k: int|
                    0 <= k < i && k != b && !is_space_char(#[trigger] s@[k]) && s@[k] == c,
            forall|k1: int, k2: int|
                0 <= k1 < k2 < i && k1 != b && k2 != b && !is_space_char(s@[k1]) && !is_space_char(
                    s@[k2],
                ) ==> s@[k1] != s@[k2],
            forall|t: Term|
                #![trigger terms@.contains(t)]
                terms@.contains(t) <==> match t {
                    Term::Pos(c) => exists|k: int|
                        0 <= k < i && s@[k] == c && !is_space_char(#[trigger] s@[k]),
                    Term::Neg(c) => false,
                },
        decreases b - i,
    {
        let ghost seen0 = seen@;
        let ghost terms0 = terms@;
        let c = s.get_char(i);
        if !is_space(c) {
            if seen_contains(&seen, c) {
                return Err(ParseError::DuplicateName(c));
            }
            seen.push(c);
            terms.push(Term::Pos(c));
            proof {
                broadcast use vstd::seq_lib::lemma_seq_contains_after_push;

                assert(seen@ == seen0.push(c));
                assert(terms@ == terms0.push(Term::Pos(c)));
            }
        }
        proof {
            broadcast use vstd::seq_lib::lemma_seq_contains_after_push;

            let ii = i as int;
            assert forall|c2: char| #![trigger seen@.contains(c2)] seen@.contains(c2) implies exists|
                k: int,
            | 0 <= k < ii + 1 && k != b && !is_space_char(#[trigger] s@[k]) && s@[k] == c2 by {
                if seen0.contains(c2) {
                    let k = choose|k: int|
                        0 <= k < ii && k != b && !is_space_char(#[trigger] s@[k]) && s@[k] == c2;
                    assert(0 <= k < ii + 1 && k != b && !is_space_char(s@[k]) && s@[k] == c2);
                } else {
                    assert(!is_space_char(s@[ii]) && s@[ii] == c2);
                }
            }
            assert forall|c2: char| (exists|k: int|
                0 <= k < ii + 1 && k != b && !is_space_char(#[trigger] s@[k]) && s@[k] == c2)
                implies #[trigger] seen@.contains(c2) by {
                let k = choose|k: int|
                    0 <= k < ii + 1 && k != b && !is_space_char(#[trigger] s@[k]) && s@[k] == c2;
                if k < ii {
                    assert(seen0.contains(c2));
                } else {
                    assert(!is_space_char(s@[ii]));
                }
            }
            assert forall|t: Term| #![trigger terms@.contains(t)] terms@.contains(t) implies match t {
                Term::Pos(c2) => exists|k: int|
                    0 <= k < ii + 1 && s@[k] == c2 && !is_space_char(#[trigger] s@[k]),
                Term::Neg(c2) => false,
            } by {
                if terms0.contains(t) {
                } else {
                    assert(!is_space_char(s@[ii]) && s@[ii] == c);
                    assert(t == Term::Pos(c));
                }
            }
            assert forall|t: Term| match t {
                Term::Pos(c2) => exists|k: int|
                    0 <= k < ii + 1 && s@[k] == c2 && !is_space_char(#[trigger] s@[k]),
                Term::Neg(c2) => false,
            } implies #[trigger] terms@.contains(t) by {
                match t {
                    Term::Pos(c2) => {
                        let k = choose|k: int|
                            0 <= k < ii + 1 && s@[k] == c2 && !is_space_char(#[trigger] s@[k]);
                        if k < ii {
                            assert(terms0.contains(t));
                        } else {
                            assert(!is_space_char(s@[ii]));
                            assert(t == Term::Pos(c));
                        }
                    },
                    Term::Neg(_) => {},
                }
            }
            assert forall|k1: int|
                0 <= k1 < ii && k1 != b && !is_space_char(s@[k1]) && !is_space_char(
                    s@[ii],
                ) implies s@[k1] != s@[ii] by {
                if s@[k1] == s@[ii] {
                    assert(seen0.contains(s@[ii]));
                }
            }
        }
        i = i + 1;
    }
    let mut i: usize = b + 1;
    while i < n
        invariant
            b < i <= n,
            forall|c: char|
                #![trigger seen@.contains(c)]
                seen@.contains(c) <==> exists|k: int|
                    0 <= k < i && k != b && !is_space_char(#[trigger] s@[k]) && s@[k] == c,
            forall|k1: int, k2: int|
                0 <= k1 < k2 < i && k1 != b && k2 != b && !is_space_char(s@[k1]) && !is_space_char(
                    s@[k2],
                ) ==> s@[k1] != s@[k2],
            forall|t: Term|
                #![trigger terms@.contains(t)]
                terms@.contains(t) <==> match t {
                    Term::Pos(c) => exists|k: int|
                        0 <= k < b && s@[k] == c && !is_space_char(#[trigger] s@[k]),
                    Term::Neg(c) => exists|k: int|
                        b < k < i && s@[k] == c && !is_space_char(#[trigger] s@[k]),
                },
        decreases n - i,
    {
        let ghost seen0 = seen@;
        let ghost terms0 = terms@;
        let c = s.get_char(i);
        if !is_space(c) {
            if seen_contains(&seen, c) {
                return Err(ParseError::DuplicateName(c));
            }
            seen.push(c);
            terms.push(Term::Neg(c));
            proof {
                broadcast use vstd::seq_lib::lemma_seq_contains_after_push;

                assert(seen@ == seen0.push(c));
                assert(terms@ == terms0.push(Term::Neg(c)));
            }
        }
        proof {
            broadcast use vstd::seq_lib::lemma_seq_contains_after_push;

            let ii = i as int;
            assert forall|c2: char| #![trigger seen@.contains(c2)] seen@.contains(c2) implies exists|
                k: int,
            | 0 <= k < ii + 1 && k != b && !is_space_char(#[trigger] s@[k]) && s@[k] == c2 by {
                if seen0.contains(c2) {
                    let k = choose|k: int|
                        0 <= k < ii && k != b && !is_space_char(#[trigger] s@[k]) && s@[k] == c2;
                    assert(0 <= k < ii + 1 && k != b && !is_space_char(s@[k]) && s@[k] == c2);
                } else {
                    assert(!is_space_char(s@[ii]) && s@[ii] == c2);
                }
            }
            assert forall|c2: char| (exists|k: int|
                0 <= k < ii + 1 && k != b && !is_space_char(#[trigger] s@[k]) && s@[k] == c2)
                implies #[trigger] seen@.contains(c2) by {
                let k = choose|k: int|
                    0 <= k < ii + 1 && k != b && !is_space_char(#[trigger] s@[k]) && s@[k] == c2;
                if k < ii {
                    assert(seen0.contains(c2));
                } else {
                    assert(!is_space_char(s@[ii]));
                }
            }
            assert forall|t: Term| #![trigger terms@.contains(t)] terms@.contains(t) implies match t {
                Term::Pos(c2) => exists|k: int|
                    0 <= k < b && s@[k] == c2 && !is_space_char(#[trigger] s@[k]),
                Term::Neg(c2) => exists|k: int|
                    b < k < ii + 1 && s@[k] == c2 && !is_space_char(#[trigger] s@[k]),
            } by {
                if terms0.contains(t) {
                } else {
                    assert(!is_space_char(s@[ii]) && s@[ii] == c);
                    assert(t == Term::Neg(c));
                }
            }
            assert forall|t: Term| match t {
                Term::Pos(c2) => exists|k: int|
                    0 <= k < b && s@[k] == c2 && !is_space_char(#[trigger] s@[k]),
                Term::Neg(c2) => exists|k: int|
                    b < k < ii + 1 && s@[k] == c2 && !is_space_char(#[trigger] s@[k]),
            } implies #[trigger] terms@.contains(t) by {
                match t {
                    Term::Pos(c2) => {
                        assert(terms0.contains(t));
                    },
                    Term::Neg(c2) => {
                        let k = choose|k: int|
                            b < k < ii + 1 && s@[k] == c2 && !is_space_char(#[trigger] s@[k]);
                        if k < ii {
                            assert(terms0.contains(t));
                        } else {
                            assert(!is_space_char(s@[ii]));
                            assert(t == Term::Neg(c));
                        }
                    },
                }
            }
            assert forall|k1: int|
                0 <= k1 < ii && k1 != b && !is_space_char(s@[k1]) && !is_space_char(
                    s@[ii],
                ) implies s@[k1] != s@[ii] by {
                if s@[k1] == s@[ii] {
                    assert(seen0.contains(s@[ii]));
                }
            }
        }
        i = i + 1;
    }
    let d = Disj::from_terms(terms);
    proof {
        assert(d@.to_set() =~= clause_of_text(s@, b as int));
        // A name occurs at most once among the non-space characters, so at
        // most one term carries it.
        assert(name_distinct(d@.to_set())) by {
            let bb = b as int;
            assert forall|t1: Term, t2: Term|
                d@.to_set().contains(t1) && d@.to_set().contains(t2) && t1.spec_name()
                    == t2.spec_name() implies t1 == t2 by {
                if t1 != t2 {
                    let (p, q): (Term, Term) = if t1.spec_sign() {
                        (t1, t2)
                    } else {
                        (t2, t1)
                    };
                    let c = p.spec_name();
                    assert(p == Term::Pos(c) && q == Term::Neg(c));
                    assert(clause_of_text(s@, bb).contains(p));
                    assert(clause_of_text(s@, bb).contains(q));
                    let k1 = choose|k: int|
                        0 <= k < bb && s@[k] == c && !is_space_char(#[trigger] s@[k]);
                    let k2 = choose|k: int|
                        bb < k < s@.len() && s@[k] == c && !is_space_char(#[trigger] s@[k]);
                    assert(k1 < k2 && k1 != bb && k2 != bb);
                    assert(s@[k1] != s@[k2]);
                    assert(false);
                }
            }
        }
    }
    Ok(d)
}

/// Finds the first vertical bar of the text, if any.
fn find_bar(s: &str) -> (r: Option<usize>)
    ensures
        match r {
            Some(b) => b as int == bar_index(s@) && 0 <= bar_index(s@) < s@.len(),
            None => bar_index(s@) == -1,
        },
{
    let n = s.unicode_len();
    let mut b: usize = 0;
    while b < n
        invariant
            b <= n,
            n == s@.len(),
            forall|k: int| 0 <= k < b ==> s@[k] != '|',
        decreases n - b,
    {
        if s.get_char(b) == '|' {
            proof {
                lemma_bar_index_found(s@, b as int);
            }
            return Some(b);
        }
        b = b + 1;
    }
    proof {
        lemma_bar_index_none(s@);
    }
    None
}

impl core::str::FromStr for Disj {
    type Err = ParseError;

    fn from_str(s: &str) -> Result<Disj, ParseError> {
        parse_disj(s)
    }
}

/// Returns whether the character is white space the parser skips.
fn is_space(c: char) -> (b: bool)
    ensures
        b == is_space_char(c),
{
    let u = c as u32;
    (0x09 <= u && u <= 0x0d) || u == 0x20 || u == 0x85 || u == 0xa0 || u == 0x1680 || (0x2000 <= u
        && u <= 0x200a) || u == 0x2028 || u == 0x2029 || u == 0x202f || u == 0x205f || u == 0x3000
}

} // verus!
