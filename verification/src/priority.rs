//! Task priority: a single uppercase ASCII letter, `A` (most urgent)
//! through `Z`.

use vstd::prelude::*;

use crate::error::TodoError;

verus! {

/// Holds whether a character is an uppercase ASCII letter, the only
/// characters a `Priority` may wrap.
pub open spec fn is_priority_letter(c: char) -> bool {
    'A' <= c <= 'Z'
}

/// The canonical text of a priority letter: the letter wrapped in
/// parentheses, `(X)`.
pub open spec fn pri_text(c: char) -> Seq<char> {
    seq!['(', c, ')']
}

/// The letter of a priority token, if the token is shaped `(X)` with
/// `X` an uppercase ASCII letter; `None` for every other string.
pub open spec fn pri_token(t: Seq<char>) -> Option<char> {
    if t.len() == 3 && t[0] == '(' && t[2] == ')' && is_priority_letter(t[1]) {
        Some(t[1])
    } else {
        None
    }
}

/// A single-letter importance marker, `A`-`Z`, totally ordered by its
/// letter (`A` sorts before `B`).
#[derive(Debug, Clone, Copy, PartialEq, Eq, PartialOrd, Ord, Hash, Structural)]
pub struct Priority {
    letter: char,
}

impl Priority {
    /// Every `Priority` value wraps an uppercase ASCII letter.
    #[verifier::type_invariant]
    closed spec fn type_inv(self) -> bool {
        self.wf()
    }

    /// The wrapped letter, for use in specifications.
    pub closed spec fn spec_char(self) -> char {
        self.letter
    }

    /// Holds of every value the constructors hand out: the letter is
    /// an uppercase ASCII letter.
    pub open spec fn wf(self) -> bool {
        is_priority_letter(self.spec_char())
    }

    /// Creates a priority from a letter; succeeds exactly on uppercase
    /// ASCII letters.
    pub fn new(c: char) -> (r: Option<Priority>)
        ensures
            r is Some <==> is_priority_letter(c),
            r matches Some(p) ==> p.spec_char() == c,
    {
        if 'A' <= c && c <= 'Z' {
            Some(Priority { letter: c })
        } else {
            None
        }
    }

    /// Returns the underlying letter.
    pub fn as_char(&self) -> (c: char)
        ensures
            c == self.spec_char(),
    {
        self.letter
    }

    /// Renders the priority as its token text, `(X)`.
    pub fn to_text(&self) -> (r: String)
        ensures
            r@ == pri_text(self.spec_char()),
    {
        let mut s = String::new();
        s.push('(');
        s.push(self.letter);
        s.push(')');
        proof {
            assert(s@ =~= pri_text(self.spec_char()));
        }
        s
    }

    /// Parses a priority token: accepts only strings of exactly three
    /// characters shaped `(X)` with `X` an uppercase ASCII letter, and
    /// reports `InvalidPriority` carrying the offending string for any
    /// other input.
    pub fn parse_token(s: &str) -> (r: Result<Priority, TodoError>)
        ensures
            r is Ok <==> pri_token(s@) is Some,
            r matches Ok(p) ==> pri_token(s@) == Some(p.spec_char()),
            r matches Err(e) ==> e matches TodoError::InvalidPriority(t) && t@ == s@,
    {
        if s.unicode_len() == 3 && s.get_char(0) == '(' && s.get_char(2) == ')' {
            let c = s.get_char(1);
            match Priority::new(c) {
                Some(p) => Ok(p),
                None => Err(TodoError::InvalidPriority(s.to_owned())),
            }
        } else {
            Err(TodoError::InvalidPriority(s.to_owned()))
        }
    }
}

impl core::str::FromStr for Priority {
    type Err = TodoError;

    /// Parses a priority token, as `parse_token` does.
    fn from_str(s: &str) -> Result<Priority, TodoError> {
        Priority::parse_token(s)
    }
}

/// Two priorities are equal exactly when their letters are: the letter
/// determines the value.
pub proof fn lemma_priority_eq(a: Priority, b: Priority)
    ensures
        a == b <==> a.spec_char() == b.spec_char(),
{
}

/// Round trip for priorities: the token text of any valid priority
/// letter parses back to that same letter.
pub proof fn lemma_priority_round_trip(c: char)
    requires
        is_priority_letter(c),
    ensures
        pri_token(pri_text(c)) == Some(c),
{
}

} // verus!
