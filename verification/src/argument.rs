//! Argument slots of the grammar and the validators behind them.

use vstd::prelude::*;
use vstd::string::*;

verus! {

/// Decides whether a raw token is an acceptable value for an argument.
///
/// A validator is a pure predicate: `validate` answers `accepts` and has no
/// other effect. Text outside the valid domain is simply not accepted.
pub trait Validator {
    /// The set of raw values that this validator accepts.
    spec fn accepts(&self, raw: Seq<char>) -> bool;

    /// Whether `raw` is an acceptable value.
    fn validate(&self, raw: &str) -> (ok: bool)
        ensures
            ok == self.accepts(raw@),
    ;
}

/// A named slot of the grammar, filled by a value that its validator accepts.
#[derive(Debug, Clone)]
pub struct Argument<V> {
    /// The name under which a matched value is bound.
    pub name: String,
    /// Whether the slot is declared as required. Matching does not read it.
    pub required: bool,
    /// The predicate that values must satisfy.
    pub validator: V,
}

impl<V: Validator> Argument<V> {
    /// An argument slot.
    pub fn new(validator: V, name: String, required: bool) -> (a: Argument<V>)
        ensures
            a.name == name,
            a.required == required,
            a.validator == validator,
    {
        Argument { name, required, validator }
    }

    /// Whether `raw` is an acceptable value for this slot.
    pub fn matches(&self, raw: &str) -> (ok: bool)
        ensures
            ok == self.validator.accepts(raw@),
    {
        self.validator.validate(raw)
    }
}

/// An ASCII decimal digit.
pub open spec fn is_digit(c: char) -> bool {
    '0' <= c <= '9'
}

/// The length of the sign in front of `s`: one or zero.
pub open spec fn sign_len(s: Seq<char>) -> int {
    if s.len() > 0 && (s[0] == '-' || s[0] == '+') {
        1
    } else {
        0
    }
}

/// A decimal integer literal: an optional sign followed by one or more digits.
pub open spec fn is_integer_text(s: Seq<char>) -> bool {
    sign_len(s) < s.len() && forall|i: int| sign_len(s) <= i < s.len() ==> is_digit(#[trigger] s[i])
}

/// Accepts decimal integer literals of any length.
#[derive(Debug, Clone, Copy)]
pub struct IntArgument;

impl Validator for IntArgument {
    open spec fn accepts(&self, raw: Seq<char>) -> bool {
        is_integer_text(raw)
    }

    fn validate(&self, raw: &str) -> (ok: bool) {
        let len: usize = raw.unicode_len();
        if len == 0 {
            return false;
        }
        let first = raw.get_char(0);
        let start: usize = if first == '-' || first == '+' {
            1
        } else {
            0
        };
        if start >= len {
            return false;
        }
        let mut i: usize = start;
        while i < len
            invariant
                len == raw@.len(),
                start <= i <= len,
                start == sign_len(raw@),
                forall|j: int| start <= j < i ==> is_digit(#[trigger] raw@[j]),
            decreases len - i,
        {
            let c = raw.get_char(i);
            if !('0' <= c && c <= '9') {
                assert(!is_digit(raw@[i as int]));
                return false;
            }
            i += 1;
        }
        true
    }
}

/// Accepts every word.
#[derive(Debug, Clone, Copy)]
pub struct WordArgument;

impl Validator for WordArgument {
    open spec fn accepts(&self, raw: Seq<char>) -> bool {
        true
    }

    fn validate(&self, raw: &str) -> (ok: bool) {
        true
    }
}

} // verus!
