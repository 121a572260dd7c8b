//! Error types for graph rewriting.

use vstd::prelude::*;
use vstd::string::*;

verus! {

/// Errors that can occur during rewriting.
#[derive(Debug, Clone)]
pub enum RewriteError {
    /// Maximum steps exceeded without all rules being exhausted.
    MaxStepsExceeded { steps: usize },
    /// A constraint was violated and could not be resolved.
    ConstraintViolation { rule_index: usize },
    /// The graph is in an invalid state.
    InvalidGraph { message: &'static str },
}

/// The character of decimal digit `d`.
pub open spec fn digit_char(d: nat) -> char {
    (48 + d) as char
}

/// The decimal digits of `n`, most significant first.
pub open spec fn decimal(n: nat) -> Seq<char>
    decreases n,
{
    if n < 10 {
        seq![digit_char(n)]
    } else {
        decimal(n / 10).push(digit_char(n % 10))
    }
}

/// The one-character text of digit `d`.
fn digit_str(d: usize) -> (r: &'static str)
    requires
        d < 10,
    ensures
        r@ == seq![digit_char(d as nat)],
{
    proof {
        reveal_strlit("0");
        reveal_strlit("1");
        reveal_strlit("2");
        reveal_strlit("3");
        reveal_strlit("4");
        reveal_strlit("5");
        reveal_strlit("6");
        reveal_strlit("7");
        reveal_strlit("8");
        reveal_strlit("9");
    }
    let r = match d {
        0 => "0",
        1 => "1",
        2 => "2",
        3 => "3",
        4 => "4",
        5 => "5",
        6 => "6",
        7 => "7",
        8 => "8",
        _ => "9",
    };
    assert(r@ =~= seq![digit_char(d as nat)]);
    r
}

/// Append the decimal digits of `n`.
fn append_decimal(s: &mut String, n: usize)
    ensures
        final(s)@ == old(s)@ + decimal(n as nat),
    decreases n,
{
    if n >= 10 {
        append_decimal(s, n / 10);
    }
    s.append(digit_str(n % 10));
    proof {
        if n >= 10 {
            assert(old(s)@ + decimal(n as nat) =~= old(s)@ + decimal((n / 10) as nat) + seq![digit_char((n % 10) as nat)]);
        } else {
            assert(n % 10 == n);
        }
    }
}

impl RewriteError {
    /// The error as text.
    pub open spec fn spec_message(&self) -> Seq<char> {
        match self {
            RewriteError::MaxStepsExceeded { steps } => "max steps exceeded after "@ + decimal(*steps as nat)
                + " steps"@,
            RewriteError::ConstraintViolation { rule_index } => "constraint violated by rule "@ + decimal(
                *rule_index as nat,
            ),
            RewriteError::InvalidGraph { message } => "invalid graph: "@ + message@,
        }
    }

    /// The error as text, as it is displayed.
    pub fn message(&self) -> (r: String)
        ensures
            r@ == self.spec_message(),
    {
        match self {
            RewriteError::MaxStepsExceeded { steps } => {
                let mut s = String::from_str("max steps exceeded after ");
                append_decimal(&mut s, *steps);
                s.append(" steps");
                s
            },
            RewriteError::ConstraintViolation { rule_index } => {
                let mut s = String::from_str("constraint violated by rule ");
                append_decimal(&mut s, *rule_index);
                s
            },
            RewriteError::InvalidGraph { message } => {
                let mut s = String::from_str("invalid graph: ");
                s.append(message);
                s
            },
        }
    }
}

} // verus!
