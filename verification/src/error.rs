//! Typed errors returned by this crate. Every variant carries typed data (a [`Format`], a short
//! static identifier), never an English sentence as the representation of the error.

use vstd::prelude::*;

use crate::registry::{format_id, Format};
use vstd::string::StringExecFns;

verus! {

/// Everything that can go wrong converting one [`Format`] to another.
#[non_exhaustive]
#[derive(Debug, Clone, PartialEq, Eq)]
pub enum ConvertError {
    /// No registered converter handles this `from -> to` pair.
    UnsupportedPair { from: Format, to: Format },
    /// The input bytes could not be parsed as `format`.
    MalformedInput { format: Format },
    /// The input parsed but uses a feature of `format` that is not supported; `feature` is a
    /// short, stable identifier.
    UnsupportedFeature { format: Format, feature: &'static str },
    /// The input exceeds the configured size limit.
    SizeLimitExceeded { limit: u64, actual: u64 },
    /// A cancellation check returned `true` and the conversion stopped early.
    Cancelled,
    /// An internal invariant broke; `detail` is a short static code.
    Internal { detail: &'static str },
}

/// The decimal digit `d` (`0..=9`).
pub open spec fn digit_char(d: int) -> char {
    (d + 48) as char
}

/// `n` written in decimal, without leading zeros.
pub open spec fn decimal(n: nat) -> Seq<char>
    decreases n,
{
    if n < 10 {
        seq![digit_char(n as int)]
    } else {
        decimal(n / 10).push(digit_char((n % 10) as int))
    }
}

/// The sentence describing an error, for logs: it names the formats by their ids.
pub open spec fn message_spec(e: ConvertError) -> Seq<char> {
    match e {
        ConvertError::UnsupportedPair { from, to } => "unsupported conversion pair: "@ + format_id(from) + " -> "@ + format_id(to),
        ConvertError::MalformedInput { format } => "malformed input for format: "@ + format_id(format),
        ConvertError::UnsupportedFeature { format, feature } => "unsupported feature '"@ + feature@ + "' for format: "@
            + format_id(format),
        ConvertError::SizeLimitExceeded { limit, actual } => "input size "@ + decimal(actual as nat) + " bytes exceeds limit of "@
            + decimal(limit as nat) + " bytes"@,
        ConvertError::Cancelled => "conversion cancelled"@,
        ConvertError::Internal { detail } => "internal error: "@ + detail@,
    }
}

fn digit_str(d: u64) -> (r: &'static str)
    requires
        d < 10,
    ensures
        r@ == seq![digit_char(d as int)],
{
    proof {
        reveal_strlit("0");
        reveal_strlit("1");
        reveal_strlit("2");
        reveal_strlit("3");
        reveal_strlit("4");
        reveal_strlit("5");
        reveal_strlit("6");
        reveal_strlit("7");
        reveal_strlit("8");
        reveal_strlit("9");
    }
    match d {
        0 => "0",
        1 => "1",
        2 => "2",
        3 => "3",
        4 => "4",
        5 => "5",
        6 => "6",
        7 => "7",
        8 => "8",
        _ => "9",
    }
}

/// Appends `n` in decimal to `s`.
fn push_decimal(s: &mut String, n: u64)
    ensures
        final(s)@ == old(s)@ + decimal(n as nat),
    decreases n,
{
    if n >= 10 {
        push_decimal(s, n / 10);
    }
    s.append(digit_str(n % 10));
    proof {
        if n < 10 {
            assert(n % 10 == n);
        }
    }
}

impl ConvertError {
    /// The sentence describing this error (see [`message_spec`]), for logs and test output; UI
    /// code matches on the variant instead.
    pub fn message(&self) -> (r: String)
        ensures
            r@ == message_spec(*self),
    {
        match self {
            ConvertError::UnsupportedPair { from, to } => {
                let mut s = String::from_str("unsupported conversion pair: ");
                s.append(from.id());
                s.append(" -> ");
                s.append(to.id());
                s
            },
            ConvertError::MalformedInput { format } => {
                let mut s = String::from_str("malformed input for format: ");
                s.append(format.id());
                s
            },
            ConvertError::UnsupportedFeature { format, feature } => {
                let mut s = String::from_str("unsupported feature '");
                s.append(feature);
                s.append("' for format: ");
                s.append(format.id());
                s
            },
            ConvertError::SizeLimitExceeded { limit, actual } => {
                let mut s = String::from_str("input size ");
                push_decimal(&mut s, *actual);
                s.append(" bytes exceeds limit of ");
                push_decimal(&mut s, *limit);
                s.append(" bytes");
                s
            },
            ConvertError::Cancelled => String::from_str("conversion cancelled"),
            ConvertError::Internal { detail } => {
                let mut s = String::from_str("internal error: ");
                s.append(detail);
                s
            },
        }
    }
}

} // verus!
