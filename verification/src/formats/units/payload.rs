//! The wire protocol every unit converter speaks: plain UTF-8 text, not JSON.
//!
//! **Request** (input bytes): `"<from_unit_id>|<to_unit_id>|<value>"`, e.g.
//! `"celsius|fahrenheit|0"`. **Response** (output bytes): the result as text, e.g. `"32"`.

use vstd::prelude::*;
use vstd::string::StringSliceAdditionalSpecFns;
use vstd::utf8::valid_utf8;

use crate::{ConvertError, Format};

verus! {

/// A parsed request: the two unit ids plus the raw (unparsed) value or label text.
pub struct Request<'a> {
    /// The unit id `value` is currently expressed in.
    pub from_unit: &'a str,
    /// The unit id to convert to.
    pub to_unit: &'a str,
    /// The value or label field, exactly as sent.
    pub raw_value: &'a str,
}

/// The index of the first `|` in `b` at or after `from`, or `b.len()` if there is none.
pub open spec fn next_bar(b: Seq<u8>, from: int) -> int
    decreases b.len() - from,
{
    if from < 0 || from >= b.len() {
        b.len() as int
    } else if b[from] == 0x7C {
        from
    } else {
        next_bar(b, from + 1)
    }
}

/// The three `|`-separated fields of `input`, when it is valid UTF-8, has exactly three fields,
/// and none of them is empty.
pub open spec fn request_fields(input: Seq<u8>) -> Option<(Seq<u8>, Seq<u8>, Seq<u8>)> {
    let n = input.len() as int;
    let i1 = next_bar(input, 0);
    let i2 = next_bar(input, i1 + 1);
    if !valid_utf8(input) || i1 >= n || i2 >= n || next_bar(input, i2 + 1) < n {
        None
    } else if i1 == 0 || i2 == i1 + 1 || i2 + 1 == n {
        None
    } else {
        Some((input.subrange(0, i1), input.subrange(i1 + 1, i2), input.subrange(i2 + 1, n)))
    }
}

/// `std::str::from_utf8`: `Some` exactly when `bytes` is valid UTF-8, and then the string whose
/// bytes are `bytes`.
#[verifier::external_body]
fn str_from_utf8<'a>(bytes: &'a [u8]) -> (r: Option<&'a str>)
    ensures
        r is Some <==> valid_utf8(bytes@),
        r matches Some(s) ==> s.spec_bytes() == bytes@,
{
    std::str::from_utf8(bytes).ok()
}

proof fn lemma_next_bar(b: Seq<u8>, from: int)
    requires
        0 <= from,
    ensures
        from <= next_bar(b, from) <= b.len() || (from > b.len() && next_bar(b, from) == b.len()),
        next_bar(b, from) < b.len() ==> b[next_bar(b, from)] == 0x7C,
        forall|k: int| from <= k < next_bar(b, from) ==> b[k] != 0x7C,
    decreases b.len() - from,
{
    if from < b.len() && b[from] != 0x7C {
        lemma_next_bar(b, from + 1);
    }
}

/// The index of the first `|` at or after `from`.
fn find_bar(input: &[u8], from: usize) -> (r: usize)
    ensures
        r == next_bar(input@, from as int),
{
    let n = input.len();
    if from >= n {
        return n;
    }
    let mut i = from;
    while i < n
        invariant
            from <= i <= n,
            n == input@.len(),
            from < n,
            next_bar(input@, from as int) == next_bar(input@, i as int),
        decreases n - i,
    {
        if input[i] == 0x7C {
            return i;
        }
        i = i + 1;
    }
    i
}

/// Cutting valid UTF-8 right after a `|` leaves valid UTF-8 behind.
proof fn lemma_valid_after_bar(b: Seq<u8>, i: int)
    requires
        valid_utf8(b),
        0 <= i < b.len(),
        b[i] == 0x7C,
    ensures
        valid_utf8(b.subrange(0, i)),
        valid_utf8(b.subrange(i + 1, b.len() as int)),
{
    vstd::utf8::is_char_boundary_iff_not_is_continuation_byte(b, i);
    vstd::utf8::valid_utf8_split(b, i);
    let rest = b.subrange(i, b.len() as int);
    assert(rest[0] == 0x7C);
    assert(vstd::utf8::pop_first_scalar(rest) =~= b.subrange(i + 1, b.len() as int));
}

/// Splits `input` into a [`Request`]. `MalformedInput` for `format` if it isn't valid UTF-8,
/// doesn't have exactly three `|`-delimited fields, or any field is empty.
pub fn parse_request(input: &[u8], format: Format) -> (r: Result<Request<'_>, ConvertError>)
    ensures
        match request_fields(input@) {
            None => r == Err::<Request<'_>, ConvertError>(ConvertError::MalformedInput { format }),
            Some((a, b, c)) => r matches Ok(req) && req.from_unit.spec_bytes() == a && req.to_unit.spec_bytes()
                == b && req.raw_value.spec_bytes() == c,
        },
{
    let malformed = ConvertError::MalformedInput { format };
    if str_from_utf8(input).is_none() {
        return Err(malformed);
    }
    let n = input.len();
    let i1 = find_bar(input, 0);
    if i1 >= n {
        return Err(malformed);
    }
    let i2 = find_bar(input, i1 + 1);
    if i2 >= n {
        return Err(malformed);
    }
    let i3 = find_bar(input, i2 + 1);
    if i3 < n {
        return Err(malformed);
    }
    if i1 == 0 || i2 == i1 + 1 || i2 + 1 == n {
        return Err(malformed);
    }
    proof {
        lemma_next_bar(input@, 0);
        lemma_next_bar(input@, i1 + 1);
        lemma_valid_after_bar(input@, i1 as int);
        let tail = input@.subrange(i1 + 1, n as int);
        assert(tail[i2 - i1 - 1] == 0x7C);
        lemma_valid_after_bar(tail, i2 - i1 - 1);
        assert(tail.subrange(0, i2 - i1 - 1) =~= input@.subrange(i1 + 1, i2 as int));
        assert(tail.subrange(i2 - i1, tail.len() as int) =~= input@.subrange(i2 + 1, n as int));
    }
    let a = str_from_utf8(&input[0..i1]);
    let b = str_from_utf8(&input[i1 + 1..i2]);
    let c = str_from_utf8(&input[i2 + 1..n]);
    match (a, b, c) {
        (Some(from_unit), Some(to_unit), Some(raw_value)) => Ok(Request { from_unit, to_unit, raw_value }),
        _ => Err(malformed),
    }
}

} // verus!
