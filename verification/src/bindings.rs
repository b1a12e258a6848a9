//! What the JavaScript boundary needs from the library: the list of formats it exposes, parsing a
//! format id back into a [`Format`], and the cancel flag a host can flip during a conversion.

use std::sync::atomic::AtomicBool;
use std::sync::atomic::Ordering;
use std::sync::Arc;
use vstd::prelude::*;
use vstd::string::StringSliceAdditionalSpecFns;

use crate::registry::{format_id, Format};

verus! {

broadcast use vstd::utf8::encode_utf8_decode_utf8;

/// The formats exposed to JavaScript, in the order they are listed there.
pub open spec fn known_formats_spec() -> Seq<Format> {
    seq![
        Format::PlainText,
        Format::Bmp,
        Format::Qoi,
        Format::Png,
        Format::Ico,
        Format::Webp,
        Format::UnitsLength,
        Format::UnitsMass,
        Format::UnitsVolume,
        Format::UnitsCooking,
        Format::UnitsTemperature,
        Format::UnitsFuelConsumption,
        Format::UnitsLifeAge,
        Format::UnitsClothingSize,
    ]
}

/// The formats exposed to JavaScript, in the order they are listed there.
pub fn known_formats() -> (r: Vec<Format>)
    ensures
        r@ == known_formats_spec(),
{
    let r = vec![
        Format::PlainText,
        Format::Bmp,
        Format::Qoi,
        Format::Png,
        Format::Ico,
        Format::Webp,
        Format::UnitsLength,
        Format::UnitsMass,
        Format::UnitsVolume,
        Format::UnitsCooking,
        Format::UnitsTemperature,
        Format::UnitsFuelConsumption,
        Format::UnitsLifeAge,
        Format::UnitsClothingSize,
    ];
    assert(r@ =~= known_formats_spec());
    r
}

/// Whether two strings are equal.
fn str_eq(a: &str, b: &str) -> (r: bool)
    ensures
        r == (a@ == b@),
{
    let x = a.as_bytes();
    let y = b.as_bytes();
    proof {
        assert(x@ == vstd::utf8::encode_utf8(a@));
        assert(y@ == vstd::utf8::encode_utf8(b@));
        assert(vstd::utf8::decode_utf8(vstd::utf8::encode_utf8(a@)) == a@);
        assert(vstd::utf8::decode_utf8(vstd::utf8::encode_utf8(b@)) == b@);
    }
    if x.len() != y.len() {
        return false;
    }
    let n = x.len();
    let mut i: usize = 0;
    while i < n
        invariant
            n == x@.len(),
            n == y@.len(),
            i <= n,
            x@ == vstd::utf8::encode_utf8(a@),
            y@ == vstd::utf8::encode_utf8(b@),
            forall|k: int| 0 <= k < i ==> x@[k] == y@[k],
        decreases n - i,
    {
        if x[i] != y[i] {
            return false;
        }
        i = i + 1;
    }
    assert(x@ =~= y@);
    true
}

/// Different formats have different ids.
pub proof fn lemma_format_id_injective(f: Format, g: Format)
    ensures
        format_id(f) == format_id(g) ==> f == g,
{
    reveal_strlit("plain_text");
    reveal_strlit("bmp");
    reveal_strlit("qoi");
    reveal_strlit("png");
    reveal_strlit("ico");
    reveal_strlit("webp");
    reveal_strlit("jpeg");
    reveal_strlit("units_length");
    reveal_strlit("units_mass");
    reveal_strlit("units_volume");
    reveal_strlit("units_cooking");
    reveal_strlit("units_temperature");
    reveal_strlit("units_fuel_consumption");
    reveal_strlit("units_life_age");
    reveal_strlit("units_clothing_size");
    if format_id(f) == format_id(g) {
        let a = format_id(f);
        let b = format_id(g);
        assert(a.len() == b.len());
        assert(a[0] == b[0]);
        if a.len() > 6 {
            assert(a[6] == b[6]);
        }
    }
}

/// A character a format id may hold: a lowercase ASCII letter, a digit or `_`.
pub open spec fn id_char(c: char) -> bool {
    ('a' <= c && c <= 'z') || ('0' <= c && c <= '9') || c == '_'
}

/// Every format id is non-empty and made only of lowercase ASCII letters, digits and `_`.
pub proof fn lemma_format_id_shape(f: Format)
    ensures
        format_id(f).len() > 0,
        forall|i: int| 0 <= i < format_id(f).len() ==> id_char(#[trigger] format_id(f)[i]),
{
    reveal_strlit("plain_text");
    reveal_strlit("bmp");
    reveal_strlit("qoi");
    reveal_strlit("png");
    reveal_strlit("ico");
    reveal_strlit("webp");
    reveal_strlit("jpeg");
    reveal_strlit("units_length");
    reveal_strlit("units_mass");
    reveal_strlit("units_volume");
    reveal_strlit("units_cooking");
    reveal_strlit("units_temperature");
    reveal_strlit("units_fuel_consumption");
    reveal_strlit("units_life_age");
    reveal_strlit("units_clothing_size");
}

/// Parses a format id (as [`Format::id`] gives it) back into a [`Format`]: the listed format
/// with that id, or `None` for an id of no listed format.
pub fn parse_format(id: &str) -> (r: Option<Format>)
    ensures
        r matches Some(f) ==> known_formats_spec().contains(f) && format_id(f) == id@,
        r is None <==> forall|i: int| 0 <= i < known_formats_spec().len() ==> format_id(#[trigger] known_formats_spec()[i]) != id@,
        forall|f: Format| known_formats_spec().contains(f) && format_id(f) == id@ ==> r == Some(f),
{
    let formats = known_formats();
    let n = formats.len();
    let mut i: usize = 0;
    while i < n
        invariant
            n == formats@.len(),
            formats@ == known_formats_spec(),
            i <= n,
            forall|k: int| 0 <= k < i ==> format_id(#[trigger] formats@[k]) != id@,
        decreases n - i,
    {
        let f = formats[i];
        if str_eq(f.id(), id) {
            proof {
                assert forall|g: Format| known_formats_spec().contains(g) && format_id(g) == id@ implies g == f by {
                    lemma_format_id_injective(f, g);
                }
            }
            return Some(f);
        }
        i = i + 1;
    }
    proof {
        assert forall|g: Format| known_formats_spec().contains(g) implies format_id(g) != id@ by {
            let k = choose|k: int| 0 <= k < known_formats_spec().len() && known_formats_spec()[k] == g;
            assert(format_id(formats@[k]) != id@);
        }
    }
    None
}

/// A cancel flag a host can flip from outside a running conversion; converters see it at their
/// next cancellation check.
#[derive(Clone, Default)]
pub struct CancelToken {
    cancelled: Arc<AtomicBool>,
}

impl CancelToken {
    /// A token in the not-cancelled state.
    pub fn new() -> (r: CancelToken) {
        CancelToken { cancelled: Arc::new(AtomicBool::new(false)) }
    }

    /// Requests cancellation; calling it again, or after the conversion finished, changes nothing.
    pub fn cancel(&self) {
        self.cancelled.store(true, Ordering::Relaxed);
    }

    /// Whether [`CancelToken::cancel`] has been called on this token or a clone of it.
    pub fn is_cancelled(&self) -> (r: bool) {
        self.cancelled.load(Ordering::Relaxed)
    }

    /// The flag this token and its clones share.
    pub closed spec fn shared_flag(&self) -> Arc<AtomicBool> {
        self.cancelled
    }

    /// The shared flag, for a progress sink that reads it.
    pub fn flag(&self) -> (r: Arc<AtomicBool>)
        ensures
            r == self.shared_flag(),
    {
        self.cancelled.clone()
    }
}

} // verus!
