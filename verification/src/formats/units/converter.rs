//! [`UnitsConverter`]: the unit categories' shared front half, which names the category a
//! format stands for and splits the request, before the numeric conversion runs.

use vstd::prelude::*;
use vstd::string::StringSliceAdditionalSpecFns;

use super::payload::{parse_request, request_fields, Request};
use crate::registry::format_id;
use crate::{ConvertError, ConvertOptions, Format};

verus! {

/// Converts values between units of one category; every unit format is registered as a
/// self-pair.
#[derive(Debug, Default, Clone, Copy)]
pub struct UnitsConverter;

/// The category id a unit format stands for; `None` for every other format.
pub open spec fn category_of(format: Format) -> Option<Seq<char>> {
    match format {
        Format::UnitsLength => Some("length"@),
        Format::UnitsMass => Some("mass"@),
        Format::UnitsVolume => Some("volume"@),
        Format::UnitsCooking => Some("cooking"@),
        Format::UnitsTemperature => Some("temperature"@),
        Format::UnitsFuelConsumption => Some("fuel_consumption"@),
        Format::UnitsLifeAge => Some("life_age"@),
        Format::UnitsClothingSize => Some("clothing_size"@),
        _ => None,
    }
}

/// The category id `format` stands for (see [`category_of`]).
pub fn category_id_for(format: Format) -> (r: Option<&'static str>)
    ensures
        match category_of(format) {
            Some(id) => r matches Some(s) && s@ == id,
            None => r is None,
        },
{
    match format {
        Format::UnitsLength => Some("length"),
        Format::UnitsMass => Some("mass"),
        Format::UnitsVolume => Some("volume"),
        Format::UnitsCooking => Some("cooking"),
        Format::UnitsTemperature => Some("temperature"),
        Format::UnitsFuelConsumption => Some("fuel_consumption"),
        Format::UnitsLifeAge => Some("life_age"),
        Format::UnitsClothingSize => Some("clothing_size"),
        _ => None,
    }
}

impl UnitsConverter {
    /// The checks every unit conversion starts with, in order: a cancelled sink stops it; a
    /// format that is no unit category is the unsupported pair `from -> to`; a request that does
    /// not split into three non-empty fields is malformed `from`. Otherwise the category id and
    /// the request.
    pub fn prepare<'a>(&self, input: &'a [u8], from: Format, to: Format, options: &ConvertOptions) -> (r: Result<
        (&'static str, Request<'a>),
        ConvertError,
    >)
        ensures
            (options.may_cancel() && r == Err::<(&'static str, Request<'a>), ConvertError>(ConvertError::Cancelled)) || match category_of(
                from,
            ) {
                None => r == Err::<(&'static str, Request<'a>), ConvertError>(ConvertError::UnsupportedPair { from, to }),
                Some(id) => match request_fields(input@) {
                    None => r == Err::<(&'static str, Request<'a>), ConvertError>(ConvertError::MalformedInput { format: from }),
                    Some((a, b, c)) => r matches Ok((cat, req)) && cat@ == id && req.from_unit.spec_bytes() == a
                        && req.to_unit.spec_bytes() == b && req.raw_value.spec_bytes() == c,
                },
            },
    {
        if options.is_cancelled() {
            return Err(ConvertError::Cancelled);
        }
        let category = match category_id_for(from) {
            Some(c) => c,
            None => {
                return Err(ConvertError::UnsupportedPair { from, to });
            },
        };
        let request = parse_request(input, from)?;
        Ok((category, request))
    }
}

/// A unit format's category is the one its format id names: the id is `units_` followed by the
/// category id, and exactly the formats whose id starts with `units_` have a category.
pub proof fn lemma_category_named_by_format_id(f: Format)
    ensures
        category_of(f) matches Some(c) ==> format_id(f) == "units_"@ + c,
        (format_id(f).len() >= 6 && format_id(f).take(6) == "units_"@) <==> category_of(f) is Some,
{
    reveal_strlit("plain_text");
    reveal_strlit("bmp");
    reveal_strlit("qoi");
    reveal_strlit("png");
    reveal_strlit("ico");
    reveal_strlit("webp");
    reveal_strlit("jpeg");
    reveal_strlit("units_length");
    reveal_strlit("units_mass");
    reveal_strlit("units_volume");
    reveal_strlit("units_cooking");
    reveal_strlit("units_temperature");
    reveal_strlit("units_fuel_consumption");
    reveal_strlit("units_life_age");
    reveal_strlit("units_clothing_size");
    reveal_strlit("length");
    reveal_strlit("mass");
    reveal_strlit("volume");
    reveal_strlit("cooking");
    reveal_strlit("temperature");
    reveal_strlit("fuel_consumption");
    reveal_strlit("life_age");
    reveal_strlit("clothing_size");
    reveal_strlit("units_");
    let id = format_id(f);
    match category_of(f) {
        Some(c) => {
            assert(format_id(f) =~= "units_"@ + c);
            assert(id.take(6) =~= "units_"@);
        },
        None => {
            if id.len() >= 6 && id.take(6) == "units_"@ {
                assert(id.take(6)[0] == id[0]);
                assert("units_"@[0] == 'u');
                assert(id[0] == 'u');
            }
        },
    }
}

/// Different unit formats name different categories.
pub proof fn lemma_categories_distinct(f: Format, g: Format)
    ensures
        f != g && category_of(f) is Some ==> category_of(f) != category_of(g),
{
    lemma_category_named_by_format_id(f);
    lemma_category_named_by_format_id(g);
    crate::bindings::lemma_format_id_injective(f, g);
}

} // verus!
