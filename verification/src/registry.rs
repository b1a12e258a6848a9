//! The [`Format`] catalog and the `(from, to) -> Converter` dispatch table.

use vstd::prelude::*;

use crate::converter::Converter;

verus! {

/// The broad grouping a [`Format`] belongs to.
#[non_exhaustive]
#[derive(Debug, Clone, Copy, PartialEq, Eq, Hash, Structural)]
pub enum Category {
    /// Raster image formats.
    Image,
    /// Structured or plain text formats.
    Text,
    /// Unit-of-measurement conversions, modeled as formats so dispatch needs no special case.
    Units,
    /// CAD/3D formats.
    Cad,
}

/// A file or data format this crate knows about.
#[non_exhaustive]
#[derive(Debug, Clone, Copy, PartialEq, Eq, Hash, Structural)]
pub enum Format {
    /// Placeholder text format exercising the pipeline end to end.
    PlainText,
    /// Uncompressed 24-bit Windows bitmap.
    Bmp,
    /// "Quite OK Image" format.
    Qoi,
    /// Portable Network Graphics (8-bit RGB/RGBA).
    Png,
    /// Windows icon container.
    Ico,
    /// WebP (lossless only).
    Webp,
    /// Baseline JPEG.
    Jpeg,
    /// Length units.
    UnitsLength,
    /// Mass units.
    UnitsMass,
    /// Volume units.
    UnitsVolume,
    /// Cooking measures.
    UnitsCooking,
    /// Temperature scales.
    UnitsTemperature,
    /// Fuel-consumption units.
    UnitsFuelConsumption,
    /// Species-age equivalences.
    UnitsLifeAge,
    /// Clothing-size charts.
    UnitsClothingSize,
}

/// The stable identifier of each format.
pub open spec fn format_id(f: Format) -> Seq<char> {
    match f {
        Format::PlainText => "plain_text"@,
        Format::Bmp => "bmp"@,
        Format::Qoi => "qoi"@,
        Format::Png => "png"@,
        Format::Ico => "ico"@,
        Format::Webp => "webp"@,
        Format::Jpeg => "jpeg"@,
        Format::UnitsLength => "units_length"@,
        Format::UnitsMass => "units_mass"@,
        Format::UnitsVolume => "units_volume"@,
        Format::UnitsCooking => "units_cooking"@,
        Format::UnitsTemperature => "units_temperature"@,
        Format::UnitsFuelConsumption => "units_fuel_consumption"@,
        Format::UnitsLifeAge => "units_life_age"@,
        Format::UnitsClothingSize => "units_clothing_size"@,
    }
}

/// The category of each format.
pub open spec fn format_category(f: Format) -> Category {
    match f {
        Format::PlainText => Category::Text,
        Format::Bmp | Format::Qoi | Format::Png | Format::Ico | Format::Webp | Format::Jpeg => Category::Image,
        _ => Category::Units,
    }
}

/// The MIME type of each format.
pub open spec fn format_mime(f: Format) -> Seq<char> {
    match f {
        Format::Bmp => "image/bmp"@,
        Format::Qoi => "image/qoi"@,
        Format::Png => "image/png"@,
        Format::Ico => "image/x-icon"@,
        Format::Webp => "image/webp"@,
        Format::Jpeg => "image/jpeg"@,
        _ => "text/plain"@,
    }
}

/// The file extensions of each format, most preferred first.
pub open spec fn format_extensions(f: Format) -> Seq<Seq<char>> {
    match f {
        Format::PlainText => seq!["txt"@],
        Format::Bmp => seq!["bmp"@],
        Format::Qoi => seq!["qoi"@],
        Format::Png => seq!["png"@],
        Format::Ico => seq!["ico"@],
        Format::Webp => seq!["webp"@],
        Format::Jpeg => seq!["jpg"@, "jpeg"@],
        _ => seq![],
    }
}

impl Format {
    /// Stable, lowercase identifier; the join key with catalogs and i18n keys.
    pub fn id(&self) -> (r: &'static str)
        ensures
            r@ == format_id(*self),
    {
        match self {
            Format::PlainText => "plain_text",
            Format::Bmp => "bmp",
            Format::Qoi => "qoi",
            Format::Png => "png",
            Format::Ico => "ico",
            Format::Webp => "webp",
            Format::Jpeg => "jpeg",
            Format::UnitsLength => "units_length",
            Format::UnitsMass => "units_mass",
            Format::UnitsVolume => "units_volume",
            Format::UnitsCooking => "units_cooking",
            Format::UnitsTemperature => "units_temperature",
            Format::UnitsFuelConsumption => "units_fuel_consumption",
            Format::UnitsLifeAge => "units_life_age",
            Format::UnitsClothingSize => "units_clothing_size",
        }
    }

    /// The [`Category`] this format belongs to.
    pub fn category(&self) -> (r: Category)
        ensures
            r == format_category(*self),
    {
        match self {
            Format::PlainText => Category::Text,
            Format::Bmp | Format::Qoi | Format::Png | Format::Ico | Format::Webp | Format::Jpeg => Category::Image,
            _ => Category::Units,
        }
    }

    /// The MIME type used when this format is read from or written to a file or `Blob`.
    pub fn mime(&self) -> (r: &'static str)
        ensures
            r@ == format_mime(*self),
    {
        match self {
            Format::Bmp => "image/bmp",
            Format::Qoi => "image/qoi",
            Format::Png => "image/png",
            Format::Ico => "image/x-icon",
            Format::Webp => "image/webp",
            Format::Jpeg => "image/jpeg",
            _ => "text/plain",
        }
    }

    /// File extensions (without the leading dot), most preferred first.
    pub fn extensions(&self) -> (r: Vec<&'static str>)
        ensures
            r@.len() == format_extensions(*self).len(),
            forall|i: int| 0 <= i < r@.len() ==> #[trigger] r@[i]@ == format_extensions(*self)[i],
    {
        match self {
            Format::PlainText => vec!["txt"],
            Format::Bmp => vec!["bmp"],
            Format::Qoi => vec!["qoi"],
            Format::Png => vec!["png"],
            Format::Ico => vec!["ico"],
            Format::Webp => vec!["webp"],
            Format::Jpeg => vec!["jpg", "jpeg"],
            _ => Vec::new(),
        }
    }

    /// Whether a registered converter can decode this format. Every format in the catalog can.
    pub fn can_read(&self) -> (r: bool)
        ensures
            r,
    {
        true
    }

    /// Whether a registered converter can encode this format. Every format in the catalog can.
    pub fn can_write(&self) -> (r: bool)
        ensures
            r,
    {
        true
    }
}

/// The pair of row `i`.
spec fn key_of<C: ?Sized>(s: Seq<(Format, Format, Box<C>)>, i: int) -> (Format, Format) {
    (s[i].0, s[i].1)
}

/// No pair occurs twice in `s`.
spec fn keys_distinct<C: ?Sized>(s: Seq<(Format, Format, Box<C>)>) -> bool {
    forall|i: int, j: int| 0 <= i < s.len() && 0 <= j < s.len() && i != j ==> #[trigger] key_of(s, i) != #[trigger] key_of(s, j)
}

/// The map a table of rows denotes.
spec fn table_map<C: ?Sized>(s: Seq<(Format, Format, Box<C>)>) -> Map<(Format, Format), Box<C>> {
    Map::new(
        |k: (Format, Format)| exists|i: int| 0 <= i < s.len() && #[trigger] key_of(s, i) == k,
        |k: (Format, Format)| s[choose|i: int| 0 <= i < s.len() && #[trigger] key_of(s, i) == k].2,
    )
}

/// In a table without duplicate pairs, row `i` is what the map holds for its pair.
proof fn lemma_table_map_at<C: ?Sized>(s: Seq<(Format, Format, Box<C>)>, i: int)
    requires
        keys_distinct(s),
        0 <= i < s.len(),
    ensures
        table_map(s).contains_key(key_of(s, i)),
        table_map(s)[key_of(s, i)] == s[i].2,
{
    let k = key_of(s, i);
    assert(table_map(s).contains_key(k));
    let w = choose|w: int| 0 <= w < s.len() && #[trigger] key_of(s, w) == k;
    assert(w == i);
}

/// Adds the row `from -> to` to a table without duplicate pairs, replacing the one for that pair.
fn insert_row<C: ?Sized + Converter>(rows: &mut Vec<(Format, Format, Box<C>)>, from: Format, to: Format, converter: Box<C>)
    requires
        keys_distinct(old(rows)@),
    ensures
        keys_distinct(final(rows)@),
        table_map(final(rows)@) == table_map(old(rows)@).insert((from, to), converter),
{
    let n = rows.len();
    let mut i: usize = 0;
    while i < n
        invariant
            n == rows@.len(),
            0 <= i <= n,
            rows@ == old(rows)@,
            keys_distinct(rows@),
            forall|j: int| 0 <= j < i ==> #[trigger] key_of(rows@, j) != (from, to),
        decreases n - i,
    {
        if rows[i].0 == from && rows[i].1 == to {
            let ghost a = rows@;
            rows.set(i, (from, to, converter));
            proof {
                let b = rows@;
                assert forall|x: int, y: int| 0 <= x < b.len() && 0 <= y < b.len() && x != y implies #[trigger] key_of(b, x) != #[trigger] key_of(b, y) by {
                    assert(key_of(a, x) == key_of(b, x));
                    assert(key_of(a, y) == key_of(b, y));
                }
                let m = table_map(old(rows)@).insert((from, to), converter);
                assert forall|k: (Format, Format)| #[trigger] table_map(rows@).contains_key(k) <==> m.contains_key(k) by {
                    if table_map(rows@).contains_key(k) {
                        let w = choose|w: int| 0 <= w < b.len() && #[trigger] key_of(b, w) == k;
                        assert(key_of(a, w) == k);
                    }
                    if table_map(old(rows)@).contains_key(k) {
                        let w = choose|w: int| 0 <= w < a.len() && #[trigger] key_of(a, w) == k;
                        assert(key_of(b, w) == k);
                    }
                    if k == (from, to) {
                        assert(key_of(b, i as int) == k);
                    }
                }
                assert forall|k: (Format, Format)| #[trigger] table_map(rows@).contains_key(k) implies table_map(rows@)[k] == m[k] by {
                    let w = choose|w: int| 0 <= w < b.len() && #[trigger] key_of(b, w) == k;
                    lemma_table_map_at(b, w);
                    if k != (from, to) {
                        assert(key_of(a, w) == k);
                        lemma_table_map_at(a, w);
                    } else {
                        assert(key_of(b, i as int) == k);
                        lemma_table_map_at(b, i as int);
                    }
                }
                assert(table_map(rows@) =~= m);
            }
            return;
        }
        i = i + 1;
    }
    let ghost a = rows@;
    rows.push((from, to, converter));
    proof {
        let b = rows@;
        assert(a.len() == n);
        assert(b.len() == n + 1);
        assert(b =~= a.push((from, to, converter)));
        assert forall|x: int| 0 <= x < n implies #[trigger] key_of(b, x) == key_of(a, x) by {
            assert(b[x] == a[x]);
        }
        assert forall|x: int, y: int| 0 <= x < b.len() && 0 <= y < b.len() && x != y implies #[trigger] key_of(b, x) != #[trigger] key_of(b, y) by {
            if x < n && y < n {
                assert(key_of(a, x) == key_of(b, x));
                assert(key_of(a, y) == key_of(b, y));
            } else if x < n {
                assert(key_of(a, x) == key_of(b, x));
            } else {
                assert(key_of(a, y) == key_of(b, y));
            }
        }
        let m = table_map(old(rows)@).insert((from, to), converter);
        assert forall|k: (Format, Format)| #[trigger] table_map(rows@).contains_key(k) <==> m.contains_key(k) by {
            if table_map(rows@).contains_key(k) && k != (from, to) {
                let w = choose|w: int| 0 <= w < b.len() && #[trigger] key_of(b, w) == k;
                assert(key_of(a, w) == k);
            }
            if table_map(old(rows)@).contains_key(k) {
                let w = choose|w: int| 0 <= w < a.len() && #[trigger] key_of(a, w) == k;
                assert(key_of(b, w) == k);
            }
            if k == (from, to) {
                assert(key_of(b, n as int) == k);
            }
        }
        assert forall|k: (Format, Format)| #[trigger] table_map(rows@).contains_key(k) implies table_map(rows@)[k] == m[k] by {
            let w = choose|w: int| 0 <= w < b.len() && #[trigger] key_of(b, w) == k;
            lemma_table_map_at(b, w);
            if k != (from, to) {
                assert(key_of(a, w) == k);
                lemma_table_map_at(a, w);
            }
        }
        assert(table_map(rows@) =~= m);
    }
}

/// Registering a pair again replaces its converter: after registering `a` and then `b` for
/// `pair`, the table holds `b` for it, and every other pair is registered exactly when it was
/// before. With [`Registry::new`]'s empty table, a pair nobody registered is not found.
pub proof fn lemma_later_registration_wins<C: ?Sized + Converter>(
    m: Map<(Format, Format), Box<C>>,
    pair: (Format, Format),
    a: Box<C>,
    b: Box<C>,
    other: (Format, Format),
)
    ensures
        m.insert(pair, a).insert(pair, b).contains_key(pair),
        m.insert(pair, a).insert(pair, b)[pair] == b,
        other != pair ==> (m.insert(pair, a).insert(pair, b).contains_key(other) <==> m.contains_key(other)),
        !Map::<(Format, Format), Box<C>>::empty().contains_key(other),
{
}

/// The `(from, to) -> Converter` dispatch table. Registering a pair that is already present
/// replaces the previous converter.
///
/// Generic over the converter type so a caller can build a table of one concrete converter type;
/// the default, `Registry` on its own, holds any [`Converter`] behind a trait object.
pub struct Registry<C: ?Sized + Converter = dyn Converter> {
    converters: Vec<(Format, Format, Box<C>)>,
}

impl<C: ?Sized + Converter> Registry<C> {
    /// No pair occurs twice in the table.
    #[verifier::type_invariant]
    closed spec fn wf(&self) -> bool {
        keys_distinct(self.converters@)
    }

    /// The registered pairs and their converters.
    pub closed spec fn view(&self) -> Map<(Format, Format), Box<C>> {
        table_map(self.converters@)
    }

    /// Creates an empty registry.
    pub fn new() -> (r: Self)
        ensures
            r@ == Map::<(Format, Format), Box<C>>::empty(),
    {
        let r = Registry { converters: Vec::new() };
        assert(r@ =~= Map::<(Format, Format), Box<C>>::empty());
        r
    }

    /// Registers `converter` as the handler for `from -> to`, replacing any previous one.
    pub fn register(&mut self, from: Format, to: Format, converter: Box<C>)
        ensures
            final(self)@ == old(self)@.insert((from, to), converter),
    {
        proof {
            use_type_invariant(&*self);
        }
        let mut rows: Vec<(Format, Format, Box<C>)> = Vec::new();
        std::mem::swap(&mut rows, &mut self.converters);
        insert_row(&mut rows, from, to, converter);
        self.converters = rows;
    }

    /// Looks up the converter registered for `from -> to`, if any.
    pub fn resolve(&self, from: Format, to: Format) -> (r: Option<&C>)
        ensures
            r is Some <==> self@.contains_key((from, to)),
            r matches Some(c) ==> c == &*self@[(from, to)],
    {
        proof {
            use_type_invariant(self);
        }
        let n = self.converters.len();
        let mut i: usize = 0;
        while i < n
            invariant
                n == self.converters@.len(),
                0 <= i <= n,
                keys_distinct(self.converters@),
                forall|j: int| 0 <= j < i ==> #[trigger] key_of(self.converters@, j) != (from, to),
            decreases n - i,
        {
            if self.converters[i].0 == from && self.converters[i].1 == to {
                proof {
                    lemma_table_map_at(self.converters@, i as int);
                }
                return Some(&*self.converters[i].2);
            }
            i = i + 1;
        }
        proof {
            if self@.contains_key((from, to)) {
                let w = choose|w: int| 0 <= w < n && #[trigger] key_of(self.converters@, w) == (from, to);
                assert(key_of(self.converters@, w) != (from, to));
            }
        }
        None
    }
}

} // verus!
