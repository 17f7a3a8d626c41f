pub mod ladder;

use crate::error::Error;
use crate::roman::ladder::{
    entry_chars, entry_matches, entry_value, format_chars, format_from, ladder, ladder_entries,
};
use crate::unit::{lemma_next_unit_scan, scan_units, RomanUnitIterator};
use vstd::prelude::*;
use vstd::string::{StringExecFns, StringSliceAdditionalSpecFns};

verus! {

/// The largest value a Roman numeral can hold: `MMMMCMXCIX`.
pub const MAX: u16 = 4999;

/// Result of parsing a byte sequence: the unit scan from an empty state,
/// followed by the range check of the bounded-value constructor. A sum of
/// zero — in particular, an empty input — and a sum above [`MAX`] are out of
/// range.
pub open spec fn parse_value(s: Seq<u8>) -> Result<u16, Error> {
    match scan_units(s, None, 0) {
        Ok(total) => if 1 <= total <= MAX {
            Ok(total as u16)
        } else {
            Err(Error::OutOfRange(total as u16))
        },
        Err(e) => Err(e),
    }
}

/// A Roman numeral.
///
/// This struct stores the value of a numeral as a `u16` that is always inside
/// `1..=MAX`, and provides for Roman-style formatting.
#[derive(Copy, Clone, Debug, Eq, PartialEq, Ord, PartialOrd, Hash)]
pub struct Roman(u16);

impl View for Roman {
    type V = int;

    closed spec fn view(&self) -> int {
        self.0 as int
    }
}

impl Roman {
    /// The value of any live `Roman` is inside `1..=MAX`.
    #[verifier::type_invariant]
    spec fn in_range(self) -> bool {
        1 <= self.0 <= MAX
    }

    /// Creates a `Roman` value based on a `u16`.
    ///
    /// This function will return `None` if the value supplied is outside the
    /// acceptable range of `1..=4999`, because numbers outside that range
    /// cannot be appropriately formatted using the seven standard numerals.
    pub fn new(n: u16) -> (r: Option<Roman>)
        ensures
            1 <= n <= MAX ==> (r matches Some(rm) && rm@ == n),
            !(1 <= n <= MAX) ==> r is None,
    {
        if 1 <= n && n <= MAX {
            Some(Roman(n))
        } else {
            None
        }
    }

    /// Returns the value of this `Roman` numeral.
    pub fn value(self) -> (n: u16)
        ensures
            n == self@,
            1 <= n <= MAX,
    {
        proof {
            use_type_invariant(self);
        }
        self.0
    }

    /// Returns the inner value.
    pub fn into_inner(self) -> (n: u16)
        ensures
            n == self@,
            1 <= n <= MAX,
    {
        proof {
            use_type_invariant(self);
        }
        self.0
    }

    /// Parses a Roman numeral, case-insensitively; `str::parse::<Roman>`
    /// runs this. The result is exactly what [`parse_value`] states on the
    /// bytes of `s`: the summed units for a well-formed numeral in range,
    /// and otherwise the error the scan or the range check reports.
    pub fn parse_str(s: &str) -> (r: Result<Roman, Error>)
        ensures
            match parse_value(s.spec_bytes()) {
                Ok(v) => r matches Ok(rm) && rm@ == v,
                Err(e) => r == Err::<Roman, Error>(e),
            },
    {
        let mut it = RomanUnitIterator::new(s);
        let mut sum: u16 = 0;
        loop
            invariant
                it.wf(),
                scan_units(s.spec_bytes(), None, 0) == scan_units(
                    it.remaining(),
                    it.active(),
                    sum as int,
                ),
            decreases it.measure(),
        {
            let ghost pre = it;
            match it.next() {
                None => {
                    match Roman::new(sum) {
                        Some(r) => {
                            return Ok(r);
                        },
                        None => {
                            return Err(Error::OutOfRange(sum));
                        },
                    }
                },
                Some(Ok(u)) => {
                    proof {
                        lemma_next_unit_scan(pre.remaining(), pre.active(), sum as int);
                    }
                    match sum.checked_add(u) {
                        Some(s2) => {
                            sum = s2;
                        },
                        None => {
                            return Err(Error::Overflow);
                        },
                    }
                },
                Some(Err(e)) => {
                    proof {
                        lemma_next_unit_scan(pre.remaining(), pre.active(), sum as int);
                    }
                    return Err(e);
                },
            }
        }
    }
}

/// Style of formatting — lowercase or uppercase.
#[derive(Debug, Copy, Clone)]
pub enum Style {
    /// Lowercase formatting. E.g.: `xvii`.
    Lower,
    /// Uppercase formatting. E.g.: `XVII`.
    Upper,
}

/// Walks the ladder from the top, greedily emitting symbols in the given
/// style while the remainder covers an entry's value.
fn render(value: u16, style: Style) -> (r: String)
    ensures
        r@ == format_chars(value as int, style),
{
    let entries = ladder();
    let mut current: u16 = value;
    let mut buf = String::new();
    let mut i: usize = 0;
    while i < 13
        invariant
            ladder_entries(entries@),
            i <= 13,
            buf@ + format_from(current as int, i as int, style) == format_chars(
                value as int,
                style,
            ),
        decreases 13 - i,
    {
        let e = entries[i];
        proof {
            assert(entry_matches(entries@[i as int], i as int));
        }
        while current >= e.value
            invariant
                i < 13,
                e == entries@[i as int],
                entry_matches(entries@[i as int], i as int),
                buf@ + format_from(current as int, i as int, style) == format_chars(
                    value as int,
                    style,
                ),
            decreases current,
        {
            let ghost prev: Seq<char> = buf@;
            let ghost c0: int = current as int;
            proof {
                assert(format_from(c0, i as int, style) == entry_chars(i as int, style)
                    + format_from(c0 - entry_value(i as int), i as int, style));
            }
            current = current - e.value;
            match style {
                Style::Upper => buf.append(e.upper),
                Style::Lower => buf.append(e.lower),
            }
            proof {
                assert(buf@ =~= prev + entry_chars(i as int, style));
                assert(prev + (entry_chars(i as int, style) + format_from(
                    current as int,
                    i as int,
                    style,
                )) =~= (prev + entry_chars(i as int, style)) + format_from(
                    current as int,
                    i as int,
                    style,
                ));
            }
        }
        i = i + 1;
    }
    proof {
        assert(buf@ + Seq::<char>::empty() =~= buf@);
    }
    buf
}

impl Roman {
    /// Formats a `Roman` value as an uppercase Roman numeral.
    pub fn to_uppercase(self) -> (r: String)
        ensures
            r@ == format_chars(self@, Style::Upper),
    {
        render(self.value(), Style::Upper)
    }

    /// Formats a `Roman` value as a lowercase Roman numeral.
    pub fn to_lowercase(self) -> (r: String)
        ensures
            r@ == format_chars(self@, Style::Lower),
    {
        render(self.value(), Style::Lower)
    }

    /// Returns a [`RomanFormatter`] which formats `self` as a lowercase or
    /// uppercase Roman numeral depending on `style`.
    pub fn format(&self, style: Style) -> (f: RomanFormatter)
        ensures
            f.value_spec() == self@,
            f.style_spec() == style,
    {
        RomanFormatter { style, value: self.value() }
    }

    /// The default string form of a numeral: its uppercase formatting.
    pub fn to_string(&self) -> (r: String)
        ensures
            r@ == format_chars(self@, Style::Upper),
    {
        render(self.value(), Style::Upper)
    }
}

/// Roman formatter carrying a value and a style.
///
/// This struct is created by the [`format`](Roman::format) method.
#[derive(Debug, Copy, Clone)]
pub struct RomanFormatter {
    style: Style,
    value: u16,
}

impl RomanFormatter {
    /// The style this formatter was created with.
    pub closed spec fn style_spec(self) -> Style {
        self.style
    }

    /// The value this formatter was created from.
    pub closed spec fn value_spec(self) -> int {
        self.value as int
    }

    /// Renders the numeral this formatter was created from, in its style.
    pub fn to_string(&self) -> (r: String)
        ensures
            r@ == format_chars(self.value_spec(), self.style_spec()),
    {
        render(self.value, self.style)
    }
}

impl core::str::FromStr for Roman {
    type Err = Error;

    fn from_str(s: &str) -> (r: Result<Roman, Error>)
        ensures
            match parse_value(s.spec_bytes()) {
                Ok(v) => r matches Ok(rm) && rm@ == v,
                Err(e) => r == Err::<Roman, Error>(e),
            },
    {
        Roman::parse_str(s)
    }
}

} // verus!
