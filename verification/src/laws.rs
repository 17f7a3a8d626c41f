use crate::error::Error;
use crate::roman::ladder::{entry_chars, entry_value, format_chars, format_from};
use crate::roman::{parse_value, Style, MAX};
use crate::unit::{digit_value, is_roman_digit, scan_units};
use vstd::prelude::*;
use vstd::string::StringSliceAdditionalSpecFns;
use vstd::utf8::is_ascii_chars;

verus! {

/// Bytes of a character sequence, one byte per character; faithful for the
/// all-ASCII output of the formatter.
pub open spec fn chars_to_bytes(s: Seq<char>) -> Seq<u8> {
    s.map_values(|c: char| c as u8)
}

/// Whether ladder entry `i` is a subtractive pair rather than a plain symbol.
spec fn is_subtractive(i: int) -> bool {
    i == 1 || i == 3 || i == 5 || i == 7 || i == 9 || i == 11
}

/// Digit value of the first symbol of ladder entry `i`: the entry's value
/// for a plain symbol, the subtrahend for a subtractive pair.
spec fn entry_first_digit(i: int) -> int {
    if i == 0 {
        1000  // M
    } else if i == 1 || i == 3 || i == 4 {
        100  // CM, CD, C
    } else if i == 2 {
        500  // D
    } else if i == 5 || i == 7 || i == 8 {
        10  // XC, XL, X
    } else if i == 6 {
        50  // L
    } else if i == 10 {
        5  // V
    } else {
        1  // IX, IV, I
    }
}

/// Index of the first ladder entry at or below `i` whose value fits in `v`;
/// 13 if none does.
spec fn first_entry(v: int, i: int) -> int
    decreases 13 - i,
{
    if i < 0 || i >= 13 {
        13
    } else if v >= entry_value(i) {
        i
    } else {
        first_entry(v, i + 1)
    }
}

/// Value of an optional active run: repeat count times digit value.
spec fn acc_total(acc: Option<(int, int)>) -> int {
    match acc {
        None => 0,
        Some((a, q)) => q * a,
    }
}

/// Whether an active run can stand before the encoding of `v` from entry `i`
/// without disturbing it: the run's digit must not be smaller than the first
/// digit to come, and must be strictly larger when that digit opens a
/// subtractive pair.
spec fn acc_fits(acc: Option<(int, int)>, v: int, i: int) -> bool {
    match acc {
        None => true,
        Some((a, q)) => q >= 1 && a >= 1 && (v <= 0 || {
            let j = first_entry(v, i);
            &&& j < 13
            &&& a >= entry_first_digit(j)
            &&& (is_subtractive(j) ==> a > entry_first_digit(j))
        }),
    }
}

/// Shape of ladder entry `i`: a plain symbol is one character whose digit
/// value is the entry's value; a subtractive pair is two characters whose
/// digit values are the pair's subtrahend and its sum with the entry's value.
proof fn lemma_entry_digits(i: int, style: Style)
    requires
        0 <= i < 13,
    ensures
        !is_subtractive(i) ==> {
            &&& entry_chars(i, style).len() == 1
            &&& digit_value(entry_chars(i, style)[0] as u8) == entry_value(i)
            &&& entry_first_digit(i) == entry_value(i)
        },
        is_subtractive(i) ==> {
            &&& entry_chars(i, style).len() == 2
            &&& digit_value(entry_chars(i, style)[0] as u8) == entry_first_digit(i)
            &&& digit_value(entry_chars(i, style)[1] as u8) == entry_first_digit(i) + entry_value(
                i,
            )
        },
{
}

/// Down the ladder from a plain symbol, first digits never grow, and the
/// opening digit of a subtractive pair is strictly smaller.
proof fn lemma_first_digit_below(i: int, j: int)
    requires
        0 <= i <= j < 13,
        !is_subtractive(i),
    ensures
        entry_first_digit(j) <= entry_first_digit(i),
        is_subtractive(j) ==> entry_first_digit(j) < entry_first_digit(i),
{
}

/// For a positive value the ladder always has a fitting entry: the bottom
/// entry is worth 1.
proof fn lemma_first_entry_bounds(v: int, i: int)
    requires
        1 <= v,
        0 <= i <= 12,
    ensures
        i <= first_entry(v, i) <= 12,
        v >= entry_value(first_entry(v, i)),
    decreases 13 - i,
{
    if v >= entry_value(i) {
    } else {
        lemma_first_entry_bounds(v, i + 1);
    }
}

/// The unit scan of a greedy encoding adds exactly the encoded value: from
/// any compatible starting run and any running sum with enough headroom,
/// scanning the encoding of `v` from entry `i` ends with the sum grown by
/// the run's value plus `v`.
proof fn lemma_scan_format(v: int, i: int, style: Style, acc: Option<(int, int)>, sum: int)
    requires
        0 <= v,
        0 <= i <= 13,
        v > 0 ==> i <= 12,
        acc_fits(acc, v, i),
        0 <= sum,
        sum + acc_total(acc) + v <= u16::MAX,
    ensures
        scan_units(chars_to_bytes(format_from(v, i, style)), acc, sum) == Ok::<int, Error>(
            sum + acc_total(acc) + v,
        ),
    decreases v, 13 - i,
{
    let s = format_from(v, i, style);
    let bytes = chars_to_bytes(s);
    match acc {
        Some((a, q)) => {
            assert(q * a >= 1) by (nonlinear_arith)
                requires
                    q >= 1,
                    a >= 1,
            ;
        },
        None => {},
    }
    if v <= 0 {
        assert(s =~= Seq::<char>::empty());
        assert(bytes =~= Seq::<u8>::empty());
    } else if v >= entry_value(i) {
        let w = entry_value(i);
        let rest = format_from(v - w, i, style);
        lemma_entry_digits(i, style);
        assert(s == entry_chars(i, style) + rest);
        assert(first_entry(v, i) == i);
        if !is_subtractive(i) {
            // One plain symbol of digit value w.
            let d = w;
            assert(bytes.len() == s.len());
            assert(bytes[0] == s[0] as u8);
            assert(s[0] == entry_chars(i, style)[0]);
            assert(digit_value(bytes[0]) == d);
            assert(is_roman_digit(bytes[0]));
            assert(bytes.drop_first() =~= chars_to_bytes(rest));
            // The run the scan holds when it reaches the rest of the encoding.
            let acc2 = match acc {
                None => Some((d, 1int)),
                Some((a, q)) => if a == d {
                    Some((d, q + 1))
                } else {
                    Some((d, 1int))
                },
            };
            let sum2 = match acc {
                None => sum,
                Some((a, q)) => if a == d {
                    sum
                } else {
                    sum + q * a
                },
            };
            match acc {
                Some((a, q)) => {
                    if a == d {
                        assert((q + 1) * d == q * d + d) by (nonlinear_arith);
                    } else {
                        assert(a > d);
                    }
                },
                None => {},
            }
            assert(scan_units(bytes, acc, sum) == scan_units(bytes.drop_first(), acc2, sum2));
            assert(acc_fits(acc2, v - w, i)) by {
                if v - w > 0 {
                    lemma_first_entry_bounds(v - w, i);
                    lemma_first_digit_below(i, first_entry(v - w, i));
                }
            }
            lemma_scan_format(v - w, i, style, acc2, sum2);
            assert(sum2 + acc_total(acc2) + (v - w) == sum + acc_total(acc) + v);
        } else {
            // A subtractive pair: first digit d1, second digit d1 + w.
            let d1 = entry_first_digit(i);
            match acc {
                Some((a, q)) => {
                    assert(a > d1);
                },
                None => {},
            }
            assert(bytes.len() == s.len());
            assert(bytes[0] == s[0] as u8);
            assert(s[0] == entry_chars(i, style)[0]);
            assert(digit_value(bytes[0]) == d1);
            assert(is_roman_digit(bytes[0]));
            assert(bytes.drop_first().len() == s.len() - 1);
            assert(bytes.drop_first()[0] == s[1] as u8);
            assert(s[1] == entry_chars(i, style)[1]);
            assert(digit_value(bytes.drop_first()[0]) == d1 + w);
            assert(bytes.drop_first().drop_first() =~= chars_to_bytes(rest));
            let sum2 = sum + acc_total(acc);
            // After the first digit the run is exactly (d1, 1); the second
            // digit closes it as a unit worth w and leaves no run.
            assert(scan_units(bytes, acc, sum) == scan_units(
                bytes.drop_first(),
                Some((d1, 1)),
                sum2,
            ));
            assert(scan_units(bytes.drop_first(), Some((d1, 1)), sum2) == scan_units(
                bytes.drop_first().drop_first(),
                None,
                sum2 + w,
            ));
            lemma_scan_format(v - w, i, style, None, sum2 + w);
        }
    } else {
        assert(s == format_from(v, i + 1, style));
        assert(acc_fits(acc, v, i + 1));
        lemma_scan_format(v, i + 1, style, acc, sum);
    }
}

/// Round trip: parsing the formatted numeral of any value in `1..=MAX`, in
/// either style, gives back exactly that value.
pub proof fn lemma_round_trip(v: u16, style: Style)
    requires
        1 <= v <= MAX,
    ensures
        parse_value(chars_to_bytes(format_chars(v as int, style))) == Ok::<u16, Error>(v),
{
    lemma_scan_format(v as int, 0, style, None, 0);
}

/// Every character the formatter emits is ASCII.
pub proof fn lemma_format_ascii(v: int, i: int, style: Style)
    requires
        0 <= v,
        0 <= i <= 13,
    ensures
        is_ascii_chars(format_from(v, i, style)),
    decreases v, 13 - i,
{
    let s = format_from(v, i, style);
    if v <= 0 || i >= 13 {
    } else if v >= entry_value(i) {
        let e = entry_chars(i, style);
        let rest = format_from(v - entry_value(i), i, style);
        lemma_format_ascii(v - entry_value(i), i, style);
        assert forall|k: int| 0 <= k < s.len() implies '\0' <= #[trigger] s[k] <= '\u{7f}' by {
            if k < e.len() {
                assert(s[k] == e[k]);
            } else {
                assert(s[k] == rest[k - e.len()]);
            }
        }
    } else {
        lemma_format_ascii(v, i + 1, style);
    }
}

/// Number of symbols in ladder entry `i`: two for a subtractive pair,
/// otherwise one.
spec fn entry_len(i: int) -> int {
    if is_subtractive(i) {
        2
    } else {
        1
    }
}

/// Length of the greedy encoding of `v` from entry `i`, counted without
/// building it; the same in both styles.
spec fn flen(v: int, i: int) -> int
    decreases 13 - i, v,
{
    if v <= 0 || i < 0 || i >= 13 {
        0
    } else if v >= entry_value(i) {
        entry_len(i) + flen(v - entry_value(i), i)
    } else {
        flen(v, i + 1)
    }
}

/// The encoding and its length count agree, in either style.
proof fn lemma_flen(v: int, i: int, style: Style)
    requires
        0 <= v,
        0 <= i <= 13,
    ensures
        format_from(v, i, style).len() == flen(v, i),
    decreases v, 13 - i,
{
    if v <= 0 || i >= 13 {
    } else if v >= entry_value(i) {
        lemma_entry_digits(i, style);
        lemma_flen(v - entry_value(i), i, style);
    } else {
        lemma_flen(v, i + 1, style);
    }
}

/// Length of the symbols one decimal digit contributes: the same table for
/// the units, tens and hundreds places.
spec fn digit_sym_len(d: int) -> int {
    if d <= 0 {
        0
    } else if d == 1 {
        1  // I
    } else if d == 2 {
        2  // II
    } else if d == 3 {
        3  // III
    } else if d == 4 {
        2  // IV
    } else if d == 5 {
        1  // V
    } else if d == 6 {
        2  // VI
    } else if d == 7 {
        3  // VII
    } else if d == 8 {
        4  // VIII
    } else {
        2  // IX
    }
}

/// Entry values descend along the ladder.
proof fn lemma_entry_value_descending(i: int, j: int)
    requires
        0 <= i <= j < 13,
    ensures
        entry_value(i) >= entry_value(j),
{
}

/// Entries the value does not cover add nothing: the count skips from entry
/// `i` to entry `j` unchanged once the value sits below the last entry
/// passed over.
proof fn lemma_flen_skip_to(v: int, i: int, j: int)
    requires
        0 <= i <= j <= 13,
        i < j ==> v < entry_value(j - 1),
    ensures
        flen(v, i) == flen(v, j),
    decreases j - i,
{
    if i < j {
        lemma_entry_value_descending(i, j - 1);
        assert(flen(v, i) == flen(v, i + 1));
        lemma_flen_skip_to(v, i + 1, j);
    }
}

/// From the bottom entry the encoding is a run of `I`: one symbol per unit.
proof fn lemma_flen_ones(v: int)
    requires
        0 <= v,
    ensures
        flen(v, 12) == v,
    decreases v,
{
    if v > 0 {
        lemma_flen_ones(v - 1);
    }
}

/// The units place: the encoding of `0..=9` from entry `IX` has exactly the
/// tabled length.
proof fn lemma_flen_units(v: int)
    requires
        0 <= v <= 9,
    ensures
        flen(v, 9) == digit_sym_len(v),
{
    if v == 9 {
        lemma_flen_skip_to(0, 9, 13);
    } else if v >= 5 {
        lemma_flen_skip_to(v, 9, 10);
        lemma_flen_skip_to(v - 5, 10, 12);
        lemma_flen_ones(v - 5);
    } else if v == 4 {
        lemma_flen_skip_to(4, 9, 11);
        lemma_flen_skip_to(0, 11, 13);
    } else {
        lemma_flen_skip_to(v, 9, 12);
        lemma_flen_ones(v);
    }
}

/// The tens place joins in: the encoding of `0..=99` from entry `XC` is the
/// tens digit's length plus the units digit's length.
proof fn lemma_flen_tens(v: int)
    requires
        0 <= v <= 99,
    ensures
        flen(v, 5) == digit_sym_len(v / 10) + digit_sym_len(v % 10),
    decreases v,
{
    if v >= 90 {
        lemma_flen_skip_to(v - 90, 5, 9);
        lemma_flen_units(v - 90);
        assert(v / 10 == 9 && v % 10 == v - 90) by (nonlinear_arith)
            requires
                90 <= v <= 99,
        ;
    } else if v >= 50 {
        lemma_flen_skip_to(v, 5, 6);
        lemma_flen_skip_to(v - 50, 5, 6);
        lemma_flen_tens(v - 50);
        assert((v - 50) / 10 == v / 10 - 5 && (v - 50) % 10 == v % 10) by (nonlinear_arith)
            requires
                50 <= v <= 99,
        ;
    } else if v >= 40 {
        lemma_flen_skip_to(v, 5, 7);
        lemma_flen_skip_to(v - 40, 7, 9);
        lemma_flen_units(v - 40);
        assert(v / 10 == 4 && v % 10 == v - 40) by (nonlinear_arith)
            requires
                40 <= v <= 49,
        ;
    } else if v >= 10 {
        lemma_flen_skip_to(v, 5, 8);
        lemma_flen_skip_to(v - 10, 5, 8);
        lemma_flen_tens(v - 10);
        assert((v - 10) / 10 == v / 10 - 1 && (v - 10) % 10 == v % 10) by (nonlinear_arith)
            requires
                10 <= v <= 39,
        ;
    } else {
        lemma_flen_skip_to(v, 5, 9);
        lemma_flen_units(v);
        assert(v / 10 == 0 && v % 10 == v) by (nonlinear_arith)
            requires
                0 <= v <= 9,
        ;
    }
}

/// The hundreds place joins in: the encoding of `0..=999` from entry `CM` is
/// the sum of the three digits' lengths.
proof fn lemma_flen_hundreds(v: int)
    requires
        0 <= v <= 999,
    ensures
        flen(v, 1) == digit_sym_len(v / 100) + digit_sym_len((v % 100) / 10) + digit_sym_len(
            v % 10,
        ),
    decreases v,
{
    if v >= 900 {
        lemma_flen_skip_to(v - 900, 1, 5);
        lemma_flen_tens(v - 900);
        assert(v / 100 == 9 && v % 100 == v - 900 && (v - 900) % 10 == v % 10)
            by (nonlinear_arith)
            requires
                900 <= v <= 999,
        ;
    } else if v >= 500 {
        lemma_flen_skip_to(v, 1, 2);
        lemma_flen_skip_to(v - 500, 1, 2);
        lemma_flen_hundreds(v - 500);
        assert((v - 500) / 100 == v / 100 - 5 && (v - 500) % 100 == v % 100 && (v - 500) % 10 == v
            % 10) by (nonlinear_arith)
            requires
                500 <= v <= 999,
        ;
    } else if v >= 400 {
        lemma_flen_skip_to(v, 1, 3);
        lemma_flen_skip_to(v - 400, 3, 5);
        lemma_flen_tens(v - 400);
        assert(v / 100 == 4 && v % 100 == v - 400 && (v - 400) % 10 == v % 10)
            by (nonlinear_arith)
            requires
                400 <= v <= 499,
        ;
    } else if v >= 100 {
        lemma_flen_skip_to(v, 1, 4);
        lemma_flen_skip_to(v - 100, 1, 4);
        lemma_flen_hundreds(v - 100);
        assert((v - 100) / 100 == v / 100 - 1 && (v - 100) % 100 == v % 100 && (v - 100) % 10 == v
            % 10) by (nonlinear_arith)
            requires
                100 <= v <= 399,
        ;
    } else {
        lemma_flen_skip_to(v, 1, 5);
        lemma_flen_tens(v);
        assert(v / 100 == 0 && v % 100 == v) by (nonlinear_arith)
            requires
                0 <= v <= 99,
        ;
    }
}

/// The full closed form: the encoding of any value is one `M` per thousand
/// followed by the three lower digits' symbols.
proof fn lemma_flen_digits(v: int)
    requires
        0 <= v,
    ensures
        flen(v, 0) == v / 1000 + digit_sym_len((v % 1000) / 100) + digit_sym_len((v % 100) / 10)
            + digit_sym_len(v % 10),
    decreases v,
{
    if v >= 1000 {
        lemma_flen_digits(v - 1000);
        assert((v - 1000) / 1000 == v / 1000 - 1 && (v - 1000) % 1000 == v % 1000 && (v - 1000)
            % 100 == v % 100 && (v - 1000) % 10 == v % 10) by (nonlinear_arith)
            requires
                v >= 1000,
        ;
    } else {
        lemma_flen_skip_to(v, 0, 1);
        lemma_flen_hundreds(v);
        assert(v / 1000 == 0 && v % 1000 == v) by (nonlinear_arith)
            requires
                0 <= v <= 999,
        ;
    }
}

/// Canonical-length bound: in either style, the numeral for any value in
/// `1..=MAX` other than 4888 is at most 15 symbols long. The one value left
/// out needs 16: every decimal digit of 4888 takes its longest symbol run.
pub proof fn lemma_format_len(v: u16, style: Style)
    requires
        1 <= v <= MAX,
        v != 4888,
    ensures
        format_chars(v as int, style).len() <= 15,
{
    let vi = v as int;
    lemma_flen(vi, 0, style);
    lemma_flen_digits(vi);
    let m = vi / 1000;
    let h = (vi % 1000) / 100;
    let t = (vi % 100) / 10;
    let u = vi % 10;
    assert(0 <= m <= 4 && 0 <= h <= 9 && 0 <= t <= 9 && 0 <= u <= 9 && vi == m * 1000 + h * 100 + t
        * 10 + u) by (nonlinear_arith)
        requires
            1 <= vi <= 4999,
            m == vi / 1000,
            h == (vi % 1000) / 100,
            t == (vi % 100) / 10,
            u == vi % 10,
    ;
    if flen(vi, 0) > 15 {
        assert(m == 4 && digit_sym_len(h) == 4 && digit_sym_len(t) == 4 && digit_sym_len(u) == 4);
        assert(h == 8 && t == 8 && u == 8);
        assert(vi == 4888);
    }
}

/// Round trip at the string level: a string that reads as the formatted
/// numeral of a value in `1..=MAX` parses back to exactly that value.
pub proof fn lemma_format_then_parse(s: &str, v: u16, style: Style)
    requires
        1 <= v <= MAX,
        s@ == format_chars(v as int, style),
    ensures
        parse_value(s.spec_bytes()) == Ok::<u16, Error>(v),
{
    lemma_format_ascii(v as int, 0, style);
    vstd::string::is_ascii_spec_bytes(s);
    assert(s.spec_bytes() =~= chars_to_bytes(s@));
    lemma_round_trip(v, style);
}

/// ASCII uppercase image of a byte.
pub open spec fn upper_byte(b: u8) -> u8 {
    if 97 <= b <= 122 {  // 'a' ..= 'z'
        (b - 32) as u8
    } else {
        b
    }
}

/// ASCII lowercase image of a byte.
pub open spec fn lower_byte(b: u8) -> u8 {
    if 65 <= b <= 90 {  // 'A' ..= 'Z'
        (b + 32) as u8
    } else {
        b
    }
}

/// ASCII uppercase image of a byte sequence.
pub open spec fn upper_bytes(s: Seq<u8>) -> Seq<u8> {
    s.map_values(|b: u8| upper_byte(b))
}

/// ASCII lowercase image of a byte sequence.
pub open spec fn lower_bytes(s: Seq<u8>) -> Seq<u8> {
    s.map_values(|b: u8| lower_byte(b))
}

/// The unit scan only reads bytes through their digit values, so two inputs
/// whose bytes are digits of equal value scan alike from any state.
proof fn lemma_scan_digitwise(s: Seq<u8>, t: Seq<u8>, acc: Option<(int, int)>, sum: int)
    requires
        s.len() == t.len(),
        forall|i: int|
            0 <= i < s.len() ==> digit_value(t[i]) == digit_value(#[trigger] s[i])
                && is_roman_digit(s[i]),
    ensures
        scan_units(t, acc, sum) == scan_units(s, acc, sum),
    decreases s.len(),
{
    if s.len() > 0 {
        let d = digit_value(s[0]);
        assert(digit_value(t[0]) == d && is_roman_digit(s[0]));
        assert forall|i: int| 0 <= i < s.drop_first().len() implies digit_value(
            t.drop_first()[i],
        ) == digit_value(#[trigger] s.drop_first()[i]) && is_roman_digit(s.drop_first()[i]) by {
            assert(s.drop_first()[i] == s[i + 1]);
            assert(t.drop_first()[i] == t[i + 1]);
        }
        match acc {
            None => {
                lemma_scan_digitwise(s.drop_first(), t.drop_first(), Some((d, 1)), sum);
            },
            Some((v, q)) => {
                if d == v {
                    lemma_scan_digitwise(s.drop_first(), t.drop_first(), Some((v, q + 1)), sum);
                } else if d > v {
                    if q * v <= d && sum + (d - q * v) <= u16::MAX {
                        lemma_scan_digitwise(s.drop_first(), t.drop_first(), None, sum + (d - q
                            * v));
                    }
                } else {
                    if q * v <= u16::MAX && sum + q * v <= u16::MAX {
                        lemma_scan_digitwise(
                            s.drop_first(),
                            t.drop_first(),
                            Some((d, 1)),
                            sum + q * v,
                        );
                    }
                }
            },
        }
    }
}

/// `n` copies of one byte.
pub open spec fn repeated(b: u8, n: nat) -> Seq<u8> {
    Seq::new(n, |i: int| b)
}

/// A run of equal digits is absorbed whole into the active run.
proof fn lemma_equal_run_absorbed(b: u8, n: nat, q: int, sum: int)
    requires
        is_roman_digit(b),
        q >= 1,
    ensures
        scan_units(repeated(b, n), Some((digit_value(b), q)), sum) == scan_units(
            Seq::<u8>::empty(),
            Some((digit_value(b), q + n)),
            sum,
        ),
    decreases n,
{
    if n > 0 {
        assert(repeated(b, n)[0] == b);
        assert(repeated(b, n).drop_first() =~= repeated(b, (n - 1) as nat));
        lemma_equal_run_absorbed(b, (n - 1) as nat, q + 1, sum);
    } else {
        assert(repeated(b, 0) =~= Seq::<u8>::empty());
    }
}

/// A long enough run of the largest symbol overflows: 66 or more `M` make a
/// single unit beyond the width of a `u16`.
pub proof fn lemma_long_m_run_overflows(n: nat)
    requires
        66 <= n,
    ensures
        parse_value(repeated(77, n)) == Err::<u16, Error>(Error::Overflow),
{
    assert(repeated(77, n)[0] == 77);
    assert(repeated(77, n).drop_first() =~= repeated(77, (n - 1) as nat));
    lemma_equal_run_absorbed(77, (n - 1) as nat, 1, 0);
    assert(1 + (n - 1) == n as int);
    assert(n * 1000 > 65535) by (nonlinear_arith)
        requires
            n >= 66,
    ;
}

/// Case insensitivity: parsing a numeral — a string of Roman digits in any
/// mix of cases — and parsing its ASCII uppercase or lowercase image give
/// the same result: the same value, or the same error.
pub proof fn lemma_parse_case_insensitive(s: Seq<u8>)
    requires
        forall|i: int| 0 <= i < s.len() ==> is_roman_digit(#[trigger] s[i]),
    ensures
        parse_value(upper_bytes(s)) == parse_value(s),
        parse_value(lower_bytes(s)) == parse_value(s),
{
    assert forall|i: int| 0 <= i < s.len() implies digit_value(upper_bytes(s)[i]) == digit_value(
        #[trigger] s[i],
    ) && is_roman_digit(s[i]) by {
        assert(upper_bytes(s)[i] == upper_byte(s[i]));
    }
    assert forall|i: int| 0 <= i < s.len() implies digit_value(lower_bytes(s)[i]) == digit_value(
        #[trigger] s[i],
    ) && is_roman_digit(s[i]) by {
        assert(lower_bytes(s)[i] == lower_byte(s[i]));
    }
    lemma_scan_digitwise(s, upper_bytes(s), None, 0);
    lemma_scan_digitwise(s, lower_bytes(s), None, 0);
}

} // verus!
