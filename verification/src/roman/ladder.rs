use crate::roman::Style;
use vstd::prelude::*;

verus! {

/// Value of the ladder entry at index `i`. The thirteen entries descend
/// strictly: the seven plain symbols interleaved with the six subtractive
/// pairs.
pub open spec fn entry_value(i: int) -> int {
    if i == 0 {
        1000  // M
    } else if i == 1 {
        900  // CM
    } else if i == 2 {
        500  // D
    } else if i == 3 {
        400  // CD
    } else if i == 4 {
        100  // C
    } else if i == 5 {
        90  // XC
    } else if i == 6 {
        50  // L
    } else if i == 7 {
        40  // XL
    } else if i == 8 {
        10  // X
    } else if i == 9 {
        9  // IX
    } else if i == 10 {
        5  // V
    } else if i == 11 {
        4  // IV
    } else {
        1  // I
    }
}

/// The symbol of the ladder entry at index `i`, in the given style.
pub open spec fn entry_chars(i: int, style: Style) -> Seq<char> {
    match style {
        Style::Upper => {
            if i == 0 {
                seq!['M']
            } else if i == 1 {
                seq!['C', 'M']
            } else if i == 2 {
                seq!['D']
            } else if i == 3 {
                seq!['C', 'D']
            } else if i == 4 {
                seq!['C']
            } else if i == 5 {
                seq!['X', 'C']
            } else if i == 6 {
                seq!['L']
            } else if i == 7 {
                seq!['X', 'L']
            } else if i == 8 {
                seq!['X']
            } else if i == 9 {
                seq!['I', 'X']
            } else if i == 10 {
                seq!['V']
            } else if i == 11 {
                seq!['I', 'V']
            } else {
                seq!['I']
            }
        },
        Style::Lower => {
            if i == 0 {
                seq!['m']
            } else if i == 1 {
                seq!['c', 'm']
            } else if i == 2 {
                seq!['d']
            } else if i == 3 {
                seq!['c', 'd']
            } else if i == 4 {
                seq!['c']
            } else if i == 5 {
                seq!['x', 'c']
            } else if i == 6 {
                seq!['l']
            } else if i == 7 {
                seq!['x', 'l']
            } else if i == 8 {
                seq!['x']
            } else if i == 9 {
                seq!['i', 'x']
            } else if i == 10 {
                seq!['v']
            } else if i == 11 {
                seq!['i', 'v']
            } else {
                seq!['i']
            }
        },
    }
}

/// Greedy encoding of `v`, scanning the ladder from entry `i` down: while
/// the remainder covers an entry's value, the entry's symbol is emitted and
/// its value subtracted. Non-positive remainders and exhausted ladders emit
/// nothing.
pub open spec fn format_from(v: int, i: int, style: Style) -> Seq<char>
    decreases 13 - i, v,
{
    if v <= 0 || i < 0 || i >= 13 {
        Seq::empty()
    } else if v >= entry_value(i) {
        entry_chars(i, style) + format_from(v - entry_value(i), i, style)
    } else {
        format_from(v, i + 1, style)
    }
}

/// The Roman numeral for `v` in the given style: the greedy ladder encoding
/// from the top.
pub open spec fn format_chars(v: int, style: Style) -> Seq<char> {
    format_from(v, 0, style)
}

/// One entry of the encoding ladder: a symbol in both cases and its value.
#[derive(Clone, Copy, Debug)]
pub struct LadderEntry {
    pub upper: &'static str,
    pub lower: &'static str,
    pub value: u16,
}

/// Whether `e` is the ladder entry at index `i`.
pub open spec fn entry_matches(e: LadderEntry, i: int) -> bool {
    &&& e.value == entry_value(i)
    &&& e.upper@ == entry_chars(i, Style::Upper)
    &&& e.lower@ == entry_chars(i, Style::Lower)
}

/// Whether `s` is the full ladder, top to bottom.
pub open spec fn ladder_entries(s: Seq<LadderEntry>) -> bool {
    &&& s.len() == 13
    &&& forall|i: int| 0 <= i < 13 ==> #[trigger] entry_matches(s[i], i)
}

/// Builds the encoding ladder, strictly descending by value.
pub fn ladder() -> (entries: Vec<LadderEntry>)
    ensures
        ladder_entries(entries@),
{
    let mut v: Vec<LadderEntry> = Vec::new();
    v.push(LadderEntry { upper: "M", lower: "m", value: 1000 });
    v.push(LadderEntry { upper: "CM", lower: "cm", value: 900 });
    v.push(LadderEntry { upper: "D", lower: "d", value: 500 });
    v.push(LadderEntry { upper: "CD", lower: "cd", value: 400 });
    v.push(LadderEntry { upper: "C", lower: "c", value: 100 });
    v.push(LadderEntry { upper: "XC", lower: "xc", value: 90 });
    v.push(LadderEntry { upper: "L", lower: "l", value: 50 });
    v.push(LadderEntry { upper: "XL", lower: "xl", value: 40 });
    v.push(LadderEntry { upper: "X", lower: "x", value: 10 });
    v.push(LadderEntry { upper: "IX", lower: "ix", value: 9 });
    v.push(LadderEntry { upper: "V", lower: "v", value: 5 });
    v.push(LadderEntry { upper: "IV", lower: "iv", value: 4 });
    v.push(LadderEntry { upper: "I", lower: "i", value: 1 });
    proof {
        reveal_strlit("M");
        reveal_strlit("m");
        reveal_strlit("CM");
        reveal_strlit("cm");
        reveal_strlit("D");
        reveal_strlit("d");
        reveal_strlit("CD");
        reveal_strlit("cd");
        reveal_strlit("C");
        reveal_strlit("c");
        reveal_strlit("XC");
        reveal_strlit("xc");
        reveal_strlit("L");
        reveal_strlit("l");
        reveal_strlit("XL");
        reveal_strlit("xl");
        reveal_strlit("X");
        reveal_strlit("x");
        reveal_strlit("IX");
        reveal_strlit("ix");
        reveal_strlit("V");
        reveal_strlit("v");
        reveal_strlit("IV");
        reveal_strlit("iv");
        reveal_strlit("I");
        reveal_strlit("i");
        assert forall|i: int| 0 <= i < 13 implies entry_matches(v@[i], i) by {
            if i == 0 {
                assert(v@[0].upper@ =~= entry_chars(0, Style::Upper));
                assert(v@[0].lower@ =~= entry_chars(0, Style::Lower));
            } else if i == 1 {
                assert(v@[1].upper@ =~= entry_chars(1, Style::Upper));
                assert(v@[1].lower@ =~= entry_chars(1, Style::Lower));
            } else if i == 2 {
                assert(v@[2].upper@ =~= entry_chars(2, Style::Upper));
                assert(v@[2].lower@ =~= entry_chars(2, Style::Lower));
            } else if i == 3 {
                assert(v@[3].upper@ =~= entry_chars(3, Style::Upper));
                assert(v@[3].lower@ =~= entry_chars(3, Style::Lower));
            } else if i == 4 {
                assert(v@[4].upper@ =~= entry_chars(4, Style::Upper));
                assert(v@[4].lower@ =~= entry_chars(4, Style::Lower));
            } else if i == 5 {
                assert(v@[5].upper@ =~= entry_chars(5, Style::Upper));
                assert(v@[5].lower@ =~= entry_chars(5, Style::Lower));
            } else if i == 6 {
                assert(v@[6].upper@ =~= entry_chars(6, Style::Upper));
                assert(v@[6].lower@ =~= entry_chars(6, Style::Lower));
            } else if i == 7 {
                assert(v@[7].upper@ =~= entry_chars(7, Style::Upper));
                assert(v@[7].lower@ =~= entry_chars(7, Style::Lower));
            } else if i == 8 {
                assert(v@[8].upper@ =~= entry_chars(8, Style::Upper));
                assert(v@[8].lower@ =~= entry_chars(8, Style::Lower));
            } else if i == 9 {
                assert(v@[9].upper@ =~= entry_chars(9, Style::Upper));
                assert(v@[9].lower@ =~= entry_chars(9, Style::Lower));
            } else if i == 10 {
                assert(v@[10].upper@ =~= entry_chars(10, Style::Upper));
                assert(v@[10].lower@ =~= entry_chars(10, Style::Lower));
            } else if i == 11 {
                assert(v@[11].upper@ =~= entry_chars(11, Style::Upper));
                assert(v@[11].lower@ =~= entry_chars(11, Style::Lower));
            } else {
                assert(v@[12].upper@ =~= entry_chars(12, Style::Upper));
                assert(v@[12].lower@ =~= entry_chars(12, Style::Lower));
            }
        }
    }
    v
}

} // verus!
