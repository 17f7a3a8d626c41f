use crate::error::Error;
use vstd::prelude::*;
use vstd::string::StringSliceAdditionalSpecFns;

verus! {

/// Numeric value of one Roman digit byte, upper- or lowercase;
/// 0 for any byte that is not a Roman digit.
pub open spec fn digit_value(b: u8) -> int {
    if b == 77 || b == 109 {
        1000  // 'M' / 'm'
    } else if b == 68 || b == 100 {
        500  // 'D' / 'd'
    } else if b == 67 || b == 99 {
        100  // 'C' / 'c'
    } else if b == 76 || b == 108 {
        50  // 'L' / 'l'
    } else if b == 88 || b == 120 {
        10  // 'X' / 'x'
    } else if b == 86 || b == 118 {
        5  // 'V' / 'v'
    } else if b == 73 || b == 105 {
        1  // 'I' / 'i'
    } else {
        0
    }
}

/// Whether a byte is one of the seven Roman digits, in either case.
pub open spec fn is_roman_digit(b: u8) -> bool {
    digit_value(b) > 0
}

/// One left-to-right pass of the unit accumulator over `s`, starting from an
/// optional active run `acc` — the pair (digit value, repeat count) — and a
/// running sum.
///
/// A digit equal in value to the active run extends the run; a strictly
/// larger digit closes the run as a subtractive unit worth the digit minus
/// the whole run; a strictly smaller digit closes the run as repeat count
/// times digit value and starts a new run; the end of input flushes the run
/// the same way. Every completed unit is added to the running sum, and any
/// unit or sum that would not fit in a `u16` stops the scan with `Overflow`.
/// A byte that is not a Roman digit stops the scan with `InvalidDigit`.
pub open spec fn scan_units(s: Seq<u8>, acc: Option<(int, int)>, sum: int) -> Result<int, Error>
    decreases s.len(),
{
    if s.len() == 0 {
        match acc {
            None => Ok(sum),
            Some((v, q)) => {
                if q * v > u16::MAX {
                    Err(Error::Overflow)
                } else if sum + q * v > u16::MAX {
                    Err(Error::Overflow)
                } else {
                    Ok(sum + q * v)
                }
            },
        }
    } else {
        let b = s[0];
        if !is_roman_digit(b) {
            Err(Error::InvalidDigit(b))
        } else {
            let d = digit_value(b);
            match acc {
                None => scan_units(s.drop_first(), Some((d, 1)), sum),
                Some((v, q)) => {
                    if d == v {
                        scan_units(s.drop_first(), Some((v, q + 1)), sum)
                    } else if d > v {
                        if q * v > d {
                            Err(Error::Overflow)
                        } else if sum + (d - q * v) > u16::MAX {
                            Err(Error::Overflow)
                        } else {
                            scan_units(s.drop_first(), None, sum + (d - q * v))
                        }
                    } else {
                        if q * v > u16::MAX {
                            Err(Error::Overflow)
                        } else if sum + q * v > u16::MAX {
                            Err(Error::Overflow)
                        } else {
                            scan_units(s.drop_first(), Some((d, 1)), sum + q * v)
                        }
                    }
                },
            }
        }
    }
}

/// The next completed unit of the scan, given the unconsumed bytes `s` and
/// the active run `acc`: the outcome of one [`RomanUnitIterator::next`] call,
/// the bytes left unconsumed after it, and the run left active.
///
/// Digits are consumed for as long as they extend the run; the call returns
/// at the first completed unit, at the first failure, or at the end of the
/// input:
/// - a digit strictly greater than the run's closes it as a subtractive
///   unit — the digit minus the whole run — leaving no run active;
/// - a digit strictly smaller closes it as repeat count times digit value
///   and stays active as a run of one;
/// - the end of the input flushes the run as repeat count times digit value;
/// - a byte that is not a Roman digit is consumed and reported as
///   `InvalidDigit`, the run kept, so a later call goes on behind it;
/// - a unit that does not fit in a `u16` is reported as `Overflow`.
pub open spec fn next_unit(s: Seq<u8>, acc: Option<(int, int)>) -> (
    Option<Result<int, Error>>,
    Seq<u8>,
    Option<(int, int)>,
)
    decreases s.len(),
{
    if s.len() == 0 {
        match acc {
            None => (None, s, None),
            Some((v, q)) => {
                if q * v > u16::MAX {
                    (Some(Err(Error::Overflow)), s, None)
                } else {
                    (Some(Ok(q * v)), s, None)
                }
            },
        }
    } else {
        let b = s[0];
        if !is_roman_digit(b) {
            (Some(Err(Error::InvalidDigit(b))), s.drop_first(), acc)
        } else {
            let d = digit_value(b);
            match acc {
                None => next_unit(s.drop_first(), Some((d, 1))),
                Some((v, q)) => {
                    if d == v {
                        next_unit(s.drop_first(), Some((v, q + 1)))
                    } else if d > v {
                        if q * v > d {
                            (Some(Err(Error::Overflow)), s.drop_first(), acc)
                        } else {
                            (Some(Ok(d - q * v)), s.drop_first(), None)
                        }
                    } else {
                        if q * v > u16::MAX {
                            (Some(Err(Error::Overflow)), s.drop_first(), acc)
                        } else {
                            (Some(Ok(q * v)), s.drop_first(), Some((d, 1)))
                        }
                    }
                },
            }
        }
    }
}

/// One protocol step advances the scan by exactly the unit it yields: a
/// completed unit is added to the running sum, or overflows it; an error is
/// the scan's verdict whatever the sum; no step means the scan is complete
/// at the sum.
pub proof fn lemma_next_unit_scan(s: Seq<u8>, acc: Option<(int, int)>, sum: int)
    requires
        0 <= sum <= u16::MAX,
    ensures
        ({
            let (out, rest, run) = next_unit(s, acc);
            match out {
                None => scan_units(s, acc, sum) == Ok::<int, Error>(sum),
                Some(step) => match step {
                    Ok(u) => scan_units(s, acc, sum) == (if sum + u <= u16::MAX {
                        scan_units(rest, run, sum + u)
                    } else {
                        Err(Error::Overflow)
                    }),
                    Err(e) => scan_units(s, acc, sum) == Err::<int, Error>(e),
                },
            }
        }),
    decreases s.len(),
{
    if s.len() > 0 {
        let b = s[0];
        if is_roman_digit(b) {
            let d = digit_value(b);
            match acc {
                None => {
                    lemma_next_unit_scan(s.drop_first(), Some((d, 1)), sum);
                },
                Some((v, q)) => {
                    if d == v {
                        lemma_next_unit_scan(s.drop_first(), Some((v, q + 1)), sum);
                    }
                },
            }
        }
    }
}

/// One active run of equal-valued digits: `val` is the digit value and `qty`
/// how many times in a row it has appeared. The value of the completed run is
/// the product of the two.
#[derive(Clone, Copy)]
struct Accumulator {
    qty: usize,
    val: u16,
}

/// The result of pushing one more digit onto an accumulator.
///
/// A digit of the same value extends the run, so the result is partial: the
/// run could go on indefinitely (`I`, `II`, `III` and so forth are all valid
/// runs). A digit of a different value closes the run, yielding a completed
/// unit and, for a strictly smaller digit, the run it starts. A run whose
/// value cannot be represented in a `u16` yields `Overflow` instead.
enum PushResult {
    Partial(Accumulator),
    Complete(u16, Option<Accumulator>),
    Overflow,
}

impl Accumulator {
    fn new(val: u16) -> (r: Accumulator)
        ensures
            r.val == val,
            r.qty == 1,
    {
        Accumulator { qty: 1, val }
    }

    /// Total value of the run, if it fits in a `u16`.
    fn value(&self) -> (r: Option<u16>)
        ensures
            self.qty * self.val <= u16::MAX ==> r == Some::<u16>((self.qty * self.val) as u16),
            self.qty * self.val > u16::MAX ==> r is None,
    {
        proof {
            let q = self.qty as int;
            let v = self.val as int;
            assert(q * v <= 0xFFFF_FFFF_FFFF_FFFF * 0xFFFF) by (nonlinear_arith)
                requires
                    0 <= q <= 0xFFFF_FFFF_FFFF_FFFF,
                    0 <= v <= 0xFFFF,
            ;
        }
        let product = (self.qty as u128) * (self.val as u128);
        if product <= u16::MAX as u128 {
            Some(product as u16)
        } else {
            None
        }
    }

    fn push(self, val: u16) -> (r: PushResult)
        requires
            self.qty < usize::MAX,
        ensures
            ({
                let v = self.val as int;
                let q = self.qty as int;
                let d = val as int;
                match r {
                    PushResult::Partial(a) => d == v && a.val == self.val && a.qty == self.qty + 1,
                    PushResult::Complete(n, rest) => {
                        if d > v {
                            q * v <= d && n == d - q * v && rest is None
                        } else {
                            d < v && q * v <= u16::MAX && n == q * v
                                && (rest matches Some(a) && a.val == val && a.qty == 1)
                        }
                    },
                    PushResult::Overflow => (d > v && q * v > d) || (d < v && q * v > u16::MAX),
                }
            }),
    {
        if val == self.val {
            PushResult::Partial(Accumulator { qty: self.qty + 1, val: self.val })
        } else if self.val < val {
            match self.value() {
                Some(n) => {
                    if n <= val {
                        PushResult::Complete(val - n, None)
                    } else {
                        PushResult::Overflow
                    }
                },
                None => PushResult::Overflow,
            }
        } else {
            match self.value() {
                Some(n) => PushResult::Complete(n, Some(Accumulator::new(val))),
                None => PushResult::Overflow,
            }
        }
    }
}

/// Looks up the numeric value of one numeral byte, case-insensitively.
pub fn to_digit(u: u8) -> (r: Result<u16, Error>)
    ensures
        is_roman_digit(u) ==> r == Ok::<u16, Error>(digit_value(u) as u16),
        !is_roman_digit(u) ==> r == Err::<u16, Error>(Error::InvalidDigit(u)),
{
    match u {
        77 | 109 => Ok(1000),  // 'M' / 'm'
        68 | 100 => Ok(500),   // 'D' / 'd'
        67 | 99 => Ok(100),    // 'C' / 'c'
        76 | 108 => Ok(50),    // 'L' / 'l'
        88 | 120 => Ok(10),    // 'X' / 'x'
        86 | 118 => Ok(5),     // 'V' / 'v'
        73 | 105 => Ok(1),     // 'I' / 'i'
        _ => Err(Error::InvalidDigit(u)),
    }
}

/// Iterates the units of a Roman numeral, left to right.
///
/// A unit is a maximal run of one digit, or such a run closed by a strictly
/// larger digit, in which case the run is subtracted from that digit as one
/// block. `IX` is one unit worth 9; `XII` is two units worth 10 and 2.
/// Scanning units this way values a numeral in a single pass.
pub struct RomanUnitIterator<'a> {
    bytes: &'a [u8],
    pos: usize,
    acc: Option<Accumulator>,
}

impl<'a> RomanUnitIterator<'a> {
    /// The bytes not yet consumed.
    pub closed spec fn remaining(self) -> Seq<u8> {
        self.bytes@.skip(self.pos as int)
    }

    /// The active run, as the pair (digit value, repeat count).
    pub closed spec fn active(self) -> Option<(int, int)> {
        match self.acc {
            None => None,
            Some(a) => Some((a.val as int, a.qty as int)),
        }
    }

    /// Internal consistency: the position stays inside the input and a run
    /// never holds more repeats than there are consumed bytes.
    pub closed spec fn wf(self) -> bool {
        &&& self.pos <= self.bytes@.len()
        &&& (self.acc matches Some(a) ==> 1 <= a.qty <= self.pos)
    }

    /// Upper bound on the work left: strictly decreases with every unit the
    /// iterator yields.
    pub closed spec fn measure(self) -> nat {
        2 * self.remaining().len() + (if self.active() is Some {
            1nat
        } else {
            0nat
        })
    }

    /// Starts iterating the units of `s`.
    pub fn new(s: &'a str) -> (it: RomanUnitIterator<'a>)
        ensures
            it.wf(),
            it.remaining() == s.spec_bytes(),
            it.active() is None,
    {
        let it = RomanUnitIterator { bytes: s.as_bytes(), pos: 0, acc: None };
        proof {
            assert(it.bytes@.skip(0) =~= it.bytes@);
        }
        it
    }

    /// Yields the next completed unit, `None` at the end of the input, or
    /// the error that stops the summation: `InvalidDigit` for a byte that is
    /// not a Roman digit, `Overflow` for a unit that does not fit in a `u16`.
    ///
    /// The postcondition is the unit protocol itself: the returned outcome,
    /// the bytes left unconsumed and the run left active are exactly
    /// [`next_unit`] of the state before the call, and every yielded outcome
    /// shrinks the iterator's measure. An invalid byte is consumed with its
    /// error, so a later call scans on behind it.
    pub fn next(&mut self) -> (r: Option<Result<u16, Error>>)
        requires
            old(self).wf(),
        ensures
            final(self).wf(),
            ({
                let (out, rest, run) = next_unit(old(self).remaining(), old(self).active());
                match r {
                    None => {
                        &&& out is None
                        &&& old(self).remaining().len() == 0
                        &&& old(self).active() is None
                        &&& final(self).remaining() == rest
                        &&& final(self).active() == run
                    },
                    Some(step) => {
                        &&& match step {
                            Ok(u) => out == Some(Ok::<int, Error>(u as int)),
                            Err(e) => out == Some(Err::<int, Error>(e)),
                        }
                        &&& final(self).remaining() == rest
                        &&& final(self).active() == run
                        &&& final(self).measure() < old(self).measure()
                    },
                }
            }),
    {
        loop
            invariant
                self.wf(),
                self.measure() <= old(self).measure(),
                self.active() is None ==> (self.remaining() == old(self).remaining() && old(
                    self,
                ).active() is None),
                next_unit(old(self).remaining(), old(self).active()) == next_unit(
                    self.remaining(),
                    self.active(),
                ),
            decreases self.remaining().len(),
        {
            let ghost pre = *self;
            if self.pos == self.bytes.len() {
                match self.acc {
                    None => {
                        return None;
                    },
                    Some(a) => {
                        let out = a.value();
                        self.acc = None;
                        proof {
                            assert(pre.remaining().len() == 0);
                        }
                        match out {
                            Some(u) => {
                                return Some(Ok(u));
                            },
                            None => {
                                return Some(Err(Error::Overflow));
                            },
                        }
                    },
                }
            }
            let b = self.bytes[self.pos];
            self.pos = self.pos + 1;
            proof {
                assert(pre.remaining()[0] == b);
                assert(pre.remaining().drop_first() =~= self.remaining());
            }
            let d = match to_digit(b) {
                Ok(d) => d,
                Err(e) => {
                    return Some(Err(e));
                },
            };
            match self.acc {
                None => {
                    self.acc = Some(Accumulator::new(d));
                },
                Some(a) => {
                    match a.push(d) {
                        PushResult::Partial(a2) => {
                            self.acc = Some(a2);
                        },
                        PushResult::Complete(n, rest) => {
                            self.acc = rest;
                            return Some(Ok(n));
                        },
                        PushResult::Overflow => {
                            return Some(Err(Error::Overflow));
                        },
                    }
                },
            }
        }
    }
}

} // verus!
