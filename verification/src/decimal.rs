//! Fixed-point decimal values: the grammar `"-"? digit? digit "." digit`,
//! parsed without floating-point conversion into the value times ten.

use vstd::prelude::*;

use crate::PipelineError;

verus! {

/// ASCII `'-'`.
pub const MINUS: u8 = 45;

/// ASCII `'.'`.
pub const DOT: u8 = 46;

/// ASCII `'0'`.
pub const DIGIT_ZERO: u8 = 48;

pub open spec fn is_digit(b: u8) -> bool {
    DIGIT_ZERO <= b <= DIGIT_ZERO + 9
}

pub open spec fn digit_val(b: u8) -> int {
    b - DIGIT_ZERO
}

/// The unsigned part of the value grammar: `digit "." digit` or
/// `digit digit "." digit`.
pub open spec fn is_unsigned_numeral(s: Seq<u8>) -> bool {
    ||| (s.len() == 3 && is_digit(s[0]) && s[1] == DOT && is_digit(s[2]))
    ||| (s.len() == 4 && is_digit(s[0]) && is_digit(s[1]) && s[2] == DOT && is_digit(s[3]))
}

/// The integer obtained by reading the digits of an unsigned numeral
/// directly, with positional weights of hundreds, tens, and ones after the
/// decimal point: the real value times ten.
pub open spec fn unsigned_numeral_value(s: Seq<u8>) -> int {
    if s.len() == 3 {
        digit_val(s[0]) * 10 + digit_val(s[2])
    } else {
        digit_val(s[0]) * 100 + digit_val(s[1]) * 10 + digit_val(s[3])
    }
}

/// The full value grammar: `"-"? digit? digit "." digit`.
pub open spec fn is_valid_numeral(s: Seq<u8>) -> bool {
    if s.len() > 0 && s[0] == MINUS {
        is_unsigned_numeral(s.drop_first())
    } else {
        is_unsigned_numeral(s)
    }
}

/// The signed integer a valid numeral denotes, at ten times its real value.
pub open spec fn numeral_value(s: Seq<u8>) -> int {
    if s.len() > 0 && s[0] == MINUS {
        -unsigned_numeral_value(s.drop_first())
    } else {
        unsigned_numeral_value(s)
    }
}

/// Every value of the grammar lies in `[-99.9, 99.9]`, that is in
/// `[-999, 999]` tenths.
pub proof fn lemma_numeral_value_range(s: Seq<u8>)
    requires
        is_valid_numeral(s),
    ensures
        -999 <= numeral_value(s) <= 999,
{
}

/// A fixed-point value in `[-99.9, 99.9]` with one fractional digit, stored
/// as the real value times ten so the hot path needs no floating point.
#[derive(Clone, Copy, Debug, PartialEq, Eq, Structural)]
pub struct Decimal(i16);

impl View for Decimal {
    type V = int;

    closed spec fn view(&self) -> int {
        self.0 as int
    }
}

impl Decimal {
    /// Wraps a tenths count as a decimal value.
    pub fn new(tenths: i16) -> (r: Decimal)
        ensures
            r@ == tenths as int,
    {
        Decimal(tenths)
    }

    /// The stored integer: the real value times ten.
    pub fn tenths(&self) -> (r: i16)
        ensures
            r as int == self@,
    {
        self.0
    }

    /// Parses `bytes` against the grammar `"-"? digit? digit "." digit`.
    ///
    /// Succeeds exactly on the strings of the grammar, and then returns the
    /// integer obtained by reading the digits directly with their positional
    /// weights and the sign applied. Any other input is a malformed record:
    /// this is a deliberately narrow parser, not a general float parser.
    pub fn parse(bytes: &[u8]) -> (r: Result<Decimal, PipelineError>)
        ensures
            r is Ok <==> is_valid_numeral(bytes@),
            r matches Ok(d) ==> d@ == numeral_value(bytes@) && -999 <= d@ <= 999,
            r matches Err(e) ==> e == PipelineError::MalformedRecord,
    {
        let len = bytes.len();
        if len < 3 {
            return Err(PipelineError::MalformedRecord);
        }
        let negative = bytes[0] == MINUS;
        let start: usize = if negative {
            1
        } else {
            0
        };
        proof {
            if negative {
                assert(bytes@.drop_first() =~= bytes@.skip(1));
                assert(forall|i: int|
                    0 <= i < bytes@.len() - 1 ==> bytes@.drop_first()[i] == bytes@[i + 1]);
            }
        }
        let digits = len - start;
        if digits == 3 {
            let d0 = bytes[start];
            let dot = bytes[start + 1];
            let d2 = bytes[start + 2];
            if is_digit_byte(d0) && dot == DOT && is_digit_byte(d2) {
                let magnitude: i16 = (d0 - DIGIT_ZERO) as i16 * 10 + (d2 - DIGIT_ZERO) as i16;
                let value: i16 = if negative {
                    -magnitude
                } else {
                    magnitude
                };
                Ok(Decimal(value))
            } else {
                Err(PipelineError::MalformedRecord)
            }
        } else if digits == 4 {
            let d0 = bytes[start];
            let d1 = bytes[start + 1];
            let dot = bytes[start + 2];
            let d3 = bytes[start + 3];
            if is_digit_byte(d0) && is_digit_byte(d1) && dot == DOT && is_digit_byte(d3) {
                let magnitude: i16 = (d0 - DIGIT_ZERO) as i16 * 100 + (d1 - DIGIT_ZERO) as i16 * 10
                    + (d3 - DIGIT_ZERO) as i16;
                let value: i16 = if negative {
                    -magnitude
                } else {
                    magnitude
                };
                Ok(Decimal(value))
            } else {
                Err(PipelineError::MalformedRecord)
            }
        } else {
            Err(PipelineError::MalformedRecord)
        }
    }
}

/// Whether `b` is an ASCII digit.
fn is_digit_byte(b: u8) -> (r: bool)
    ensures
        r == is_digit(b),
{
    DIGIT_ZERO <= b && b <= DIGIT_ZERO + 9
}

} // verus!
