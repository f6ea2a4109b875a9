//! Region codes: six decimal digits, two for each of province, city and
//! county.

use vstd::prelude::*;
use crate::RegionError;
use crate::text::{decimal, digit_char, digit_value, is_digit};

verus! {

/// Whether `code` is made of exactly six ASCII digits.
pub open spec fn is_region_code(code: Seq<char>) -> bool {
    code.len() == 6 && forall|i: int| 0 <= i < 6 ==> is_digit(#[trigger] code[i])
}

/// The number written by the two digits of `code` at `level`: 0 for the
/// province, 1 for the city, 2 for the county.
pub open spec fn segment(code: Seq<char>, level: int) -> nat {
    digit_value(code[2 * level]) * 10 + digit_value(code[2 * level + 1])
}

/// A region code taken apart into its three two-digit segments.
#[derive(Debug, Clone, Copy, PartialEq, Eq, Structural)]
pub struct RegionCode {
    /// The first two digits.
    pub province: u8,
    /// The middle two digits; 0 in the code of a province.
    pub city: u8,
    /// The last two digits; 0 in the code of a province or of a city.
    pub county: u8,
}

impl RegionCode {
    /// Whether each segment is a two-digit number.
    pub open spec fn wf(self) -> bool {
        self.province < 100 && self.city < 100 && self.county < 100
    }

    /// The code as one number.
    pub open spec fn number(self) -> nat {
        (self.province * 10000 + self.city * 100 + self.county) as nat
    }

    /// The code of the province that the code belongs to.
    pub open spec fn province_number(self) -> nat {
        (self.province * 10000) as nat
    }

    /// The code of the city that the code belongs to.
    pub open spec fn city_number(self) -> nat {
        (self.province * 10000 + self.city * 100) as nat
    }

    /// The code as one number.
    pub fn to_number(&self) -> (n: u32)
        ensures
            n == self.number(),
    {
        self.province as u32 * 10000 + self.city as u32 * 100 + self.county as u32
    }
}

/// The segments that the six digits of `code` write.
pub open spec fn code_segments(code: Seq<char>) -> RegionCode {
    RegionCode {
        province: segment(code, 0) as u8,
        city: segment(code, 1) as u8,
        county: segment(code, 2) as u8,
    }
}

/// What [`parse_region_code`] returns for `code`.
pub open spec fn parsed_code(code: Seq<char>) -> Result<RegionCode, RegionError> {
    if is_region_code(code) {
        Ok(code_segments(code))
    } else {
        Err(RegionError::InvalidInput)
    }
}

/// Takes a region code apart. A text that is not made of exactly six ASCII
/// digits is refused as `InvalidInput`.
pub fn parse_region_code(code: &str) -> (r: Result<RegionCode, RegionError>)
    ensures
        r == parsed_code(code@),
        r matches Ok(c) ==> c.wf(),
{
    if code.unicode_len() != 6 {
        return Err(RegionError::InvalidInput);
    }
    let mut parts: [u8; 3] = [0, 0, 0];
    let mut level: usize = 0;
    while level < 3
        invariant
            level <= 3,
            code@.len() == 6,
            forall|i: int| 0 <= i < 2 * level ==> is_digit(#[trigger] code@[i]),
            forall|l: int| 0 <= l < level ==> #[trigger] parts@[l] == segment(code@, l),
        decreases 3 - level,
    {
        let tens: char = code.get_char(2 * level);
        let ones: char = code.get_char(2 * level + 1);
        if !(tens >= '0' && tens <= '9' && ones >= '0' && ones <= '9') {
            assert(!is_digit(code@[2 * level as int]) || !is_digit(code@[2 * level + 1]));
            return Err(RegionError::InvalidInput);
        }
        let value: u8 = ((tens as u32 - 48) * 10 + (ones as u32 - 48)) as u8;
        parts[level] = value;
        level = level + 1;
    }
    Ok(RegionCode { province: parts[0], city: parts[1], county: parts[2] })
}

/// Whether `code` has six decimal digits, the first of which is not 0.
pub open spec fn is_six_digit(code: nat) -> bool {
    100000 <= code <= 999999
}

/// The segments of the six-digit number `code`.
pub open spec fn number_segments(code: nat) -> RegionCode {
    RegionCode {
        province: (code / 10000) as u8,
        city: (code / 100 % 100) as u8,
        county: (code % 100) as u8,
    }
}

/// The digit for a number below ten is a digit, and stands for that number.
pub proof fn lemma_digit_char(d: nat)
    requires
        d < 10,
    ensures
        is_digit(digit_char(d)),
        digit_value(digit_char(d)) == d,
{
}

/// The digits of a six-digit number.
#[verifier::rlimit(40)]
pub proof fn lemma_decimal_six_digits(code: nat)
    requires
        is_six_digit(code),
    ensures
        decimal(code) == seq![
            digit_char(code / 100000),
            digit_char(code / 10000 % 10),
            digit_char(code / 1000 % 10),
            digit_char(code / 100 % 10),
            digit_char(code / 10 % 10),
            digit_char(code % 10),
        ],
{
    let c1 = code / 10;
    let c2 = c1 / 10;
    let c3 = c2 / 10;
    let c4 = c3 / 10;
    let c5 = c4 / 10;
    assert(c5 == code / 100000 && c5 < 10 && c4 % 10 == code / 10000 % 10 && c3 % 10 == code
        / 1000 % 10 && c2 % 10 == code / 100 % 10 && c1 % 10 == code / 10 % 10);
    assert(decimal(c5) == seq![digit_char(c5)]);
    assert(decimal(c4) == decimal(c5).push(digit_char(c4 % 10)));
    assert(decimal(c3) == decimal(c4).push(digit_char(c3 % 10)));
    assert(decimal(c2) == decimal(c3).push(digit_char(c2 % 10)));
    assert(decimal(c1) == decimal(c2).push(digit_char(c1 % 10)));
    assert(decimal(code) == decimal(c1).push(digit_char(code % 10)));
    assert(decimal(code) =~= seq![
        digit_char(code / 100000),
        digit_char(code / 10000 % 10),
        digit_char(code / 1000 % 10),
        digit_char(code / 100 % 10),
        digit_char(code / 10 % 10),
        digit_char(code % 10),
    ]);
}

/// The last two decimal digits of a number make what remains of it when
/// it is divided by 100.
pub proof fn lemma_two_digits(n: nat)
    ensures
        (n / 10 % 10) * 10 + n % 10 == n % 100,
        (n / 100) * 100 + n % 100 == n,
        n / 10 / 10 == n / 100,
{
    let hundreds = n / 100;
    let rest = n % 100;
    assert(n == hundreds * 100 + rest);
    assert(n / 10 == hundreds * 10 + rest / 10);
    assert(n % 10 == rest % 10);
    assert((hundreds * 10 + rest / 10) % 10 == rest / 10);
    assert((hundreds * 10 + rest / 10) / 10 == hundreds);
}

/// Two neighbouring decimal digits of a number make one of its segments.
pub proof fn lemma_digit_pairs(code: nat)
    ensures
        (code / 100000) * 10 + code / 10000 % 10 == code / 10000,
        (code / 1000 % 10) * 10 + code / 100 % 10 == code / 100 % 100,
        (code / 10 % 10) * 10 + code % 10 == code % 100,
        (code / 10000) * 10000 + (code / 100 % 100) * 100 + code % 100 == code,
{
    let hundreds = code / 100;
    let myriads = hundreds / 100;
    lemma_two_digits(code);
    lemma_two_digits(hundreds);
    assert(myriads == code / 10000);
    assert(hundreds / 10 == code / 1000);
    assert(myriads / 10 == code / 100000);
    assert((myriads / 10) * 10 + myriads % 10 == myriads);
}

/// A six-digit number is written with six digits, and these are a region
/// code with the segments of the number.
#[verifier::rlimit(40)]
pub proof fn lemma_decimal_six(code: nat)
    requires
        is_six_digit(code),
    ensures
        is_region_code(decimal(code)),
        code_segments(decimal(code)) == number_segments(code),
        number_segments(code).wf(),
        number_segments(code).number() == code,
{
    let text = decimal(code);
    lemma_decimal_six_digits(code);
    lemma_digit_pairs(code);
    let d0 = code / 100000;
    let d1 = code / 10000 % 10;
    let d2 = code / 1000 % 10;
    let d3 = code / 100 % 10;
    let d4 = code / 10 % 10;
    let d5 = code % 10;
    lemma_digit_char(d0);
    lemma_digit_char(d1);
    lemma_digit_char(d2);
    lemma_digit_char(d3);
    lemma_digit_char(d4);
    lemma_digit_char(d5);
    assert(text.len() == 6);
    assert(text[0] == digit_char(d0) && text[1] == digit_char(d1) && text[2] == digit_char(d2)
        && text[3] == digit_char(d3) && text[4] == digit_char(d4) && text[5] == digit_char(d5));
    assert(is_region_code(text));
    assert(segment(text, 0) == d0 * 10 + d1);
    assert(segment(text, 1) == d2 * 10 + d3);
    assert(segment(text, 2) == d4 * 10 + d5);
}

} // verus!
