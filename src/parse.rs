use vstd::prelude::*;
use crate::error::FormatError;

verus! {

pub open spec fn is_digit(b: u8) -> bool {
    0x30 <= b <= 0x39
}

pub open spec fn digit(b: u8) -> int {
    b - 0x30
}

/// The value, in tenths, of an unsigned token `D.D` or `DD.D`.
pub open spec fn unsigned_value(s: Seq<u8>) -> Option<int> {
    if s.len() == 4 && is_digit(s[0]) && is_digit(s[1]) && s[2] == 0x2e && is_digit(s[3]) {
        Some(100 * digit(s[0]) + 10 * digit(s[1]) + digit(s[3]))
    } else if s.len() == 3 && is_digit(s[0]) && s[1] == 0x2e && is_digit(s[2]) {
        Some(10 * digit(s[0]) + digit(s[2]))
    } else {
        None
    }
}

/// The value, in tenths, of a token of the grammar `['-'] DIGIT{1,2} '.' DIGIT`,
/// or `None` for any other bytes.
pub open spec fn token_value(s: Seq<u8>) -> Option<int> {
    if s.len() > 0 && s[0] == 0x2d {
        match unsigned_value(s.drop_first()) {
            Some(v) => Some(-v),
            None => None,
        }
    } else {
        unsigned_value(s)
    }
}

fn is_digit_byte(b: u8) -> (r: bool)
    ensures
        r == is_digit(b),
{
    0x30u8 <= b && b <= 0x39u8
}

/// Parses a decimal token with one fractional digit into tenths: `98.7` gives 987.
pub fn parse_to_fixed_point(s: &[u8]) -> (r: Result<i32, FormatError>)
    ensures
        match r {
            Ok(v) => token_value(s@) == Some(v as int),
            Err(e) => token_value(s@) is None && e == FormatError::InvalidValue,
        },
{
    let neg = s.len() > 0 && s[0] == 0x2du8;
    let start: usize = if neg {
        1
    } else {
        0
    };
    let ghost u = if neg {
        s@.drop_first()
    } else {
        s@
    };
    assert(forall|k: int| 0 <= k < u.len() ==> u[k] == s@[k + start]);
    let n = s.len() - start;
    let mag: i32;
    if n == 4 && is_digit_byte(s[start]) && is_digit_byte(s[start + 1]) && s[start + 2] == 0x2eu8
        && is_digit_byte(s[start + 3]) {
        mag = 100 * (s[start] - 0x30u8) as i32 + 10 * (s[start + 1] - 0x30u8) as i32 + (s[start + 3]
            - 0x30u8) as i32;
    } else if n == 3 && is_digit_byte(s[start]) && s[start + 1] == 0x2eu8 && is_digit_byte(
        s[start + 2],
    ) {
        mag = 10 * (s[start] - 0x30u8) as i32 + (s[start + 2] - 0x30u8) as i32;
    } else {
        return Err(FormatError::InvalidValue);
    }
    assert(unsigned_value(u) == Some(mag as int));
    if neg {
        Ok(-mag)
    } else {
        Ok(mag)
    }
}

pub open spec fn digit_byte(d: int) -> u8 {
    (d + 0x30) as u8
}

/// The text of a fixed-point value with one fractional digit: 987 gives `98.7`,
/// -1 gives `-0.1`.
pub open spec fn fixed_text(v: int) -> Seq<u8> {
    let m = if v < 0 {
        -v
    } else {
        v
    };
    let sign: Seq<u8> = if v < 0 {
        seq![0x2du8]
    } else {
        seq![]
    };
    let whole: Seq<u8> = if m >= 100 {
        seq![digit_byte(m / 100), digit_byte((m / 10) % 10)]
    } else {
        seq![digit_byte(m / 10)]
    };
    sign + whole + seq![0x2eu8, digit_byte(m % 10)]
}

/// Appends the text of `v` (see `fixed_text`) to `out`.
pub fn write_fixed_point(out: &mut Vec<u8>, v: i32)
    requires
        -999 <= v <= 999,
    ensures
        final(out)@ == old(out)@ + fixed_text(v as int),
{
    let m: i32 = if v < 0 {
        -v
    } else {
        v
    };
    if v < 0 {
        out.push(0x2du8);
    }
    if m >= 100 {
        out.push((m / 100) as u8 + 0x30u8);
        out.push(((m / 10) % 10) as u8 + 0x30u8);
    } else {
        out.push((m / 10) as u8 + 0x30u8);
    }
    out.push(0x2eu8);
    out.push((m % 10) as u8 + 0x30u8);
    assert(final(out)@ == old(out)@ + fixed_text(v as int));
}

/// Reading back the text of a value in the accepted range gives the value.
pub proof fn lemma_parse_fixed_text(v: int)
    requires
        -999 <= v <= 999,
    ensures
        token_value(fixed_text(v)) == Some(v),
{
    let t = fixed_text(v);
    if v < 0 {
        assert(t.drop_first() == fixed_text(-v));
    }
}

} // verus!
