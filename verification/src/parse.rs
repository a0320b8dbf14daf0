//! Parsing of one integer field of an input line: an optional sign
//! followed by decimal digits, accepted exactly when the denoted value fits
//! a 32-bit signed integer.

use vstd::prelude::*;

use vstd::string::StringSliceAdditionalSpecFns;

use crate::model::HorScanError;

verus! {

/// Is this byte an ASCII decimal digit?
pub open spec fn is_digit_byte(b: u8) -> bool {
    0x30 <= b <= 0x39
}

/// Are all bytes decimal digits?
pub open spec fn all_digit_bytes(bs: Seq<u8>) -> bool {
    forall|k: int| 0 <= k < bs.len() ==> is_digit_byte(#[trigger] bs[k])
}

/// The value of a digit string, most significant digit first.
pub open spec fn digits_val(bs: Seq<u8>) -> int
    decreases bs.len(),
{
    if bs.len() == 0 {
        0
    } else {
        digits_val(bs.drop_last()) * 10 + (bs.last() - 0x30)
    }
}

/// Is this byte string an integer literal: an optional `+` or `-` sign
/// followed by at least one decimal digit?
pub open spec fn int_bytes_valid(bs: Seq<u8>) -> bool {
    if bs.len() == 0 {
        false
    } else if bs[0] == 0x2B || bs[0] == 0x2D {
        bs.len() >= 2 && all_digit_bytes(bs.skip(1))
    } else {
        all_digit_bytes(bs)
    }
}

/// The signed value an integer literal denotes.
pub open spec fn int_bytes_val(bs: Seq<u8>) -> int {
    if bs.len() > 0 && bs[0] == 0x2D {
        -digits_val(bs.skip(1))
    } else if bs.len() > 0 && bs[0] == 0x2B {
        digits_val(bs.skip(1))
    } else {
        digits_val(bs)
    }
}

/// Does this byte string parse as a 32-bit signed integer?
pub open spec fn parses_to_i32(bs: Seq<u8>) -> bool {
    int_bytes_valid(bs) && -0x8000_0000 <= int_bytes_val(bs) <= 0x7fff_ffff
}

/// A digit string's value is non-negative.
proof fn lemma_digits_nonneg(bs: Seq<u8>)
    requires
        all_digit_bytes(bs),
    ensures
        digits_val(bs) >= 0,
    decreases bs.len(),
{
    if bs.len() > 0 {
        assert(all_digit_bytes(bs.drop_last()));
        lemma_digits_nonneg(bs.drop_last());
    }
}

/// Extending a digit string never shrinks its value.
proof fn lemma_digits_prefix_le(bs: Seq<u8>, k: int)
    requires
        all_digit_bytes(bs),
        0 <= k <= bs.len(),
    ensures
        digits_val(bs.subrange(0, k)) <= digits_val(bs),
    decreases bs.len() - k,
{
    if k == bs.len() {
        assert(bs.subrange(0, k) =~= bs);
    } else {
        lemma_digits_prefix_le(bs, k + 1);
        assert(bs.subrange(0, k + 1).drop_last() =~= bs.subrange(0, k));
        assert(all_digit_bytes(bs.subrange(0, k)));
        lemma_digits_nonneg(bs.subrange(0, k));
        assert(digits_val(bs.subrange(0, k + 1)) == digits_val(bs.subrange(0, k)) * 10 + (bs[k]
            - 0x30));
    }
}

/// Parse a decimal field of an input line as a 32-bit integer; a malformed
/// or out-of-range field is a parse error naming the field.
pub fn parse_field(s: &str, field_name: &str) -> (r: Result<i32, HorScanError>)
    ensures
        r is Ok <==> parses_to_i32(s.spec_bytes()),
        r is Ok ==> r->Ok_0 as int == int_bytes_val(s.spec_bytes()),
        r is Err ==> r->Err_0 is ParseError,
{
    let bs = s.as_bytes();
    let n = bs.len();
    if n == 0 {
        return Err(HorScanError::ParseError(field_name.to_owned()));
    }
    let first = bs[0];
    let neg = first == 0x2D;
    let has_sign = first == 0x2B || first == 0x2D;
    let start: usize = if has_sign {
        1
    } else {
        0
    };
    if n == start {
        return Err(HorScanError::ParseError(field_name.to_owned()));
    }
    proof {
        if has_sign {
            assert(bs@.skip(1) =~= bs@.subrange(1, n as int));
        } else {
            assert(bs@.subrange(0, n as int) =~= bs@);
        }
    }
    let ghost digits = bs@.subrange(start as int, n as int);
    let mut acc: i64 = 0;
    let mut k = start;
    while k < n
        invariant
            bs@ == s.spec_bytes(),
            n == bs@.len(),
            start <= k <= n,
            start < n,
            start as int == (if bs@[0] == 0x2B || bs@[0] == 0x2D {
                1int
            } else {
                0int
            }),
            digits == bs@.subrange(start as int, n as int),
            all_digit_bytes(bs@.subrange(start as int, k as int)),
            acc == digits_val(bs@.subrange(start as int, k as int)),
            0 <= acc <= 0x8000_0000,
        decreases n - k,
    {
        let b = bs[k];
        if b < 0x30 || b > 0x39 {
            proof {
                assert(digits[k - start] == bs@[k as int]);
                assert(!all_digit_bytes(digits));
                if bs@[0] == 0x2B || bs@[0] == 0x2D {
                    assert(bs@.skip(1) =~= digits);
                } else {
                    assert(digits =~= bs@);
                }
                assert(!int_bytes_valid(bs@));
            }
            return Err(HorScanError::ParseError(field_name.to_owned()));
        }
        acc = acc * 10 + ((b - 0x30) as i64);
        proof {
            assert(bs@.subrange(start as int, k as int + 1).drop_last() =~= bs@.subrange(
                start as int,
                k as int,
            ));
            assert(bs@.subrange(start as int, k as int + 1).last() == bs@[k as int]);
        }
        if acc > 0x8000_0000 {
            proof {
                if bs@[0] == 0x2B || bs@[0] == 0x2D {
                    assert(bs@.skip(1) =~= digits);
                } else {
                    assert(digits =~= bs@);
                }
                if int_bytes_valid(bs@) {
                    assert(all_digit_bytes(digits));
                    assert(bs@.subrange(start as int, k as int + 1) =~= digits.subrange(
                        0,
                        k - start + 1,
                    ));
                    lemma_digits_prefix_le(digits, k - start + 1);
                    assert(digits_val(digits) > 0x8000_0000);
                    assert(!parses_to_i32(bs@));
                }
            }
            return Err(HorScanError::ParseError(field_name.to_owned()));
        }
        k = k + 1;
    }
    proof {
        assert(bs@.subrange(start as int, n as int) =~= digits);
        assert(acc == digits_val(digits));
        if bs@[0] == 0x2B || bs@[0] == 0x2D {
            assert(bs@.skip(1) =~= digits);
        } else {
            assert(digits =~= bs@);
        }
        assert(int_bytes_valid(bs@));
        lemma_digits_nonneg(digits);
    }
    if neg {
        let v: i64 = -acc;
        proof {
            assert(int_bytes_val(bs@) == -digits_val(digits));
        }
        Ok(v as i32)
    } else {
        if acc > 0x7fff_ffff {
            proof {
                assert(int_bytes_val(bs@) == digits_val(digits));
                assert(!parses_to_i32(bs@));
            }
            return Err(HorScanError::ParseError(field_name.to_owned()));
        }
        proof {
            assert(int_bytes_val(bs@) == digits_val(digits));
        }
        Ok(acc as i32)
    }
}

} // verus!
