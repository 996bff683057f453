//! Codec for the signed 64-bit integer domain.
//!
//! An `i64` is encoded as the UTF-8 bytes of its decimal representation:
//! an optional leading minus sign followed by decimal digits.  Decoding
//! parses such a literal back, rejecting anything else (or any value
//! outside the `i64` range) with `ParseFailure`, and bytes that are not
//! UTF-8 with `InvalidUtf8`.  Both directions are verified against the
//! digit-string theory in [`crate::digits`].

use vstd::prelude::*;
use vstd::string::StrSliceExecFns;
use vstd::utf8::decode_utf8;
use vstd::utf8::encode_utf8;
use vstd::utf8::is_ascii_chars;
use vstd::utf8::is_ascii_chars_encode_utf8;
use vstd::utf8::valid_utf8;
use crate::digits::all_digits;
use crate::digits::digit_char;
use crate::digits::digit_val;
use crate::digits::digits_of;
use crate::digits::digits_val;
use crate::digits::int_of;
use crate::digits::is_digit;
use crate::digits::is_int_chars;
use crate::digits::lemma_digits_of_val;
use crate::digits::lemma_digits_val_leading_zeros;
use crate::digits::lemma_digits_val_lower;
use crate::digits::lemma_pow10_mono;
use crate::digits::pow10;
use crate::traits::utf8_to_string;
use crate::traits::EncodingError;
use crate::traits::FromBytes;
use crate::traits::ToBytes;

verus! {

broadcast use vstd::utf8::encode_utf8_valid_utf8, vstd::utf8::encode_utf8_decode_utf8;

/// The decimal character string of a signed integer.
pub open spec fn int_chars(v: int) -> Seq<char> {
    if v < 0 {
        seq!['-'] + digits_of(-v)
    } else {
        digits_of(v)
    }
}

/// The decode function of the `i64` domain, on characters.
pub open spec fn i64_decoded_chars(s: Seq<char>) -> Result<i64, EncodingError> {
    if !is_int_chars(s) {
        Err(EncodingError::ParseFailure)
    } else if int_of(s) < i64::MIN as int || int_of(s) > i64::MAX as int {
        Err(EncodingError::ParseFailure)
    } else {
        Ok(int_of(s) as i64)
    }
}

/// The characters denoted by the bytes of a digit vector, last byte first.
pub open spec fn reversed_digit_chars(b: Seq<u8>) -> Seq<char> {
    Seq::new(b.len(), |i: int| b[b.len() - 1 - i] as char)
}

pub proof fn lemma_pow10_19()
    ensures
        pow10(19) == 10000000000000000000,
{
    reveal_with_fuel(pow10, 20);
}

proof fn lemma_digit_char_byte(d: int)
    requires
        0 <= d <= 9,
    ensures
        digit_char(d) as u8 == 48 + d,
        (48 + d) as u8 as char == digit_char(d),
        is_digit(digit_char(d)),
        digit_val(digit_char(d)) == d,
{
}

impl FromBytes for i64 {
    open spec fn inv(&self) -> bool {
        true
    }

    open spec fn vinv(v: i64) -> bool {
        true
    }

    proof fn lemma_inv_view(&self) {
    }

    open spec fn decoded(bytes: Seq<u8>) -> Result<i64, EncodingError> {
        if valid_utf8(bytes) {
            i64_decoded_chars(decode_utf8(bytes))
        } else {
            Err(EncodingError::InvalidUtf8)
        }
    }

    #[verifier::loop_isolation(false)]
    fn from_bytes(bytes: &[u8]) -> (r: Result<Self, EncodingError>) {
        let s = match utf8_to_string(bytes) {
            Some(s) => s,
            None => {
                return Err(EncodingError::InvalidUtf8);
            },
        };
        let ghost chars = s@;
        let st = s.as_str();
        let n = st.unicode_len();
        if n == 0 {
            return Err(EncodingError::ParseFailure);
        }
        let neg = st.get_char(0) == '-';
        let start: usize = if neg {
            1
        } else {
            0
        };
        if start == n {
            return Err(EncodingError::ParseFailure);
        }
        // Every character after the sign must be a digit.
        let mut i = start;
        while i < n
            invariant
                start <= i <= n,
                n == chars.len(),
                st@ == chars,
                forall|j: int| start <= j < i ==> is_digit(#[trigger] chars[j]),
            decreases n - i,
        {
            let c = st.get_char(i);
            let u = c as u32;
            if u < 48 || u > 57 {
                proof {
                    assert(c == chars[i as int]);
                    assert(!is_digit(c)) by {
                        assert('0' as u32 == 48 && '9' as u32 == 57);
                    }
                    if neg {
                        assert(start == 1);
                        assert(1 <= i < n);
                        assert(chars.subrange(1, n as int)[i - 1] == chars[i as int]);
                        assert(!all_digits(chars.subrange(1, n as int)));
                    } else {
                        assert(!all_digits(chars));
                    }
                }
                return Err(EncodingError::ParseFailure);
            }
            proof {
                assert(is_digit(chars[i as int])) by {
                    assert('0' as u32 == 48 && '9' as u32 == 57);
                }
            }
            i += 1;
        }
        // Skip leading zeros of the digit body.
        let mut z = start;
        while z < n && st.get_char(z) == '0'
            invariant
                start <= z <= n,
                n == chars.len(),
                st@ == chars,
                forall|j: int| start <= j < n ==> is_digit(#[trigger] chars[j]),
                forall|j: int| start <= j < z ==> chars[j] == '0',
            decreases n - z,
        {
            z += 1;
        }
        let ghost body = chars.subrange(start as int, n as int);
        let ghost tail = chars.subrange(z as int, n as int);
        proof {
            assert(all_digits(body));
            assert(all_digits(tail));
            assert(body.subrange((z - start) as int, body.len() as int) =~= tail);
            lemma_digits_val_leading_zeros(body, (z - start) as int);
            if neg {
                assert(chars.subrange(1, n as int) =~= body);
                assert(int_of(chars) == -digits_val(body));
            } else {
                assert(chars.subrange(0, n as int) =~= chars);
                assert(chars[0] != '-');
                assert(int_of(chars) == digits_val(body));
            }
            assert(is_int_chars(chars));
        }
        let m = n - z;
        if m > 19 {
            proof {
                assert(tail[0] != '0');
                lemma_digits_val_lower(tail);
                lemma_pow10_mono(19, (tail.len() - 1) as nat);
                lemma_pow10_19();
            }
            return Err(EncodingError::ParseFailure);
        }
        // Accumulate the at most 19 significant digits.
        let mut acc: u64 = 0;
        let mut k = z;
        while k < n
            invariant
                z <= k <= n,
                n == chars.len(),
                n - z <= 19,
                st@ == chars,
                forall|j: int| z <= j < n ==> is_digit(#[trigger] chars[j]),
                acc == digits_val(chars.subrange(z as int, k as int)),
                acc < pow10((k - z) as nat),
            decreases n - k,
        {
            let c = st.get_char(k);
            let u = c as u32;
            proof {
                assert(is_digit(chars[k as int]));
                assert(48 <= u <= 57);
                assert(pow10(((k + 1) - z) as nat) == 10 * pow10((k - z) as nat));
                lemma_pow10_mono(((k + 1) - z) as nat, 19);
                lemma_pow10_19();
                assert(chars.subrange(z as int, (k + 1) as int).drop_last() =~= chars.subrange(
                    z as int,
                    k as int,
                ));
            }
            let d = (u - 48) as u64;
            acc = acc * 10 + d;
            k += 1;
        }
        proof {
            assert(chars.subrange(z as int, n as int) =~= tail);
        }
        if neg {
            if acc > 9223372036854775808u64 {
                return Err(EncodingError::ParseFailure);
            } else if acc == 9223372036854775808u64 {
                return Ok(i64::MIN);
            } else {
                return Ok(-(acc as i64));
            }
        } else {
            if acc > 9223372036854775807u64 {
                return Err(EncodingError::ParseFailure);
            } else {
                return Ok(acc as i64);
            }
        }
    }
}

impl ToBytes for i64 {
    open spec fn encoded_of(v: i64) -> Seq<u8> {
        encode_utf8(int_chars(v as int))
    }

    #[verifier::loop_isolation(false)]
    fn to_bytes(&self) -> (r: Vec<u8>) {
        let v = *self;
        let neg = v < 0;
        let mag: u64 = if v < 0 {
            (-(v as i128)) as u64
        } else {
            v as u64
        };
        let ghost d = digits_of(mag as int);
        let mut rev: Vec<u8> = Vec::new();
        let mut x = mag;
        while x >= 10
            invariant
                digits_of(mag as int) =~= digits_of(x as int) + reversed_digit_chars(rev@),
                forall|j: int| 0 <= j < rev@.len() ==> 48 <= #[trigger] rev@[j] <= 57,
            decreases x,
        {
            let b = 48 + (x % 10) as u8;
            proof {
                lemma_digit_char_byte((x % 10) as int);
                assert(reversed_digit_chars(rev@.push(b)) =~= seq![b as char] + reversed_digit_chars(
                    rev@,
                ));
                assert(digits_of((x / 10) as int) + (seq![b as char] + reversed_digit_chars(rev@))
                    =~= (digits_of((x / 10) as int).push(b as char)) + reversed_digit_chars(rev@));
                assert(digits_of(x as int) == digits_of((x / 10) as int).push(
                    digit_char((x % 10) as int),
                ));
            }
            rev.push(b);
            x = x / 10;
        }
        let b = 48 + (x % 10) as u8;
        proof {
            lemma_digit_char_byte((x % 10) as int);
            assert(digits_of(x as int) =~= seq![digit_char(x as int)]);
            assert(reversed_digit_chars(rev@.push(b)) =~= seq![b as char] + reversed_digit_chars(
                rev@,
            ));
        }
        rev.push(b);
        proof {
            assert(d =~= reversed_digit_chars(rev@));
        }
        let ghost cs = int_chars(v as int);
        let mut out: Vec<u8> = Vec::new();
        if neg {
            out.push(45);
            proof {
                assert(cs =~= seq!['-'] + d);
                assert(cs[0] as u8 == 45);
            }
        } else {
            proof {
                assert(cs =~= d);
            }
        }
        let off: usize = if neg {
            1
        } else {
            0
        };
        let mut k: usize = 0;
        let ln = rev.len();
        while k < ln
            invariant
                0 <= k <= ln,
                ln == rev@.len(),
                out@.len() == off + k,
                off == (if neg { 1int } else { 0int }),
                cs.len() == off + ln,
                neg ==> out@.len() > 0 && out@[0] == 45,
                d =~= reversed_digit_chars(rev@),
                cs =~= (if neg { seq!['-'] + d } else { d }),
                forall|j: int| 0 <= j < k ==> out@[off + j] == #[trigger] rev@[ln - 1 - j],
                forall|j: int| 0 <= j < rev@.len() ==> 48 <= #[trigger] rev@[j] <= 57,
            decreases ln - k,
        {
            let b2 = rev[ln - 1 - k];
            out.push(b2);
            k += 1;
        }
        proof {
            lemma_digits_of_val(mag as int);
            assert(forall|j: int| 0 <= j < d.len() ==> is_digit(#[trigger] d[j]));
            assert(is_ascii_chars(cs)) by {
                assert(forall|j: int|
                    0 <= j < cs.len() ==> '\0' <= #[trigger] cs[j] <= '\u{7f}');
            }
            is_ascii_chars_encode_utf8(cs);
            assert(forall|j: int| 0 <= j < d.len() ==> d[j] as u8 == rev@[d.len() - 1 - j]);
            assert(forall|j: int| 0 <= j < cs.len() ==> out@[j] == cs[j] as u8);
            assert(out@ =~= encode_utf8(cs));
            lemma_int_chars_decodes(v as int);
        }
        out
    }

    proof fn lemma_encode_decodes(v: i64) {
        broadcast use vstd::utf8::encode_utf8_valid_utf8, vstd::utf8::encode_utf8_decode_utf8;

        lemma_int_chars_decodes(v as int);
    }
}

/// The decimal character string of an `i64` value parses back to it.
proof fn lemma_int_chars_decodes(v: int)
    requires
        i64::MIN as int <= v <= i64::MAX as int,
    ensures
        is_int_chars(int_chars(v)),
        int_of(int_chars(v)) == v,
        i64_decoded_chars(int_chars(v)) == Ok::<i64, EncodingError>(v as i64),
{
    let cs = int_chars(v);
    if v < 0 {
        lemma_digits_of_val(-v);
        let dd = digits_of(-v);
        assert(cs =~= seq!['-'] + dd);
        assert(cs[0] == '-');
        assert(cs.subrange(1, cs.len() as int) =~= dd);
        assert(int_of(cs) == -digits_val(dd));
    } else {
        lemma_digits_of_val(v);
        assert(cs[0] != '-') by {
            assert(is_digit(cs[0]));
        }
        assert(int_of(cs) == digits_val(cs));
    }
}

} // verus!
