//! The arbitrary-precision integer and decimal domains.
//!
//! Both domains fix decimal text as their canonical byte encoding: an
//! integer is an optional minus sign followed by digits, a decimal
//! additionally allows one point with digits on both sides.  The values
//! live in the store as such strings; the arithmetic and the comparisons
//! behind the accumulating operators are delegated to the arbitrary-
//! precision types of the `substreams` crate, behind trusted wrappers
//! whose contracts speak of the digit-string theory in
//! [`crate::digits`].

use core::str::FromStr;
use substreams::scalar::BigDecimal;
use substreams::scalar::BigInt;
use vstd::prelude::*;
use vstd::string::StrSliceExecFns;
use vstd::string::StringExecFns;
use vstd::utf8::decode_utf8;
use vstd::utf8::encode_utf8;
use vstd::utf8::valid_utf8;
use crate::digits::all_digits;
use crate::digits::digits_val;
use crate::digits::digits_of;
use crate::digits::first_occurrence;
use crate::digits::int_of;
use crate::digits::is_digit;
use crate::digits::is_int_chars;
use crate::digits::lemma_digits_of_val;
use crate::digits::lemma_first_occurrence;
use crate::digits::lemma_first_occurrence_at;
use crate::digits::lemma_first_occurrence_none;
use crate::digits::lemma_pow10_pos;
use crate::digits::pow10;
use crate::int64::int_chars;
use crate::numeric::Numeric;
use crate::traits::utf8_to_string;
use crate::traits::EncodingError;
use crate::traits::FromBytes;
use crate::traits::ToBytes;

verus! {

/// True when `s` is a decimal literal: an integer literal, optionally
/// with a single point that has at least one digit on each side.
pub open spec fn is_dec_chars(s: Seq<char>) -> bool {
    let p = first_occurrence(s, '.');
    if p < 0 {
        is_int_chars(s)
    } else {
        &&& p < s.len() - 1
        &&& (if s[0] == '-' {
            p >= 2
        } else {
            p >= 1
        })
        &&& is_int_chars(s.subrange(0, p) + s.subrange(p + 1, s.len() as int))
    }
}

/// The mantissa of a decimal literal: the integer denoted by its digits
/// with the point removed.
pub open spec fn dec_mantissa(s: Seq<char>) -> int {
    let p = first_occurrence(s, '.');
    if p < 0 {
        int_of(s)
    } else {
        int_of(s.subrange(0, p) + s.subrange(p + 1, s.len() as int))
    }
}

/// The scale of a decimal literal: the number of digits after the
/// point.  The denoted value is `mantissa / pow10(scale)`.
pub open spec fn dec_scale(s: Seq<char>) -> nat {
    let p = first_occurrence(s, '.');
    if p < 0 {
        0
    } else {
        (s.len() - p - 1) as nat
    }
}

/// `n` zero characters.
pub open spec fn zero_chars(n: nat) -> Seq<char> {
    Seq::new(n, |i: int| '0')
}

/// The canonical decimal literal with mantissa `m` and scale `s`: for a
/// positive scale, the mantissa's digits (zero-padded so that at least
/// one digit precedes the point) with the point inserted `s` digits
/// from the right.
pub open spec fn dec_chars(m: int, s: nat) -> Seq<char> {
    if s == 0 {
        int_chars(m)
    } else {
        let mag = digits_of(if m < 0 {
            -m
        } else {
            m
        });
        let padded = (if mag.len() < s + 1 {
            zero_chars((s + 1 - mag.len()) as nat) + mag
        } else {
            mag
        });
        let cut = padded.len() - s;
        (if m < 0 {
            seq!['-']
        } else {
            Seq::<char>::empty()
        }) + padded.subrange(0, cut as int) + seq!['.'] + padded.subrange(
            cut as int,
            padded.len() as int,
        )
    }
}

/// The larger of two scales.
pub open spec fn max_scale(a: nat, b: nat) -> nat {
    if a < b {
        b
    } else {
        a
    }
}

/// The mantissa of the sum of two decimal values, aligned to the larger
/// scale.
pub open spec fn sum_mantissa(a: Seq<char>, b: Seq<char>) -> int {
    let s = max_scale(dec_scale(a), dec_scale(b));
    dec_mantissa(a) * pow10((s - dec_scale(a)) as nat) + dec_mantissa(b) * pow10(
        (s - dec_scale(b)) as nat,
    )
}

/// Relies on `substreams::scalar::BigInt`: `FromStr` reads decimal
/// text, `+=` adds the numeric values, and `Display` renders the sum as
/// canonical decimal text (minus sign and digits, no leading zeros).
#[verifier::external_body]
fn bigint_add(a: &str, b: &str) -> (r: String)
    requires
        is_int_chars(a@),
        is_int_chars(b@),
    ensures
        r@ == int_chars(int_of(a@) + int_of(b@)),
{
    let mut x = BigInt::from_str(a).unwrap();
    let y = BigInt::from_str(b).unwrap();
    x += y;
    x.to_string()
}

/// Relies on `substreams::scalar::BigInt`: `FromStr` reads decimal text
/// and the derived `PartialOrd` compares the numeric values.
#[verifier::external_body]
fn bigint_lt(a: &str, b: &str) -> (r: bool)
    requires
        is_int_chars(a@),
        is_int_chars(b@),
    ensures
        r == (int_of(a@) < int_of(b@)),
{
    let x = BigInt::from_str(a).unwrap();
    let y = BigInt::from_str(b).unwrap();
    x < y
}

/// Relies on `substreams::scalar::BigDecimal`: `FromStr` reads decimal
/// text as a mantissa and scale, `+` aligns the addends to the larger
/// scale and adds the mantissas exactly, `as_bigint_and_exponent`
/// exposes the resulting pair, and the mantissa's `Display` renders
/// canonical decimal text.
#[verifier::external_body]
fn bigdec_add(a: &str, b: &str) -> (r: (String, usize))
    requires
        is_dec_chars(a@),
        is_dec_chars(b@),
    ensures
        r.0@ == int_chars(sum_mantissa(a@, b@)),
        r.1 as nat == max_scale(dec_scale(a@), dec_scale(b@)),
{
    let x = BigDecimal::from_str(a).unwrap();
    let y = BigDecimal::from_str(b).unwrap();
    let sum = x + y;
    let (mantissa, scale) = sum.as_bigint_and_exponent();
    (mantissa.to_string(), scale as usize)
}

/// Relies on `substreams::scalar::BigDecimal`: `FromStr` reads decimal
/// text and `PartialOrd` compares the denoted numeric values.
#[verifier::external_body]
fn bigdec_lt(a: &str, b: &str) -> (r: bool)
    requires
        is_dec_chars(a@),
        is_dec_chars(b@),
    ensures
        r == (dec_mantissa(a@) * pow10(dec_scale(b@)) < dec_mantissa(b@) * pow10(dec_scale(a@))),
{
    let x = BigDecimal::from_str(a).unwrap();
    let y = BigDecimal::from_str(b).unwrap();
    x < y
}

/// An arbitrary-precision integer, held as its decimal text.
#[derive(Clone, Debug, PartialEq, Eq)]
pub struct BigIntVal {
    repr: String,
}

/// An arbitrary-precision decimal, held as its decimal text.
#[derive(Clone, Debug, PartialEq, Eq)]
pub struct BigDecimalVal {
    repr: String,
}

impl View for BigIntVal {
    type V = Seq<char>;

    closed spec fn view(&self) -> Seq<char> {
        self.repr@
    }
}

impl View for BigDecimalVal {
    type V = Seq<char>;

    closed spec fn view(&self) -> Seq<char> {
        self.repr@
    }
}

/// Scan `s` and report whether it is an integer literal.
#[verifier::loop_isolation(false)]
fn check_int_chars(s: &str) -> (r: bool)
    ensures
        r == is_int_chars(s@),
{
    let n = s.unicode_len();
    if n == 0 {
        return false;
    }
    let neg = s.get_char(0) == '-';
    let start: usize = if neg {
        1
    } else {
        0
    };
    if start == n {
        return false;
    }
    let mut i = start;
    while i < n
        invariant
            start <= i <= n,
            forall|j: int| start <= j < i ==> is_digit(#[trigger] s@[j]),
        decreases n - i,
    {
        let c = s.get_char(i);
        let u = c as u32;
        if u < 48 || u > 57 {
            proof {
                assert(!is_digit(s@[i as int])) by {
                    assert('0' as u32 == 48 && '9' as u32 == 57);
                }
                if neg {
                    assert(s@.subrange(1, n as int)[i - 1] == s@[i as int]);
                    assert(!all_digits(s@.subrange(1, n as int)));
                } else {
                    assert(!all_digits(s@));
                }
            }
            return false;
        }
        proof {
            assert(is_digit(s@[i as int])) by {
                assert('0' as u32 == 48 && '9' as u32 == 57);
            }
        }
        i += 1;
    }
    proof {
        if neg {
            assert(all_digits(s@.subrange(1, n as int)));
        } else {
            assert(all_digits(s@));
        }
    }
    true
}

/// Scan `s` for its point, if any, and report whether it is a decimal
/// literal.
#[verifier::loop_isolation(false)]
fn check_dec_chars(s: &str) -> (r: bool)
    ensures
        r == is_dec_chars(s@),
{
    let n = s.unicode_len();
    // Find the first point.
    let mut p: usize = 0;
    while p < n && s.get_char(p) != '.'
        invariant
            0 <= p <= n,
            forall|j: int| 0 <= j < p ==> s@[j] != '.',
        decreases n - p,
    {
        p += 1;
    }
    if p == n {
        proof {
            lemma_first_occurrence_none(s@, '.');
        }
        return check_int_chars(s);
    }
    proof {
        lemma_first_occurrence_at(s@, '.', p as int);
    }
    if p + 1 >= n {
        return false;
    }
    if p == 0 {
        return false;
    }
    let neg = s.get_char(0) == '-';
    if neg && p == 1 {
        return false;
    }
    // The spliced string: everything but the point must form an integer
    // literal.  Scan the two halves directly.
    let ghost spliced = s@.subrange(0, p as int) + s@.subrange(p + 1, n as int);
    let start: usize = if neg {
        1
    } else {
        0
    };
    let mut i = start;
    let mut ok = true;
    while i < n
        invariant
            start <= i <= n,
            n == s@.len(),
            ok ==> forall|j: int| start <= j < i && j != p ==> is_digit(#[trigger] s@[j]),
            !ok ==> (exists|j: int| start <= j < n && j != p && !is_digit(#[trigger] s@[j])),
        decreases n - i,
    {
        if i != p {
            let c = s.get_char(i);
            let u = c as u32;
            proof {
                assert(('0' as u32 == 48 && '9' as u32 == 57));
            }
            if u < 48 || u > 57 {
                ok = false;
            }
        }
        i += 1;
    }
    proof {
        assert(forall|j: int|
            0 <= j < spliced.len() ==> #[trigger] spliced[j] == (if j < p {
                s@[j]
            } else {
                s@[j + 1]
            }));
        if ok {
            assert(all_digits(spliced.subrange(start as int, spliced.len() as int)));
            if neg {
                assert(spliced[0] == '-');
                assert(is_int_chars(spliced)) by {
                    assert(spliced.subrange(1, spliced.len() as int) =~= spliced.subrange(
                        start as int,
                        spliced.len() as int,
                    ));
                }
            } else {
                assert(spliced[0] != '-') by {
                    assert(s@[0] != '-');
                }
                assert(all_digits(spliced)) by {
                    assert(spliced.subrange(0, spliced.len() as int) =~= spliced);
                }
            }
        } else {
            let j = choose|j: int|
                start <= j < n && j != p && !is_digit(#[trigger] s@[j]);
            if j < p {
                assert(spliced[j] == s@[j]);
            } else {
                assert(spliced[j - 1] == s@[j]);
            }
            if neg {
                let sub = spliced.subrange(1, spliced.len() as int);
                assert(!all_digits(sub)) by {
                    if j < p {
                        assert(sub[j - 1] == spliced[j]);
                    } else {
                        assert(sub[j - 2] == spliced[j - 1]);
                    }
                }
            } else {
                assert(!all_digits(spliced));
            }
            assert(!is_int_chars(spliced));
        }
    }
    ok
}

impl FromBytes for BigIntVal {
    closed spec fn inv(&self) -> bool {
        is_int_chars(self.repr@)
    }

    open spec fn vinv(v: Seq<char>) -> bool {
        is_int_chars(v)
    }

    proof fn lemma_inv_view(&self) {
    }

    open spec fn decoded(bytes: Seq<u8>) -> Result<Seq<char>, EncodingError> {
        if !valid_utf8(bytes) {
            Err(EncodingError::InvalidUtf8)
        } else if is_int_chars(decode_utf8(bytes)) {
            Ok(decode_utf8(bytes))
        } else {
            Err(EncodingError::ParseFailure)
        }
    }

    fn from_bytes(bytes: &[u8]) -> (r: Result<Self, EncodingError>) {
        let s = match utf8_to_string(bytes) {
            Some(s) => s,
            None => {
                return Err(EncodingError::InvalidUtf8);
            },
        };
        if check_int_chars(s.as_str()) {
            Ok(BigIntVal { repr: s })
        } else {
            Err(EncodingError::ParseFailure)
        }
    }
}

impl ToBytes for BigIntVal {
    open spec fn encoded_of(v: Seq<char>) -> Seq<u8> {
        encode_utf8(v)
    }

    fn to_bytes(&self) -> (r: Vec<u8>) {
        proof {
            broadcast use vstd::utf8::encode_utf8_valid_utf8, vstd::utf8::encode_utf8_decode_utf8;

        }
        self.repr.as_str().as_bytes_vec()
    }

    proof fn lemma_encode_decodes(v: Seq<char>) {
        broadcast use vstd::utf8::encode_utf8_valid_utf8, vstd::utf8::encode_utf8_decode_utf8;

    }
}

impl BigIntVal {
    /// Build an arbitrary-precision integer from its decimal text;
    /// rejects anything that is not an integer literal.
    pub fn new(text: &str) -> (r: Option<BigIntVal>)
        ensures
            (match r {
                Some(v) => is_int_chars(text@) && v@ == text@ && v.inv(),
                None => !is_int_chars(text@),
            }),
    {
        if check_int_chars(text) {
            Some(BigIntVal { repr: text.to_owned() })
        } else {
            None
        }
    }

    /// The decimal text of the value.
    pub fn text(&self) -> (r: String)
        ensures
            r@ == self@,
    {
        self.repr.as_str().to_owned()
    }
}

impl Numeric for BigIntVal {
    open spec fn zero_spec() -> Seq<char> {
        seq!['0']
    }

    open spec fn eq_spec(a: Seq<char>, b: Seq<char>) -> bool {
        int_of(a) == int_of(b)
    }

    open spec fn lt_spec(a: Seq<char>, b: Seq<char>) -> bool {
        int_of(a) < int_of(b)
    }

    open spec fn add_spec(a: Seq<char>, b: Seq<char>) -> Seq<char> {
        int_chars(int_of(a) + int_of(b))
    }

    fn zero_value() -> (r: Self) {
        let z = <String as StringExecFns>::from_str("0");
        proof {
            reveal_strlit("0");
            assert(z@ =~= seq!['0']);
            assert(is_int_chars(z@)) by {
                assert(z@[0] == '0');
                assert(is_digit('0'));
            }
        }
        BigIntVal { repr: z }
    }

    fn lt_value(&self, other: &Self) -> (r: bool) {
        bigint_lt(self.repr.as_str(), other.repr.as_str())
    }

    fn add_value(&self, other: &Self) -> (r: Self) {
        let sum = bigint_add(self.repr.as_str(), other.repr.as_str());
        proof {
            lemma_int_chars_wf(int_of(self.repr@) + int_of(other.repr@));
        }
        BigIntVal { repr: sum }
    }

    proof fn lemma_strict_order(a: Seq<char>, b: Seq<char>, c: Seq<char>) {
    }

    proof fn lemma_zero_vinv() {
        assert(is_int_chars(seq!['0'])) by {
            assert(seq!['0'][0] == '0');
            assert(is_digit('0'));
        }
    }

    proof fn lemma_add_vinv(a: Seq<char>, b: Seq<char>) {
        lemma_int_chars_wf(int_of(a) + int_of(b));
    }
}

/// The canonical decimal text of any integer is an integer literal.
pub proof fn lemma_int_chars_wf(v: int)
    ensures
        is_int_chars(int_chars(v)),
        int_of(int_chars(v)) == v,
{
    let cs = int_chars(v);
    if v < 0 {
        lemma_digits_of_val(-v);
        let dd = digits_of(-v);
        assert(cs =~= seq!['-'] + dd);
        assert(cs[0] == '-');
        assert(cs.subrange(1, cs.len() as int) =~= dd);
        assert(int_of(cs) == -digits_val(dd));
    } else {
        lemma_digits_of_val(v);
        assert(cs[0] != '-') by {
            assert(is_digit(cs[0]));
        }
    }
}

/// The canonical decimal text of any mantissa and scale is a decimal
/// literal.
pub proof fn lemma_dec_chars_wf(m: int, s: nat)
    ensures
        is_dec_chars(dec_chars(m, s)),
{
    if m < 0 {
        lemma_digits_of_val(-m);
    } else {
        lemma_digits_of_val(m);
    }
    if s == 0 {
        let cs = dec_chars(m, s);
        lemma_int_chars_wf(m);
        assert(forall|j: int| 0 <= j < cs.len() ==> cs[j] != '.') by {
            if m < 0 {
                assert(forall|j: int|
                    1 <= j < cs.len() ==> cs[j] == digits_of(-m)[j - 1] && is_digit(
                        #[trigger] cs[j],
                    ));
            } else {
                assert(forall|j: int| 0 <= j < cs.len() ==> is_digit(#[trigger] cs[j]));
            }
        }
        lemma_first_occurrence_none(cs, '.');
    } else {
        let out = dec_chars(m, s);
        let mag = digits_of(if m < 0 {
            -m
        } else {
            m
        });
        let padded = (if mag.len() < s + 1 {
            zero_chars((s + 1 - mag.len()) as nat) + mag
        } else {
            mag
        });
        let cut = padded.len() - s;
        let sign = (if m < 0 {
            seq!['-']
        } else {
            Seq::<char>::empty()
        });
        assert(forall|j: int|
            0 <= j < padded.len() ==> is_digit(#[trigger] padded[j]) && padded[j] != '.');
        assert(out =~= sign + padded.subrange(0, cut as int) + seq!['.'] + padded.subrange(
            cut as int,
            padded.len() as int,
        ));
        let p = sign.len() + cut;
        assert(out[p as int] == '.');
        assert(forall|j: int| 0 <= j < p ==> out[j] != '.') by {
            assert(forall|j: int|
                sign.len() <= j < p ==> out[j] == padded.subrange(0, cut as int)[j - sign.len()]);
        }
        lemma_first_occurrence_at(out, '.', p as int);
        let spliced = out.subrange(0, p as int) + out.subrange(p as int + 1, out.len() as int);
        assert(spliced =~= sign + padded);
        if m < 0 {
            assert(spliced[0] == '-');
            assert(spliced.subrange(1, spliced.len() as int) =~= padded);
            assert(is_int_chars(spliced));
        } else {
            assert(spliced =~= padded);
            assert(spliced[0] != '-');
            assert(is_int_chars(spliced));
        }
    }
}

impl FromBytes for BigDecimalVal {
    closed spec fn inv(&self) -> bool {
        is_dec_chars(self.repr@)
    }

    open spec fn vinv(v: Seq<char>) -> bool {
        is_dec_chars(v)
    }

    proof fn lemma_inv_view(&self) {
    }

    open spec fn decoded(bytes: Seq<u8>) -> Result<Seq<char>, EncodingError> {
        if !valid_utf8(bytes) {
            Err(EncodingError::InvalidUtf8)
        } else if is_dec_chars(decode_utf8(bytes)) {
            Ok(decode_utf8(bytes))
        } else {
            Err(EncodingError::ParseFailure)
        }
    }

    fn from_bytes(bytes: &[u8]) -> (r: Result<Self, EncodingError>) {
        let s = match utf8_to_string(bytes) {
            Some(s) => s,
            None => {
                return Err(EncodingError::InvalidUtf8);
            },
        };
        if check_dec_chars(s.as_str()) {
            Ok(BigDecimalVal { repr: s })
        } else {
            Err(EncodingError::ParseFailure)
        }
    }
}

impl ToBytes for BigDecimalVal {
    open spec fn encoded_of(v: Seq<char>) -> Seq<u8> {
        encode_utf8(v)
    }

    fn to_bytes(&self) -> (r: Vec<u8>) {
        proof {
            broadcast use vstd::utf8::encode_utf8_valid_utf8, vstd::utf8::encode_utf8_decode_utf8;

        }
        self.repr.as_str().as_bytes_vec()
    }

    proof fn lemma_encode_decodes(v: Seq<char>) {
        broadcast use vstd::utf8::encode_utf8_valid_utf8, vstd::utf8::encode_utf8_decode_utf8;

    }
}

impl BigDecimalVal {
    /// Build an arbitrary-precision decimal from its decimal text;
    /// rejects anything that is not a decimal literal.
    pub fn new(text: &str) -> (r: Option<BigDecimalVal>)
        ensures
            (match r {
                Some(v) => is_dec_chars(text@) && v@ == text@ && v.inv(),
                None => !is_dec_chars(text@),
            }),
    {
        if check_dec_chars(text) {
            Some(BigDecimalVal { repr: text.to_owned() })
        } else {
            None
        }
    }

    /// The decimal text of the value.
    pub fn text(&self) -> (r: String)
        ensures
            r@ == self@,
    {
        self.repr.as_str().to_owned()
    }
}

/// Build the decimal text with mantissa `m` (given as its canonical
/// integer text) and scale `s`: zero-pad the digits so that at least
/// one precedes the point, and insert the point `s` digits from the
/// right.
#[verifier::loop_isolation(false)]
#[verifier::rlimit(60)]
fn dec_format(m_str: &str, s: usize, Ghost(m): Ghost<int>) -> (r: String)
    requires
        m_str@ == int_chars(m),
        s < usize::MAX,
    ensures
        r@ == dec_chars(m, s as nat),
        is_dec_chars(r@),
{
    proof {
        if m < 0 {
            lemma_digits_of_val(-m);
        } else {
            lemma_digits_of_val(m);
        }
    }
    if s == 0 {
        let r = m_str.to_owned();
        proof {
            lemma_int_chars_wf(m);
            assert(forall|j: int| 0 <= j < r@.len() ==> r@[j] != '.') by {
                if m < 0 {
                    assert(forall|j: int|
                        1 <= j < r@.len() ==> r@[j] == digits_of(-m)[j - 1] && is_digit(
                            #[trigger] r@[j],
                        ));
                } else {
                    assert(forall|j: int| 0 <= j < r@.len() ==> is_digit(#[trigger] r@[j]));
                }
            }
            lemma_first_occurrence_none(r@, '.');
        }
        return r;
    }
    let n = m_str.unicode_len();
    let neg = m_str.get_char(0) == '-';
    proof {
        if m < 0 {
            assert(m_str@[0] == '-');
        } else {
            assert(is_digit(m_str@[0]));
            assert(m_str@[0] != '-');
        }
        assert(neg == (m < 0));
    }
    let mag: &str = if neg {
        m_str.substring_char(1, n)
    } else {
        m_str
    };
    let ghost magd = digits_of(if m < 0 { -m } else { m });
    proof {
        if m < 0 {
            assert(m_str@ =~= seq!['-'] + magd);
            assert(mag@ =~= magd);
        } else {
            assert(mag@ =~= magd);
        }
    }
    let mag_len = mag.unicode_len();
    let mut padded: String;
    if mag_len <= s {
        let pad = s - mag_len + 1;
        let mut acc = String::new();
        let mut k: usize = 0;
        while k < pad
            invariant
                0 <= k <= pad,
                acc@ =~= zero_chars(k as nat),
            decreases pad - k,
        {
            acc = acc.concat("0");
            proof {
                reveal_strlit("0");
                assert(acc@ =~= zero_chars((k + 1) as nat));
            }
            k += 1;
        }
        padded = acc.concat(mag);
        proof {
            assert(padded@ =~= zero_chars(pad as nat) + magd);
        }
    } else {
        padded = mag.to_owned();
    }
    let ghost paddedd = (if magd.len() < s + 1 {
        zero_chars((s + 1 - magd.len()) as nat) + magd
    } else {
        magd
    });
    proof {
        assert(padded@ =~= paddedd);
        assert(forall|j: int|
            0 <= j < paddedd.len() ==> is_digit(#[trigger] paddedd[j]) && paddedd[j] != '.');
    }
    let plen = padded.unicode_len();
    let cut = plen - s;
    let ip = padded.as_str().substring_char(0, cut);
    let fp = padded.as_str().substring_char(cut, plen);
    let mut out: String = if neg {
        <String as StringExecFns>::from_str("-")
    } else {
        String::new()
    };
    proof {
        reveal_strlit("-");
    }
    out = out.concat(ip);
    out = out.concat(".");
    out = out.concat(fp);
    proof {
        reveal_strlit(".");
        let sign = (if m < 0 { seq!['-'] } else { Seq::<char>::empty() });
        assert(out@ =~= sign + paddedd.subrange(0, cut as int) + seq!['.'] + paddedd.subrange(
            cut as int,
            paddedd.len() as int,
        ));
        assert(out@ =~= dec_chars(m, s as nat));
        lemma_dec_chars_wf(m, s as nat);
    }
    out
}

impl Numeric for BigDecimalVal {
    open spec fn zero_spec() -> Seq<char> {
        seq!['0']
    }

    /// Equality of denoted values, by cross multiplication.
    open spec fn eq_spec(a: Seq<char>, b: Seq<char>) -> bool {
        dec_mantissa(a) * pow10(dec_scale(b)) == dec_mantissa(b) * pow10(dec_scale(a))
    }

    /// Order of denoted values, by cross multiplication.
    open spec fn lt_spec(a: Seq<char>, b: Seq<char>) -> bool {
        dec_mantissa(a) * pow10(dec_scale(b)) < dec_mantissa(b) * pow10(dec_scale(a))
    }

    /// The sum, rendered at the larger of the two scales.
    open spec fn add_spec(a: Seq<char>, b: Seq<char>) -> Seq<char> {
        dec_chars(sum_mantissa(a, b), max_scale(dec_scale(a), dec_scale(b)))
    }

    fn zero_value() -> (r: Self) {
        let z = <String as StringExecFns>::from_str("0");
        proof {
            reveal_strlit("0");
            assert(z@ =~= seq!['0']);
            assert(is_int_chars(z@)) by {
                assert(z@[0] == '0');
                assert(is_digit('0'));
            }
            assert(z@[0] != '.');
            lemma_first_occurrence_none(z@, '.');
        }
        BigDecimalVal { repr: z }
    }

    fn lt_value(&self, other: &Self) -> (r: bool) {
        bigdec_lt(self.repr.as_str(), other.repr.as_str())
    }

    fn add_value(&self, other: &Self) -> (r: Self) {
        let la = self.repr.as_str().unicode_len();
        let lb = other.repr.as_str().unicode_len();
        let (ms, sc) = bigdec_add(self.repr.as_str(), other.repr.as_str());
        proof {
            lemma_first_occurrence(self.repr@, '.');
            lemma_first_occurrence(other.repr@, '.');
            assert(dec_scale(self.repr@) <= la);
            assert(dec_scale(other.repr@) <= lb);
            assert(sc < usize::MAX);
        }
        let formatted = dec_format(
            ms.as_str(),
            sc,
            Ghost(sum_mantissa(self.repr@, other.repr@)),
        );
        BigDecimalVal { repr: formatted }
    }

    proof fn lemma_strict_order(a: Seq<char>, b: Seq<char>, c: Seq<char>) {
        let ma = dec_mantissa(a);
        let mb = dec_mantissa(b);
        let mc = dec_mantissa(c);
        let pa = pow10(dec_scale(a));
        let pb = pow10(dec_scale(b));
        let pc = pow10(dec_scale(c));
        lemma_pow10_pos(dec_scale(a));
        lemma_pow10_pos(dec_scale(b));
        lemma_pow10_pos(dec_scale(c));
        if ma * pb < mb * pa && mb * pc < mc * pb {
            assert(ma * pc < mc * pa) by (nonlinear_arith)
                requires
                    ma * pb < mb * pa,
                    mb * pc < mc * pb,
                    pa >= 1,
                    pb >= 1,
                    pc >= 1,
            ;
        }
    }

    proof fn lemma_zero_vinv() {
        assert(is_int_chars(seq!['0'])) by {
            assert(seq!['0'][0] == '0');
            assert(is_digit('0'));
        }
        assert(forall|j: int| 0 <= j < seq!['0'].len() ==> seq!['0'][j] != '.');
        lemma_first_occurrence_none(seq!['0'], '.');
    }

    proof fn lemma_add_vinv(a: Seq<char>, b: Seq<char>) {
        lemma_dec_chars_wf(sum_mantissa(a, b), max_scale(dec_scale(a), dec_scale(b)));
    }
}

} // verus!
