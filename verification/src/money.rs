use vstd::prelude::*;

use crate::decimal::{
    dec_round_to_micros, dec_wf, lemma_pow10_pos, lemma_pow10_values, micros_of, pow10,
    pow10_i128, round_half_away, spec_max_mantissa, ExactDecimal,
};
use crate::engine::EngineError;
use vstd::arithmetic::div_mod::lemma_div_by_multiple;
use vstd::string::StringExecFns;
use vstd::utf8::{encode_utf8, is_ascii_chars, is_ascii_chars_encode_utf8};

verus! {

/// An exact money amount: a signed count of micro-units (millionths of a
/// currency unit), carried across the host boundary as the base-10 string
/// of that integer.
#[derive(Clone, Debug)]
pub struct Money {
    pub micro: String,
}

/// Whether the byte is an ASCII decimal digit.
pub open spec fn is_digit_byte(b: u8) -> bool {
    48 <= b <= 57
}

/// Whether every byte of the sequence is an ASCII decimal digit.
pub open spec fn all_digit_bytes(s: Seq<u8>) -> bool {
    forall|i: int| 0 <= i < s.len() ==> is_digit_byte(#[trigger] s[i])
}

/// The number written by a sequence of ASCII digit bytes.
pub open spec fn digits_val(s: Seq<u8>) -> int
    decreases s.len(),
{
    if s.len() == 0 {
        0
    } else {
        digits_val(s.drop_last()) * 10 + (s.last() - 48)
    }
}

/// The signed integer written by a money micro-string: an optional sign
/// followed by at least one ASCII digit. `None` when the bytes are not of
/// that shape.
pub open spec fn money_bytes_val(s: Seq<u8>) -> Option<int> {
    if s.len() >= 1 && (s[0] == 43 || s[0] == 45) {
        if s.len() >= 2 && all_digit_bytes(s.skip(1)) {
            if s[0] == 45 {
                Some(-digits_val(s.skip(1)))
            } else {
                Some(digits_val(s.skip(1)))
            }
        } else {
            None
        }
    } else if s.len() >= 1 && all_digit_bytes(s) {
        Some(digits_val(s))
    } else {
        None
    }
}

proof fn lemma_digits_val_nonneg(s: Seq<u8>)
    requires
        all_digit_bytes(s),
    ensures
        digits_val(s) >= 0,
    decreases s.len(),
{
    if s.len() > 0 {
        assert(all_digit_bytes(s.drop_last())) by {
            assert(forall|i: int|
                0 <= i < s.len() - 1 ==> is_digit_byte(#[trigger] s.drop_last()[i]));
        }
        lemma_digits_val_nonneg(s.drop_last());
    }
}

/// Each digit appended on the right can only grow a digit string's value.
proof fn lemma_digits_val_grows(s: Seq<u8>, i: int)
    requires
        all_digit_bytes(s),
        0 <= i <= s.len(),
    ensures
        digits_val(s) >= digits_val(s.subrange(0, i)),
    decreases s.len() - i,
{
    if i < s.len() {
        lemma_digits_val_grows(s, i + 1);
        let t = s.subrange(0, i + 1);
        assert(all_digit_bytes(t));
        assert(t.drop_last() =~= s.subrange(0, i));
        lemma_digits_val_nonneg(s.subrange(0, i));
        assert(digits_val(t) == digits_val(s.subrange(0, i)) * 10 + (t.last() - 48));
        lemma_digits_val_nonneg(t);
    } else {
        assert(s.subrange(0, i) =~= s);
    }
}

/// The magnitude written by `bytes[start..]`, when that run is one or
/// more digits and names a number under the 96-bit bound.
fn parse_digits(bytes: &[u8], start: usize) -> (r: Option<i128>)
    requires
        start <= bytes@.len(),
    ensures
        match r {
            Some(v) => {
                &&& bytes@.len() > start
                &&& all_digit_bytes(bytes@.skip(start as int))
                &&& v as int == digits_val(bytes@.skip(start as int))
                &&& 0 <= v as int
                &&& (v as int) < spec_max_mantissa()
            },
            None => {
                ||| bytes@.len() == start
                ||| !all_digit_bytes(bytes@.skip(start as int))
                ||| digits_val(bytes@.skip(start as int)) >= spec_max_mantissa()
            },
        },
{
    let ghost whole = bytes@.skip(start as int);
    let n = bytes.len();
    if start >= n {
        return None;
    }
    let mut acc: i128 = 0;
    let mut i = start;
    while i < n
        invariant
            start <= i <= n,
            n == bytes@.len(),
            whole == bytes@.skip(start as int),
            all_digit_bytes(whole.subrange(0, i - start)),
            acc as int == digits_val(whole.subrange(0, i - start)),
            0 <= acc as int,
            (acc as int) < spec_max_mantissa(),
        decreases n - i,
    {
        let b = bytes[i];
        if b < 48 || b > 57 {
            assert(whole[i - start] == bytes@[i as int]);
            return None;
        }
        let d = (b - 48) as i128;
        acc = acc * 10 + d;
        proof {
            let prev = whole.subrange(0, i - start);
            let cur = whole.subrange(0, i + 1 - start);
            assert(cur.drop_last() =~= prev);
            assert(cur.last() == bytes@[i as int]);
            assert(digits_val(cur) == digits_val(prev) * 10 + (bytes@[i as int] - 48));
        }
        i = i + 1;
        if acc >= 79228162514264337593543950336i128 {
            proof {
                if all_digit_bytes(whole) {
                    lemma_digits_val_grows(whole, i - start);
                }
            }
            return None;
        }
    }
    proof {
        assert(whole.subrange(0, n - start) =~= whole);
    }
    Some(acc)
}

impl Money {
    /// Reads the micro-string as a signed count of micro-units and
    /// reinterprets it as the exact decimal scaled by a millionth.
    ///
    /// Succeeds exactly on an optional sign followed by digits naming a
    /// number within the engine's 96-bit range; anything else is an
    /// invalid money amount carrying the offending string.
    pub fn to_decimal(&self) -> (r: Result<ExactDecimal, EngineError>)
        ensures
            match money_bytes_val(encode_utf8(self.micro@)) {
                Some(v) => {
                    if -spec_max_mantissa() < v < spec_max_mantissa() {
                        r matches Ok(d) && d.mantissa as int == v && d.scale == 6 && dec_wf(d)
                    } else {
                        r matches Err(e) && e matches EngineError::InvalidMoney(s) && s@
                            == self.micro@
                    }
                },
                None => r matches Err(e) && e matches EngineError::InvalidMoney(s) && s@
                    == self.micro@,
            },
    {
        let bytes = self.micro.as_str().as_bytes();
        let ghost bs = encode_utf8(self.micro@);
        assert(bytes@ == bs);
        if bytes.len() == 0 {
            return Err(EngineError::InvalidMoney(self.micro.clone()));
        }
        let first = bytes[0];
        let negative: bool = first == 45;
        let start: usize = if first == 43 || first == 45 {
            1
        } else {
            0
        };
        match parse_digits(bytes, start) {
            None => {
                proof {
                    if start == 0 && bytes@.len() > 0 && all_digit_bytes(bs) {
                        assert(bs.skip(0) =~= bs);
                    }
                }
                Err(EngineError::InvalidMoney(self.micro.clone()))
            },
            Some(mag) => {
                proof {
                    if start == 0 {
                        assert(bs.skip(0) =~= bs);
                        assert(is_digit_byte(bs[0]));
                    }
                }
                let mantissa = if negative {
                    -mag
                } else {
                    mag
                };
                Ok(ExactDecimal { mantissa, scale: 6 })
            },
        }
    }

    /// Rounds the exact decimal to the nearest micro-unit, a midpoint
    /// away from zero, and encodes the resulting micro-count as its
    /// base-10 string. Fails with an overflow when the rounded count
    /// leaves the engine's 96-bit range, and on a malformed decimal.
    pub fn from_decimal(value: &ExactDecimal) -> (r: Result<Money, EngineError>)
        ensures
            dec_wf(*value) ==> {
                let micros = micros_of(value.mantissa as int, value.scale as int);
                if -spec_max_mantissa() < micros < spec_max_mantissa() {
                    r matches Ok(w) && w.micro@ == spec_int_string(micros)
                } else {
                    r matches Err(e) && e is Overflow
                }
            },
            !dec_wf(*value) ==> (r matches Err(e) && e is Overflow),
    {
        if !value.is_well_formed() {
            return Err(EngineError::Overflow);
        }
        let rounded = dec_round_to_micros(value);
        let factor = pow10_i128(6 - rounded.scale);
        proof {
            lemma_pow10_values();
            crate::decimal::lemma_pow10_mono((6 - rounded.scale) as nat, 6);
            lemma_pow10_pos((6 - rounded.scale) as nat);
            assert(rounded.mantissa as int * (factor as int) < spec_max_mantissa() * 1000000
                && rounded.mantissa as int * (factor as int) > -spec_max_mantissa()
                * 1000000) by (nonlinear_arith)
                requires
                    -spec_max_mantissa() < rounded.mantissa as int,
                    (rounded.mantissa as int) < spec_max_mantissa(),
                    1 <= factor as int <= 1000000,
            ;
        }
        let micros = rounded.mantissa * factor;
        if micros <= -79228162514264337593543950336i128
            || micros >= 79228162514264337593543950336i128 {
            return Err(EngineError::Overflow);
        }
        Ok(Money { micro: int_to_string(micros) })
    }
}

/// The character for a single decimal digit.
pub open spec fn digit_char(d: int) -> char {
    if d == 0 {
        '0'
    } else if d == 1 {
        '1'
    } else if d == 2 {
        '2'
    } else if d == 3 {
        '3'
    } else if d == 4 {
        '4'
    } else if d == 5 {
        '5'
    } else if d == 6 {
        '6'
    } else if d == 7 {
        '7'
    } else if d == 8 {
        '8'
    } else {
        '9'
    }
}

/// The base-10 digit string of a non-negative number, most significant
/// digit first.
pub open spec fn nat_digits(n: int) -> Seq<char>
    decreases n,
{
    if n < 10 {
        seq![digit_char(if n < 0 { 0 } else { n })]
    } else {
        nat_digits(n / 10).push(digit_char(n % 10))
    }
}

/// The base-10 string of a signed number: a minus sign for negatives,
/// then the digits of its magnitude.
pub open spec fn spec_int_string(v: int) -> Seq<char> {
    if v >= 0 {
        nat_digits(v)
    } else {
        seq!['-'] + nat_digits(-v)
    }
}

proof fn lemma_digit_char_val(d: int)
    requires
        0 <= d <= 9,
    ensures
        digit_char(d) as u8 == 48 + d,
        '\0' <= digit_char(d) <= '\u{7f}',
{
}

/// The digit string of a non-negative number is never empty, holds only
/// ASCII digits, and writes that number back in base 10.
proof fn lemma_digits_bytes(n: int)
    requires
        n >= 0,
    ensures
        nat_digits(n).len() >= 1,
        is_ascii_chars(nat_digits(n)),
        all_digit_bytes(Seq::new(nat_digits(n).len(), |i: int| nat_digits(n)[i] as u8)),
        digits_val(Seq::new(nat_digits(n).len(), |i: int| nat_digits(n)[i] as u8)) == n,
    decreases n,
{
    let cs = nat_digits(n);
    let bs = Seq::new(cs.len(), |i: int| cs[i] as u8);
    if n < 10 {
        lemma_digit_char_val(n);
        assert(bs.drop_last() =~= Seq::<u8>::empty());
        assert(digits_val(bs) == digits_val(bs.drop_last()) * 10 + (bs.last() - 48));
    } else {
        lemma_digits_bytes(n / 10);
        lemma_digit_char_val(n % 10);
        let cs0 = nat_digits(n / 10);
        let bs0 = Seq::new(cs0.len(), |i: int| cs0[i] as u8);
        assert(cs =~= cs0.push(digit_char(n % 10)));
        assert(bs.drop_last() =~= bs0);
        assert(bs.last() == digit_char(n % 10) as u8);
        assert(digits_val(bs) == digits_val(bs0) * 10 + (n % 10));
        vstd::arithmetic::div_mod::lemma_fundamental_div_mod(n, 10);
        assert forall|i: int| 0 <= i < bs.len() implies is_digit_byte(#[trigger] bs[i]) by {
            if i < bs.len() - 1 {
                assert(bs[i] == bs0[i]);
            } else {
                assert(bs[i] == digit_char(n % 10) as u8);
            }
        }
        assert forall|i: int| 0 <= i < cs.len() implies '\0' <= #[trigger] cs[i] <= '\u{7f}' by {
            if i < cs.len() - 1 {
                assert(cs[i] == cs0[i]);
            } else {
                assert(cs[i] == digit_char(n % 10));
            }
        }
    }
}

/// Law of round-trip exactness: a micro-count within the engine's range,
/// written as its base-10 string, reads back as exactly the same count,
/// and rounding the micro-scaled decimal it denotes changes nothing.
/// Together with the contracts of `Money::to_decimal` and
/// `Money::from_decimal` this says that decoding a money string to its
/// exact decimal and encoding it again is the identity.
pub proof fn lemma_money_round_trip(m: int)
    requires
        -spec_max_mantissa() < m,
        m < spec_max_mantissa(),
    ensures
        money_bytes_val(encode_utf8(spec_int_string(m))) == Some(m),
        micros_of(m, 6) == m,
{
    lemma_pow10_values();
    assert(micros_of(m, 6) == m * 1);
    if m >= 0 {
        lemma_digits_bytes(m);
        let cs = nat_digits(m);
        let bs = Seq::new(cs.len(), |i: int| cs[i] as u8);
        is_ascii_chars_encode_utf8(cs);
        let enc = encode_utf8(cs);
        assert(enc =~= bs);
        assert(is_digit_byte(enc[0]));
        assert(money_bytes_val(enc) == Some(digits_val(enc)));
    } else {
        lemma_digits_bytes(-m);
        let ds = nat_digits(-m);
        let cs = seq!['-'] + ds;
        assert(spec_int_string(m) == cs);
        let dbs = Seq::new(ds.len(), |i: int| ds[i] as u8);
        assert(is_ascii_chars(cs)) by {
            assert(forall|i: int| 1 <= i < cs.len() ==> cs[i] == ds[i - 1]);
        }
        is_ascii_chars_encode_utf8(cs);
        let enc = encode_utf8(cs);
        assert(enc =~= Seq::new(cs.len(), |i: int| cs[i] as u8));
        assert(enc[0] == '-' as u8);
        assert(enc.skip(1) =~= dbs) by {
            assert(forall|i: int| 0 <= i < ds.len() ==> cs[i + 1] == ds[i]);
        }
        assert(enc.len() >= 2);
        assert(money_bytes_val(enc) == Some(-digits_val(dbs)));
    }
}

/// Law of midpoint rounding: a value standing exactly halfway between
/// the micro-counts `k` and `k + 1` rounds away from zero, on both sides
/// of zero. The premise says that `m * 10^(-s)` currency units are
/// exactly `k + 1/2` micro-units.
pub proof fn lemma_midpoint_rounds_away(m: int, s: int, k: int)
    requires
        6 < s <= 28,
        m > 0,
        2 * m == (2 * k + 1) * pow10((s - 6) as nat),
    ensures
        micros_of(m, s) == k + 1,
        micros_of(-m, s) == -(k + 1),
{
    let d = pow10((s - 6) as nat);
    lemma_pow10_pos((s - 6) as nat);
    assert(2 * k + 1 > 0) by (nonlinear_arith)
        requires
            d >= 1,
            (2 * k + 1) * d == 2 * m,
            m > 0,
    ;
    assert(2 * m + d == (k + 1) * (2 * d)) by (nonlinear_arith)
        requires
            2 * m == (2 * k + 1) * d,
    ;
    lemma_div_by_multiple(k + 1, 2 * d);
    assert(((k + 1) * (2 * d)) / (2 * d) == k + 1);
    assert(micros_of(m, s) == (2 * m + d) / (2 * d));
    assert(micros_of(-m, s) == -((2 * m + d) / (2 * d)));
}

/// The one-character string for a decimal digit.
fn digit_str(d: u8) -> (r: &'static str)
    requires
        d < 10,
    ensures
        r@ =~= seq![digit_char(d as int)],
{
    proof {
        reveal_strlit("0");
        reveal_strlit("1");
        reveal_strlit("2");
        reveal_strlit("3");
        reveal_strlit("4");
        reveal_strlit("5");
        reveal_strlit("6");
        reveal_strlit("7");
        reveal_strlit("8");
        reveal_strlit("9");
    }
    if d == 0 {
        "0"
    } else if d == 1 {
        "1"
    } else if d == 2 {
        "2"
    } else if d == 3 {
        "3"
    } else if d == 4 {
        "4"
    } else if d == 5 {
        "5"
    } else if d == 6 {
        "6"
    } else if d == 7 {
        "7"
    } else if d == 8 {
        "8"
    } else {
        "9"
    }
}

/// Appends the digits of `n` to the string, most significant first.
fn push_digits(s: &mut String, n: u128)
    ensures
        final(s)@ == old(s)@ + nat_digits(n as int),
    decreases n,
{
    if n >= 10 {
        push_digits(s, n / 10);
    }
    let d = (n % 10) as u8;
    s.append(digit_str(d));
    proof {
        assert(s@ =~= old(s)@ + nat_digits(n as int));
    }
}

/// The base-10 string of a signed micro-count.
pub fn int_to_string(m: i128) -> (r: String)
    ensures
        r@ == spec_int_string(m as int),
{
    let mut s = String::new();
    if m < 0 {
        proof {
            reveal_strlit("-");
        }
        s.append("-");
        let mag: u128 = (-(m + 1)) as u128 + 1;
        assert(mag as int == -(m as int));
        push_digits(&mut s, mag);
        assert(s@ =~= spec_int_string(m as int));
    } else {
        push_digits(&mut s, m as u128);
        assert(s@ =~= spec_int_string(m as int));
    }
    s
}

} // verus!
