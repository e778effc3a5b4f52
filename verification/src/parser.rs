use vstd::prelude::*;
use vstd::string::StringSliceAdditionalSpecFns;

use crate::order::Side;
use crate::text::{
    all_digits, all_zeros, digits_value, find_byte, find_byte_exec, is_digit, lemma_digits_value_bound,
    lemma_digits_value_nonneg, lemma_pow10_add, lemma_pow10_18, lemma_pow10_monotone, parse_digits,
    parse_i64, pow10, pow10_exec, slices_of, spec_parse_i64, split_fields, split_fields_exec, DOT, MINUS, PLUS,
    ZERO, lemma_find_byte, lemma_find_byte_append, lemma_find_byte_facts, comma_count, lemma_split_fields_len,
};

verus! {

/// Declares `std::io::ErrorKind`, carried opaquely by `ParseError::Io`;
/// nothing about its values is claimed.
#[verifier::external_type_specification]
#[verifier::external_body]
pub struct ExIoErrorKind(std::io::ErrorKind);

/// Prices are scaled by ten to this power (tick size 0.01).
pub const PRICE_PRECISION: u32 = 2;

/// Quantities are scaled by ten to this power (step size 0.001).
pub const QTY_PRECISION: u32 = 3;

/// One row of the aggregated trades feed.
#[derive(Debug, Clone, Copy, PartialEq, Eq, Structural)]
pub struct Trade {
    pub timestamp: i64,
    pub price: i64,
    pub qty: i64,
    pub consumed: Side,
}

/// One row of the best bid and offer feed.
#[derive(Debug, Clone, Copy, PartialEq, Eq, Structural)]
pub struct BookTicker {
    pub timestamp: i64,
    pub best_bid_price: i64,
    pub best_bid_qty: i64,
    pub best_ask_price: i64,
    pub best_ask_qty: i64,
}

/// Why a row could not be read, or the replay could not go on.
#[derive(Debug, Clone, Copy, PartialEq, Eq)]
pub enum ParseError {
    /// The field is not a decimal number in the feed's format: a corrupt row.
    Malformed,
    /// The field is a number with a non-zero digit beyond the assumed tick
    /// or step size: a broken assumption.
    TooPrecise,
    /// The row does not have the feed's number of fields.
    FieldCount,
    /// Reading the input failed.
    Io(std::io::ErrorKind),
    /// An order was due for insertion before any book snapshot was seen.
    NoOrder,
}

/// Whether `s` is written as an unsigned integer: an optional `+`, then at
/// least one digit. Its value may still be too large for an `i64`.
pub open spec fn is_unsigned_literal(s: Seq<u8>) -> bool {
    let digits = if s.len() > 0 && s[0] == PLUS { s.drop_first() } else { s };
    digits.len() > 0 && all_digits(digits)
}

/// The value of a non-negative fixed-point decimal field, scaled by ten to
/// the power `precision`, as exact integer arithmetic gives it.
///
/// A field that is not a decimal number is malformed: a leading `-`, an
/// integral part that is not written as an unsigned integer, an empty
/// fraction after the first `.`, or a fraction with anything but digits. A
/// well-formed number with a non-zero digit beyond the precision is too
/// precise, whatever its size; zeros beyond the precision are discarded, and
/// a fraction shorter than the precision is right-padded with zeros. Only
/// then must the integral part fit in an `i64`, else the field is malformed.
pub open spec fn spec_parse_scaled(field: Seq<u8>, precision: nat) -> Result<int, ParseError> {
    if field.len() > 0 && field[0] == MINUS {
        Err(ParseError::Malformed)
    } else {
        let dot = find_byte(field, DOT);
        if dot == field.len() {
            match spec_parse_i64(field) {
                Some(n) => Ok(n * pow10(precision)),
                None => Err(ParseError::Malformed),
            }
        } else {
            let integral = field.take(dot);
            let fraction = field.skip(dot + 1);
            if !is_unsigned_literal(integral) || fraction.len() == 0 || !all_digits(fraction) {
                Err(ParseError::Malformed)
            } else if precision < fraction.len() && !all_zeros(fraction.skip(precision as int)) {
                Err(ParseError::TooPrecise)
            } else {
                let scaled_fraction = if precision >= fraction.len() {
                    digits_value(fraction) * pow10((precision - fraction.len()) as nat)
                } else {
                    digits_value(fraction.take(precision as int))
                };
                match spec_parse_i64(integral) {
                    None => Err(ParseError::Malformed),
                    Some(n) => Ok(n * pow10(precision) + scaled_fraction),
                }
            }
        }
    }
}

/// The scaled value of a field, where there is one, fits in an `i64`.
pub open spec fn scaled_in_range(field: Seq<u8>, precision: nat) -> bool {
    spec_parse_scaled(field, precision) matches Ok(v) ==> v <= i64::MAX
}

/// An integer literal that reads is within the range of `i64`.
pub proof fn lemma_parse_i64_range(s: Seq<u8>)
    ensures
        spec_parse_i64(s) matches Some(v) ==> i64::MIN <= v <= i64::MAX,
{
    let digits = if s.len() > 0 && (s[0] == PLUS || s[0] == MINUS) { s.drop_first() } else { s };
    if digits.len() > 0 && all_digits(digits) {
        lemma_digits_value_nonneg(digits);
    }
}

pub proof fn lemma_parse_i64_nonneg(s: Seq<u8>)
    requires
        s.len() == 0 || s[0] != MINUS,
    ensures
        spec_parse_i64(s) matches Some(v) ==> v >= 0,
{
    let digits = if s.len() > 0 && s[0] == PLUS { s.drop_first() } else { s };
    if digits.len() > 0 && all_digits(digits) {
        lemma_digits_value_nonneg(digits);
    }
}

/// One more `0` at the end of a non-empty fraction does not change how the
/// field reads.
proof fn lemma_trailing_zero_discarded(field: Seq<u8>, precision: nat)
    requires
        find_byte(field, DOT) + 1 < field.len(),
    ensures
        spec_parse_scaled(field.push(ZERO), precision) == spec_parse_scaled(field, precision),
{
    let longer = field.push(ZERO);
    let k = find_byte(field, DOT);
    lemma_find_byte_facts(field, DOT);
    assert(longer =~= field + seq![ZERO]);
    lemma_find_byte_append(field, seq![ZERO], DOT);
    assert(longer[0] == field[0]);
    let fraction = field.skip(k + 1);
    let fraction2 = longer.skip(k + 1);
    assert(fraction2 =~= fraction.push(ZERO));
    assert(longer.take(k) =~= field.take(k));
    assert(fraction2.drop_last() =~= fraction);
    assert(all_digits(fraction2) == all_digits(fraction)) by {
        if all_digits(fraction) {
            assert forall|i: int| 0 <= i < fraction2.len() implies #[trigger] is_digit(fraction2[i]) by {
                if i < fraction.len() {
                    assert(fraction2[i] == fraction[i]);
                }
            }
        }
        if all_digits(fraction2) {
            assert forall|i: int| 0 <= i < fraction.len() implies #[trigger] is_digit(fraction[i]) by {
                assert(fraction2[i] == fraction[i]);
            }
        }
    }
    let len = fraction.len();
    if all_digits(fraction) {
        if precision >= len + 1 {
            let e = (precision - len - 1) as nat;
            assert(pow10((precision - len) as nat) == 10 * pow10(e));
            assert(digits_value(fraction2) == digits_value(fraction) * 10);
            assert((digits_value(fraction) * 10) * pow10(e) == digits_value(fraction) * (10 * pow10(e)))
                by (nonlinear_arith);
        } else if precision == len {
            assert(fraction2.skip(precision as int) =~= seq![ZERO]);
            assert(fraction2.take(precision as int) =~= fraction);
            assert(pow10(0) == 1);
        } else {
            let tail = fraction.skip(precision as int);
            let tail2 = fraction2.skip(precision as int);
            assert(tail2 =~= tail.push(ZERO));
            assert(fraction2.take(precision as int) =~= fraction.take(precision as int));
            assert(all_zeros(tail2) == all_zeros(tail)) by {
                if all_zeros(tail) {
                    assert forall|i: int| 0 <= i < tail2.len() implies #[trigger] tail2[i] == ZERO by {
                        if i < tail.len() {
                            assert(tail2[i] == tail[i]);
                        }
                    }
                }
                if all_zeros(tail2) {
                    assert forall|i: int| 0 <= i < tail.len() implies #[trigger] tail[i] == ZERO by {
                        assert(tail2[i] == tail[i]);
                    }
                }
            }
        }
    }
}

/// Zeros appended to a non-empty fraction are discarded: a value reads the
/// same whether written `71455.6` or `71455.60000000`.
pub proof fn lemma_trailing_zeros_discarded(field: Seq<u8>, zeros: Seq<u8>, precision: nat)
    requires
        find_byte(field, DOT) + 1 < field.len(),
        all_zeros(zeros),
    ensures
        spec_parse_scaled(field + zeros, precision) == spec_parse_scaled(field, precision),
    decreases zeros.len(),
{
    if zeros.len() == 0 {
        assert(field + zeros =~= field);
    } else {
        let shorter = zeros.drop_last();
        assert(all_zeros(shorter)) by {
            assert forall|i: int| 0 <= i < shorter.len() implies #[trigger] shorter[i] == ZERO by {
                assert(shorter[i] == zeros[i]);
            }
        }
        lemma_trailing_zeros_discarded(field, shorter, precision);
        let base = field + shorter;
        lemma_find_byte_append(field, shorter, DOT);
        assert(zeros[zeros.len() - 1] == ZERO);
        assert(field + zeros =~= base.push(ZERO));
        lemma_trailing_zero_discarded(base, precision);
    }
}

/// A whole number reads the same with a fraction of zeros after it, at any
/// precision: `50` and `50.0` are the same value.
pub proof fn lemma_zero_fraction_is_whole(whole: Seq<u8>, zeros: Seq<u8>, precision: nat)
    requires
        find_byte(whole, DOT) == whole.len(),
        zeros.len() >= 1,
        all_zeros(zeros),
    ensures
        spec_parse_scaled(whole + seq![DOT] + zeros, precision) == spec_parse_scaled(whole, precision),
{
    let one = whole + seq![DOT, ZERO];
    lemma_find_byte_facts(whole, DOT);
    let n = whole.len() as int;
    assert forall|j: int| 0 <= j < n implies one[j] != DOT by {
        assert(one[j] == whole[j]);
    }
    lemma_find_byte(one, DOT, n);
    if n > 0 {
        assert(one[0] == whole[0]);
    }
    assert(one.take(n) =~= whole);
    assert(one.skip(n + 1) =~= seq![ZERO]);
    assert(seq![ZERO].drop_last() =~= Seq::<u8>::empty());
    assert(digits_value(Seq::<u8>::empty()) == 0);
    assert(seq![ZERO].last() == ZERO);
    assert(digits_value(seq![ZERO]) == 0);
    assert(all_digits(seq![ZERO]));
    let rest = zeros.drop_first();
    assert(all_zeros(rest)) by {
        assert forall|i: int| 0 <= i < rest.len() implies #[trigger] rest[i] == ZERO by {
            assert(rest[i] == zeros[i + 1]);
        }
    }
    assert(zeros[0] == ZERO);
    assert(whole + seq![DOT] + zeros =~= one + rest);
    lemma_trailing_zeros_discarded(one, rest, precision);
}

/// A field is too precise exactly when it is a well-formed decimal number
/// (an unsigned integer part of any size, a `.`, and a non-empty run of
/// digits) with a digit other than `0` beyond the precision. Anything that
/// is not a number is malformed instead, and zeros beyond the precision are
/// never an error.
pub proof fn lemma_too_precise_is_a_number(field: Seq<u8>, precision: nat)
    ensures
        spec_parse_scaled(field, precision) == Err::<int, ParseError>(ParseError::TooPrecise) <==> {
            let dot = find_byte(field, DOT);
            let fraction = field.skip(dot + 1);
            &&& dot < field.len()
            &&& is_unsigned_literal(field.take(dot))
            &&& fraction.len() > 0
            &&& all_digits(fraction)
            &&& precision < fraction.len()
            &&& !all_zeros(fraction.skip(precision as int))
        },
{
    lemma_find_byte_facts(field, DOT);
    let dot = find_byte(field, DOT);
    if dot < field.len() && is_unsigned_literal(field.take(dot)) && field.len() > 0 {
        if dot > 0 {
            assert(field.take(dot)[0] == field[0]);
        } else {
            assert(field.take(dot).len() == 0);
        }
        assert(field[0] != MINUS) by {
            let integral = field.take(dot);
            if dot > 0 {
                if integral[0] == MINUS {
                    assert(!is_digit(integral[0]));
                }
            }
        }
    }
}

/// A trade read from a row carries exactly the values of the row's fields:
/// the price is the second field at price precision, the quantity the third
/// at quantity precision, the timestamp the sixth as an integer, and the bid
/// side was consumed exactly when the seventh is `true` (the ask side when it
/// is `false`). A row with seven fields whose fields all read is a trade.
pub proof fn lemma_trade_is_its_fields(line: Seq<u8>)
    requires
        trade_row_in_range(line),
    ensures
        ({
            let f = split_fields(line);
            &&& spec_parse_trade(line) matches Ok(t) ==> {
                &&& f.len() == 7
                &&& spec_parse_scaled(f[1], 2) == Ok::<int, ParseError>(t.price as int)
                &&& spec_parse_scaled(f[2], 3) == Ok::<int, ParseError>(t.qty as int)
                &&& spec_parse_i64(f[5]) == Some(t.timestamp as int)
                &&& (t.consumed == Side::Bid <==> f[6] == seq![116u8, 114u8, 117u8, 101u8])
                &&& (t.consumed == Side::Ask <==> f[6] == seq![102u8, 97u8, 108u8, 115u8, 101u8])
            }
            &&& (f.len() == 7 && spec_parse_scaled(f[1], 2) is Ok && spec_parse_scaled(f[2], 3) is Ok
                && spec_parse_i64(f[5]) is Some && (f[6] == seq![116u8, 114u8, 117u8, 101u8] || f[6] == seq![
                102u8,
                97u8,
                108u8,
                115u8,
                101u8,
            ])) ==> spec_parse_trade(line) is Ok
        }),
{
    let f = split_fields(line);
    if f.len() == 7 {
        lemma_scaled_nonnegative(f[1], PRICE_PRECISION as nat);
        lemma_scaled_nonnegative(f[2], QTY_PRECISION as nat);
        lemma_parse_i64_range(f[5]);
        assert(word_true() =~= seq![116u8, 114u8, 117u8, 101u8]);
        assert(word_false() =~= seq![102u8, 97u8, 108u8, 115u8, 101u8]);
        assert(word_true() != word_false()) by {
            assert(word_true().len() != word_false().len());
        }
    }
}

/// A book snapshot read from a row carries exactly the values of the row's
/// fields: best bid price and quantity from the second and third, best ask
/// price and quantity from the fourth and fifth, and the timestamp from the
/// sixth (the transaction time, not the event time in the seventh). A row
/// with seven fields whose fields all read is a snapshot.
pub proof fn lemma_book_ticker_is_its_fields(line: Seq<u8>)
    requires
        book_row_in_range(line),
    ensures
        ({
            let f = split_fields(line);
            &&& spec_parse_book_ticker(line) matches Ok(b) ==> {
                &&& f.len() == 7
                &&& spec_parse_scaled(f[1], 2) == Ok::<int, ParseError>(b.best_bid_price as int)
                &&& spec_parse_scaled(f[2], 3) == Ok::<int, ParseError>(b.best_bid_qty as int)
                &&& spec_parse_scaled(f[3], 2) == Ok::<int, ParseError>(b.best_ask_price as int)
                &&& spec_parse_scaled(f[4], 3) == Ok::<int, ParseError>(b.best_ask_qty as int)
                &&& spec_parse_i64(f[5]) == Some(b.timestamp as int)
            }
            &&& (f.len() == 7 && spec_parse_scaled(f[1], 2) is Ok && spec_parse_scaled(f[2], 3) is Ok
                && spec_parse_scaled(f[3], 2) is Ok && spec_parse_scaled(f[4], 3) is Ok && spec_parse_i64(f[5]) is Some)
                ==> spec_parse_book_ticker(line) is Ok
        }),
{
    let f = split_fields(line);
    if f.len() == 7 {
        lemma_scaled_nonnegative(f[1], PRICE_PRECISION as nat);
        lemma_scaled_nonnegative(f[2], QTY_PRECISION as nat);
        lemma_scaled_nonnegative(f[3], PRICE_PRECISION as nat);
        lemma_scaled_nonnegative(f[4], QTY_PRECISION as nat);
        lemma_parse_i64_range(f[5]);
    }
}

/// An accepted scaled value is never negative.
pub proof fn lemma_scaled_nonnegative(field: Seq<u8>, precision: nat)
    ensures
        spec_parse_scaled(field, precision) matches Ok(v) ==> v >= 0,
{
    if !(field.len() > 0 && field[0] == MINUS) {
        lemma_pow10_monotone(0, precision);
        lemma_parse_i64_nonneg(field);
        let dot = find_byte(field, DOT);
        lemma_find_byte_facts(field, DOT);
        if dot < field.len() {
            let integral = field.take(dot);
            let fraction = field.skip(dot + 1);
            if dot > 0 {
                assert(integral[0] == field[0]);
            }
            lemma_parse_i64_nonneg(integral);
            if fraction.len() > 0 && all_digits(fraction) {
                lemma_digits_value_nonneg(fraction);
                if precision < fraction.len() {
                    let significant = fraction.take(precision as int);
                    assert(all_digits(significant));
                    lemma_digits_value_nonneg(significant);
                } else {
                    lemma_pow10_monotone(0, (precision - fraction.len()) as nat);
                    assert(digits_value(fraction) * pow10((precision - fraction.len()) as nat) >= 0)
                        by (nonlinear_arith)
                        requires
                            digits_value(fraction) >= 0,
                            pow10((precision - fraction.len()) as nat) >= 1,
                    ;
                }
            }
            if let Some(n) = spec_parse_i64(integral) {
                assert(n * pow10(precision) >= 0) by (nonlinear_arith)
                    requires
                        n >= 0,
                        pow10(precision) >= 1,
                ;
            }
        } else {
            if let Some(n) = spec_parse_i64(field) {
                assert(n * pow10(precision) >= 0) by (nonlinear_arith)
                    requires
                        n >= 0,
                        pow10(precision) >= 1,
                ;
            }
        }
    }
}

/// A row is refused for its field count exactly when it does not hold six
/// commas; no other failure is reported as a field count error.
pub proof fn lemma_field_count_error(line: Seq<u8>)
    ensures
        spec_parse_trade(line) == Err::<Trade, ParseError>(ParseError::FieldCount) <==> comma_count(line) != 6,
        spec_parse_book_ticker(line) == Err::<BookTicker, ParseError>(ParseError::FieldCount) <==> comma_count(line)
            != 6,
{
    lemma_split_fields_len(line);
}

/// Reads `s[start..end]` as a scaled fixed-point decimal, exactly.
fn scaled_value(s: &[u8], start: usize, end: usize, precision: u32) -> (res: Result<u128, ParseError>)
    requires
        start <= end <= s.len(),
        precision <= 18,
    ensures
        match spec_parse_scaled(s@.subrange(start as int, end as int), precision as nat) {
            Ok(v) => res == Ok::<u128, ParseError>(v as u128) && 0 <= v <= u128::MAX,
            Err(e) => res == Err::<u128, ParseError>(e),
        },
{
    let ghost field = s@.subrange(start as int, end as int);
    let ghost p = precision as nat;
    if start < end && s[start] == MINUS {
        assert(field[0] == s[start as int]);
        return Err(ParseError::Malformed);
    }
    assert(field.len() == 0 || field[0] != MINUS);
    let scale: u64 = pow10_exec(precision);
    let dot = find_byte_exec(s, start, end, DOT);
    if dot == end {
        proof {
            lemma_parse_i64_nonneg(field);
        }
        match parse_i64(s, start, end) {
            None => {
                return Err(ParseError::Malformed);
            },
            Some(n) => {
                proof {
                    assert(0 <= n * scale <= i64::MAX * 1_000_000_000_000_000_000) by (nonlinear_arith)
                        requires
                            0 <= n <= i64::MAX,
                            0 <= scale <= 1_000_000_000_000_000_000u64,
                    ;
                }
                return Ok(n as u128 * scale as u128);
            },
        }
    }
    let ghost k = dot - start;
    let ghost integral = field.take(k);
    let ghost fraction = field.skip(k + 1);
    assert(integral =~= s@.subrange(start as int, dot as int));
    assert(fraction =~= s@.subrange(dot + 1, end as int));
    if dot > start {
        assert(integral[0] == field[0]);
    }
    if !unsigned_literal(s, start, dot) {
        return Err(ParseError::Malformed);
    }
    let frac_start = dot + 1;
    if frac_start == end {
        return Err(ParseError::Malformed);
    }
    if !digits_only(s, frac_start, end) {
        return Err(ParseError::Malformed);
    }
    let frac_len = end - frac_start;
    let p_len = precision as usize;
    let scaled_fraction: u64;
    proof {
        lemma_pow10_18();
    }
    if p_len >= frac_len {
        proof {
            lemma_digits_value_bound(fraction);
            lemma_pow10_monotone(frac_len as nat, 18);
        }
        let f = parse_digits(s, frac_start, end, 1_000_000_000_000_000_000u64);
        let f = match f {
            Some(f) => f,
            None => {
                return Err(ParseError::Malformed);
            },
        };
        let pad = pow10_exec((p_len - frac_len) as u32);
        proof {
            lemma_pow10_add(frac_len as nat, (p - frac_len) as nat);
            lemma_pow10_monotone(p, 18);
            lemma_pow10_monotone((p - frac_len) as nat, 18);
            assert(f * pad < pow10(frac_len as nat) * pad) by (nonlinear_arith)
                requires
                    f < pow10(frac_len as nat),
                    pad >= 1,
            ;
        }
        scaled_fraction = f * pad;
    } else {
        let tail_start = frac_start + p_len;
        assert(fraction.skip(precision as int) =~= s@.subrange(tail_start as int, end as int));
        if !zeros_only(s, tail_start, end) {
            return Err(ParseError::TooPrecise);
        }
        let ghost significant = fraction.take(precision as int);
        assert(significant =~= s@.subrange(frac_start as int, tail_start as int));
        assert(all_digits(significant));
        proof {
            lemma_digits_value_bound(significant);
            lemma_pow10_monotone(p, 18);
        }
        let f = parse_digits(s, frac_start, tail_start, 1_000_000_000_000_000_000u64);
        scaled_fraction = match f {
            Some(f) => f,
            None => {
                return Err(ParseError::Malformed);
            },
        };
    }
    proof {
        lemma_parse_i64_nonneg(integral);
    }
    let n = match parse_i64(s, start, dot) {
        None => {
            return Err(ParseError::Malformed);
        },
        Some(n) => n,
    };
    proof {
        assert(0 <= n * scale <= i64::MAX * 1_000_000_000_000_000_000) by (nonlinear_arith)
            requires
                0 <= n <= i64::MAX,
                0 <= scale <= 1_000_000_000_000_000_000u64,
        ;
    }
    Ok(n as u128 * scale as u128 + scaled_fraction as u128)
}

/// Converts a fixed-point decimal field into an integer scaled by ten to the
/// power `precision`; the integral and fractional parts are read separately,
/// so no floating-point error is at stake.
///
/// At precision 3, `"0.5"` gives 500. The field fails as malformed when it
/// is not a decimal number in the feed's format, and as too precise when it
/// carries a non-zero digit beyond the precision.
///
/// The scale factor, ten to the precision, must fit in an `i64`, and so must
/// the scaled value: the arithmetic does not wrap.
pub fn parse_scaled(field: &str, precision: u32) -> (res: Result<i64, ParseError>)
    requires
        precision <= 18,
        scaled_in_range(field.spec_bytes(), precision as nat),
    ensures
        match spec_parse_scaled(field.spec_bytes(), precision as nat) {
            Ok(v) => res == Ok::<i64, ParseError>(v as i64) && 0 <= v <= i64::MAX,
            Err(e) => res == Err::<i64, ParseError>(e),
        },
{
    let bytes = field.as_bytes();
    assert(bytes@.subrange(0, bytes@.len() as int) =~= bytes@);
    match scaled_value(bytes, 0, bytes.len(), precision) {
        Ok(v) => Ok(v as i64),
        Err(e) => Err(e),
    }
}

/// The field that reads as a trade that consumed the bid side: the buyer
/// was the resting maker.
pub open spec fn word_true() -> Seq<u8> {
    seq![116u8, 114u8, 117u8, 101u8]
}

/// The field that reads as a trade that consumed the ask side.
pub open spec fn word_false() -> Seq<u8> {
    seq![102u8, 97u8, 108u8, 115u8, 101u8]
}

/// An aggregated trade row: `agg_trade_id, price, quantity, first_trade_id,
/// last_trade_id, transact_time, is_buyer_maker`, exactly seven fields.
/// The price, then the quantity, then the time and then the maker flag are
/// read; the first that fails decides the error.
pub open spec fn spec_parse_trade(line: Seq<u8>) -> Result<Trade, ParseError> {
    let f = split_fields(line);
    if f.len() != 7 {
        Err(ParseError::FieldCount)
    } else {
        match spec_parse_scaled(f[1], PRICE_PRECISION as nat) {
            Err(e) => Err(e),
            Ok(price) => match spec_parse_scaled(f[2], QTY_PRECISION as nat) {
                Err(e) => Err(e),
                Ok(qty) => match spec_parse_i64(f[5]) {
                    None => Err(ParseError::Malformed),
                    Some(timestamp) => if f[6] == word_true() {
                        Ok(Trade { timestamp: timestamp as i64, price: price as i64, qty: qty as i64, consumed: Side::Bid })
                    } else if f[6] == word_false() {
                        Ok(Trade { timestamp: timestamp as i64, price: price as i64, qty: qty as i64, consumed: Side::Ask })
                    } else {
                        Err(ParseError::Malformed)
                    },
                },
            },
        }
    }
}

/// Every scaled field that reading a trade row reaches fits in an `i64`.
pub open spec fn trade_row_in_range(line: Seq<u8>) -> bool {
    let f = split_fields(line);
    f.len() == 7 ==> {
        &&& scaled_in_range(f[1], PRICE_PRECISION as nat)
        &&& spec_parse_scaled(f[1], PRICE_PRECISION as nat) is Ok ==> scaled_in_range(f[2], QTY_PRECISION as nat)
    }
}

/// A best bid and offer row: `update_id, best_bid_price, best_bid_qty,
/// best_ask_price, best_ask_qty, transaction_time, event_time`, exactly
/// seven fields. The timestamp is the transaction time. The four prices and
/// quantities are read in order, then the time; the first that fails
/// decides the error.
pub open spec fn spec_parse_book_ticker(line: Seq<u8>) -> Result<BookTicker, ParseError> {
    let f = split_fields(line);
    if f.len() != 7 {
        Err(ParseError::FieldCount)
    } else {
        match spec_parse_scaled(f[1], PRICE_PRECISION as nat) {
            Err(e) => Err(e),
            Ok(bid_price) => match spec_parse_scaled(f[2], QTY_PRECISION as nat) {
                Err(e) => Err(e),
                Ok(bid_qty) => match spec_parse_scaled(f[3], PRICE_PRECISION as nat) {
                    Err(e) => Err(e),
                    Ok(ask_price) => match spec_parse_scaled(f[4], QTY_PRECISION as nat) {
                        Err(e) => Err(e),
                        Ok(ask_qty) => match spec_parse_i64(f[5]) {
                            None => Err(ParseError::Malformed),
                            Some(timestamp) => Ok(BookTicker {
                                timestamp: timestamp as i64,
                                best_bid_price: bid_price as i64,
                                best_bid_qty: bid_qty as i64,
                                best_ask_price: ask_price as i64,
                                best_ask_qty: ask_qty as i64,
                            }),
                        },
                    },
                },
            },
        }
    }
}

/// Every scaled field that reading a book row reaches fits in an `i64`.
pub open spec fn book_row_in_range(line: Seq<u8>) -> bool {
    let f = split_fields(line);
    f.len() == 7 ==> {
        &&& scaled_in_range(f[1], PRICE_PRECISION as nat)
        &&& spec_parse_scaled(f[1], PRICE_PRECISION as nat) is Ok ==> {
            &&& scaled_in_range(f[2], QTY_PRECISION as nat)
            &&& spec_parse_scaled(f[2], QTY_PRECISION as nat) is Ok ==> {
                &&& scaled_in_range(f[3], PRICE_PRECISION as nat)
                &&& spec_parse_scaled(f[3], PRICE_PRECISION as nat) is Ok ==> scaled_in_range(
                    f[4],
                    QTY_PRECISION as nat,
                )
            }
        }
    }
}

/// Reads the scaled field `s[start..end]`; `None` where the value does not
/// fit in an `i64`.
fn scaled_field(s: &[u8], start: usize, end: usize, precision: u32) -> (res: Option<Result<i64, ParseError>>)
    requires
        start <= end <= s.len(),
        precision <= 18,
    ensures
        ({
            let field = s@.subrange(start as int, end as int);
            &&& res is None <==> !scaled_in_range(field, precision as nat)
            &&& res matches Some(r) ==> match spec_parse_scaled(field, precision as nat) {
                Ok(v) => r == Ok::<i64, ParseError>(v as i64),
                Err(e) => r == Err::<i64, ParseError>(e),
            }
        }),
{
    match scaled_value(s, start, end, precision) {
        Err(e) => Some(Err(e)),
        Ok(v) => if v <= 9_223_372_036_854_775_807u128 {
            Some(Ok(v as i64))
        } else {
            None
        },
    }
}

/// Whether `s[start..end]` is the word `true`.
fn is_word_true(s: &[u8], start: usize, end: usize) -> (r: bool)
    requires
        start <= end <= s.len(),
    ensures
        r == (s@.subrange(start as int, end as int) == word_true()),
{
    let ghost sub = s@.subrange(start as int, end as int);
    if end - start == 4 && s[start] == 116 && s[start + 1] == 114 && s[start + 2] == 117 && s[start + 3] == 101 {
        assert(sub =~= word_true());
        true
    } else {
        proof {
            if sub == word_true() {
                let w = word_true();
                assert(w.len() == 4 && w[0] == 116u8 && w[1] == 114u8 && w[2] == 117u8 && w[3] == 101u8);
                assert(end - start == 4);
                assert(sub[0] == s@[start as int]);
                assert(sub[1] == s@[start + 1]);
                assert(sub[2] == s@[start + 2]);
                assert(sub[3] == s@[start + 3]);
            }
        }
        false
    }
}

/// Whether `s[start..end]` is the word `false`.
fn is_word_false(s: &[u8], start: usize, end: usize) -> (r: bool)
    requires
        start <= end <= s.len(),
    ensures
        r == (s@.subrange(start as int, end as int) == word_false()),
{
    let ghost sub = s@.subrange(start as int, end as int);
    if end - start == 5 && s[start] == 102 && s[start + 1] == 97 && s[start + 2] == 108 && s[start + 3] == 115
        && s[start + 4] == 101 {
        assert(sub =~= word_false());
        true
    } else {
        proof {
            if sub == word_false() {
                let w = word_false();
                assert(w.len() == 5 && w[0] == 102u8 && w[1] == 97u8 && w[2] == 108u8 && w[3] == 115u8 && w[4] == 101u8);
                assert(end - start == 5);
                assert(sub[0] == s@[start as int]);
                assert(sub[1] == s@[start + 1]);
                assert(sub[2] == s@[start + 2]);
                assert(sub[3] == s@[start + 3]);
                assert(sub[4] == s@[start + 4]);
            }
        }
        false
    }
}

/// Reads an aggregated trade row; `None` where a price or quantity it reaches
/// is too large to scale into an `i64`.
pub fn parse_trade_checked(line: &str) -> (res: Option<Result<Trade, ParseError>>)
    ensures
        res is None <==> !trade_row_in_range(line.spec_bytes()),
        res matches Some(r) ==> r == spec_parse_trade(line.spec_bytes()),
{
    let s = line.as_bytes();
    let bounds = split_fields_exec(s);
    let ghost f = split_fields(s@);
    if bounds.len() != 7 {
        return Some(Err(ParseError::FieldCount));
    }
    assert(f[1] == s@.subrange(bounds[1].0 as int, bounds[1].1 as int));
    assert(f[2] == s@.subrange(bounds[2].0 as int, bounds[2].1 as int));
    assert(f[5] == s@.subrange(bounds[5].0 as int, bounds[5].1 as int));
    assert(f[6] == s@.subrange(bounds[6].0 as int, bounds[6].1 as int));
    let price = match scaled_field(s, bounds[1].0, bounds[1].1, PRICE_PRECISION) {
        None => {
            return None;
        },
        Some(Err(e)) => {
            return Some(Err(e));
        },
        Some(Ok(v)) => v,
    };
    let qty = match scaled_field(s, bounds[2].0, bounds[2].1, QTY_PRECISION) {
        None => {
            return None;
        },
        Some(Err(e)) => {
            return Some(Err(e));
        },
        Some(Ok(v)) => v,
    };
    let timestamp = match parse_i64(s, bounds[5].0, bounds[5].1) {
        None => {
            return Some(Err(ParseError::Malformed));
        },
        Some(t) => t,
    };
    let consumed = if is_word_true(s, bounds[6].0, bounds[6].1) {
        Side::Bid
    } else if is_word_false(s, bounds[6].0, bounds[6].1) {
        Side::Ask
    } else {
        return Some(Err(ParseError::Malformed));
    };
    Some(Ok(Trade { timestamp, price, qty, consumed }))
}

/// Reads an aggregated trade row.
///
/// The row must have exactly seven fields; the price and quantity are scaled
/// decimals, the time an integer, and the maker flag `true` (the bid side was
/// consumed) or `false` (the ask side was).
pub fn parse_trade(line: &str) -> (res: Result<Trade, ParseError>)
    requires
        trade_row_in_range(line.spec_bytes()),
    ensures
        res == spec_parse_trade(line.spec_bytes()),
{
    match parse_trade_checked(line) {
        Some(r) => r,
        // Unreachable: the precondition rules out the values that do not fit.
        None => Err(ParseError::FieldCount),
    }
}

/// Reads a best bid and offer row; `None` where a price or quantity it
/// reaches is too large to scale into an `i64`.
pub fn parse_book_ticker_checked(line: &str) -> (res: Option<Result<BookTicker, ParseError>>)
    ensures
        res is None <==> !book_row_in_range(line.spec_bytes()),
        res matches Some(r) ==> r == spec_parse_book_ticker(line.spec_bytes()),
{
    let s = line.as_bytes();
    let bounds = split_fields_exec(s);
    let ghost f = split_fields(s@);
    if bounds.len() != 7 {
        return Some(Err(ParseError::FieldCount));
    }
    assert(f[1] == s@.subrange(bounds[1].0 as int, bounds[1].1 as int));
    assert(f[2] == s@.subrange(bounds[2].0 as int, bounds[2].1 as int));
    assert(f[3] == s@.subrange(bounds[3].0 as int, bounds[3].1 as int));
    assert(f[4] == s@.subrange(bounds[4].0 as int, bounds[4].1 as int));
    assert(f[5] == s@.subrange(bounds[5].0 as int, bounds[5].1 as int));
    let best_bid_price = match scaled_field(s, bounds[1].0, bounds[1].1, PRICE_PRECISION) {
        None => {
            return None;
        },
        Some(Err(e)) => {
            return Some(Err(e));
        },
        Some(Ok(v)) => v,
    };
    let best_bid_qty = match scaled_field(s, bounds[2].0, bounds[2].1, QTY_PRECISION) {
        None => {
            return None;
        },
        Some(Err(e)) => {
            return Some(Err(e));
        },
        Some(Ok(v)) => v,
    };
    let best_ask_price = match scaled_field(s, bounds[3].0, bounds[3].1, PRICE_PRECISION) {
        None => {
            return None;
        },
        Some(Err(e)) => {
            return Some(Err(e));
        },
        Some(Ok(v)) => v,
    };
    let best_ask_qty = match scaled_field(s, bounds[4].0, bounds[4].1, QTY_PRECISION) {
        None => {
            return None;
        },
        Some(Err(e)) => {
            return Some(Err(e));
        },
        Some(Ok(v)) => v,
    };
    let timestamp = match parse_i64(s, bounds[5].0, bounds[5].1) {
        None => {
            return Some(Err(ParseError::Malformed));
        },
        Some(t) => t,
    };
    Some(Ok(BookTicker { timestamp, best_bid_price, best_bid_qty, best_ask_price, best_ask_qty }))
}

/// Reads a best bid and offer row.
///
/// The row must have exactly seven fields; the best bid and ask prices and
/// quantities are scaled decimals, and the timestamp is the transaction time,
/// not the event time.
pub fn parse_book_ticker(line: &str) -> (res: Result<BookTicker, ParseError>)
    requires
        book_row_in_range(line.spec_bytes()),
    ensures
        res == spec_parse_book_ticker(line.spec_bytes()),
{
    match parse_book_ticker_checked(line) {
        Some(r) => r,
        // Unreachable: the precondition rules out the values that do not fit.
        None => Err(ParseError::FieldCount),
    }
}

/// Whether `s[start..end]` is written as an unsigned integer.
fn unsigned_literal(s: &[u8], start: usize, end: usize) -> (r: bool)
    requires
        start <= end <= s.len(),
    ensures
        r == is_unsigned_literal(s@.subrange(start as int, end as int)),
{
    let ghost sub = s@.subrange(start as int, end as int);
    if start == end {
        return false;
    }
    assert(sub[0] == s@[start as int]);
    let digits_start: usize = if s[start] == PLUS { start + 1 } else { start };
    proof {
        if s[start as int] == PLUS {
            assert(sub.drop_first() =~= s@.subrange(digits_start as int, end as int));
        } else {
            assert(sub =~= s@.subrange(digits_start as int, end as int));
        }
    }
    digits_start < end && digits_only(s, digits_start, end)
}

/// Whether `s[start..end]` holds only ASCII digits.
fn digits_only(s: &[u8], start: usize, end: usize) -> (r: bool)
    requires
        start <= end <= s.len(),
    ensures
        r == all_digits(s@.subrange(start as int, end as int)),
{
    let ghost sub = s@.subrange(start as int, end as int);
    let mut i = start;
    while i < end
        invariant
            start <= i <= end <= s.len(),
            sub == s@.subrange(start as int, end as int),
            forall|j: int| 0 <= j < i - start ==> #[trigger] is_digit(sub[j]),
        decreases end - i,
    {
        if s[i] < ZERO || s[i] > 57 {
            assert(!is_digit(sub[i - start]));
            return false;
        }
        i = i + 1;
    }
    true
}

/// Whether `s[start..end]` holds only the digit `0`.
fn zeros_only(s: &[u8], start: usize, end: usize) -> (r: bool)
    requires
        start <= end <= s.len(),
    ensures
        r == all_zeros(s@.subrange(start as int, end as int)),
{
    let ghost sub = s@.subrange(start as int, end as int);
    let mut i = start;
    while i < end
        invariant
            start <= i <= end <= s.len(),
            sub == s@.subrange(start as int, end as int),
            forall|j: int| 0 <= j < i - start ==> #[trigger] sub[j] == ZERO,
        decreases end - i,
    {
        if s[i] != ZERO {
            assert(sub[i - start] != ZERO);
            return false;
        }
        i = i + 1;
    }
    true
}

} // verus!
