//! Fixed-precision decimal codec.
//!
//! Exchange feeds carry prices and sizes as decimal strings. This module
//! converts such strings to unsigned fixed-point integers (a constant number
//! of implied fractional digits per quantity kind) and back.

use vstd::prelude::*;
use vstd::string::StringSliceAdditionalSpecFns;

verus! {

/// Implied fractional digits in a price: "0.33" is stored as 33.
pub const PRICE_DECIMALS: u32 = 2;

/// Implied fractional digits in a size: "4142.5" is stored as 41425.
pub const SIZE_DECIMALS: u32 = 1;

/// Largest precision the codec accepts: 10^19 is the last power of ten
/// below u64::MAX.
pub const MAX_DECIMALS: u32 = 19;

/// Why a decimal string failed to convert.
#[derive(Clone, Copy, Debug, PartialEq, Eq, Structural)]
pub enum DecimalError {
    /// A part of the string is empty or holds a byte that is not an
    /// ASCII digit.
    InvalidNumber,
    /// The scaled value does not fit in 64 bits.
    Overflow,
}

pub open spec fn is_digit(b: u8) -> bool {
    48 <= b <= 57
}

pub open spec fn all_digits(s: Seq<u8>) -> bool {
    forall|i: int| 0 <= i < s.len() ==> is_digit(s[i])
}

/// Value of a string of ASCII digits, most significant first.
pub open spec fn digits_val(s: Seq<u8>) -> nat
    decreases s.len(),
{
    if s.len() == 0 {
        0
    } else {
        digits_val(s.drop_last()) * 10 + (s.last() - 48) as nat
    }
}

pub open spec fn pow10(n: nat) -> nat
    decreases n,
{
    if n == 0 {
        1
    } else {
        10 * pow10((n - 1) as nat)
    }
}

/// Index of the first `.` in `s`, if any.
pub open spec fn find_dot(s: Seq<u8>) -> Option<int>
    decreases s.len(),
{
    if s.len() == 0 {
        None
    } else if s[0] == 46 {
        Some(0int)
    } else {
        match find_dot(s.drop_first()) {
            None => None,
            Some(i) => Some(i + 1),
        }
    }
}

/// The fractional part scaled to exactly `d` digits: padded with trailing
/// zeros when short, truncated (extra trailing digits dropped, not rounded)
/// when long.
pub open spec fn frac_scaled(f: Seq<u8>, d: nat) -> nat {
    if f.len() >= d {
        digits_val(f.subrange(0, d as int))
    } else {
        digits_val(f) * pow10((d - f.len()) as nat)
    }
}

/// What parsing a plain unsigned integer string returns.
pub open spec fn spec_parse_u64(s: Seq<u8>) -> Result<u64, DecimalError> {
    if !(s.len() > 0 && all_digits(s)) {
        Err(DecimalError::InvalidNumber)
    } else if digits_val(s) > u64::MAX {
        Err(DecimalError::Overflow)
    } else {
        Ok(digits_val(s) as u64)
    }
}

/// What parsing a decimal string with `d` implied fractional digits returns.
///
/// The string splits at its first `.`; with no dot the whole string is an
/// integer part. Both parts must be non-empty ASCII digit strings, else
/// `InvalidNumber`. The value is `integer_part * 10^d` plus the fraction
/// scaled to exactly `d` digits; a value above `u64::MAX` is `Overflow`.
pub open spec fn spec_parse_decimal(s: Seq<u8>, d: nat) -> Result<u64, DecimalError> {
    match find_dot(s) {
        None => {
            if !(s.len() > 0 && all_digits(s)) {
                Err(DecimalError::InvalidNumber)
            } else if digits_val(s) * pow10(d) > u64::MAX {
                Err(DecimalError::Overflow)
            } else {
                Ok((digits_val(s) * pow10(d)) as u64)
            }
        },
        Some(p) => {
            let ip = s.subrange(0, p);
            let fp = s.subrange(p + 1, s.len() as int);
            if !(ip.len() > 0 && all_digits(ip) && fp.len() > 0 && all_digits(fp)) {
                Err(DecimalError::InvalidNumber)
            } else if digits_val(ip) * pow10(d) + frac_scaled(fp, d) > u64::MAX {
                Err(DecimalError::Overflow)
            } else {
                Ok((digits_val(ip) * pow10(d) + frac_scaled(fp, d)) as u64)
            }
        },
    }
}

proof fn lemma_pow10_pos(n: nat)
    ensures
        pow10(n) >= 1,
    decreases n,
{
    if n > 0 {
        lemma_pow10_pos((n - 1) as nat);
    }
}

proof fn lemma_pow10_mono(i: nat, j: nat)
    requires
        i <= j,
    ensures
        pow10(i) <= pow10(j),
    decreases j,
{
    if i < j {
        lemma_pow10_mono(i, (j - 1) as nat);
        lemma_pow10_pos((j - 1) as nat);
    }
}

proof fn lemma_pow10_19_value()
    ensures
        pow10(19) == 10_000_000_000_000_000_000,
{
    reveal_with_fuel(pow10, 20);
}

/// A digit string of length n has value below 10^n.
proof fn lemma_digits_val_bound(s: Seq<u8>)
    requires
        all_digits(s),
    ensures
        digits_val(s) < pow10(s.len()),
    decreases s.len(),
{
    if s.len() > 0 {
        assert(all_digits(s.drop_last())) by {
            assert(forall|i: int|
                0 <= i < s.len() - 1 ==> s.drop_last()[i] == s[i]);
        }
        lemma_digits_val_bound(s.drop_last());
    }
}

/// Appending a digit multiplies the value by ten and adds the digit.
proof fn lemma_digits_val_push(s: Seq<u8>, b: u8)
    requires
        is_digit(b),
    ensures
        digits_val(s.push(b)) == digits_val(s) * 10 + (b - 48),
{
    assert(s.push(b).drop_last() =~= s);
    assert(s.push(b).last() == b);
}

/// The value of a prefix never exceeds the value of the whole string.
proof fn lemma_digits_val_prefix_le(s: Seq<u8>, i: int)
    requires
        0 <= i <= s.len(),
    ensures
        digits_val(s.subrange(0, i)) <= digits_val(s),
    decreases s.len() - i,
{
    if i < s.len() {
        assert(s.subrange(0, i + 1).drop_last() =~= s.subrange(0, i));
        lemma_digits_val_prefix_le(s, i + 1);
    } else {
        assert(s.subrange(0, i) =~= s);
    }
}

/// Scans `s[from..to]` and reports whether every byte is an ASCII digit.
fn range_all_digits(s: &[u8], from: usize, to: usize) -> (r: bool)
    requires
        from <= to <= s@.len(),
    ensures
        r == all_digits(s@.subrange(from as int, to as int)),
{
    let ghost sub = s@.subrange(from as int, to as int);
    let mut i: usize = from;
    while i < to
        invariant
            from <= i <= to <= s@.len(),
            sub == s@.subrange(from as int, to as int),
            forall|k: int| 0 <= k < i - from ==> is_digit(sub[k]),
        decreases to - i,
    {
        let b = s[i];
        assert(sub[i - from] == b);
        if b < 48 || b > 57 {
            assert(!is_digit(sub[i - from]));
            return false;
        }
        i += 1;
    }
    true
}

/// Parses `s[from..to]` as a plain unsigned integer.
pub(crate) fn parse_u64_range(s: &[u8], from: usize, to: usize) -> (r: Result<u64, DecimalError>)
    requires
        from <= to <= s@.len(),
    ensures
        r == spec_parse_u64(s@.subrange(from as int, to as int)),
{
    let ghost sub = s@.subrange(from as int, to as int);
    if from == to || !range_all_digits(s, from, to) {
        return Err(DecimalError::InvalidNumber);
    }
    let mut acc: u64 = 0;
    let mut i: usize = from;
    while i < to
        invariant
            from <= i <= to <= s@.len(),
            sub == s@.subrange(from as int, to as int),
            sub.len() > 0,
            all_digits(sub),
            acc == digits_val(sub.subrange(0, i - from)),
        decreases to - i,
    {
        let b = s[i];
        assert(sub[i - from] == b);
        assert(is_digit(b));
        let d = (b - 48) as u64;
        proof {
            assert(sub.subrange(0, i - from + 1).drop_last() =~= sub.subrange(0, i - from));
        }
        let acc10 = match acc.checked_mul(10) {
            Some(v) => v,
            None => {
                proof {
                    lemma_digits_val_prefix_le(sub, i - from + 1);
                }
                return Err(DecimalError::Overflow);
            },
        };
        acc = match acc10.checked_add(d) {
            Some(v) => v,
            None => {
                proof {
                    lemma_digits_val_prefix_le(sub, i - from + 1);
                }
                return Err(DecimalError::Overflow);
            },
        };
        i += 1;
    }
    proof {
        assert(sub.subrange(0, sub.len() as int) =~= sub);
    }
    Ok(acc)
}

/// Parses a whole byte string as a plain unsigned integer, as a wire
/// timestamp is parsed (zero implied fractional digits, exact).
pub fn parse_u64(s: &[u8]) -> (r: Result<u64, DecimalError>)
    ensures
        r == spec_parse_u64(s@),
{
    let n = s.len();
    let r = parse_u64_range(s, 0, n);
    proof {
        assert(s@.subrange(0, s@.len() as int) =~= s@);
    }
    r
}

/// Index of the first `.` in `s`, if any.
fn find_dot_index(s: &[u8]) -> (r: Option<usize>)
    ensures
        match r {
            Some(i) => i < s@.len() && find_dot(s@) == Some(i as int),
            None => find_dot(s@) is None,
        },
{
    let mut i: usize = 0;
    while i < s.len()
        invariant
            0 <= i <= s@.len(),
            forall|k: int| 0 <= k < i ==> s@[k] != 46,
        decreases s@.len() - i,
    {
        if s[i] == 46 {
            proof {
                lemma_find_dot_at(s@, i as int);
            }
            return Some(i);
        }
        i += 1;
    }
    proof {
        lemma_find_dot_none(s@);
    }
    None
}

proof fn lemma_find_dot_at(s: Seq<u8>, p: int)
    requires
        0 <= p < s.len(),
        s[p] == 46,
        forall|k: int| 0 <= k < p ==> s[k] != 46,
    ensures
        find_dot(s) == Some(p),
    decreases s.len(),
{
    if p > 0 {
        let t = s.drop_first();
        assert(forall|k: int| 0 <= k < p - 1 ==> t[k] == s[k + 1]);
        lemma_find_dot_at(t, p - 1);
    }
}

proof fn lemma_find_dot_none(s: Seq<u8>)
    requires
        forall|k: int| 0 <= k < s.len() ==> s[k] != 46,
    ensures
        find_dot(s) is None,
    decreases s.len(),
{
    if s.len() > 0 {
        let t = s.drop_first();
        assert(forall|k: int| 0 <= k < t.len() ==> t[k] == s[k + 1]);
        lemma_find_dot_none(t);
    }
}

/// Computes 10^d without overflow.
fn pow10_u64(d: u32) -> (r: u64)
    requires
        d <= MAX_DECIMALS,
    ensures
        r == pow10(d as nat),
{
    let mut r: u64 = 1;
    let mut i: u32 = 0;
    while i < d
        invariant
            0 <= i <= d <= 19,
            r == pow10(i as nat),
        decreases d - i,
    {
        proof {
            lemma_pow10_mono((i + 1) as nat, 19);
            lemma_pow10_19_value();
        }
        r = r * 10;
        i += 1;
    }
    r
}

/// Parses a decimal string with `decimals` implied fractional digits into an
/// unsigned fixed-point integer: `"0.33"` with 2 decimals is 33, `"4142.5"`
/// with 1 decimal is 41425, `"5"` with 2 decimals is 500. Extra fractional
/// digits are truncated, not rounded; missing ones count as trailing zeros.
pub fn parse_decimal_to_int(s: &str, decimals: u32) -> (r: Result<u64, DecimalError>)
    requires
        decimals <= MAX_DECIMALS,
    ensures
        r == spec_parse_decimal(s.spec_bytes(), decimals as nat),
{
    parse_decimal_bytes(s.as_bytes(), decimals)
}

/// Byte-level core of [`parse_decimal_to_int`]; the wire parser feeds it
/// field contents directly.
pub fn parse_decimal_bytes(s: &[u8], decimals: u32) -> (r: Result<u64, DecimalError>)
    requires
        decimals <= MAX_DECIMALS,
    ensures
        r == spec_parse_decimal(s@, decimals as nat),
{
    let ghost d = decimals as nat;
    let multiplier = pow10_u64(decimals);
    let n = s.len();
    match find_dot_index(s) {
        None => {
            proof {
                assert(s@.subrange(0, s@.len() as int) =~= s@);
            }
            let int_val = match parse_u64_range(s, 0, n) {
                Ok(v) => v,
                Err(e) => {
                    proof {
                        if e == DecimalError::Overflow {
                            // the unscaled value already exceeds u64::MAX
                            lemma_pow10_pos(d);
                            assert(digits_val(s@) * pow10(d) >= digits_val(s@) * 1)
                                by (nonlinear_arith)
                                requires pow10(d) >= 1;
                        }
                    }
                    return Err(e);
                },
            };
            match int_val.checked_mul(multiplier) {
                Some(v) => {
                    proof {
                        assert(int_val * multiplier == digits_val(s@) * pow10(d));
                    }
                    Ok(v)
                },
                None => Err(DecimalError::Overflow),
            }
        },
        Some(p) => {
            let ghost ip = s@.subrange(0, p as int);
            let ghost fp = s@.subrange(p as int + 1, s@.len() as int);
            let frac_len = n - p - 1;
            // both parts must be non-empty digit strings
            if p == 0 || frac_len == 0 || !range_all_digits(s, 0, p)
                || !range_all_digits(s, p + 1, n) {
                return Err(DecimalError::InvalidNumber);
            }
            let int_val = match parse_u64_range(s, 0, p) {
                Ok(v) => v,
                Err(e) => {
                    proof {
                        assert(e == DecimalError::Overflow);
                        lemma_pow10_pos(d);
                        assert(digits_val(ip) * pow10(d) >= digits_val(ip) * 1)
                            by (nonlinear_arith)
                            requires pow10(d) >= 1;
                    }
                    return Err(DecimalError::Overflow);
                },
            };
            let scaled_frac: u64;
            if decimals == 0 {
                proof {
                    assert(fp.subrange(0, 0) =~= Seq::<u8>::empty());
                }
                scaled_frac = 0;
                assert(scaled_frac == frac_scaled(fp, d));
            } else if frac_len >= decimals as usize {
                // truncate: keep only the first `decimals` fractional digits
                let to = p + 1 + decimals as usize;
                let ghost tf = fp.subrange(0, d as int);
                proof {
                    assert(tf =~= s@.subrange(p as int + 1, p as int + 1 + d as int));
                    assert(all_digits(tf)) by {
                        assert(forall|k: int| 0 <= k < tf.len() ==> tf[k] == fp[k]);
                    }
                    lemma_digits_val_bound(tf);
                    lemma_pow10_mono(d, 19);
                    lemma_pow10_19_value();
                }
                scaled_frac = match parse_u64_range(s, p + 1, to) {
                    Ok(v) => v,
                    Err(_) => {
                        proof {
                            assert(false);
                        }
                        return Err(DecimalError::InvalidNumber);
                    },
                };
                assert(scaled_frac == frac_scaled(fp, d));
            } else {
                proof {
                    lemma_digits_val_bound(fp);
                    lemma_pow10_mono(fp.len(), 19);
                    lemma_pow10_19_value();
                }
                let frac_val = match parse_u64_range(s, p + 1, n) {
                    Ok(v) => v,
                    Err(_) => {
                        proof {
                            assert(false);
                        }
                        return Err(DecimalError::InvalidNumber);
                    },
                };
                let pad = pow10_u64(decimals - frac_len as u32);
                proof {
                    let fl = fp.len();
                    assert(frac_val < pow10(fl));
                    lemma_pow10_pos((d - fl) as nat);
                    assert(digits_val(fp) * pow10((d - fl) as nat) < pow10(fl) * pow10(
                        (d - fl) as nat,
                    )) by (nonlinear_arith)
                        requires
                            digits_val(fp) < pow10(fl),
                            pow10((d - fl) as nat) >= 1,
                    ;
                    lemma_pow10_add(fl, (d - fl) as nat);
                    lemma_pow10_mono(d, 19);
                    lemma_pow10_19_value();
                }
                scaled_frac = frac_val * pad;
                assert(scaled_frac == frac_scaled(fp, d));
            }
            let base = match int_val.checked_mul(multiplier) {
                Some(v) => v,
                None => {
                    return Err(DecimalError::Overflow);
                },
            };
            match base.checked_add(scaled_frac) {
                Some(v) => Ok(v),
                None => Err(DecimalError::Overflow),
            }
        },
    }
}

/// Decimal digit string of `n`, most significant first, no leading zeros
/// (a single `0` for zero).
pub open spec fn dec_digits(n: nat) -> Seq<u8>
    decreases n,
{
    if n < 10 {
        seq![(48 + n) as u8]
    } else {
        dec_digits(n / 10) + seq![(48 + n % 10) as u8]
    }
}

/// Decimal digit string of `n` padded with leading zeros to exactly `w`
/// digits; digits above the width are dropped.
pub open spec fn dec_digits_pad(n: nat, w: nat) -> Seq<u8>
    decreases w,
{
    if w == 0 {
        Seq::empty()
    } else {
        dec_digits_pad(n / 10, (w - 1) as nat) + seq![(48 + n % 10) as u8]
    }
}

/// What formatting a fixed-point value with `d` implied fractional digits
/// yields: the integer part, then a dot and exactly `d` fractional digits
/// (no dot at all when `d` is zero).
pub open spec fn spec_format_decimal(v: nat, d: nat) -> Seq<u8> {
    if d == 0 {
        dec_digits(v)
    } else {
        dec_digits(v / pow10(d)) + seq![46u8] + dec_digits_pad(v % pow10(d), d)
    }
}

fn push_digits(n: u64, out: &mut Vec<u8>)
    ensures
        final(out)@ == old(out)@ + dec_digits(n as nat),
    decreases n,
{
    if n < 10 {
        out.push(48 + n as u8);
        assert(out@ =~= old(out)@ + dec_digits(n as nat));
    } else {
        push_digits(n / 10, out);
        out.push(48 + (n % 10) as u8);
        assert(out@ =~= old(out)@ + dec_digits(n as nat));
    }
}

fn push_digits_pad(n: u64, w: u32, out: &mut Vec<u8>)
    ensures
        final(out)@ == old(out)@ + dec_digits_pad(n as nat, w as nat),
    decreases w,
{
    if w > 0 {
        push_digits_pad(n / 10, w - 1, out);
        out.push(48 + (n % 10) as u8);
        assert(out@ =~= old(out)@ + dec_digits_pad(n as nat, w as nat));
    } else {
        assert(out@ =~= old(out)@ + dec_digits_pad(n as nat, 0));
    }
}

/// Formats a fixed-point value back to its decimal string: 33 with 2
/// decimals is `"0.33"`, 41425 with 1 decimal is `"4142.5"` — except that
/// trailing fractional zeros are kept (500 with 2 decimals is `"5.00"`).
pub fn format_decimal(v: u64, decimals: u32) -> (r: Vec<u8>)
    requires
        decimals <= MAX_DECIMALS,
    ensures
        r@ == spec_format_decimal(v as nat, decimals as nat),
{
    let mut out: Vec<u8> = Vec::new();
    if decimals == 0 {
        push_digits(v, &mut out);
    } else {
        let p = pow10_u64(decimals);
        proof {
            lemma_pow10_pos(decimals as nat);
        }
        push_digits(v / p, &mut out);
        out.push(46);
        push_digits_pad(v % p, decimals, &mut out);
        assert(out@ =~= spec_format_decimal(v as nat, decimals as nat));
    }
    out
}

proof fn lemma_dec_digits_wf(n: nat)
    ensures
        dec_digits(n).len() >= 1,
        all_digits(dec_digits(n)),
    decreases n,
{
    if n >= 10 {
        lemma_dec_digits_wf(n / 10);
        assert(forall|i: int|
            0 <= i < dec_digits(n / 10).len() ==> dec_digits(n)[i] == dec_digits(n / 10)[i]);
    }
}

proof fn lemma_dec_digits_val(n: nat)
    ensures
        digits_val(dec_digits(n)) == n,
    decreases n,
{
    if n < 10 {
        reveal_with_fuel(digits_val, 2);
        assert(dec_digits(n).drop_last() =~= Seq::<u8>::empty());
        assert(((48 + n) as u8) as nat == 48 + n);
    } else {
        lemma_dec_digits_val(n / 10);
        let a = dec_digits(n / 10);
        let b = (48 + n % 10) as u8;
        assert(b as nat == 48 + n % 10);
        assert(a + seq![b] =~= a.push(b));
        lemma_digits_val_push(a, b);
        assert(digits_val(dec_digits(n)) == (n / 10) * 10 + n % 10);
        vstd::arithmetic::div_mod::lemma_fundamental_div_mod(n as int, 10);
        assert((n / 10) * 10 + n % 10 == n);
    }
}

proof fn lemma_dec_digits_pad_wf(n: nat, w: nat)
    ensures
        dec_digits_pad(n, w).len() == w,
        all_digits(dec_digits_pad(n, w)),
    decreases w,
{
    if w > 0 {
        lemma_dec_digits_pad_wf(n / 10, (w - 1) as nat);
        let a = dec_digits_pad(n / 10, (w - 1) as nat);
        assert(forall|i: int| 0 <= i < a.len() ==> dec_digits_pad(n, w)[i] == a[i]);
    }
}

proof fn lemma_dec_digits_pad_val(n: nat, w: nat)
    requires
        n < pow10(w),
    ensures
        digits_val(dec_digits_pad(n, w)) == n,
    decreases w,
{
    if w == 0 {
        assert(dec_digits_pad(n, 0) =~= Seq::<u8>::empty());
    } else {
        assert(n / 10 < pow10((w - 1) as nat)) by (nonlinear_arith)
            requires
                n < pow10(w),
                pow10(w) == 10 * pow10((w - 1) as nat),
        ;
        lemma_dec_digits_pad_val(n / 10, (w - 1) as nat);
        let a = dec_digits_pad(n / 10, (w - 1) as nat);
        let b = (48 + n % 10) as u8;
        assert(a + seq![b] =~= a.push(b));
        lemma_digits_val_push(a, b);
        vstd::arithmetic::div_mod::lemma_fundamental_div_mod(n as int, 10);
    }
}

/// Round-trip law: formatting any fixed-point value and parsing the result
/// back with the same precision returns exactly that value.
pub proof fn lemma_decimal_round_trip(v: u64, decimals: u32)
    requires
        decimals <= MAX_DECIMALS,
    ensures
        spec_parse_decimal(spec_format_decimal(v as nat, decimals as nat), decimals as nat)
            == Ok::<u64, DecimalError>(v),
{
    let d = decimals as nat;
    if d == 0 {
        let s = dec_digits(v as nat);
        lemma_dec_digits_wf(v as nat);
        lemma_dec_digits_val(v as nat);
        assert(forall|k: int| 0 <= k < s.len() ==> s[k] != 46);
        lemma_find_dot_none(s);
        assert(digits_val(s) * pow10(0) == v);
    } else {
        let p10 = pow10(d);
        lemma_pow10_pos(d);
        let a = dec_digits(v as nat / p10);
        let b = dec_digits_pad(v as nat % p10, d);
        let s = spec_format_decimal(v as nat, d);
        lemma_dec_digits_wf(v as nat / p10);
        lemma_dec_digits_val(v as nat / p10);
        vstd::arithmetic::div_mod::lemma_mod_bound(v as int, p10 as int);
        lemma_dec_digits_pad_wf(v as nat % p10, d);
        lemma_dec_digits_pad_val(v as nat % p10, d);
        let p = a.len() as int;
        assert(s[p] == 46);
        assert(forall|k: int| 0 <= k < p ==> s[k] == a[k]);
        lemma_find_dot_at(s, p);
        let ip = s.subrange(0, p);
        let fp = s.subrange(p + 1, s.len() as int);
        assert(ip =~= a);
        assert(fp =~= b);
        assert(fp.subrange(0, d as int) =~= b);
        assert(frac_scaled(fp, d) == v as nat % p10);
        vstd::arithmetic::div_mod::lemma_fundamental_div_mod(v as int, p10 as int);
        assert(digits_val(ip) * pow10(d) + frac_scaled(fp, d) == v);
    }
}

proof fn lemma_pow10_add(a: nat, b: nat)
    ensures
        pow10(a) * pow10(b) == pow10(a + b),
    decreases a,
{
    if a == 0 {
        assert(1 * pow10(b) == pow10(b)) by (nonlinear_arith);
    } else {
        lemma_pow10_add((a - 1) as nat, b);
        assert(pow10(a) * pow10(b) == 10 * pow10((a - 1) as nat) * pow10(b));
        assert(10 * pow10((a - 1) as nat) * pow10(b) == 10 * (pow10((a - 1) as nat) * pow10(b)))
            by (nonlinear_arith);
    }
}

} // verus!
