//! Byte-level recognizers and parsers for the numeric literals the codec
//! cares about: the float grammar used by the `NonNumeric` quoting style and
//! by type inference, and decimal / hexadecimal integer parsing.
//!
//! The float grammar is the one Rust's `FromStr` for floats documents:
//! an optional sign, then `inf`, `infinity` or `nan` (case-insensitive), or a
//! decimal number `digits [. digits] [(e|E) sign? digits]` with at least one
//! mantissa digit. Acceptance never depends on the magnitude of the value.

use vstd::prelude::*;

verus! {

/// ASCII decimal digit.
pub open spec fn is_digit(b: u8) -> bool {
    48 <= b <= 57
}

/// Lower-case an ASCII letter; other bytes are unchanged.
pub open spec fn ascii_lower(b: u8) -> u8 {
    if 65 <= b <= 90 {
        (b + 32) as u8
    } else {
        b
    }
}

/// The first index at or after `from` that does not hold a decimal digit.
pub open spec fn digits_end(s: Seq<u8>, from: int) -> int
    decreases s.len() - from,
{
    if from < 0 {
        from
    } else if from < s.len() && is_digit(s[from]) {
        digits_end(s, from + 1)
    } else {
        from
    }
}

/// `digits_end` stays within bounds and marks a maximal digit run.
pub proof fn lemma_digits_end_bounds(s: Seq<u8>, from: int)
    requires
        0 <= from <= s.len(),
    ensures
        from <= digits_end(s, from) <= s.len(),
        forall|k: int| from <= k < digits_end(s, from) ==> is_digit(s[k]),
        digits_end(s, from) < s.len() ==> !is_digit(s[digits_end(s, from)]),
    decreases s.len() - from,
{
    if from < s.len() && is_digit(s[from]) {
        lemma_digits_end_bounds(s, from + 1);
    }
}

/// A maximal digit run ending at `i` pins `digits_end` down to `i`.
pub proof fn lemma_digits_end_is(s: Seq<u8>, from: int, i: int)
    requires
        0 <= from <= i <= s.len(),
        forall|k: int| from <= k < i ==> is_digit(s[k]),
        i < s.len() ==> !is_digit(s[i]),
    ensures
        digits_end(s, from) == i,
    decreases i - from,
{
    if from < i {
        lemma_digits_end_is(s, from + 1, i);
    }
}

/// `s[from..]` matches `pat` after ASCII lower-casing.
pub open spec fn lower_eq_at(s: Seq<u8>, from: int, pat: Seq<u8>) -> bool {
    &&& s.len() - from == pat.len()
    &&& forall|k: int| 0 <= k < pat.len() ==> ascii_lower(s[from + k]) == pat[k]
}

/// The bytes of `"inf"`.
pub open spec fn inf_pat() -> Seq<u8> {
    seq![105u8, 110u8, 102u8]
}

/// The bytes of `"infinity"`.
pub open spec fn infinity_pat() -> Seq<u8> {
    seq![105u8, 110u8, 102u8, 105u8, 110u8, 105u8, 116u8, 121u8]
}

/// The bytes of `"nan"`.
pub open spec fn nan_pat() -> Seq<u8> {
    seq![110u8, 97u8, 110u8]
}

/// `s[from..]` is one of the special float names, case-insensitively.
pub open spec fn is_special_float_from(s: Seq<u8>, from: int) -> bool {
    ||| lower_eq_at(s, from, inf_pat())
    ||| lower_eq_at(s, from, infinity_pat())
    ||| lower_eq_at(s, from, nan_pat())
}

/// Where the mantissa starting at `from` ends: a digit run, optionally
/// followed by a dot and a second digit run.
pub open spec fn mantissa_end(s: Seq<u8>, from: int) -> int {
    let a = digits_end(s, from);
    if a < s.len() && s[a] == 46 {
        digits_end(s, a + 1)
    } else {
        a
    }
}

/// The mantissa starting at `from` holds at least one digit.
pub open spec fn mantissa_ok(s: Seq<u8>, from: int) -> bool {
    let a = digits_end(s, from);
    a > from || (a < s.len() && s[a] == 46 && digits_end(s, a + 1) > a + 1)
}

/// `s[from..]` is an exponent tail: an optional sign, then one or more
/// digits, ending the input.
pub open spec fn is_exp_tail(s: Seq<u8>, from: int) -> bool {
    let st = if from < s.len() && (s[from] == 43 || s[from] == 45) {
        from + 1
    } else {
        from
    };
    digits_end(s, st) == s.len() && s.len() > st
}

/// `s[from..]` is a decimal float number: a mantissa, optionally followed by
/// `e`/`E` and an exponent tail, ending the input.
pub open spec fn is_number_from(s: Seq<u8>, from: int) -> bool {
    let m = mantissa_end(s, from);
    &&& mantissa_ok(s, from)
    &&& (m == s.len() || ((s[m] == 101 || s[m] == 69) && is_exp_tail(s, m + 1)))
}

/// `s` is a float literal as Rust's float parsing accepts it: optional sign,
/// then a special name or a decimal number.
pub open spec fn is_float_lit(s: Seq<u8>) -> bool {
    let from: int = if s.len() > 0 && (s[0] == 43 || s[0] == 45) {
        1
    } else {
        0
    };
    is_special_float_from(s, from) || is_number_from(s, from)
}

/// Lower-case one ASCII byte.
fn lower(b: u8) -> (r: u8)
    ensures
        r == ascii_lower(b),
{
    if 65 <= b && b <= 90 {
        b + 32
    } else {
        b
    }
}

/// Advance over decimal digits: returns the first index at or after `from`
/// holding a non-digit, or the length.
fn scan_digits(s: &[u8], from: usize) -> (i: usize)
    requires
        from <= s@.len(),
    ensures
        i as int == digits_end(s@, from as int),
        from <= i <= s@.len(),
{
    let mut i = from;
    while i < s.len() && 48 <= s[i] && s[i] <= 57
        invariant
            from <= i <= s@.len(),
            forall|k: int| from <= k < i ==> is_digit(s@[k]),
        decreases s@.len() - i,
    {
        i = i + 1;
    }
    proof {
        lemma_digits_end_is(s@, from as int, i as int);
    }
    i
}

/// Decide whether `s` is a float literal under the grammar of
/// [`is_float_lit`]. This is byte-exact acceptance: magnitude never matters.
pub fn recognize_float(s: &[u8]) -> (b: bool)
    ensures
        b == is_float_lit(s@),
{
    let n = s.len();
    let from: usize = if n > 0 && (s[0] == 43 || s[0] == 45) {
        1
    } else {
        0
    };
    let rem = n - from;
    if rem == 3 {
        if lower(s[from]) == 105 && lower(s[from + 1]) == 110 && lower(s[from + 2]) == 102 {
            proof {
                assert(lower_eq_at(s@, from as int, inf_pat()));
            }
            return true;
        }
        if lower(s[from]) == 110 && lower(s[from + 1]) == 97 && lower(s[from + 2]) == 110 {
            proof {
                assert(lower_eq_at(s@, from as int, nan_pat()));
            }
            return true;
        }
    }
    if rem == 8 {
        if lower(s[from]) == 105 && lower(s[from + 1]) == 110 && lower(s[from + 2]) == 102 && lower(
            s[from + 3],
        ) == 105 && lower(s[from + 4]) == 110 && lower(s[from + 5]) == 105 && lower(s[from + 6])
            == 116 && lower(s[from + 7]) == 121 {
            proof {
                assert(lower_eq_at(s@, from as int, infinity_pat()));
            }
            return true;
        }
    }
    proof {
        assert(!is_special_float_from(s@, from as int)) by {
            if lower_eq_at(s@, from as int, inf_pat()) {
                assert(ascii_lower(s@[from as int]) == 105);
                assert(ascii_lower(s@[from as int + 1]) == 110);
                assert(ascii_lower(s@[from as int + 2]) == 102);
            }
            if lower_eq_at(s@, from as int, nan_pat()) {
                assert(ascii_lower(s@[from as int]) == 110);
                assert(ascii_lower(s@[from as int + 1]) == 97);
                assert(ascii_lower(s@[from as int + 2]) == 110);
            }
            if lower_eq_at(s@, from as int, infinity_pat()) {
                assert(ascii_lower(s@[from as int]) == 105);
                assert(ascii_lower(s@[from as int + 1]) == 110);
                assert(ascii_lower(s@[from as int + 2]) == 102);
                assert(ascii_lower(s@[from as int + 3]) == 105);
                assert(ascii_lower(s@[from as int + 4]) == 110);
                assert(ascii_lower(s@[from as int + 5]) == 105);
                assert(ascii_lower(s@[from as int + 6]) == 116);
                assert(ascii_lower(s@[from as int + 7]) == 121);
            }
        };
    }
    let a = scan_digits(s, from);
    let m: usize = if a < n && s[a] == 46 {
        scan_digits(s, a + 1)
    } else {
        a
    };
    let ok = a > from || (a < n && s[a] == 46 && m > a + 1);
    if !ok {
        return false;
    }
    if m == n {
        return true;
    }
    if s[m] == 101 || s[m] == 69 {
        let e0: usize = if m + 1 < n && (s[m + 1] == 43 || s[m + 1] == 45) {
            m + 2
        } else {
            m + 1
        };
        let d = scan_digits(s, e0);
        return d == n && n > e0;
    }
    false
}

/// The value of a decimal digit.
pub open spec fn digit_val(b: u8) -> nat
    recommends
        is_digit(b),
{
    (b - 48) as nat
}

/// Every byte of `s` is a decimal digit.
pub open spec fn all_digits(s: Seq<u8>) -> bool {
    forall|i: int| 0 <= i < s.len() ==> is_digit(s[i])
}

/// The value of a decimal digit string, most significant digit first.
pub open spec fn dec_val(s: Seq<u8>) -> nat
    recommends
        all_digits(s),
    decreases s.len(),
{
    if s.len() == 0 {
        0
    } else {
        dec_val(s.drop_last()) * 10 + digit_val(s.last())
    }
}

/// ASCII hexadecimal digit, both letter cases.
pub open spec fn is_hex_digit(b: u8) -> bool {
    is_digit(b) || (97 <= b <= 102) || (65 <= b <= 70)
}

/// The value of a hexadecimal digit.
pub open spec fn hex_digit_val(b: u8) -> nat
    recommends
        is_hex_digit(b),
{
    if is_digit(b) {
        (b - 48) as nat
    } else if 97 <= b <= 102 {
        (b - 87) as nat
    } else {
        (b - 55) as nat
    }
}

/// Every byte of `s` is a hexadecimal digit.
pub open spec fn all_hex_digits(s: Seq<u8>) -> bool {
    forall|i: int| 0 <= i < s.len() ==> is_hex_digit(s[i])
}

/// The value of a hexadecimal digit string, most significant digit first.
pub open spec fn hex_val(s: Seq<u8>) -> nat
    recommends
        all_hex_digits(s),
    decreases s.len(),
{
    if s.len() == 0 {
        0
    } else {
        hex_val(s.drop_last()) * 16 + hex_digit_val(s.last())
    }
}

/// What Rust's integer parsing accepts for an unsigned type with maximum
/// `max`: an optional `+`, then one or more decimal digits, whose value is
/// within range.
pub open spec fn parse_unsigned(s: Seq<u8>, max: nat) -> Option<nat> {
    let d = if s.len() > 0 && s[0] == 43 {
        s.drop_first()
    } else {
        s
    };
    if d.len() > 0 && all_digits(d) && dec_val(d) <= max {
        Some(dec_val(d))
    } else {
        None
    }
}

/// What Rust's integer parsing accepts for a signed type with range
/// `[min, max]`: an optional sign, then one or more decimal digits, whose
/// signed value is within range.
pub open spec fn parse_signed(s: Seq<u8>, min: int, max: int) -> Option<int> {
    let neg = s.len() > 0 && s[0] == 45;
    let d = if s.len() > 0 && (s[0] == 43 || s[0] == 45) {
        s.drop_first()
    } else {
        s
    };
    if d.len() > 0 && all_digits(d) {
        let v: int = if neg {
            -(dec_val(d) as int)
        } else {
            dec_val(d) as int
        };
        if min <= v <= max {
            Some(v)
        } else {
            None
        }
    } else {
        None
    }
}

/// Radix-16 counterpart of [`parse_unsigned`], as `from_str_radix` accepts it.
pub open spec fn parse_hex_unsigned(s: Seq<u8>, max: nat) -> Option<nat> {
    let d = if s.len() > 0 && s[0] == 43 {
        s.drop_first()
    } else {
        s
    };
    if d.len() > 0 && all_hex_digits(d) && hex_val(d) <= max {
        Some(hex_val(d))
    } else {
        None
    }
}

/// Radix-16 counterpart of [`parse_signed`], as `from_str_radix` accepts it.
pub open spec fn parse_hex_signed(s: Seq<u8>, min: int, max: int) -> Option<int> {
    let neg = s.len() > 0 && s[0] == 45;
    let d = if s.len() > 0 && (s[0] == 43 || s[0] == 45) {
        s.drop_first()
    } else {
        s
    };
    if d.len() > 0 && all_hex_digits(d) {
        let v: int = if neg {
            -(hex_val(d) as int)
        } else {
            hex_val(d) as int
        };
        if min <= v <= max {
            Some(v)
        } else {
            None
        }
    } else {
        None
    }
}

/// A digit-string prefix never exceeds the value of the whole string.
proof fn lemma_dec_val_prefix_le(s: Seq<u8>, i: int)
    requires
        0 <= i <= s.len(),
    ensures
        dec_val(s.take(i)) <= dec_val(s),
    decreases s.len() - i,
{
    if i < s.len() {
        assert(s.take(i + 1).drop_last() =~= s.take(i));
        assert(dec_val(s.take(i + 1)) == dec_val(s.take(i)) * 10 + digit_val(s.take(i + 1).last()));
        lemma_dec_val_prefix_le(s, i + 1);
        assert(s.take(s.len() as int) =~= s);
    } else {
        assert(s.take(i) =~= s);
    }
}

/// Hexadecimal counterpart of [`lemma_dec_val_prefix_le`].
proof fn lemma_hex_val_prefix_le(s: Seq<u8>, i: int)
    requires
        0 <= i <= s.len(),
    ensures
        hex_val(s.take(i)) <= hex_val(s),
    decreases s.len() - i,
{
    if i < s.len() {
        assert(s.take(i + 1).drop_last() =~= s.take(i));
        assert(hex_val(s.take(i + 1)) == hex_val(s.take(i)) * 16 + hex_digit_val(
            s.take(i + 1).last(),
        ));
        lemma_hex_val_prefix_le(s, i + 1);
        assert(s.take(s.len() as int) =~= s);
    } else {
        assert(s.take(i) =~= s);
    }
}

/// Accumulate the decimal digit run `s[from..to]`, or report that its value
/// exceeds `u128::MAX`.
fn dec_digits_value(s: &[u8], from: usize, to: usize) -> (r: Option<u128>)
    requires
        from <= to <= s@.len(),
        forall|k: int| from <= k < to ==> is_digit(s@[k]),
    ensures
        match r {
            Some(v) => v as nat == dec_val(s@.subrange(from as int, to as int)),
            None => dec_val(s@.subrange(from as int, to as int)) > u128::MAX,
        },
{
    let ghost whole = s@.subrange(from as int, to as int);
    let mut acc: u128 = 0;
    let mut i = from;
    while i < to
        invariant
            from <= i <= to <= s@.len(),
            forall|k: int| from <= k < to ==> is_digit(s@[k]),
            acc as nat == dec_val(s@.subrange(from as int, i as int)),
            whole == s@.subrange(from as int, to as int),
        decreases to - i,
    {
        let d: u128 = (s[i] - 48) as u128;
        proof {
            assert(s@.subrange(from as int, i + 1).drop_last() =~= s@.subrange(from as int, i as int));
            assert(s@.subrange(from as int, i + 1).last() == s@[i as int]);
            assert(whole.take(i + 1 - from) =~= s@.subrange(from as int, i + 1));
        }
        let step = match acc.checked_mul(10) {
            Some(x) => x.checked_add(d),
            None => None,
        };
        match step {
            Some(y) => {
                acc = y;
            },
            None => {
                proof {
                    assert(dec_val(s@.subrange(from as int, i + 1)) > u128::MAX);
                    lemma_dec_val_prefix_le(whole, i + 1 - from);
                    assert(whole.take(whole.len() as int) =~= whole);
                }
                return None;
            },
        }
        i = i + 1;
    }
    Some(acc)
}

/// Accumulate the hexadecimal digit run `s[from..to]`, or report that its
/// value exceeds `u128::MAX`.
fn hex_digits_value(s: &[u8], from: usize, to: usize) -> (r: Option<u128>)
    requires
        from <= to <= s@.len(),
        forall|k: int| from <= k < to ==> is_hex_digit(s@[k]),
    ensures
        match r {
            Some(v) => v as nat == hex_val(s@.subrange(from as int, to as int)),
            None => hex_val(s@.subrange(from as int, to as int)) > u128::MAX,
        },
{
    let ghost whole = s@.subrange(from as int, to as int);
    let mut acc: u128 = 0;
    let mut i = from;
    while i < to
        invariant
            from <= i <= to <= s@.len(),
            forall|k: int| from <= k < to ==> is_hex_digit(s@[k]),
            acc as nat == hex_val(s@.subrange(from as int, i as int)),
            whole == s@.subrange(from as int, to as int),
        decreases to - i,
    {
        let b = s[i];
        let d: u128 = if 48 <= b && b <= 57 {
            (b - 48) as u128
        } else if 97 <= b && b <= 102 {
            (b - 87) as u128
        } else {
            (b - 55) as u128
        };
        proof {
            assert(s@.subrange(from as int, i + 1).drop_last() =~= s@.subrange(from as int, i as int));
            assert(s@.subrange(from as int, i + 1).last() == s@[i as int]);
            assert(whole.take(i + 1 - from) =~= s@.subrange(from as int, i + 1));
        }
        let step = match acc.checked_mul(16) {
            Some(x) => x.checked_add(d),
            None => None,
        };
        match step {
            Some(y) => {
                acc = y;
            },
            None => {
                proof {
                    assert(hex_val(s@.subrange(from as int, i + 1)) > u128::MAX);
                    lemma_hex_val_prefix_le(whole, i + 1 - from);
                    assert(whole.take(whole.len() as int) =~= whole);
                }
                return None;
            },
        }
        i = i + 1;
    }
    Some(acc)
}

/// Parse `s` as an unsigned decimal integer bounded by `max`.
pub fn parse_unsigned_bytes(s: &[u8], max: u128) -> (r: Option<u128>)
    ensures
        match r {
            Some(v) => parse_unsigned(s@, max as nat) == Some(v as nat) && v <= max,
            None => parse_unsigned(s@, max as nat) is None,
        },
{
    let n = s.len();
    let from: usize = if n > 0 && s[0] == 43 {
        1
    } else {
        0
    };
    proof {
        if from == 1 {
            assert(s@.drop_first() =~= s@.subrange(1, n as int));
        } else {
            assert(s@ =~= s@.subrange(0, n as int));
        }
    }
    if from == n {
        return None;
    }
    let e = scan_digits(s, from);
    if e != n {
        proof {
            lemma_digits_end_bounds(s@, from as int);
            assert(!all_digits(s@.subrange(from as int, n as int))) by {
                assert(s@.subrange(from as int, n as int)[e - from] == s@[e as int]);
            };
        }
        return None;
    }
    proof {
        lemma_digits_end_bounds(s@, from as int);
    }
    match dec_digits_value(s, from, n) {
        Some(v) => if v <= max {
            Some(v)
        } else {
            None
        },
        None => None,
    }
}

/// Parse `s` as a signed decimal integer with range
/// `[-(neg_mag_max), pos_max]`, returned as a sign and a magnitude.
pub fn parse_signed_bytes(s: &[u8], neg_mag_max: u128, pos_max: u128) -> (r: Option<(bool, u128)>)
    ensures
        match r {
            Some(p) => parse_signed(s@, -(neg_mag_max as int), pos_max as int) == Some(
                if p.0 {
                    -(p.1 as int)
                } else {
                    p.1 as int
                },
            ) && (p.0 ==> p.1 <= neg_mag_max) && (!p.0 ==> p.1 <= pos_max),
            None => parse_signed(s@, -(neg_mag_max as int), pos_max as int) is None,
        },
{
    let n = s.len();
    let neg = n > 0 && s[0] == 45;
    let from: usize = if n > 0 && (s[0] == 43 || s[0] == 45) {
        1
    } else {
        0
    };
    proof {
        if from == 1 {
            assert(s@.drop_first() =~= s@.subrange(1, n as int));
        } else {
            assert(s@ =~= s@.subrange(0, n as int));
        }
    }
    if from == n {
        return None;
    }
    let e = scan_digits(s, from);
    if e != n {
        proof {
            lemma_digits_end_bounds(s@, from as int);
            assert(!all_digits(s@.subrange(from as int, n as int))) by {
                assert(s@.subrange(from as int, n as int)[e - from] == s@[e as int]);
            };
        }
        return None;
    }
    proof {
        lemma_digits_end_bounds(s@, from as int);
    }
    match dec_digits_value(s, from, n) {
        Some(v) => {
            if neg {
                if v <= neg_mag_max {
                    Some((true, v))
                } else {
                    None
                }
            } else {
                if v <= pos_max {
                    Some((false, v))
                } else {
                    None
                }
            }
        },
        None => None,
    }
}

/// Advance over hexadecimal digits from `from`; returns the first index
/// holding a non-hex-digit, or the length.
fn scan_hex_digits(s: &[u8], from: usize) -> (i: usize)
    requires
        from <= s@.len(),
    ensures
        from <= i <= s@.len(),
        forall|k: int| from <= k < i ==> is_hex_digit(s@[k]),
        i < s@.len() ==> !is_hex_digit(s@[i as int]),
    decreases s@.len() - from,
{
    let mut i = from;
    while i < s.len() && (48 <= s[i] && s[i] <= 57 || 97 <= s[i] && s[i] <= 102 || 65 <= s[i]
        && s[i] <= 70)
        invariant
            from <= i <= s@.len(),
            forall|k: int| from <= k < i ==> is_hex_digit(s@[k]),
        decreases s@.len() - i,
    {
        i = i + 1;
    }
    i
}

/// Parse `s` as an unsigned hexadecimal integer bounded by `max`, as
/// `from_str_radix(s, 16)` accepts it.
pub fn parse_hex_unsigned_bytes(s: &[u8], max: u128) -> (r: Option<u128>)
    ensures
        match r {
            Some(v) => parse_hex_unsigned(s@, max as nat) == Some(v as nat) && v <= max,
            None => parse_hex_unsigned(s@, max as nat) is None,
        },
{
    let n = s.len();
    let from: usize = if n > 0 && s[0] == 43 {
        1
    } else {
        0
    };
    proof {
        if from == 1 {
            assert(s@.drop_first() =~= s@.subrange(1, n as int));
        } else {
            assert(s@ =~= s@.subrange(0, n as int));
        }
    }
    if from == n {
        return None;
    }
    let e = scan_hex_digits(s, from);
    if e != n {
        proof {
            assert(!all_hex_digits(s@.subrange(from as int, n as int))) by {
                assert(s@.subrange(from as int, n as int)[e - from] == s@[e as int]);
            };
        }
        return None;
    }
    match hex_digits_value(s, from, n) {
        Some(v) => if v <= max {
            Some(v)
        } else {
            None
        },
        None => None,
    }
}

/// Parse `s` as a signed hexadecimal integer with range
/// `[-(neg_mag_max), pos_max]`, returned as a sign and a magnitude.
pub fn parse_hex_signed_bytes(s: &[u8], neg_mag_max: u128, pos_max: u128) -> (r: Option<
    (bool, u128),
>)
    ensures
        match r {
            Some(p) => parse_hex_signed(s@, -(neg_mag_max as int), pos_max as int) == Some(
                if p.0 {
                    -(p.1 as int)
                } else {
                    p.1 as int
                },
            ) && (p.0 ==> p.1 <= neg_mag_max) && (!p.0 ==> p.1 <= pos_max),
            None => parse_hex_signed(s@, -(neg_mag_max as int), pos_max as int) is None,
        },
{
    let n = s.len();
    let neg = n > 0 && s[0] == 45;
    let from: usize = if n > 0 && (s[0] == 43 || s[0] == 45) {
        1
    } else {
        0
    };
    proof {
        if from == 1 {
            assert(s@.drop_first() =~= s@.subrange(1, n as int));
        } else {
            assert(s@ =~= s@.subrange(0, n as int));
        }
    }
    if from == n {
        return None;
    }
    let e = scan_hex_digits(s, from);
    if e != n {
        proof {
            assert(!all_hex_digits(s@.subrange(from as int, n as int))) by {
                assert(s@.subrange(from as int, n as int)[e - from] == s@[e as int]);
            };
        }
        return None;
    }
    match hex_digits_value(s, from, n) {
        Some(v) => {
            if neg {
                if v <= neg_mag_max {
                    Some((true, v))
                } else {
                    None
                }
            } else {
                if v <= pos_max {
                    Some((false, v))
                } else {
                    None
                }
            }
        },
        None => None,
    }
}

/// The decimal digit string of `n`, most significant digit first, with no
/// sign and no leading zeros (`0` itself is `"0"`).
pub open spec fn dec_digits(n: nat) -> Seq<u8>
    decreases n,
{
    if n < 10 {
        seq![(48 + n) as u8]
    } else {
        dec_digits(n / 10).push((48 + n % 10) as u8)
    }
}

/// The decimal digit string of a signed value: a minus sign for negatives.
pub open spec fn dec_digits_signed(v: int) -> Seq<u8> {
    if v < 0 {
        seq![45u8] + dec_digits((-v) as nat)
    } else {
        dec_digits(v as nat)
    }
}

/// An unsigned integer field of the decoder: a `0x`-prefixed hexadecimal
/// literal, else a decimal literal.
pub open spec fn int_field_unsigned(s: Seq<u8>, max: nat) -> Option<nat> {
    if s.len() >= 2 && s[0] == 48 && s[1] == 120 {
        parse_hex_unsigned(s.skip(2), max)
    } else {
        parse_unsigned(s, max)
    }
}

/// A signed integer field of the decoder: a `0x`-prefixed hexadecimal
/// literal, else a decimal literal.
pub open spec fn int_field_signed(s: Seq<u8>, min: int, max: int) -> Option<int> {
    if s.len() >= 2 && s[0] == 48 && s[1] == 120 {
        parse_hex_signed(s.skip(2), min, max)
    } else {
        parse_signed(s, min, max)
    }
}

/// The bytes of the boolean literal `true`.
pub open spec fn true_bytes() -> Seq<u8> {
    seq![116u8, 114u8, 117u8, 101u8]
}

/// The bytes of the boolean literal `false`.
pub open spec fn false_bytes() -> Seq<u8> {
    seq![102u8, 97u8, 108u8, 115u8, 101u8]
}

/// Ten to the `k`.
pub open spec fn pow10(k: nat) -> nat
    decreases k,
{
    if k == 0 {
        1
    } else {
        10 * pow10((k - 1) as nat)
    }
}

/// A number below `10^k` has at most `k` decimal digits.
pub proof fn lemma_dec_digits_len(n: nat, k: nat)
    requires
        k >= 1,
        n < pow10(k),
    ensures
        dec_digits(n).len() <= k,
    decreases k,
{
    if n >= 10 {
        assert(pow10(k) == 10 * pow10((k - 1) as nat));
        lemma_dec_digits_len(n / 10, (k - 1) as nat);
    }
}

/// Forty digits cover every `u128`, sign included.
pub proof fn lemma_dec_digits_len_u128(n: nat)
    requires
        n <= u128::MAX,
    ensures
        dec_digits(n).len() <= 39,
{
    reveal_with_fuel(pow10, 40);
    assert(pow10(39) > u128::MAX);
    lemma_dec_digits_len(n, 39);
}

/// Round trip for integer fields: a number written as its decimal digits
/// and decoded as an unsigned integer field within `max` gives back the
/// number.
pub proof fn lemma_unsigned_field_roundtrip(v: nat, max: nat)
    requires
        v <= max,
    ensures
        parse_unsigned(dec_digits(v), max) == Some(v),
        int_field_unsigned(dec_digits(v), max) == Some(v),
{
    lemma_dec_digits_roundtrip(v);
    let s = dec_digits(v);
    assert(is_digit(s[0]));
    assert(s[0] != 43);
    if s.len() >= 2 {
        assert(is_digit(s[1]));
        assert(s[1] != 120);
    }
}

/// Formatting then reading a decimal number gives back the number.
pub proof fn lemma_dec_digits_roundtrip(n: nat)
    ensures
        all_digits(dec_digits(n)),
        dec_digits(n).len() >= 1,
        dec_val(dec_digits(n)) == n,
        dec_digits(n)[0] != 43 && dec_digits(n)[0] != 45,
    decreases n,
{
    if n < 10 {
        assert(dec_val(dec_digits(n)) == dec_val(dec_digits(n).drop_last()) * 10 + digit_val(
            dec_digits(n).last(),
        ));
        assert(dec_digits(n).drop_last() =~= Seq::<u8>::empty());
    } else {
        lemma_dec_digits_roundtrip(n / 10);
        assert(dec_digits(n).drop_last() =~= dec_digits(n / 10));
        assert(dec_val(dec_digits(n)) == dec_val(dec_digits(n / 10)) * 10 + digit_val(
            dec_digits(n).last(),
        ));
    }
}

} // verus!
