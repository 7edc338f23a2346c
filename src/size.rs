use vstd::prelude::*;
use vstd::string::StringSliceAdditionalSpecFns;

verus! {

/// Why a size could not be parsed.
#[derive(Debug, Clone, Copy, PartialEq, Eq, Structural)]
pub enum SizeError {
    /// The text is empty.
    Empty,
    /// The text is not a decimal number with an optional size suffix.
    Invalid,
    /// The integer part does not fit in 64 bits.
    TooLarge,
}

pub open spec fn is_digit(b: u8) -> bool {
    48 <= b <= 57
}

pub open spec fn all_digits(s: Seq<u8>) -> bool {
    forall|i: int| 0 <= i < s.len() ==> is_digit(#[trigger] s[i])
}

/// The number that the decimal digits `s` write.
pub open spec fn digits_value(s: Seq<u8>) -> nat
    decreases s.len(),
{
    if s.len() == 0 {
        0
    } else {
        digits_value(s.drop_last()) * 10 + (s.last() - 48) as nat
    }
}

pub open spec fn pow10(e: nat) -> nat
    decreases e,
{
    if e == 0 {
        1
    } else {
        10 * pow10((e - 1) as nat)
    }
}

/// The power of 1024 that a suffix letter stands for: K, M, G, T in either case.
pub open spec fn suffix_multiplier(b: u8) -> Option<nat> {
    if b == 75 || b == 107 {
        Some(1024)
    } else if b == 77 || b == 109 {
        Some(1048576)
    } else if b == 71 || b == 103 {
        Some(1073741824)
    } else if b == 84 || b == 116 {
        Some(1099511627776)
    } else {
        None
    }
}

pub open spec fn has_dot(body: Seq<u8>) -> bool {
    exists|p: int| 0 <= p < body.len() && body[p] == 46
}

pub open spec fn dot_index(body: Seq<u8>) -> int {
    choose|p: int| 0 <= p < body.len() && body[p] == 46
}

/// The digits before the decimal point.
pub open spec fn int_part(body: Seq<u8>) -> Seq<u8> {
    if has_dot(body) {
        body.take(dot_index(body))
    } else {
        body
    }
}

/// The digits after the decimal point.
pub open spec fn frac_part(body: Seq<u8>) -> Seq<u8> {
    if has_dot(body) {
        body.skip(dot_index(body) + 1)
    } else {
        Seq::empty()
    }
}

/// Digits with at most one decimal point, and at least one digit.
pub open spec fn mantissa_ok(body: Seq<u8>) -> bool {
    &&& all_digits(int_part(body))
    &&& all_digits(frac_part(body))
    &&& int_part(body).len() + frac_part(body).len() > 0
}

/// The mantissa times the multiplier, rounded down.
pub open spec fn scaled_value(body: Seq<u8>, mult: nat) -> nat {
    digits_value(int_part(body)) * mult + digits_value(frac_part(body)) * mult / pow10(
        frac_part(body).len(),
    )
}

/// A number of bytes written as a decimal integer, or as a decimal number with
/// a suffix K, M, G or T (either case) for a power of 1024; a suffixed value is
/// rounded down, and saturates at `u64::MAX`.
pub open spec fn size_spec(s: Seq<u8>) -> Result<u64, SizeError> {
    if s.len() == 0 {
        Err(SizeError::Empty)
    } else if suffix_multiplier(s.last()) is Some {
        let body = s.drop_last();
        let mult = suffix_multiplier(s.last())->Some_0;
        if !mantissa_ok(body) {
            Err(SizeError::Invalid)
        } else if digits_value(int_part(body)) > u64::MAX {
            Err(SizeError::TooLarge)
        } else if scaled_value(body, mult) > u64::MAX {
            Ok(u64::MAX)
        } else {
            Ok(scaled_value(body, mult) as u64)
        }
    } else if !all_digits(s) {
        Err(SizeError::Invalid)
    } else if digits_value(s) > u64::MAX {
        Err(SizeError::TooLarge)
    } else {
        Ok(digits_value(s) as u64)
    }
}

proof fn lemma_digits_value_monotone(s: Seq<u8>, i: int, j: int)
    requires
        0 <= i <= j <= s.len(),
    ensures
        digits_value(s.subrange(0, i)) <= digits_value(s.subrange(0, j)),
    decreases j - i,
{
    if i < j {
        lemma_digits_value_monotone(s, i, j - 1);
        assert(s.subrange(0, j).drop_last() =~= s.subrange(0, j - 1));
    }
}

proof fn lemma_pow10_pos(e: nat)
    ensures
        pow10(e) >= 1,
    decreases e,
{
    if e > 0 {
        lemma_pow10_pos((e - 1) as nat);
    }
}

proof fn lemma_digits_value_bound(s: Seq<u8>)
    requires
        all_digits(s),
    ensures
        digits_value(s) < pow10(s.len()),
    decreases s.len(),
{
    if s.len() > 0 {
        let t = s.drop_last();
        assert(all_digits(t)) by {
            assert forall|i: int| 0 <= i < t.len() implies is_digit(#[trigger] t[i]) by {
                assert(t[i] == s[i]);
            }
        }
        lemma_digits_value_bound(t);
        assert(is_digit(s[s.len() - 1]));
    }
}

/// The value of the digits `bytes[start..end]`, or `None` where it exceeds `u64::MAX`.
fn digits_in(bytes: &[u8], start: usize, end: usize) -> (r: Option<u64>)
    requires
        start <= end <= bytes@.len(),
        all_digits(bytes@.subrange(start as int, end as int)),
    ensures
        r is Some <==> digits_value(bytes@.subrange(start as int, end as int)) <= u64::MAX,
        r is Some ==> r->Some_0 == digits_value(bytes@.subrange(start as int, end as int)),
{
    let ghost s = bytes@.subrange(start as int, end as int);
    let mut v: u64 = 0;
    let mut i: usize = start;
    proof {
        assert(s.subrange(0, 0) =~= Seq::<u8>::empty());
    }
    while i < end
        invariant
            start <= i <= end,
            end <= bytes@.len(),
            s == bytes@.subrange(start as int, end as int),
            all_digits(s),
            v == digits_value(s.subrange(0, i - start)),
        decreases end - i,
    {
        proof {
            assert(s[i - start] == bytes@[i as int]);
            assert(is_digit(s[i - start]));
            assert(s.subrange(0, i + 1 - start).drop_last() =~= s.subrange(0, i - start));
        }
        let d = bytes[i] - 48;
        let w: u128 = (v as u128) * 10 + (d as u128);
        if w > u64::MAX as u128 {
            proof {
                lemma_digits_value_monotone(s, i + 1 - start, s.len() as int);
                assert(s.subrange(0, s.len() as int) =~= s);
            }
            return None;
        }
        v = w as u64;
        i += 1;
    }
    proof {
        assert(s.subrange(0, end - start) =~= s);
    }
    Some(v)
}

/// Whether every byte of `bytes[start..end]` is a decimal digit.
fn are_digits(bytes: &[u8], start: usize, end: usize) -> (r: bool)
    requires
        start <= end <= bytes@.len(),
    ensures
        r == all_digits(bytes@.subrange(start as int, end as int)),
{
    let mut i: usize = start;
    while i < end
        invariant
            start <= i <= end,
            end <= bytes@.len(),
            forall|k: int| start <= k < i ==> is_digit(#[trigger] bytes@[k]),
        decreases end - i,
    {
        if bytes[i] < 48 || bytes[i] > 57 {
            proof {
                assert(bytes@.subrange(start as int, end as int)[i - start] == bytes@[i as int]);
            }
            return false;
        }
        i += 1;
    }
    proof {
        let s = bytes@.subrange(start as int, end as int);
        assert forall|k: int| 0 <= k < s.len() implies is_digit(#[trigger] s[k]) by {
            assert(s[k] == bytes@[start + k]);
        }
    }
    true
}

/// The multiplier of a suffix letter.
fn multiplier_of(b: u8) -> (r: Option<u64>)
    ensures
        r is Some <==> suffix_multiplier(b) is Some,
        r is Some ==> r->Some_0 == suffix_multiplier(b)->Some_0,
{
    if b == 75 || b == 107 {
        Some(1024)
    } else if b == 77 || b == 109 {
        Some(1048576)
    } else if b == 71 || b == 103 {
        Some(1073741824)
    } else if b == 84 || b == 116 {
        Some(1099511627776)
    } else {
        None
    }
}

/// Index of the first `.` in `bytes[0..end]`.
fn find_dot(bytes: &[u8], end: usize) -> (r: Option<usize>)
    requires
        end <= bytes@.len(),
    ensures
        r is None ==> forall|k: int| 0 <= k < end ==> bytes@[k] != 46,
        r is Some ==> r->Some_0 < end && bytes@[r->Some_0 as int] == 46 && forall|k: int|
            0 <= k < r->Some_0 ==> bytes@[k] != 46,
{
    let mut i: usize = 0;
    while i < end
        invariant
            i <= end,
            end <= bytes@.len(),
            forall|k: int| 0 <= k < i ==> bytes@[k] != 46,
        decreases end - i,
    {
        if bytes[i] == 46 {
            return Some(i);
        }
        i += 1;
    }
    None
}

/// A number written by the digits `s` is its first digit times a power of ten
/// plus the number the other digits write.
proof fn lemma_digits_value_first(s: Seq<u8>)
    requires
        s.len() > 0,
        all_digits(s),
    ensures
        digits_value(s) == ((s[0] - 48) as nat) * pow10((s.len() - 1) as nat) + digits_value(
            s.drop_first(),
        ),
    decreases s.len(),
{
    assert(is_digit(s[0]));
    if s.len() == 1 {
        assert(s.drop_last() =~= Seq::<u8>::empty());
        assert(s.drop_first() =~= Seq::<u8>::empty());
        assert(s.last() == s[0]);
        assert(digits_value(s.drop_last()) == 0);
        assert(digits_value(s.drop_first()) == 0);
        assert(pow10(0) == 1);
        assert(digits_value(s) == ((s[0] - 48) as nat));
        assert(((s[0] - 48) as nat) * pow10(0) == ((s[0] - 48) as nat));
    } else {
        let t = s.drop_last();
        assert(all_digits(t)) by {
            assert forall|i: int| 0 <= i < t.len() implies is_digit(#[trigger] t[i]) by {
                assert(t[i] == s[i]);
            }
        }
        lemma_digits_value_first(t);
        let u = s.drop_first();
        assert(t.drop_first() =~= u.drop_last());
        assert(u.last() == s.last());
        assert(t[0] == s[0]);
        let a = ((s[0] - 48) as nat) as int;
        let p = pow10((t.len() - 1) as nat) as int;
        let dt = digits_value(t.drop_first()) as int;
        let l = ((s.last() - 48) as nat) as int;
        assert(pow10((s.len() - 1) as nat) == 10 * p);
        assert(digits_value(s) == digits_value(t) * 10 + l);
        assert(digits_value(u) == digits_value(u.drop_last()) * 10 + l);
        assert((a * p + dt) * 10 + l == a * (10 * p) + (dt * 10 + l)) by (nonlinear_arith);
        assert(digits_value(t) == a * p + dt);
        assert(digits_value(u) == dt * 10 + l);
        assert(a == ((s[0] - 48) as nat));
        assert(digits_value(s) == a * (10 * p) + digits_value(u));
        assert(a * (10 * p) == ((s[0] - 48) as nat) * pow10((s.len() - 1) as nat));
    }
}

/// One step of long division from the last digit back.
proof fn lemma_fraction_step(d: nat, v: nat, m: nat, p: nat)
    requires
        p > 0,
    ensures
        (d * m + (v * m) / p) / 10 == ((d * p + v) * m) / (p * 10),
{
    vstd::arithmetic::div_mod::lemma_hoist_over_denominator((v * m) as int, (d * m) as int, p);
    vstd::arithmetic::div_mod::lemma_div_denominator((v * m + (d * m) * p) as int, p as int, 10);
    assert((d * p + v) * m == v * m + (d * m) * p) by (nonlinear_arith);
}

/// The digits `bytes[start..end]` read as a fraction `0.ddd`, times `mult`,
/// rounded down; exact for any number of digits.
fn fraction_scaled(bytes: &[u8], start: usize, end: usize, mult: u64) -> (r: u64)
    requires
        start <= end <= bytes@.len(),
        all_digits(bytes@.subrange(start as int, end as int)),
        0 < mult <= 1099511627776,
    ensures
        r as nat == digits_value(bytes@.subrange(start as int, end as int)) * (mult as nat) / pow10(
            (end - start) as nat,
        ),
{
    let mut t: u64 = 0;
    let mut i: usize = end;
    proof {
        assert(bytes@.subrange(end as int, end as int) =~= Seq::<u8>::empty());
    }
    while i > start
        invariant
            start <= i <= end <= bytes@.len(),
            all_digits(bytes@.subrange(start as int, end as int)),
            0 < mult <= 1099511627776,
            t < mult,
            t as nat == digits_value(bytes@.subrange(i as int, end as int)) * (mult as nat) / pow10(
                (end - i) as nat,
            ),
        decreases i,
    {
        i -= 1;
        let ghost sub = bytes@.subrange(i as int, end as int);
        proof {
            assert(bytes@.subrange(start as int, end as int)[i - start] == bytes@[i as int]);
        }
        let d = (bytes[i] - 48) as u64;
        proof {
            assert(d * mult <= 9 * 1099511627776) by (nonlinear_arith)
                requires
                    d <= 9,
                    mult <= 1099511627776,
            ;
            assert(all_digits(sub)) by {
                assert forall|k: int| 0 <= k < sub.len() implies is_digit(#[trigger] sub[k]) by {
                    assert(sub[k] == bytes@.subrange(start as int, end as int)[i - start + k]);
                }
            }
            lemma_digits_value_first(sub);
            assert(sub.drop_first() =~= bytes@.subrange(i + 1, end as int));
            assert(sub[0] == bytes@[i as int]);
            let p = pow10((end - i - 1) as nat);
            lemma_pow10_pos((end - i - 1) as nat);
            lemma_fraction_step(
                d as nat,
                digits_value(bytes@.subrange(i + 1, end as int)),
                mult as nat,
                p,
            );
            assert(pow10((end - i) as nat) == 10 * p);
            assert(p * 10 == 10 * p);
            assert(all_digits(sub)) by {
                assert forall|k: int| 0 <= k < sub.len() implies is_digit(#[trigger] sub[k]) by {
                    assert(sub[k] == bytes@.subrange(start as int, end as int)[i - start + k]);
                }
            }
            lemma_digits_value_bound(sub);
            let v = digits_value(sub);
            let q = pow10((end - i) as nat);
            assert(v * mult < q * mult) by (nonlinear_arith)
                requires
                    v < q,
                    mult > 0,
            ;
            vstd::arithmetic::div_mod::lemma_multiply_divide_lt((v * mult) as int, q as int, mult as int);
        }
        t = (d * mult + t) / 10;
    }
    t
}

/// Parses a human-readable size such as `500`, `10M` or `0.5k` (powers of
/// 1024). A fraction needs a suffix; a suffixed value is rounded down.
pub fn parse_num_bytes(value: &str) -> (r: Result<u64, SizeError>)
    ensures
        r == size_spec(value.spec_bytes()),
{
    let bytes = value.as_bytes();
    let n = bytes.len();
    if n == 0 {
        return Err(SizeError::Empty);
    }
    let ghost s = bytes@;
    let mult = match multiplier_of(bytes[n - 1]) {
        Some(m) => m,
        None => {
            if !are_digits(bytes, 0, n) {
                return Err(SizeError::Invalid);
            }
            proof {
                assert(s.subrange(0, n as int) =~= s);
            }
            return match digits_in(bytes, 0, n) {
                Some(v) => Ok(v),
                None => Err(SizeError::TooLarge),
            };
        },
    };
    let ghost body = s.drop_last();
    let end = n - 1;
    let (int_end, frac_start) = match find_dot(bytes, end) {
        Some(p) => (p, p + 1),
        None => (end, end),
    };
    let digits_ok = are_digits(bytes, 0, int_end) && are_digits(bytes, frac_start, end);
    proof {
        assert(body.len() == end);
        if int_end < end {
            // a dot at `int_end`; where the other bytes are digits it is the only one
            assert(body[int_end as int] == 46);
            assert(has_dot(body));
            if digits_ok {
                let q = dot_index(body);
                if q != int_end {
                    if q < int_end {
                        assert(s.subrange(0, int_end as int)[q] == body[q]);
                    } else {
                        assert(s.subrange(frac_start as int, end as int)[q - frac_start] == body[q]);
                    }
                }
                assert(q == int_end);
            }
        } else {
            assert(!has_dot(body)) by {
                if has_dot(body) {
                    let q = choose|p: int| 0 <= p < body.len() && body[p] == 46;
                    assert(s[q] == body[q]);
                }
            }
        }
        if digits_ok {
            assert(int_part(body) =~= s.subrange(0, int_end as int));
            assert(frac_part(body) =~= s.subrange(frac_start as int, end as int));
        }
    }
    if !digits_ok || (int_end == 0 && frac_start == end) {
        proof {
            if !digits_ok && int_end < end {
                let q = dot_index(body);
                assert(body[q] == 46);
                assert(s[q] == body[q]);
                assert(q >= int_end);
                if all_digits(int_part(body)) && all_digits(frac_part(body)) {
                    if q > int_end {
                        assert(int_part(body)[int_end as int] == body[int_end as int]);
                    } else {
                        assert(int_part(body) =~= s.subrange(0, int_end as int));
                        assert(frac_part(body) =~= s.subrange(frac_start as int, end as int));
                    }
                }
            } else if !digits_ok {
                let k = choose|k: int|
                    0 <= k < int_end && !is_digit(#[trigger] s.subrange(0, int_end as int)[k]);
                assert(int_part(body)[k] == body[k]);
            }
        }
        return Err(SizeError::Invalid);
    }
    let int_value = match digits_in(bytes, 0, int_end) {
        Some(v) => v,
        None => {
            return Err(SizeError::TooLarge);
        },
    };
    let frac_value = fraction_scaled(bytes, frac_start, end, mult);
    let m = mult as u128;
    let iv = int_value as u128;
    proof {
        assert(iv * m <= 18446744073709551615u128 * 1099511627776u128) by (nonlinear_arith)
            requires
                iv <= 18446744073709551615u128,
                m <= 1099511627776u128,
        ;
    }
    let total: u128 = iv * m + frac_value as u128;
    if total > u64::MAX as u128 {
        Ok(u64::MAX)
    } else {
        Ok(total as u64)
    }
}

} // verus!
