use vstd::prelude::*;
use vstd::string::StringSliceAdditionalSpecFns;

verus! {

/// The largest whole-unit part that an amount in 1/10_000's can have.
pub const MAX_UNITS: u64 = 1844674407370955;

pub open spec fn is_digit(b: u8) -> bool {
    48 <= b <= 57
}

pub open spec fn all_digits(s: Seq<u8>) -> bool {
    forall|i: int| 0 <= i < s.len() ==> is_digit(#[trigger] s[i])
}

/// The value of a string of decimal digits.
pub open spec fn digits_value(s: Seq<u8>) -> nat
    decreases s.len(),
{
    if s.len() == 0 {
        0
    } else {
        digits_value(s.drop_last()) * 10 + (s.last() - 48) as nat
    }
}

pub open spec fn digit_at(f: Seq<u8>, i: int) -> int {
    if 0 <= i < f.len() {
        f[i] - 48
    } else {
        0
    }
}

/// The fraction digits scaled to 1/10_000's, rounded half away from zero on
/// the fifth digit.
pub open spec fn fraction_units(f: Seq<u8>) -> int {
    1000 * digit_at(f, 0) + 100 * digit_at(f, 1) + 10 * digit_at(f, 2) + digit_at(f, 3) + if f.len()
        > 4 && f[4] >= 53 {
        1int
    } else {
        0int
    }
}

/// `s` has its decimal point at `p`, with only digits on either side.
pub open spec fn point_at(s: Seq<u8>, p: int) -> bool {
    &&& 0 <= p < s.len()
    &&& s[p] == 46
    &&& all_digits(s.take(p))
    &&& all_digits(s.skip(p + 1))
}

/// Digits with at most one decimal point, and at least one digit.
pub open spec fn is_decimal(s: Seq<u8>) -> bool {
    ||| s.len() > 0 && all_digits(s)
    ||| s.len() > 1 && exists|p: int| point_at(s, p)
}

pub open spec fn point_of(s: Seq<u8>) -> int {
    choose|p: int| point_at(s, p)
}

/// The value of a decimal in 1/10_000's.
pub open spec fn decimal_units(s: Seq<u8>) -> int {
    if all_digits(s) {
        digits_value(s) * 10000int
    } else {
        digits_value(s.take(point_of(s))) * 10000int + fraction_units(s.skip(point_of(s) + 1))
    }
}

/// The amount that a decimal text stands for, in 1/10_000's: none where the
/// text is no unsigned decimal or the amount does not fit in a `u64`.
pub open spec fn amount_of(s: Seq<u8>) -> Option<u64> {
    if is_decimal(s) && decimal_units(s) <= u64::MAX {
        Some(decimal_units(s) as u64)
    } else {
        None
    }
}

proof fn lemma_digits_take(s: Seq<u8>, i: int)
    requires
        0 <= i < s.len(),
    ensures
        digits_value(s.take(i + 1)) == digits_value(s.take(i)) * 10 + (s[i] - 48) as nat,
{
    assert(s.take(i + 1).drop_last() =~= s.take(i));
}

proof fn lemma_digits_monotone(s: Seq<u8>, i: int)
    requires
        0 <= i <= s.len(),
    ensures
        digits_value(s) >= digits_value(s.take(i)),
    decreases s.len(),
{
    if i == s.len() {
        assert(s.take(i) =~= s);
    } else {
        lemma_digits_monotone(s.drop_last(), i);
        assert(s.drop_last().take(i) =~= s.take(i));
    }
}

/// The value of the digits `s[from..to]`, or `None` where one of them is no
/// digit or the value passes `MAX_UNITS`.
fn digits_up_to(s: &[u8], from: usize, to: usize) -> (r: Option<u64>)
    requires
        from <= to <= s@.len(),
    ensures
        all_digits(s@.subrange(from as int, to as int)) && digits_value(
            s@.subrange(from as int, to as int),
        ) <= MAX_UNITS ==> r == Some(
            digits_value(s@.subrange(from as int, to as int)) as u64,
        ),
        r is Some ==> all_digits(s@.subrange(from as int, to as int)) && r->Some_0 == digits_value(
            s@.subrange(from as int, to as int),
        ) && r->Some_0 <= MAX_UNITS,
{
    let ghost t = s@.subrange(from as int, to as int);
    let mut acc: u64 = 0;
    let mut i: usize = from;
    while i < to
        invariant
            from <= i <= to <= s@.len(),
            t == s@.subrange(from as int, to as int),
            all_digits(t.take(i - from)),
            acc == digits_value(t.take(i - from)),
            acc <= MAX_UNITS,
        decreases to - i,
    {
        let b = s[i];
        proof {
            lemma_digits_take(t, i - from);
            assert(t[i - from] == b);
        }
        if b < 48 || b > 57 {
            proof {
                assert(!is_digit(t[i - from]));
            }
            return None;
        }
        let d = (b - 48) as u64;
        if acc > (MAX_UNITS - d) / 10 {
            proof {
                lemma_digits_monotone(t, i - from + 1);
            }
            return None;
        }
        proof {
            assert forall|j: int| 0 <= j < i + 1 - from implies is_digit(
                #[trigger] t.take(i + 1 - from)[j],
            ) by {
                if j < i - from {
                    assert(t.take(i + 1 - from)[j] == t.take(i - from)[j]);
                }
            }
        }
        acc = acc * 10 + d;
        i = i + 1;
    }
    proof {
        assert(t.take(to - from) =~= t);
    }
    Some(acc)
}


fn all_digits_in(s: &[u8], from: usize, to: usize) -> (r: bool)
    requires
        from <= to <= s@.len(),
    ensures
        r == all_digits(s@.subrange(from as int, to as int)),
{
    let mut i: usize = from;
    while i < to
        invariant
            from <= i <= to <= s@.len(),
            forall|j: int| from <= j < i ==> is_digit(#[trigger] s@[j]),
        decreases to - i,
    {
        if s[i] < 48 || s[i] > 57 {
            assert(!is_digit(s@.subrange(from as int, to as int)[i - from]));
            return false;
        }
        i = i + 1;
    }
    assert forall|j: int| 0 <= j < to - from implies is_digit(
        #[trigger] s@.subrange(from as int, to as int)[j],
    ) by {
        assert(s@.subrange(from as int, to as int)[j] == s@[from + j]);
    }
    true
}

/// Reads an unsigned decimal amount (`5`, `2.5`, `.1234`, `3.`) in 1/10_000's,
/// rounding half away from zero on the fifth fraction digit.
pub fn parse_amount(text: &str) -> (r: Option<u64>)
    ensures
        r == amount_of(text.spec_bytes()),
{
    let s = text.as_bytes();
    let ghost b = s@;
    let n = s.len();
    let mut p: usize = 0;
    while p < n && s[p] != 46
        invariant
            p <= n == s@.len(),
            forall|j: int| 0 <= j < p ==> s@[j] != 46,
        decreases n - p,
    {
        p = p + 1;
    }
    if p == n {
        assert(b.subrange(0, n as int) =~= b);
        assert(forall|q: int| !point_at(b, q));
        if n == 0 {
            return None;
        }
        return match digits_up_to(s, 0, n) {
            Some(v) => Some(v * 10000),
            None => {
                proof {
                    if all_digits(b) {
                        assert(digits_value(b) * 10000 > u64::MAX) by (nonlinear_arith)
                            requires
                                digits_value(b) > MAX_UNITS,
                        ;
                    }
                }
                None
            },
        };
    }
    if n == 1 {
        return None;
    }
    assert(b.subrange(0, p as int) =~= b.take(p as int));
    assert(b.subrange(p + 1, n as int) =~= b.skip(p + 1));
    let whole = digits_up_to(s, 0, p);
    let frac_ok = all_digits_in(s, p + 1, n);
    proof {
        assert(!is_digit(b[p as int]));
        assert(!all_digits(b));
        assert forall|q: int| point_at(b, q) implies q == p by {
            if q < p {
                assert(b[q] == 46);
            }
            if q > p {
                assert(b.take(q)[p as int] == b[p as int]);
            }
        }
        if frac_ok && all_digits(b.take(p as int)) {
            assert(point_at(b, p as int));
        }
    }
    let w = match whole {
        Some(w) => w,
        None => {
            proof {
                if all_digits(b.take(p as int)) && frac_ok {
                    let f = b.skip(p + 1);
                    assert(forall|k: int| 0 <= k < f.len() ==> is_digit(#[trigger] f[k]));
                    assert(fraction_units(f) >= 0);
                    let v = digits_value(b.take(p as int));
                    assert(v * 10000 > u64::MAX) by (nonlinear_arith)
                        requires
                            v > MAX_UNITS,
                    ;
                }
            }
            return None;
        },
    };
    if !frac_ok {
        return None;
    }
    let ghost f = b.skip(p + 1);
    let f0 = p + 1;
    let rest = n - f0;
    let d0 = if rest > 0 { (s[f0] - 48) as u64 } else { 0 };
    let d1 = if rest > 1 { (s[f0 + 1] - 48) as u64 } else { 0 };
    let d2 = if rest > 2 { (s[f0 + 2] - 48) as u64 } else { 0 };
    let d3 = if rest > 3 { (s[f0 + 3] - 48) as u64 } else { 0 };
    let up: u64 = if rest > 4 && s[f0 + 4] >= 53 { 1 } else { 0 };
    proof {
        assert(forall|k: int| 0 <= k < f.len() ==> f[k] == b[p + 1 + k] && is_digit(f[k]));
    }
    let units = 1000 * d0 + 100 * d1 + 10 * d2 + d3 + up;
    assert(units == fraction_units(f));
    if w > (u64::MAX - units) / 10000 {
        return None;
    }
    Some(w * 10000 + units)
}

} // verus!
