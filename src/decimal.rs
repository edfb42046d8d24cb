use vstd::prelude::*;

verus! {

/// Number of fraction digits carried by a fixed-point value.
pub const FRAC_DIGITS: usize = 8;

/// 10^8: one whole unit counted in units of 10^-8.
pub const UNIT: u64 = 100_000_000;

pub open spec fn is_digit(c: char) -> bool {
    '0' <= c && c <= '9'
}

pub open spec fn digit_of(c: char) -> int {
    c as int - '0' as int
}

pub open spec fn all_digits(s: Seq<char>) -> bool {
    forall|i: int| 0 <= i < s.len() ==> is_digit(#[trigger] s[i])
}

/// The number that the decimal digits `s` write.
pub open spec fn digits_value(s: Seq<char>) -> int
    decreases s.len(),
{
    if s.len() == 0 {
        0
    } else {
        digits_value(s.drop_last()) * 10 + digit_of(s.last())
    }
}

pub open spec fn pow10(n: nat) -> int
    decreases n,
{
    if n == 0 {
        1
    } else {
        10 * pow10((n - 1) as nat)
    }
}

/// The digits after the point at `k`, none when `s` has no point.
pub open spec fn frac_part(s: Seq<char>, k: int) -> Seq<char> {
    if k < s.len() {
        s.subrange(k + 1, s.len() as int)
    } else {
        Seq::empty()
    }
}

/// `s` is a decimal whose integer part is its first `k` characters: at
/// least one digit, then either the end, or a point and at most eight
/// digits.
pub open spec fn point_at(s: Seq<char>, k: int) -> bool {
    &&& 1 <= k <= s.len()
    &&& all_digits(s.take(k))
    &&& (k < s.len() ==> s[k] == '.' && all_digits(frac_part(s, k)) && frac_part(s, k).len() <= FRAC_DIGITS)
}

/// The value of the decimal `s` with its point at `k`, in units of 10^-8.
pub open spec fn fixed_value(s: Seq<char>, k: int) -> int {
    digits_value(s.take(k)) * UNIT + digits_value(frac_part(s, k)) * pow10(
        (FRAC_DIGITS - frac_part(s, k).len()) as nat,
    )
}

proof fn lemma_digits_nonneg(s: Seq<char>)
    requires
        all_digits(s),
    ensures
        digits_value(s) >= 0,
    decreases s.len(),
{
    if s.len() > 0 {
        assert(is_digit(s[s.len() - 1]));
        lemma_digits_nonneg(s.drop_last());
    }
}

proof fn lemma_digits_mono(s: Seq<char>, i: int, j: int)
    requires
        0 <= i <= j <= s.len(),
        all_digits(s.take(j)),
    ensures
        digits_value(s.take(i)) <= digits_value(s.take(j)),
    decreases j - i,
{
    if i < j {
        assert(s.take(j).drop_last() =~= s.take(j - 1));
        assert(is_digit(s.take(j)[j - 1]));
        assert(all_digits(s.take(j - 1))) by {
            assert forall|m: int| 0 <= m < j - 1 implies is_digit(#[trigger] s.take(j - 1)[m]) by {
                assert(s.take(j)[m] == s.take(j - 1)[m]);
            }
        }
        lemma_digits_nonneg(s.take(j - 1));
        lemma_digits_mono(s, i, j - 1);
    }
}

proof fn lemma_digits_step(s: Seq<char>, a: int, b: int)
    requires
        0 <= a <= b < s.len(),
    ensures
        digits_value(s.subrange(a, b + 1)) == digits_value(s.subrange(a, b)) * 10 + digit_of(s[b]),
{
    assert(s.subrange(a, b + 1).drop_last() =~= s.subrange(a, b));
}

/// Parses a decimal such as `0.00100000` into units of 10^-8: digits, then
/// optionally a point and at most eight digits. `None` when `s` is not
/// such a decimal or its value does not fit in a `u64`.
pub fn parse_fixed(s: &str) -> (r: Option<u64>)
    ensures
        match r {
            Some(v) => exists|k: int| point_at(s@, k) && v == fixed_value(s@, k),
            None => forall|k: int| point_at(s@, k) ==> fixed_value(s@, k) > u64::MAX,
        },
{
    let len = s.unicode_len();
    let ghost sv = s@;
    // integer part
    let mut iv: u128 = 0;
    let mut i: usize = 0;
    while i < len && is_digit_char(s.get_char(i))
        invariant
            len == sv.len(),
            sv == s@,
            i <= len,
            all_digits(sv.take(i as int)),
            iv == digits_value(sv.take(i as int)),
            iv <= 1_000_000_000_000u128,
        decreases len - i,
    {
        let c = s.get_char(i);
        proof {
            lemma_digits_step(sv, 0, i as int);
            assert(sv.subrange(0, i as int) =~= sv.take(i as int));
            assert(sv.subrange(0, i as int + 1) =~= sv.take(i as int + 1));
        }
        let ghost before = iv;
        iv = iv * 10 + (c as u128 - '0' as u128);
        i = i + 1;
        assert(all_digits(sv.take(i as int))) by {
            assert forall|m: int| 0 <= m < i implies is_digit(#[trigger] sv.take(i as int)[m]) by {
                if m < i - 1 {
                    assert(sv.take(i as int)[m] == sv.take(i - 1)[m]);
                }
            }
        }
        if iv > 1_000_000_000_000u128 {
            proof {
                assert forall|k: int| point_at(sv, k) implies fixed_value(sv, k) > u64::MAX by {
                    lemma_int_part_overflow(sv, i as int, k);
                }
            }
            return None;
        }
    }
    let k = i;
    if k == 0 {
        proof {
            assert forall|k2: int| point_at(sv, k2) implies fixed_value(sv, k2) > u64::MAX by {
                assert(sv.take(k2)[0] == sv[0]);
            }
        }
        return None;
    }
    let mut fv: u128 = 0;
    let mut f: usize = 0;
    if k < len {
        if s.get_char(k) != '.' {
            proof {
                assert forall|k2: int| point_at(sv, k2) implies fixed_value(sv, k2) > u64::MAX by {
                    lemma_point_unique(sv, k as int, k2);
                }
            }
            return None;
        }
        let mut j: usize = k + 1;
        while j < len
            invariant
                len == sv.len(),
                sv == s@,
                k < len,
                1 <= k,
                all_digits(sv.take(k as int)),
                sv[k as int] == '.',
                k + 1 <= j <= len,
                f == j - k - 1,
                f <= FRAC_DIGITS,
                all_digits(sv.subrange(k + 1, j as int)),
                fv == digits_value(sv.subrange(k + 1, j as int)),
                fv < pow10(f as nat),
            decreases len - j,
        {
            let c = s.get_char(j);
            if !is_digit_char(c) || f == FRAC_DIGITS {
                proof {
                    assert forall|k2: int| point_at(sv, k2) implies fixed_value(sv, k2) > u64::MAX by {
                        lemma_point_unique(sv, k as int, k2);
                        assert(frac_part(sv, k as int)[j - k - 1] == sv[j as int]);
                    }
                }
                return None;
            }
            proof {
                lemma_digits_step(sv, k + 1, j as int);
                assert(pow10((f + 1) as nat) == 10 * pow10(f as nat));
                lemma_pow10_small(f as nat);
            }
            fv = fv * 10 + (c as u128 - '0' as u128);
            j = j + 1;
            f = f + 1;
            assert(all_digits(sv.subrange(k + 1, j as int))) by {
                assert forall|m: int| 0 <= m < j - k - 1 implies is_digit(#[trigger] sv.subrange(k + 1, j as int)[m]) by {
                    if m < j - k - 2 {
                        assert(sv.subrange(k + 1, j as int)[m] == sv.subrange(k + 1, j - 1)[m]);
                    }
                }
            }
        }
        assert(sv.subrange(k + 1, len as int) =~= frac_part(sv, k as int));
    } else {
        assert(frac_part(sv, k as int) =~= sv.subrange(0, 0));
    }
    // scale the fraction to eight digits
    let mut m: u128 = 1;
    let mut e: usize = f;
    while e < FRAC_DIGITS
        invariant
            f <= e <= FRAC_DIGITS,
            m == pow10((e - f) as nat),
            m <= pow10(e as nat),
        decreases FRAC_DIGITS - e,
    {
        proof {
            assert(pow10((e + 1 - f) as nat) == 10 * pow10((e - f) as nat));
            assert(pow10((e + 1) as nat) == 10 * pow10(e as nat));
            lemma_pow10_small(e as nat);
        }
        m = m * 10;
        e = e + 1;
    }
    proof {
        reveal_with_fuel(pow10, 9);
        assert(pow10(8) == 100_000_000);
        lemma_pow10_add(f as nat, (8 - f) as nat);
        assert(fv * m < 100_000_000 * 100_000_000) by (nonlinear_arith)
            requires fv < pow10(f as nat), m == pow10((8 - f) as nat), f <= 8,
                pow10(f as nat) * pow10((8 - f) as nat) == 100_000_000 {
        }
    }
    let total: u128 = iv * 100_000_000 + fv * m;
    assert(point_at(sv, k as int));
    if total > u64::MAX as u128 {
        proof {
            assert forall|k2: int| point_at(sv, k2) implies fixed_value(sv, k2) > u64::MAX by {
                lemma_point_unique(sv, k as int, k2);
            }
        }
        return None;
    }
    Some(total as u64)
}

fn is_digit_char(c: char) -> (r: bool)
    ensures
        r == is_digit(c),
{
    '0' <= c && c <= '9'
}

proof fn lemma_point_unique(s: Seq<char>, k: int, k2: int)
    requires
        1 <= k <= s.len(),
        all_digits(s.take(k)),
        k < s.len() ==> !is_digit(s[k]),
        point_at(s, k2),
    ensures
        k2 == k,
{
    if k2 < k {
        assert(s.take(k)[k2] == s[k2]);
    } else if k2 > k {
        assert(s.take(k2)[k] == s[k]);
    }
}

proof fn lemma_int_part_overflow(s: Seq<char>, i: int, k: int)
    requires
        0 <= i <= s.len(),
        all_digits(s.take(i)),
        digits_value(s.take(i)) > 1_000_000_000_000,
        point_at(s, k),
    ensures
        fixed_value(s, k) > u64::MAX,
{
    if k < i {
        assert(s.take(i)[k] == s[k]);
        assert(false);
    }
    lemma_digits_mono(s, i, k);
    lemma_digits_nonneg(frac_part(s, k));
    assert(pow10((FRAC_DIGITS - frac_part(s, k).len()) as nat) >= 1) by {
        lemma_pow10_pos((FRAC_DIGITS - frac_part(s, k).len()) as nat);
    }
    assert(digits_value(frac_part(s, k)) * pow10((FRAC_DIGITS - frac_part(s, k).len()) as nat) >= 0) by (nonlinear_arith)
        requires digits_value(frac_part(s, k)) >= 0, pow10((FRAC_DIGITS - frac_part(s, k).len()) as nat) >= 1 {
    }
}

proof fn lemma_pow10_add(a: nat, b: nat)
    ensures
        pow10(a + b) == pow10(a) * pow10(b),
    decreases a,
{
    if a > 0 {
        lemma_pow10_add((a - 1) as nat, b);
        assert(pow10(a + b) == 10 * pow10((a - 1 + b) as nat));
        assert(10 * (pow10((a - 1) as nat) * pow10(b)) == (10 * pow10((a - 1) as nat)) * pow10(b)) by (nonlinear_arith);
    }
}

proof fn lemma_pow10_small(n: nat)
    requires
        n <= 8,
    ensures
        pow10(n) <= 100_000_000,
        n < 8 ==> pow10(n) <= 10_000_000,
{
    reveal_with_fuel(pow10, 9);
    if n == 0 {
    } else if n == 1 {
    } else if n == 2 {
    } else if n == 3 {
    } else if n == 4 {
    } else if n == 5 {
    } else if n == 6 {
    } else if n == 7 {
    } else {
    }
}

proof fn lemma_pow10_pos(n: nat)
    ensures
        pow10(n) >= 1,
    decreases n,
{
    if n > 0 {
        lemma_pow10_pos((n - 1) as nat);
    }
}

} // verus!
