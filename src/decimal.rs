use vstd::prelude::*;

verus! {

pub open spec fn is_digit(b: u8) -> bool {
    48 <= b <= 57
}

pub open spec fn all_digits(s: Seq<u8>) -> bool {
    forall|i: int| 0 <= i < s.len() ==> is_digit(#[trigger] s[i])
}

/// The number that the decimal digits `s` write.
pub open spec fn digits_value(s: Seq<u8>) -> int
    decreases s.len(),
{
    if s.len() == 0 {
        0
    } else {
        10 * digits_value(s.drop_last()) + (s.last() - 48)
    }
}

/// Position of the first `.` in `s`, or its length when it has none.
pub open spec fn dot_position(s: Seq<u8>) -> int {
    if exists|i: int| 0 <= i < s.len() && s[i] == 46 {
        choose|i: int| 0 <= i < s.len() && s[i] == 46 && forall|j: int| 0 <= j < i ==> s[j] != 46
    } else {
        s.len() as int
    }
}

/// The fractional digits cut or padded with zeros to exactly `k` digits.
pub open spec fn fixed_fraction(frac: Seq<u8>, k: int) -> Seq<u8> {
    if frac.len() >= k {
        frac.take(k)
    } else {
        frac + Seq::new((k - frac.len()) as nat, |i: int| 48u8)
    }
}

/// `s` reads as `digits` or `digits.digits`.
pub open spec fn is_decimal(s: Seq<u8>) -> bool {
    let d = dot_position(s);
    &&& d > 0
    &&& all_digits(s.take(d))
    &&& d < s.len() ==> s.len() > d + 1 && all_digits(s.skip(d + 1))
}

/// The value of the decimal `s` in units of `10^-k`, digits past the `k`-th
/// after the point dropped.
pub open spec fn decimal_units(s: Seq<u8>, k: int) -> int {
    let d = dot_position(s);
    let frac = if d < s.len() { s.skip(d + 1) } else { Seq::empty() };
    digits_value(s.take(d) + fixed_fraction(frac, k))
}

proof fn lemma_dot_position(s: Seq<u8>, d: int)
    requires
        0 <= d <= s.len(),
        forall|j: int| 0 <= j < d ==> s[j] != 46,
        d < s.len() ==> s[d] == 46,
    ensures
        dot_position(s) == d,
{
    if d < s.len() {
        assert(exists|i: int| 0 <= i < s.len() && s[i] == 46);
        let c = choose|i: int| 0 <= i < s.len() && s[i] == 46 && forall|j: int| 0 <= j < i ==> s[j] != 46;
        assert(0 <= d < s.len() && s[d] == 46 && forall|j: int| 0 <= j < d ==> s[j] != 46);
        if c < d {
        } else if c > d {
        }
    }
}

proof fn lemma_digits_nonneg(a: Seq<u8>)
    requires
        all_digits(a),
    ensures
        digits_value(a) >= 0,
    decreases a.len(),
{
    if a.len() > 0 {
        assert(is_digit(a[a.len() - 1]));
        lemma_digits_nonneg(a.drop_last());
    }
}

proof fn lemma_digits_grow(a: Seq<u8>, j: int)
    requires
        all_digits(a),
        0 <= j <= a.len(),
    ensures
        digits_value(a.take(j)) <= digits_value(a),
    decreases a.len(),
{
    if j == a.len() {
        assert(a.take(j) =~= a);
    } else {
        let dl = a.drop_last();
        assert(dl.take(j) =~= a.take(j));
        lemma_digits_grow(dl, j);
        lemma_digits_nonneg(dl);
        assert(is_digit(a[a.len() - 1]));
    }
}

/// Reads a non-negative decimal in units of `10^-k`. `None` when `s` is not a
/// decimal or the value does not fit in a `u64`.
pub fn parse_units(s: &[u8], k: usize) -> (r: Option<u64>)
    ensures
        r is Some <==> is_decimal(s@) && decimal_units(s@, k as int) <= u64::MAX,
        r matches Some(v) ==> v == decimal_units(s@, k as int),
{
    let n = s.len();
    let mut d: usize = 0;
    while d < n && s[d] != 46
        invariant
            d <= n,
            n == s@.len(),
            forall|j: int| 0 <= j < d ==> s@[j] != 46,
        decreases n - d,
    {
        d = d + 1;
    }
    proof {
        lemma_dot_position(s@, d as int);
    }
    if d == 0 || (d < n && d + 1 == n) {
        return None;
    }
    let mut j: usize = 0;
    while j < n
        invariant
            n == s@.len(),
            d <= n,
            j <= n,
            forall|i: int| 0 <= i < j && i != d ==> is_digit(#[trigger] s@[i]),
            dot_position(s@) == d,
            d > 0,
            d < n ==> d + 1 < n,
        decreases n - j,
    {
        if j != d && (s[j] < 48 || s[j] > 57) {
            proof {
                if j < d {
                    assert(s@.take(d as int)[j as int] == s@[j as int]);
                    assert(!is_digit(s@.take(d as int)[j as int]));
                    assert(!all_digits(s@.take(d as int)));
                } else {
                    let t = s@.skip(d + 1);
                    assert(t[j - d - 1] == s@[j as int]);
                    assert(!is_digit(t[j - d - 1]));
                    assert(!all_digits(t));
                }
                assert(!is_decimal(s@));
            }
            return None;
        }
        j = j + 1;
    }
    let ghost frac = if d < n { s@.skip(d + 1) } else { Seq::<u8>::empty() };
    let ghost fixed = fixed_fraction(frac, k as int);
    let ghost all = s@.take(d as int) + fixed;
    proof {
        assert(all_digits(s@.take(d as int)));
        assert(all_digits(frac));
        assert forall|i: int| 0 <= i < fixed.len() implies is_digit(#[trigger] fixed[i]) by {
            if frac.len() < k {
                if i >= frac.len() {
                    assert(fixed[i] == 48u8);
                } else {
                    assert(fixed[i] == frac[i]);
                }
            } else {
                assert(fixed[i] == frac[i]);
            }
        }
        assert(all_digits(all));
        assert(is_decimal(s@));
    }
    let mut acc: u64 = 0;
    let mut i: usize = 0;
    while i < d
        invariant
            d <= n,
            n == s@.len(),
            i <= d,
            all == s@.take(d as int) + fixed,
            all_digits(all),
            acc == digits_value(all.take(i as int)),
            dot_position(s@) == d,
            is_decimal(s@),
            frac == if d < n { s@.skip(d + 1) } else { Seq::<u8>::empty() },
            fixed == fixed_fraction(frac, k as int),
        decreases d - i,
    {
        let b = s[i];
        proof {
            assert(all.take(i + 1).drop_last() =~= all.take(i as int));
            assert(all[i as int] == b);
        }
        let next = match acc.checked_mul(10) {
            Some(m) => m.checked_add((b - 48) as u64),
            None => None,
        };
        match next {
            Some(v) => {
                acc = v;
            },
            None => {
                proof {
                    assert(is_digit(all[i as int]));
                    assert(digits_value(all.take(i + 1)) == acc * 10 + (b - 48));
                    assert(acc * 10 + (b - 48) > u64::MAX);
                    lemma_digits_grow(all, i + 1);
                }
                return None;
            },
        }
        i = i + 1;
    }
    let mut f: usize = 0;
    while f < k
        invariant
            d <= n,
            n == s@.len(),
            f <= k,
            frac == if d < n { s@.skip(d + 1) } else { Seq::<u8>::empty() },
            fixed == fixed_fraction(frac, k as int),
            all == s@.take(d as int) + fixed,
            all.len() == d + k,
            all_digits(all),
            acc == digits_value(all.take(d + f)),
            dot_position(s@) == d,
            is_decimal(s@),
        decreases k - f,
    {
        let b: u8 = if d < n && f < n - d - 1 {
            s[d + 1 + f]
        } else {
            48
        };
        proof {
            assert(all.take(d + f + 1).drop_last() =~= all.take(d + f));
            assert(all[d + f] == fixed[f as int]);
            if frac.len() < k {
                if f < frac.len() {
                    assert(fixed[f as int] == frac[f as int]);
                } else {
                    assert(fixed[f as int] == 48u8);
                }
            } else {
                assert(fixed[f as int] == frac[f as int]);
            }
        }
        let next = match acc.checked_mul(10) {
            Some(m) => m.checked_add((b - 48) as u64),
            None => None,
        };
        match next {
            Some(v) => {
                acc = v;
            },
            None => {
                proof {
                    assert(is_digit(all[d + f]));
                    assert(digits_value(all.take(d + f + 1)) == acc * 10 + (b - 48));
                    assert(acc * 10 + (b - 48) > u64::MAX);
                    lemma_digits_grow(all, d + f + 1);
                }
                return None;
            },
        }
        f = f + 1;
    }
    proof {
        assert(all.take(d + k) =~= all);
    }
    Some(acc)
}

} // verus!
