//! Parsing of a page's vector-drawing description: the glyph-path definition
//! region and the ordered character-use instruction list.
//!
//! All text is handled as sequences of `char`; numeric transform components
//! are decoded into fixed-point integers (`SCALE_UNIT` units per native unit).
use vstd::prelude::*;

use crate::ChartError;
use crate::SCALE_UNIT;

verus! {

/// Whitespace characters stripped from the ends of an instruction's text.
pub open spec fn is_space(c: char) -> bool {
    c == ' ' || c == '\t' || c == '\n' || c == '\r' || c == '\u{b}' || c == '\u{c}'
}

/// Digit value of `c` in bases up to 16, or -1 when `c` is no such digit.
pub open spec fn digit_val(c: char) -> int {
    if '0' <= c && c <= '9' {
        c as int - '0' as int
    } else if 'a' <= c && c <= 'f' {
        10 + c as int - 'a' as int
    } else if 'A' <= c && c <= 'F' {
        10 + c as int - 'A' as int
    } else {
        -1
    }
}

/// Every character of `d` is a digit of base `base`.
pub open spec fn all_digits(d: Seq<char>, base: int) -> bool {
    forall|i: int| 0 <= i < d.len() ==> 0 <= #[trigger] digit_val(d[i]) < base
}

/// Value of the digit string `d` read in base `base`.
pub open spec fn digits_value(d: Seq<char>, base: int) -> int
    decreases d.len(),
{
    if d.len() == 0 {
        0
    } else {
        digits_value(d.drop_last(), base) * base + digit_val(d.last())
    }
}

/// `d` with its leading zero characters removed.
pub open spec fn strip_zeros(d: Seq<char>) -> Seq<char>
    decreases d.len(),
{
    if d.len() > 0 && d[0] == '0' {
        strip_zeros(d.subrange(1, d.len() as int))
    } else {
        d
    }
}

proof fn lemma_digits_value_nonneg(d: Seq<char>, base: int)
    requires
        all_digits(d, base),
        base >= 2,
    ensures
        digits_value(d, base) >= 0,
    decreases d.len(),
{
    if d.len() > 0 {
        assert(forall|i: int|
            0 <= i < d.drop_last().len() ==> #[trigger] digit_val(d.drop_last()[i]) == digit_val(
                d[i],
            ));
        lemma_digits_value_nonneg(d.drop_last(), base);
    }
}

/// A leading zero does not change a digit string's value.
proof fn lemma_strip_zeros_value(d: Seq<char>, base: int)
    requires
        base >= 2,
    ensures
        digits_value(strip_zeros(d), base) == digits_value(d, base),
        strip_zeros(d).len() <= d.len(),
        strip_zeros(d).len() > 0 ==> strip_zeros(d)[0] != '0',
        all_digits(d, base) ==> all_digits(strip_zeros(d), base),
    decreases d.len(),
{
    if d.len() > 0 && d[0] == '0' {
        let t = d.subrange(1, d.len() as int);
        lemma_strip_zeros_value(t, base);
        lemma_zero_prefix_value(t, base);
        assert(d =~= seq!['0'].add(t));
        assert(all_digits(d, base) ==> all_digits(t, base)) by {
            if all_digits(d, base) {
                assert(forall|i: int|
                    0 <= i < t.len() ==> #[trigger] digit_val(t[i]) == digit_val(d[i + 1]));
            }
        }
    }
}

/// Prepending '0' to a digit string does not change its value.
proof fn lemma_zero_prefix_value(t: Seq<char>, base: int)
    requires
        base >= 2,
    ensures
        digits_value(seq!['0'].add(t), base) == digits_value(t, base),
    decreases t.len(),
{
    let d = seq!['0'].add(t);
    if t.len() == 0 {
        assert(d =~= seq!['0']);
        assert(digits_value(seq!['0'], base) == digits_value(
            seq!['0'].drop_last(),
            base,
        ) * base + digit_val('0'));
        assert(seq!['0'].drop_last() =~= Seq::<char>::empty());
    } else {
        assert(d.drop_last() =~= seq!['0'].add(t.drop_last()));
        assert(d.last() == t.last());
        lemma_zero_prefix_value(t.drop_last(), base);
    }
}

/// A digit string starting with a nonzero digit has at least `base^(len-1)`
/// as its value.
proof fn lemma_digits_value_lower(d: Seq<char>, base: int)
    requires
        all_digits(d, base),
        base >= 2,
        d.len() > 0,
        d[0] != '0',
    ensures
        digits_value(d, base) >= pow_int(base, d.len() - 1),
    decreases d.len(),
{
    if d.len() == 1 {
        assert(digits_value(d, base) == digits_value(d.drop_last(), base) * base + digit_val(
            d.last(),
        ));
        assert(digits_value(d.drop_last(), base) == 0) by {
            assert(d.drop_last() =~= Seq::<char>::empty());
        }
        assert(0 <= digit_val(d[0]) < base);
        assert(digit_val(d[0]) != 0);
        assert(pow_int(base, 0) == 1);
    } else {
        let t = d.drop_last();
        assert(forall|i: int|
            0 <= i < t.len() ==> #[trigger] digit_val(t[i]) == digit_val(d[i]));
        lemma_digits_value_lower(t, base);
        assert(digit_val(d.last()) >= 0);
        assert(pow_int(base, d.len() - 2) >= 1) by {
            lemma_pow_int_pos(base, d.len() - 2);
        }
        assert(digits_value(t, base) * base >= pow_int(base, d.len() - 2) * base) by (
        nonlinear_arith)
            requires
                digits_value(t, base) >= pow_int(base, d.len() - 2),
                pow_int(base, d.len() - 2) >= 1,
                base >= 2,
        ;
        assert(pow_int(base, d.len() - 1) == base * pow_int(base, d.len() - 2));
        assert(digits_value(d, base) == digits_value(t, base) * base + digit_val(d.last()));
    }
}

proof fn lemma_pow_int_pos(b: int, e: int)
    requires
        b >= 1,
    ensures
        pow_int(b, e) >= 1,
    decreases e,
{
    if e > 0 {
        lemma_pow_int_pos(b, e - 1);
        assert(b * pow_int(b, e - 1) >= pow_int(b, e - 1)) by (nonlinear_arith)
            requires
                b >= 1,
                pow_int(b, e - 1) >= 1,
        ;
    }
}

pub open spec fn pow_int(b: int, e: int) -> int
    decreases e,
{
    if e <= 0 {
        1
    } else {
        b * pow_int(b, e - 1)
    }
}

proof fn lemma_digits_value_upper(d: Seq<char>, base: int)
    requires
        all_digits(d, base),
        base >= 2,
    ensures
        digits_value(d, base) < pow_int(base, d.len() as int),
    decreases d.len(),
{
    if d.len() == 0 {
    } else {
        let t = d.drop_last();
        assert(forall|i: int|
            0 <= i < t.len() ==> #[trigger] digit_val(t[i]) == digit_val(d[i]));
        lemma_digits_value_upper(t, base);
        lemma_digits_value_nonneg(t, base);
        assert(digits_value(t, base) * base <= (pow_int(base, d.len() - 1) - 1) * base) by (
        nonlinear_arith)
            requires
                digits_value(t, base) <= pow_int(base, d.len() - 1) - 1,
                base >= 2,
        ;
        assert((pow_int(base, d.len() - 1) - 1) * base == pow_int(base, d.len() as int) - base)
            by (nonlinear_arith)
            requires
                pow_int(base, d.len() as int) == base * pow_int(base, d.len() - 1),
        ;
    }
}

/// `v` is a Unicode scalar value.
pub open spec fn is_scalar_value(v: int) -> bool {
    (0 <= v < 0xD800) || (0xE000 <= v <= 0x10FFFF)
}

/// A nonempty run of hexadecimal digits denoting a Unicode scalar value.
pub open spec fn hex_codepoint_valid(d: Seq<char>) -> bool {
    d.len() >= 1 && all_digits(d, 16) && is_scalar_value(digits_value(d, 16))
}

fn digit_of(c: char) -> (r: i8)
    ensures
        r as int == digit_val(c),
{
    if '0' <= c && c <= '9' {
        ((c as u32) - ('0' as u32)) as i8
    } else if 'a' <= c && c <= 'f' {
        (10 + (c as u32) - ('a' as u32)) as i8
    } else if 'A' <= c && c <= 'F' {
        (10 + (c as u32) - ('A' as u32)) as i8
    } else {
        -1
    }
}

/// Decodes the hexadecimal digits of `d` between `from` and `to` as a Unicode
/// scalar value.
pub fn parse_hex_codepoint(d: &Vec<char>, from: usize, to: usize) -> (r: Option<u32>)
    requires
        from <= to <= d@.len(),
    ensures
        ({
            let s = d@.subrange(from as int, to as int);
            match r {
                Some(v) => hex_codepoint_valid(s) && v as int == digits_value(s, 16),
                None => !hex_codepoint_valid(s),
            }
        }),
{
    let ghost s = d@.subrange(from as int, to as int);
    if from == to {
        proof {
            assert(s.len() == 0);
        }
        return None;
    }
    // Skip leading zeros.
    let mut i: usize = from;
    while i < to && d[i] == '0'
        invariant
            from <= i <= to <= d@.len(),
            s == d@.subrange(from as int, to as int),
            strip_zeros(s) == strip_zeros(d@.subrange(i as int, to as int)),
            forall|k: int| from <= k < i ==> d@[k] == '0',
        decreases to - i,
    {
        proof {
            let cur = d@.subrange(i as int, to as int);
            assert(cur[0] == '0');
            assert(cur.subrange(1, cur.len() as int) =~= d@.subrange(i as int + 1, to as int));
        }
        i += 1;
    }
    proof {
        let rem = d@.subrange(i as int, to as int);
        if rem.len() > 0 {
            assert(rem[0] == d@[i as int]);
        }
        assert(strip_zeros(rem) == rem);
    }
    // More than six significant digits cannot denote a scalar value.
    if to - i > 6 {
        proof {
            let rem = d@.subrange(i as int, to as int);
            lemma_strip_zeros_value(s, 16);
            if all_digits(s, 16) {
                assert(forall|k: int|
                    0 <= k < rem.len() ==> #[trigger] digit_val(rem[k]) == digit_val(
                        s[k + i - from],
                    ));
                assert(all_digits(rem, 16));
                assert(rem[0] == d@[i as int]);
                assert(rem[0] != '0');
                lemma_digits_value_lower(rem, 16);
                assert(pow_int(16, rem.len() - 1) >= pow_int(16, 6)) by {
                    lemma_pow_int_mono(16, 6, rem.len() - 1);
                }
                assert(pow_int(16, 6) == 0x1000000) by {
                    reveal_with_fuel(pow_int, 8);
                }
                assert(strip_zeros(rem) == rem);
                assert(digits_value(s, 16) == digits_value(rem, 16));
                assert(!is_scalar_value(digits_value(s, 16)));
            }
        }
        return None;
    }
    // Accumulate the value; it fits easily in 24 bits.
    let mut v: u32 = 0;
    let mut j: usize = i;
    let mut bad: bool = false;
    while j < to
        invariant
            i <= j <= to <= d@.len(),
            to - i <= 6,
            !bad ==> all_digits(d@.subrange(i as int, j as int), 16) && v as int == digits_value(
                d@.subrange(i as int, j as int),
                16,
            ) && v < 0x1000000,
            bad ==> exists|k: int| i <= k < j && digit_val(d@[k]) < 0,
        decreases to - j,
    {
        let dv = digit_of(d[j]);
        if dv < 0 {
            bad = true;
            proof {
                assert(digit_val(d@[j as int]) < 0);
            }
        } else if !bad {
            proof {
                let p = d@.subrange(i as int, j as int);
                let q = d@.subrange(i as int, j as int + 1);
                assert(q.drop_last() =~= p);
                assert(q.last() == d@[j as int]);
                lemma_digits_value_upper(q, 16);
                assert(q.len() <= 6);
                assert(pow_int(16, q.len() as int) <= pow_int(16, 6)) by {
                    lemma_pow_int_mono(16, q.len() as int, 6);
                }
                assert(pow_int(16, 6) == 0x1000000) by {
                    reveal_with_fuel(pow_int, 8);
                }
            }
            v = v * 16 + (dv as u32);
        }
        j += 1;
    }
    if bad {
        proof {
            let k = choose|k: int| i <= k < to && digit_val(d@[k]) < 0;
            assert(s[k - from] == d@[k]);
            assert(!all_digits(s, 16));
        }
        return None;
    }
    proof {
        let rem = d@.subrange(i as int, to as int);
        lemma_strip_zeros_value(s, 16);
        assert(strip_zeros(rem) == rem) by {
            if rem.len() > 0 {
                assert(rem[0] == d@[i as int]);
            }
        }
        assert(v as int == digits_value(s, 16));
        assert forall|k: int| 0 <= k < s.len() implies 0 <= #[trigger] digit_val(s[k]) < 16 by {
            if k < i - from {
                assert(s[k] == d@[k + from]);
                assert(d@[k + from] == '0');
            } else {
                assert(s[k] == rem[k - (i - from)]);
                assert(0 <= digit_val(rem[k - (i - from)]) < 16);
            }
        }
        assert(all_digits(s, 16));
    }
    if v < 0xD800 || (0xE000 <= v && v <= 0x10FFFF) {
        Some(v)
    } else {
        None
    }
}

proof fn lemma_pow_int_mono(b: int, e1: int, e2: int)
    requires
        b >= 1,
        e1 <= e2,
    ensures
        pow_int(b, e1) <= pow_int(b, e2),
    decreases e2 - e1,
{
    if e1 < e2 {
        lemma_pow_int_mono(b, e1, e2 - 1);
        lemma_pow_int_pos(b, e2 - 1);
        assert(b * pow_int(b, e2 - 1) >= pow_int(b, e2 - 1)) by (nonlinear_arith)
            requires
                b >= 1,
                pow_int(b, e2 - 1) >= 1,
        ;
    }
}

/// Position of the first '.' among the first `k` characters of `b`.
pub open spec fn first_dot(b: Seq<char>, k: int) -> Option<int>
    decreases k,
{
    if k <= 0 {
        None
    } else {
        match first_dot(b, k - 1) {
            Some(p) => Some(p),
            None => if b[k - 1] == '.' {
                Some(k - 1)
            } else {
                None
            },
        }
    }
}

proof fn lemma_first_dot_found(b: Seq<char>, jd: int, k: int)
    requires
        first_dot(b, jd) is None,
        0 <= jd,
        b[jd] == '.',
        jd < k <= b.len(),
    ensures
        first_dot(b, k) == Some(jd),
    decreases k,
{
    if k > jd + 1 {
        lemma_first_dot_found(b, jd, k - 1);
    }
}

pub open spec fn dec_neg(f: Seq<char>) -> bool {
    f.len() > 0 && f[0] == '-'
}

pub open spec fn dec_body(f: Seq<char>) -> Seq<char> {
    if dec_neg(f) {
        f.subrange(1, f.len() as int)
    } else {
        f
    }
}

pub open spec fn dec_int_part(b: Seq<char>) -> Seq<char> {
    match first_dot(b, b.len() as int) {
        None => b,
        Some(p) => b.take(p),
    }
}

pub open spec fn dec_frac_part(b: Seq<char>) -> Seq<char> {
    match first_dot(b, b.len() as int) {
        None => Seq::empty(),
        Some(p) => b.subrange(p + 1, b.len() as int),
    }
}

/// An optionally negated decimal numeral, with an optional fractional part,
/// whose significant integer digits fit the fixed-point model.
pub open spec fn dec_valid(f: Seq<char>) -> bool {
    let b = dec_body(f);
    dec_int_part(b).len() >= 1 && all_digits(dec_int_part(b), 10) && all_digits(
        dec_frac_part(b),
        10,
    ) && strip_zeros(dec_int_part(b)).len() <= 14
}

/// The fractional digits scaled to four decimal places; digits beyond the
/// fourth are truncated.
pub open spec fn frac4_value(fp: Seq<char>) -> int {
    if fp.len() >= 4 {
        digits_value(fp.take(4), 10)
    } else {
        digits_value(fp, 10) * pow_int(10, 4 - fp.len())
    }
}

/// Value of the numeral `f` in fixed-point units.
pub open spec fn dec_fixed_value(f: Seq<char>) -> int {
    let b = dec_body(f);
    let m = digits_value(dec_int_part(b), 10) * (SCALE_UNIT as int) + frac4_value(
        dec_frac_part(b),
    );
    if dec_neg(f) {
        -m
    } else {
        m
    }
}

fn parse_int_digits(v: &Vec<char>) -> (r: Option<i64>)
    ensures
        match r {
            Some(x) => v@.len() >= 1 && all_digits(v@, 10) && strip_zeros(v@).len() <= 14 && x
                as int == digits_value(v@, 10) && 0 <= x < 100_000_000_000_000,
            None => !(v@.len() >= 1 && all_digits(v@, 10) && strip_zeros(v@).len() <= 14),
        },
{
    let n = v.len();
    if n == 0 {
        return None;
    }
    proof {
        assert(v@.subrange(0, n as int) =~= v@);
    }
    let mut i: usize = 0;
    while i < n && v[i] == '0'
        invariant
            i <= n == v@.len(),
            strip_zeros(v@) == strip_zeros(v@.subrange(i as int, n as int)),
            forall|k: int| 0 <= k < i ==> v@[k] == '0',
        decreases n - i,
    {
        proof {
            let cur = v@.subrange(i as int, n as int);
            assert(cur[0] == '0');
            assert(cur.subrange(1, cur.len() as int) =~= v@.subrange(i as int + 1, n as int));
        }
        i += 1;
    }
    proof {
        let rem = v@.subrange(i as int, n as int);
        if rem.len() > 0 {
            assert(rem[0] == v@[i as int]);
        }
        assert(strip_zeros(rem) == rem);
    }
    if n - i > 14 {
        proof {
            let rem = v@.subrange(i as int, n as int);
            lemma_strip_zeros_value(v@, 10);
        }
        return None;
    }
    let mut x: i64 = 0;
    let mut j: usize = i;
    let mut bad: bool = false;
    while j < n
        invariant
            i <= j <= n == v@.len(),
            n - i <= 14,
            !bad ==> all_digits(v@.subrange(i as int, j as int), 10) && x as int == digits_value(
                v@.subrange(i as int, j as int),
                10,
            ) && 0 <= x < 100_000_000_000_000,
            bad ==> exists|k: int| i <= k < j && !(0 <= #[trigger] digit_val(v@[k]) < 10),
        decreases n - j,
    {
        let dv = digit_of(v[j]);
        if dv < 0 || dv > 9 {
            bad = true;
            proof {
                assert(!(0 <= digit_val(v@[j as int]) < 10));
            }
        } else if !bad {
            proof {
                let p = v@.subrange(i as int, j as int);
                let q = v@.subrange(i as int, j as int + 1);
                assert(q.drop_last() =~= p);
                assert(q.last() == v@[j as int]);
                assert(forall|k: int| 0 <= k < p.len() ==> #[trigger] q[k] == p[k]);
                assert(all_digits(q, 10));
                lemma_digits_value_upper(q, 10);
                assert(pow_int(10, q.len() as int) <= pow_int(10, 14)) by {
                    lemma_pow_int_mono(10, q.len() as int, 14);
                }
                assert(pow_int(10, 14) == 100_000_000_000_000) by {
                    reveal_with_fuel(pow_int, 16);
                }
            }
            x = x * 10 + (dv as i64);
        }
        j += 1;
    }
    if bad {
        proof {
            let k = choose|k: int| i <= k < n && !(0 <= #[trigger] digit_val(v@[k]) < 10);
            assert(!all_digits(v@, 10));
        }
        return None;
    }
    proof {
        let rem = v@.subrange(i as int, n as int);
        lemma_strip_zeros_value(v@, 10);
        assert(strip_zeros(rem) == rem) by {
            if rem.len() > 0 {
                assert(rem[0] == v@[i as int]);
            }
        }
        assert(x as int == digits_value(v@, 10));
        assert forall|k: int| 0 <= k < v@.len() implies 0 <= #[trigger] digit_val(v@[k]) < 10 by {
            if k < i {
                assert(v@[k] == '0');
            } else {
                assert(v@[k] == rem[k - i]);
                assert(0 <= digit_val(rem[k - i]) < 10);
            }
        }
        assert(all_digits(v@, 10));
    }
    Some(x)
}

fn parse_frac_digits(v: &Vec<char>) -> (r: Option<i64>)
    ensures
        match r {
            Some(x) => all_digits(v@, 10) && x as int == frac4_value(v@) && 0 <= x <= 9999,
            None => !all_digits(v@, 10),
        },
{
    let n = v.len();
    // Check every fractional digit, not only the four that are kept.
    let mut j: usize = 0;
    while j < n
        invariant
            j <= n == v@.len(),
            forall|k: int| 0 <= k < j ==> 0 <= #[trigger] digit_val(v@[k]) < 10,
        decreases n - j,
    {
        let dv = digit_of(v[j]);
        if dv < 0 || dv > 9 {
            proof {
                assert(!(0 <= digit_val(v@[j as int]) < 10));
            }
            return None;
        }
        j += 1;
    }
    let keep: usize = if n >= 4 {
        4
    } else {
        n
    };
    let mut x: i64 = 0;
    let mut i: usize = 0;
    while i < keep
        invariant
            i <= keep <= n == v@.len(),
            keep <= 4,
            forall|k: int| 0 <= k < n ==> 0 <= #[trigger] digit_val(v@[k]) < 10,
            x as int == digits_value(v@.take(i as int), 10),
            0 <= x <= 9999,
        decreases keep - i,
    {
        proof {
            let p = v@.take(i as int);
            let q = v@.take(i as int + 1);
            assert(q.drop_last() =~= p);
            assert(q.last() == v@[i as int]);
            assert(forall|k: int|
                0 <= k < q.len() ==> #[trigger] digit_val(q[k]) == digit_val(v@[k]));
            lemma_digits_value_upper(q, 10);
            assert(pow_int(10, q.len() as int) <= pow_int(10, 4)) by {
                lemma_pow_int_mono(10, q.len() as int, 4);
            }
            assert(pow_int(10, 4) == 10000) by {
                reveal_with_fuel(pow_int, 6);
            }
        }
        x = x * 10 + (digit_of(v[i]) as i64);
        i += 1;
    }
    if n >= 4 {
        proof {
            assert(all_digits(v@, 10));
        }
        Some(x)
    } else {
        proof {
            assert(v@.take(n as int) =~= v@);
            assert(all_digits(v@, 10));
            lemma_digits_value_upper(v@, 10);
            lemma_digits_value_nonneg(v@, 10);
            reveal_with_fuel(pow_int, 6);
        }
        let res: i64 = if n == 0 {
            0
        } else if n == 1 {
            x * 1000
        } else if n == 2 {
            x * 100
        } else {
            x * 10
        };
        Some(res)
    }
}

/// Decodes the characters of `d` between `from` and `to` as an optionally
/// signed decimal numeral, in fixed-point units.
pub fn parse_fixed(d: &Vec<char>, from: usize, to: usize) -> (r: Option<i64>)
    requires
        from <= to <= d@.len(),
    ensures
        ({
            let s = d@.subrange(from as int, to as int);
            match r {
                Some(v) => dec_valid(s) && v as int == dec_fixed_value(s),
                None => !dec_valid(s),
            }
        }),
{
    let ghost s = d@.subrange(from as int, to as int);
    if from == to {
        proof {
            assert(s.len() == 0);
            assert(dec_body(s) == s);
        }
        return None;
    }
    let neg: bool = d[from] == '-';
    let i0: usize = if neg {
        from + 1
    } else {
        from
    };
    let bv = sub_chars(d, i0, to);
    proof {
        assert(s[0] == d@[from as int]);
        if neg {
            assert(dec_neg(s));
            assert(dec_body(s) =~= bv@);
        } else {
            assert(!dec_neg(s));
            assert(dec_body(s) =~= bv@);
        }
    }
    let n = bv.len();
    let mut j: usize = 0;
    while j < n && bv[j] != '.'
        invariant
            j <= n == bv@.len(),
            first_dot(bv@, j as int) is None,
        decreases n - j,
    {
        j += 1;
    }
    let ip: Vec<char>;
    let fp: Vec<char>;
    if j < n {
        proof {
            lemma_first_dot_found(bv@, j as int, n as int);
        }
        ip = sub_chars(&bv, 0, j);
        fp = sub_chars(&bv, j + 1, n);
        proof {
            assert(ip@ =~= dec_int_part(bv@));
            assert(fp@ =~= dec_frac_part(bv@));
        }
    } else {
        ip = sub_chars(&bv, 0, n);
        fp = Vec::new();
        proof {
            assert(ip@ =~= dec_int_part(bv@));
            assert(fp@ =~= dec_frac_part(bv@));
        }
    }
    let xi = match parse_int_digits(&ip) {
        Some(xi) => xi,
        None => {
            return None;
        },
    };
    let xf = match parse_frac_digits(&fp) {
        Some(xf) => xf,
        None => {
            return None;
        },
    };
    let m: i64 = xi * 10000 + xf;
    if neg {
        Some(-m)
    } else {
        Some(m)
    }
}

/// The pattern `pat` occurs in `s` at position `i`.
pub open spec fn match_at(s: Seq<char>, pat: Seq<char>, i: int) -> bool {
    0 <= i && i + pat.len() <= s.len() && s.subrange(i, i + pat.len() as int) == pat
}

/// First position at or after `from` where `pat` occurs in `s`.
pub open spec fn find_from(s: Seq<char>, pat: Seq<char>, from: int) -> Option<int>
    decreases s.len() - from,
{
    if from + pat.len() > s.len() || from < 0 {
        None
    } else if pat.len() == 0 {
        Some(from)
    } else if match_at(s, pat, from) {
        Some(from)
    } else {
        find_from(s, pat, from + 1)
    }
}

pub proof fn lemma_find_from_bounds(s: Seq<char>, pat: Seq<char>, from: int)
    ensures
        find_from(s, pat, from) matches Some(i) ==> from <= i && i + pat.len() <= s.len()
            && match_at(s, pat, i),
    decreases s.len() - from,
{
    if from + pat.len() > s.len() || from < 0 {
    } else if pat.len() == 0 {
        assert(s.subrange(from, from + pat.len() as int) =~= pat);
    } else if match_at(s, pat, from) {
    } else {
        lemma_find_from_bounds(s, pat, from + 1);
    }
}

/// The characters of `s`, collected into a vector.
pub fn str_chars(s: &str) -> (r: Vec<char>)
    ensures
        r@ == s@,
{
    let n = s.unicode_len();
    let mut r: Vec<char> = Vec::new();
    let mut i: usize = 0;
    while i < n
        invariant
            n == s@.len(),
            i <= n,
            r@ == s@.take(i as int),
        decreases n - i,
    {
        r.push(s.get_char(i));
        proof {
            assert(r@ =~= s@.take(i + 1));
        }
        i += 1;
    }
    proof {
        assert(s@.take(n as int) =~= s@);
    }
    r
}

/// Copy of the characters of `d` between `from` and `to`.
pub fn sub_chars(d: &Vec<char>, from: usize, to: usize) -> (r: Vec<char>)
    requires
        from <= to <= d@.len(),
    ensures
        r@ == d@.subrange(from as int, to as int),
{
    let mut r: Vec<char> = Vec::new();
    let mut i: usize = from;
    while i < to
        invariant
            from <= i <= to <= d@.len(),
            r@ == d@.subrange(from as int, i as int),
        decreases to - i,
    {
        r.push(d[i]);
        proof {
            assert(r@ =~= d@.subrange(from as int, i + 1));
        }
        i += 1;
    }
    r
}

/// First position at or after `from` where `pat` occurs in `d`.
fn find_sub(d: &Vec<char>, pat: &Vec<char>, from: usize) -> (r: Option<usize>)
    ensures
        match r {
            Some(i) => find_from(d@, pat@, from as int) == Some(i as int),
            None => find_from(d@, pat@, from as int) is None,
        },
{
    let n = d.len();
    let m = pat.len();
    let mut i: usize = from;
    loop
        invariant
            from <= i,
            n == d@.len(),
            m == pat@.len(),
            find_from(d@, pat@, from as int) == find_from(d@, pat@, i as int),
        decreases n + 1 - i,
    {
        if m > n || i > n - m {
            return None;
        }
        let mut j: usize = 0;
        let mut ok: bool = true;
        while j < m && ok
            invariant
                i + m <= n,
                n == d@.len(),
                m == pat@.len(),
                j <= m,
                ok ==> d@.subrange(i as int, i as int + j as int) == pat@.take(j as int),
                !ok ==> exists|k: int| 0 <= k < m && d@[i as int + k] != pat@[k],
            decreases m - j,
        {
            if d[i + j] != pat[j] {
                ok = false;
                proof {
                    assert(d@[i as int + j as int] != pat@[j as int]);
                }
            } else {
                proof {
                    assert(d@.subrange(i as int, i as int + j as int).push(
                        d@[i as int + j as int],
                    ) =~= d@.subrange(i as int, i as int + j as int + 1));
                    assert(pat@.take(j as int).push(pat@[j as int]) =~= pat@.take(j as int + 1));
                }
            }
            j += 1;
        }
        if ok {
            proof {
                assert(d@.subrange(i as int, i as int + m as int) =~= pat@.take(m as int));
                assert(pat@.take(m as int) =~= pat@);
                assert(match_at(d@, pat@, i as int));
            }
            return Some(i);
        }
        proof {
            let k = choose|k: int| 0 <= k < m && d@[i as int + k] != pat@[k];
            assert(!match_at(d@, pat@, i as int)) by {
                if match_at(d@, pat@, i as int) {
                    assert(d@.subrange(i as int, i as int + m as int)[k] == d@[i as int + k]);
                }
            }
        }
        i += 1;
    }
}

pub open spec fn trim_start_idx(t: Seq<char>, i: int) -> int
    decreases t.len() - i,
{
    if i < 0 || i >= t.len() {
        i
    } else if is_space(t[i]) {
        trim_start_idx(t, i + 1)
    } else {
        i
    }
}

pub open spec fn trim_end_idx(t: Seq<char>, j: int) -> int
    decreases j,
{
    if j <= 0 || j > t.len() {
        j
    } else if is_space(t[j - 1]) {
        trim_end_idx(t, j - 1)
    } else {
        j
    }
}

/// `t` with leading and trailing whitespace removed.
pub open spec fn trimmed(t: Seq<char>) -> Seq<char> {
    let a = trim_start_idx(t, 0);
    let b = trim_end_idx(t, t.len() as int);
    if a <= b {
        t.subrange(a, b)
    } else {
        Seq::empty()
    }
}

/// Copy of `v` with leading and trailing whitespace removed.
fn trim_vec(v: &Vec<char>) -> (r: Vec<char>)
    ensures
        r@ == trimmed(v@),
{
    let n = v.len();
    let mut a: usize = 0;
    while a < n && (v[a] == ' ' || v[a] == '\t' || v[a] == '\n' || v[a] == '\r' || v[a] == '\u{b}'
        || v[a] == '\u{c}')
        invariant
            a <= n == v@.len(),
            trim_start_idx(v@, 0) == trim_start_idx(v@, a as int),
        decreases n - a,
    {
        a += 1;
    }
    proof {
        assert(trim_start_idx(v@, a as int) == a as int);
    }
    if a == n {
        proof {
            assert(trim_end_idx(v@, n as int) <= n as int) by {
                lemma_trim_end_le(v@, n as int);
            }
            if trim_start_idx(v@, 0) <= trim_end_idx(v@, v@.len() as int) {
                assert(v@.subrange(a as int, trim_end_idx(v@, v@.len() as int)) =~= Seq::<
                    char,
                >::empty());
            }
        }
        return Vec::new();
    }
    let mut b: usize = n;
    while b > a + 1 && (v[b - 1] == ' ' || v[b - 1] == '\t' || v[b - 1] == '\n' || v[b - 1] == '\r'
        || v[b - 1] == '\u{b}' || v[b - 1] == '\u{c}')
        invariant
            a < b <= n == v@.len(),
            trim_end_idx(v@, n as int) == trim_end_idx(v@, b as int),
        decreases b,
    {
        b -= 1;
    }
    proof {
        if b > a + 1 {
            assert(trim_end_idx(v@, b as int) == b as int);
        } else {
            assert(b == a + 1);
            assert(!is_space(v@[a as int]));
            assert(trim_end_idx(v@, b as int) == b as int);
        }
    }
    sub_chars(v, a, b)
}

proof fn lemma_trim_end_le(t: Seq<char>, j: int)
    requires
        j <= t.len(),
    ensures
        trim_end_idx(t, j) <= j,
    decreases j,
{
    if 0 < j <= t.len() && is_space(t[j - 1]) {
        lemma_trim_end_le(t, j - 1);
    }
}

/// One positioned character-use instruction: its (decoded) text, the glyph
/// it references, and the six components of its affine transform, in
/// fixed-point units.
pub struct Instruction {
    pub text: Vec<char>,
    pub glyph_ref: Vec<char>,
    pub mat: [i64; 6],
}

/// Mathematical model of an [`Instruction`].
pub ghost struct InstrModel {
    pub text: Seq<char>,
    pub glyph_ref: Seq<char>,
    pub mat: Seq<int>,
}

impl InstrModel {
    /// Horizontal scale: the band discriminant.
    pub open spec fn scale(self) -> int {
        self.mat[0]
    }

    /// Absolute horizontal position.
    pub open spec fn x(self) -> int {
        self.mat[4]
    }

    /// Absolute vertical position.
    pub open spec fn y(self) -> int {
        self.mat[5]
    }
}

impl View for Instruction {
    type V = InstrModel;

    open spec fn view(&self) -> InstrModel {
        InstrModel {
            text: self.text@,
            glyph_ref: self.glyph_ref@,
            mat: self.mat@.map_values(|c: i64| c as int),
        }
    }
}

/// Views of a sequence of instructions.
pub open spec fn instr_views(v: Seq<Instruction>) -> Seq<InstrModel> {
    v.map_values(|i: Instruction| i@)
}

/// Views of a sequence of glyph-dictionary entries.
pub open spec fn entry_views(v: Seq<(Vec<char>, Vec<char>)>) -> Seq<(Seq<char>, Seq<char>)> {
    v.map_values(|e: (Vec<char>, Vec<char>)| (e.0@, e.1@))
}

/// Bounds of the glyph-definitions region, when its markers are present.
pub open spec fn defs_region(s: Seq<char>) -> Option<(int, int)> {
    match find_from(s, "<defs>"@, 0) {
        None => None,
        Some(i) => match find_from(s, "</defs>"@, i + "<defs>"@.len()) {
            None => None,
            Some(j) => Some((i, j + "</defs>"@.len())),
        },
    }
}

/// Glyph-path entries scanned in order from position `pos` of the
/// definitions region: each is an id and a path description.
pub open spec fn path_entries_from(d: Seq<char>, pos: int) -> Seq<(Seq<char>, Seq<char>)>
    decreases d.len() - pos,
{
    match find_from(d, "<path"@, pos) {
        None => Seq::empty(),
        Some(p) => match find_from(d, "id=\""@, p + "<path"@.len()) {
            None => Seq::empty(),
            Some(q) => match find_from(d, "\""@, q + "id=\""@.len()) {
                None => Seq::empty(),
                Some(q2) => match find_from(d, "d=\""@, q2 + 1) {
                    None => Seq::empty(),
                    Some(w) => match find_from(d, "\""@, w + "d=\""@.len()) {
                        None => Seq::empty(),
                        Some(w2) => match find_from(d, "/>"@, w2 + 1) {
                            None => Seq::empty(),
                            Some(e) => {
                                proof {
                                    lemma_path_entry_bounds(d, pos);
                                }
                                seq![
                                    (
                                        d.subrange(q + "id=\""@.len(), q2),
                                        d.subrange(w + "d=\""@.len(), w2),
                                    ),
                                ] + path_entries_from(d, e + "/>"@.len())
                            },
                        },
                    },
                },
            },
        },
    }
}

/// After a complete glyph-path entry starting at or after `pos`, the scan
/// position strictly advances.
pub proof fn lemma_path_entry_bounds(d: Seq<char>, pos: int)
    ensures
        ({
            match find_from(d, "<path"@, pos) {
                None => true,
                Some(p) => match find_from(d, "id=\""@, p + "<path"@.len()) {
                    None => true,
                    Some(q) => match find_from(d, "\""@, q + "id=\""@.len()) {
                        None => true,
                        Some(q2) => match find_from(d, "d=\""@, q2 + 1) {
                            None => true,
                            Some(w) => match find_from(d, "\""@, w + "d=\""@.len()) {
                                None => true,
                                Some(w2) => match find_from(d, "/>"@, w2 + 1) {
                                    None => true,
                                    Some(e) => pos < e + "/>"@.len() <= d.len() && pos <= p && p
                                        + "<path"@.len() <= q && q + "id=\""@.len() <= q2 && q2 + 1
                                        <= w && w + "d=\""@.len() <= w2 && w2 + 1 <= e,
                                },
                            },
                        },
                    },
                },
            }
        }),
{
    reveal_strlit("<path");
    reveal_strlit("id=\"");
    reveal_strlit("\"");
    reveal_strlit("d=\"");
    reveal_strlit("/>");
    lemma_find_from_bounds(d, "<path"@, pos);
    if let Some(p) = find_from(d, "<path"@, pos) {
        lemma_find_from_bounds(d, "id=\""@, p + "<path"@.len());
        if let Some(q) = find_from(d, "id=\""@, p + "<path"@.len()) {
            lemma_find_from_bounds(d, "\""@, q + "id=\""@.len());
            if let Some(q2) = find_from(d, "\""@, q + "id=\""@.len()) {
                lemma_find_from_bounds(d, "d=\""@, q2 + 1);
                if let Some(w) = find_from(d, "d=\""@, q2 + 1) {
                    lemma_find_from_bounds(d, "\""@, w + "d=\""@.len());
                    if let Some(w2) = find_from(d, "\""@, w + "d=\""@.len()) {
                        lemma_find_from_bounds(d, "/>"@, w2 + 1);
                    }
                }
            }
        }
    }
}

/// Extracts the glyph-path dictionary entries from a page description.
/// Later entries with the same id take precedence over earlier ones.
pub fn parse_font_drawn(data: &Vec<char>) -> (r: Result<
    Vec<(Vec<char>, Vec<char>)>,
    ChartError,
>)
    ensures
        match r {
            Ok(entries) => defs_region(data@) matches Some((a, b)) && entry_views(entries@)
                == path_entries_from(data@.subrange(a, b), 0),
            Err(e) => e == ChartError::MalformedDescription && defs_region(data@) is None,
        },
{
    let dn = data.len();
    let open_pat = str_chars("<defs>");
    let close_pat = str_chars("</defs>");
    let i = match find_sub(data, &open_pat, 0) {
        Some(i) => i,
        None => {
            return Err(ChartError::MalformedDescription);
        },
    };
    proof {
        lemma_find_from_bounds(data@, "<defs>"@, 0);
        assert(i as int + "<defs>"@.len() <= data@.len());
        assert(open_pat@.len() == "<defs>"@.len());
    }
    let j = match find_sub(data, &close_pat, i + open_pat.len()) {
        Some(j) => j,
        None => {
            return Err(ChartError::MalformedDescription);
        },
    };
    proof {
        lemma_find_from_bounds(data@, "</defs>"@, i as int + "<defs>"@.len());
    }
    let region = sub_chars(data, i, j + close_pat.len());
    let rn = region.len();
    let ghost dreg = data@.subrange(i as int, j + "</defs>"@.len());
    let path_pat = str_chars("<path");
    let id_pat = str_chars("id=\"");
    let quote_pat = str_chars("\"");
    let d_pat = str_chars("d=\"");
    let end_pat = str_chars("/>");
    let mut res: Vec<(Vec<char>, Vec<char>)> = Vec::new();
    let mut pos: usize = 0;
    loop
        invariant
            region@ == dreg,
            rn == region@.len(),
            pos <= region@.len(),
            path_pat@ == "<path"@,
            id_pat@ == "id=\""@,
            quote_pat@ == "\""@,
            d_pat@ == "d=\""@,
            end_pat@ == "/>"@,
            path_entries_from(dreg, 0) == entry_views(res@) + path_entries_from(
                dreg,
                pos as int,
            ),
        ensures
            path_entries_from(dreg, 0) == entry_views(res@) + path_entries_from(
                dreg,
                pos as int,
            ),
            path_entries_from(dreg, pos as int) == Seq::<(Seq<char>, Seq<char>)>::empty(),
        decreases region@.len() - pos,
    {
        let p = match find_sub(&region, &path_pat, pos) {
            Some(p) => p,
            None => {
                break ;
            },
        };
        proof {
            lemma_find_from_bounds(dreg, "<path"@, pos as int);
        }
        let q = match find_sub(&region, &id_pat, p + path_pat.len()) {
            Some(q) => q,
            None => {
                break ;
            },
        };
        proof {
            lemma_find_from_bounds(dreg, "id=\""@, p as int + "<path"@.len());
        }
        let q2 = match find_sub(&region, &quote_pat, q + id_pat.len()) {
            Some(q2) => q2,
            None => {
                break ;
            },
        };
        proof {
            reveal_strlit("\"");
            lemma_find_from_bounds(dreg, "\""@, q as int + "id=\""@.len());
        }
        let w = match find_sub(&region, &d_pat, q2 + 1) {
            Some(w) => w,
            None => {
                break ;
            },
        };
        proof {
            lemma_find_from_bounds(dreg, "d=\""@, q2 as int + 1);
        }
        let w2 = match find_sub(&region, &quote_pat, w + d_pat.len()) {
            Some(w2) => w2,
            None => {
                break ;
            },
        };
        proof {
            reveal_strlit("\"");
            lemma_find_from_bounds(dreg, "\""@, w as int + "d=\""@.len());
        }
        let e = match find_sub(&region, &end_pat, w2 + 1) {
            Some(e) => e,
            None => {
                break ;
            },
        };
        proof {
            lemma_find_from_bounds(dreg, "/>"@, w2 as int + 1);
        }
        let id = sub_chars(&region, q + id_pat.len(), q2);
        let path_d = sub_chars(&region, w + d_pat.len(), w2);
        res.push((id, path_d));
        proof {
            assert(entry_views(res@) =~= entry_views(res@.drop_last()).push(
                (res@.last().0@, res@.last().1@),
            ));
        }
        pos = e + end_pat.len();
    }
    proof {
        assert(entry_views(res@) =~= path_entries_from(dreg, 0));
    }
    Ok(res)
}

/// Relies on `char::from_u32`: it returns the character of a Unicode scalar
/// value, and `None` exactly on surrogates and out-of-range values.
pub assume_specification[ char::from_u32 ](v: u32) -> (r: Option<char>)
    ensures
        r is Some <==> is_scalar_value(v as int),
        r matches Some(c) ==> c as u32 == v,
;

/// Bounds of the drawing region, when its markers are present.
pub open spec fn drawing_region(s: Seq<char>) -> Option<(int, int)> {
    match find_from(s, "<g"@, 0) {
        None => None,
        Some(i) => match find_from(s, ">"@, i + "<g"@.len()) {
            None => None,
            Some(t) => match find_from(s, "</g>"@, t + 1) {
                None => None,
                Some(c) => Some((i, c + "</g>"@.len())),
            },
        },
    }
}

/// Decoded instruction text: a numeric character escape becomes its single
/// character, any other text is kept as trimmed.
pub open spec fn decode_entry_text(tt: Seq<char>) -> Option<Seq<char>> {
    if tt.len() >= 3 && tt.take(3) == "&#x"@ {
        if tt.len() >= 4 && hex_codepoint_valid(tt.subrange(3, tt.len() - 1)) {
            Some(seq![(digits_value(tt.subrange(3, tt.len() - 1), 16) as u32) as char])
        } else {
            None
        }
    } else {
        Some(tt)
    }
}

/// Fields of `s` split at commas.
pub open spec fn split_fold(s: Seq<char>, k: int) -> (Seq<Seq<char>>, int)
    decreases k,
{
    if k <= 0 {
        (Seq::empty(), 0)
    } else {
        let (fs, st) = split_fold(s, k - 1);
        if s[k - 1] == ',' {
            (fs.push(s.subrange(st, k - 1)), k)
        } else {
            (fs, st)
        }
    }
}

pub open spec fn split_commas(s: Seq<char>) -> Seq<Seq<char>> {
    let (fs, st) = split_fold(s, s.len() as int);
    fs.push(s.subrange(st, s.len() as int))
}

proof fn lemma_split_fold_bounds(s: Seq<char>, k: int)
    requires
        0 <= k <= s.len(),
    ensures
        0 <= split_fold(s, k).1 <= k,
    decreases k,
{
    if k > 0 {
        lemma_split_fold_bounds(s, k - 1);
    }
}

/// The six comma-separated transform components, decoded as fixed-point
/// numerals.
pub open spec fn fields_to_mat(fields: Seq<Seq<char>>) -> Option<Seq<int>> {
    if fields.len() == 6 && (forall|k: int| 0 <= k < 6 ==> dec_valid(#[trigger] fields[k])) {
        Some(Seq::new(6, |k: int| dec_fixed_value(fields[k])))
    } else {
        None
    }
}

/// The instruction denoted by one character-use entry's raw attribute texts,
/// or `None` when the text escape or a transform component is malformed.
pub open spec fn use_instr(raw_text: Seq<char>, glyph_ref: Seq<char>, nums: Seq<char>) -> Option<
    InstrModel,
> {
    match decode_entry_text(trimmed(raw_text)) {
        None => None,
        Some(text) => match fields_to_mat(split_commas(nums)) {
            None => None,
            Some(mat) => Some(InstrModel { text, glyph_ref, mat }),
        },
    }
}

/// Character-use entries scanned in order from position `pos` of the drawing
/// region; `None` when an entry is malformed.
pub open spec fn use_entries_from(g: Seq<char>, pos: int) -> Option<Seq<InstrModel>>
    decreases g.len() - pos,
{
    match find_from(g, "<use"@, pos) {
        None => Some(Seq::empty()),
        Some(u) => match find_from(g, "data-text=\""@, u + "<use"@.len()) {
            None => Some(Seq::empty()),
            Some(a) => match find_from(g, "\""@, a + "data-text=\""@.len()) {
                None => Some(Seq::empty()),
                Some(a2) => match find_from(g, "xlink:href=\"#"@, a2 + 1) {
                    None => Some(Seq::empty()),
                    Some(h) => match find_from(g, "\""@, h + "xlink:href=\"#"@.len()) {
                        None => Some(Seq::empty()),
                        Some(h2) => match find_from(g, "transform=\"matrix("@, h2 + 1) {
                            None => Some(Seq::empty()),
                            Some(m) => match find_from(g, ")"@, m + "transform=\"matrix("@.len()) {
                                None => Some(Seq::empty()),
                                Some(m2) => match find_from(g, ">"@, m2 + 1) {
                                    None => Some(Seq::empty()),
                                    Some(e) => {
                                        proof {
                                            lemma_use_entry_bounds(g, pos);
                                        }
                                        match use_instr(
                                            g.subrange(a + "data-text=\""@.len(), a2),
                                            g.subrange(h + "xlink:href=\"#"@.len(), h2),
                                            g.subrange(m + "transform=\"matrix("@.len(), m2),
                                        ) {
                                            None => None,
                                            Some(ins) => match use_entries_from(
                                                g,
                                                e + ">"@.len(),
                                            ) {
                                                None => None,
                                                Some(rest) => Some(seq![ins] + rest),
                                            },
                                        }
                                    },
                                },
                            },
                        },
                    },
                },
            },
        },
    }
}

/// After a complete character-use entry starting at or after `pos`, the scan
/// position strictly advances.
pub proof fn lemma_use_entry_bounds(g: Seq<char>, pos: int)
    ensures
        ({
            match find_from(g, "<use"@, pos) {
                None => true,
                Some(u) => match find_from(g, "data-text=\""@, u + "<use"@.len()) {
                    None => true,
                    Some(a) => match find_from(g, "\""@, a + "data-text=\""@.len()) {
                        None => true,
                        Some(a2) => match find_from(g, "xlink:href=\"#"@, a2 + 1) {
                            None => true,
                            Some(h) => match find_from(g, "\""@, h + "xlink:href=\"#"@.len()) {
                                None => true,
                                Some(h2) => match find_from(g, "transform=\"matrix("@, h2 + 1) {
                                    None => true,
                                    Some(m) => match find_from(
                                        g,
                                        ")"@,
                                        m + "transform=\"matrix("@.len(),
                                    ) {
                                        None => true,
                                        Some(m2) => match find_from(g, ">"@, m2 + 1) {
                                            None => true,
                                            Some(e) => pos < e + ">"@.len() <= g.len() && pos <= u
                                                && u + "<use"@.len() <= a && a
                                                + "data-text=\""@.len() <= a2 && a2 + 1 <= h && h
                                                + "xlink:href=\"#"@.len() <= h2 && h2 + 1 <= m && m
                                                + "transform=\"matrix("@.len() <= m2 && m2 + 1 <= e,
                                        },
                                    },
                                },
                            },
                        },
                    },
                },
            }
        }),
{
    reveal_strlit("<use");
    reveal_strlit("data-text=\"");
    reveal_strlit("\"");
    reveal_strlit("xlink:href=\"#");
    reveal_strlit("transform=\"matrix(");
    reveal_strlit(")");
    reveal_strlit(">");
    lemma_find_from_bounds(g, "<use"@, pos);
    if let Some(u) = find_from(g, "<use"@, pos) {
        lemma_find_from_bounds(g, "data-text=\""@, u + "<use"@.len());
        if let Some(a) = find_from(g, "data-text=\""@, u + "<use"@.len()) {
            lemma_find_from_bounds(g, "\""@, a + "data-text=\""@.len());
            if let Some(a2) = find_from(g, "\""@, a + "data-text=\""@.len()) {
                lemma_find_from_bounds(g, "xlink:href=\"#"@, a2 + 1);
                if let Some(h) = find_from(g, "xlink:href=\"#"@, a2 + 1) {
                    lemma_find_from_bounds(g, "\""@, h + "xlink:href=\"#"@.len());
                    if let Some(h2) = find_from(g, "\""@, h + "xlink:href=\"#"@.len()) {
                        lemma_find_from_bounds(g, "transform=\"matrix("@, h2 + 1);
                        if let Some(m) = find_from(g, "transform=\"matrix("@, h2 + 1) {
                            lemma_find_from_bounds(g, ")"@, m + "transform=\"matrix("@.len());
                            if let Some(m2) = find_from(g, ")"@, m + "transform=\"matrix("@.len()) {
                                lemma_find_from_bounds(g, ">"@, m2 + 1);
                            }
                        }
                    }
                }
            }
        }
    }
}

/// Views of a sequence of split fields.
pub open spec fn field_views(v: Seq<Vec<char>>) -> Seq<Seq<char>> {
    v.map_values(|f: Vec<char>| f@)
}

fn split_commas_exec(nums: &Vec<char>) -> (r: Vec<Vec<char>>)
    ensures
        field_views(r@) == split_commas(nums@),
{
    let n = nums.len();
    let mut fields: Vec<Vec<char>> = Vec::new();
    let mut st: usize = 0;
    let mut k: usize = 0;
    while k < n
        invariant
            st <= k <= n == nums@.len(),
            split_fold(nums@, k as int).0 == field_views(fields@),
            split_fold(nums@, k as int).1 == st as int,
        decreases n - k,
    {
        if nums[k] == ',' {
            let f = sub_chars(nums, st, k);
            fields.push(f);
            proof {
                assert(field_views(fields@) =~= field_views(fields@.drop_last()).push(
                    fields@.last()@,
                ));
            }
            st = k + 1;
        }
        k += 1;
    }
    let f = sub_chars(nums, st, n);
    fields.push(f);
    proof {
        assert(field_views(fields@) =~= field_views(fields@.drop_last()).push(fields@.last()@));
        assert(field_views(fields@) =~= split_commas(nums@));
    }
    fields
}

/// Extracts the ordered character-use instruction list from a page
/// description, decoding numeric character escapes and the six transform
/// components of each entry.
pub fn parse_details(data: &Vec<char>) -> (r: Result<Vec<Instruction>, ChartError>)
    ensures
        match r {
            Ok(list) => drawing_region(data@) matches Some((a, b)) && use_entries_from(
                data@.subrange(a, b),
                0,
            ) == Some(instr_views(list@)),
            Err(e) => e == ChartError::MalformedDescription && (drawing_region(data@) is None || (
            drawing_region(data@) matches Some((a, b)) && use_entries_from(
                data@.subrange(a, b),
                0,
            ) is None)),
        },
{
    let dn = data.len();
    let g_pat = str_chars("<g");
    let gt_pat = str_chars(">");
    let gclose_pat = str_chars("</g>");
    let i = match find_sub(data, &g_pat, 0) {
        Some(i) => i,
        None => {
            return Err(ChartError::MalformedDescription);
        },
    };
    proof {
        lemma_find_from_bounds(data@, "<g"@, 0);
    }
    let t = match find_sub(data, &gt_pat, i + g_pat.len()) {
        Some(t) => t,
        None => {
            return Err(ChartError::MalformedDescription);
        },
    };
    proof {
        reveal_strlit(">");
        lemma_find_from_bounds(data@, ">"@, i as int + "<g"@.len());
    }
    let c = match find_sub(data, &gclose_pat, t + 1) {
        Some(c) => c,
        None => {
            return Err(ChartError::MalformedDescription);
        },
    };
    proof {
        lemma_find_from_bounds(data@, "</g>"@, t as int + 1);
    }
    let region = sub_chars(data, i, c + gclose_pat.len());
    let rn = region.len();
    let ghost gi = i as int;
    let ghost ge = c as int + "</g>"@.len();
    let ghost greg = data@.subrange(gi, ge);
    proof {
        assert(drawing_region(data@) == Some((gi, ge)));
    }
    let use_pat = str_chars("<use");
    let text_pat = str_chars("data-text=\"");
    let quote_pat = str_chars("\"");
    let href_pat = str_chars("xlink:href=\"#");
    let matrix_pat = str_chars("transform=\"matrix(");
    let close_pat = str_chars(")");
    let gt2_pat = str_chars(">");
    let mut res: Vec<Instruction> = Vec::new();
    let mut pos: usize = 0;
    loop
        invariant
            region@ == greg,
            drawing_region(data@) == Some((gi, ge)),
            greg == data@.subrange(gi, ge),
            rn == region@.len(),
            pos <= rn,
            use_pat@ == "<use"@,
            text_pat@ == "data-text=\""@,
            quote_pat@ == "\""@,
            href_pat@ == "xlink:href=\"#"@,
            matrix_pat@ == "transform=\"matrix("@,
            close_pat@ == ")"@,
            gt2_pat@ == ">"@,
            use_entries_from(greg, 0) is Some <==> use_entries_from(greg, pos as int) is Some,
            use_entries_from(greg, pos as int) matches Some(rest) ==> use_entries_from(greg, 0)
                == Some(instr_views(res@) + rest),
        ensures
            use_entries_from(greg, pos as int) == Some(Seq::<InstrModel>::empty()),
            use_entries_from(greg, 0) is Some <==> use_entries_from(greg, pos as int) is Some,
            use_entries_from(greg, pos as int) matches Some(rest) ==> use_entries_from(greg, 0)
                == Some(instr_views(res@) + rest),
        decreases rn - pos,
    {
        let u = match find_sub(&region, &use_pat, pos) {
            Some(u) => u,
            None => {
                break ;
            },
        };
        proof {
            lemma_find_from_bounds(greg, "<use"@, pos as int);
        }
        let a = match find_sub(&region, &text_pat, u + use_pat.len()) {
            Some(a) => a,
            None => {
                break ;
            },
        };
        proof {
            lemma_find_from_bounds(greg, "data-text=\""@, u as int + "<use"@.len());
        }
        let a2 = match find_sub(&region, &quote_pat, a + text_pat.len()) {
            Some(a2) => a2,
            None => {
                break ;
            },
        };
        proof {
            reveal_strlit("\"");
            lemma_find_from_bounds(greg, "\""@, a as int + "data-text=\""@.len());
        }
        let h = match find_sub(&region, &href_pat, a2 + 1) {
            Some(h) => h,
            None => {
                break ;
            },
        };
        proof {
            lemma_find_from_bounds(greg, "xlink:href=\"#"@, a2 as int + 1);
        }
        let h2 = match find_sub(&region, &quote_pat, h + href_pat.len()) {
            Some(h2) => h2,
            None => {
                break ;
            },
        };
        proof {
            reveal_strlit("\"");
            lemma_find_from_bounds(greg, "\""@, h as int + "xlink:href=\"#"@.len());
        }
        let m = match find_sub(&region, &matrix_pat, h2 + 1) {
            Some(m) => m,
            None => {
                break ;
            },
        };
        proof {
            lemma_find_from_bounds(greg, "transform=\"matrix("@, h2 as int + 1);
        }
        let m2 = match find_sub(&region, &close_pat, m + matrix_pat.len()) {
            Some(m2) => m2,
            None => {
                break ;
            },
        };
        proof {
            reveal_strlit(")");
            lemma_find_from_bounds(greg, ")"@, m as int + "transform=\"matrix("@.len());
        }
        let e = match find_sub(&region, &gt2_pat, m2 + 1) {
            Some(e) => e,
            None => {
                break ;
            },
        };
        proof {
            reveal_strlit(">");
            lemma_find_from_bounds(greg, ">"@, m2 as int + 1);
        }
        let ghost raw_view = greg.subrange(a as int + "data-text=\""@.len(), a2 as int);
        let ghost ref_view = greg.subrange(h as int + "xlink:href=\"#"@.len(), h2 as int);
        let ghost nums_view = greg.subrange(m as int + "transform=\"matrix("@.len(), m2 as int);
        let raw = sub_chars(&region, a + text_pat.len(), a2);
        let glyph_ref = sub_chars(&region, h + href_pat.len(), h2);
        let nums = sub_chars(&region, m + matrix_pat.len(), m2);
        let tt = trim_vec(&raw);
        let is_esc = tt.len() >= 3 && {
            let c0 = tt[0];
            let c1 = tt[1];
            let c2 = tt[2];
            c0 == '&' && c1 == '#' && c2 == 'x'
        };
        proof {
            reveal_strlit("&#x");
            if tt@.len() >= 3 {
                if is_esc {
                    assert(tt@.take(3) =~= "&#x"@);
                } else {
                    if tt@.take(3) == "&#x"@ {
                        assert(tt@.take(3)[0] == tt@[0]);
                        assert(tt@.take(3)[1] == tt@[1]);
                        assert(tt@.take(3)[2] == tt@[2]);
                        assert(false);
                    }
                }
            }
        }
        let text: Vec<char>;
        if is_esc {
            if tt.len() < 4 {
                proof {
                    assert(use_instr(raw_view, ref_view, nums_view) is None);
                    assert(use_entries_from(greg, pos as int) is None);
                }
                return Err(ChartError::MalformedDescription);
            }
            let v = match parse_hex_codepoint(&tt, 3, tt.len() - 1) {
                Some(v) => v,
                None => {
                    proof {
                        assert(use_instr(raw_view, ref_view, nums_view) is None);
                        assert(use_entries_from(greg, pos as int) is None);
                    }
                    return Err(ChartError::MalformedDescription);
                },
            };
            match char::from_u32(v) {
                Some(ch) => {
                    text = vec![ch];
                    proof {
                        vstd::utf8::char_u32_cast(ch, v);
                        assert(text@ =~= seq![(digits_value(
                            tt@.subrange(3, tt@.len() - 1),
                            16,
                        ) as u32) as char]);
                    }
                },
                None => {
                    proof {
                        assert(false);
                    }
                    return Err(ChartError::MalformedDescription);
                },
            }
        } else {
            text = tt;
        }
        let fields = split_commas_exec(&nums);
        if fields.len() != 6 {
            proof {
                assert(fields_to_mat(split_commas(nums_view)) is None);
                assert(use_instr(raw_view, ref_view, nums_view) is None);
                assert(use_entries_from(greg, pos as int) is None);
            }
            return Err(ChartError::MalformedDescription);
        }
        let mut vals: Vec<i64> = Vec::new();
        let mut k: usize = 0;
        let mut badf: bool = false;
        while k < 6
            invariant
                k <= 6,
                fields@.len() == 6,
                !badf ==> vals@.len() == k,
                !badf ==> forall|j: int|
                    0 <= j < k ==> dec_valid(#[trigger] field_views(fields@)[j]) && vals@[j] as int
                        == dec_fixed_value(field_views(fields@)[j]),
                badf ==> exists|j: int|
                    0 <= j < 6 && !dec_valid(#[trigger] field_views(fields@)[j]),
            decreases 6 - k,
        {
            if !badf {
                let fk = &fields[k];
                let fkn = fk.len();
                proof {
                    assert(fk@.subrange(0, fkn as int) =~= fk@);
                    assert(fk@ == field_views(fields@)[k as int]);
                }
                match parse_fixed(fk, 0, fkn) {
                    Some(x) => {
                        vals.push(x);
                    },
                    None => {
                        badf = true;
                        proof {
                            assert(!dec_valid(field_views(fields@)[k as int]));
                        }
                    },
                }
            }
            k += 1;
        }
        if badf {
            proof {
                assert(fields_to_mat(split_commas(nums_view)) is None);
                assert(use_instr(raw_view, ref_view, nums_view) is None);
                assert(use_entries_from(greg, pos as int) is None);
            }
            return Err(ChartError::MalformedDescription);
        }
        let mat: [i64; 6] = [vals[0], vals[1], vals[2], vals[3], vals[4], vals[5]];
        let instr = Instruction { text, glyph_ref, mat };
        proof {
            let fv = field_views(fields@);
            assert(fields_to_mat(split_commas(nums_view)) == Some(
                Seq::new(6, |k: int| dec_fixed_value(fv[k])),
            ));
            assert(instr@.mat =~= Seq::new(6, |k: int| dec_fixed_value(fv[k]))) by {
                assert(mat@ =~= seq![
                    vals@[0],
                    vals@[1],
                    vals@[2],
                    vals@[3],
                    vals@[4],
                    vals@[5],
                ]);
            }
            assert(use_instr(raw_view, ref_view, nums_view) == Some(instr@));
        }
        res.push(instr);
        proof {
            assert(instr_views(res@) =~= instr_views(res@.drop_last()).push(res@.last()@));
            if let Some(rest) = use_entries_from(greg, e as int + ">"@.len()) {
                assert(use_entries_from(greg, pos as int) == Some(seq![instr@] + rest));
                if use_entries_from(greg, 0) is Some {
                    assert(instr_views(res@.drop_last()) + (seq![instr@] + rest) =~= instr_views(
                        res@,
                    ) + rest);
                }
            }
        }
        pos = e + gt2_pat.len();
    }
    proof {
        assert(drawing_region(data@) == Some((i as int, c as int + "</g>"@.len())));
        let rest = use_entries_from(greg, pos as int).unwrap();
        assert(instr_views(res@) + rest =~= instr_views(res@));
        assert(use_entries_from(greg, 0) == Some(instr_views(res@)));
    }
    Ok(res)
}

} // verus!
