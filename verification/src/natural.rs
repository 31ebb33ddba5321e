//! Natural (human) order on strings: embedded runs of decimal digits
//! compare by their numeric value, all other characters by code point.
//! `V1, V2, V10` is ordered that way, not as plain text would be.
#![allow(unused_imports)]

use vstd::prelude::*;
use crate::text::{all_digits, digit_val, digits_val, is_digit, is_digit_char};

verus! {

/// Length of the leading digit run.
pub open spec fn run_len(s: Seq<char>) -> int
    decreases s.len(),
{
    if s.len() == 0 || !is_digit_char(s[0]) {
        0
    } else {
        1 + run_len(s.drop_first())
    }
}

pub proof fn lemma_run_len(s: Seq<char>)
    ensures
        0 <= run_len(s) <= s.len(),
        forall|j: int| 0 <= j < run_len(s) ==> is_digit_char(s[j]),
        run_len(s) < s.len() ==> !is_digit_char(s[run_len(s)]),
        s.len() > 0 && is_digit_char(s[0]) ==> run_len(s) >= 1,
    decreases s.len(),
{
    if s.len() == 0 || !is_digit_char(s[0]) {
    } else {
        lemma_run_len(s.drop_first());
        assert forall|j: int| 0 <= j < run_len(s) implies is_digit_char(s[j]) by {
            if j > 0 {
                assert(s.drop_first()[j - 1] == s[j]);
            }
        }
        if run_len(s) < s.len() {
            assert(s.drop_first()[run_len(s) - 1] == s[run_len(s)]);
        }
    }
}

/// Natural comparison: -1, 0 or 1. Digit runs weigh by numeric value
/// (so leading zeros do not separate equal values); elsewhere characters
/// compare by code point, and a string that runs out first is smaller.
pub open spec fn nat_cmp(a: Seq<char>, b: Seq<char>) -> int
    decreases a.len() + b.len(),
    via nat_cmp_decreases
{
    if a.len() == 0 && b.len() == 0 {
        0
    } else if a.len() == 0 {
        -1
    } else if b.len() == 0 {
        1
    } else if is_digit_char(a[0]) && is_digit_char(b[0]) {
        let va = digits_val(a.take(run_len(a)));
        let vb = digits_val(b.take(run_len(b)));
        if va < vb {
            -1
        } else if va > vb {
            1
        } else {
            nat_cmp(a.skip(run_len(a)), b.skip(run_len(b)))
        }
    } else if (a[0] as u32) == (b[0] as u32) {
        nat_cmp(a.drop_first(), b.drop_first())
    } else if (a[0] as u32) < (b[0] as u32) {
        -1
    } else {
        1
    }
}

#[via_fn]
proof fn nat_cmp_decreases(a: Seq<char>, b: Seq<char>) {
    lemma_run_len(a);
    lemma_run_len(b);
}

/// Whether `a` may stand at or before `b` in natural order.
pub open spec fn nat_le(a: Seq<char>, b: Seq<char>) -> bool {
    nat_cmp(a, b) <= 0
}

/// Ten to the `n`.
pub open spec fn pow10(n: int) -> int
    decreases n,
{
    if n <= 0 {
        1
    } else {
        10 * pow10(n - 1)
    }
}

proof fn lemma_pow10_pos(n: int)
    ensures
        pow10(n) >= 1,
    decreases n,
{
    if n > 0 {
        lemma_pow10_pos(n - 1);
    }
}

proof fn lemma_pow10_mono(m: int, n: int)
    requires
        m <= n,
    ensures
        pow10(m) <= pow10(n),
    decreases n - m,
{
    if m < n {
        lemma_pow10_mono(m, n - 1);
        lemma_pow10_pos(n - 1);
    }
}

/// A digit sequence reads below ten to its length.
proof fn lemma_digits_val_upper(s: Seq<char>)
    requires
        all_digits(s),
    ensures
        0 <= digits_val(s) < pow10(s.len() as int),
    decreases s.len(),
{
    if s.len() == 0 {
    } else {
        assert(all_digits(s.drop_last()));
        lemma_digits_val_upper(s.drop_last());
        lemma_pow10_pos(s.len() - 1);
    }
}

/// Without a leading zero, a digit sequence reads at least ten to one
/// less than its length.
proof fn lemma_digits_val_lower(s: Seq<char>)
    requires
        all_digits(s),
        s.len() > 0,
        digit_val(s[0]) >= 1,
    ensures
        digits_val(s) >= pow10(s.len() - 1),
    decreases s.len(),
{
    if s.len() == 1 {
        assert(digits_val(s) == digits_val(s.drop_last()) * 10 + digit_val(s.last()));
    } else {
        let d = s.drop_last();
        assert(all_digits(d));
        assert(d[0] == s[0]);
        lemma_digits_val_lower(d);
        assert(digit_val(s.last()) >= 0);
    }
}

/// A zero digit in front does not change what the digits read as.
proof fn lemma_prepend_zero(c: char, t: Seq<char>)
    requires
        digit_val(c) == 0,
    ensures
        digits_val(seq![c] + t) == digits_val(t),
    decreases t.len(),
{
    let u = seq![c] + t;
    assert(u.len() == t.len() + 1);
    assert(digits_val(u) == digits_val(u.drop_last()) * 10 + digit_val(u.last()));
    if t.len() == 0 {
        assert(u.drop_last() =~= Seq::<char>::empty());
        assert(u.last() == c);
    } else {
        assert(u.drop_last() =~= seq![c] + t.drop_last());
        assert(u.last() == t[t.len() - 1]);
        lemma_prepend_zero(c, t.drop_last());
        assert(digits_val(u.drop_last()) == digits_val(t.drop_last()));
        assert(digits_val(t) == digits_val(t.drop_last()) * 10 + digit_val(t.last()));
    }
}

/// Leading zero digits do not change what the digits read as.
proof fn lemma_strip_zeros(s: Seq<char>, k: int)
    requires
        0 <= k <= s.len(),
        forall|j: int| 0 <= j < k ==> digit_val(#[trigger] s[j]) == 0,
    ensures
        digits_val(s) == digits_val(s.skip(k)),
    decreases k,
{
    if k > 0 {
        assert(s =~= seq![s[0]] + s.skip(1));
        lemma_prepend_zero(s[0], s.skip(1));
        assert(forall|j: int| 0 <= j < k - 1 ==> s.skip(1)[j] == s[j + 1]);
        lemma_strip_zeros(s.skip(1), k - 1);
        assert(s.skip(1).skip(k - 1) =~= s.skip(k));
    } else {
        assert(s.skip(0) =~= s);
    }
}

/// The first digit carries ten to the rest's length.
proof fn lemma_first_digit(u: Seq<char>)
    requires
        all_digits(u),
        u.len() > 0,
    ensures
        digits_val(u) == digit_val(u[0]) * pow10(u.len() - 1) + digits_val(u.drop_first()),
    decreases u.len(),
{
    if u.len() == 1 {
        assert(u.drop_last() =~= Seq::<char>::empty());
        assert(u.drop_first() =~= Seq::<char>::empty());
    } else {
        let d = u.drop_last();
        assert(all_digits(d));
        lemma_first_digit(d);
        assert(u.drop_first().drop_last() =~= d.drop_first());
        assert(u.drop_first().last() == u.last());
        let p = pow10(u.len() - 2);
        let d0 = digit_val(u[0]);
        assert(digits_val(u) == digits_val(d) * 10 + digit_val(u.last()));
        assert(digits_val(d) == d0 * p + digits_val(d.drop_first()));
        assert((d0 * p + digits_val(d.drop_first())) * 10 == d0 * (10 * p) + digits_val(
            d.drop_first(),
        ) * 10) by (nonlinear_arith);
        assert(pow10(u.len() - 1) == 10 * p);
        assert(digits_val(u.drop_first()) == digits_val(d.drop_first()) * 10 + digit_val(u.last()));
    }
}

/// With equal lengths and an equal prefix, the first smaller digit
/// decides.
proof fn lemma_digits_lex(s: Seq<char>, t: Seq<char>, k: int)
    requires
        all_digits(s),
        all_digits(t),
        s.len() == t.len(),
        0 <= k < s.len(),
        forall|j: int| 0 <= j < k ==> digit_val(#[trigger] s[j]) == digit_val(t[j]),
        digit_val(s[k]) < digit_val(t[k]),
    ensures
        digits_val(s) < digits_val(t),
    decreases k,
{
    if k == 0 {
        lemma_first_digit(s);
        lemma_first_digit(t);
        assert(all_digits(s.drop_first()));
        assert(all_digits(t.drop_first()));
        lemma_digits_val_upper(s.drop_first());
        lemma_digits_val_upper(t.drop_first());
        let p = pow10(s.len() - 1);
        let ds = digit_val(s[0]);
        let dt = digit_val(t[0]);
        assert(digits_val(s.drop_first()) < p);
        assert(digits_val(t.drop_first()) >= 0);
        assert(ds + 1 <= dt);
        assert(ds * p + p <= dt * p) by (nonlinear_arith)
            requires
                ds + 1 <= dt,
                p >= 1,
        ;
        lemma_pow10_pos(s.len() - 1);
    } else {
        assert(digit_val(s[0]) == digit_val(t[0]));
        lemma_first_digit(s);
        lemma_first_digit(t);
        assert(all_digits(s.drop_first()));
        assert(all_digits(t.drop_first()));
        assert(forall|j: int|
            0 <= j < k - 1 ==> digit_val(#[trigger] s.drop_first()[j]) == digit_val(
                t.drop_first()[j],
            ));
        assert(s.drop_first()[k - 1] == s[k]);
        assert(t.drop_first()[k - 1] == t[k]);
        lemma_digits_lex(s.drop_first(), t.drop_first(), k - 1);
    }
}

/// Digit sequences reading the same digit values read as the same
/// number.
proof fn lemma_digits_val_pointwise(s: Seq<char>, t: Seq<char>)
    requires
        s.len() == t.len(),
        forall|j: int| 0 <= j < s.len() ==> digit_val(#[trigger] s[j]) == digit_val(t[j]),
    ensures
        digits_val(s) == digits_val(t),
    decreases s.len(),
{
    if s.len() > 0 {
        assert(forall|j: int|
            0 <= j < s.len() - 1 ==> digit_val(#[trigger] s.drop_last()[j]) == digit_val(
                t.drop_last()[j],
            ));
        lemma_digits_val_pointwise(s.drop_last(), t.drop_last());
        assert(digit_val(s.last()) == digit_val(t.last()));
    }
}

/// Natural comparison is antisymmetric: swapping the arguments flips
/// the sign.
pub proof fn lemma_nat_cmp_antisym(a: Seq<char>, b: Seq<char>)
    ensures
        nat_cmp(b, a) == -nat_cmp(a, b),
    decreases a.len() + b.len(),
{
    lemma_run_len(a);
    lemma_run_len(b);
    if a.len() == 0 && b.len() == 0 {
    } else if a.len() == 0 {
    } else if b.len() == 0 {
    } else if is_digit_char(a[0]) && is_digit_char(b[0]) {
        let va = digits_val(a.take(run_len(a)));
        let vb = digits_val(b.take(run_len(b)));
        if va == vb {
            lemma_nat_cmp_antisym(a.skip(run_len(a)), b.skip(run_len(b)));
        }
    } else if (a[0] as u32) == (b[0] as u32) {
        lemma_nat_cmp_antisym(a.drop_first(), b.drop_first());
    }
}

/// Nothing stands before itself.
pub proof fn lemma_nat_cmp_refl(a: Seq<char>)
    ensures
        nat_cmp(a, a) == 0,
    decreases a.len(),
{
    lemma_run_len(a);
    if a.len() == 0 {
    } else if is_digit_char(a[0]) {
        lemma_nat_cmp_refl(a.skip(run_len(a)));
    } else {
        lemma_nat_cmp_refl(a.drop_first());
    }
}

/// Natural order is transitive.
pub proof fn lemma_nat_le_trans(a: Seq<char>, b: Seq<char>, c: Seq<char>)
    requires
        nat_cmp(a, b) <= 0,
        nat_cmp(b, c) <= 0,
    ensures
        nat_cmp(a, c) <= 0,
    decreases a.len() + b.len() + c.len(),
{
    lemma_run_len(a);
    lemma_run_len(b);
    lemma_run_len(c);
    if a.len() == 0 || b.len() == 0 || c.len() == 0 {
        // a shorter-ended chain: with b or c empty the premises force a
        // empty too
    } else {
        let a0 = a[0];
        let b0 = b[0];
        let c0 = c[0];
        let da = is_digit_char(a0);
        let db = is_digit_char(b0);
        let dc = is_digit_char(c0);
        // digit-hood is a property of the code point
        assert(da == (48 <= (a0 as u32) && (a0 as u32) <= 57));
        assert(db == (48 <= (b0 as u32) && (b0 as u32) <= 57));
        assert(dc == (48 <= (c0 as u32) && (c0 as u32) <= 57));
        if da && db && dc {
            let va = digits_val(a.take(run_len(a)));
            let vb = digits_val(b.take(run_len(b)));
            let vc = digits_val(c.take(run_len(c)));
            if va == vb && vb == vc {
                lemma_nat_le_trans(a.skip(run_len(a)), b.skip(run_len(b)), c.skip(run_len(c)));
            }
        } else if da && db && !dc {
            // c opens above the digit range that b's head sits in
            assert((b0 as u32) < (c0 as u32));
            assert((a0 as u32) <= 57 && 48 <= (b0 as u32));
            assert(!(48 <= (c0 as u32) && (c0 as u32) <= 57));
        } else if da && !db {
            assert((a0 as u32) < (b0 as u32));
            if dc {
                // impossible: b would have to sit above and below the
                // digit range at once
                assert((b0 as u32) < (c0 as u32));
                assert((c0 as u32) <= 57);
                assert((a0 as u32) >= 48);
            } else {
                assert((b0 as u32) <= (c0 as u32));
            }
        } else if !da && db {
            assert((a0 as u32) < (b0 as u32));
            if dc {
                assert((b0 as u32) <= 57);
                assert(!(48 <= (a0 as u32) && (a0 as u32) <= 57));
                assert((a0 as u32) < 48);
            } else {
                assert((b0 as u32) < (c0 as u32));
            }
        } else {
            // neither a nor b opens with a digit
            if (a0 as u32) == (b0 as u32) {
                if dc {
                    assert((b0 as u32) < (c0 as u32));
                    assert((c0 as u32) <= 57);
                    assert((b0 as u32) < 48);
                } else if (b0 as u32) == (c0 as u32) {
                    lemma_nat_le_trans(a.drop_first(), b.drop_first(), c.drop_first());
                } else {
                    assert((b0 as u32) < (c0 as u32));
                }
            } else {
                assert((a0 as u32) < (b0 as u32));
                if dc {
                    assert((b0 as u32) < (c0 as u32));
                    assert((c0 as u32) <= 57);
                } else {
                    assert((b0 as u32) <= (c0 as u32));
                }
            }
        }
    }
}

/// Compare the values of the digit runs `a[i..i2]` and `b[j..j2]`.
fn cmp_runs(a: &Vec<char>, i: usize, i2: usize, b: &Vec<char>, j: usize, j2: usize) -> (r: i8)
    requires
        i <= i2 <= a@.len(),
        j <= j2 <= b@.len(),
        all_digits(a@.subrange(i as int, i2 as int)),
        all_digits(b@.subrange(j as int, j2 as int)),
    ensures
        ({
            let va = digits_val(a@.subrange(i as int, i2 as int));
            let vb = digits_val(b@.subrange(j as int, j2 as int));
            &&& (r == -1i8 <==> va < vb)
            &&& (r == 0i8 <==> va == vb)
            &&& (r == 1i8 <==> va > vb)
        }),
{
    let ghost ra = a@.subrange(i as int, i2 as int);
    let ghost rb = b@.subrange(j as int, j2 as int);
    // skip leading zeros on both sides
    let mut za: usize = i;
    while za < i2 && (a[za] as u32) == 48
        invariant
            i <= za <= i2 <= a@.len(),
            forall|t: int| i <= t < za ==> digit_val(#[trigger] a@[t]) == 0,
        decreases i2 - za,
    {
        za += 1;
    }
    let mut zb: usize = j;
    while zb < j2 && (b[zb] as u32) == 48
        invariant
            j <= zb <= j2 <= b@.len(),
            forall|t: int| j <= t < zb ==> digit_val(#[trigger] b@[t]) == 0,
        decreases j2 - zb,
    {
        zb += 1;
    }
    let ghost sa = a@.subrange(za as int, i2 as int);
    let ghost sb = b@.subrange(zb as int, j2 as int);
    proof {
        assert(forall|t: int| 0 <= t < za - i ==> digit_val(#[trigger] ra[t]) == 0);
        lemma_strip_zeros(ra, za - i);
        assert(ra.skip(za - i) =~= sa);
        assert(forall|t: int| 0 <= t < zb - j ==> digit_val(#[trigger] rb[t]) == 0);
        lemma_strip_zeros(rb, zb - j);
        assert(rb.skip(zb - j) =~= sb);
        assert(all_digits(sa));
        assert(all_digits(sb));
    }
    let la = i2 - za;
    let lb = j2 - zb;
    if la < lb {
        proof {
            assert(digits_val(ra) == digits_val(sa));
            assert(digits_val(rb) == digits_val(sb));
            assert(sa.len() == la as int);
            assert(sb.len() == lb as int);
            assert(sb[0] == b@[zb as int]);
            assert(digit_val(sb[0]) >= 1);
            lemma_digits_val_upper(sa);
            lemma_digits_val_lower(sb);
            lemma_pow10_mono(la as int, lb as int - 1);
            assert(digits_val(sa) < pow10(la as int));
            assert(digits_val(sb) >= pow10(lb as int - 1));
        }
        return -1;
    }
    if la > lb {
        proof {
            assert(digits_val(ra) == digits_val(sa));
            assert(digits_val(rb) == digits_val(sb));
            assert(sa.len() == la as int);
            assert(sb.len() == lb as int);
            assert(sa[0] == a@[za as int]);
            assert(digit_val(sa[0]) >= 1);
            lemma_digits_val_upper(sb);
            lemma_digits_val_lower(sa);
            lemma_pow10_mono(lb as int, la as int - 1);
            assert(digits_val(sb) < pow10(lb as int));
            assert(digits_val(sa) >= pow10(la as int - 1));
        }
        return 1;
    }
    // equal lengths: compare digit by digit
    let mut k: usize = 0;
    while k < la
        invariant
            0 <= k <= la,
            la == lb,
            i <= za <= i2 <= a@.len(),
            j <= zb <= j2 <= b@.len(),
            la == i2 - za,
            lb == j2 - zb,
            sa == a@.subrange(za as int, i2 as int),
            sb == b@.subrange(zb as int, j2 as int),
            ra == a@.subrange(i as int, i2 as int),
            rb == b@.subrange(j as int, j2 as int),
            all_digits(sa),
            all_digits(sb),
            digits_val(ra) == digits_val(sa),
            digits_val(rb) == digits_val(sb),
            forall|t: int| 0 <= t < k ==> digit_val(#[trigger] sa[t]) == digit_val(sb[t]),
        decreases la - k,
    {
        let ca = a[za + k];
        let cb = b[zb + k];
        proof {
            assert(sa[k as int] == a@[za + k]);
            assert(sb[k as int] == b@[zb + k]);
        }
        if (ca as u32) < (cb as u32) {
            proof {
                assert(digit_val(sa[k as int]) < digit_val(sb[k as int]));
                lemma_digits_lex(sa, sb, k as int);
                assert(digits_val(sa) < digits_val(sb));
                assert(digits_val(ra) < digits_val(rb));
                assert(ra == a@.subrange(i as int, i2 as int));
                assert(rb == b@.subrange(j as int, j2 as int));
            }
            return -1;
        }
        if (ca as u32) > (cb as u32) {
            proof {
                assert(digit_val(sb[k as int]) < digit_val(sa[k as int]));
                lemma_digits_lex(sb, sa, k as int);
                assert(digits_val(sb) < digits_val(sa));
            }
            return 1;
        }
        proof {
            assert(digit_val(sa[k as int]) == digit_val(sb[k as int]));
        }
        k += 1;
    }
    proof {
        lemma_digits_val_pointwise(sa, sb);
    }
    0
}

/// Natural comparison of two character vectors: -1 when `a` stands
/// first, 1 when `b` does, 0 when neither is distinguished.
pub fn nat_compare(a: &Vec<char>, b: &Vec<char>) -> (r: i8)
    ensures
        r as int == nat_cmp(a@, b@),
{
    let alen = a.len();
    let blen = b.len();
    let mut i: usize = 0;
    let mut j: usize = 0;
    proof {
        assert(a@.skip(0) =~= a@);
        assert(b@.skip(0) =~= b@);
    }
    loop
        invariant
            0 <= i <= alen,
            0 <= j <= blen,
            alen == a@.len(),
            blen == b@.len(),
            nat_cmp(a@, b@) == nat_cmp(a@.skip(i as int), b@.skip(j as int)),
        decreases alen - i + blen - j,
    {
        let ghost sa = a@.skip(i as int);
        let ghost sb = b@.skip(j as int);
        if i == alen && j == blen {
            return 0;
        }
        if i == alen {
            return -1;
        }
        if j == blen {
            return 1;
        }
        let ca = a[i];
        let cb = b[j];
        proof {
            assert(sa[0] == a@[i as int]);
            assert(sb[0] == b@[j as int]);
        }
        if is_digit(ca) && is_digit(cb) {
            // find the end of each digit run
            let mut i2: usize = i;
            while i2 < alen && is_digit(a[i2])
                invariant
                    i <= i2 <= alen,
                    alen == a@.len(),
                    forall|t: int| i <= t < i2 ==> is_digit_char(a@[t]),
                decreases alen - i2,
            {
                i2 += 1;
            }
            let mut j2: usize = j;
            while j2 < blen && is_digit(b[j2])
                invariant
                    j <= j2 <= blen,
                    blen == b@.len(),
                    forall|t: int| j <= t < j2 ==> is_digit_char(b@[t]),
                decreases blen - j2,
            {
                j2 += 1;
            }
            proof {
                lemma_run_len(sa);
                assert(forall|t: int| 0 <= t < sa.len() ==> sa[t] == a@[t + i]);
                assert(run_len(sa) == i2 - i) by {
                    let rl = run_len(sa);
                    if rl < i2 - i {
                        assert(is_digit_char(sa[rl]));
                    }
                    if rl > i2 - i {
                        assert(is_digit_char(sa[i2 - i]));
                        assert(i2 < alen ==> !is_digit_char(a@[i2 as int]));
                    }
                }
                lemma_run_len(sb);
                assert(forall|t: int| 0 <= t < sb.len() ==> sb[t] == b@[t + j]);
                assert(run_len(sb) == j2 - j) by {
                    let rl = run_len(sb);
                    if rl < j2 - j {
                        assert(is_digit_char(sb[rl]));
                    }
                    if rl > j2 - j {
                        assert(is_digit_char(sb[j2 - j]));
                        assert(j2 < blen ==> !is_digit_char(b@[j2 as int]));
                    }
                }
                assert(sa.take(i2 - i) =~= a@.subrange(i as int, i2 as int));
                assert(sb.take(j2 - j) =~= b@.subrange(j as int, j2 as int));
                assert(all_digits(a@.subrange(i as int, i2 as int)));
                assert(all_digits(b@.subrange(j as int, j2 as int)));
            }
            let c = cmp_runs(a, i, i2, b, j, j2);
            if c != 0 {
                return c;
            }
            proof {
                assert(sa.skip(i2 - i) =~= a@.skip(i2 as int));
                assert(sb.skip(j2 - j) =~= b@.skip(j2 as int));
            }
            i = i2;
            j = j2;
        } else if (ca as u32) == (cb as u32) {
            proof {
                assert(sa.drop_first() =~= a@.skip(i + 1));
                assert(sb.drop_first() =~= b@.skip(j + 1));
            }
            i += 1;
            j += 1;
        } else if (ca as u32) < (cb as u32) {
            return -1;
        } else {
            return 1;
        }
    }
}

} // verus!
