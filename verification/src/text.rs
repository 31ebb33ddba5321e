//! Character-level text utilities shared by the codec: conversion between
//! strings and character vectors, whitespace trimming, splitting, and
//! decimal integer reading and writing.
#![allow(unused_imports)]

use vstd::prelude::*;
use vstd::string::StrSliceExecFns;
use vstd::string::StringExecFns;

verus! {

/// A whitespace character, as the `White_Space` Unicode property defines it.
pub open spec fn is_space_char(c: char) -> bool {
    let u = c as u32;
    u == 9 || u == 10 || u == 11 || u == 12 || u == 13 || u == 32 || u == 0x85 || u == 0xA0
        || u == 0x1680 || (0x2000 <= u && u <= 0x200A) || u == 0x2028 || u == 0x2029 || u == 0x202F
        || u == 0x205F || u == 0x3000
}

pub fn is_space(c: char) -> (r: bool)
    ensures
        r == is_space_char(c),
{
    let u = c as u32;
    u == 9 || u == 10 || u == 11 || u == 12 || u == 13 || u == 32 || u == 0x85 || u == 0xA0
        || u == 0x1680 || (0x2000 <= u && u <= 0x200A) || u == 0x2028 || u == 0x2029 || u == 0x202F
        || u == 0x205F || u == 0x3000
}

/// Number of leading whitespace characters.
pub open spec fn lead_ws(s: Seq<char>) -> int
    decreases s.len(),
{
    if s.len() == 0 || !is_space_char(s[0]) {
        0
    } else {
        1 + lead_ws(s.drop_first())
    }
}

/// Number of trailing whitespace characters.
pub open spec fn trail_ws(s: Seq<char>) -> int
    decreases s.len(),
{
    if s.len() == 0 || !is_space_char(s.last()) {
        0
    } else {
        1 + trail_ws(s.drop_last())
    }
}

/// The sequence with surrounding whitespace removed.
pub open spec fn trim_seq(s: Seq<char>) -> Seq<char> {
    let t = s.skip(lead_ws(s));
    t.take(t.len() - trail_ws(t))
}

proof fn lemma_lead_ws_bound(s: Seq<char>)
    ensures
        0 <= lead_ws(s) <= s.len(),
        forall|j: int| 0 <= j < lead_ws(s) ==> is_space_char(s[j]),
        lead_ws(s) < s.len() ==> !is_space_char(s[lead_ws(s)]),
    decreases s.len(),
{
    if s.len() == 0 || !is_space_char(s[0]) {
    } else {
        lemma_lead_ws_bound(s.drop_first());
        assert forall|j: int| 0 <= j < lead_ws(s) implies is_space_char(s[j]) by {
            if j > 0 {
                assert(s.drop_first()[j - 1] == s[j]);
            }
        }
        if lead_ws(s) < s.len() {
            assert(s.drop_first()[lead_ws(s) - 1] == s[lead_ws(s)]);
        }
    }
}

proof fn lemma_trail_ws_bound(s: Seq<char>)
    ensures
        0 <= trail_ws(s) <= s.len(),
        forall|j: int| s.len() - trail_ws(s) <= j < s.len() ==> is_space_char(s[j]),
        trail_ws(s) < s.len() ==> !is_space_char(s[s.len() - trail_ws(s) - 1]),
    decreases s.len(),
{
    if s.len() == 0 || !is_space_char(s.last()) {
    } else {
        lemma_trail_ws_bound(s.drop_last());
        assert forall|j: int| s.len() - trail_ws(s) <= j < s.len() implies is_space_char(s[j]) by {
            if j < s.len() - 1 {
                assert(s.drop_last()[j] == s[j]);
            }
        }
        if trail_ws(s) < s.len() {
            assert(s.drop_last()[s.len() - trail_ws(s) - 1] == s[s.len() - trail_ws(s) - 1]);
        }
    }
}

/// `trim_seq` of a sequence whose bounds of non-space content are known.
proof fn lemma_trim_is_subrange(s: Seq<char>, a: int, b: int)
    requires
        0 <= a <= b <= s.len(),
        forall|j: int| 0 <= j < a ==> is_space_char(s[j]),
        forall|j: int| b <= j < s.len() ==> is_space_char(s[j]),
        a < s.len() ==> a < b,
        a < b ==> !is_space_char(s[a]),
        a < b ==> !is_space_char(s[b - 1]),
        a == b ==> a == s.len(),
    ensures
        trim_seq(s) == s.subrange(a, b),
{
    lemma_lead_ws_bound(s);
    if a == b {
        // all whitespace
        assert(lead_ws(s) == s.len()) by {
            if lead_ws(s) < s.len() {
                assert(is_space_char(s[lead_ws(s)]));
            }
        }
        assert(s.skip(lead_ws(s)) =~= Seq::<char>::empty());
        assert(trail_ws(Seq::<char>::empty()) == 0);
        assert(trim_seq(s) =~= s.subrange(a, b));
    } else {
        assert(lead_ws(s) == a) by {
            if lead_ws(s) < a {
                assert(is_space_char(s[lead_ws(s)]));
            }
            if lead_ws(s) > a {
                assert(is_space_char(s[a]));
            }
        }
        let t = s.skip(a);
        lemma_trail_ws_bound(t);
        assert(trail_ws(t) == s.len() - b) by {
            assert(forall|j: int|
                t.len() - (s.len() - b) <= j < t.len() ==> is_space_char(t[j]));
            if trail_ws(t) < s.len() - b {
                assert(is_space_char(t[t.len() - trail_ws(t) - 1]));
            }
            if trail_ws(t) > s.len() - b {
                assert(is_space_char(t[b - 1 - a]));
            }
        }
        assert(trim_seq(s) =~= s.subrange(a, b));
    }
}

/// Copy of `v` with surrounding whitespace removed.
pub fn trim_chars(v: &Vec<char>) -> (r: Vec<char>)
    ensures
        r@ == trim_seq(v@),
{
    let n = v.len();
    let mut a: usize = 0;
    while a < n && is_space(v[a])
        invariant
            0 <= a <= n,
            n == v.len(),
            forall|j: int| 0 <= j < a ==> is_space_char(v@[j]),
        decreases n - a,
    {
        a += 1;
    }
    let mut b: usize = n;
    if a == n {
        b = a;
    } else {
        while b > a && is_space(v[b - 1])
            invariant
                a <= b <= n,
                n == v.len(),
                forall|j: int| b <= j < n ==> is_space_char(v@[j]),
            decreases b,
        {
            b -= 1;
        }
    }
    let mut r: Vec<char> = Vec::new();
    let mut i: usize = a;
    while i < b
        invariant
            a <= i <= b <= n,
            n == v.len(),
            r@ == v@.subrange(a as int, i as int),
        decreases b - i,
    {
        let c = v[i];
        r.push(c);
        assert(v@.subrange(a as int, i + 1 as int) =~= v@.subrange(a as int, i as int).push(c));
        i += 1;
    }
    proof {
        if a == b {
            lemma_trim_is_subrange(v@, a as int, b as int);
        } else {
            assert(!is_space_char(v@[a as int]));
            assert(!is_space_char(v@[b - 1]));
            lemma_trim_is_subrange(v@, a as int, b as int);
        }
    }
    r
}

/// Index of the first occurrence of `c`, or -1 when absent.
pub open spec fn find_char(s: Seq<char>, c: char) -> int
    decreases s.len(),
{
    if s.len() == 0 {
        -1
    } else if s[0] == c {
        0
    } else {
        let r = find_char(s.drop_first(), c);
        if r < 0 {
            -1
        } else {
            1 + r
        }
    }
}

pub proof fn lemma_find_char(s: Seq<char>, c: char)
    ensures
        find_char(s, c) == -1 ==> forall|j: int| 0 <= j < s.len() ==> s[j] != c,
        find_char(s, c) >= 0 ==> find_char(s, c) < s.len() && s[find_char(s, c)] == c && forall|
            j: int,
        | 0 <= j < find_char(s, c) ==> s[j] != c,
    decreases s.len(),
{
    if s.len() == 0 {
    } else if s[0] == c {
    } else {
        lemma_find_char(s.drop_first(), c);
        let d = s.drop_first();
        let r = find_char(d, c);
        if r < 0 {
            assert forall|j: int| 0 <= j < s.len() implies s[j] != c by {
                if j > 0 {
                    assert(d[j - 1] == s[j]);
                }
            }
        } else {
            assert(d[r] == s[r + 1]);
            assert forall|j: int| 0 <= j < find_char(s, c) implies s[j] != c by {
                if j > 0 {
                    assert(d[j - 1] == s[j]);
                }
            }
        }
    }
}

/// First index of `c` in `v` at or after `from`.
pub fn find_from(v: &Vec<char>, from: usize, c: char) -> (r: Option<usize>)
    requires
        from <= v@.len(),
    ensures
        match r {
            Some(i) => from <= i < v@.len() && v@[i as int] == c && forall|j: int|
                from <= j < i ==> v@[j] != c,
            None => forall|j: int| from <= j < v@.len() ==> v@[j] != c,
        },
{
    let mut i: usize = from;
    let n = v.len();
    while i < n
        invariant
            from <= i <= n,
            n == v.len(),
            forall|j: int| from <= j < i ==> v@[j] != c,
        decreases n - i,
    {
        if v[i] == c {
            return Some(i);
        }
        i += 1;
    }
    None
}

/// The pieces of `s` between occurrences of `c` (as `str::split` yields them).
pub open spec fn split_char(s: Seq<char>, c: char) -> Seq<Seq<char>>
    decreases s.len(),
{
    let i = find_char(s, c);
    if 0 <= i && i < s.len() {
        seq![s.take(i)] + split_char(s.skip(i + 1), c)
    } else {
        seq![s]
    }
}

proof fn lemma_split_char_unfold(s: Seq<char>, c: char, i: int)
    requires
        0 <= i < s.len(),
        s[i] == c,
        forall|j: int| 0 <= j < i ==> s[j] != c,
    ensures
        split_char(s, c) == seq![s.take(i)] + split_char(s.skip(i + 1), c),
{
    lemma_find_char(s, c);
    assert(find_char(s, c) == i) by {
        let f = find_char(s, c);
        if f < 0 {
            assert(s[i] != c);
        } else if f < i {
            assert(s[f] != c);
        } else if f > i {
            assert(s[i] != c);
        }
    }
}

proof fn lemma_split_char_whole(s: Seq<char>, c: char)
    requires
        forall|j: int| 0 <= j < s.len() ==> s[j] != c,
    ensures
        split_char(s, c) == seq![s],
{
    lemma_find_char(s, c);
    let f = find_char(s, c);
    if f >= 0 {
        assert(s[f] != c);
    }
}

/// Split `v` on `c`, as `str::split` does: `n` separators yield `n + 1`
/// pieces, empty pieces included.
pub fn split_chars(v: &Vec<char>, c: char) -> (r: Vec<Vec<char>>)
    ensures
        r.deep_view() == split_char(v@, c),
{
    let mut out: Vec<Vec<char>> = Vec::new();
    let mut p: usize = 0;
    let n = v.len();
    proof {
        assert(v@.skip(0) =~= v@);
        assert(out.deep_view() + split_char(v@, c) =~~= split_char(v@, c));
    }
    loop
        invariant
            0 <= p <= n,
            n == v.len(),
            out.deep_view() + split_char(v@.skip(p as int), c) == split_char(v@, c),
        decreases n - p,
    {
        let found = find_from(v, p, c);
        match found {
            Some(q) => {
                let mut piece: Vec<char> = Vec::new();
                let mut i: usize = p;
                while i < q
                    invariant
                        p <= i <= q <= n,
                        n == v.len(),
                        piece@ == v@.subrange(p as int, i as int),
                    decreases q - i,
                {
                    let ch = v[i];
                    piece.push(ch);
                    assert(v@.subrange(p as int, i + 1 as int) =~= v@.subrange(
                        p as int,
                        i as int,
                    ).push(ch));
                    i += 1;
                }
                let ghost old_out = out.deep_view();
                let ghost piece_v = piece@;
                out.push(piece);
                proof {
                    let tail = v@.skip(p as int);
                    assert(forall|j: int| 0 <= j < tail.len() ==> tail[j] == v@[j + p]);
                    lemma_split_char_unfold(tail, c, q - p);
                    assert(tail.take(q - p) =~= piece_v);
                    assert(tail.skip(q - p + 1) =~= v@.skip(q + 1));
                    assert(out.deep_view() =~~= old_out + seq![piece_v]);
                    assert((old_out + seq![piece_v]) + split_char(v@.skip(q + 1), c) =~~= old_out
                        + (seq![tail.take(q - p)] + split_char(tail.skip(q - p + 1), c)));
                    assert(out.deep_view() + split_char(v@.skip(q + 1), c) =~~= split_char(v@, c));
                }
                p = q + 1;
            },
            None => {
                let mut piece: Vec<char> = Vec::new();
                let mut i: usize = p;
                while i < n
                    invariant
                        p <= i <= n,
                        n == v.len(),
                        piece@ == v@.subrange(p as int, i as int),
                    decreases n - i,
                {
                    let ch = v[i];
                    piece.push(ch);
                    assert(v@.subrange(p as int, i + 1 as int) =~= v@.subrange(
                        p as int,
                        i as int,
                    ).push(ch));
                    i += 1;
                }
                let ghost old_out = out.deep_view();
                let ghost piece_v = piece@;
                out.push(piece);
                proof {
                    let tail = v@.skip(p as int);
                    assert(forall|j: int| 0 <= j < tail.len() ==> tail[j] == v@[j + p]);
                    lemma_split_char_whole(tail, c);
                    assert(piece_v =~= tail);
                    assert(out.deep_view() =~~= old_out + seq![piece_v]);
                    assert(out.deep_view() =~~= old_out + split_char(tail, c));
                    assert(out.deep_view() =~~= split_char(v@, c));
                }
                return out;
            },
        }
    }
}

/// The characters of `s`, one per element.
pub fn str_chars(s: &str) -> (r: Vec<char>)
    ensures
        r@ == s@,
{
    let n = s.unicode_len();
    let mut v: Vec<char> = Vec::new();
    let mut i: usize = 0;
    while i < n
        invariant
            0 <= i <= n,
            n == s@.len(),
            v@ == s@.take(i as int),
        decreases n - i,
    {
        let c = s.get_char(i);
        v.push(c);
        assert(s@.take(i + 1 as int) =~= s@.take(i as int).push(c));
        i += 1;
    }
    assert(s@.take(n as int) =~= s@);
    v
}

/// Relies on `String::from_iter` for `char`: the collected string holds
/// exactly the characters of `v` in order.
#[verifier::external_body]
pub fn chars_string(v: &Vec<char>) -> (r: String)
    ensures
        r@ == v@,
{
    v.iter().collect()
}

/// The characters `v[a..b]`, as a new vector.
pub fn copy_range(v: &Vec<char>, a: usize, b: usize) -> (r: Vec<char>)
    requires
        a <= b <= v@.len(),
    ensures
        r@ == v@.subrange(a as int, b as int),
{
    let mut r: Vec<char> = Vec::new();
    let mut i: usize = a;
    while i < b
        invariant
            a <= i <= b <= v@.len(),
            r@ == v@.subrange(a as int, i as int),
        decreases b - i,
    {
        let c = v[i];
        r.push(c);
        assert(v@.subrange(a as int, i + 1 as int) =~= v@.subrange(a as int, i as int).push(c));
        i += 1;
    }
    r
}

/// Append all characters of `src` to `dst`.
pub fn push_all(dst: &mut Vec<char>, src: &Vec<char>)
    ensures
        final(dst)@ == old(dst)@ + src@,
{
    let n = src.len();
    let mut i: usize = 0;
    while i < n
        invariant
            0 <= i <= n,
            n == src.len(),
            dst@ == old(dst)@ + src@.take(i as int),
        decreases n - i,
    {
        let c = src[i];
        dst.push(c);
        assert(old(dst)@ + src@.take(i + 1 as int) =~= (old(dst)@ + src@.take(i as int)).push(c));
        i += 1;
    }
    assert(src@.take(n as int) =~= src@);
}

/// Whether two strings hold the same characters.
pub fn str_eq(a: &str, b: &str) -> (r: bool)
    ensures
        r == (a@ == b@),
{
    let na = a.unicode_len();
    let nb = b.unicode_len();
    if na != nb {
        proof {
            assert(a@.len() != b@.len());
        }
        return false;
    }
    let mut i: usize = 0;
    while i < na
        invariant
            0 <= i <= na,
            na == a@.len(),
            na == b@.len(),
            forall|j: int| 0 <= j < i ==> a@[j] == b@[j],
        decreases na - i,
    {
        if a.get_char(i) != b.get_char(i) {
            return false;
        }
        i += 1;
    }
    proof {
        assert(a@ =~= b@);
    }
    true
}

/// An ASCII decimal digit.
pub open spec fn is_digit_char(c: char) -> bool {
    48 <= (c as u32) && (c as u32) <= 57
}

pub fn is_digit(c: char) -> (r: bool)
    ensures
        r == is_digit_char(c),
{
    let u = c as u32;
    48 <= u && u <= 57
}

/// Whether every character of `v` is an ASCII decimal digit.
pub fn all_digits_exec(v: &Vec<char>) -> (r: bool)
    ensures
        r == all_digits(v@),
{
    let n = v.len();
    let mut i: usize = 0;
    while i < n
        invariant
            0 <= i <= n,
            n == v.len(),
            forall|j: int| 0 <= j < i ==> is_digit_char(#[trigger] v@[j]),
        decreases n - i,
    {
        if !is_digit(v[i]) {
            proof {
                assert(!is_digit_char(v@[i as int]));
            }
            return false;
        }
        i += 1;
    }
    true
}

/// Numeric value of one digit character.
pub open spec fn digit_val(c: char) -> int {
    (c as u32) - 48
}

pub open spec fn all_digits(s: Seq<char>) -> bool {
    forall|i: int| 0 <= i < s.len() ==> is_digit_char(s[i])
}

/// Value of a digit sequence read in base ten.
pub open spec fn digits_val(s: Seq<char>) -> int
    decreases s.len(),
{
    if s.len() == 0 {
        0
    } else {
        digits_val(s.drop_last()) * 10 + digit_val(s.last())
    }
}

pub proof fn lemma_digits_val_nonneg(s: Seq<char>)
    requires
        all_digits(s),
    ensures
        digits_val(s) >= 0,
    decreases s.len(),
{
    if s.len() > 0 {
        assert(all_digits(s.drop_last()));
        lemma_digits_val_nonneg(s.drop_last());
    }
}

/// Along a digit sequence, every prefix reads as at most the whole.
pub proof fn lemma_digits_val_prefix_le(s: Seq<char>, k: int)
    requires
        all_digits(s),
        0 <= k <= s.len(),
    ensures
        digits_val(s.take(k)) <= digits_val(s),
    decreases s.len() - k,
{
    if k == s.len() {
        assert(s.take(k) =~= s);
    } else {
        lemma_digits_val_prefix_le(s, k + 1);
        let t = s.take(k + 1);
        assert(all_digits(t));
        assert(t.drop_last() =~= s.take(k));
        lemma_digits_val_nonneg(s.take(k));
        assert(digits_val(t) == digits_val(s.take(k)) * 10 + digit_val(t.last()));
    }
}

/// The value a decimal integer literal denotes: an optional sign followed
/// by at least one digit, with no bound applied. `None` when the text is
/// not such a literal.
pub open spec fn int_literal_val(s: Seq<char>) -> Option<int> {
    if s.len() == 0 {
        Option::None
    } else if s[0] == '+' || s[0] == '-' {
        let d = s.drop_first();
        if d.len() > 0 && all_digits(d) {
            Option::Some(
                if s[0] == '-' {
                    -digits_val(d)
                } else {
                    digits_val(d)
                },
            )
        } else {
            Option::None
        }
    } else if all_digits(s) {
        Option::Some(digits_val(s))
    } else {
        Option::None
    }
}

/// What `str::parse::<i32>` yields on `s`: the literal's value when it
/// is one and fits a 32-bit signed integer.
pub open spec fn i32_of_text(s: Seq<char>) -> Option<i32> {
    match int_literal_val(s) {
        Option::Some(v) => if -0x8000_0000 <= v && v < 0x8000_0000 {
            Option::Some(v as i32)
        } else {
            Option::None
        },
        Option::None => Option::None,
    }
}

/// Read the digit part `v[start..]` into a value, `None` on any non-digit
/// or once the value can no longer fit a 32-bit signed integer.
pub fn parse_digits(v: &Vec<char>, start: usize) -> (r: Option<u64>)
    requires
        start <= v@.len(),
    ensures
        match r {
            Some(x) => {
                &&& v@.skip(start as int).len() > 0
                &&& all_digits(v@.skip(start as int))
                &&& x == digits_val(v@.skip(start as int))
                &&& x <= 0x8000_0000u64
            },
            None => v@.skip(start as int).len() == 0 || !all_digits(v@.skip(start as int))
                || digits_val(v@.skip(start as int)) > 0x8000_0000,
        },
{
    let ghost d = v@.skip(start as int);
    let n = v.len();
    if start == n {
        return None;
    }
    let mut acc: u64 = 0;
    let mut i: usize = start;
    while i < n
        invariant
            start <= i <= n,
            n == v.len(),
            d == v@.skip(start as int),
            all_digits(d.take(i - start)),
            acc == digits_val(d.take(i - start)),
            acc <= 0x8000_0000u64,
        decreases n - i,
    {
        let c = v[i];
        proof {
            assert(d[i - start] == v@[i as int]);
        }
        if !is_digit(c) {
            proof {
                assert(!is_digit_char(d[i - start]));
            }
            return None;
        }
        let dv: u64 = (c as u32 as u64) - 48;
        proof {
            assert(d.take(i - start + 1).drop_last() =~= d.take(i - start));
            assert(d.take(i - start + 1).last() == d[i - start]);
        }
        acc = acc * 10 + dv;
        i += 1;
        if acc > 0x8000_0000 {
            // the prefix already read exceeds the bound, so the whole does
            proof {
                if all_digits(d) {
                    lemma_digits_val_prefix_le(d, i - start);
                }
            }
            return None;
        }
    }
    proof {
        assert(d.take(n - start) =~= d);
    }
    Some(acc)
}

/// What `str::parse::<i32>` yields on the characters of `v`.
pub fn parse_i32(v: &Vec<char>) -> (r: Option<i32>)
    ensures
        r == i32_of_text(v@),
{
    let n = v.len();
    if n == 0 {
        return None;
    }
    let first = v[0];
    if first == '+' || first == '-' {
        proof {
            assert(v@.skip(1).len() == v@.len() - 1);
        }
        match parse_digits(v, 1) {
            Some(x) => {
                if first == '-' {
                    if x <= 0x8000_0000 {
                        proof {
                            lemma_digits_val_nonneg(v@.skip(1));
                        }
                        let val: i64 = -(x as i64);
                        Some(val as i32)
                    } else {
                        None
                    }
                } else {
                    if x < 0x8000_0000 {
                        Some(x as i32)
                    } else {
                        None
                    }
                }
            },
            None => {
                proof {
                    if v@.skip(1).len() > 0 && all_digits(v@.skip(1)) {
                        lemma_digits_val_nonneg(v@.skip(1));
                    }
                }
                None
            },
        }
    } else {
        match parse_digits(v, 0) {
            Some(x) => {
                proof {
                    assert(v@.skip(0) =~= v@);
                }
                if x < 0x8000_0000 {
                    Some(x as i32)
                } else {
                    None
                }
            },
            None => {
                proof {
                    assert(v@.skip(0) =~= v@);
                    if all_digits(v@) {
                        lemma_digits_val_nonneg(v@);
                    }
                }
                None
            },
        }
    }
}

/// The digit character for `d`.
pub open spec fn digit_char(d: int) -> char {
    if d == 0 {
        '0'
    } else if d == 1 {
        '1'
    } else if d == 2 {
        '2'
    } else if d == 3 {
        '3'
    } else if d == 4 {
        '4'
    } else if d == 5 {
        '5'
    } else if d == 6 {
        '6'
    } else if d == 7 {
        '7'
    } else if d == 8 {
        '8'
    } else {
        '9'
    }
}

fn digit_char_exec(d: u64) -> (r: char)
    requires
        d < 10,
    ensures
        r == digit_char(d as int),
{
    if d == 0 {
        '0'
    } else if d == 1 {
        '1'
    } else if d == 2 {
        '2'
    } else if d == 3 {
        '3'
    } else if d == 4 {
        '4'
    } else if d == 5 {
        '5'
    } else if d == 6 {
        '6'
    } else if d == 7 {
        '7'
    } else if d == 8 {
        '8'
    } else {
        '9'
    }
}

/// Decimal digits of a non-negative value, no leading zeros beyond the
/// natural representation.
pub open spec fn dec_digits(n: int) -> Seq<char>
    decreases n,
{
    if n < 10 {
        seq![digit_char(n)]
    } else {
        dec_digits(n / 10).push(digit_char(n % 10))
    }
}

/// What formatting an `i32` yields: decimal digits, a sign only when
/// negative.
pub open spec fn int_text(n: int) -> Seq<char> {
    if n < 0 {
        seq!['-'] + dec_digits(-n)
    } else {
        dec_digits(n)
    }
}

pub fn push_dec(n: u64, out: &mut Vec<char>)
    ensures
        final(out)@ == old(out)@ + dec_digits(n as int),
    decreases n,
{
    if n < 10 {
        out.push(digit_char_exec(n));
        assert(out@ =~= old(out)@ + dec_digits(n as int));
    } else {
        push_dec(n / 10, out);
        out.push(digit_char_exec(n % 10));
        assert(out@ =~= old(out)@ + dec_digits(n as int));
    }
}

/// Append the decimal text of `n` to `out`.
pub fn push_i32_text(n: i32, out: &mut Vec<char>)
    ensures
        final(out)@ == old(out)@ + int_text(n as int),
{
    let wide: i64 = n as i64;
    if wide < 0 {
        out.push('-');
        let ghost mid = out@;
        push_dec((-wide) as u64, out);
        assert(out@ =~= old(out)@ + int_text(n as int));
    } else {
        push_dec(wide as u64, out);
    }
}

/// The decimal text of `n`, as `i32` formatting produces it.
pub fn i32_text_chars(n: i32) -> (r: Vec<char>)
    ensures
        r@ == int_text(n as int),
{
    let mut out: Vec<char> = Vec::new();
    push_i32_text(n, &mut out);
    out
}

} // verus!
