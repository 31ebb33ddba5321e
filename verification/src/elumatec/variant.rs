//! The scalar value model of the machine format: a 32-bit integer, an
//! IEEE binary32 number carried as its bit pattern, a text, or nothing.
//! Text coerces to the first of these kinds that accepts it, and every
//! kind renders back to text.
#![allow(unused_imports)]

use vstd::prelude::*;
use vstd::string::StringExecFns;
use rustc_apfloat::Float;
use crate::text::{
    trim_seq, i32_of_text, int_text, i32_text_chars, parse_i32, trim_chars, chars_string,
    str_chars,
};

verus! {

/// One attribute value. `Float` holds the bit pattern of an IEEE
/// binary32 number; the numeric work on such values goes through the
/// trusted items below.
#[derive(Clone, Debug, PartialEq)]
pub enum Variant {
    Int(i32),
    Float(u32),
    String(String),
    Null,
}

/// Mathematical shape of a `Variant`.
pub enum VariantView {
    Int(i32),
    Float(u32),
    String(Seq<char>),
    Null,
}

impl View for Variant {
    type V = VariantView;

    open spec fn view(&self) -> VariantView {
        match self {
            Variant::Int(n) => VariantView::Int(*n),
            Variant::Float(b) => VariantView::Float(*b),
            Variant::String(s) => VariantView::String(s@),
            Variant::Null => VariantView::Null,
        }
    }
}

/// What parsing decimal text as an IEEE binary32 number yields: the bit
/// pattern of the nearest value, or nothing when the text is not float
/// text.
pub uninterp spec fn single_of_text(s: Seq<char>) -> Option<u32>;

/// Relies on rustc_apfloat's `Single::from_str`: a correctly rounded
/// IEEE binary32 parse that depends on the characters alone. It accepts
/// decimal text (optional sign, digits with an optional dot, an optional
/// decimal exponent that may be empty), hexadecimal significand text
/// (`0x…p…`), and the spellings `inf`, `Inf`, `INFINITY`, `nan`, `NaN`
/// with optional payloads; it fails on everything else. The verified
/// coercion gates what reaches it through its own grammar.
#[verifier::external_body]
fn parse_single(s: &str) -> (r: Option<u32>)
    ensures
        r == single_of_text(s@),
{
    s.parse::<rustc_apfloat::ieee::Single>().ok().map(|f| f.to_bits() as u32)
}

/// What rendering an IEEE binary32 bit pattern as decimal text with the
/// given number of significant digits yields.
pub uninterp spec fn single_text_prec(bits: u32, p: u32) -> Seq<char>;

/// Relies on rustc_apfloat's `Display` for `Single` with an explicit
/// precision: a decimal rendering with at most `p` significant digits
/// that depends on the bit pattern and the precision alone, with no
/// forced trailing `.0` (the zero pattern renders as `0`). The width
/// flag is its tolerance for laying zeros out plainly; 45 covers every
/// binary32 magnitude. A precision of zero is left out: there the
/// rendering code can discard every digit and abort on its emptied
/// buffer.
#[verifier::external_body]
fn render_single_prec(bits: u32, p: u32) -> (r: String)
    requires
        1 <= p,
    ensures
        r@ == single_text_prec(bits, p),
{
    format!("{:45.*}", p as usize, rustc_apfloat::ieee::Single::from_bits(bits as u128))
}

/// The NaN bit patterns: exponent all ones, significand not zero.
pub open spec fn is_nan_bits(bits: u32) -> bool {
    (bits >> 23) & 0xFF == 0xFF && bits & 0x7F_FFFF != 0
}

/// `n` zero characters.
pub open spec fn zero_chars(n: int) -> Seq<char> {
    Seq::new(
        if n >= 0 {
            n as nat
        } else {
            0
        },
        |i: int| '0',
    )
}

/// Scientific notation `D.D…E+X` laid out as a plain integer: the
/// digits followed by the zeros the exponent calls for. Text of any
/// other shape — plain text in particular — is kept as it stands.
pub open spec fn expand_sci(s: Seq<char>) -> Seq<char> {
    let e = crate::text::find_char(s, 'E');
    if e < 0 {
        s
    } else {
        let p0: int = if s.len() > 0 && s[0] == '-' {
            1
        } else {
            0
        };
        if p0 + 2 <= e && e + 2 < s.len() && crate::text::is_digit_char(s[p0]) && s[p0 + 1] == '.'
            && s[e + 1] == '+' && crate::text::all_digits(s.subrange(p0 + 2, e))
            && crate::text::all_digits(s.skip(e + 2)) {
            let rest = s.subrange(p0 + 2, e);
            let rest_eff: Seq<char> = if rest == seq!['0'] {
                Seq::<char>::empty()
            } else {
                rest
            };
            let ex = crate::text::digits_val(s.skip(e + 2));
            if rest_eff.len() <= ex <= 100 {
                let sign: Seq<char> = if p0 == 1 {
                    seq!['-']
                } else {
                    Seq::<char>::empty()
                };
                sign + seq![s[p0]] + rest_eff + zero_chars(ex - rest_eff.len())
            } else {
                s
            }
        } else {
            s
        }
    }
}

/// The decimal text a finite float value renders as: the fewest
/// significant digits that read back as the same bit pattern — nine
/// always do — with any scientific form laid out plainly.
pub open spec fn float_text_from(bits: u32, p: u32) -> Seq<char>
    decreases 9 - p,
{
    if p >= 9 {
        expand_sci(single_text_prec(bits, 9))
    } else if single_of_text(single_text_prec(bits, p)) == Some(bits) {
        expand_sci(single_text_prec(bits, p))
    } else {
        float_text_from(bits, (p + 1) as u32)
    }
}

/// The text a float value renders as: `inf`, `-inf` and `NaN` for the
/// non-finite patterns, else the shortest plain faithful decimal text.
pub open spec fn float_text(bits: u32) -> Seq<char> {
    if is_nan_bits(bits) {
        ("NaN")@
    } else if bits == 0x7F80_0000 {
        ("inf")@
    } else if bits == 0xFF80_0000 {
        ("-inf")@
    } else {
        float_text_from(bits, 1)
    }
}

/// Render a float value as its text.
fn float_string(bits: u32) -> (r: String)
    ensures
        r@ == float_text(bits),
{
    let exponent_ones = (bits >> 23) & 0xFF == 0xFF;
    if exponent_ones {
        if bits & 0x7F_FFFF != 0 {
            return "NaN".to_owned();
        }
        if bits == 0x7F80_0000 {
            return "inf".to_owned();
        }
        proof {
            assert(bits == 0xFF80_0000) by (bit_vector)
                requires
                    (bits >> 23) & 0xFF == 0xFF,
                    bits & 0x7F_FFFF == 0,
                    bits != 0x7F80_0000,
            ;
        }
        return "-inf".to_owned();
    }
    proof {
        assert(!is_nan_bits(bits));
        assert(bits != 0x7F80_0000 && bits != 0xFF80_0000) by (bit_vector)
            requires
                (bits >> 23) & 0xFF != 0xFF,
        ;
    }
    let mut p: u32 = 1;
    while p < 9
        invariant
            1 <= p <= 9,
            float_text(bits) == float_text_from(bits, p),
            !is_nan_bits(bits) && bits != 0x7F80_0000 && bits != 0xFF80_0000,
        decreases 9 - p,
    {
        let s = render_single_prec(bits, p);
        match parse_single(s.as_str()) {
            Some(b) => {
                if b == bits {
                    return expand_sci_string(s);
                }
            },
            None => {},
        }
        p += 1;
    }
    let s = render_single_prec(bits, 9);
    expand_sci_string(s)
}

/// Lay a scientific rendering out as plain text; anything else passes
/// through unchanged.
fn expand_sci_string(s: String) -> (r: String)
    ensures
        r@ == expand_sci(s@),
{
    let v = str_chars(s.as_str());
    let n = v.len();
    proof {
        crate::text::lemma_find_char(v@, 'E');
    }
    let e = match crate::text::find_from(&v, 0, 'E') {
        None => {
            proof {
                assert(crate::text::find_char(v@, 'E') == -1) by {
                    if crate::text::find_char(v@, 'E') >= 0 {
                        assert(v@[crate::text::find_char(v@, 'E')] == 'E');
                    }
                }
            }
            return s;
        },
        Some(e) => {
            proof {
                assert(crate::text::find_char(v@, 'E') == e) by {
                    let f = crate::text::find_char(v@, 'E');
                    if f < 0 {
                        assert(v@[e as int] == 'E');
                    } else if f < e {
                        assert(v@[f] != 'E');
                    } else if f > e {
                        assert(v@[e as int] == 'E');
                    }
                }
            }
            e
        },
    };
    let p0: usize = if n > 0 && v[0] == '-' {
        1
    } else {
        0
    };
    if !(p0 + 2 <= e && n - e > 2) {
        proof {
            assert(!(p0 + 2 <= e && e + 2 < v@.len()));
        }
        return s;
    }
    if !(crate::text::is_digit(v[p0]) && v[p0 + 1] == '.' && v[e + 1] == '+') {
        return s;
    }
    let rest = crate::text::copy_range(&v, p0 + 2, e);
    let xd = crate::text::copy_range(&v, e + 2, n);
    proof {
        assert(rest@ =~= v@.subrange(p0 + 2, e as int));
        assert(xd@ =~= v@.skip(e + 2));
    }
    if !crate::text::all_digits_exec(&rest) || !crate::text::all_digits_exec(&xd) {
        return s;
    }
    proof {
        assert(xd@.skip(0) =~= xd@);
    }
    let ex = match crate::text::parse_digits(&xd, 0) {
        Some(x) => x,
        None => {
            // the exponent digits read beyond any 32-bit value, far
            // over the bound that expansion accepts
            proof {
                if crate::text::all_digits(xd@) && xd@.len() > 0 {
                    assert(crate::text::digits_val(xd@) > 0x8000_0000);
                }
            }
            return s;
        },
    };
    if ex > 100 {
        return s;
    }
    let rest_is_zero = rest.len() == 1 && rest[0] == '0';
    proof {
        if rest_is_zero {
            assert(rest@ =~= seq!['0']);
        } else {
            assert(rest@ != seq!['0']) by {
                if rest@ == seq!['0'] {
                    assert(rest@.len() == 1 && rest@[0] == '0');
                }
            }
        }
    }
    let eff_len: usize = if rest_is_zero {
        0
    } else {
        rest.len()
    };
    if (eff_len as u64) > ex {
        return s;
    }
    let mut out: Vec<char> = Vec::new();
    if p0 == 1 {
        out.push('-');
    }
    out.push(v[p0]);
    if !rest_is_zero {
        crate::text::push_all(&mut out, &rest);
    }
    let ghost rest_eff: Seq<char> = if rest@ == seq!['0'] {
        Seq::<char>::empty()
    } else {
        rest@
    };
    let ghost head = out@;
    let pad = ex - (eff_len as u64);
    let mut z: u64 = 0;
    proof {
        assert(out@ =~= head + zero_chars(0));
    }
    while z < pad
        invariant
            0 <= z <= pad,
            pad == ex - eff_len,
            out@ == head + zero_chars(z as int),
        decreases pad - z,
    {
        out.push('0');
        proof {
            assert(out@ =~= head + zero_chars(z + 1));
        }
        z += 1;
    }
    proof {
        assert(out@ =~= expand_sci(v@));
    }
    crate::text::chars_string(&out)
}

/// What IEEE binary32 addition yields, on bit patterns.
pub uninterp spec fn single_add(a: u32, b: u32) -> u32;

/// Relies on rustc_apfloat's `add_r` for `Single` with round to nearest,
/// ties to even: IEEE binary32 addition, a function of the two bit
/// patterns.
#[verifier::external_body]
pub fn add_single(a: u32, b: u32) -> (r: u32)
    ensures
        r == single_add(a, b),
{
    let x = rustc_apfloat::ieee::Single::from_bits(a as u128);
    let y = rustc_apfloat::ieee::Single::from_bits(b as u128);
    x.add_r(y, rustc_apfloat::Round::NearestTiesToEven).value.to_bits() as u32
}

/// One surrounding layer of double quotes removed, when present.
pub open spec fn strip_quotes(s: Seq<char>) -> Seq<char> {
    if s.len() >= 2 && s[0] == '"' && s[s.len() - 1] == '"' {
        s.subrange(1, s.len() - 1)
    } else {
        s
    }
}

/// The code of `c`, an ASCII capital folded to small.
pub open spec fn folded_code(c: char) -> int {
    if 65 <= c as u32 && c as u32 <= 90 {
        c as u32 + 32
    } else {
        c as u32 as int
    }
}

fn fold_code(c: char) -> (r: u32)
    ensures
        r as int == folded_code(c),
{
    let u = c as u32;
    if 65 <= u && u <= 90 {
        u + 32
    } else {
        u
    }
}

/// The word `inf`, in any ASCII case.
pub open spec fn is_inf_word(t: Seq<char>) -> bool {
    t.len() == 3 && folded_code(t[0]) == 105 && folded_code(t[1]) == 110 && folded_code(t[2])
        == 102
}

/// The word `infinity`, in any ASCII case.
pub open spec fn is_infinity_word(t: Seq<char>) -> bool {
    t.len() == 8 && folded_code(t[0]) == 105 && folded_code(t[1]) == 110 && folded_code(t[2])
        == 102 && folded_code(t[3]) == 105 && folded_code(t[4]) == 110 && folded_code(t[5]) == 105
        && folded_code(t[6]) == 116 && folded_code(t[7]) == 121
}

/// The word `nan`, in any ASCII case.
pub open spec fn is_nan_word(t: Seq<char>) -> bool {
    t.len() == 3 && folded_code(t[0]) == 110 && folded_code(t[1]) == 97 && folded_code(t[2])
        == 110
}

/// Whether the text opens with a minus, and the text after any sign.
pub open spec fn sign_split(t: Seq<char>) -> (bool, Seq<char>) {
    if t.len() > 0 && (t[0] == '+' || t[0] == '-') {
        (t[0] == '-', t.drop_first())
    } else {
        (false, t)
    }
}

/// What a spelled-out infinity or NaN coerces to: the special bit
/// pattern, matched without regard to ASCII case; nothing for any
/// other text.
pub open spec fn special_float_bits(t: Seq<char>) -> Option<u32> {
    let s = sign_split(t);
    if is_inf_word(s.1) || is_infinity_word(s.1) {
        Some(
            if s.0 {
                0xFF80_0000u32
            } else {
                0x7F80_0000u32
            },
        )
    } else if is_nan_word(s.1) {
        Some(
            if s.0 {
                0xFFC0_0000u32
            } else {
                0x7FC0_0000u32
            },
        )
    } else {
        None
    }
}

/// Digits around at most one dot, at least one digit in all.
pub open spec fn is_mantissa(s: Seq<char>) -> bool {
    let dot = crate::text::find_char(s, '.');
    if dot < 0 {
        s.len() >= 1 && crate::text::all_digits(s)
    } else {
        let ip = s.take(dot);
        let fp = s.skip(dot + 1);
        crate::text::find_char(fp, '.') == -1 && crate::text::all_digits(ip)
            && crate::text::all_digits(fp) && ip.len() + fp.len() >= 1
    }
}

/// Position of the first exponent marker `e` or `E`, or -1.
pub open spec fn exp_marker_pos(s: Seq<char>) -> int {
    let e1 = crate::text::find_char(s, 'e');
    let e2 = crate::text::find_char(s, 'E');
    if e1 < 0 {
        e2
    } else if e2 < 0 {
        e1
    } else if e1 < e2 {
        e1
    } else {
        e2
    }
}

/// Decimal float text: an optional sign, a mantissa of digits around at
/// most one dot, and an optional exponent part of `e` or `E`, an
/// optional sign and at least one digit.
pub open spec fn is_decimal_float_text(t: Seq<char>) -> bool {
    let s = sign_split(t).1;
    let ep = exp_marker_pos(s);
    if ep < 0 {
        is_mantissa(s)
    } else {
        let ex = sign_split(s.skip(ep + 1));
        is_mantissa(s.take(ep)) && ex.1.len() >= 1 && crate::text::all_digits(ex.1)
    }
}

/// What coercing text to a value yields. Total: the trimmed text is
/// nothing, else an integer if 32-bit integer text, else a float if a
/// spelled-out infinity or NaN or decimal float text, else text with
/// one layer of surrounding quotes removed.
pub open spec fn coerce_spec(raw: Seq<char>) -> VariantView {
    let t = trim_seq(raw);
    if t.len() == 0 {
        VariantView::Null
    } else if i32_of_text(t) is Some {
        VariantView::Int(i32_of_text(t)->0)
    } else if special_float_bits(t) is Some {
        VariantView::Float(special_float_bits(t)->0)
    } else if is_decimal_float_text(t) && single_of_text(t) is Some {
        VariantView::Float(single_of_text(t)->0)
    } else {
        VariantView::String(strip_quotes(t))
    }
}

/// What rendering a value yields: decimal digits for an integer, the
/// binary32 decimal text for a float, the text in double quotes for a
/// text, nothing for `Null`.
pub open spec fn render_spec(v: VariantView) -> Seq<char> {
    match v {
        VariantView::Int(n) => int_text(n as int),
        VariantView::Float(b) => float_text(b),
        VariantView::String(s) => seq!['"'] + s + seq!['"'],
        VariantView::Null => Seq::<char>::empty(),
    }
}

/// The special bit pattern this text spells out, if any.
fn special_bits_exec(t: &Vec<char>) -> (r: Option<u32>)
    ensures
        r == special_float_bits(t@),
{
    let n = t.len();
    let mut start: usize = 0;
    let mut neg = false;
    if n > 0 && (t[0] == '+' || t[0] == '-') {
        neg = t[0] == '-';
        start = 1;
    }
    let ghost rest = sign_split(t@).1;
    proof {
        assert(rest =~= t@.skip(start as int));
    }
    let m = n - start;
    if m == 3 {
        let c0 = fold_code(t[start]);
        let c1 = fold_code(t[start + 1]);
        let c2 = fold_code(t[start + 2]);
        proof {
            assert(rest[0] == t@[start as int]);
            assert(rest[1] == t@[start + 1]);
            assert(rest[2] == t@[start + 2]);
        }
        if c0 == 105 && c1 == 110 && c2 == 102 {
            return Some(
                if neg {
                    0xFF80_0000
                } else {
                    0x7F80_0000
                },
            );
        }
        if c0 == 110 && c1 == 97 && c2 == 110 {
            return Some(
                if neg {
                    0xFFC0_0000
                } else {
                    0x7FC0_0000
                },
            );
        }
        None
    } else if m == 8 {
        let mut word = true;
        let expect: [u32; 8] = [105, 110, 102, 105, 110, 105, 116, 121];
        let mut i: usize = 0;
        while i < 8
            invariant
                0 <= i <= 8,
                n == t@.len(),
                start + 8 == n,
                rest =~= t@.skip(start as int),
                rest.len() == 8,
                expect@ =~= seq![105u32, 110u32, 102u32, 105u32, 110u32, 105u32, 116u32, 121u32],
                word ==> forall|j: int|
                    0 <= j < i ==> folded_code(#[trigger] rest[j]) == expect@[j],
                !word ==> exists|j: int|
                    0 <= j < rest.len() && folded_code(#[trigger] rest[j]) != expect@[j],
            decreases 8 - i,
        {
            proof {
                assert(rest[i as int] == t@[start + i]);
            }
            if fold_code(t[start + i]) != expect[i] {
                word = false;
            }
            i += 1;
        }
        if word {
            proof {
                assert(is_infinity_word(rest));
            }
            Some(
                if neg {
                    0xFF80_0000
                } else {
                    0x7F80_0000
                },
            )
        } else {
            proof {
                assert(!is_infinity_word(rest));
            }
            None
        }
    } else {
        None
    }
}

/// Whether `v` holds only digits around at most one dot, with at least
/// one digit.
fn is_mantissa_exec(v: &Vec<char>) -> (r: bool)
    ensures
        r == is_mantissa(v@),
{
    let n = v.len();
    proof {
        crate::text::lemma_find_char(v@, '.');
    }
    match crate::text::find_from(v, 0, '.') {
        None => {
            proof {
                assert(crate::text::find_char(v@, '.') == -1) by {
                    if crate::text::find_char(v@, '.') >= 0 {
                        assert(v@[crate::text::find_char(v@, '.')] == '.');
                    }
                }
            }
            n >= 1 && crate::text::all_digits_exec(v)
        },
        Some(d) => {
            proof {
                assert(crate::text::find_char(v@, '.') == d) by {
                    let f = crate::text::find_char(v@, '.');
                    if f < 0 {
                        assert(v@[d as int] == '.');
                    } else if f < d {
                        assert(v@[f] != '.');
                    } else if f > d {
                        assert(v@[d as int] == '.');
                    }
                }
            }
            let ip = crate::text::copy_range(v, 0, d);
            let fp = crate::text::copy_range(v, d + 1, n);
            proof {
                assert(ip@ =~= v@.take(d as int));
                assert(fp@ =~= v@.skip(d + 1));
                crate::text::lemma_find_char(fp@, '.');
            }
            let fp_clean = match crate::text::find_from(&fp, 0, '.') {
                None => {
                    proof {
                        assert(crate::text::find_char(fp@, '.') == -1) by {
                            if crate::text::find_char(fp@, '.') >= 0 {
                                assert(fp@[crate::text::find_char(fp@, '.')] == '.');
                            }
                        }
                    }
                    true
                },
                Some(q) => {
                    proof {
                        assert(fp@[q as int] == '.');
                    }
                    false
                },
            };
            fp_clean && crate::text::all_digits_exec(&ip) && crate::text::all_digits_exec(&fp) && (
            ip.len() + fp.len() >= 1)
        },
    }
}

/// Whether `v` is decimal float text.
fn is_decimal_exec(v: &Vec<char>) -> (r: bool)
    ensures
        r == is_decimal_float_text(v@),
{
    let n = v.len();
    let mut start: usize = 0;
    if n > 0 && (v[0] == '+' || v[0] == '-') {
        start = 1;
    }
    let ghost s = sign_split(v@).1;
    proof {
        assert(s =~= v@.skip(start as int));
    }
    // first exponent marker at or after the sign
    let mut i: usize = start;
    let mut marker: Option<usize> = None;
    while i < n && marker.is_none()
        invariant
            start <= i <= n,
            n == v@.len(),
            marker is None ==> forall|j: int|
                start <= j < i ==> (#[trigger] v@[j]) != 'e' && v@[j] != 'E',
            match marker {
                Some(mp) => start <= mp < n && (v@[mp as int] == 'e' || v@[mp as int] == 'E')
                    && forall|j: int|
                    start <= j < mp ==> (#[trigger] v@[j]) != 'e' && v@[j] != 'E',
                None => true,
            },
        decreases n - i + (if marker is None {
            1int
        } else {
            0int
        }),
    {
        if v[i] == 'e' || v[i] == 'E' {
            marker = Some(i);
        } else {
            i += 1;
        }
    }
    proof {
        crate::text::lemma_find_char(s, 'e');
        crate::text::lemma_find_char(s, 'E');
        assert(forall|j: int| 0 <= j < s.len() ==> #[trigger] s[j] == v@[j + start]);
    }
    match marker {
        None => {
            proof {
                let e1 = crate::text::find_char(s, 'e');
                let e2 = crate::text::find_char(s, 'E');
                if e1 >= 0 {
                    assert(s[e1] == 'e');
                    assert(v@[e1 + start] == 'e');
                }
                if e2 >= 0 {
                    assert(s[e2] == 'E');
                    assert(v@[e2 + start] == 'E');
                }
                assert(exp_marker_pos(s) < 0);
            }
            let mant = crate::text::copy_range(v, start, n);
            proof {
                assert(mant@ =~= s);
            }
            is_mantissa_exec(&mant)
        },
        Some(mp) => {
            let ghost mrel = mp - start;
            proof {
                let e1 = crate::text::find_char(s, 'e');
                let e2 = crate::text::find_char(s, 'E');
                assert(s[mrel as int] == v@[mp as int]);
                if v@[mp as int] == 'e' {
                    assert(e1 == mrel) by {
                        if e1 < 0 {
                            assert(s[mrel as int] == 'e');
                        } else if e1 < mrel {
                            assert(v@[e1 + start] == 'e');
                        } else if e1 > mrel {
                            assert(s[mrel as int] != 'e');
                        }
                    }
                    if e2 >= 0 && e2 < mrel {
                        assert(v@[e2 + start] == 'E');
                    }
                    assert(exp_marker_pos(s) == mrel);
                } else {
                    assert(e2 == mrel) by {
                        if e2 < 0 {
                            assert(s[mrel as int] == 'E');
                        } else if e2 < mrel {
                            assert(v@[e2 + start] == 'E');
                        } else if e2 > mrel {
                            assert(s[mrel as int] != 'E');
                        }
                    }
                    if e1 >= 0 && e1 < mrel {
                        assert(v@[e1 + start] == 'e');
                    }
                    assert(exp_marker_pos(s) == mrel);
                }
            }
            let mant = crate::text::copy_range(v, start, mp);
            proof {
                assert(mant@ =~= s.take(mrel as int));
            }
            if !is_mantissa_exec(&mant) {
                return false;
            }
            // exponent: optional sign, then at least one digit
            let ghost etail = s.skip(mrel + 1);
            let mut estart = mp + 1;
            if estart < n && (v[estart] == '+' || v[estart] == '-') {
                estart += 1;
            }
            let digits = crate::text::copy_range(v, estart, n);
            proof {
                assert(etail =~= v@.skip(mp + 1));
                assert(digits@ =~= sign_split(etail).1);
            }
            digits.len() >= 1 && crate::text::all_digits_exec(&digits)
        },
    }
}

impl Variant {
    /// Coerce text to a value; never fails.
    pub fn from(value: &str) -> (r: Variant)
        ensures
            r@ == coerce_spec(value@),
    {
        let chars = str_chars(value);
        Variant::from_chars(&chars)
    }

    /// Coerce characters to a value; never fails.
    pub fn from_chars(raw: &Vec<char>) -> (r: Variant)
        ensures
            r@ == coerce_spec(raw@),
    {
        let t = trim_chars(raw);
        if t.len() == 0 {
            return Variant::Null;
        }
        match parse_i32(&t) {
            Some(n) => Variant::Int(n),
            None => {
                match special_bits_exec(&t) {
                    Some(b) => Variant::Float(b),
                    None => {
                        if is_decimal_exec(&t) {
                            let s = chars_string(&t);
                            match parse_single(s.as_str()) {
                                Some(bits) => Variant::Float(bits),
                                None => {
                                    let stripped = strip_quotes_chars(&t);
                                    Variant::String(chars_string(&stripped))
                                },
                            }
                        } else {
                            let stripped = strip_quotes_chars(&t);
                            Variant::String(chars_string(&stripped))
                        }
                    },
                }
            },
        }
    }

    /// Render this value as text.
    pub fn to_string(&self) -> (r: String)
        ensures
            r@ == render_spec(self@),
    {
        match self {
            Variant::Int(n) => {
                let digits = i32_text_chars(*n);
                chars_string(&digits)
            },
            Variant::Float(b) => float_string(*b),
            Variant::String(s) => {
                let mut out = String::new();
                proof {
                    reveal_strlit("\"");
                }
                out.append("\"");
                out.append(s.as_str());
                out.append("\"");
                proof {
                    assert(out@ =~= seq!['"'] + s@ + seq!['"']);
                }
                out
            },
            Variant::Null => String::new(),
        }
    }
}

/// Copy of `v` with one surrounding layer of double quotes removed.
fn strip_quotes_chars(v: &Vec<char>) -> (r: Vec<char>)
    ensures
        r@ == strip_quotes(v@),
{
    let n = v.len();
    if n >= 2 && v[0] == '"' && v[n - 1] == '"' {
        let mut r: Vec<char> = Vec::new();
        let mut i: usize = 1;
        while i < n - 1
            invariant
                1 <= i <= n - 1,
                n == v.len(),
                r@ == v@.subrange(1, i as int),
            decreases n - i,
        {
            let c = v[i];
            r.push(c);
            assert(v@.subrange(1, i + 1 as int) =~= v@.subrange(1, i as int).push(c));
            i += 1;
        }
        r
    } else {
        let mut r: Vec<char> = Vec::new();
        let mut i: usize = 0;
        while i < n
            invariant
                0 <= i <= n,
                n == v.len(),
                r@ == v@.subrange(0, i as int),
            decreases n - i,
        {
            let c = v[i];
            r.push(c);
            assert(v@.subrange(0, i + 1 as int) =~= v@.subrange(0, i as int).push(c));
            i += 1;
        }
        assert(r@ =~= v@);
        r
    }
}

/// Coercion classifies kinds in a fixed order: nothing, then 32-bit
/// integer text, then float text — a spelled-out infinity or NaN, or
/// decimal float text — then plain text. Numeric text without quotes
/// never coerces to `String`, and integer text never coerces to
/// `Float`.
pub proof fn lemma_coerce_order(raw: Seq<char>)
    ensures
        trim_seq(raw).len() == 0 ==> coerce_spec(raw) == VariantView::Null,
        trim_seq(raw).len() > 0 && i32_of_text(trim_seq(raw)) is Some ==> coerce_spec(raw)
            == VariantView::Int(i32_of_text(trim_seq(raw))->0),
        trim_seq(raw).len() > 0 && i32_of_text(trim_seq(raw)) is None && special_float_bits(
            trim_seq(raw),
        ) is Some ==> coerce_spec(raw) == VariantView::Float(special_float_bits(trim_seq(raw))->0),
        trim_seq(raw).len() > 0 && i32_of_text(trim_seq(raw)) is None && special_float_bits(
            trim_seq(raw),
        ) is None && is_decimal_float_text(trim_seq(raw)) && single_of_text(trim_seq(raw)) is Some
            ==> coerce_spec(raw) == VariantView::Float(single_of_text(trim_seq(raw))->0),
        trim_seq(raw).len() > 0 && i32_of_text(trim_seq(raw)) is None && special_float_bits(
            trim_seq(raw),
        ) is None && (!is_decimal_float_text(trim_seq(raw)) || single_of_text(
            trim_seq(raw),
        ) is None) ==> coerce_spec(raw) == VariantView::String(strip_quotes(trim_seq(raw))),
{
}

} // verus!
