//! Numbers, points and domain parameters written in hexadecimal.

use crate::bignum::{big_add, big_mul, BigNum};
use crate::curve::{CurveParameters, CurvePoint, CurveSpec, PointView};
use vstd::prelude::*;
use vstd::string::*;

verus! {

/// The value of a hexadecimal digit, in either case.
pub open spec fn hex_digit_value(c: char) -> Option<u8> {
    let v = c as u32;
    if 48 <= v <= 57 {
        Some((v - 48) as u8)
    } else if 97 <= v <= 102 {
        Some((v - 87) as u8)
    } else if 65 <= v <= 70 {
        Some((v - 55) as u8)
    } else {
        None
    }
}

/// The digits of a hexadecimal text, in order. Spaces between digits are
/// passed over; any other character makes the text invalid.
pub open spec fn hex_digits(s: Seq<char>) -> Option<Seq<u8>>
    decreases s.len(),
{
    if s.len() == 0 {
        Some(Seq::empty())
    } else {
        match hex_digits(s.drop_last()) {
            None => None,
            Some(d) => if s.last() == ' ' {
                Some(d)
            } else {
                match hex_digit_value(s.last()) {
                    Some(v) => Some(d.push(v)),
                    None => None,
                }
            },
        }
    }
}

/// The number that digits spell in base sixteen, most significant first.
pub open spec fn digits_value(d: Seq<u8>) -> nat
    decreases d.len(),
{
    if d.len() == 0 {
        0
    } else {
        digits_value(d.drop_last()) * 16 + d.last() as nat
    }
}

/// The number that a hexadecimal text spells, if it is valid. The empty
/// text spells zero.
pub open spec fn hex_value(s: Seq<char>) -> Option<int> {
    match hex_digits(s) {
        Some(d) => Some(digits_value(d) as int),
        None => None,
    }
}

/// The point that a hexadecimal text spells in the uncompressed form: the
/// digits `04`, then the two coordinates with the same number of digits
/// each.
pub open spec fn hex_point(s: Seq<char>) -> Option<PointView> {
    match hex_digits(s) {
        Some(d) => if d.len() >= 2 && d[0] == 0 && d[1] == 4 && (d.len() - 2) % 2 == 0 {
            let half = (d.len() - 2) / 2;
            Some(
                PointView::Affine {
                    x: digits_value(d.subrange(2, 2 + half)) as int,
                    y: digits_value(d.subrange(2 + half, d.len() as int)) as int,
                },
            )
        } else {
            None
        },
        None => None,
    }
}

fn hex_digit(c: char) -> (r: Option<u8>)
    ensures
        r == hex_digit_value(c),
{
    let v: u32 = c as u32;
    if 48 <= v && v <= 57 {
        Some((v - 48) as u8)
    } else if 97 <= v && v <= 102 {
        Some((v - 87) as u8)
    } else if 65 <= v && v <= 70 {
        Some((v - 55) as u8)
    } else {
        None
    }
}

/// The digits of a hexadecimal text, or `None` where it holds a character
/// that is neither a digit nor a space.
pub fn parse_hex_digits(s: &str) -> (r: Option<Vec<u8>>)
    ensures
        match r {
            Some(d) => hex_digits(s@) == Some(d@),
            None => hex_digits(s@) is None,
        },
{
    let len: usize = s.unicode_len();
    let mut digits: Vec<u8> = Vec::new();
    let mut i: usize = 0;
    assert(s@.take(0) =~= Seq::<char>::empty());
    while i < len
        invariant
            len == s@.len(),
            i <= len,
            hex_digits(s@.take(i as int)) == Some(digits@),
        decreases len - i,
    {
        let c = s.get_char(i);
        proof {
            assert(s@.take(i + 1).drop_last() =~= s@.take(i as int));
            assert(s@.take(i + 1).last() == c);
        }
        if c != ' ' {
            match hex_digit(c) {
                Some(v) => {
                    digits.push(v);
                },
                None => {
                    proof {
                        lemma_hex_digits_prefix(s@, i + 1);
                    }
                    return None;
                },
            }
        }
        i += 1;
    }
    assert(s@.take(i as int) =~= s@);
    Some(digits)
}

/// A text with an invalid prefix is invalid.
proof fn lemma_hex_digits_prefix(s: Seq<char>, i: int)
    requires
        0 <= i <= s.len(),
        hex_digits(s.take(i)) is None,
    ensures
        hex_digits(s) is None,
    decreases s.len() - i,
{
    if i == s.len() {
        assert(s.take(i) =~= s);
    } else {
        assert(s.take(i + 1).drop_last() =~= s.take(i));
        lemma_hex_digits_prefix(s, i + 1);
    }
}

/// The number that the digits from `from` up to `to` spell in base sixteen.
fn number_from_digits(d: &Vec<u8>, from: usize, to: usize) -> (r: BigNum)
    requires
        from <= to <= d@.len(),
    ensures
        r@ == digits_value(d@.subrange(from as int, to as int)),
{
    let sixteen = BigNum::from_u64(16);
    let mut acc = BigNum::from_u64(0);
    let mut i: usize = from;
    assert(d@.subrange(from as int, from as int) =~= Seq::<u8>::empty());
    while i < to
        invariant
            sixteen@ == 16,
            from <= i <= to <= d@.len(),
            acc@ == digits_value(d@.subrange(from as int, i as int)),
        decreases to - i,
    {
        proof {
            assert(d@.subrange(from as int, i + 1).drop_last() =~= d@.subrange(
                from as int,
                i as int,
            ));
        }
        acc = big_add(&big_mul(&acc, &sixteen), &BigNum::from_u64(d[i] as u64));
        i += 1;
    }
    acc
}

impl BigNum {
    /// The number that a hexadecimal text spells: digits in either case,
    /// with spaces allowed between them. `None` for any other character.
    pub fn from_hex(s: &str) -> (r: Option<BigNum>)
        ensures
            crate::residue::option_view(r) == hex_value(s@),
    {
        match parse_hex_digits(s) {
            Some(d) => {
                assert(d@.subrange(0, d@.len() as int) =~= d@);
                Some(number_from_digits(&d, 0, d.len()))
            },
            None => None,
        }
    }
}

impl CurvePoint {
    /// The affine point that a hexadecimal text spells in the uncompressed
    /// form `04 || X || Y`, with spaces allowed between digits. `None`
    /// where the text is no such form.
    pub fn from_hex(s: &str) -> (r: Option<CurvePoint>)
        ensures
            match r {
                Some(pt) => hex_point(s@) == Some(pt@),
                None => hex_point(s@) is None,
            },
    {
        let d = match parse_hex_digits(s) {
            Some(d) => d,
            None => {
                return None;
            },
        };
        let len: usize = d.len();
        if len < 2 || d[0] != 0 || d[1] != 4 || (len - 2) % 2 != 0 {
            return None;
        }
        let half: usize = (len - 2) / 2;
        let x = number_from_digits(&d, 2, 2 + half);
        let y = number_from_digits(&d, 2 + half, len);
        Some(CurvePoint::Affine { x, y })
    }
}

impl CurveParameters {
    /// Domain parameters of cofactor one from the modulus `p`, the base
    /// point `g` (uncompressed form) and its order `n` in hexadecimal, and
    /// the two coefficients. `None` where a text is invalid or the parts
    /// are not valid together.
    pub fn from_hex(p_hex: &str, a: u64, b: u64, g_hex: &str, n_hex: &str) -> (r: Option<
        CurveParameters,
    >)
        ensures
            match r {
                Some(c) => c.wf() && hex_value(p_hex@) == Some(c@.p) && c@.a == a && c@.b == b
                    && hex_point(g_hex@) == Some(c@.g) && hex_value(n_hex@) == Some(c@.n) && c@.h
                    == 1,
                None => hex_value(p_hex@) is None || hex_point(g_hex@) is None || hex_value(n_hex@)
                    is None || !(CurveSpec {
                    p: hex_value(p_hex@)->Some_0,
                    a: a as int,
                    b: b as int,
                    g: hex_point(g_hex@)->Some_0,
                    n: hex_value(n_hex@)->Some_0,
                    h: 1,
                }).valid(),
            },
    {
        let p = match BigNum::from_hex(p_hex) {
            Some(p) => p,
            None => {
                return None;
            },
        };
        let g = match CurvePoint::from_hex(g_hex) {
            Some(g) => g,
            None => {
                return None;
            },
        };
        let n = match BigNum::from_hex(n_hex) {
            Some(n) => n,
            None => {
                return None;
            },
        };
        CurveParameters::new(p, BigNum::from_u64(a), BigNum::from_u64(b), g, n, BigNum::from_u64(1))
    }
}

} // verus!
