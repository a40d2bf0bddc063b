//! Colors as red, green and blue channels, and their two textual forms:
//! a decimal triplet such as `255,0,0` and a hex code such as `#FF0000`.
use vstd::prelude::*;

verus! {

/// A 24-bit color: red, green and blue channels.
#[derive(Clone, Copy, Debug, PartialEq, Eq, Structural)]
pub struct Color(pub u8, pub u8, pub u8);

/// Error of `Color::from_rgb`: the text is not three comma-separated bytes.
pub const RGB_FORMAT_ERROR: &'static str = "Invalid RGB format";

/// Error of `Color::from_hex` when the text is not `#` and six characters.
pub const HEX_FORMAT_ERROR: &'static str = "Invalid HEX format";

/// Error of `Color::from_hex` when a channel is not two hex digits.
pub const HEX_VALUE_ERROR: &'static str = "Invalid HEX value";

/// Whether `c` is a decimal digit.
pub open spec fn is_dec_digit(c: char) -> bool {
    '0' <= c && c <= '9'
}

/// Whether every character of `s` is a decimal digit.
pub open spec fn all_dec_digits(s: Seq<char>) -> bool {
    forall|i: int| 0 <= i < s.len() ==> is_dec_digit(#[trigger] s[i])
}

/// The number that a run of decimal digits writes, most significant first.
pub open spec fn dec_value(s: Seq<char>) -> nat
    decreases s.len(),
{
    if s.len() == 0 {
        0
    } else {
        dec_value(s.drop_last()) * 10 + (s.last() as nat - '0' as nat) as nat
    }
}

/// The digits of an unsigned number as it is written: an optional `+` dropped.
pub open spec fn unsigned_digits(seg: Seq<char>) -> Seq<char> {
    if seg.len() > 0 && seg[0] == '+' {
        seg.drop_first()
    } else {
        seg
    }
}

/// The byte that `seg` writes in decimal: one or more digits after an
/// optional `+`, of value at most 255.
pub open spec fn dec_byte_of(seg: Seq<char>) -> Option<u8> {
    let d = unsigned_digits(seg);
    if d.len() > 0 && all_dec_digits(d) && dec_value(d) <= 255 {
        Some(dec_value(d) as u8)
    } else {
        None
    }
}

/// The positions of the commas in `s`, in increasing order.
pub open spec fn comma_positions(s: Seq<char>) -> Seq<int>
    decreases s.len(),
{
    if s.len() == 0 {
        Seq::empty()
    } else if s.last() == ',' {
        comma_positions(s.drop_last()).push(s.len() - 1)
    } else {
        comma_positions(s.drop_last())
    }
}

/// The color that a decimal triplet `r,g,b` names, if `s` is one: exactly
/// three comma-separated segments, each a byte in decimal.
pub open spec fn rgb_color_of(s: Seq<char>) -> Option<Color> {
    let p = comma_positions(s);
    if p.len() == 2 {
        match (
            dec_byte_of(s.subrange(0, p[0])),
            dec_byte_of(s.subrange(p[0] + 1, p[1])),
            dec_byte_of(s.subrange(p[1] + 1, s.len() as int)),
        ) {
            (Some(r), Some(g), Some(b)) => Some(Color(r, g, b)),
            _ => None,
        }
    } else {
        None
    }
}

/// The value of a hex digit, either case; `None` for any other character.
pub open spec fn hex_digit_value(c: char) -> Option<nat> {
    if '0' <= c && c <= '9' {
        Some((c as nat - '0' as nat) as nat)
    } else if 'a' <= c && c <= 'f' {
        Some((c as nat - 'a' as nat + 10) as nat)
    } else if 'A' <= c && c <= 'F' {
        Some((c as nat - 'A' as nat + 10) as nat)
    } else {
        None
    }
}

/// The byte written by two hex digits, high digit first.
pub open spec fn hex_byte_of(hi: char, lo: char) -> Option<u8> {
    match (hex_digit_value(hi), hex_digit_value(lo)) {
        (Some(h), Some(l)) => Some((h * 16 + l) as u8),
        _ => None,
    }
}

/// The channels written in positions 1 to 6 of a hex code.
pub open spec fn hex_channels_of(s: Seq<char>) -> Option<Color> {
    match (hex_byte_of(s[1], s[2]), hex_byte_of(s[3], s[4]), hex_byte_of(s[5], s[6])) {
        (Some(r), Some(g), Some(b)) => Some(Color(r, g, b)),
        _ => None,
    }
}

/// Whether `s` has the shape of a hex code: `#` followed by six characters.
pub open spec fn is_hex_shaped(s: Seq<char>) -> bool {
    s.len() == 7 && s[0] == '#'
}

/// The color that a hex code `#RRGGBB` names, if `s` is one.
pub open spec fn hex_color_of(s: Seq<char>) -> Option<Color> {
    if is_hex_shaped(s) {
        hex_channels_of(s)
    } else {
        None
    }
}

/// The decimal digit of value `d`, for `d < 10`.
pub open spec fn digit_char(d: nat) -> char {
    seq!['0', '1', '2', '3', '4', '5', '6', '7', '8', '9'][d as int]
}

/// `n` written in decimal, without leading zeros.
pub open spec fn dec_str(n: nat) -> Seq<char>
    decreases n,
{
    if n < 10 {
        seq![digit_char(n)]
    } else {
        dec_str(n / 10).push(digit_char(n % 10))
    }
}

/// The upper-case hex digit of value `d`, for `d < 16`.
pub open spec fn hex_digit_char(d: nat) -> char {
    seq!['0', '1', '2', '3', '4', '5', '6', '7', '8', '9', 'A', 'B', 'C', 'D', 'E', 'F'][d as int]
}

/// `c` as a hex code `#RRGGBB` with upper-case digits.
pub open spec fn hex_code(c: Color) -> Seq<char> {
    seq![
        '#',
        hex_digit_char(c.0 as nat / 16),
        hex_digit_char(c.0 as nat % 16),
        hex_digit_char(c.1 as nat / 16),
        hex_digit_char(c.1 as nat % 16),
        hex_digit_char(c.2 as nat / 16),
        hex_digit_char(c.2 as nat % 16),
    ]
}

/// `c` as a decimal triplet `r,g,b` without leading zeros.
pub open spec fn rgb_triplet(c: Color) -> Seq<char> {
    dec_str(c.0 as nat) + seq![','] + dec_str(c.1 as nat) + seq![','] + dec_str(c.2 as nat)
}

/// The comma positions lie inside `s`, each after the one before.
proof fn lemma_comma_positions_ordered(s: Seq<char>)
    ensures
        forall|k: int|
            0 <= k < comma_positions(s).len() ==> 0 <= #[trigger] comma_positions(s)[k] < s.len()
                && s[comma_positions(s)[k]] == ',',
        forall|j: int, k: int|
            0 <= j < k < comma_positions(s).len() ==> #[trigger] comma_positions(s)[j]
                < #[trigger] comma_positions(s)[k],
    decreases s.len(),
{
    if s.len() > 0 {
        let q = comma_positions(s.drop_last());
        lemma_comma_positions_ordered(s.drop_last());
        assert forall|k: int| 0 <= k < q.len() implies s[#[trigger] q[k]] == ',' && q[k] < s.len()
            - 1 by {
            assert(s.drop_last()[q[k]] == s[q[k]]);
        }
    }
}

proof fn lemma_digit_char(d: nat)
    requires
        d < 10,
    ensures
        is_dec_digit(digit_char(d)),
        digit_char(d) as nat - '0' as nat == d,
{
    assert(d == 0 || d == 1 || d == 2 || d == 3 || d == 4 || d == 5 || d == 6 || d == 7 || d == 8
        || d == 9);
}

proof fn lemma_dec_str(n: nat)
    ensures
        dec_str(n).len() > 0,
        all_dec_digits(dec_str(n)),
        dec_value(dec_str(n)) == n,
    decreases n,
{
    lemma_digit_char(n % 10);
    if n >= 10 {
        lemma_dec_str(n / 10);
        assert(dec_str(n).drop_last() =~= dec_str(n / 10));
        assert(dec_str(n).last() == digit_char(n % 10));
        assert(dec_value(dec_str(n)) == dec_value(dec_str(n / 10)) * 10 + n % 10);
        assert(n == (n / 10) * 10 + n % 10);
        assert forall|i: int| 0 <= i < dec_str(n).len() implies is_dec_digit(
            #[trigger] dec_str(n)[i],
        ) by {
            if i < dec_str(n).len() - 1 {
                assert(dec_str(n)[i] == dec_str(n / 10)[i]);
            }
        }
    } else {
        assert(dec_str(n).drop_last() =~= Seq::<char>::empty());
        assert(dec_value(Seq::<char>::empty()) == 0);
    }
}

/// A byte written in decimal without leading zeros reads back as itself.
proof fn lemma_dec_byte_of_dec_str(n: u8)
    ensures
        dec_byte_of(dec_str(n as nat)) == Some(n),
{
    lemma_dec_str(n as nat);
}

pub(crate) proof fn lemma_no_commas(s: Seq<char>)
    requires
        forall|i: int| 0 <= i < s.len() ==> s[i] != ',',
    ensures
        comma_positions(s).len() == 0,
    decreases s.len(),
{
    if s.len() > 0 {
        lemma_no_commas(s.drop_last());
    }
}

proof fn lemma_comma_positions_append_comma(s: Seq<char>)
    ensures
        comma_positions(s.push(',')) == comma_positions(s).push(s.len() as int),
{
    assert(s.push(',').drop_last() =~= s);
}

proof fn lemma_comma_positions_append_plain(s: Seq<char>, t: Seq<char>)
    requires
        forall|i: int| 0 <= i < t.len() ==> t[i] != ',',
    ensures
        comma_positions(s + t) == comma_positions(s),
    decreases t.len(),
{
    if t.len() > 0 {
        assert((s + t).drop_last() =~= s + t.drop_last());
        lemma_comma_positions_append_plain(s, t.drop_last());
    } else {
        assert(s + t =~= s);
    }
}

/// Every color, written as a decimal triplet `r,g,b`, reads back as itself.
pub proof fn lemma_rgb_triplet_round_trip(c: Color)
    ensures
        rgb_color_of(rgb_triplet(c)) == Some(c),
{
    let r = dec_str(c.0 as nat);
    let g = dec_str(c.1 as nat);
    let b = dec_str(c.2 as nat);
    lemma_dec_str(c.0 as nat);
    lemma_dec_str(c.1 as nat);
    lemma_dec_str(c.2 as nat);
    lemma_dec_byte_of_dec_str(c.0);
    lemma_dec_byte_of_dec_str(c.1);
    lemma_dec_byte_of_dec_str(c.2);
    let s = rgb_triplet(c);
    lemma_no_commas(r);
    lemma_comma_positions_append_comma(r);
    lemma_comma_positions_append_plain(r.push(','), g);
    lemma_comma_positions_append_comma(r.push(',') + g);
    lemma_comma_positions_append_plain((r.push(',') + g).push(','), b);
    assert(s =~= (r.push(',') + g).push(',') + b);
    let p = comma_positions(s);
    assert(p =~= seq![r.len() as int, (r.len() + 1 + g.len()) as int]);
    assert(s.subrange(0, p[0]) =~= r);
    assert(s.subrange(p[0] + 1, p[1]) =~= g);
    assert(s.subrange(p[1] + 1, s.len() as int) =~= b);
}

proof fn lemma_hex_digit_char(d: nat)
    requires
        d < 16,
    ensures
        hex_digit_value(hex_digit_char(d)) == Some(d),
{
    assert(d == 0 || d == 1 || d == 2 || d == 3 || d == 4 || d == 5 || d == 6 || d == 7 || d == 8
        || d == 9 || d == 10 || d == 11 || d == 12 || d == 13 || d == 14 || d == 15);
}

proof fn lemma_hex_byte_round_trip(n: u8)
    ensures
        hex_byte_of(hex_digit_char(n as nat / 16), hex_digit_char(n as nat % 16)) == Some(n),
{
    lemma_hex_digit_char(n as nat / 16);
    lemma_hex_digit_char(n as nat % 16);
}

/// Every color, written as a hex code `#RRGGBB`, reads back as itself.
pub proof fn lemma_hex_code_round_trip(c: Color)
    ensures
        hex_color_of(hex_code(c)) == Some(c),
{
    let s = hex_code(c);
    assert(is_hex_shaped(s));
    assert(hex_byte_of(s[1], s[2]) == Some(c.0)) by {
        lemma_hex_byte_round_trip(c.0);
    }
    assert(hex_byte_of(s[3], s[4]) == Some(c.1)) by {
        lemma_hex_byte_round_trip(c.1);
    }
    assert(hex_byte_of(s[5], s[6]) == Some(c.2)) by {
        lemma_hex_byte_round_trip(c.2);
    }
}

/// Reads the byte written in decimal in `s` from `from` up to `to`.
fn dec_byte(s: &str, from: usize, to: usize) -> (r: Option<u8>)
    requires
        from <= to <= s@.len(),
    ensures
        r == dec_byte_of(s@.subrange(from as int, to as int)),
{
    let ghost seg = s@.subrange(from as int, to as int);
    let mut start: usize = from;
    if from < to && s.get_char(from) == '+' {
        start = from + 1;
    }
    assert(unsigned_digits(seg) =~= s@.subrange(start as int, to as int));
    if start == to {
        return None;
    }
    let mut k: usize = start;
    let mut v: u16 = 0;
    while k < to
        invariant
            start <= k <= to <= s@.len(),
            seg == s@.subrange(from as int, to as int),
            unsigned_digits(seg) == s@.subrange(start as int, to as int),
            all_dec_digits(s@.subrange(start as int, k as int)),
            v as nat == if dec_value(s@.subrange(start as int, k as int)) < 256 {
                dec_value(s@.subrange(start as int, k as int))
            } else {
                256
            },
        decreases to - k,
    {
        let c = s.get_char(k);
        if !('0' <= c && c <= '9') {
            assert(!is_dec_digit(s@.subrange(start as int, to as int)[k - start]));
            return None;
        }
        let d = ((c as u32) - ('0' as u32)) as u16;
        let ghost before = s@.subrange(start as int, k as int);
        assert(s@.subrange(start as int, k + 1).drop_last() =~= before);
        v = if v * 10 + d > 256 {
            256
        } else {
            v * 10 + d
        };
        k = k + 1;
        assert(all_dec_digits(s@.subrange(start as int, k as int))) by {
            assert forall|i: int| 0 <= i < k - start implies is_dec_digit(
                #[trigger] s@.subrange(start as int, k as int)[i],
            ) by {
                if i < k - 1 - start {
                    assert(s@.subrange(start as int, k as int)[i] == before[i]);
                }
            }
        }
    }
    assert(s@.subrange(start as int, k as int) =~= s@.subrange(start as int, to as int));
    if v <= 255 {
        Some(v as u8)
    } else {
        None
    }
}

/// The value of the hex digit `c`, either case.
fn hex_digit(c: char) -> (r: Option<u8>)
    ensures
        r matches Some(v) ==> hex_digit_value(c) == Some(v as nat),
        r is None ==> hex_digit_value(c) is None,
{
    if '0' <= c && c <= '9' {
        Some(((c as u32) - ('0' as u32)) as u8)
    } else if 'a' <= c && c <= 'f' {
        Some(((c as u32) - ('a' as u32) + 10) as u8)
    } else if 'A' <= c && c <= 'F' {
        Some(((c as u32) - ('A' as u32) + 10) as u8)
    } else {
        None
    }
}

/// The byte written by the hex digits `hi` and `lo`.
fn hex_byte(hi: char, lo: char) -> (r: Option<u8>)
    ensures
        r == hex_byte_of(hi, lo),
{
    match (hex_digit(hi), hex_digit(lo)) {
        (Some(h), Some(l)) => Some(h * 16 + l),
        _ => None,
    }
}

impl Color {
    /// Reads a decimal triplet `r,g,b`, each channel a byte in decimal.
    pub fn from_rgb(rgb: &str) -> (r: Result<Color, &'static str>)
        ensures
            r == match rgb_color_of(rgb@) {
                Some(c) => Ok::<Color, &'static str>(c),
                None => Err(RGB_FORMAT_ERROR),
            },
    {
        let n = rgb.unicode_len();
        let mut commas: Vec<usize> = Vec::new();
        let mut i: usize = 0;
        while i < n
            invariant
                i <= n == rgb@.len(),
                commas@.len() == comma_positions(rgb@.subrange(0, i as int)).len(),
                forall|k: int|
                    0 <= k < commas@.len() ==> #[trigger] commas@[k] as int == comma_positions(
                        rgb@.subrange(0, i as int),
                    )[k],
            decreases n - i,
        {
            assert(rgb@.subrange(0, i + 1).drop_last() =~= rgb@.subrange(0, i as int));
            if rgb.get_char(i) == ',' {
                commas.push(i);
            }
            i = i + 1;
        }
        assert(rgb@.subrange(0, n as int) =~= rgb@);
        proof {
            lemma_comma_positions_ordered(rgb@);
        }
        if commas.len() != 2 {
            return Err(RGB_FORMAT_ERROR);
        }
        let first = commas[0];
        let second = commas[1];
        let r = dec_byte(rgb, 0, first);
        let g = dec_byte(rgb, first + 1, second);
        let b = dec_byte(rgb, second + 1, n);
        match (r, g, b) {
            (Some(r), Some(g), Some(b)) => Ok(Color(r, g, b)),
            _ => Err(RGB_FORMAT_ERROR),
        }
    }

    /// Reads a hex code `#RRGGBB`, digits in either case.
    pub fn from_hex(hex: &str) -> (r: Result<Color, &'static str>)
        ensures
            r == if !is_hex_shaped(hex@) {
                Err::<Color, &'static str>(HEX_FORMAT_ERROR)
            } else {
                match hex_channels_of(hex@) {
                    Some(c) => Ok(c),
                    None => Err(HEX_VALUE_ERROR),
                }
            },
    {
        if hex.unicode_len() != 7 || hex.get_char(0) != '#' {
            return Err(HEX_FORMAT_ERROR);
        }
        let r = hex_byte(hex.get_char(1), hex.get_char(2));
        let g = hex_byte(hex.get_char(3), hex.get_char(4));
        let b = hex_byte(hex.get_char(5), hex.get_char(6));
        match (r, g, b) {
            (Some(r), Some(g), Some(b)) => Ok(Color(r, g, b)),
            _ => Err(HEX_VALUE_ERROR),
        }
    }
}

} // verus!
