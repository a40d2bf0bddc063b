//! ANSI styling of text: each operation wraps the text between an opening
//! escape sequence and the reset sequence `ESC[0m`.
use vstd::prelude::*;

use crate::color::{dec_str, digit_char, hex_color_of, lemma_no_commas, rgb_color_of, Color};

verus! {

/// The escape sequence `ESC[<params>m`.
pub open spec fn escape(params: Seq<char>) -> Seq<char> {
    seq!['\x1b', '['] + params + seq!['m']
}

/// The sequence that restores the terminal's default rendering: `ESC[0m`.
pub open spec fn reset() -> Seq<char> {
    escape(seq!['0'])
}

/// `text` between the escape sequence with `params` and the reset sequence.
pub open spec fn styled(params: Seq<char>, text: Seq<char>) -> Seq<char> {
    escape(params) + text + reset()
}

/// The select code of the foreground color.
pub open spec fn foreground() -> Seq<char> {
    seq!['3', '8']
}

/// The select code of the background color.
pub open spec fn background() -> Seq<char> {
    seq!['4', '8']
}

/// The parameters of a 24-bit color escape: `<layer>;2;<r>;<g>;<b>`.
pub open spec fn rgb_params(layer: Seq<char>, c: Color) -> Seq<char> {
    layer + seq![';', '2', ';'] + dec_str(c.0 as nat) + seq![';'] + dec_str(c.1 as nat) + seq![';']
        + dec_str(c.2 as nat)
}

/// The color that a color argument names: a hex code when it starts with
/// `#`, a decimal triplet otherwise.
pub open spec fn color_of(spec: Seq<char>) -> Option<Color> {
    if spec.len() > 0 && spec[0] == '#' {
        hex_color_of(spec)
    } else {
        rgb_color_of(spec)
    }
}

/// `text` in the color that `spec` names on the given layer, or `text` itself
/// where `spec` names no color.
pub open spec fn painted(layer: Seq<char>, spec: Seq<char>, text: Seq<char>) -> Seq<char> {
    match color_of(spec) {
        Some(c) => styled(rgb_params(layer, c), text),
        None => text,
    }
}

/// A color argument that names no color, such as `not-a-color`, leaves the
/// text as it is, on either layer.
pub proof fn lemma_unknown_color_keeps_text(text: Seq<char>)
    ensures
        painted(foreground(), "not-a-color"@, text) == text,
        painted(background(), "not-a-color"@, text) == text,
{
    reveal_strlit("not-a-color");
    lemma_no_commas("not-a-color"@);
}

/// Appends the decimal digit of value `d`.
fn push_digit(out: &mut String, d: u8)
    requires
        d < 10,
    ensures
        final(out)@ == old(out)@.push(digit_char(d as nat)),
{
    let digits = "0123456789";
    proof {
        reveal_strlit("0123456789");
    }
    let one = digits.substring_ascii(d as usize, d as usize + 1);
    out.append(one);
    assert(one@ =~= seq![digit_char(d as nat)]);
}

/// Appends `n` in decimal.
fn push_dec(out: &mut String, n: u8)
    ensures
        final(out)@ == old(out)@ + dec_str(n as nat),
{
    let ghost start = out@;
    if n >= 100 {
        push_digit(out, n / 100);
    }
    if n >= 10 {
        push_digit(out, (n / 10) % 10);
    }
    push_digit(out, n % 10);
    proof {
        let m = n as nat;
        if m >= 100 {
            assert(dec_str(m / 100) == seq![digit_char(m / 100)]);
            assert(dec_str(m / 10) == dec_str(m / 100).push(digit_char((m / 10) % 10)));
        } else if m >= 10 {
            assert(dec_str(m / 10) == seq![digit_char(m / 10)]);
        }
        assert(out@ =~= start + dec_str(m));
    }
}

/// Appends `text` followed by the reset sequence.
fn push_text_and_reset(out: &mut String, text: &str)
    ensures
        final(out)@ == old(out)@ + text@ + reset(),
{
    out.append(text);
    out.append("\x1b[0m");
    proof {
        reveal_strlit("\x1b[0m");
    }
    assert(final(out)@ =~= old(out)@ + text@ + reset());
}

/// `text` between the escape sequence with `params` and the reset sequence.
fn style(params: &str, text: &str) -> (r: String)
    ensures
        r@ == styled(params@, text@),
{
    let mut out = String::from_str("\x1b[");
    out.append(params);
    out.append("m");
    proof {
        reveal_strlit("\x1b[");
        reveal_strlit("m");
    }
    push_text_and_reset(&mut out, text);
    assert(out@ =~= styled(params@, text@));
    out
}

/// Reads a color argument: a hex code when it starts with `#`, a decimal
/// triplet otherwise.
fn parse_color(spec: &str) -> (r: Result<Color, &'static str>)
    ensures
        r is Ok <==> color_of(spec@) is Some,
        r matches Ok(c) ==> color_of(spec@) == Some(c),
{
    if spec.unicode_len() > 0 && spec.get_char(0) == '#' {
        Color::from_hex(spec)
    } else {
        Color::from_rgb(spec)
    }
}

/// `text` in the color that `spec` names, on the layer whose select code is
/// `layer`.
fn paint(layer: &str, spec: &str, text: &str) -> (r: String)
    ensures
        r@ == painted(layer@, spec@, text@),
{
    match parse_color(spec) {
        Ok(c) => {
            let mut out = String::from_str("\x1b[");
            out.append(layer);
            out.append(";2;");
            push_dec(&mut out, c.0);
            out.append(";");
            push_dec(&mut out, c.1);
            out.append(";");
            push_dec(&mut out, c.2);
            out.append("m");
            proof {
                reveal_strlit("\x1b[");
                reveal_strlit(";2;");
                reveal_strlit(";");
                reveal_strlit("m");
            }
            push_text_and_reset(&mut out, text);
            assert(out@ =~= styled(rgb_params(layer@, c), text@));
            out
        },
        Err(_) => String::from_str(text),
    }
}

/// Styling operations on text. Each returns a new string: the text between
/// an opening escape sequence and the reset sequence, so that operations
/// chain by applying one to the result of another.
pub trait Colorize: Sized {
    /// The characters of the text to be styled.
    spec fn text_view(self) -> Seq<char>;

    /// The text in the foreground color that `color` names (`r,g,b` or
    /// `#RRGGBB`); the text unchanged where `color` names none.
    fn color(self, color: &str) -> (r: String)
        ensures
            r@ == painted(foreground(), color@, self.text_view()),
    ;

    /// The text on the background color that `color` names (`r,g,b` or
    /// `#RRGGBB`); the text unchanged where `color` names none.
    fn bg_color(self, color: &str) -> (r: String)
        ensures
            r@ == painted(background(), color@, self.text_view()),
    ;

    /// The text bold.
    fn bold(self) -> (r: String)
        ensures
            r@ == styled(seq!['1'], self.text_view()),
    ;

    /// The text italic.
    fn italic(self) -> (r: String)
        ensures
            r@ == styled(seq!['3'], self.text_view()),
    ;

    /// The text underlined.
    fn underline(self) -> (r: String)
        ensures
            r@ == styled(seq!['4'], self.text_view()),
    ;

    /// The text struck through.
    fn strikethrough(self) -> (r: String)
        ensures
            r@ == styled(seq!['9'], self.text_view()),
    ;

    /// The text dimmed.
    fn dim(self) -> (r: String)
        ensures
            r@ == styled(seq!['2'], self.text_view()),
    ;

    /// The text with foreground and background swapped.
    fn invert(self) -> (r: String)
        ensures
            r@ == styled(seq!['7'], self.text_view()),
    ;
}

impl<'a> Colorize for &'a str {
    open spec fn text_view(self) -> Seq<char> {
        self@
    }

    fn color(self, color: &str) -> (r: String) {
        proof {
            reveal_strlit("38");
        }
        paint("38", color, self)
    }

    fn bg_color(self, color: &str) -> (r: String) {
        proof {
            reveal_strlit("48");
        }
        paint("48", color, self)
    }

    fn bold(self) -> (r: String) {
        proof {
            reveal_strlit("1");
        }
        style("1", self)
    }

    fn italic(self) -> (r: String) {
        proof {
            reveal_strlit("3");
        }
        style("3", self)
    }

    fn underline(self) -> (r: String) {
        proof {
            reveal_strlit("4");
        }
        style("4", self)
    }

    fn strikethrough(self) -> (r: String) {
        proof {
            reveal_strlit("9");
        }
        style("9", self)
    }

    fn dim(self) -> (r: String) {
        proof {
            reveal_strlit("2");
        }
        style("2", self)
    }

    fn invert(self) -> (r: String) {
        proof {
            reveal_strlit("7");
        }
        style("7", self)
    }
}

} // verus!
