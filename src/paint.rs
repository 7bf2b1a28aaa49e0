//! Terminal colouring of label text, and decimal numerals.
use vstd::prelude::*;
use vstd::string::StringExecFns;
use ansi_term::Colour;

verus! {

/// The terminal colours that labels are painted with.
#[derive(Clone, Copy, Debug, PartialEq, Eq, Structural)]
pub enum Tint {
    /// Colour 244 of the 256-colour palette.
    Gray,
    Red,
    RedBold,
    Green,
    GreenBold,
    Blue,
    White,
    Yellow,
}

/// The numeric codes that select a tint in an escape sequence.
pub open spec fn tint_code(t: Tint) -> Seq<char> {
    match t {
        Tint::Gray => seq!['3', '8', ';', '5', ';', '2', '4', '4'],
        Tint::Red => seq!['3', '1'],
        Tint::RedBold => seq!['1', ';', '3', '1'],
        Tint::Green => seq!['3', '2'],
        Tint::GreenBold => seq!['1', ';', '3', '2'],
        Tint::Blue => seq!['3', '4'],
        Tint::White => seq!['3', '7'],
        Tint::Yellow => seq!['3', '3'],
    }
}

/// `text` between the escape sequence that selects `t` and the one that
/// resets all styles.
pub open spec fn painted(t: Tint, text: Seq<char>) -> Seq<char> {
    seq!['\x1b', '['] + tint_code(t) + seq!['m'] + text + seq!['\x1b', '[', '0', 'm']
}

/// Relies on ansi_term's `Colour::normal`, `Colour::bold` and `Style::paint`
/// with its `Display`: a style with a foreground colour writes "ESC[",
/// the bold code "1;" if bold, the colour's code, "m", the text, then "ESC[0m".
#[verifier::external_body]
fn paint_str(t: Tint, text: &str) -> (r: String)
    ensures
        r@ == painted(t, text@),
{
    let style = match t {
        Tint::Gray => Colour::Fixed(244).normal(),
        Tint::Red => Colour::Red.normal(),
        Tint::RedBold => Colour::Red.bold(),
        Tint::Green => Colour::Green.normal(),
        Tint::GreenBold => Colour::Green.bold(),
        Tint::Blue => Colour::Blue.normal(),
        Tint::White => Colour::White.normal(),
        Tint::Yellow => Colour::Yellow.normal(),
    };
    style.paint(text).to_string()
}

/// Appends `text`, painted with `t`, to `out`.
pub fn push_painted(out: &mut String, t: Tint, text: &str)
    ensures
        final(out)@ == old(out)@ + painted(t, text@),
{
    let p = paint_str(t, text);
    out.append(p.as_str());
}

pub open spec fn digit_char(d: nat) -> char {
    if d == 0 {
        '0'
    } else if d == 1 {
        '1'
    } else if d == 2 {
        '2'
    } else if d == 3 {
        '3'
    } else if d == 4 {
        '4'
    } else if d == 5 {
        '5'
    } else if d == 6 {
        '6'
    } else if d == 7 {
        '7'
    } else if d == 8 {
        '8'
    } else {
        '9'
    }
}

/// The decimal numeral of `n`, without leading zeros.
pub open spec fn decimal_of(n: nat) -> Seq<char>
    decreases n,
{
    if n < 10 {
        seq![digit_char(n)]
    } else {
        decimal_of(n / 10) + seq![digit_char(n % 10)]
    }
}

fn push_digit(out: &mut String, d: usize)
    requires
        d < 10,
    ensures
        final(out)@ == old(out)@ + seq![digit_char(d as nat)],
{
    let s: &str = if d == 0 {
        "0"
    } else if d == 1 {
        "1"
    } else if d == 2 {
        "2"
    } else if d == 3 {
        "3"
    } else if d == 4 {
        "4"
    } else if d == 5 {
        "5"
    } else if d == 6 {
        "6"
    } else if d == 7 {
        "7"
    } else if d == 8 {
        "8"
    } else {
        "9"
    };
    proof {
        reveal_strlit("0");
        reveal_strlit("1");
        reveal_strlit("2");
        reveal_strlit("3");
        reveal_strlit("4");
        reveal_strlit("5");
        reveal_strlit("6");
        reveal_strlit("7");
        reveal_strlit("8");
        reveal_strlit("9");
    }
    out.append(s);
}

/// Appends the decimal numeral of `n` to `out`.
pub fn push_decimal(out: &mut String, n: usize)
    ensures
        final(out)@ == old(out)@ + decimal_of(n as nat),
    decreases n,
{
    if n >= 10 {
        push_decimal(out, n / 10);
    }
    push_digit(out, n % 10);
}

/// The decimal numeral of `n`.
pub fn decimal(n: usize) -> (r: String)
    ensures
        r@ == decimal_of(n as nat),
{
    let mut s = String::new();
    push_decimal(&mut s, n);
    s
}

} // verus!
