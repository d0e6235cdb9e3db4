//! Styling and colouring of terminal text with ANSI escape codes.
use vstd::prelude::*;

verus! {

/// Text styles.
#[derive(Clone, Copy, Debug, PartialEq, Eq, Structural)]
pub enum TextStyle {
    Bold,
    Italic,
    Underlined,
    Strikedthrough,
}

/// Terminal colours; `True` is a 24-bit colour given as red, green, blue.
#[derive(Clone, Copy, Debug, PartialEq, Eq, Structural)]
pub enum TextColor {
    True(u8, u8, u8),
    Black,
    Red,
    Green,
    Yellow,
    Blue,
    Magenta,
    Cyan,
    White,
}

/// The ANSI escape code that resets all styles and colours.
pub open spec fn reset_code() -> Seq<char> {
    "\x1B[0m"@
}

pub open spec fn style_code(s: TextStyle) -> Seq<char> {
    match s {
        TextStyle::Bold => "\x1B[1m"@,
        TextStyle::Italic => "\x1B[3m"@,
        TextStyle::Underlined => "\x1B[4m"@,
        TextStyle::Strikedthrough => "\x1B[9m"@,
    }
}

/// The decimal digit `d`, as a character.
pub open spec fn digit(d: nat) -> char {
    (48 + d) as char
}

/// `n` in decimal, without leading zeros.
pub open spec fn decimal(n: u8) -> Seq<char> {
    if n < 10 {
        seq![digit(n as nat)]
    } else if n < 100 {
        seq![digit((n / 10) as nat), digit((n % 10) as nat)]
    } else {
        seq![digit((n / 100) as nat), digit(((n / 10) % 10) as nat), digit((n % 10) as nat)]
    }
}

/// The code of a 24-bit colour: `lead` is `38` for the text, `48` for the
/// background.
pub open spec fn rgb_code(lead: Seq<char>, r: u8, g: u8, b: u8) -> Seq<char> {
    "\x1B["@ + lead + ";2;"@ + decimal(r) + ";"@ + decimal(g) + ";"@ + decimal(b) + "m"@
}

pub open spec fn fg_code(c: TextColor) -> Seq<char> {
    match c {
        TextColor::True(r, g, b) => rgb_code("38"@, r, g, b),
        TextColor::Black => "\x1B[30m"@,
        TextColor::Red => "\x1B[31m"@,
        TextColor::Green => "\x1B[32m"@,
        TextColor::Yellow => "\x1B[33m"@,
        TextColor::Blue => "\x1B[34m"@,
        TextColor::Magenta => "\x1B[35m"@,
        TextColor::Cyan => "\x1B[36m"@,
        TextColor::White => "\x1B[37m"@,
    }
}

pub open spec fn bg_code(c: TextColor) -> Seq<char> {
    match c {
        TextColor::True(r, g, b) => rgb_code("48"@, r, g, b),
        TextColor::Black => "\x1B[40m"@,
        TextColor::Red => "\x1B[41m"@,
        TextColor::Green => "\x1B[42m"@,
        TextColor::Yellow => "\x1B[43m"@,
        TextColor::Blue => "\x1B[44m"@,
        TextColor::Magenta => "\x1B[45m"@,
        TextColor::Cyan => "\x1B[46m"@,
        TextColor::White => "\x1B[47m"@,
    }
}

/// `text` wrapped in the codes of the style and the colours given, and the
/// reset code.
pub open spec fn stylized(text: Seq<char>, style: Option<TextStyle>, fg: Option<TextColor>, bg: Option<TextColor>) -> Seq<char> {
    let s = match style {
        Some(s) => style_code(s),
        None => Seq::empty(),
    };
    let f = match fg {
        Some(c) => fg_code(c),
        None => Seq::empty(),
    };
    let b = match bg {
        Some(c) => bg_code(c),
        None => Seq::empty(),
    };
    s + f + b + text + reset_code()
}

fn digit_str(d: u8) -> (r: &'static str)
    requires
        d < 10,
    ensures
        r@ == seq![digit(d as nat)],
{
    proof {
        reveal_strlit("0");
        reveal_strlit("1");
        reveal_strlit("2");
        reveal_strlit("3");
        reveal_strlit("4");
        reveal_strlit("5");
        reveal_strlit("6");
        reveal_strlit("7");
        reveal_strlit("8");
        reveal_strlit("9");
    }
    let r = match d {
        0 => "0",
        1 => "1",
        2 => "2",
        3 => "3",
        4 => "4",
        5 => "5",
        6 => "6",
        7 => "7",
        8 => "8",
        _ => "9",
    };
    assert(r@ =~= seq![digit(d as nat)]);
    r
}

/// Appends `n` in decimal to `out`.
fn push_decimal(out: &mut String, n: u8)
    ensures
        final(out)@ == old(out)@ + decimal(n),
{
    if n >= 100 {
        out.append(digit_str(n / 100));
    }
    if n >= 10 {
        out.append(digit_str((n / 10) % 10));
    }
    out.append(digit_str(n % 10));
    assert(out@ =~= old(out)@ + decimal(n));
}

fn rgb(lead: &str, r: u8, g: u8, b: u8) -> (s: String)
    ensures
        s@ == rgb_code(lead@, r, g, b),
{
    let mut s = String::from_str("\x1B[");
    s.append(lead);
    s.append(";2;");
    push_decimal(&mut s, r);
    s.append(";");
    push_decimal(&mut s, g);
    s.append(";");
    push_decimal(&mut s, b);
    s.append("m");
    assert(s@ =~= rgb_code(lead@, r, g, b));
    s
}

impl TextStyle {
    /// The ANSI escape code of this style.
    pub fn ansi(&self) -> (r: String)
        ensures
            r@ == style_code(*self),
    {
        let code = match self {
            TextStyle::Bold => "\x1B[1m",
            TextStyle::Italic => "\x1B[3m",
            TextStyle::Underlined => "\x1B[4m",
            TextStyle::Strikedthrough => "\x1B[9m",
        };
        code.to_owned()
    }
}

impl TextColor {
    /// The ANSI escape code that sets this colour for the text.
    pub fn ansi_fg(&self) -> (r: String)
        ensures
            r@ == fg_code(*self),
    {
        let code = match self {
            TextColor::True(r, g, b) => {
                return rgb("38", *r, *g, *b);
            },
            TextColor::Black => "\x1B[30m",
            TextColor::Red => "\x1B[31m",
            TextColor::Green => "\x1B[32m",
            TextColor::Yellow => "\x1B[33m",
            TextColor::Blue => "\x1B[34m",
            TextColor::Magenta => "\x1B[35m",
            TextColor::Cyan => "\x1B[36m",
            TextColor::White => "\x1B[37m",
        };
        code.to_owned()
    }

    /// The ANSI escape code that sets this colour for the background.
    pub fn ansi_bg(&self) -> (r: String)
        ensures
            r@ == bg_code(*self),
    {
        let code = match self {
            TextColor::True(r, g, b) => {
                return rgb("48", *r, *g, *b);
            },
            TextColor::Black => "\x1B[40m",
            TextColor::Red => "\x1B[41m",
            TextColor::Green => "\x1B[42m",
            TextColor::Yellow => "\x1B[43m",
            TextColor::Blue => "\x1B[44m",
            TextColor::Magenta => "\x1B[45m",
            TextColor::Cyan => "\x1B[46m",
            TextColor::White => "\x1B[47m",
        };
        code.to_owned()
    }
}

/// Styling for text.
pub trait FancyText {
    /// This text wrapped in the codes of the style and colours given.
    fn stylize(&self, style: Option<TextStyle>, foreground: Option<TextColor>, background: Option<TextColor>) -> String;
}

/// `text` wrapped in the codes of the style and colours given, then the
/// reset code.
pub fn stylize_str(text: &str, style: Option<TextStyle>, foreground: Option<TextColor>, background: Option<TextColor>) -> (r: String)
    ensures
        r@ == stylized(text@, style, foreground, background),
{
    let mut out = String::new();
    match style {
        Some(s) => out.append(s.ansi().as_str()),
        None => {},
    }
    match foreground {
        Some(c) => out.append(c.ansi_fg().as_str()),
        None => {},
    }
    match background {
        Some(c) => out.append(c.ansi_bg().as_str()),
        None => {},
    }
    out.append(text);
    out.append("\x1B[0m");
    assert(out@ =~= stylized(text@, style, foreground, background));
    out
}

impl FancyText for str {
    fn stylize(&self, style: Option<TextStyle>, foreground: Option<TextColor>, background: Option<TextColor>) -> String {
        stylize_str(self, style, foreground, background)
    }
}

} // verus!
