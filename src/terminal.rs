//! The terminal side: what a terminal can show, the style table and the
//! character grid.
use vstd::prelude::*;

pub mod buffer;
pub mod table;

verus! {

/// How many colors a terminal can show.
#[derive(Debug, Clone, Copy, PartialEq, Eq, Structural, Default)]
pub enum ColorSupport {
    /// No colors at all.
    NoColor,
    #[default]
    Standard,
    EightBit,
    TrueColor,
}

/// What the terminal type names once `xterm-` is taken off; nothing for a type
/// without that prefix.
pub open spec fn xterm_variant(term: Seq<char>) -> Option<Seq<char>> {
    if term.len() >= 6 && term.take(6) == "xterm-"@ {
        Some(term.skip(6))
    } else {
        None
    }
}

/// The color support named by `COLORTERM` when it is set, otherwise by the
/// `xterm-` variant of `TERM`: `truecolor` and `24bit` give true color,
/// `256color` gives the 256-color palette, anything else the standard colors.
pub open spec fn color_support_of(term: Option<Seq<char>>, colorterm: Option<Seq<char>>) -> ColorSupport {
    let name = match colorterm {
        Some(c) => Some(c),
        None => match term {
            Some(t) => xterm_variant(t),
            None => None,
        },
    };
    match name {
        Some(n) => if n == "truecolor"@ || n == "24bit"@ {
            ColorSupport::TrueColor
        } else if n == "256color"@ {
            ColorSupport::EightBit
        } else {
            ColorSupport::Standard
        },
        None => ColorSupport::Standard,
    }
}

/// Whether two strings hold the same characters.
fn same_text(a: &str, b: &str) -> (r: bool)
    ensures
        r == (a@ == b@),
{
    let n = a.unicode_len();
    if n != b.unicode_len() {
        return false;
    }
    let mut i: usize = 0;
    while i < n
        invariant
            n == a@.len(),
            n == b@.len(),
            i <= n,
            forall|j: int| 0 <= j < i ==> a@[j] == b@[j],
        decreases n - i,
    {
        if a.get_char(i) != b.get_char(i) {
            return false;
        }
        i = i + 1;
    }
    assert(a@ =~= b@);
    true
}

/// The part of a terminal type after `xterm-`, if it has that prefix.
fn strip_xterm(term: &str) -> (r: Option<&str>)
    ensures
        match r {
            Some(v) => xterm_variant(term@) == Some(v@),
            None => xterm_variant(term@) is None,
        },
{
    let n = term.unicode_len();
    proof {
        reveal_strlit("xterm-");
    }
    if n < 6 {
        return None;
    }
    let head = term.substring_char(0, 6);
    if same_text(head, "xterm-") {
        Some(term.substring_char(6, n))
    } else {
        None
    }
}

impl ColorSupport {
    /// The color support that the values of `TERM` and `COLORTERM` name.
    pub fn new(term: Option<&str>, colorterm: Option<&str>) -> (r: ColorSupport)
        ensures
            r == color_support_of(
                match term {
                    Some(t) => Some(t@),
                    None => None,
                },
                match colorterm {
                    Some(c) => Some(c@),
                    None => None,
                },
            ),
    {
        let name = match colorterm {
            Some(c) => Some(c),
            None => match term {
                Some(t) => strip_xterm(t),
                None => None,
            },
        };
        match name {
            Some(n) => {
                if same_text(n, "truecolor") || same_text(n, "24bit") {
                    ColorSupport::TrueColor
                } else if same_text(n, "256color") {
                    ColorSupport::EightBit
                } else {
                    ColorSupport::Standard
                }
            },
            None => ColorSupport::Standard,
        }
    }
}

/// What the terminal can do: escape sequences at all, and how many colors.
#[derive(Debug, Clone, Copy, PartialEq, Eq, Structural)]
pub struct Capabilities {
    pub ansi: bool,
    pub color: ColorSupport,
}

impl Capabilities {
    /// The capabilities that the values of `TERM` and `COLORTERM` name: escape
    /// sequences unless `TERM` is unset or `dumb`.
    pub fn detect(term: Option<&str>, colorterm: Option<&str>) -> (r: Capabilities)
        ensures
            r.ansi == (term matches Some(t) && t@ != "dumb"@),
            r.color == color_support_of(
                match term {
                    Some(t) => Some(t@),
                    None => None,
                },
                match colorterm {
                    Some(c) => Some(c@),
                    None => None,
                },
            ),
    {
        let ansi = match term {
            Some(t) => !same_text(t, "dumb"),
            None => false,
        };
        Capabilities { ansi, color: ColorSupport::new(term, colorterm) }
    }
}

} // verus!
