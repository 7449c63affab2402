//! Text emphasis attributes as a bit set.
use vstd::prelude::*;

use crate::style::{AnsiSequence, sgr, sgr_of};
use crate::text::join_codes;

verus! {

/// A set of emphasis attributes, one bit each.
#[derive(Debug, Clone, Copy, PartialEq, Eq, Structural, PartialOrd, Ord, Hash, Default)]
pub struct StyleFlag(pub u32);

/// `ESC[1m` - `ESC[22m`
pub const BOLD: u32 = 1;

/// `ESC[3m` - `ESC[23m`
pub const ITALIC: u32 = 2;

/// `ESC[4m` - `ESC[24m`
pub const UNDERLINE: u32 = 4;

/// `ESC[9m` - `ESC[29m`
pub const CROSSED: u32 = 8;

/// `ESC[5m` - `ESC[25m`
pub const BLINK: u32 = 16;

/// `ESC[7m` - `ESC[27m`
pub const REVERSED: u32 = 32;

/// Makes the reset the universal `ESC[0m`, whatever else is set.
pub const RESET: u32 = 64;

/// Whether every bit of `bit` is set in `bits`.
pub open spec fn has_bits(bits: u32, bit: u32) -> bool {
    bits & bit == bit
}

/// The code list of one attribute: `code` when `bit` is present, nothing otherwise.
pub open spec fn code_if(bits: u32, bit: u32, code: Seq<char>) -> Seq<Seq<char>> {
    if has_bits(bits, bit) { seq![code] } else { seq![] }
}

/// The codes that turn on the present attributes, in the order bold, italic,
/// underline, strikethrough, blink, reversed.
pub open spec fn set_codes(bits: u32) -> Seq<Seq<char>> {
    code_if(bits, 1, seq!['1']) + code_if(bits, 2, seq!['3']) + code_if(bits, 4, seq!['4'])
        + code_if(bits, 8, seq!['9']) + code_if(bits, 16, seq!['5']) + code_if(bits, 32, seq!['7'])
}

/// The codes that turn off the present attributes, in the same order.
pub open spec fn unset_codes(bits: u32) -> Seq<Seq<char>> {
    code_if(bits, 1, seq!['2', '2']) + code_if(bits, 2, seq!['2', '3']) + code_if(
        bits,
        4,
        seq!['2', '4'],
    ) + code_if(bits, 8, seq!['2', '9']) + code_if(bits, 16, seq!['2', '5']) + code_if(
        bits,
        32,
        seq!['2', '7'],
    )
}

/// The fragment that turns the flags on: the set codes joined by `;`.
pub open spec fn flags_ansi(bits: u32) -> Seq<char> {
    crate::text::join(set_codes(bits))
}

/// The fragment that turns the flags off: `0` alone when RESET is present,
/// otherwise the unset codes joined by `;`.
pub open spec fn flags_reset_ansi(bits: u32) -> Seq<char> {
    if has_bits(bits, 64) {
        seq!['0']
    } else {
        crate::text::join(unset_codes(bits))
    }
}

/// Appends `code` to a code list under construction when `bit` is present.
fn push_code_if(
    out: &mut String,
    Ghost(codes): Ghost<Seq<Seq<char>>>,
    bits: u32,
    bit: u32,
    first: bool,
    code: &str,
) -> (r: (bool, Ghost<Seq<Seq<char>>>))
    requires
        old(out)@ == crate::text::join(codes),
        first == (codes.len() == 0),
    ensures
        r.1@ == codes + code_if(bits, bit, code@),
        final(out)@ == crate::text::join(r.1@),
        r.0 == (r.1@.len() == 0),
{
    if bits & bit == bit {
        join_codes(out, Ghost(codes), first, code);
        assert(codes.push(code@) =~= codes + code_if(bits, bit, code@));
        (false, Ghost(codes.push(code@)))
    } else {
        assert(codes + code_if(bits, bit, code@) =~= codes);
        (first, Ghost(codes))
    }
}

impl StyleFlag {
    /// Whether every attribute of `other` is present.
    pub fn contains(&self, other: StyleFlag) -> (r: bool)
        ensures
            r == has_bits(self.0, other.0),
    {
        self.0 & other.0 == other.0
    }
}

impl AnsiSequence for StyleFlag {
    open spec fn printable(&self) -> bool {
        true
    }

    open spec fn ansi_spec(&self) -> Seq<char> {
        flags_ansi(self.0)
    }

    open spec fn reset_ansi_spec(&self) -> Seq<char> {
        flags_reset_ansi(self.0)
    }

    open spec fn sequence_spec(&self) -> Seq<char> {
        sgr(flags_ansi(self.0))
    }

    open spec fn reset_sequence_spec(&self) -> Seq<char> {
        sgr(flags_reset_ansi(self.0))
    }

    fn ansi(&self) -> (r: String) {
        let b = self.0;
        let mut out = String::new();
        let ghost codes: Seq<Seq<char>> = seq![];
        proof {
            reveal_strlit("1");
            assert("1"@ =~= seq!['1']);
            reveal_strlit("3");
            assert("3"@ =~= seq!['3']);
            reveal_strlit("4");
            assert("4"@ =~= seq!['4']);
            reveal_strlit("9");
            assert("9"@ =~= seq!['9']);
            reveal_strlit("5");
            assert("5"@ =~= seq!['5']);
            reveal_strlit("7");
            assert("7"@ =~= seq!['7']);
        }
        let f0 = true;
        let (f1, Ghost(c1)) = push_code_if(&mut out, Ghost(codes), b, 1, f0, "1");
        let (f2, Ghost(c2)) = push_code_if(&mut out, Ghost(c1), b, 2, f1, "3");
        let (f3, Ghost(c3)) = push_code_if(&mut out, Ghost(c2), b, 4, f2, "4");
        let (f4, Ghost(c4)) = push_code_if(&mut out, Ghost(c3), b, 8, f3, "9");
        let (f5, Ghost(c5)) = push_code_if(&mut out, Ghost(c4), b, 16, f4, "5");
        let (f6, Ghost(c6)) = push_code_if(&mut out, Ghost(c5), b, 32, f5, "7");
        assert(c6 =~= set_codes(b));
        out
    }

    fn reset_ansi(&self) -> (r: String) {
        let b = self.0;
        let mut out = String::new();
        if b & 64 == 64 {
            out.push('0');
            assert(out@ =~= seq!['0']);
            return out;
        }
        let ghost codes: Seq<Seq<char>> = seq![];
        proof {
            reveal_strlit("22");
            assert("22"@ =~= seq!['2', '2']);
            reveal_strlit("23");
            assert("23"@ =~= seq!['2', '3']);
            reveal_strlit("24");
            assert("24"@ =~= seq!['2', '4']);
            reveal_strlit("29");
            assert("29"@ =~= seq!['2', '9']);
            reveal_strlit("25");
            assert("25"@ =~= seq!['2', '5']);
            reveal_strlit("27");
            assert("27"@ =~= seq!['2', '7']);
        }
        let f0 = true;
        let (f1, Ghost(c1)) = push_code_if(&mut out, Ghost(codes), b, 1, f0, "22");
        let (f2, Ghost(c2)) = push_code_if(&mut out, Ghost(c1), b, 2, f1, "23");
        let (f3, Ghost(c3)) = push_code_if(&mut out, Ghost(c2), b, 4, f2, "24");
        let (f4, Ghost(c4)) = push_code_if(&mut out, Ghost(c3), b, 8, f3, "29");
        let (f5, Ghost(c5)) = push_code_if(&mut out, Ghost(c4), b, 16, f4, "25");
        let (f6, Ghost(c6)) = push_code_if(&mut out, Ghost(c5), b, 32, f5, "27");
        assert(c6 =~= unset_codes(b));
        out
    }

    fn sequence(&self) -> (r: String) {
        sgr_of(&self.ansi())
    }

    fn reset_sequence(&self) -> (r: String) {
        sgr_of(&self.reset_ansi())
    }
}

impl core::ops::BitOr for StyleFlag {
    type Output = StyleFlag;

    fn bitor(self, rhs: StyleFlag) -> (r: StyleFlag) {
        StyleFlag(self.0 | rhs.0)
    }
}

impl vstd::std_specs::ops::BitOrSpecImpl for StyleFlag {
    open spec fn obeys_bitor_spec() -> bool {
        true
    }

    open spec fn bitor_req(self, rhs: StyleFlag) -> bool {
        true
    }

    open spec fn bitor_spec(self, rhs: StyleFlag) -> StyleFlag {
        StyleFlag(self.0 | rhs.0)
    }
}

impl core::ops::BitAnd for StyleFlag {
    type Output = StyleFlag;

    fn bitand(self, rhs: StyleFlag) -> (r: StyleFlag) {
        StyleFlag(self.0 & rhs.0)
    }
}

impl vstd::std_specs::ops::BitAndSpecImpl for StyleFlag {
    open spec fn obeys_bitand_spec() -> bool {
        true
    }

    open spec fn bitand_req(self, rhs: StyleFlag) -> bool {
        true
    }

    open spec fn bitand_spec(self, rhs: StyleFlag) -> StyleFlag {
        StyleFlag(self.0 & rhs.0)
    }
}

} // verus!
