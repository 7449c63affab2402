//! Terminal colors and their SGR code fragments.
//!
//! Saturation, lightness, value and the CMYK components are whole percentages
//! (0 to 100); hue is in degrees (0 to 359). Conversions to RGB are exact
//! integer computations over a common denominator of 600000.
use vstd::prelude::*;

use crate::error::{Component, Error};
use crate::style::{AnsiSequence, sgr, sgr_of};
use crate::text::{decimal, push_decimal};

verus! {

/// A terminal color: one of the eight system colors, a palette index, or a
/// color given in the RGB, HSL, HSV or CMYK model.
#[derive(Debug, Clone, Copy, PartialEq, Eq, Structural, Hash)]
pub enum Color {
    BLACK,
    RED,
    GREEN,
    YELLOW,
    BLUE,
    MAGENTA,
    CYAN,
    WHITE,
    /// A palette index, 0 to 255.
    Ansi(u8),
    RGB { r: u8, g: u8, b: u8 },
    /// Hue below 360, saturation and lightness at most 100.
    HSL { h: u16, s: u8, l: u8 },
    /// Hue below 360, saturation and value at most 100.
    HSV { h: u16, s: u8, v: u8 },
    /// Cyan, yellow, magenta and key, each at most 100; red comes from cyan,
    /// green from yellow and blue from magenta.
    CYMK { c: u8, y: u8, m: u8, k: u8 },
}

/// `n / 600000` scaled to 0..=255 and rounded to the nearest integer (halves up).
pub open spec fn round_to_byte(n: int) -> int {
    (510 * n + 600000) / 1200000
}

/// `60 * (1 - |(h / 60) mod 2 - 1|)`: the weight of the second-largest channel.
pub open spec fn hue_weight(h: int) -> int {
    if h % 120 < 60 {
        h % 120
    } else {
        120 - h % 120
    }
}

/// The channels before the offset, by the sixty-degree sector of the hue.
pub open spec fn sector_rgb(h: int, c: int, x: int) -> (int, int, int) {
    let k = h / 60;
    if k == 0 {
        (c, x, 0)
    } else if k == 1 {
        (x, c, 0)
    } else if k == 2 {
        (0, c, x)
    } else if k == 3 {
        (0, x, c)
    } else if k == 4 {
        (x, 0, c)
    } else {
        (c, 0, x)
    }
}

/// The RGB channels for chroma `c`, intermediate `x` and offset `m` (all over 600000).
pub open spec fn hs_to_rgb(h: int, c: int, x: int, m: int) -> (int, int, int) {
    let (r, g, b) = sector_rgb(h, c, x);
    (round_to_byte(r + m), round_to_byte(g + m), round_to_byte(b + m))
}

/// `1 - |2l - 1|`, in hundredths.
pub open spec fn lightness_span(l: int) -> int {
    if l >= 50 {
        200 - 2 * l
    } else {
        2 * l
    }
}

/// HSL chroma `(1 - |2l - 1|) * s`, over 10000.
pub open spec fn hsl_chroma(s: int, l: int) -> int {
    lightness_span(l) * s
}

pub open spec fn hsl_to_rgb(h: int, s: int, l: int) -> (int, int, int) {
    let c = hsl_chroma(s, l);
    hs_to_rgb(h, 60 * c, c * hue_weight(h), 30 * (200 * l - c))
}

pub open spec fn hsv_to_rgb(h: int, s: int, v: int) -> (int, int, int) {
    hs_to_rgb(h, 60 * (v * s), (v * s) * hue_weight(h), 60 * (100 * v - v * s))
}

/// `255 * (1 - a) * (1 - k)`, truncated.
pub open spec fn cmyk_channel(a: int, k: int) -> int {
    255 * ((100 - a) * (100 - k)) / 10000
}

/// The fragment `8;2;r;g;b`.
pub open spec fn truecolor_code(r: int, g: int, b: int) -> Seq<char> {
    seq!['8', ';', '2', ';'] + decimal(r as nat) + seq![';'] + decimal(g as nat) + seq![';']
        + decimal(b as nat)
}

/// An ASCII hex digit, of either case.
pub open spec fn is_hex_digit(c: char) -> bool {
    (48 <= c as u32 <= 57) || (97 <= c as u32 <= 102) || (65 <= c as u32 <= 70)
}

/// The value of a hex digit.
pub open spec fn hex_value(c: char) -> int {
    if 48 <= c as u32 <= 57 {
        c as u32 - 48
    } else if 97 <= c as u32 <= 102 {
        c as u32 - 87
    } else {
        c as u32 - 55
    }
}

/// The digits of a hex literal: the text without one leading `#`.
pub open spec fn hex_digits(s: Seq<char>) -> Seq<char> {
    if s.len() > 0 && s[0] == '#' {
        s.drop_first()
    } else {
        s
    }
}

/// Shorthand digits doubled one by one (`abc` to `aabbcc`); longer forms as they are.
pub open spec fn hex_expand(d: Seq<char>) -> Seq<char> {
    if d.len() == 3 || d.len() == 4 {
        Seq::new(2 * d.len(), |i: int| d[i / 2])
    } else {
        d
    }
}

/// Whether `d` is 3, 4, 6 or 8 hex digits.
pub open spec fn hex_well_formed(d: Seq<char>) -> bool {
    &&& (d.len() == 3 || d.len() == 4 || d.len() == 6 || d.len() == 8)
    &&& forall|i: int| 0 <= i < d.len() ==> is_hex_digit(#[trigger] d[i])
}

/// The byte written by the two digits at `i`.
pub open spec fn hex_byte(e: Seq<char>, i: int) -> int {
    16 * hex_value(e[i]) + hex_value(e[i + 1])
}

/// A hex color literal read as RGB(A): optional `#`, then 3, 4, 6 or 8 hex
/// digits; an alpha channel is read past and dropped.
pub open spec fn parse_hex(s: Seq<char>) -> Result<Color, Error> {
    let d = hex_digits(s);
    if hex_well_formed(d) {
        let e = hex_expand(d);
        Ok(Color::RGB { r: hex_byte(e, 0) as u8, g: hex_byte(e, 2) as u8, b: hex_byte(e, 4) as u8 })
    } else {
        Err(Error::InvalidFormat)
    }
}

/// A leading `#` is optional: with or without it a literal reads the same.
pub proof fn lemma_hex_hash_optional(s: Seq<char>)
    requires
        s.len() == 0 || s[0] != '#',
    ensures
        parse_hex(seq!['#'] + s) == parse_hex(s),
{
    assert((seq!['#'] + s).drop_first() =~= s);
}

/// A shorthand literal reads as its digits doubled: `abc` as `aabbcc`, `abcd`
/// as `aabbccdd`.
pub proof fn lemma_hex_shorthand(d: Seq<char>)
    requires
        d.len() == 3 || d.len() == 4,
        forall|i: int| 0 <= i < d.len() ==> is_hex_digit(#[trigger] d[i]),
    ensures
        parse_hex(d) == parse_hex(hex_expand(d)),
        parse_hex(d) is Ok,
{
    let e = hex_expand(d);
    assert(is_hex_digit(d[0]));
    assert(is_hex_digit(e[0]));
    assert(hex_expand(e) == e);
    assert(hex_digits(e) == e);
    assert(hex_well_formed(e)) by {
        assert forall|i: int| 0 <= i < e.len() implies is_hex_digit(#[trigger] e[i]) by {
            assert(e[i] == d[i / 2]);
        }
    }
}

proof fn lemma_round_in_range(n: int)
    requires
        0 <= n <= 600000,
    ensures
        0 <= round_to_byte(n) <= 255,
{
}

proof fn lemma_hs_in_range(h: int, c: int, x: int, m: int)
    requires
        0 <= x <= c,
        0 <= m,
        c + m <= 600000,
    ensures
        channels_in_range(hs_to_rgb(h, c, x, m)),
{
    lemma_round_in_range(c + m);
    lemma_round_in_range(x + m);
    lemma_round_in_range(m);
}

/// Each of the three channels lies between 0 and 255.
pub open spec fn channels_in_range(t: (int, int, int)) -> bool {
    &&& 0 <= t.0 <= 255
    &&& 0 <= t.1 <= 255
    &&& 0 <= t.2 <= 255
}

/// Every color given in a color model with components within their bounds
/// converts to red, green and blue channels between 0 and 255.
pub proof fn lemma_rgb_in_range(color: Color)
    requires
        color.wf(),
        color.rgb_spec() is Some,
    ensures
        channels_in_range(color.rgb_spec()->0),
{
    match color {
        Color::HSL { h, s, l } => {
            let c1 = hsl_chroma(s as int, l as int);
            let span = lightness_span(l as int);
            assert(0 <= c1 <= 200 * l && c1 <= 200 * (100 - l)) by (nonlinear_arith)
                requires
                    c1 == span * s,
                    s <= 100,
                    l <= 100,
                    l >= 50 ==> span == 200 - 2 * l,
                    l < 50 ==> span == 2 * l,
            ;
            let w = hue_weight(h as int);
            assert(0 <= c1 * w <= c1 * 60) by (nonlinear_arith)
                requires
                    0 <= w <= 60,
                    0 <= c1,
            ;
            lemma_hs_in_range(h as int, 60 * c1, c1 * w, 30 * (200 * l - c1));
        },
        Color::HSV { h, s, v } => {
            let vs = v * s;
            assert(0 <= vs <= 100 * v) by (nonlinear_arith)
                requires
                    vs == v * s,
                    s <= 100,
            ;
            let w = hue_weight(h as int);
            assert(0 <= vs * w <= vs * 60) by (nonlinear_arith)
                requires
                    0 <= w <= 60,
                    0 <= vs,
            ;
            lemma_hs_in_range(h as int, 60 * vs, vs * w, 60 * (100 * v - vs));
        },
        Color::CYMK { c, y, m, k } => {
            assert forall|a: int, b: int| 0 <= a <= 100 && 0 <= b <= 100 implies 0 <= #[trigger] cmyk_channel(a, b) <= 255 by {
                assert(0 <= (100 - a) * (100 - b) <= 10000) by (nonlinear_arith)
                    requires
                        0 <= a <= 100,
                        0 <= b <= 100,
                ;
            }
            assert(0 <= cmyk_channel(c as int, k as int) <= 255);
            assert(0 <= cmyk_channel(m as int, k as int) <= 255);
            assert(0 <= cmyk_channel(y as int, k as int) <= 255);
        },
        _ => {},
    }
}

impl Color {
    /// Components within their documented bounds.
    pub open spec fn wf(self) -> bool {
        match self {
            Color::HSL { h, s, l } => h < 360 && s <= 100 && l <= 100,
            Color::HSV { h, s, v } => h < 360 && s <= 100 && v <= 100,
            Color::CYMK { c, y, m, k } => c <= 100 && y <= 100 && m <= 100 && k <= 100,
            _ => true,
        }
    }

    /// The RGB channels of a color given in a color model; none for the system
    /// colors and palette indexes.
    pub open spec fn rgb_spec(self) -> Option<(int, int, int)> {
        match self {
            Color::RGB { r, g, b } => Some((r as int, g as int, b as int)),
            Color::HSL { h, s, l } => Some(hsl_to_rgb(h as int, s as int, l as int)),
            Color::HSV { h, s, v } => Some(hsv_to_rgb(h as int, s as int, v as int)),
            Color::CYMK { c, y, m, k } => Some(
                (
                    cmyk_channel(c as int, k as int),
                    cmyk_channel(y as int, k as int),
                    cmyk_channel(m as int, k as int),
                ),
            ),
            _ => None,
        }
    }

    /// The fragment after the role digit: `n` for a system color, `8;5;n` for a
    /// palette index, `8;2;r;g;b` for the rest.
    pub open spec fn ansi_code(self) -> Seq<char> {
        match self {
            Color::BLACK => seq!['0'],
            Color::RED => seq!['1'],
            Color::GREEN => seq!['2'],
            Color::YELLOW => seq!['3'],
            Color::BLUE => seq!['4'],
            Color::MAGENTA => seq!['5'],
            Color::CYAN => seq!['6'],
            Color::WHITE => seq!['7'],
            Color::Ansi(n) => seq!['8', ';', '5', ';'] + decimal(n as nat),
            _ => {
                let (r, g, b) = self.rgb_spec()->0;
                truecolor_code(r, g, b)
            },
        }
    }

    /// The foreground fragment: `3` followed by the color's fragment.
    pub open spec fn fg_code(self) -> Seq<char> {
        seq!['3'] + self.ansi_code()
    }

    /// The background fragment: `4` followed by the color's fragment.
    pub open spec fn bg_code(self) -> Seq<char> {
        seq!['4'] + self.ansi_code()
    }
}

/// The fragment that resets the foreground.
pub open spec fn reset_fg_code() -> Seq<char> {
    seq!['3', '9']
}

/// The fragment that resets the background.
pub open spec fn reset_bg_code() -> Seq<char> {
    seq!['4', '9']
}

fn to_byte(n: u64) -> (r: u8)
    requires
        n <= 600000,
    ensures
        r as int == round_to_byte(n as int),
{
    ((510 * n + 600000) / 1200000) as u8
}

fn hs_channels(h: u16, c: u64, x: u64, m: u64) -> (r: (u8, u8, u8))
    requires
        h < 360,
        x <= c,
        c + m <= 600000,
    ensures
        (r.0 as int, r.1 as int, r.2 as int) == hs_to_rgb(h as int, c as int, x as int, m as int),
{
    let k = h / 60;
    if k == 0 {
        (to_byte(c + m), to_byte(x + m), to_byte(m))
    } else if k == 1 {
        (to_byte(x + m), to_byte(c + m), to_byte(m))
    } else if k == 2 {
        (to_byte(m), to_byte(c + m), to_byte(x + m))
    } else if k == 3 {
        (to_byte(m), to_byte(x + m), to_byte(c + m))
    } else if k == 4 {
        (to_byte(x + m), to_byte(m), to_byte(c + m))
    } else {
        (to_byte(c + m), to_byte(m), to_byte(x + m))
    }
}

fn weight(h: u16) -> (w: u64)
    ensures
        w as int == hue_weight(h as int),
        w <= 60,
{
    let r = h % 120;
    if r < 60 {
        r as u64
    } else {
        (120 - r) as u64
    }
}

fn cmyk_byte(a: u8, k: u8) -> (r: u8)
    requires
        a <= 100,
        k <= 100,
    ensures
        r as int == cmyk_channel(a as int, k as int),
{
    assert((100 - a) * (100 - k) <= 100 * 100) by (nonlinear_arith)
        requires
            a <= 100,
            k <= 100,
    ;
    let p: u64 = (100 - a) as u64 * (100 - k) as u64;
    assert(p <= 10000) by (nonlinear_arith)
        requires
            p == (100 - a) * (100 - k),
            a <= 100,
            k <= 100,
    ;
    (255 * p / 10000) as u8
}

fn hsl_channels(h: u16, s: u8, l: u8) -> (r: (u8, u8, u8))
    requires
        h < 360,
        s <= 100,
        l <= 100,
    ensures
        (r.0 as int, r.1 as int, r.2 as int) == hsl_to_rgb(h as int, s as int, l as int),
{
    let span: u64 = if l >= 50 {
        200 - 2 * (l as u64)
    } else {
        2 * (l as u64)
    };
    assert(span * s <= 200 * 100) by (nonlinear_arith)
        requires
            span <= 200,
            s <= 100,
    ;
    let c1: u64 = span * (s as u64);
    assert(c1 <= 200 * l && c1 <= 200 * (100 - l)) by (nonlinear_arith)
        requires
            c1 == span * s,
            s <= 100,
            l <= 100,
            l >= 50 ==> span == 200 - 2 * l,
            l < 50 ==> span == 2 * l,
    ;
    let w = weight(h);
    assert(c1 * w <= c1 * 60) by (nonlinear_arith)
        requires
            w <= 60,
    ;
    hs_channels(h, 60 * c1, c1 * w, 30 * (200 * (l as u64) - c1))
}

fn hsv_channels(h: u16, s: u8, v: u8) -> (r: (u8, u8, u8))
    requires
        h < 360,
        s <= 100,
        v <= 100,
    ensures
        (r.0 as int, r.1 as int, r.2 as int) == hsv_to_rgb(h as int, s as int, v as int),
{
    assert(v * s <= 100 * 100) by (nonlinear_arith)
        requires
            v <= 100,
            s <= 100,
    ;
    let vs: u64 = (v as u64) * (s as u64);
    assert(vs <= 100 * v && vs <= 10000) by (nonlinear_arith)
        requires
            vs == v * s,
            s <= 100,
            v <= 100,
    ;
    let w = weight(h);
    assert(vs * w <= vs * 60) by (nonlinear_arith)
        requires
            w <= 60,
    ;
    hs_channels(h, 60 * vs, vs * w, 60 * (100 * (v as u64) - vs))
}

fn is_hex(c: char) -> (r: bool)
    ensures
        r == is_hex_digit(c),
{
    ('0' <= c && c <= '9') || ('a' <= c && c <= 'f') || ('A' <= c && c <= 'F')
}

fn hex_val(c: char) -> (r: u8)
    requires
        is_hex_digit(c),
    ensures
        r as int == hex_value(c),
        r < 16,
{
    if '0' <= c && c <= '9' {
        (c as u32 - 48) as u8
    } else if 'a' <= c && c <= 'f' {
        (c as u32 - 87) as u8
    } else {
        (c as u32 - 55) as u8
    }
}

/// The byte written by the digits `hi` and `lo`.
fn byte_of(hi: char, lo: char) -> (r: u8)
    requires
        is_hex_digit(hi),
        is_hex_digit(lo),
    ensures
        r as int == 16 * hex_value(hi) + hex_value(lo),
{
    16 * hex_val(hi) + hex_val(lo)
}

/// Appends `8;2;r;g;b`.
fn push_truecolor(out: &mut String, r: u8, g: u8, b: u8)
    ensures
        final(out)@ == old(out)@ + truecolor_code(r as int, g as int, b as int),
{
    out.push('8');
    out.push(';');
    out.push('2');
    out.push(';');
    push_decimal(out, r);
    out.push(';');
    push_decimal(out, g);
    out.push(';');
    push_decimal(out, b);
    assert(final(out)@ =~= old(out)@ + truecolor_code(r as int, g as int, b as int));
}

impl Color {
    /// A color given by its red, green and blue channels.
    pub fn rgb(r: u8, g: u8, b: u8) -> (c: Color)
        ensures
            c == (Color::RGB { r, g, b }),
    {
        Color::RGB { r, g, b }
    }

    /// Reads a hex color literal (`#f43f5e`, `f43f5e`, `#abc`, with or without
    /// alpha); fails with `InvalidFormat` when malformed.
    pub fn hex(hex: &str) -> (r: Result<Color, Error>)
        ensures
            r == parse_hex(hex@),
    {
        let n = hex.unicode_len();
        if n == 0 || n > 9 {
            proof {
                let d = hex_digits(hex@);
                assert(!hex_well_formed(d));
            }
            return Err(Error::InvalidFormat);
        }
        let start: usize = if hex.get_char(0) == '#' {
            1
        } else {
            0
        };
        let ghost d = hex_digits(hex@);
        assert(d =~= hex@.subrange(start as int, n as int));
        let len = n - start;
        if !(len == 3 || len == 4 || len == 6 || len == 8) {
            return Err(Error::InvalidFormat);
        }
        let mut i: usize = start;
        while i < n
            invariant
                start <= i <= n,
                n == hex@.len(),
                d =~= hex@.subrange(start as int, n as int),
                d == hex_digits(hex@),
                forall|j: int| 0 <= j < i - start ==> is_hex_digit(#[trigger] d[j]),
            decreases n - i,
        {
            let c = hex.get_char(i);
            if !is_hex(c) {
                assert(d[i - start] == c);
                assert(!hex_well_formed(d));
                return Err(Error::InvalidFormat);
            }
            i = i + 1;
        }
        assert(hex_well_formed(d));
        let ghost e = hex_expand(d);
        let short = len <= 4;
        let (r, g, b) = if short {
            let c0 = hex.get_char(start);
            let c1 = hex.get_char(start + 1);
            let c2 = hex.get_char(start + 2);
            assert(e[0] == d[0] && e[1] == d[0] && e[2] == d[1] && e[3] == d[1] && e[4] == d[2]
                && e[5] == d[2]);
            (byte_of(c0, c0), byte_of(c1, c1), byte_of(c2, c2))
        } else {
            (
                byte_of(hex.get_char(start), hex.get_char(start + 1)),
                byte_of(hex.get_char(start + 2), hex.get_char(start + 3)),
                byte_of(hex.get_char(start + 4), hex.get_char(start + 5)),
            )
        };
        Ok(Color::RGB { r, g, b })
    }

    /// Whether the components lie within their bounds.
    pub fn is_valid(&self) -> (r: bool)
        ensures
            r == self.wf(),
    {
        match *self {
            Color::HSL { h, s, l } => h < 360 && s <= 100 && l <= 100,
            Color::HSV { h, s, v } => h < 360 && s <= 100 && v <= 100,
            Color::CYMK { c, y, m, k } => c <= 100 && y <= 100 && m <= 100 && k <= 100,
            _ => true,
        }
    }

    /// An HSL color; fails naming saturation, then lightness, then hue when
    /// out of range.
    pub fn hsl(h: u16, s: u8, l: u8) -> (r: Result<Color, Error>)
        ensures
            s > 100 ==> r == Err::<Color, Error>(Error::OutOfRange(Component::Saturation)),
            s <= 100 && l > 100 ==> r == Err::<Color, Error>(
                Error::OutOfRange(Component::Lightness),
            ),
            s <= 100 && l <= 100 && h >= 360 ==> r == Err::<Color, Error>(
                Error::OutOfRange(Component::Hue),
            ),
            s <= 100 && l <= 100 && h < 360 ==> r == Ok::<Color, Error>(Color::HSL { h, s, l }),
    {
        if s > 100 {
            Err(Error::OutOfRange(Component::Saturation))
        } else if l > 100 {
            Err(Error::OutOfRange(Component::Lightness))
        } else if h >= 360 {
            Err(Error::OutOfRange(Component::Hue))
        } else {
            Ok(Color::HSL { h, s, l })
        }
    }

    /// An HSV color; fails naming saturation, then value, then hue when out of
    /// range.
    pub fn hsv(h: u16, s: u8, v: u8) -> (r: Result<Color, Error>)
        ensures
            s > 100 ==> r == Err::<Color, Error>(Error::OutOfRange(Component::Saturation)),
            s <= 100 && v > 100 ==> r == Err::<Color, Error>(Error::OutOfRange(Component::Value)),
            s <= 100 && v <= 100 && h >= 360 ==> r == Err::<Color, Error>(
                Error::OutOfRange(Component::Hue),
            ),
            s <= 100 && v <= 100 && h < 360 ==> r == Ok::<Color, Error>(Color::HSV { h, s, v }),
    {
        if s > 100 {
            Err(Error::OutOfRange(Component::Saturation))
        } else if v > 100 {
            Err(Error::OutOfRange(Component::Value))
        } else if h >= 360 {
            Err(Error::OutOfRange(Component::Hue))
        } else {
            Ok(Color::HSV { h, s, v })
        }
    }

    /// A CMYK color, components in the order cyan, yellow, magenta, key; fails
    /// naming the first component above 100.
    pub fn cymk(c: u8, y: u8, m: u8, k: u8) -> (r: Result<Color, Error>)
        ensures
            c > 100 ==> r == Err::<Color, Error>(Error::OutOfRange(Component::Cyan)),
            c <= 100 && y > 100 ==> r == Err::<Color, Error>(Error::OutOfRange(Component::Yellow)),
            c <= 100 && y <= 100 && m > 100 ==> r == Err::<Color, Error>(
                Error::OutOfRange(Component::Magenta),
            ),
            c <= 100 && y <= 100 && m <= 100 && k > 100 ==> r == Err::<Color, Error>(
                Error::OutOfRange(Component::Key),
            ),
            c <= 100 && y <= 100 && m <= 100 && k <= 100 ==> r == Ok::<Color, Error>(
                Color::CYMK { c, y, m, k },
            ),
    {
        if c > 100 {
            Err(Error::OutOfRange(Component::Cyan))
        } else if y > 100 {
            Err(Error::OutOfRange(Component::Yellow))
        } else if m > 100 {
            Err(Error::OutOfRange(Component::Magenta))
        } else if k > 100 {
            Err(Error::OutOfRange(Component::Key))
        } else {
            Ok(Color::CYMK { c, y, m, k })
        }
    }

    /// The red, green and blue channels of a color given in a color model.
    pub fn to_rgb(&self) -> (r: Option<(u8, u8, u8)>)
        requires
            self.wf(),
        ensures
            r matches Some(t) ==> self.rgb_spec() == Some((t.0 as int, t.1 as int, t.2 as int)),
            r is None <==> self.rgb_spec() is None,
    {
        match *self {
            Color::RGB { r, g, b } => Some((r, g, b)),
            Color::HSL { h, s, l } => Some(hsl_channels(h, s, l)),
            Color::HSV { h, s, v } => Some(hsv_channels(h, s, v)),
            Color::CYMK { c, y, m, k } => Some((cmyk_byte(c, k), cmyk_byte(y, k), cmyk_byte(m, k))),
            _ => None,
        }
    }

    /// Appends the color's fragment.
    fn push_ansi(&self, out: &mut String)
        requires
            self.wf(),
        ensures
            final(out)@ == old(out)@ + self.ansi_code(),
    {
        let ghost start = out@;
        match *self {
            Color::BLACK => out.push('0'),
            Color::RED => out.push('1'),
            Color::GREEN => out.push('2'),
            Color::YELLOW => out.push('3'),
            Color::BLUE => out.push('4'),
            Color::MAGENTA => out.push('5'),
            Color::CYAN => out.push('6'),
            Color::WHITE => out.push('7'),
            Color::Ansi(n) => {
                out.push('8');
                out.push(';');
                out.push('5');
                out.push(';');
                push_decimal(out, n);
            },
            _ => {
                let t = self.to_rgb();
                let (r, g, b) = t.unwrap();
                push_truecolor(out, r, g, b);
            },
        }
        assert(out@ =~= start + self.ansi_code());
    }

    /// The foreground fragment, such as `31` or `38;2;r;g;b`.
    pub fn fg(&self) -> (r: String)
        requires
            self.wf(),
        ensures
            r@ == self.fg_code(),
    {
        let mut out = String::new();
        out.push('3');
        self.push_ansi(&mut out);
        assert(out@ =~= self.fg_code());
        out
    }

    /// The background fragment, such as `41` or `48;5;n`.
    pub fn bg(&self) -> (r: String)
        requires
            self.wf(),
        ensures
            r@ == self.bg_code(),
    {
        let mut out = String::new();
        out.push('4');
        self.push_ansi(&mut out);
        assert(out@ =~= self.bg_code());
        out
    }

    /// `39`: the foreground reset.
    pub fn reset_fg(&self) -> (r: String)
        ensures
            r@ == reset_fg_code(),
    {
        let mut out = String::new();
        out.push('3');
        out.push('9');
        assert(out@ =~= reset_fg_code());
        out
    }

    /// `49`: the background reset.
    pub fn reset_bg(&self) -> (r: String)
        ensures
            r@ == reset_bg_code(),
    {
        let mut out = String::new();
        out.push('4');
        out.push('9');
        assert(out@ =~= reset_bg_code());
        out
    }
}

impl AnsiSequence for Color {
    open spec fn printable(&self) -> bool {
        self.wf()
    }

    open spec fn ansi_spec(&self) -> Seq<char> {
        self.ansi_code()
    }

    open spec fn reset_ansi_spec(&self) -> Seq<char> {
        seq!['9']
    }

    open spec fn sequence_spec(&self) -> Seq<char> {
        sgr(self.ansi_code())
    }

    open spec fn reset_sequence_spec(&self) -> Seq<char> {
        sgr(seq!['9'])
    }

    fn ansi(&self) -> (r: String) {
        let mut out = String::new();
        self.push_ansi(&mut out);
        assert(out@ =~= self.ansi_code());
        out
    }

    fn reset_ansi(&self) -> (r: String) {
        let mut out = String::new();
        out.push('9');
        assert(out@ =~= seq!['9']);
        out
    }

    fn sequence(&self) -> (r: String) {
        sgr_of(&self.ansi())
    }

    fn reset_sequence(&self) -> (r: String) {
        sgr_of(&self.reset_ansi())
    }
}

impl From<u8> for Color {
    fn from(value: u8) -> (c: Color) {
        Color::Ansi(value)
    }
}

impl vstd::std_specs::convert::FromSpecImpl<u8> for Color {
    open spec fn obeys_from_spec() -> bool {
        true
    }

    open spec fn from_spec(v: u8) -> Color {
        Color::Ansi(v)
    }
}

} // verus!
