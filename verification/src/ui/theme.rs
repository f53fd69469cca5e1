//! Colour themes: colours as theme files write them, and the names of theme files.
use vstd::prelude::*;
use vstd::string::StringExecFns;

use crate::text::{
    ascii_lowered, is_ascii_text, lowercase, no_ascii_upper, to_lowercase, all_hex, at_range, chars_of, digit_char, digit_value, hex, hex_value, is_hex_digit,
    is_unicode_ws, lead_ws, parse_hex_u32, parse_hex_u32_at, push_char, push_hex, trail_ws, trim,
    trim_range, unsigned_body, zero_padded,
};

verus! {

/// Key of the theme used when the saved one no longer exists.
pub const DEFAULT_KEY: &'static str = "jade";

/// Keys of themes loaded from files are prefixed so they can't collide with presets.
pub const CUSTOM_PREFIX: &'static str = "custom:";

/// An opaque colour, stored as `"#rrggbb"` in theme files.
#[derive(Clone, Copy, Debug, PartialEq, Eq)]
pub struct ThemeColor {
    pub r: u8,
    pub g: u8,
    pub b: u8,
}

pub open spec fn color_of(rgb: u32) -> ThemeColor {
    ThemeColor { r: ((rgb / 65536) % 256) as u8, g: ((rgb / 256) % 256) as u8, b: (rgb % 256) as u8 }
}

/// The text after trimming and dropping one leading `#`.
pub open spec fn hex_part(text: Seq<char>) -> Seq<char> {
    let t = trim(text);
    if t.len() > 0 && t[0] == '#' {
        t.drop_first()
    } else {
        t
    }
}

/// A colour as theme files write it: six hex digits of either case, after an
/// optional `#` and surrounding whitespace.
pub open spec fn parsed_color(text: Seq<char>) -> Option<ThemeColor> {
    let h = hex_part(text);
    if h.len() == 6 && all_hex(h) {
        Some(color_of(hex_value(h) as u32))
    } else {
        None
    }
}

/// Six hex digits are worth less than `0x1000000`.
proof fn lemma_six_hex_digits_fit(h: Seq<char>)
    requires
        h.len() == 6,
        all_hex(h),
    ensures
        hex_value(h) < 0x1000000,
        parse_hex_u32(h) == Some(hex_value(h) as u32),
{
    lemma_hex_value_below(h);
    reveal_with_fuel(pow16, 7);
    assert(!is_hex_digit('+'));
    assert(h[0] != '+');
    assert(unsigned_body(h) =~= h);
}

proof fn lemma_hex_value_below(s: Seq<char>)
    requires
        all_hex(s),
    ensures
        hex_value(s) < pow16(s.len()),
    decreases s.len(),
{
    if s.len() > 0 {
        let f = s.drop_last();
        assert(all_hex(f)) by {
            assert forall|i: int| 0 <= i < f.len() implies is_hex_digit(#[trigger] f[i]) by {
                assert(f[i] == s[i]);
            }
        }
        lemma_hex_value_below(f);
        assert(is_hex_digit(s[s.len() - 1]));
        let d = digit_value(s.last());
        assert(d < 16);
        let a = hex_value(f);
        let b = pow16(f.len());
        assert(a * 16 + d < 16 * b) by (nonlinear_arith)
            requires
                a < b,
                d < 16,
        ;
    }
}

spec fn pow16(n: nat) -> nat
    decreases n,
{
    if n == 0 {
        1
    } else {
        16 * pow16((n - 1) as nat)
    }
}

pub open spec fn color_text(c: ThemeColor) -> Seq<char> {
    seq!['#'] + zero_padded(hex(c.r as nat), 2) + zero_padded(hex(c.g as nat), 2) + zero_padded(
        hex(c.b as nat),
        2,
    )
}

impl ThemeColor {
    /// The colour `0xRRGGBB`.
    pub fn hex(rgb: u32) -> (c: Self)
        ensures
            c == color_of(rgb),
    {
        proof {
            assert((rgb >> 16u32) & 0xff == (rgb / 65536) % 256) by (bit_vector);
            assert((rgb >> 8u32) & 0xff == (rgb / 256) % 256) by (bit_vector);
            assert(rgb & 0xff == rgb % 256) by (bit_vector);
        }
        ThemeColor { r: ((rgb >> 16u32) & 0xff) as u8, g: ((rgb >> 8u32) & 0xff) as u8, b: (rgb & 0xff) as u8 }
    }

    pub fn parse(text: &str) -> (c: Option<Self>)
        ensures
            c == parsed_color(text@),
    {
        let v = chars_of(text);
        let t = trim_range(&v, 0, v.len());
        proof {
            assert(v@.subrange(0, v@.len() as int) =~= text@);
        }
        let start = if t.0 < t.1 && v[t.0] == '#' {
            t.0 + 1
        } else {
            t.0
        };
        proof {
            assert(at_range(v@, (start, t.1)) =~= hex_part(text@));
        }
        if t.1 - start != 6 {
            return None;
        }
        let ghost h = hex_part(text@);
        if v[start] == '+' {
            proof {
                assert(h[0] == '+');
                assert(!is_hex_digit(h[0]));
            }
            return None;
        }
        proof {
            assert(h[0] == v@[start as int]);
            assert(unsigned_body(h) =~= h);
            if all_hex(h) {
                lemma_six_hex_digits_fit(h);
            }
        }
        match parse_hex_u32_at(&v, (start, t.1)) {
            Some(rgb) => Some(ThemeColor::hex(rgb)),
            None => None,
        }
    }

    /// `"#rrggbb"`, lower case (what `Display` writes).
    pub fn to_hex_string(&self) -> (s: String)
        ensures
            s@ == color_text(*self),
    {
        let mut s = String::new();
        push_char(&mut s, '#');
        push_hex(&mut s, self.r as u64, 2);
        push_hex(&mut s, self.g as u64, 2);
        push_hex(&mut s, self.b as u64, 2);
        s
    }
}

proof fn lemma_digit(d: nat)
    requires
        d < 16,
    ensures
        is_hex_digit(digit_char(d)),
        digit_value(digit_char(d)) == d,
        !is_unicode_ws(digit_char(d)),
        digit_char(d) != '+',
{
}

proof fn lemma_byte_hex(n: u8)
    ensures
        ({
            let s = zero_padded(hex(n as nat), 2);
            &&& s.len() == 2
            &&& all_hex(s)
            &&& hex_value(s) == n
            &&& s[0] != '+'
            &&& !is_unicode_ws(s[1])
        }),
{
    let s = zero_padded(hex(n as nat), 2);
    if n < 16 {
        lemma_digit(n as nat);
        assert(hex(n as nat) =~= seq![digit_char(n as nat)]);
        assert(s =~= seq!['0', digit_char(n as nat)]);
        assert(s.drop_last() =~= seq!['0']);
        assert(seq!['0'].drop_last() =~= Seq::<char>::empty());
        assert(hex_value(seq!['0']) == hex_value(Seq::<char>::empty()) * 16 + digit_value('0'));
        assert(hex_value(s) == hex_value(seq!['0']) * 16 + digit_value(digit_char(n as nat)));
        assert(is_hex_digit(s[0]) && is_hex_digit(s[1]));
    } else {
        lemma_digit((n / 16) as nat);
        lemma_digit((n % 16) as nat);
        assert(hex((n / 16) as nat) =~= seq![digit_char((n / 16) as nat)]);
        assert(hex(n as nat) =~= seq![digit_char((n / 16) as nat), digit_char((n % 16) as nat)]);
        assert(s =~= hex(n as nat));
        assert(s.drop_last() =~= seq![digit_char((n / 16) as nat)]);
        assert(seq![digit_char((n / 16) as nat)].drop_last() =~= Seq::<char>::empty());
        assert(hex_value(seq![digit_char((n / 16) as nat)]) == hex_value(Seq::<char>::empty()) * 16
            + digit_value(digit_char((n / 16) as nat)));
        assert(hex_value(s) == hex_value(seq![digit_char((n / 16) as nat)]) * 16 + digit_value(
            digit_char((n % 16) as nat),
        ));
        assert(is_hex_digit(s[0]) && is_hex_digit(s[1]));
    }
}

proof fn lemma_hex_value_append2(a: Seq<char>, b: Seq<char>)
    requires
        b.len() == 2,
    ensures
        hex_value(a + b) == hex_value(a) * 256 + hex_value(b),
{
    assert((a + b).drop_last() =~= a.push(b[0]));
    assert((a + b).last() == b[1]);
    assert(a.push(b[0]).drop_last() =~= a);
    assert(a.push(b[0]).last() == b[0]);
    assert(b.drop_last() =~= seq![b[0]]);
    assert(seq![b[0]].drop_last() =~= Seq::<char>::empty());
    assert(hex_value(a + b) == hex_value(a.push(b[0])) * 16 + digit_value(b[1]));
    assert(hex_value(a.push(b[0])) == hex_value(a) * 16 + digit_value(b[0]));
    assert(hex_value(seq![b[0]]) == hex_value(Seq::<char>::empty()) * 16 + digit_value(b[0]));
    assert(hex_value(b) == hex_value(seq![b[0]]) * 16 + digit_value(b[1]));
}

// ---------------------------------------------------------------------------------
// Themes

/// Optional overrides for colours that are normally derived.
#[derive(Clone, Copy, Debug, PartialEq, Eq)]
pub struct Advanced {
    pub card: Option<ThemeColor>,
    pub card_stroke: Option<ThemeColor>,
    pub well: Option<ThemeColor>,
    pub grid: Option<ThemeColor>,
    pub cpu: Option<ThemeColor>,
    pub ram: Option<ThemeColor>,
    pub swap: Option<ThemeColor>,
    pub read: Option<ThemeColor>,
    pub write: Option<ThemeColor>,
    pub rx: Option<ThemeColor>,
    pub tx: Option<ThemeColor>,
    pub load_low: Option<ThemeColor>,
    pub load_mid: Option<ThemeColor>,
    pub load_high: Option<ThemeColor>,
}

impl Default for Advanced {
    fn default() -> (a: Self)
        ensures
            a.card is None,
            a.card_stroke is None,
            a.well is None,
            a.grid is None,
            a.cpu is None,
            a.ram is None,
            a.swap is None,
            a.read is None,
            a.write is None,
            a.rx is None,
            a.tx is None,
            a.load_low is None,
            a.load_mid is None,
            a.load_high is None,
    {
        Advanced {
            card: None,
            card_stroke: None,
            well: None,
            grid: None,
            cpu: None,
            ram: None,
            swap: None,
            read: None,
            write: None,
            rx: None,
            tx: None,
            load_low: None,
            load_mid: None,
            load_high: None,
        }
    }
}

/// Everything that defines a theme; this is exactly what a theme file contains.
#[derive(Clone, Debug, PartialEq)]
pub struct ThemeSpec {
    pub name: String,
    /// Light themes derive darker borders and buttons from the background instead of
    /// lighter ones.
    pub light: bool,
    pub bg_top: ThemeColor,
    pub bg_bottom: ThemeColor,
    pub text: ThemeColor,
    pub text_dim: ThemeColor,
    pub accent: ThemeColor,
    pub accent2: ThemeColor,
    pub advanced: Advanced,
}

/// A theme of six colours, `[bg_top, bg_bottom, text, text_dim, accent, accent2]` as
/// `0xRRGGBB`, with nothing overridden.
pub fn preset(name: &str, light: bool, c: [u32; 6]) -> (t: ThemeSpec)
    ensures
        t.name@ == name@,
        t.light == light,
        t.bg_top == color_of(c[0]),
        t.bg_bottom == color_of(c[1]),
        t.text == color_of(c[2]),
        t.text_dim == color_of(c[3]),
        t.accent == color_of(c[4]),
        t.accent2 == color_of(c[5]),
        t.advanced == Advanced::default_spec(),
{
    ThemeSpec {
        name: name.to_owned(),
        light,
        bg_top: ThemeColor::hex(c[0]),
        bg_bottom: ThemeColor::hex(c[1]),
        text: ThemeColor::hex(c[2]),
        text_dim: ThemeColor::hex(c[3]),
        accent: ThemeColor::hex(c[4]),
        accent2: ThemeColor::hex(c[5]),
        advanced: Advanced::default(),
    }
}

impl Advanced {
    pub open spec fn default_spec() -> Advanced {
        Advanced {
            card: None,
            card_stroke: None,
            well: None,
            grid: None,
            cpu: None,
            ram: None,
            swap: None,
            read: None,
            write: None,
            rx: None,
            tx: None,
            load_low: None,
            load_mid: None,
            load_high: None,
        }
    }
}

/// Keys of the built-in themes, in the order they are offered. Keys are stored in the
/// config file; never rename them.
pub open spec fn preset_keys() -> Seq<Seq<char>> {
    seq![
        "jade"@,
        "amber"@,
        "vscode-dark-modern"@,
        "vscode-dark-plus"@,
        "abyss"@,
        "kimbie-dark"@,
        "tomorrow-night-blue"@,
        "high-contrast"@,
        "monokai"@,
        "solarized"@,
        "one-dark-pro"@,
        "tokyo-night"@,
        "catppuccin-mocha"@,
        "github-dark"@,
        "night-owl"@,
        "ayu-mirage"@,
        "rose-pine"@,
        "everforest"@,
        "kanagawa"@,
        "dracula"@,
        "nord"@,
        "gruvbox"@,
        "vscode-light-modern"@,
        "quiet-light"@,
        "catppuccin-latte"@,
        "github-light"@,
        "solarized-light"@,
    ]
}

/// A built-in theme as the table lists it: its key, its name, whether it is light,
/// `[bg_top, bg_bottom, text, text_dim, accent, accent2]` as `0xRRGGBB`, the red of a
/// maxed-out load meter, and the calm-load colour, card and card border it sets, if
/// any.
#[derive(Clone, Copy, Debug, PartialEq, Eq)]
pub struct PresetRow {
    pub key: &'static str,
    pub name: &'static str,
    pub light: bool,
    pub colors: [u32; 6],
    pub maxed: u32,
    pub calm: Option<u32>,
    pub card: Option<u32>,
    pub border: Option<u32>,
}

/// How many built-in themes there are.
pub const PRESET_COUNT: usize = 27;

/// The built-in theme at `i` (the last one past the end).
pub open spec fn preset_row(i: int) -> PresetRow {
    if i == 0 {
        PresetRow {
            key: "jade",
            name: "Jade",
            light: false,
            colors: [0x0f332a, 0x061713, 0xe4f2ec, 0x8fb5a8, 0xff8c32, 0x5fe3b8],
            maxed: 0xff4d4d,
            calm: None,
            card: None,
            border: None,
        }
    } else if i == 1 {
        // Amber's second accent is orange, which reads as "busy", not "calm".
        PresetRow {
            key: "amber",
            name: "Terminal Amber",
            light: false,
            colors: [0x14120a, 0x000000, 0xffd99a, 0xa87d45, 0xffb000, 0xff6a00],
            maxed: 0xff3b1f,
            calm: Some(0xa87d45),
            card: None,
            border: None,
        }
    } else if i == 2 {
        PresetRow {
            key: "vscode-dark-modern",
            name: "Dark Modern",
            light: false,
            colors: [0x1f1f1f, 0x181818, 0xcccccc, 0x9d9d9d, 0x0078d4, 0x4ec9b0],
            maxed: 0xf14c4c,
            calm: None,
            card: None,
            border: None,
        }
    } else if i == 3 {
        PresetRow {
            key: "vscode-dark-plus",
            name: "Dark+",
            light: false,
            colors: [0x252526, 0x1e1e1e, 0xd4d4d4, 0x858585, 0x569cd6, 0xce9178],
            maxed: 0xf44747,
            calm: None,
            card: None,
            border: None,
        }
    } else if i == 4 {
        PresetRow {
            key: "abyss",
            name: "Abyss",
            light: false,
            colors: [0x051336, 0x000c18, 0xa6b7e6, 0x5d7599, 0xddbb88, 0x22aa44],
            maxed: 0xf25c5c,
            calm: None,
            card: None,
            border: None,
        }
    } else if i == 5 {
        PresetRow {
            key: "kimbie-dark",
            name: "Kimbie Dark",
            light: false,
            colors: [0x362712, 0x221a0f, 0xd3af86, 0xa57a4c, 0xf06431, 0x889b4a],
            maxed: 0xdc3958,
            calm: None,
            card: None,
            border: None,
        }
    } else if i == 6 {
        PresetRow {
            key: "tomorrow-night-blue",
            name: "Tomorrow Night Blue",
            light: false,
            colors: [0x00346e, 0x002451, 0xffffff, 0x7285b7, 0xffc58f, 0x99ffff],
            maxed: 0xff9da4,
            calm: None,
            card: None,
            border: None,
        }
    } else if i == 7 {
        PresetRow {
            key: "high-contrast",
            name: "High Contrast",
            light: false,
            colors: [0x000000, 0x000000, 0xffffff, 0xd0d0d0, 0x6fc3df, 0xf38518],
            maxed: 0xff5f5f,
            calm: None,
            card: Some(0x000000),
            border: Some(0x6fc3df),
        }
    } else if i == 8 {
        PresetRow {
            key: "monokai",
            name: "Monokai",
            light: false,
            colors: [0x2f302a, 0x1e1f1c, 0xf8f8f2, 0xa1a19a, 0xf92672, 0xa6e22e],
            maxed: 0xff2d55,
            calm: None,
            card: None,
            border: None,
        }
    } else if i == 9 {
        PresetRow {
            key: "solarized",
            name: "Solarized Dark",
            light: false,
            colors: [0x073642, 0x002b36, 0x93a1a1, 0x586e75, 0xb58900, 0x268bd2],
            maxed: 0xdc322f,
            calm: None,
            card: None,
            border: None,
        }
    } else if i == 10 {
        PresetRow {
            key: "one-dark-pro",
            name: "One Dark Pro",
            light: false,
            colors: [0x282c34, 0x21252b, 0xabb2bf, 0x7f848e, 0x61afef, 0x98c379],
            maxed: 0xe06c75,
            calm: None,
            card: None,
            border: None,
        }
    } else if i == 11 {
        PresetRow {
            key: "tokyo-night",
            name: "Tokyo Night",
            light: false,
            colors: [0x1a1b26, 0x16161e, 0xc0caf5, 0x787c99, 0x7aa2f7, 0xbb9af7],
            maxed: 0xf7768e,
            calm: None,
            card: None,
            border: None,
        }
    } else if i == 12 {
        PresetRow {
            key: "catppuccin-mocha",
            name: "Catppuccin Mocha",
            light: false,
            colors: [0x1e1e2e, 0x11111b, 0xcdd6f4, 0xa6adc8, 0xcba6f7, 0xfab387],
            maxed: 0xf38ba8,
            calm: None,
            card: None,
            border: None,
        }
    } else if i == 13 {
        PresetRow {
            key: "github-dark",
            name: "GitHub Dark",
            light: false,
            colors: [0x161b22, 0x0d1117, 0xe6edf3, 0x7d8590, 0x2f81f7, 0x3fb950],
            maxed: 0xf85149,
            calm: None,
            card: None,
            border: None,
        }
    } else if i == 14 {
        PresetRow {
            key: "night-owl",
            name: "Night Owl",
            light: false,
            colors: [0x0b2942, 0x011627, 0xd6deeb, 0x5f7e97, 0x82aaff, 0xc792ea],
            maxed: 0xef5350,
            calm: None,
            card: None,
            border: None,
        }
    } else if i == 15 {
        PresetRow {
            key: "ayu-mirage",
            name: "Ayu Mirage",
            light: false,
            colors: [0x242936, 0x1f2430, 0xcccac2, 0x707a8c, 0xffcc66, 0x73d0ff],
            maxed: 0xf28779,
            calm: None,
            card: None,
            border: None,
        }
    } else if i == 16 {
        PresetRow {
            key: "rose-pine",
            name: "Rosé Pine",
            light: false,
            colors: [0x1f1d2e, 0x191724, 0xe0def4, 0x908caa, 0xeb6f92, 0x9ccfd8],
            maxed: 0xff5c8a,
            calm: None,
            card: None,
            border: None,
        }
    } else if i == 17 {
        PresetRow {
            key: "everforest",
            name: "Everforest",
            light: false,
            colors: [0x2d353b, 0x232a2e, 0xd3c6aa, 0x859289, 0xa7c080, 0xe69875],
            maxed: 0xe67e80,
            calm: None,
            card: None,
            border: None,
        }
    } else if i == 18 {
        PresetRow {
            key: "kanagawa",
            name: "Kanagawa",
            light: false,
            colors: [0x1f1f28, 0x16161d, 0xdcd7ba, 0x727169, 0x7e9cd8, 0xffa066],
            maxed: 0xff5d62,
            calm: None,
            card: None,
            border: None,
        }
    } else if i == 19 {
        PresetRow {
            key: "dracula",
            name: "Dracula",
            light: false,
            colors: [0x2c2e3f, 0x1a1b26, 0xf8f8f2, 0x9a9cb8, 0xbd93f9, 0xff79c6],
            maxed: 0xff5555,
            calm: None,
            card: None,
            border: None,
        }
    } else if i == 20 {
        PresetRow {
            key: "nord",
            name: "Nord",
            light: false,
            colors: [0x3b4252, 0x2e3440, 0xeceff4, 0x9dabbd, 0x88c0d0, 0xa3be8c],
            maxed: 0xbf616a,
            calm: None,
            card: None,
            border: None,
        }
    } else if i == 21 {
        PresetRow {
            key: "gruvbox",
            name: "Gruvbox Dark",
            light: false,
            colors: [0x32302f, 0x1d2021, 0xebdbb2, 0xa89984, 0xfe8019, 0xb8bb26],
            maxed: 0xfb4934,
            calm: None,
            card: None,
            border: None,
        }
    } else if i == 22 {
        PresetRow {
            key: "vscode-light-modern",
            name: "Light Modern",
            light: true,
            colors: [0xf3f3f3, 0xe8e8e8, 0x3b3b3b, 0x6e7681, 0x005fb8, 0x0f8a4c],
            maxed: 0xcd3131,
            calm: None,
            card: None,
            border: None,
        }
    } else if i == 23 {
        PresetRow {
            key: "quiet-light",
            name: "Quiet Light",
            light: true,
            colors: [0xf5f5f5, 0xe7e7e7, 0x333333, 0x7a7a7a, 0x7a3e9d, 0x448c27],
            maxed: 0xaa3731,
            calm: None,
            card: None,
            border: None,
        }
    } else if i == 24 {
        PresetRow {
            key: "catppuccin-latte",
            name: "Catppuccin Latte",
            light: true,
            colors: [0xeff1f5, 0xdce0e8, 0x4c4f69, 0x6c6f85, 0x8839ef, 0xfe640b],
            maxed: 0xd20f39,
            calm: None,
            card: None,
            border: None,
        }
    } else if i == 25 {
        PresetRow {
            key: "github-light",
            name: "GitHub Light",
            light: true,
            colors: [0xf6f8fa, 0xeaeef2, 0x1f2328, 0x656d76, 0x0969da, 0x1a7f37],
            maxed: 0xd1242f,
            calm: None,
            card: None,
            border: None,
        }
    } else {
        PresetRow {
            key: "solarized-light",
            name: "Solarized Light",
            light: true,
            colors: [0xfdf6e3, 0xeee8d5, 0x586e75, 0x93a1a1, 0xb58900, 0x268bd2],
            maxed: 0xdc322f,
            calm: None,
            card: None,
            border: None,
        }
    }
}

fn preset_at(i: usize) -> (r: PresetRow)
    ensures
        r == preset_row(i as int),
{
    match i {
        0 => PresetRow {
            key: "jade",
            name: "Jade",
            light: false,
            colors: [0x0f332a, 0x061713, 0xe4f2ec, 0x8fb5a8, 0xff8c32, 0x5fe3b8],
            maxed: 0xff4d4d,
            calm: None,
            card: None,
            border: None,
        },
        1 => PresetRow {
            key: "amber",
            name: "Terminal Amber",
            light: false,
            colors: [0x14120a, 0x000000, 0xffd99a, 0xa87d45, 0xffb000, 0xff6a00],
            maxed: 0xff3b1f,
            calm: Some(0xa87d45),
            card: None,
            border: None,
        },
        2 => PresetRow {
            key: "vscode-dark-modern",
            name: "Dark Modern",
            light: false,
            colors: [0x1f1f1f, 0x181818, 0xcccccc, 0x9d9d9d, 0x0078d4, 0x4ec9b0],
            maxed: 0xf14c4c,
            calm: None,
            card: None,
            border: None,
        },
        3 => PresetRow {
            key: "vscode-dark-plus",
            name: "Dark+",
            light: false,
            colors: [0x252526, 0x1e1e1e, 0xd4d4d4, 0x858585, 0x569cd6, 0xce9178],
            maxed: 0xf44747,
            calm: None,
            card: None,
            border: None,
        },
        4 => PresetRow {
            key: "abyss",
            name: "Abyss",
            light: false,
            colors: [0x051336, 0x000c18, 0xa6b7e6, 0x5d7599, 0xddbb88, 0x22aa44],
            maxed: 0xf25c5c,
            calm: None,
            card: None,
            border: None,
        },
        5 => PresetRow {
            key: "kimbie-dark",
            name: "Kimbie Dark",
            light: false,
            colors: [0x362712, 0x221a0f, 0xd3af86, 0xa57a4c, 0xf06431, 0x889b4a],
            maxed: 0xdc3958,
            calm: None,
            card: None,
            border: None,
        },
        6 => PresetRow {
            key: "tomorrow-night-blue",
            name: "Tomorrow Night Blue",
            light: false,
            colors: [0x00346e, 0x002451, 0xffffff, 0x7285b7, 0xffc58f, 0x99ffff],
            maxed: 0xff9da4,
            calm: None,
            card: None,
            border: None,
        },
        7 => PresetRow {
            key: "high-contrast",
            name: "High Contrast",
            light: false,
            colors: [0x000000, 0x000000, 0xffffff, 0xd0d0d0, 0x6fc3df, 0xf38518],
            maxed: 0xff5f5f,
            calm: None,
            card: Some(0x000000),
            border: Some(0x6fc3df),
        },
        8 => PresetRow {
            key: "monokai",
            name: "Monokai",
            light: false,
            colors: [0x2f302a, 0x1e1f1c, 0xf8f8f2, 0xa1a19a, 0xf92672, 0xa6e22e],
            maxed: 0xff2d55,
            calm: None,
            card: None,
            border: None,
        },
        9 => PresetRow {
            key: "solarized",
            name: "Solarized Dark",
            light: false,
            colors: [0x073642, 0x002b36, 0x93a1a1, 0x586e75, 0xb58900, 0x268bd2],
            maxed: 0xdc322f,
            calm: None,
            card: None,
            border: None,
        },
        10 => PresetRow {
            key: "one-dark-pro",
            name: "One Dark Pro",
            light: false,
            colors: [0x282c34, 0x21252b, 0xabb2bf, 0x7f848e, 0x61afef, 0x98c379],
            maxed: 0xe06c75,
            calm: None,
            card: None,
            border: None,
        },
        11 => PresetRow {
            key: "tokyo-night",
            name: "Tokyo Night",
            light: false,
            colors: [0x1a1b26, 0x16161e, 0xc0caf5, 0x787c99, 0x7aa2f7, 0xbb9af7],
            maxed: 0xf7768e,
            calm: None,
            card: None,
            border: None,
        },
        12 => PresetRow {
            key: "catppuccin-mocha",
            name: "Catppuccin Mocha",
            light: false,
            colors: [0x1e1e2e, 0x11111b, 0xcdd6f4, 0xa6adc8, 0xcba6f7, 0xfab387],
            maxed: 0xf38ba8,
            calm: None,
            card: None,
            border: None,
        },
        13 => PresetRow {
            key: "github-dark",
            name: "GitHub Dark",
            light: false,
            colors: [0x161b22, 0x0d1117, 0xe6edf3, 0x7d8590, 0x2f81f7, 0x3fb950],
            maxed: 0xf85149,
            calm: None,
            card: None,
            border: None,
        },
        14 => PresetRow {
            key: "night-owl",
            name: "Night Owl",
            light: false,
            colors: [0x0b2942, 0x011627, 0xd6deeb, 0x5f7e97, 0x82aaff, 0xc792ea],
            maxed: 0xef5350,
            calm: None,
            card: None,
            border: None,
        },
        15 => PresetRow {
            key: "ayu-mirage",
            name: "Ayu Mirage",
            light: false,
            colors: [0x242936, 0x1f2430, 0xcccac2, 0x707a8c, 0xffcc66, 0x73d0ff],
            maxed: 0xf28779,
            calm: None,
            card: None,
            border: None,
        },
        16 => PresetRow {
            key: "rose-pine",
            name: "Rosé Pine",
            light: false,
            colors: [0x1f1d2e, 0x191724, 0xe0def4, 0x908caa, 0xeb6f92, 0x9ccfd8],
            maxed: 0xff5c8a,
            calm: None,
            card: None,
            border: None,
        },
        17 => PresetRow {
            key: "everforest",
            name: "Everforest",
            light: false,
            colors: [0x2d353b, 0x232a2e, 0xd3c6aa, 0x859289, 0xa7c080, 0xe69875],
            maxed: 0xe67e80,
            calm: None,
            card: None,
            border: None,
        },
        18 => PresetRow {
            key: "kanagawa",
            name: "Kanagawa",
            light: false,
            colors: [0x1f1f28, 0x16161d, 0xdcd7ba, 0x727169, 0x7e9cd8, 0xffa066],
            maxed: 0xff5d62,
            calm: None,
            card: None,
            border: None,
        },
        19 => PresetRow {
            key: "dracula",
            name: "Dracula",
            light: false,
            colors: [0x2c2e3f, 0x1a1b26, 0xf8f8f2, 0x9a9cb8, 0xbd93f9, 0xff79c6],
            maxed: 0xff5555,
            calm: None,
            card: None,
            border: None,
        },
        20 => PresetRow {
            key: "nord",
            name: "Nord",
            light: false,
            colors: [0x3b4252, 0x2e3440, 0xeceff4, 0x9dabbd, 0x88c0d0, 0xa3be8c],
            maxed: 0xbf616a,
            calm: None,
            card: None,
            border: None,
        },
        21 => PresetRow {
            key: "gruvbox",
            name: "Gruvbox Dark",
            light: false,
            colors: [0x32302f, 0x1d2021, 0xebdbb2, 0xa89984, 0xfe8019, 0xb8bb26],
            maxed: 0xfb4934,
            calm: None,
            card: None,
            border: None,
        },
        22 => PresetRow {
            key: "vscode-light-modern",
            name: "Light Modern",
            light: true,
            colors: [0xf3f3f3, 0xe8e8e8, 0x3b3b3b, 0x6e7681, 0x005fb8, 0x0f8a4c],
            maxed: 0xcd3131,
            calm: None,
            card: None,
            border: None,
        },
        23 => PresetRow {
            key: "quiet-light",
            name: "Quiet Light",
            light: true,
            colors: [0xf5f5f5, 0xe7e7e7, 0x333333, 0x7a7a7a, 0x7a3e9d, 0x448c27],
            maxed: 0xaa3731,
            calm: None,
            card: None,
            border: None,
        },
        24 => PresetRow {
            key: "catppuccin-latte",
            name: "Catppuccin Latte",
            light: true,
            colors: [0xeff1f5, 0xdce0e8, 0x4c4f69, 0x6c6f85, 0x8839ef, 0xfe640b],
            maxed: 0xd20f39,
            calm: None,
            card: None,
            border: None,
        },
        25 => PresetRow {
            key: "github-light",
            name: "GitHub Light",
            light: true,
            colors: [0xf6f8fa, 0xeaeef2, 0x1f2328, 0x656d76, 0x0969da, 0x1a7f37],
            maxed: 0xd1242f,
            calm: None,
            card: None,
            border: None,
        },
        _ => PresetRow {
            key: "solarized-light",
            name: "Solarized Light",
            light: true,
            colors: [0xfdf6e3, 0xeee8d5, 0x586e75, 0x93a1a1, 0xb58900, 0x268bd2],
            maxed: 0xdc322f,
            calm: None,
            card: None,
            border: None,
        },
    }
}

pub open spec fn opt_color(o: Option<u32>) -> Option<ThemeColor> {
    match o {
        Some(x) => Some(color_of(x)),
        None => None,
    }
}

/// `e` is the theme row `r` describes, under its key.
pub open spec fn is_preset(e: (&str, ThemeSpec), r: PresetRow) -> bool {
    &&& e.0@ == r.key@
    &&& e.1.name@ == r.name@
    &&& e.1.light == r.light
    &&& e.1.bg_top == color_of(r.colors[0])
    &&& e.1.bg_bottom == color_of(r.colors[1])
    &&& e.1.text == color_of(r.colors[2])
    &&& e.1.text_dim == color_of(r.colors[3])
    &&& e.1.accent == color_of(r.colors[4])
    &&& e.1.accent2 == color_of(r.colors[5])
    &&& e.1.advanced == Advanced {
        card: opt_color(r.card),
        card_stroke: opt_color(r.border),
        load_low: opt_color(r.calm),
        load_high: Some(color_of(r.maxed)),
        ..Advanced::default_spec()
    }
}

fn opt_hex(o: Option<u32>) -> (c: Option<ThemeColor>)
    ensures
        c == opt_color(o),
{
    match o {
        Some(x) => Some(ThemeColor::hex(x)),
        None => None,
    }
}

/// `(key, spec)` for every built-in theme, in the order of the table; each has its
/// own "error red" for a maxed-out load meter.
pub fn presets() -> (list: Vec<(&'static str, ThemeSpec)>)
    ensures
        list@.len() == PRESET_COUNT,
        forall|i: int| 0 <= i < list@.len() ==> is_preset(#[trigger] list@[i], preset_row(i)),
{
    let mut list: Vec<(&'static str, ThemeSpec)> = Vec::new();
    let mut i: usize = 0;
    while i < PRESET_COUNT
        invariant
            i <= PRESET_COUNT,
            list@.len() == i,
            forall|j: int| 0 <= j < i ==> is_preset(#[trigger] list@[j], preset_row(j)),
        decreases PRESET_COUNT - i,
    {
        let r = preset_at(i);
        let mut t = preset(r.name, r.light, r.colors);
        t.advanced.load_high = Some(ThemeColor::hex(r.maxed));
        t.advanced.load_low = opt_hex(r.calm);
        t.advanced.card = opt_hex(r.card);
        t.advanced.card_stroke = opt_hex(r.border);
        list.push((r.key, t));
        i = i + 1;
    }
    list
}

/// The built-in themes' keys are those of [`preset_keys`], in order.
pub proof fn lemma_preset_rows_have_the_preset_keys()
    ensures
        forall|i: int| 0 <= i < PRESET_COUNT ==> (#[trigger] preset_row(i)).key@ == preset_keys()[i],
{
    assert forall|i: int| 0 <= i < PRESET_COUNT implies (#[trigger] preset_row(i)).key@
        == preset_keys()[i] by {
        if i == 0 {
            assert(preset_row(i).key@ == preset_keys()[i]);
        } else if i == 1 {
            assert(preset_row(i).key@ == preset_keys()[i]);
        } else if i == 2 {
            assert(preset_row(i).key@ == preset_keys()[i]);
        } else if i == 3 {
            assert(preset_row(i).key@ == preset_keys()[i]);
        } else if i == 4 {
            assert(preset_row(i).key@ == preset_keys()[i]);
        } else if i == 5 {
            assert(preset_row(i).key@ == preset_keys()[i]);
        } else if i == 6 {
            assert(preset_row(i).key@ == preset_keys()[i]);
        } else if i == 7 {
            assert(preset_row(i).key@ == preset_keys()[i]);
        } else if i == 8 {
            assert(preset_row(i).key@ == preset_keys()[i]);
        } else if i == 9 {
            assert(preset_row(i).key@ == preset_keys()[i]);
        } else if i == 10 {
            assert(preset_row(i).key@ == preset_keys()[i]);
        } else if i == 11 {
            assert(preset_row(i).key@ == preset_keys()[i]);
        } else if i == 12 {
            assert(preset_row(i).key@ == preset_keys()[i]);
        } else if i == 13 {
            assert(preset_row(i).key@ == preset_keys()[i]);
        } else if i == 14 {
            assert(preset_row(i).key@ == preset_keys()[i]);
        } else if i == 15 {
            assert(preset_row(i).key@ == preset_keys()[i]);
        } else if i == 16 {
            assert(preset_row(i).key@ == preset_keys()[i]);
        } else if i == 17 {
            assert(preset_row(i).key@ == preset_keys()[i]);
        } else if i == 18 {
            assert(preset_row(i).key@ == preset_keys()[i]);
        } else if i == 19 {
            assert(preset_row(i).key@ == preset_keys()[i]);
        } else if i == 20 {
            assert(preset_row(i).key@ == preset_keys()[i]);
        } else if i == 21 {
            assert(preset_row(i).key@ == preset_keys()[i]);
        } else if i == 22 {
            assert(preset_row(i).key@ == preset_keys()[i]);
        } else if i == 23 {
            assert(preset_row(i).key@ == preset_keys()[i]);
        } else if i == 24 {
            assert(preset_row(i).key@ == preset_keys()[i]);
        } else if i == 25 {
            assert(preset_row(i).key@ == preset_keys()[i]);
        } else if i == 26 {
            assert(preset_row(i).key@ == preset_keys()[i]);
        }
    }
}

/// Position of `key` among the built-in themes, or -1.
pub open spec fn preset_index(key: Seq<char>) -> int {
    if key == "jade"@ {
        0
    } else if key == "amber"@ {
        1
    } else if key == "vscode-dark-modern"@ {
        2
    } else if key == "vscode-dark-plus"@ {
        3
    } else if key == "abyss"@ {
        4
    } else if key == "kimbie-dark"@ {
        5
    } else if key == "tomorrow-night-blue"@ {
        6
    } else if key == "high-contrast"@ {
        7
    } else if key == "monokai"@ {
        8
    } else if key == "solarized"@ {
        9
    } else if key == "one-dark-pro"@ {
        10
    } else if key == "tokyo-night"@ {
        11
    } else if key == "catppuccin-mocha"@ {
        12
    } else if key == "github-dark"@ {
        13
    } else if key == "night-owl"@ {
        14
    } else if key == "ayu-mirage"@ {
        15
    } else if key == "rose-pine"@ {
        16
    } else if key == "everforest"@ {
        17
    } else if key == "kanagawa"@ {
        18
    } else if key == "dracula"@ {
        19
    } else if key == "nord"@ {
        20
    } else if key == "gruvbox"@ {
        21
    } else if key == "vscode-light-modern"@ {
        22
    } else if key == "quiet-light"@ {
        23
    } else if key == "catppuccin-latte"@ {
        24
    } else if key == "github-light"@ {
        25
    } else if key == "solarized-light"@ {
        26
    } else {
        -1
    }
}

proof fn lemma_preset_key_list()
    ensures
        preset_keys().no_duplicates(),
        preset_keys().contains(DEFAULT_KEY@),
{
    reveal_strlit("jade");
    reveal_strlit("amber");
    reveal_strlit("vscode-dark-modern");
    reveal_strlit("vscode-dark-plus");
    reveal_strlit("abyss");
    reveal_strlit("kimbie-dark");
    reveal_strlit("tomorrow-night-blue");
    reveal_strlit("high-contrast");
    reveal_strlit("monokai");
    reveal_strlit("solarized");
    reveal_strlit("one-dark-pro");
    reveal_strlit("tokyo-night");
    reveal_strlit("catppuccin-mocha");
    reveal_strlit("github-dark");
    reveal_strlit("night-owl");
    reveal_strlit("ayu-mirage");
    reveal_strlit("rose-pine");
    reveal_strlit("everforest");
    reveal_strlit("kanagawa");
    reveal_strlit("dracula");
    reveal_strlit("nord");
    reveal_strlit("gruvbox");
    reveal_strlit("vscode-light-modern");
    reveal_strlit("quiet-light");
    reveal_strlit("catppuccin-latte");
    reveal_strlit("github-light");
    reveal_strlit("solarized-light");
    let ks = preset_keys();
    assert(ks[0] == DEFAULT_KEY@);
    assert("jade"@.len() == 4);
    assert("amber"@.len() == 5);
    assert("vscode-dark-modern"@.len() == 18);
    assert("vscode-dark-plus"@.len() == 16);
    assert("abyss"@.len() == 5);
    assert("kimbie-dark"@.len() == 11);
    assert("tomorrow-night-blue"@.len() == 19);
    assert("high-contrast"@.len() == 13);
    assert("monokai"@.len() == 7);
    assert("solarized"@.len() == 9);
    assert("one-dark-pro"@.len() == 12);
    assert("tokyo-night"@.len() == 11);
    assert("catppuccin-mocha"@.len() == 16);
    assert("github-dark"@.len() == 11);
    assert("night-owl"@.len() == 9);
    assert("ayu-mirage"@.len() == 10);
    assert("rose-pine"@.len() == 9);
    assert("everforest"@.len() == 10);
    assert("kanagawa"@.len() == 8);
    assert("dracula"@.len() == 7);
    assert("nord"@.len() == 4);
    assert("gruvbox"@.len() == 7);
    assert("vscode-light-modern"@.len() == 19);
    assert("quiet-light"@.len() == 11);
    assert("catppuccin-latte"@.len() == 16);
    assert("github-light"@.len() == 12);
    assert("solarized-light"@.len() == 15);
    assert forall|i: int| 0 <= i < ks.len() implies preset_index(#[trigger] ks[i]) == i by {
        if i == 0 {
            assert(ks[0] == "jade"@);
        } else if i == 1 {
            assert(ks[1] == "amber"@);
        } else if i == 2 {
            assert(ks[2] == "vscode-dark-modern"@);
        } else if i == 3 {
            assert(ks[3] == "vscode-dark-plus"@);
        } else if i == 4 {
            assert(ks[4] == "abyss"@);
            assert("abyss"@[1] != "amber"@[1]);
        } else if i == 5 {
            assert(ks[5] == "kimbie-dark"@);
        } else if i == 6 {
            assert(ks[6] == "tomorrow-night-blue"@);
        } else if i == 7 {
            assert(ks[7] == "high-contrast"@);
        } else if i == 8 {
            assert(ks[8] == "monokai"@);
        } else if i == 9 {
            assert(ks[9] == "solarized"@);
        } else if i == 10 {
            assert(ks[10] == "one-dark-pro"@);
        } else if i == 11 {
            assert(ks[11] == "tokyo-night"@);
            assert("tokyo-night"@[0] != "kimbie-dark"@[0]);
        } else if i == 12 {
            assert(ks[12] == "catppuccin-mocha"@);
            assert("catppuccin-mocha"@[0] != "vscode-dark-plus"@[0]);
        } else if i == 13 {
            assert(ks[13] == "github-dark"@);
            assert("github-dark"@[0] != "kimbie-dark"@[0]);
            assert("github-dark"@[0] != "tokyo-night"@[0]);
        } else if i == 14 {
            assert(ks[14] == "night-owl"@);
            assert("night-owl"@[0] != "solarized"@[0]);
        } else if i == 15 {
            assert(ks[15] == "ayu-mirage"@);
        } else if i == 16 {
            assert(ks[16] == "rose-pine"@);
            assert("rose-pine"@[0] != "solarized"@[0]);
            assert("rose-pine"@[0] != "night-owl"@[0]);
        } else if i == 17 {
            assert(ks[17] == "everforest"@);
            assert("everforest"@[0] != "ayu-mirage"@[0]);
        } else if i == 18 {
            assert(ks[18] == "kanagawa"@);
        } else if i == 19 {
            assert(ks[19] == "dracula"@);
            assert("dracula"@[0] != "monokai"@[0]);
        } else if i == 20 {
            assert(ks[20] == "nord"@);
            assert("nord"@[0] != "jade"@[0]);
        } else if i == 21 {
            assert(ks[21] == "gruvbox"@);
            assert("gruvbox"@[0] != "monokai"@[0]);
            assert("gruvbox"@[0] != "dracula"@[0]);
        } else if i == 22 {
            assert(ks[22] == "vscode-light-modern"@);
            assert("vscode-light-modern"@[0] != "tomorrow-night-blue"@[0]);
        } else if i == 23 {
            assert(ks[23] == "quiet-light"@);
            assert("quiet-light"@[0] != "kimbie-dark"@[0]);
            assert("quiet-light"@[0] != "tokyo-night"@[0]);
            assert("quiet-light"@[0] != "github-dark"@[0]);
        } else if i == 24 {
            assert(ks[24] == "catppuccin-latte"@);
            assert("catppuccin-latte"@[0] != "vscode-dark-plus"@[0]);
            assert("catppuccin-latte"@[11] != "catppuccin-mocha"@[11]);
        } else if i == 25 {
            assert(ks[25] == "github-light"@);
            assert("github-light"@[0] != "one-dark-pro"@[0]);
        } else if i == 26 {
            assert(ks[26] == "solarized-light"@);
        }
    }
    assert forall|i: int, j: int| 0 <= i < j < ks.len() implies ks[i] != ks[j] by {
        assert(preset_index(ks[i]) == i);
        assert(preset_index(ks[j]) == j);
    }
}

/// The built-in themes have distinct keys, the default among them.
pub proof fn lemma_preset_keys_unique()
    ensures
        forall|i: int, j: int|
            0 <= i < j < PRESET_COUNT ==> (#[trigger] preset_row(i)).key@ != (#[trigger] preset_row(j)).key@,
        exists|i: int| 0 <= i < PRESET_COUNT && (#[trigger] preset_row(i)).key@ == DEFAULT_KEY@,
{
    lemma_preset_key_list();
    lemma_preset_rows_have_the_preset_keys();
    let ks = preset_keys();
    assert forall|i: int, j: int| 0 <= i < j < PRESET_COUNT implies (#[trigger] preset_row(i)).key@
        != (#[trigger] preset_row(j)).key@ by {
        assert(ks[i] != ks[j]);
    }
    assert(preset_row(0).key@ == DEFAULT_KEY@);
}

// ---------------------------------------------------------------------------------
// Theme files

pub open spec fn is_ascii_alnum(c: char) -> bool {
    ('0' <= c && c <= '9') || ('a' <= c && c <= 'z') || ('A' <= c && c <= 'Z')
}

/// Letters and digits kept, every other run of characters one `-`.
pub open spec fn dashed(s: Seq<char>) -> Seq<char>
    decreases s.len(),
{
    if s.len() == 0 {
        seq![]
    } else {
        let out = dashed(s.drop_last());
        let c = s.last();
        if is_ascii_alnum(c) {
            out.push(c)
        } else if out.len() > 0 && out.last() == '-' {
            out
        } else {
            out.push('-')
        }
    }
}

/// Leading `-` count.
pub open spec fn lead_dashes(s: Seq<char>) -> nat
    decreases s.len(),
{
    if s.len() == 0 || s[0] != '-' {
        0
    } else {
        1 + lead_dashes(s.drop_first())
    }
}

/// Trailing `-` count.
pub open spec fn trail_dashes(s: Seq<char>) -> nat
    decreases s.len(),
{
    if s.len() == 0 || s.last() != '-' {
        0
    } else {
        1 + trail_dashes(s.drop_last())
    }
}

/// `s` without leading and trailing `-` (`trim_matches('-')`).
pub open spec fn trim_dashes(s: Seq<char>) -> Seq<char> {
    let t = s.skip(lead_dashes(s) as int);
    t.take(t.len() - trail_dashes(t))
}

pub open spec fn slug_text(lower: Seq<char>) -> Seq<char> {
    let t = trim_dashes(dashed(lower));
    if t.len() == 0 {
        "theme"@
    } else {
        t
    }
}

proof fn lemma_dashed_keeps_no_upper(s: Seq<char>)
    requires
        no_ascii_upper(s),
    ensures
        no_ascii_upper(dashed(s)),
    decreases s.len(),
{
    if s.len() > 0 {
        let front = s.drop_last();
        assert(no_ascii_upper(front)) by {
            assert forall|i: int| 0 <= i < front.len() implies !('A' <= #[trigger] front[i] && front[i] <= 'Z') by {
                assert(front[i] == s[i]);
            }
        }
        lemma_dashed_keeps_no_upper(front);
        assert(!('A' <= s[s.len() - 1] && s[s.len() - 1] <= 'Z'));
        let out = dashed(front);
        let r = dashed(s);
        assert forall|i: int| 0 <= i < r.len() implies !('A' <= #[trigger] r[i] && r[i] <= 'Z') by {
            if i < out.len() {
                assert(r[i] == out[i]);
            }
        }
    }
}

/// A slug of lower-case text holds no capital letter.
proof fn lemma_slug_text_no_upper(lower: Seq<char>)
    requires
        no_ascii_upper(lower),
    ensures
        no_ascii_upper(slug_text(lower)),
{
    reveal_strlit("theme");
    let d = dashed(lower);
    lemma_dashed_keeps_no_upper(lower);
    lemma_lead_dashes(d);
    let a = lead_dashes(d) as int;
    let t = d.skip(a);
    lemma_trail_dashes(t);
    let u = t.take(t.len() - trail_dashes(t));
    assert forall|i: int| 0 <= i < u.len() implies !('A' <= #[trigger] u[i] && u[i] <= 'Z') by {
        assert(u[i] == d[a + i]);
    }
    if u.len() == 0 {
        let th = "theme"@;
        assert(th =~= seq!['t', 'h', 'e', 'm', 'e']);
    }
}

/// File-name-safe version of a theme name: "Rosé Pine 2!" -> "ros-pine-2". Always
/// lower case.
pub fn slug(name: &str) -> (s: String)
    ensures
        s@ == slug_text(lowercase(name@)),
        is_ascii_text(name@) ==> s@ == slug_text(ascii_lowered(name@)),
        no_ascii_upper(s@),
{
    let lower = to_lowercase(name);
    proof {
        lemma_slug_text_no_upper(lower@);
    }
    let v = chars_of(lower.as_str());
    let mut out: Vec<char> = Vec::new();
    let mut i: usize = 0;
    while i < v.len()
        invariant
            i <= v@.len(),
            out@ == dashed(v@.take(i as int)),
        decreases v@.len() - i,
    {
        let c = v[i];
        proof {
            assert(v@.take(i + 1).drop_last() =~= v@.take(i as int));
            assert(v@.take(i + 1).last() == c);
        }
        if ('0' <= c && c <= '9') || ('a' <= c && c <= 'z') || ('A' <= c && c <= 'Z') {
            out.push(c);
        } else if !(out.len() > 0 && out[out.len() - 1] == '-') {
            out.push('-');
        }
        i = i + 1;
    }
    proof {
        assert(v@.take(i as int) =~= v@);
    }
    let ghost d = out@;
    let mut a: usize = 0;
    proof {
        assert(d.skip(0) =~= d);
    }
    while a < out.len() && out[a] == '-'
        invariant
            a <= d.len(),
            d == out@,
            lead_dashes(d) == a + lead_dashes(d.skip(a as int)),
        decreases d.len() - a,
    {
        proof {
            assert(d.skip(a as int).drop_first() =~= d.skip(a + 1));
        }
        a = a + 1;
    }
    let ghost t = d.skip(a as int);
    let mut b: usize = out.len();
    proof {
        assert(t.take(t.len() as int) =~= t);
    }
    while b > a && out[b - 1] == '-'
        invariant
            a <= b <= d.len(),
            d == out@,
            t == d.skip(a as int),
            trail_dashes(t) == (d.len() - b) + trail_dashes(t.take(b - a)),
        decreases b,
    {
        proof {
            assert(t.take(b - a).drop_last() =~= t.take(b - a - 1));
        }
        b = b - 1;
    }
    proof {
        assert(trim_dashes(d) =~= d.subrange(a as int, b as int));
    }
    if a == b {
        return "theme".to_owned();
    }
    let mut s = String::new();
    let mut k = a;
    while k < b
        invariant
            a <= k <= b <= d.len(),
            d == out@,
            s@ == d.subrange(a as int, k as int),
        decreases b - k,
    {
        push_char(&mut s, out[k]);
        proof {
            assert(d.subrange(a as int, k + 1) =~= d.subrange(a as int, k as int).push(d[k as int]));
        }
        k = k + 1;
    }
    s
}

/// The file name of a theme saved as `stem`: `stem.toml` first, `stem-2.toml`,
/// `stem-3.toml`, ... while the earlier ones are taken.
pub open spec fn file_name_text(stem: Seq<char>, n: u64) -> Seq<char> {
    if n <= 1 {
        stem + ".toml"@
    } else {
        stem + "-"@ + crate::text::dec(n as nat) + ".toml"@
    }
}

pub fn file_name(stem: &str, n: u64) -> (s: String)
    ensures
        s@ == file_name_text(stem@, n),
{
    let mut s = String::from_str(stem);
    if n > 1 {
        s.append("-");
        crate::text::push_u64(&mut s, n);
    }
    s.append(".toml");
    s
}

/// The key of the theme in file `stem.toml`.
pub fn custom_key(stem: &str) -> (s: String)
    ensures
        s@ == "custom:"@ + stem@,
{
    let mut s = String::from_str(CUSTOM_PREFIX);
    s.append(stem);
    s
}

/// Letters, digits and single dashes between them.
pub open spec fn file_name_safe(s: Seq<char>) -> bool {
    &&& s.len() > 0
    &&& forall|i: int| 0 <= i < s.len() ==> is_ascii_alnum(#[trigger] s[i]) || s[i] == '-'
    &&& s[0] != '-'
    &&& s.last() != '-'
    &&& forall|i: int| 0 <= i < s.len() - 1 && #[trigger] s[i] == '-' ==> s[i + 1] != '-'
}

proof fn lemma_dashed(x: Seq<char>)
    ensures
        forall|i: int| 0 <= i < dashed(x).len() ==> is_ascii_alnum(#[trigger] dashed(x)[i]) || dashed(x)[i] == '-',
        forall|i: int| 0 <= i < dashed(x).len() - 1 && #[trigger] dashed(x)[i] == '-' ==> dashed(x)[i + 1] != '-',
    decreases x.len(),
{
    if x.len() > 0 {
        lemma_dashed(x.drop_last());
        let out = dashed(x.drop_last());
        let r = dashed(x);
        assert forall|i: int| 0 <= i < r.len() implies is_ascii_alnum(#[trigger] r[i]) || r[i] == '-' by {
            if i < out.len() {
                assert(r[i] == out[i]);
            }
        }
        assert forall|i: int| 0 <= i < r.len() - 1 && #[trigger] r[i] == '-' implies r[i + 1] != '-' by {
            assert(r[i] == out[i]);
            if i + 1 < out.len() {
                assert(r[i + 1] == out[i + 1]);
            } else {
                assert(out.last() == out[i]);
            }
        }
    }
}

proof fn lemma_lead_dashes(s: Seq<char>)
    ensures
        lead_dashes(s) <= s.len(),
        lead_dashes(s) < s.len() ==> s[lead_dashes(s) as int] != '-',
    decreases s.len(),
{
    if s.len() > 0 && s[0] == '-' {
        lemma_lead_dashes(s.drop_first());
    }
}

proof fn lemma_trail_dashes(s: Seq<char>)
    ensures
        trail_dashes(s) <= s.len(),
        trail_dashes(s) < s.len() ==> s[s.len() - trail_dashes(s) - 1] != '-',
    decreases s.len(),
{
    if s.len() > 0 && s.last() == '-' {
        lemma_trail_dashes(s.drop_last());
    }
}

/// Every slug is a usable file name: letters, digits and single dashes, never empty
/// and never starting or ending with a dash.
pub proof fn lemma_slug_is_file_name_safe(lower: Seq<char>)
    ensures
        file_name_safe(slug_text(lower)),
{
    let d = dashed(lower);
    lemma_dashed(lower);
    lemma_lead_dashes(d);
    let a = lead_dashes(d) as int;
    let t = d.skip(a);
    lemma_trail_dashes(t);
    let u = t.take(t.len() - trail_dashes(t));
    if u.len() == 0 {
        reveal_strlit("theme");
        let th = "theme"@;
        assert(th =~= seq!['t', 'h', 'e', 'm', 'e']);
    } else {
        assert forall|i: int| 0 <= i < u.len() implies is_ascii_alnum(#[trigger] u[i]) || u[i] == '-' by {
            assert(u[i] == d[a + i]);
        }
        assert forall|i: int| 0 <= i < u.len() - 1 && #[trigger] u[i] == '-' implies u[i + 1] != '-' by {
            assert(u[i] == d[a + i]);
            assert(u[i + 1] == d[a + i + 1]);
        }
        assert(u[0] == t[0]);
        assert(u.last() == t[t.len() - trail_dashes(t) - 1]);
    }
}

pub open spec fn sat_add_u8(a: u8, b: u8) -> u8 {
    if a + b > 255 {
        255
    } else {
        (a + b) as u8
    }
}

pub open spec fn sat_sub_u8(a: u8, b: u8) -> u8 {
    if a < b {
        0
    } else {
        (a - b) as u8
    }
}

/// `c` with `amount` added to each channel, stopping at white.
pub fn lighten(c: ThemeColor, amount: u8) -> (l: ThemeColor)
    ensures
        l == lightened(c, amount),
{
    ThemeColor { r: c.r.saturating_add(amount), g: c.g.saturating_add(amount), b: c.b.saturating_add(amount) }
}

/// `c` with `amount` taken from each channel, stopping at black.
pub fn darken(c: ThemeColor, amount: u8) -> (d: ThemeColor)
    ensures
        d == darkened(c, amount),
{
    ThemeColor { r: c.r.saturating_sub(amount), g: c.g.saturating_sub(amount), b: c.b.saturating_sub(amount) }
}

/// `c` lightened by `amount`, as [`lighten`] computes it.
pub open spec fn lightened(c: ThemeColor, amount: u8) -> ThemeColor {
    ThemeColor { r: sat_add_u8(c.r, amount), g: sat_add_u8(c.g, amount), b: sat_add_u8(c.b, amount) }
}

/// `c` darkened by `amount`, as [`darken`] computes it.
pub open spec fn darkened(c: ThemeColor, amount: u8) -> ThemeColor {
    ThemeColor { r: sat_sub_u8(c.r, amount), g: sat_sub_u8(c.g, amount), b: sat_sub_u8(c.b, amount) }
}

/// The override where one is set, else the derived colour.
pub open spec fn or_derived(o: Option<ThemeColor>, derived: ThemeColor) -> ThemeColor {
    match o {
        Some(c) => c,
        None => derived,
    }
}

/// The colours a theme derives from its six, each replaced by its override where
/// one is set.
#[derive(Clone, Copy, Debug, PartialEq, Eq)]
pub struct Shades {
    pub card: ThemeColor,
    /// The card's opacity: a derived card lets a little of the background through, an
    /// overridden one is opaque.
    pub card_alpha: u8,
    pub card_stroke: ThemeColor,
    pub well: ThemeColor,
    pub grid: ThemeColor,
    pub cpu: ThemeColor,
    pub ram: ThemeColor,
    pub swap: ThemeColor,
    pub read: ThemeColor,
    pub write: ThemeColor,
    pub rx: ThemeColor,
    pub tx: ThemeColor,
    pub load_low: ThemeColor,
    pub load_mid: ThemeColor,
    pub load_high: ThemeColor,
}

/// Cards, borders and insets step away from the bottom background colour: lighter
/// cards and darker borders on light themes, lighter borders on dark ones. Graph lines
/// and the load scale take the accents; a load at its maximum is red.
pub open spec fn shades_of(t: ThemeSpec) -> Shades {
    let b = t.bg_bottom;
    let a = t.advanced;
    let card = if t.light { lightened(b, 14) } else { lightened(b, 16) };
    let alpha: u8 = if t.light { 0xe6 } else { 0xd8 };
    let stroke = if t.light { darkened(b, 34) } else { lightened(b, 32) };
    let well = if t.light { darkened(b, 10) } else { darkened(b, 6) };
    let maxed = if t.light {
        ThemeColor { r: 0xd1, g: 0x24, b: 0x2f }
    } else {
        ThemeColor { r: 0xff, g: 0x55, b: 0x55 }
    };
    let card_stroke = or_derived(a.card_stroke, stroke);
    Shades {
        card: or_derived(a.card, card),
        card_alpha: if a.card is Some { 255 } else { alpha },
        card_stroke,
        well: or_derived(a.well, well),
        grid: or_derived(a.grid, card_stroke),
        cpu: or_derived(a.cpu, t.accent),
        ram: or_derived(a.ram, t.accent),
        swap: or_derived(a.swap, t.accent2),
        read: or_derived(a.read, t.accent2),
        write: or_derived(a.write, t.accent),
        rx: or_derived(a.rx, t.accent2),
        tx: or_derived(a.tx, t.accent),
        load_low: or_derived(a.load_low, t.accent2),
        load_mid: or_derived(a.load_mid, t.accent),
        load_high: or_derived(a.load_high, maxed),
    }
}

fn or_derived_exec(o: Option<ThemeColor>, derived: ThemeColor) -> (c: ThemeColor)
    ensures
        c == or_derived(o, derived),
{
    match o {
        Some(c) => c,
        None => derived,
    }
}

/// Every derived colour of `spec`.
pub fn shades(spec: &ThemeSpec) -> (s: Shades)
    ensures
        s == shades_of(*spec),
{
    let b = spec.bg_bottom;
    let a = spec.advanced;
    let (card, alpha, stroke, well, maxed) = if spec.light {
        (
            lighten(b, 14),
            0xe6u8,
            darken(b, 34),
            darken(b, 10),
            ThemeColor { r: 0xd1, g: 0x24, b: 0x2f },
        )
    } else {
        (
            lighten(b, 16),
            0xd8u8,
            lighten(b, 32),
            darken(b, 6),
            ThemeColor { r: 0xff, g: 0x55, b: 0x55 },
        )
    };
    let card_stroke = or_derived_exec(a.card_stroke, stroke);
    Shades {
        card: or_derived_exec(a.card, card),
        card_alpha: if a.card.is_some() { 255 } else { alpha },
        card_stroke,
        well: or_derived_exec(a.well, well),
        grid: or_derived_exec(a.grid, card_stroke),
        cpu: or_derived_exec(a.cpu, spec.accent),
        ram: or_derived_exec(a.ram, spec.accent),
        swap: or_derived_exec(a.swap, spec.accent2),
        read: or_derived_exec(a.read, spec.accent2),
        write: or_derived_exec(a.write, spec.accent),
        rx: or_derived_exec(a.rx, spec.accent2),
        tx: or_derived_exec(a.tx, spec.accent),
        load_low: or_derived_exec(a.load_low, spec.accent2),
        load_mid: or_derived_exec(a.load_mid, spec.accent),
        load_high: or_derived_exec(a.load_high, maxed),
    }
}

/// An override that is set is exactly the colour used, whatever the rest of the theme.
pub proof fn lemma_overrides_win(t: ThemeSpec)
    ensures
        t.advanced.card matches Some(c) ==> shades_of(t).card == c && shades_of(t).card_alpha == 255,
        t.advanced.card_stroke matches Some(c) ==> shades_of(t).card_stroke == c,
        t.advanced.well matches Some(c) ==> shades_of(t).well == c,
        t.advanced.grid matches Some(c) ==> shades_of(t).grid == c,
        t.advanced.cpu matches Some(c) ==> shades_of(t).cpu == c,
        t.advanced.ram matches Some(c) ==> shades_of(t).ram == c,
        t.advanced.swap matches Some(c) ==> shades_of(t).swap == c,
        t.advanced.read matches Some(c) ==> shades_of(t).read == c,
        t.advanced.write matches Some(c) ==> shades_of(t).write == c,
        t.advanced.rx matches Some(c) ==> shades_of(t).rx == c,
        t.advanced.tx matches Some(c) ==> shades_of(t).tx == c,
        t.advanced.load_low matches Some(c) ==> shades_of(t).load_low == c,
        t.advanced.load_mid matches Some(c) ==> shades_of(t).load_mid == c,
        t.advanced.load_high matches Some(c) ==> shades_of(t).load_high == c,
{
}

/// Without an override, a light theme's card border is no lighter than its background
/// in any channel, and a dark theme's no darker.
pub proof fn lemma_borders_step_away_from_the_background(t: ThemeSpec)
    requires
        t.advanced.card_stroke is None,
    ensures
        t.light ==> shades_of(t).card_stroke.r <= t.bg_bottom.r && shades_of(t).card_stroke.g
            <= t.bg_bottom.g && shades_of(t).card_stroke.b <= t.bg_bottom.b,
        !t.light ==> shades_of(t).card_stroke.r >= t.bg_bottom.r && shades_of(t).card_stroke.g
            >= t.bg_bottom.g && shades_of(t).card_stroke.b >= t.bg_bottom.b,
{
}

/// A colour written to a theme file reads back as the same colour.
pub proof fn lemma_color_text_roundtrip(c: ThemeColor)
    ensures
        parsed_color(color_text(c)) == Some(c),
{
    let p1 = zero_padded(hex(c.r as nat), 2);
    let p2 = zero_padded(hex(c.g as nat), 2);
    let p3 = zero_padded(hex(c.b as nat), 2);
    lemma_byte_hex(c.r);
    lemma_byte_hex(c.g);
    lemma_byte_hex(c.b);
    let t = color_text(c);
    let h = p1 + p2 + p3;
    assert(t =~= seq!['#'] + h);
    assert(lead_ws(t) == 0);
    assert(t.last() == p3[1]);
    assert(trail_ws(t.skip(0)) == 0) by {
        assert(t.skip(0) =~= t);
    }
    assert(trim(t) =~= t);
    assert(hex_part(t) =~= h);
    lemma_hex_value_append2(p1, p2);
    lemma_hex_value_append2(p1 + p2, p3);
    assert(unsigned_body(h) =~= h);
    assert(all_hex(h)) by {
        assert forall|i: int| 0 <= i < h.len() implies is_hex_digit(#[trigger] h[i]) by {
            if i < 2 {
                assert(h[i] == p1[i]);
            } else if i < 4 {
                assert(h[i] == p2[i - 2]);
            } else {
                assert(h[i] == p3[i - 4]);
            }
        }
    }
    let v = hex_value(h);
    assert(v == (c.r as int * 256 + c.g as int) * 256 + c.b as int);
    assert(color_of(v as u32) == c) by {
        let (r, g, b) = (c.r as int, c.g as int, c.b as int);
        assert((((r * 256 + g) * 256 + b) / 65536) % 256 == r) by (nonlinear_arith)
            requires
                0 <= r < 256,
                0 <= g < 256,
                0 <= b < 256,
        ;
        assert((((r * 256 + g) * 256 + b) / 256) % 256 == g) by (nonlinear_arith)
            requires
                0 <= r < 256,
                0 <= g < 256,
                0 <= b < 256,
        ;
        assert(((r * 256 + g) * 256 + b) % 256 == b) by (nonlinear_arith)
            requires
                0 <= r < 256,
                0 <= g < 256,
                0 <= b < 256,
        ;
    }
}

} // verus!
