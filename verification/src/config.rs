//! Configuration values of the viewer: the enumerations read from the
//! configuration file, the default of every setting, and the parsing of
//! colour specifications (`dark_blue`, `#1E90FF`, `rgb(30,144,255)`,
//! `30,144,255`).
use vstd::prelude::*;
use vstd::string::StringExecFns;
use crate::text::{lower_seq, trim_seq, str_chars, trim_chars, to_lower_chars, leading_ws, trailing_ws, is_whitespace_spec};
use crate::paths::chars_equal;

verus! {

/// How image changes are detected between frames.
#[derive(Debug, Clone, Copy, PartialEq, Eq, Structural)]
pub enum ImageDiffMode {
    /// No differencing: the image is re-sent every time.
    All,
    /// Compare the R, G and B bytes of every pixel.
    Full,
    /// Compare only the R and B bytes of every pixel.
    Half,
}

impl Default for ImageDiffMode {
    fn default() -> (r: Self)
        ensures
            r == ImageDiffMode::Full,
    {
        ImageDiffMode::Full
    }
}

/// Kitty graphics protocol transmission medium.
#[derive(Debug, Clone, Copy, PartialEq, Eq, Structural)]
pub enum TransportMode {
    /// Choose from the environment.
    Auto,
    /// `t=d`: the payload itself.
    Direct,
    /// `t=f`: a file path.
    File,
    /// `t=t`: a temporary file path.
    TempFile,
    /// `t=s`: a POSIX shared memory object.
    SharedMemory,
}

impl Default for TransportMode {
    fn default() -> (r: Self)
        ensures
            r == TransportMode::Auto,
    {
        TransportMode::Auto
    }
}

/// Interpolation filter used when an image is scaled down.
#[derive(Debug, Clone, Copy, PartialEq, Eq, Structural)]
pub enum ImageFilterType {
    Nearest,
    Triangle,
    CatmullRom,
    Gaussian,
    Lanczos3,
}

impl Default for ImageFilterType {
    fn default() -> (r: Self)
        ensures
            r == ImageFilterType::Nearest,
    {
        ImageFilterType::Nearest
    }
}

} // verus!

verus! {

/// A terminal colour, as the configuration names it.
#[derive(Debug, Clone, Copy, PartialEq, Eq, Structural)]
pub enum TermColor {
    Black,
    DarkGrey,
    Grey,
    White,
    Red,
    DarkRed,
    Green,
    DarkGreen,
    Yellow,
    DarkYellow,
    Blue,
    DarkBlue,
    Magenta,
    DarkMagenta,
    Cyan,
    DarkCyan,
    Rgb { r: u8, g: u8, b: u8 },
}

/// The cache settings.
#[derive(Debug, Clone, Copy, PartialEq, Eq, Structural)]
pub struct CacheConfig {
    /// Most images kept (0: no bound).
    pub lru_size: usize,
    /// Most bytes kept (0: no bound).
    pub max_bytes: usize,
    /// Neighbours read ahead.
    pub prefetch_size: usize,
}

/// The display settings.
#[derive(Debug, Clone, Copy, PartialEq, Eq, Structural)]
pub struct DisplayConfig {
    pub sidebar: bool,
    pub header: bool,
    pub statusbar: bool,
    pub sidebar_size: u16,
    /// Debounce of image replacement, in ms.
    pub preview_debounce: u64,
    /// Idle input polling interval, in ms.
    pub poll_interval: u64,
    /// Idle read-ahead interval, in ms.
    pub prefetch_interval: u64,
    pub header_bg_color: TermColor,
    pub header_fg_color: TermColor,
    pub statusbar_bg_color: TermColor,
    pub statusbar_fg_color: TermColor,
}

pub fn default_true() -> (r: bool)
    ensures
        r,
{
    true
}

pub fn default_preview_debounce() -> (r: u64)
    ensures
        r == 100,
{
    100
}

pub fn default_poll_interval() -> (r: u64)
    ensures
        r == 10,
{
    10
}

pub fn default_prefetch_interval() -> (r: u64)
    ensures
        r == 100,
{
    100
}

pub fn default_tile_grid() -> (r: u32)
    ensures
        r == 32,
{
    32
}

pub fn default_skip_step() -> (r: u32)
    ensures
        r == 1,
{
    1
}

pub fn default_sidebar_size() -> (r: u16)
    ensures
        r == 20,
{
    20
}

pub fn default_header_bg_color() -> (r: TermColor)
    ensures
        r == TermColor::DarkBlue,
{
    TermColor::DarkBlue
}

pub fn default_header_fg_color() -> (r: TermColor)
    ensures
        r == TermColor::White,
{
    TermColor::White
}

pub fn default_statusbar_bg_color() -> (r: TermColor)
    ensures
        r == TermColor::DarkGrey,
{
    TermColor::DarkGrey
}

pub fn default_statusbar_fg_color() -> (r: TermColor)
    ensures
        r == TermColor::White,
{
    TermColor::White
}

pub fn default_image_width() -> (r: u32)
    ensures
        r == 5120,
{
    5120
}

pub fn default_image_height() -> (r: u32)
    ensures
        r == 2880,
{
    2880
}

pub fn default_cache_lru_size() -> (r: usize)
    ensures
        r == 10,
{
    10
}

pub fn default_prefetch_size() -> (r: usize)
    ensures
        r == 1,
{
    1
}

pub fn default_cache_max_bytes() -> (r: usize)
    ensures
        r == 256 * 1024 * 1024,
{
    256 * 1024 * 1024
}

/// The image extensions listed by default: png, jpg, jpeg, gif, webp, bmp.
pub open spec fn default_extensions_spec() -> Seq<Seq<char>> {
    seq!["png"@, "jpg"@, "jpeg"@, "gif"@, "webp"@, "bmp"@]
}

pub fn default_image_extensions() -> (r: Vec<String>)
    ensures
        r@.map_values(|e: String| e@) == default_extensions_spec(),
{
    let mut v: Vec<String> = Vec::new();
    v.push(String::from_str("png"));
    v.push(String::from_str("jpg"));
    v.push(String::from_str("jpeg"));
    v.push(String::from_str("gif"));
    v.push(String::from_str("webp"));
    v.push(String::from_str("bmp"));
    assert(v@.map_values(|e: String| e@) =~= default_extensions_spec());
    v
}

impl Default for CacheConfig {
    fn default() -> (r: Self)
        ensures
            r == (CacheConfig { lru_size: 10, max_bytes: 268435456usize, prefetch_size: 1 }),
    {
        CacheConfig {
            lru_size: default_cache_lru_size(),
            max_bytes: default_cache_max_bytes(),
            prefetch_size: default_prefetch_size(),
        }
    }
}

impl Default for DisplayConfig {
    fn default() -> (r: Self)
        ensures
            r == (DisplayConfig {
                sidebar: true,
                header: true,
                statusbar: true,
                sidebar_size: 20,
                preview_debounce: 100,
                poll_interval: 10,
                prefetch_interval: 100,
                header_bg_color: TermColor::DarkBlue,
                header_fg_color: TermColor::White,
                statusbar_bg_color: TermColor::DarkGrey,
                statusbar_fg_color: TermColor::White,
            }),
    {
        DisplayConfig {
            sidebar: default_true(),
            header: default_true(),
            statusbar: default_true(),
            sidebar_size: default_sidebar_size(),
            preview_debounce: default_preview_debounce(),
            poll_interval: default_poll_interval(),
            prefetch_interval: default_prefetch_interval(),
            header_bg_color: default_header_bg_color(),
            header_fg_color: default_header_fg_color(),
            statusbar_bg_color: default_statusbar_bg_color(),
            statusbar_fg_color: default_statusbar_fg_color(),
        }
    }
}

} // verus!

verus! {

/// The bytes that UTF-8 takes for one character.
pub open spec fn utf8_width(c: char) -> nat {
    let u = c as u32;
    if u < 0x80 {
        1
    } else if u < 0x800 {
        2
    } else if u < 0x10000 {
        3
    } else {
        4
    }
}

/// The bytes that UTF-8 takes for a text.
pub open spec fn utf8_len(s: Seq<char>) -> nat
    decreases s.len(),
{
    if s.len() == 0 {
        0
    } else {
        utf8_len(s.drop_last()) + utf8_width(s.last())
    }
}

/// Every character is ASCII.
pub open spec fn all_ascii(s: Seq<char>) -> bool {
    forall|i: int| 0 <= i < s.len() ==> (#[trigger] s[i] as u32) < 0x80
}

proof fn lemma_ascii_utf8_len(s: Seq<char>)
    requires
        all_ascii(s),
    ensures
        utf8_len(s) == s.len(),
    decreases s.len(),
{
    if s.len() > 0 {
        assert(all_ascii(s.drop_last())) by {
            assert forall|i: int| 0 <= i < s.drop_last().len() implies (#[trigger] s.drop_last()[i] as u32) < 0x80 by {
                assert(s.drop_last()[i] == s[i]);
            }
        }
        lemma_ascii_utf8_len(s.drop_last());
        assert((s[s.len() - 1] as u32) < 0x80);
    }
}

proof fn lemma_utf8_len_ge(s: Seq<char>)
    ensures
        utf8_len(s) >= s.len(),
        !all_ascii(s) ==> utf8_len(s) > s.len(),
    decreases s.len(),
{
    if s.len() > 0 {
        lemma_utf8_len_ge(s.drop_last());
        if !all_ascii(s) && all_ascii(s.drop_last()) {
            let i = choose|i: int| 0 <= i < s.len() && !((#[trigger] s[i] as u32) < 0x80);
            if i < s.len() - 1 {
                assert(s.drop_last()[i] == s[i]);
            }
        }
        if !all_ascii(s.drop_last()) {
        } else if !all_ascii(s) {
        }
    }
}

/// The value of a digit in base 10 or 16 (`None` when it is no digit).
pub open spec fn digit_in(c: char, hex: bool) -> Option<nat> {
    if '0' <= c <= '9' {
        Some((c as u32 - '0' as u32) as nat)
    } else if hex && 'a' <= c <= 'f' {
        Some((c as u32 - 'a' as u32 + 10) as nat)
    } else if hex && 'A' <= c <= 'F' {
        Some((c as u32 - 'A' as u32 + 10) as nat)
    } else {
        None
    }
}

/// The value of a run of digits, or `None` when some character is not a
/// digit.
pub open spec fn digits_in(s: Seq<char>, hex: bool) -> Option<nat>
    decreases s.len(),
{
    if s.len() == 0 {
        Some(0)
    } else {
        match (digits_in(s.drop_last(), hex), digit_in(s.last(), hex)) {
            (Some(v), Some(d)) => Some(v * (if hex { 16nat } else { 10nat }) + d),
            _ => None,
        }
    }
}

/// What `u8::from_str` (decimal) or `u8::from_str_radix(_, 16)` reads from
/// a text: an optional `+`, then at least one digit, the value at most 255.
pub open spec fn parse_u8_spec(s: Seq<char>, hex: bool) -> Option<u8> {
    let body = if s.len() > 0 && s[0] == '+' {
        s.drop_first()
    } else {
        s
    };
    if body.len() == 0 {
        None
    } else {
        match digits_in(body, hex) {
            Some(v) => if v <= 255 {
                Some(v as u8)
            } else {
                None
            },
            None => None,
        }
    }
}

fn digit_exec(c: char, hex: bool) -> (r: Option<u32>)
    ensures
        match r {
            Some(d) => digit_in(c, hex) == Some(d as nat) && d < 16,
            None => digit_in(c, hex) is None,
        },
{
    if '0' <= c && c <= '9' {
        Some(c as u32 - '0' as u32)
    } else if hex && 'a' <= c && c <= 'f' {
        Some(c as u32 - 'a' as u32 + 10)
    } else if hex && 'A' <= c && c <= 'F' {
        Some(c as u32 - 'A' as u32 + 10)
    } else {
        None
    }
}

/// Parses a `u8` as `u8::from_str` (decimal) or `u8::from_str_radix` with
/// radix 16 does.
pub fn parse_u8(s: &[char], hex: bool) -> (r: Option<u8>)
    ensures
        r == parse_u8_spec(s@, hex),
{
    let start: usize = if s.len() > 0 && s[0] == '+' {
        1
    } else {
        0
    };
    let ghost body = if s@.len() > 0 && s@[0] == '+' {
        s@.drop_first()
    } else {
        s@
    };
    assert(body == s@.subrange(start as int, s@.len() as int));
    if start == s.len() {
        return None;
    }
    let base: u32 = if hex {
        16
    } else {
        10
    };
    // the value, capped at 256
    let mut v: u32 = 0;
    let mut i: usize = start;
    while i < s.len()
        invariant
            start <= i <= s@.len(),
            base == (if hex { 16u32 } else { 10u32 }),
            body == s@.subrange(start as int, s@.len() as int),
            body == (if s@.len() > 0 && s@[0] == '+' {
                s@.drop_first()
            } else {
                s@
            }),
            start < s@.len(),
            digits_in(s@.subrange(start as int, i as int), hex) matches Some(w) && v as nat == (if w < 256 {
                w
            } else {
                256
            }),
        decreases s@.len() - i,
    {
        let ghost prev = s@.subrange(start as int, i as int);
        let ghost w = digits_in(prev, hex)->0;
        match digit_exec(s[i], hex) {
            Some(d) => {
                let ghost cur = s@.subrange(start as int, i + 1);
                assert(cur.drop_last() == prev);
                assert(cur.last() == s@[i as int]);
                assert(v <= 256);
                let nv: u32 = v * base + d;
                v = if nv > 256 {
                    256
                } else {
                    nv
                };
                proof {
                    let nw: nat = w * (if hex { 16nat } else { 10nat }) + d as nat;
                    assert(digits_in(cur, hex) == Some(nw));
                    if w >= 256 {
                        assert(nw >= 256) by (nonlinear_arith)
                            requires
                                w >= 256,
                                nw == w * (if hex { 16nat } else { 10nat }) + d as nat,
                        ;
                    }
                }
            },
            None => {
                proof {
                    assert(s@.subrange(start as int, s@.len() as int)[i - start] == s@[i as int]);
                    lemma_digits_none(s@.subrange(start as int, s@.len() as int), hex, i - start);
                }
                return None;
            },
        }
        i = i + 1;
    }
    if v <= 255 {
        Some(v as u8)
    } else {
        None
    }
}

/// A non-digit anywhere makes the whole run no number.
proof fn lemma_digits_none(s: Seq<char>, hex: bool, k: int)
    requires
        0 <= k < s.len(),
        digit_in(s[k], hex) is None,
    ensures
        digits_in(s, hex) is None,
    decreases s.len(),
{
    if k < s.len() - 1 {
        assert(s.drop_last()[k] == s[k]);
        lemma_digits_none(s.drop_last(), hex, k);
    }
}

} // verus!

verus! {

/// The lookup key of a colour name: trimmed, ASCII lower-cased, with `-`
/// read as `_`.
pub open spec fn color_key(v: Seq<char>) -> Seq<char> {
    lower_seq(trim_seq(v)).map_values(|c: char| if c == '-' { '_' } else { c })
}

/// The named colours.
pub open spec fn named_color_spec(key: Seq<char>) -> Option<TermColor> {
    if key == "black"@ {
        Some(TermColor::Black)
    } else if key == "dark_grey"@ || key == "dark_gray"@ {
        Some(TermColor::DarkGrey)
    } else if key == "grey"@ || key == "gray"@ {
        Some(TermColor::Grey)
    } else if key == "white"@ {
        Some(TermColor::White)
    } else if key == "red"@ {
        Some(TermColor::Red)
    } else if key == "dark_red"@ {
        Some(TermColor::DarkRed)
    } else if key == "green"@ {
        Some(TermColor::Green)
    } else if key == "dark_green"@ {
        Some(TermColor::DarkGreen)
    } else if key == "yellow"@ {
        Some(TermColor::Yellow)
    } else if key == "dark_yellow"@ {
        Some(TermColor::DarkYellow)
    } else if key == "blue"@ {
        Some(TermColor::Blue)
    } else if key == "dark_blue"@ {
        Some(TermColor::DarkBlue)
    } else if key == "magenta"@ {
        Some(TermColor::Magenta)
    } else if key == "dark_magenta"@ {
        Some(TermColor::DarkMagenta)
    } else if key == "cyan"@ {
        Some(TermColor::Cyan)
    } else if key == "dark_cyan"@ {
        Some(TermColor::DarkCyan)
    } else {
        None
    }
}

/// The name a named colour goes by in the configuration (`grey` and
/// `dark_grey` for the colours that also answer to `gray` spellings).
pub open spec fn color_name(c: TermColor) -> Seq<char> {
    match c {
        TermColor::Black => "black"@,
        TermColor::DarkGrey => "dark_grey"@,
        TermColor::Grey => "grey"@,
        TermColor::White => "white"@,
        TermColor::Red => "red"@,
        TermColor::DarkRed => "dark_red"@,
        TermColor::Green => "green"@,
        TermColor::DarkGreen => "dark_green"@,
        TermColor::Yellow => "yellow"@,
        TermColor::DarkYellow => "dark_yellow"@,
        TermColor::Blue => "blue"@,
        TermColor::DarkBlue => "dark_blue"@,
        TermColor::Magenta => "magenta"@,
        TermColor::DarkMagenta => "dark_magenta"@,
        TermColor::Cyan => "cyan"@,
        TermColor::DarkCyan => "dark_cyan"@,
        TermColor::Rgb { .. } => Seq::empty(),
    }
}

/// Each colour name gives the colour of that name: reading a named
/// colour's own name (or, for the greys, its `gray` spelling) gives that
/// colour back, so no two colours share a name and a name and its `dark_`
/// form give two different colours.
pub proof fn lemma_color_names_read_back(c: TermColor)
    requires
        !(c is Rgb),
    ensures
        named_color_spec(color_name(c)) == Some(c),
        named_color_spec("gray"@) == Some(TermColor::Grey),
        named_color_spec("dark_gray"@) == Some(TermColor::DarkGrey),
{
    reveal_strlit("black");
    reveal_strlit("dark_grey");
    reveal_strlit("grey");
    reveal_strlit("white");
    reveal_strlit("red");
    reveal_strlit("dark_red");
    reveal_strlit("green");
    reveal_strlit("dark_green");
    reveal_strlit("yellow");
    reveal_strlit("dark_yellow");
    reveal_strlit("blue");
    reveal_strlit("dark_blue");
    reveal_strlit("magenta");
    reveal_strlit("dark_magenta");
    reveal_strlit("cyan");
    reveal_strlit("dark_cyan");
    reveal_strlit("gray");
    reveal_strlit("dark_gray");
    assert("black"@.len() == 5);
    assert("dark_grey"@.len() == 9);
    assert("grey"@.len() == 4);
    assert("white"@.len() == 5);
    assert("red"@.len() == 3);
    assert("dark_red"@.len() == 8);
    assert("green"@.len() == 5);
    assert("dark_green"@.len() == 10);
    assert("yellow"@.len() == 6);
    assert("dark_yellow"@.len() == 11);
    assert("blue"@.len() == 4);
    assert("dark_blue"@.len() == 9);
    assert("magenta"@.len() == 7);
    assert("dark_magenta"@.len() == 12);
    assert("cyan"@.len() == 4);
    assert("dark_cyan"@.len() == 9);
    assert("gray"@.len() == 4);
    assert("dark_gray"@.len() == 9);
    assert("grey"@[0] == 'g');
    assert("gray"@[0] == 'g');
    assert("blue"@[0] == 'b');
    assert("cyan"@[0] == 'c');
    assert("black"@[0] == 'b');
    assert("white"@[0] == 'w');
    assert("green"@[0] == 'g');
    assert("grey"@[2] == 'e');
    assert("gray"@[2] == 'a');
    assert("dark_grey"@[5] == 'g');
    assert("dark_gray"@[5] == 'g');
    assert("dark_blue"@[5] == 'b');
    assert("dark_cyan"@[5] == 'c');
    assert("dark_grey"@[7] == 'e');
    assert("dark_gray"@[7] == 'a');
    match c {
        TermColor::Black => {
            assert(named_color_spec("black"@) == Some(TermColor::Black));
        },
        TermColor::DarkGrey => {
            assert(named_color_spec("dark_grey"@) == Some(TermColor::DarkGrey));
        },
        TermColor::Grey => {
            assert(named_color_spec("grey"@) == Some(TermColor::Grey));
        },
        TermColor::White => {
            assert(named_color_spec("white"@) == Some(TermColor::White));
        },
        TermColor::Red => {
            assert(named_color_spec("red"@) == Some(TermColor::Red));
        },
        TermColor::DarkRed => {
            assert(named_color_spec("dark_red"@) == Some(TermColor::DarkRed));
        },
        TermColor::Green => {
            assert(named_color_spec("green"@) == Some(TermColor::Green));
        },
        TermColor::DarkGreen => {
            assert(named_color_spec("dark_green"@) == Some(TermColor::DarkGreen));
        },
        TermColor::Yellow => {
            assert(named_color_spec("yellow"@) == Some(TermColor::Yellow));
        },
        TermColor::DarkYellow => {
            assert(named_color_spec("dark_yellow"@) == Some(TermColor::DarkYellow));
        },
        TermColor::Blue => {
            assert(named_color_spec("blue"@) == Some(TermColor::Blue));
        },
        TermColor::DarkBlue => {
            assert(named_color_spec("dark_blue"@) == Some(TermColor::DarkBlue));
        },
        TermColor::Magenta => {
            assert(named_color_spec("magenta"@) == Some(TermColor::Magenta));
        },
        TermColor::DarkMagenta => {
            assert(named_color_spec("dark_magenta"@) == Some(TermColor::DarkMagenta));
        },
        TermColor::Cyan => {
            assert(named_color_spec("cyan"@) == Some(TermColor::Cyan));
        },
        TermColor::DarkCyan => {
            assert(named_color_spec("dark_cyan"@) == Some(TermColor::DarkCyan));
        },
        TermColor::Rgb { .. } => {},
    }
    assert(named_color_spec("gray"@) == Some(TermColor::Grey));
    assert(named_color_spec("dark_gray"@) == Some(TermColor::DarkGrey));
}

fn key_is(key: &Vec<char>, name: &str) -> (r: bool)
    ensures
        r == (key@ == name@),
{
    let n = str_chars(name);
    chars_equal(key.as_slice(), n.as_slice())
}

/// A colour given by name (`black`, `dark_grey`/`dark_gray`, `grey`/`gray`,
/// `white`, and `red`, `green`, `yellow`, `blue`, `magenta`, `cyan` with
/// their `dark_` forms), case aside, `-` for `_` allowed.
pub fn parse_named_color(value: &str) -> (r: Option<TermColor>)
    ensures
        r == named_color_spec(color_key(value@)),
{
    let lowered = to_lower_chars(trim_chars(str_chars(value).as_slice()).as_slice());
    let mut key: Vec<char> = Vec::new();
    let mut i: usize = 0;
    while i < lowered.len()
        invariant
            i <= lowered@.len(),
            key@ == lowered@.take(i as int).map_values(|c: char| if c == '-' { '_' } else { c }),
        decreases lowered@.len() - i,
    {
        let c = lowered[i];
        key.push(if c == '-' { '_' } else { c });
        assert(lowered@.take(i + 1) == lowered@.take(i as int).push(c));
        i = i + 1;
    }
    assert(lowered@.take(lowered@.len() as int) == lowered@);
    if key_is(&key, "black") {
        Some(TermColor::Black)
    } else if key_is(&key, "dark_grey") || key_is(&key, "dark_gray") {
        Some(TermColor::DarkGrey)
    } else if key_is(&key, "grey") || key_is(&key, "gray") {
        Some(TermColor::Grey)
    } else if key_is(&key, "white") {
        Some(TermColor::White)
    } else if key_is(&key, "red") {
        Some(TermColor::Red)
    } else if key_is(&key, "dark_red") {
        Some(TermColor::DarkRed)
    } else if key_is(&key, "green") {
        Some(TermColor::Green)
    } else if key_is(&key, "dark_green") {
        Some(TermColor::DarkGreen)
    } else if key_is(&key, "yellow") {
        Some(TermColor::Yellow)
    } else if key_is(&key, "dark_yellow") {
        Some(TermColor::DarkYellow)
    } else if key_is(&key, "blue") {
        Some(TermColor::Blue)
    } else if key_is(&key, "dark_blue") {
        Some(TermColor::DarkBlue)
    } else if key_is(&key, "magenta") {
        Some(TermColor::Magenta)
    } else if key_is(&key, "dark_magenta") {
        Some(TermColor::DarkMagenta)
    } else if key_is(&key, "cyan") {
        Some(TermColor::Cyan)
    } else if key_is(&key, "dark_cyan") {
        Some(TermColor::DarkCyan)
    } else {
        None
    }
}

/// Position of the first `,` in `s`, or -1.
pub open spec fn first_comma(s: Seq<char>) -> int
    decreases s.len(),
{
    if s.len() == 0 {
        -1
    } else if s[0] == ',' {
        0
    } else if first_comma(s.drop_first()) < 0 {
        -1
    } else {
        first_comma(s.drop_first()) + 1
    }
}

/// The pieces of `s` between commas, as `str::split(',')` yields them.
pub open spec fn split_commas(s: Seq<char>) -> Seq<Seq<char>>
    decreases s.len(),
{
    let i = first_comma(s);
    if i < 0 || i >= s.len() {
        seq![s]
    } else {
        seq![s.take(i)] + split_commas(s.skip(i + 1))
    }
}

proof fn lemma_first_comma(s: Seq<char>)
    ensures
        -1 <= first_comma(s) < s.len(),
        first_comma(s) >= 0 ==> s[first_comma(s)] == ',',
        forall|k: int| 0 <= k < (if first_comma(s) < 0 { s.len() as int } else { first_comma(s) }) ==> #[trigger] s[k] != ',',
    decreases s.len(),
{
    if s.len() > 0 && s[0] != ',' {
        lemma_first_comma(s.drop_first());
        assert forall|k: int| 0 <= k < (if first_comma(s) < 0 { s.len() as int } else { first_comma(s) }) implies #[trigger] s[k] != ',' by {
            if k > 0 {
                assert(s[k] == s.drop_first()[k - 1]);
            }
        }
    }
}

/// Position of the first `,` in `s` at or after `from`.
fn find_comma(s: &[char], from: usize) -> (r: Option<usize>)
    requires
        from <= s@.len(),
    ensures
        match r {
            Some(i) => from <= i < s@.len() && i - from == first_comma(s@.skip(from as int)),
            None => first_comma(s@.skip(from as int)) == -1,
        },
{
    let mut i: usize = from;
    while i < s.len()
        invariant
            from <= i <= s@.len(),
            forall|k: int| from <= k < i ==> #[trigger] s@[k] != ',',
        decreases s@.len() - i,
    {
        if s[i] == ',' {
            proof {
                lemma_first_comma(s@.skip(from as int));
                let f = first_comma(s@.skip(from as int));
                assert(s@.skip(from as int)[i - from] == ',');
                if f < 0 || f > i - from {
                    assert(false);
                }
                if f < i - from {
                    assert(s@.skip(from as int)[f] == s@[from + f]);
                }
            }
            return Some(i);
        }
        i = i + 1;
    }
    proof {
        lemma_first_comma(s@.skip(from as int));
        let f = first_comma(s@.skip(from as int));
        if f >= 0 {
            assert(s@.skip(from as int)[f] == s@[from + f]);
        }
    }
    None
}

/// `str::split(',')` on characters.
pub fn split_on_commas(s: &[char]) -> (r: Vec<Vec<char>>)
    ensures
        r@.map_values(|p: Vec<char>| p@) == split_commas(s@),
{
    let mut out: Vec<Vec<char>> = Vec::new();
    let mut start: usize = 0;
    let n = s.len();
    assert(s@.skip(0) == s@);
    loop
        invariant
            start <= s@.len(),
            n == s@.len(),
            out@.map_values(|p: Vec<char>| p@) + split_commas(s@.skip(start as int)) == split_commas(s@),
        decreases s@.len() - start,
    {
        let ghost rest = s@.skip(start as int);
        match find_comma(s, start) {
            Some(i) => {
                let mut piece: Vec<char> = Vec::new();
                let mut k: usize = start;
                while k < i
                    invariant
                        start <= k <= i < s@.len(),
                        piece@ == s@.subrange(start as int, k as int),
                    decreases i - k,
                {
                    piece.push(s[k]);
                    assert(s@.subrange(start as int, k + 1) == s@.subrange(start as int, k as int).push(s@[k as int]));
                    k = k + 1;
                }
                let ghost before = out@;
                assert(rest.take(i - start) == piece@);
                assert(rest.skip(i - start + 1) == s@.skip(i + 1));
                assert(split_commas(rest) == seq![piece@] + split_commas(s@.skip(i + 1)));
                out.push(piece);
                assert(out@.map_values(|p: Vec<char>| p@) == before.map_values(|p: Vec<char>| p@).push(piece@));
                start = i + 1;
            },
            None => {
                let mut piece: Vec<char> = Vec::new();
                let mut k: usize = start;
                while k < s.len()
                    invariant
                        start <= k <= s@.len(),
                        piece@ == s@.subrange(start as int, k as int),
                    decreases s@.len() - k,
                {
                    piece.push(s[k]);
                    assert(s@.subrange(start as int, k + 1) == s@.subrange(start as int, k as int).push(s@[k as int]));
                    k = k + 1;
                }
                let ghost before = out@;
                assert(piece@ == rest);
                assert(split_commas(rest) == seq![rest]);
                out.push(piece);
                assert(out@.map_values(|p: Vec<char>| p@) == before.map_values(|p: Vec<char>| p@).push(piece@));
                return out;
            },
        }
    }
}

/// Three comma-separated components, each trimmed and read as a decimal
/// `u8`.
pub open spec fn rgb_components_spec(text: Seq<char>) -> Option<TermColor> {
    let parts = split_commas(text);
    if parts.len() != 3 {
        None
    } else {
        match (
            parse_u8_spec(trim_seq(parts[0]), false),
            parse_u8_spec(trim_seq(parts[1]), false),
            parse_u8_spec(trim_seq(parts[2]), false),
        ) {
            (Some(r), Some(g), Some(b)) => Some(TermColor::Rgb { r, g, b }),
            _ => None,
        }
    }
}

/// See `rgb_components_spec`.
pub fn parse_rgb_components(text: &[char]) -> (r: Option<TermColor>)
    ensures
        r == rgb_components_spec(text@),
{
    let parts = split_on_commas(text);
    proof {
        assert(parts@.map_values(|p: Vec<char>| p@).len() == parts@.len());
    }
    if parts.len() != 3 {
        return None;
    }
    proof {
        assert(parts@.map_values(|p: Vec<char>| p@)[0] == parts@[0]@);
        assert(parts@.map_values(|p: Vec<char>| p@)[1] == parts@[1]@);
        assert(parts@.map_values(|p: Vec<char>| p@)[2] == parts@[2]@);
    }
    let r = parse_u8(trim_chars(parts[0].as_slice()).as_slice(), false);
    let g = parse_u8(trim_chars(parts[1].as_slice()).as_slice(), false);
    let b = parse_u8(trim_chars(parts[2].as_slice()).as_slice(), false);
    match (r, g, b) {
        (Some(r), Some(g), Some(b)) => Some(TermColor::Rgb { r, g, b }),
        _ => None,
    }
}

} // verus!

verus! {

/// `#RRGGBB`: after trimming, `#` and six bytes, each pair read as a hex
/// `u8`. Six bytes that are not all ASCII hold some non-digit, so they
/// give nothing, also where a pair would end inside a character.
pub open spec fn hex_color_spec(value: Seq<char>) -> Option<TermColor> {
    let raw = trim_seq(value);
    if raw.len() == 0 || raw[0] != '#' {
        None
    } else {
        let hex = raw.drop_first();
        if utf8_len(hex) != 6 || !all_ascii(hex) {
            None
        } else {
            match (
                parse_u8_spec(hex.subrange(0, 2), true),
                parse_u8_spec(hex.subrange(2, 4), true),
                parse_u8_spec(hex.subrange(4, 6), true),
            ) {
                (Some(r), Some(g), Some(b)) => Some(TermColor::Rgb { r, g, b }),
                _ => None,
            }
        }
    }
}

/// The hexadecimal digit for a value below 16, in capitals or not.
pub open spec fn hex_char(v: int, upper: bool) -> char {
    if v < 10 {
        (48 + v) as char
    } else if upper {
        (55 + v) as char
    } else {
        (87 + v) as char
    }
}

/// A byte as two hexadecimal digits, the high one first.
pub open spec fn hex_pair(v: u8, upper: bool) -> Seq<char> {
    seq![hex_char(v as int / 16, upper), hex_char(v as int % 16, upper)]
}

proof fn lemma_hex_pair_reads(v: u8, upper: bool)
    ensures
        parse_u8_spec(hex_pair(v, upper), true) == Some(v),
        all_ascii(hex_pair(v, upper)),
        !is_whitespace_spec(hex_pair(v, upper)[1]),
{
    let p = hex_pair(v, upper);
    let hi = v as int / 16;
    let lo = v as int % 16;
    assert(digit_in(p[0], true) == Some(hi as nat));
    assert(digit_in(p[1], true) == Some(lo as nat));
    assert(p.drop_last().drop_last().len() == 0);
    assert(p.drop_last().last() == p[0]);
    assert(digits_in(p.drop_last().drop_last(), true) == Some(0nat));
    assert(digit_in(p.drop_last().last(), true) == Some(hi as nat));
    assert(digits_in(p.drop_last(), true) == Some(hi as nat));
    assert(digits_in(p, true) == Some((hi * 16 + lo) as nat));
    assert(hi * 16 + lo == v);
    assert forall|i: int| 0 <= i < p.len() implies (#[trigger] p[i] as u32) < 0x80 by {}
}

/// A colour written as `#RRGGBB`, in capitals or not, is read back as
/// that colour: the first pair is the red, the second the green, the last
/// the blue component.
pub proof fn lemma_hex_colour_read_back(r: u8, g: u8, b: u8, upper: bool)
    ensures
        hex_color_spec(seq!['#'] + hex_pair(r, upper) + hex_pair(g, upper) + hex_pair(b, upper)) == Some(
            TermColor::Rgb { r, g, b },
        ),
{
    let text = seq!['#'] + hex_pair(r, upper) + hex_pair(g, upper) + hex_pair(b, upper);
    lemma_hex_pair_reads(r, upper);
    lemma_hex_pair_reads(g, upper);
    lemma_hex_pair_reads(b, upper);
    assert(text.len() == 7);
    assert(!is_whitespace_spec(text[0]));
    assert(text[6] == hex_pair(b, upper)[1]);
    assert(leading_ws(text) == 0);
    let front = text.skip(0);
    assert(front =~= text);
    assert(trailing_ws(text) == 0);
    assert(trim_seq(text) =~= text);
    let hex = text.drop_first();
    assert(hex.subrange(0, 2) =~= hex_pair(r, upper));
    assert(hex.subrange(2, 4) =~= hex_pair(g, upper));
    assert(hex.subrange(4, 6) =~= hex_pair(b, upper));
    assert(all_ascii(hex)) by {
        assert forall|i: int| 0 <= i < hex.len() implies (#[trigger] hex[i] as u32) < 0x80 by {
            if i < 2 {
                assert(hex[i] == hex_pair(r, upper)[i]);
            } else if i < 4 {
                assert(hex[i] == hex_pair(g, upper)[i - 2]);
            } else {
                assert(hex[i] == hex_pair(b, upper)[i - 4]);
            }
        }
    }
    lemma_ascii_utf8_len(hex);
}

/// See `hex_color_spec`.
pub fn parse_hex_rgb_color(value: &str) -> (r: Option<TermColor>)
    ensures
        r == hex_color_spec(value@),
{
    let raw = trim_chars(str_chars(value).as_slice());
    if raw.len() == 0 || raw[0] != '#' {
        return None;
    }
    let ghost hex_s = raw@.drop_first();
    if raw.len() != 7 {
        proof {
            if all_ascii(hex_s) {
                lemma_ascii_utf8_len(hex_s);
            }
        }
        return None;
    }
    let mut ascii = true;
    let mut i: usize = 1;
    while i < 7
        invariant
            1 <= i <= 7,
            raw@.len() == 7,
            hex_s == raw@.drop_first(),
            ascii == (forall|k: int| 0 <= k < i - 1 ==> (#[trigger] hex_s[k] as u32) < 0x80),
        decreases 7 - i,
    {
        if (raw[i] as u32) >= 0x80 {
            ascii = false;
        }
        assert(hex_s[i - 1] == raw@[i as int]);
        i = i + 1;
    }
    if !ascii {
        proof {
            lemma_utf8_len_ge(hex_s);
        }
        return None;
    }
    proof {
        lemma_ascii_utf8_len(hex_s);
    }
    let mut p0: Vec<char> = Vec::new();
    p0.push(raw[1]);
    p0.push(raw[2]);
    let mut p1: Vec<char> = Vec::new();
    p1.push(raw[3]);
    p1.push(raw[4]);
    let mut p2: Vec<char> = Vec::new();
    p2.push(raw[5]);
    p2.push(raw[6]);
    assert(p0@ == hex_s.subrange(0, 2));
    assert(p1@ == hex_s.subrange(2, 4));
    assert(p2@ == hex_s.subrange(4, 6));
    match (parse_u8(p0.as_slice(), true), parse_u8(p1.as_slice(), true), parse_u8(p2.as_slice(), true)) {
        (Some(r), Some(g), Some(b)) => Some(TermColor::Rgb { r, g, b }),
        _ => None,
    }
}

/// `rgb(r, g, b)`, the prefix in any case: the trimmed text starts with
/// `rgb(` and ends with `)`; what lies between is read as components.
pub open spec fn rgb_function_spec(value: Seq<char>) -> Option<TermColor> {
    let raw = trim_seq(value);
    let lower = lower_seq(raw);
    if lower.len() >= 5 && lower.take(4) == "rgb("@ && lower.last() == ')' {
        rgb_components_spec(raw.subrange(4, raw.len() - 1))
    } else {
        None
    }
}

/// See `rgb_function_spec`.
pub fn parse_rgb_function_color(value: &str) -> (r: Option<TermColor>)
    ensures
        r == rgb_function_spec(value@),
{
    let raw = trim_chars(str_chars(value).as_slice());
    let lower = to_lower_chars(raw.as_slice());
    let prefix = str_chars("rgb(");
    if lower.len() < 5 {
        proof {
            reveal_strlit("rgb(");
        }
        return None;
    }
    let mut head: Vec<char> = Vec::new();
    head.push(lower[0]);
    head.push(lower[1]);
    head.push(lower[2]);
    head.push(lower[3]);
    assert(head@ == lower@.take(4));
    if !chars_equal(head.as_slice(), prefix.as_slice()) || lower[lower.len() - 1] != ')' {
        return None;
    }
    let mut inner: Vec<char> = Vec::new();
    let mut k: usize = 4;
    let end = raw.len() - 1;
    while k < end
        invariant
            4 <= k <= end,
            end == raw@.len() - 1,
            inner@ == raw@.subrange(4, k as int),
        decreases end - k,
    {
        inner.push(raw[k]);
        assert(raw@.subrange(4, k + 1) == raw@.subrange(4, k as int).push(raw@[k as int]));
        k = k + 1;
    }
    parse_rgb_components(inner.as_slice())
}

/// `r,g,b`: the trimmed text holds a comma and is read as components.
pub open spec fn csv_color_spec(value: Seq<char>) -> Option<TermColor> {
    let raw = trim_seq(value);
    if raw.contains(',') {
        rgb_components_spec(raw)
    } else {
        None
    }
}

/// See `csv_color_spec`.
pub fn parse_csv_rgb_color(value: &str) -> (r: Option<TermColor>)
    ensures
        r == csv_color_spec(value@),
{
    let raw = trim_chars(str_chars(value).as_slice());
    let mut has_comma = false;
    let mut i: usize = 0;
    while i < raw.len()
        invariant
            i <= raw@.len(),
            has_comma == (exists|k: int| 0 <= k < i && #[trigger] raw@[k] == ','),
        decreases raw@.len() - i,
    {
        if raw[i] == ',' {
            has_comma = true;
        }
        i = i + 1;
    }
    if !has_comma {
        return None;
    }
    parse_rgb_components(raw.as_slice())
}

/// A colour specification: a name, `#RRGGBB`, `rgb(r,g,b)` or `r,g,b`,
/// tried in that order.
pub open spec fn color_spec(value: Seq<char>) -> Option<TermColor> {
    match named_color_spec(color_key(value)) {
        Some(c) => Some(c),
        None => match hex_color_spec(value) {
            Some(c) => Some(c),
            None => match rgb_function_spec(value) {
                Some(c) => Some(c),
                None => csv_color_spec(value),
            },
        },
    }
}

/// Reads a colour specification; see `color_spec`.
pub fn parse_color(value: &str) -> (r: Option<TermColor>)
    ensures
        r == color_spec(value@),
{
    match parse_named_color(value) {
        Some(c) => Some(c),
        None => match parse_hex_rgb_color(value) {
            Some(c) => Some(c),
            None => match parse_rgb_function_color(value) {
                Some(c) => Some(c),
                None => parse_csv_rgb_color(value),
            },
        },
    }
}

} // verus!
