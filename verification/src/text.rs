//! Character-level text helpers shared by the rest of the library:
//! conversions between `str`/`String` and character vectors, ASCII
//! case folding, Unicode whitespace trimming and decimal rendering.
use vstd::prelude::*;
use vstd::std_specs::iter::IteratorSpec;

verus! {

broadcast use {vstd::string::axiom_spec_iter, vstd::string::next_postcondition};

/// `true` for the characters `'0'..='9'`.
pub open spec fn is_digit_spec(c: char) -> bool {
    '0' <= c && c <= '9'
}

/// The value of an ASCII digit.
pub open spec fn digit_value(c: char) -> nat {
    ((c as u32) - ('0' as u32)) as nat
}

/// `char::is_ascii_digit`.
pub fn is_ascii_digit(c: char) -> (r: bool)
    ensures
        r == is_digit_spec(c),
{
    '0' <= c && c <= '9'
}

/// ASCII lower-casing of one character (`char::to_ascii_lowercase`).
pub open spec fn lower_char(c: char) -> char {
    if 'A' <= c && c <= 'Z' {
        ((c as u32) + 32) as char
    } else {
        c
    }
}

/// ASCII upper-casing of one character (`char::to_ascii_uppercase`).
pub open spec fn upper_char(c: char) -> char {
    if 'a' <= c && c <= 'z' {
        ((c as u32) - 32) as char
    } else {
        c
    }
}

/// ASCII lower-casing of a whole text (`str::to_ascii_lowercase`).
pub open spec fn lower_seq(s: Seq<char>) -> Seq<char> {
    s.map_values(|c: char| lower_char(c))
}

/// ASCII upper-casing of a whole text (`str::to_ascii_uppercase`).
pub open spec fn upper_seq(s: Seq<char>) -> Seq<char> {
    s.map_values(|c: char| upper_char(c))
}

/// The characters with the Unicode `White_Space` property, which is what
/// `char::is_whitespace` (and so `str::trim`) tests.
pub open spec fn is_whitespace_spec(c: char) -> bool {
    let u = c as u32;
    (0x09 <= u && u <= 0x0d) || u == 0x20 || u == 0x85 || u == 0xa0 || u == 0x1680 || (0x2000
        <= u && u <= 0x200a) || u == 0x2028 || u == 0x2029 || u == 0x202f || u == 0x205f || u
        == 0x3000
}

/// Number of leading characters of `s` that satisfy `is_whitespace_spec`.
pub open spec fn leading_ws(s: Seq<char>) -> nat
    decreases s.len(),
{
    if s.len() > 0 && is_whitespace_spec(s[0]) {
        1 + leading_ws(s.drop_first())
    } else {
        0
    }
}

/// Number of trailing characters of `s` that satisfy `is_whitespace_spec`.
pub open spec fn trailing_ws(s: Seq<char>) -> nat
    decreases s.len(),
{
    if s.len() > 0 && is_whitespace_spec(s.last()) {
        1 + trailing_ws(s.drop_last())
    } else {
        0
    }
}

/// `str::trim`: the text without leading and trailing whitespace.
pub open spec fn trim_seq(s: Seq<char>) -> Seq<char> {
    let front = s.skip(leading_ws(s) as int);
    front.take(front.len() - trailing_ws(front))
}

pub proof fn lemma_leading_ws_bound(s: Seq<char>)
    ensures
        leading_ws(s) <= s.len(),
        forall|i: int| 0 <= i < leading_ws(s) ==> is_whitespace_spec(#[trigger] s[i]),
        leading_ws(s) < s.len() ==> !is_whitespace_spec(s[leading_ws(s) as int]),
    decreases s.len(),
{
    if s.len() > 0 && is_whitespace_spec(s[0]) {
        lemma_leading_ws_bound(s.drop_first());
        assert forall|i: int| 0 <= i < leading_ws(s) implies is_whitespace_spec(#[trigger] s[i]) by {
            if i > 0 {
                assert(s[i] == s.drop_first()[i - 1]);
            }
        }
    }
}

pub proof fn lemma_trailing_ws_bound(s: Seq<char>)
    ensures
        trailing_ws(s) <= s.len(),
    decreases s.len(),
{
    if s.len() > 0 && is_whitespace_spec(s.last()) {
        lemma_trailing_ws_bound(s.drop_last());
    }
}

/// Leading whitespace count, read from index `i` onwards.
proof fn lemma_leading_ws_at(s: Seq<char>, i: int)
    requires
        0 <= i <= s.len(),
        forall|k: int| 0 <= k < i ==> is_whitespace_spec(#[trigger] s[k]),
        i == s.len() || !is_whitespace_spec(s[i]),
    ensures
        leading_ws(s) == i,
    decreases i,
{
    if i > 0 {
        assert forall|k: int| 0 <= k < i - 1 implies is_whitespace_spec(
            #[trigger] s.drop_first()[k],
        ) by {
            assert(s.drop_first()[k] == s[k + 1]);
        }
        if i - 1 < s.drop_first().len() {
            assert(s.drop_first()[i - 1] == s[i]);
        }
        lemma_leading_ws_at(s.drop_first(), i - 1);
    }
}

/// Trailing whitespace count, read from the end down to index `j`.
proof fn lemma_trailing_ws_at(s: Seq<char>, j: int)
    requires
        0 <= j <= s.len(),
        forall|k: int| j <= k < s.len() ==> is_whitespace_spec(#[trigger] s[k]),
        j == 0 || !is_whitespace_spec(s[j - 1]),
    ensures
        trailing_ws(s) == s.len() - j,
    decreases s.len() - j,
{
    if j < s.len() {
        let d = s.drop_last();
        assert forall|k: int| j <= k < d.len() implies is_whitespace_spec(#[trigger] d[k]) by {
            assert(d[k] == s[k]);
        }
        if j > 0 {
            assert(d[j - 1] == s[j - 1]);
        }
        lemma_trailing_ws_at(d, j);
    }
}

/// `char::is_whitespace`.
pub fn is_whitespace(c: char) -> (r: bool)
    ensures
        r == is_whitespace_spec(c),
{
    let u: u32 = c as u32;
    (0x09 <= u && u <= 0x0d) || u == 0x20 || u == 0x85 || u == 0xa0 || u == 0x1680 || (0x2000
        <= u && u <= 0x200a) || u == 0x2028 || u == 0x2029 || u == 0x202f || u == 0x205f || u
        == 0x3000
}

/// The characters of a string slice.
pub fn str_chars(s: &str) -> (r: Vec<char>)
    ensures
        r@ == s@,
{
    let mut out: Vec<char> = Vec::new();
    let mut chars = s.chars();
    loop
        invariant
            out@ + chars.remaining() == s@,
            chars.decrease() is Some,
        decreases chars.decrease()->0,
    {
        let ghost before = chars.remaining();
        match chars.next() {
            Some(c) => {
                assert(before.len() > 0);
                assert(before == seq![c] + chars.remaining());
                out.push(c);
                assert(out@ + chars.remaining() == s@);
            },
            None => {
                assert(before.len() == 0);
                assert(out@ == s@);
                return out;
            },
        }
    }
}

/// `String::push`: appends one character.
#[verifier::external_body]
pub fn push_char(s: &mut String, c: char)
    ensures
        final(s)@ == old(s)@.push(c),
{
    s.push(c);
}

/// Builds a `String` from a character sequence.
pub fn string_from_chars(v: &[char]) -> (r: String)
    ensures
        r@ == v@,
{
    let mut out = String::new();
    let mut i: usize = 0;
    while i < v.len()
        invariant
            0 <= i <= v.len(),
            out@ == v@.take(i as int),
        decreases v.len() - i,
    {
        push_char(&mut out, v[i]);
        assert(v@.take(i + 1) == v@.take(i as int).push(v@[i as int]));
        i = i + 1;
    }
    assert(v@.take(v.len() as int) == v@);
    out
}

/// Appends all characters of `v` to `out`.
pub fn push_chars(out: &mut String, v: &[char])
    ensures
        final(out)@ == old(out)@ + v@,
{
    let mut i: usize = 0;
    while i < v.len()
        invariant
            0 <= i <= v.len(),
            out@ == old(out)@ + v@.take(i as int),
        decreases v.len() - i,
    {
        push_char(out, v[i]);
        assert(v@.take(i + 1) == v@.take(i as int).push(v@[i as int]));
        i = i + 1;
    }
    assert(v@.take(v.len() as int) == v@);
}

/// Appends all characters of `s` to `out`.
pub fn push_str(out: &mut String, s: &str)
    ensures
        final(out)@ == old(out)@ + s@,
{
    let v = str_chars(s);
    push_chars(out, v.as_slice());
}

/// `char::to_ascii_lowercase`.
pub fn to_lower_char(c: char) -> (r: char)
    ensures
        r == lower_char(c),
{
    if 'A' <= c && c <= 'Z' {
        let u: u32 = c as u32 + 32;
        // 'a'..='z'
        assert(0x61 <= u <= 0x7a);
        char_from_ascii(u)
    } else {
        c
    }
}

/// `char::to_ascii_uppercase`.
pub fn to_upper_char(c: char) -> (r: char)
    ensures
        r == upper_char(c),
{
    if 'a' <= c && c <= 'z' {
        let u: u32 = c as u32 - 32;
        assert(0x41 <= u <= 0x5a);
        char_from_ascii(u)
    } else {
        c
    }
}

/// The character with an ASCII code point.
fn char_from_ascii(u: u32) -> (r: char)
    requires
        u < 128,
    ensures
        r == u as char,
        r as u32 == u,
{
    let b: u8 = u as u8;
    b as char
}

/// `str::to_ascii_lowercase` on a character vector.
pub fn to_lower_chars(s: &[char]) -> (r: Vec<char>)
    ensures
        r@ == lower_seq(s@),
{
    let mut out: Vec<char> = Vec::new();
    let mut i: usize = 0;
    while i < s.len()
        invariant
            0 <= i <= s.len(),
            out@ == lower_seq(s@.take(i as int)),
        decreases s.len() - i,
    {
        let c = to_lower_char(s[i]);
        out.push(c);
        assert(lower_seq(s@.take(i + 1)) == lower_seq(s@.take(i as int)).push(lower_char(s@[i as int])));
        i = i + 1;
    }
    assert(s@.take(s.len() as int) == s@);
    out
}

/// `str::to_ascii_uppercase` on a character vector.
pub fn to_upper_chars(s: &[char]) -> (r: Vec<char>)
    ensures
        r@ == upper_seq(s@),
{
    let mut out: Vec<char> = Vec::new();
    let mut i: usize = 0;
    while i < s.len()
        invariant
            0 <= i <= s.len(),
            out@ == upper_seq(s@.take(i as int)),
        decreases s.len() - i,
    {
        let c = to_upper_char(s[i]);
        out.push(c);
        assert(upper_seq(s@.take(i + 1)) == upper_seq(s@.take(i as int)).push(upper_char(s@[i as int])));
        i = i + 1;
    }
    assert(s@.take(s.len() as int) == s@);
    out
}

/// `str::trim` on a character vector.
pub fn trim_chars(s: &[char]) -> (r: Vec<char>)
    ensures
        r@ == trim_seq(s@),
{
    let mut lo: usize = 0;
    while lo < s.len() && is_whitespace(s[lo])
        invariant
            0 <= lo <= s.len(),
            forall|k: int| 0 <= k < lo ==> is_whitespace_spec(#[trigger] s@[k]),
        decreases s.len() - lo,
    {
        lo = lo + 1;
    }
    proof {
        lemma_leading_ws_at(s@, lo as int);
    }
    let mut hi: usize = s.len();
    while hi > lo && is_whitespace(s[hi - 1])
        invariant
            lo <= hi <= s.len(),
            forall|k: int| hi <= k < s.len() ==> is_whitespace_spec(#[trigger] s@[k]),
        decreases hi,
    {
        hi = hi - 1;
    }
    let ghost front = s@.skip(lo as int);
    proof {
        assert forall|k: int| hi - lo <= k < front.len() implies is_whitespace_spec(
            #[trigger] front[k],
        ) by {
            assert(front[k] == s@[k + lo]);
        }
        if hi > lo {
            assert(front[hi - lo - 1] == s@[hi - 1]);
        }
        lemma_trailing_ws_at(front, hi - lo);
    }
    let mut out: Vec<char> = Vec::new();
    let mut i: usize = lo;
    while i < hi
        invariant
            lo <= i <= hi <= s.len(),
            out@ == s@.subrange(lo as int, i as int),
        decreases hi - i,
    {
        out.push(s[i]);
        assert(s@.subrange(lo as int, i + 1) == s@.subrange(lo as int, i as int).push(s@[i as int]));
        i = i + 1;
    }
    assert(out@ == front.take(front.len() - trailing_ws(front)));
    out
}

/// Decimal digits of a natural number, most significant first, with no
/// leading zeros (`"0"` for zero), as `u64`'s `Display` writes them.
pub open spec fn decimal_seq(n: nat) -> Seq<char>
    decreases n,
{
    if n < 10 {
        seq![digit_char(n)]
    } else {
        decimal_seq(n / 10).push(digit_char(n % 10))
    }
}

/// The ASCII digit for `d < 10`.
pub open spec fn digit_char(d: nat) -> char {
    ((d + 48) as u32) as char
}

fn digit_to_char(d: u64) -> (r: char)
    requires
        d < 10,
    ensures
        r == digit_char(d as nat),
{
    char_from_ascii((d + 48) as u32)
}

/// Renders a number in decimal, as `format!("{}", n)` does.
pub fn u64_to_decimal(n: u64) -> (r: Vec<char>)
    ensures
        r@ == decimal_seq(n as nat),
    decreases n,
{
    if n < 10 {
        let mut v: Vec<char> = Vec::new();
        v.push(digit_to_char(n));
        v
    } else {
        let mut v = u64_to_decimal(n / 10);
        v.push(digit_to_char(n % 10));
        v
    }
}

/// Appends the decimal rendering of `n` to `out`.
pub fn push_decimal(out: &mut String, n: u64)
    ensures
        final(out)@ == old(out)@ + decimal_seq(n as nat),
{
    let d = u64_to_decimal(n);
    push_chars(out, d.as_slice());
}

} // verus!
