//! The text of the screen: cell widths of characters and strings, the
//! truncation and padding of lines to a width, and the header, status bar,
//! overlay, message and sidebar lines.
use vstd::prelude::*;
use crate::text::{push_str, push_char, push_decimal, decimal_seq, str_chars, to_upper_chars, upper_seq, string_from_chars};
use crate::listing::{node_name, node_name_exec};
use crate::paths::{extension_of, path_extension};
use crate::filetree::{FileTreeEntry, SidebarTree, window_start, screen_row_target};

verus! {

/// The cell width of a character as `unicode_width::UnicodeWidthChar::width`
/// gives it (`None` for control characters).
pub uninterp spec fn spec_char_width(c: char) -> Option<usize>;

/// Calls `UnicodeWidthChar::width`. The contract claims the named
/// `spec_char_width`, and what the crate's `lookup.rs` plainly shows:
/// printable ASCII is one cell wide, the C0 and C1 control characters
/// have no width, and widths come from a `u8` table.
#[verifier::external_body]
pub(crate) fn char_width(c: char) -> (r: Option<usize>)
    ensures
        r == spec_char_width(c),
        ' ' <= c < '\u{7f}' ==> r == Some(1usize),
        c < ' ' || ('\u{7f}' <= c < '\u{a0}') ==> r is None,
        r matches Some(w) ==> w <= 255,
{
    unicode_width::UnicodeWidthChar::width(c)
}

/// The cell width of a text as `unicode_width::UnicodeWidthStr::width`
/// gives it.
pub uninterp spec fn spec_str_width(s: Seq<char>) -> usize;

/// Calls `UnicodeWidthStr::width`. The contract claims only the named
/// `spec_str_width` of the text.
#[verifier::external_body]
pub(crate) fn str_width(s: &str) -> (r: usize)
    ensures
        r == spec_str_width(s@),
{
    unicode_width::UnicodeWidthStr::width(s)
}

/// A character's width, 0 for control characters.
pub open spec fn cw(c: char) -> int {
    match spec_char_width(c) {
        Some(w) => w as int,
        None => 0,
    }
}

/// How many leading characters of `s` fit in `limit` cells when `used`
/// are taken already: characters are taken until one would not fit.
pub open spec fn fit_len(s: Seq<char>, used: int, limit: int) -> nat
    decreases s.len(),
{
    if s.len() == 0 || used + cw(s[0]) > limit {
        0
    } else {
        1 + fit_len(s.drop_first(), used + cw(s[0]), limit)
    }
}

proof fn lemma_fit_len_bound(s: Seq<char>, used: int, limit: int)
    ensures
        fit_len(s, used, limit) <= s.len(),
    decreases s.len(),
{
    if s.len() > 0 && used + cw(s[0]) <= limit {
        lemma_fit_len_bound(s.drop_first(), used + cw(s[0]), limit);
    }
}

/// The longest prefix of `s` that fits in `limit` cells, taken character
/// by character.
fn fit_prefix(s: &Vec<char>, limit: usize) -> (r: Vec<char>)
    ensures
        r@ == s@.take(fit_len(s@, 0, limit as int) as int),
{
    let mut out: Vec<char> = Vec::new();
    let mut used: usize = 0;
    let mut i: usize = 0;
    proof {
        lemma_fit_len_bound(s@, 0, limit as int);
        assert(s@.skip(0) == s@);
    }
    while i < s.len()
        invariant
            i <= s@.len(),
            used <= limit,
            out@ == s@.take(i as int),
            fit_len(s@, 0, limit as int) == i + fit_len(s@.skip(i as int), used as int, limit as int),
        decreases s@.len() - i,
    {
        let w: usize = match char_width(s[i]) {
            Some(w) => w,
            None => 0,
        };
        assert(s@.skip(i as int)[0] == s@[i as int]);
        assert(s@.skip(i as int).drop_first() == s@.skip(i + 1));
        if w > limit - used {
            assert(fit_len(s@.skip(i as int), used as int, limit as int) == 0);
            assert(fit_len(s@, 0, limit as int) == i);
            return out;
        }
        used = used + w;
        out.push(s[i]);
        assert(s@.take(i + 1) == s@.take(i as int).push(s@[i as int]));
        i = i + 1;
    }
    assert(s@.skip(i as int).len() == 0);
    assert(s@.take(i as int) == s@);
    out
}

/// The cells that the characters of `s` take, counted one by one.
pub open spec fn char_cells(s: Seq<char>) -> int
    decreases s.len(),
{
    if s.len() == 0 {
        0
    } else {
        cw(s[0]) + char_cells(s.drop_first())
    }
}

proof fn lemma_char_cells_push(s: Seq<char>, c: char)
    ensures
        char_cells(s.push(c)) == char_cells(s) + cw(c),
    decreases s.len(),
{
    if s.len() == 0 {
        assert(s.push(c).drop_first() =~= Seq::<char>::empty());
        assert(s.push(c)[0] == c);
        assert(char_cells(Seq::<char>::empty()) == 0);
        assert(char_cells(s) == 0);
    } else {
        lemma_char_cells_push(s.drop_first(), c);
        assert(s.push(c).drop_first() =~= s.drop_first().push(c));
        assert(s.push(c)[0] == s[0]);
    }
}

proof fn lemma_fit_prefix_cells(s: Seq<char>, used: int, limit: int)
    requires
        used <= limit,
    ensures
        used + char_cells(s.take(fit_len(s, used, limit) as int)) <= limit,
    decreases s.len(),
{
    if s.len() == 0 || used + cw(s[0]) > limit {
        assert(s.take(0) =~= Seq::<char>::empty());
    } else {
        lemma_fit_prefix_cells(s.drop_first(), used + cw(s[0]), limit);
        lemma_fit_len_bound(s.drop_first(), used + cw(s[0]), limit);
        let n = fit_len(s, used, limit) as int;
        assert(s.take(n).drop_first() =~= s.drop_first().take(n - 1));
    }
}

/// A text cut by `truncate_plain` fits its width: it is the text itself
/// where the text's width is within `max_width`, and otherwise a prefix
/// whose characters take at most `max_width` cells.
pub proof fn lemma_truncate_plain_fits(text: Seq<char>, max_width: usize)
    ensures
        spec_str_width(text) <= max_width ==> truncate_plain_spec(text, max_width) == text,
        spec_str_width(text) > max_width ==> {
            &&& char_cells(truncate_plain_spec(text, max_width)) <= max_width
            &&& truncate_plain_spec(text, max_width).is_prefix_of(text)
        },
{
    if spec_str_width(text) > max_width {
        lemma_fit_prefix_cells(text, 0, max_width as int);
        lemma_fit_len_bound(text, 0, max_width as int);
    }
}

/// A text cut by `truncate_with_ellipsis` fits its width: it is the text
/// itself where the text's width is within `max_width`; where it is cut
/// beside the ellipsis, the kept characters and the ellipsis take at most
/// `max_width` cells.
pub proof fn lemma_truncate_with_ellipsis_fits(text: Seq<char>, max_width: usize)
    ensures
        max_width > 0 && spec_str_width(text) <= max_width ==> truncate_with_ellipsis_spec(text, max_width) == text,
        ({
            let ew = match spec_char_width(ellipsis()) {
                Some(w) => w as int,
                None => 1,
            };
            spec_str_width(text) > max_width && max_width > ew ==> {
                &&& char_cells(truncate_with_ellipsis_spec(text, max_width)) <= max_width
                &&& truncate_with_ellipsis_spec(text, max_width).last() == ellipsis()
                &&& truncate_with_ellipsis_spec(text, max_width).drop_last().is_prefix_of(text)
            }
        }),
{
    let ew = match spec_char_width(ellipsis()) {
        Some(w) => w as int,
        None => 1,
    };
    if spec_str_width(text) > max_width && max_width > ew {
        let n = fit_len(text, 0, max_width - ew) as int;
        lemma_fit_prefix_cells(text, 0, max_width - ew);
        lemma_fit_len_bound(text, 0, max_width - ew);
        lemma_char_cells_push(text.take(n), ellipsis());
        assert(text.take(n).push(ellipsis()).drop_last() =~= text.take(n));
    }
}

/// `n` copies of `c`.
pub open spec fn repeat_char(c: char, n: nat) -> Seq<char> {
    Seq::new(n, |i: int| c)
}

fn push_repeat(out: &mut String, c: char, n: usize)
    ensures
        final(out)@ == old(out)@ + repeat_char(c, n as nat),
{
    let mut i: usize = 0;
    while i < n
        invariant
            i <= n,
            out@ == old(out)@ + repeat_char(c, i as nat),
        decreases n - i,
    {
        push_char(out, c);
        assert(repeat_char(c, (i + 1) as nat) == repeat_char(c, i as nat).push(c));
        i = i + 1;
    }
}

/// The horizontal ellipsis that marks truncated sidebar and header lines.
pub open spec fn ellipsis() -> char {
    '\u{2026}'
}

/// A text cut to `max_width` cells with a trailing ellipsis: empty for no
/// width; unchanged when it fits; dots when even the ellipsis does not
/// fit; else the prefix that fits beside the ellipsis, then the ellipsis.
pub open spec fn truncate_with_ellipsis_spec(text: Seq<char>, max_width: usize) -> Seq<char> {
    let ew = match spec_char_width(ellipsis()) {
        Some(w) => w as int,
        None => 1,
    };
    if max_width == 0 {
        Seq::empty()
    } else if spec_str_width(text) <= max_width {
        text
    } else if max_width <= ew {
        repeat_char('.', max_width as nat)
    } else {
        text.take(fit_len(text, 0, max_width - ew) as int).push(ellipsis())
    }
}

/// See `truncate_with_ellipsis_spec`.
pub fn truncate_with_ellipsis(text: &str, max_width: usize) -> (r: String)
    ensures
        r@ == truncate_with_ellipsis_spec(text@, max_width),
{
    if max_width == 0 {
        return String::new();
    }
    if str_width(text) <= max_width {
        let mut s = String::new();
        push_str(&mut s, text);
        return s;
    }
    let ew: usize = match char_width('\u{2026}') {
        Some(w) => w,
        None => 1,
    };
    if max_width <= ew {
        let mut s = String::new();
        push_repeat(&mut s, '.', max_width);
        return s;
    }
    let chars = str_chars(text);
    let prefix = fit_prefix(&chars, max_width - ew);
    let mut out = string_from_chars(prefix.as_slice());
    push_char(&mut out, '\u{2026}');
    out
}

/// A text cut to `max_width` cells with a trailing `...`: unchanged when it
/// fits; else the prefix that fits beside three cells, then `...`.
pub open spec fn truncate_to_width_spec(text: Seq<char>, max_width: usize) -> Seq<char> {
    if spec_str_width(text) <= max_width {
        text
    } else {
        text.take(fit_len(text, 0, max_width - 3) as int) + "..."@
    }
}

/// See `truncate_to_width_spec`.
pub fn truncate_to_width(text: &str, max_width: usize) -> (r: String)
    ensures
        r@ == truncate_to_width_spec(text@, max_width),
{
    if str_width(text) <= max_width {
        let mut s = String::new();
        push_str(&mut s, text);
        return s;
    }
    let chars = str_chars(text);
    let prefix: Vec<char> = if max_width < 3 {
        proof {
            let t = text@;
            if t.len() > 0 {
                assert(0 + cw(t[0]) > max_width - 3) by {
                    assert(cw(t[0]) >= 0);
                }
            }
        }
        assert(text@.take(0) =~= Seq::<char>::empty());
        Vec::new()
    } else {
        fit_prefix(&chars, max_width - 3)
    };
    let mut out = string_from_chars(prefix.as_slice());
    push_str(&mut out, "...");
    out
}

/// A text cut, without a mark, to the prefix that fits `max_width` cells.
pub open spec fn truncate_plain_spec(text: Seq<char>, max_width: usize) -> Seq<char> {
    if spec_str_width(text) > max_width {
        text.take(fit_len(text, 0, max_width as int) as int)
    } else {
        text
    }
}

/// See `truncate_plain_spec`.
pub fn truncate_plain(text: &str, max_width: usize) -> (r: String)
    ensures
        r@ == truncate_plain_spec(text@, max_width),
{
    if str_width(text) > max_width {
        let chars = str_chars(text);
        let prefix = fit_prefix(&chars, max_width);
        string_from_chars(prefix.as_slice())
    } else {
        let mut s = String::new();
        push_str(&mut s, text);
        s
    }
}

/// `line` padded with spaces to `width` cells (by its width as measured).
pub open spec fn padded(line: Seq<char>, width: usize) -> Seq<char> {
    let w = spec_str_width(line);
    line + repeat_char(' ', if w < width { (width - w) as nat } else { 0 })
}

/// Pads `line` with spaces to `width` cells.
pub fn pad_to_width(line: &mut String, width: usize)
    ensures
        final(line)@ == padded(old(line)@, width),
{
    let w = str_width(line.as_str());
    let remaining = if w < width {
        width - w
    } else {
        0
    };
    push_repeat(line, ' ', remaining);
}

} // verus!

verus! {

/// The name shown for image `i` of the list, or `unknown` when there is
/// none.
pub open spec fn list_name(files: Seq<String>, i: int) -> Seq<char> {
    if 0 <= i < files.len() {
        node_name(files[i]@)
    } else {
        "unknown"@
    }
}

fn list_name_exec(files: &Vec<String>, i: usize) -> (r: String)
    ensures
        r@ == list_name(files@, i as int),
{
    if i < files.len() {
        node_name_exec(files[i].as_str())
    } else {
        let mut s = String::new();
        push_str(&mut s, "unknown");
        s
    }
}

/// The header's text: ` <previous> <- <current> -> <next> (<n>/<total>)`,
/// the neighbours wrapping around the list.
pub open spec fn header_text(files: Seq<String>, current: usize) -> Seq<char> {
    let total = files.len();
    let prev = if total == 0 {
        0
    } else if current == 0 {
        total - 1
    } else {
        current - 1
    };
    let next = if total == 0 {
        0
    } else if current + 1 < total {
        current + 1
    } else {
        0
    };
    " "@ + list_name(files, prev) + " <- "@ + list_name(files, current as int) + " -> "@ + list_name(files, next)
        + " ("@ + decimal_seq((current + 1) as nat) + "/"@ + decimal_seq(total) + ")"@
}

/// The header names, around the current image, the images that `h` and
/// `l` step to: the one before it and the one after it, both taken
/// cyclically, so that at the last image the next one is the first, and
/// at the first the previous one is the last.
pub proof fn lemma_header_neighbours_wrap(files: Seq<String>, current: usize)
    requires
        current < files.len(),
    ensures
        ({
            let n = files.len() as int;
            header_text(files, current) == " "@ + list_name(files, (current + n - 1) % n) + " <- "@ + list_name(
                files,
                current as int,
            ) + " -> "@ + list_name(files, (current + 1) % n) + " ("@ + decimal_seq((current + 1) as nat) + "/"@
                + decimal_seq(files.len()) + ")"@
        }),
{
    let n = files.len() as int;
    let cur = current as int;
    if cur + 1 < n {
        assert((cur + 1) % n == cur + 1) by (nonlinear_arith)
            requires
                0 <= cur + 1 < n,
        ;
    } else {
        assert((cur + 1) % n == 0) by (nonlinear_arith)
            requires
                cur + 1 == n,
                n > 0,
        ;
    }
    if cur == 0 {
        assert((cur + n - 1) % n == n - 1) by (nonlinear_arith)
            requires
                cur == 0,
                n > 0,
        ;
    } else {
        assert((cur + n - 1) % n == cur - 1) by (nonlinear_arith)
            requires
                1 <= cur < n,
        ;
    }
}

/// The header line: its text cut to the terminal's width with an
/// ellipsis, then padded to it.
pub fn header_line(files: &Vec<String>, current_index: usize, term_width: u32) -> (r: String)
    requires
        current_index < usize::MAX,
    ensures
        r@ == padded(truncate_with_ellipsis_spec(header_text(files@, current_index), term_width as usize), term_width as usize),
{
    let total = files.len();
    let prev = if total == 0 {
        0
    } else if current_index == 0 {
        total - 1
    } else {
        current_index - 1
    };
    let next = if total == 0 {
        0
    } else if current_index < total - 1 {
        current_index + 1
    } else {
        0
    };
    let mut header = String::new();
    push_str(&mut header, " ");
    let p = list_name_exec(files, prev);
    push_str(&mut header, p.as_str());
    push_str(&mut header, " <- ");
    let c = list_name_exec(files, current_index);
    push_str(&mut header, c.as_str());
    push_str(&mut header, " -> ");
    let n = list_name_exec(files, next);
    push_str(&mut header, n.as_str());
    push_str(&mut header, " (");
    push_decimal(&mut header, (current_index + 1) as u64);
    push_str(&mut header, "/");
    push_decimal(&mut header, total as u64);
    push_str(&mut header, ")");
    let width = term_width as usize;
    let mut line = truncate_with_ellipsis(header.as_str(), width);
    pad_to_width(&mut line, width);
    line
}

/// The status bar's text: the message when there is one, else
/// `<elapsed>ms | <w>x<h> | <rw>x<rh>`, the elapsed time given as text.
pub open spec fn status_text(
    elapsed_text: Seq<char>,
    source: (u32, u32),
    rendered: (u32, u32),
    message: Option<Seq<char>>,
) -> Seq<char> {
    match message {
        Some(m) => m,
        None => elapsed_text + "ms | "@ + decimal_seq(source.0 as nat) + "x"@ + decimal_seq(source.1 as nat)
            + " | "@ + decimal_seq(rendered.0 as nat) + "x"@ + decimal_seq(rendered.1 as nat),
    }
}

/// The status bar line: its text cut to one cell less than the terminal's
/// width (so that the last row does not scroll), then padded to it.
pub fn statusbar_line(
    term_width: u32,
    elapsed_text: &str,
    source_dimensions: (u32, u32),
    rendered_dimensions: (u32, u32),
    status_message: Option<&str>,
) -> (r: String)
    ensures
        ({
            let width = (if term_width >= 1 { term_width - 1 } else { 0 }) as usize;
            let m = match status_message {
                Some(s) => Some(s@),
                None => None,
            };
            r@ == padded(truncate_plain_spec(status_text(elapsed_text@, source_dimensions, rendered_dimensions, m), width), width)
        }),
{
    let mut text = String::new();
    match status_message {
        Some(m) => push_str(&mut text, m),
        None => {
            push_str(&mut text, elapsed_text);
            push_str(&mut text, "ms | ");
            push_decimal(&mut text, source_dimensions.0 as u64);
            push_str(&mut text, "x");
            push_decimal(&mut text, source_dimensions.1 as u64);
            push_str(&mut text, " | ");
            push_decimal(&mut text, rendered_dimensions.0 as u64);
            push_str(&mut text, "x");
            push_decimal(&mut text, rendered_dimensions.1 as u64);
        },
    }
    let width: usize = if term_width >= 1 {
        (term_width - 1) as usize
    } else {
        0
    };
    let mut line = truncate_plain(text.as_str(), width);
    pad_to_width(&mut line, width);
    line
}

/// A message line over the image: cut to two cells less than the image
/// area's width (at least one), then padded to that; nothing for an area
/// of no width.
pub open spec fn message_line_spec(available_width: u32, message: Seq<char>) -> Option<Seq<char>> {
    if available_width == 0 {
        None
    } else {
        let max_width = (if available_width >= 3 { available_width - 2 } else { 1 }) as usize;
        Some(padded(truncate_plain_spec(message, max_width), max_width))
    }
}

/// See `message_line_spec`.
pub fn message_line(available_width: u32, message: &str) -> (r: Option<String>)
    ensures
        match r {
            Some(l) => message_line_spec(available_width, message@) == Some(l@),
            None => message_line_spec(available_width, message@) is None,
        },
{
    if available_width == 0 {
        return None;
    }
    let max_width: usize = if available_width >= 3 {
        (available_width - 2) as usize
    } else {
        1
    };
    let mut line = truncate_plain(message, max_width);
    pad_to_width(&mut line, max_width);
    Some(line)
}

/// Where a centred message line goes: centred across the image area by
/// the line's width (taken modulo 2^16, as `as u16` does) and halfway
/// down it.
pub fn message_center_position(image_start_x: u16, available_width: u32, available_height: u32, line_width: usize) -> (r: (u16, u16))
    ensures
        r.0 == ({
            let aw = available_width % 65536;
            let lw = line_width % 65536;
            let free = if aw > lw { aw - lw } else { 0 };
            let x = image_start_x + free / 2;
            if x > u16::MAX { u16::MAX as int } else { x }
        }),
        r.1 == ({
            let y = 1 + (available_height % 65536) / 2;
            if y > u16::MAX { u16::MAX as int } else { y }
        }),
{
    let aw: u16 = (available_width % 65536) as u16;
    let lw: u16 = (line_width % 65536) as u16;
    let free: u16 = if aw > lw {
        aw - lw
    } else {
        0
    };
    let half = free / 2;
    let x: u16 = if half > u16::MAX - image_start_x {
        u16::MAX
    } else {
        image_start_x + half
    };
    let ah: u16 = (available_height % 65536) as u16;
    let y: u16 = if ah / 2 > u16::MAX - 1 {
        u16::MAX
    } else {
        1 + ah / 2
    };
    (x, y)
}

/// Where a centred message `line` goes: `message_center_position` at the
/// line's width in terminal cells.
pub fn message_line_position(image_start_x: u16, available_width: u32, available_height: u32, line: &str) -> (r: (
    u16,
    u16,
))
    ensures
        r.0 == ({
            let aw = available_width % 65536;
            let lw = spec_str_width(line@) % 65536;
            let free = if aw > lw { aw - lw } else { 0 };
            let x = image_start_x + free / 2;
            if x > u16::MAX { u16::MAX as int } else { x }
        }),
        r.1 == ({
            let y = 1 + (available_height % 65536) / 2;
            if y > u16::MAX { u16::MAX as int } else { y }
        }),
{
    message_center_position(image_start_x, available_width, available_height, str_width(line))
}

} // verus!

verus! {

/// What the overlay shows of the current image.
#[derive(Debug)]
pub struct OverlayInfo {
    pub image_dimensions: (u32, u32),
    pub file_size_bytes: Option<u64>,
    pub file_name: String,
    pub format: String,
}

/// The overlay facts of the image at `path`: its file name (or `unknown`),
/// its extension upper-cased as the format (or `UNKNOWN`), its size as
/// given and its file size as read.
pub fn build_overlay_info(path: &str, image_dimensions: (u32, u32), file_size_bytes: Option<u64>) -> (r: OverlayInfo)
    ensures
        r.image_dimensions == image_dimensions,
        r.file_size_bytes == file_size_bytes,
        r.file_name@ == node_name(path@),
        r.format@ == match extension_of(path@) {
            Some(e) => upper_seq(e),
            None => "UNKNOWN"@,
        },
{
    let file_name = node_name_exec(path);
    let format = match path_extension(path) {
        Some(e) => {
            let u = to_upper_chars(e.as_slice());
            string_from_chars(u.as_slice())
        },
        None => {
            let mut s = String::new();
            push_str(&mut s, "UNKNOWN");
            s
        },
    };
    OverlayInfo { image_dimensions, file_size_bytes, file_name, format }
}

/// The four lines of the overlay, the file size given as text.
pub open spec fn overlay_lines(info: OverlayInfo, size_text: Seq<char>) -> Seq<Seq<char>> {
    seq![
        "Name: "@ + info.file_name@,
        "Format: "@ + info.format@,
        "Dimensions: "@ + decimal_seq(info.image_dimensions.0 as nat) + "x"@ + decimal_seq(info.image_dimensions.1 as nat),
        "Size: "@ + size_text,
    ]
}

/// The overlay box drawn centred on the screen: where its top-left corner
/// goes, and its rows from the top border to the bottom one.
#[derive(Debug)]
pub struct OverlayBox {
    pub start_x: u16,
    pub start_y: u16,
    pub rows: Vec<String>,
}

/// The width inside the overlay's border: the widest line, at most the
/// terminal's width less four, and at least 20.
pub open spec fn overlay_inner_width(lines: Seq<Seq<char>>, term_width: u32) -> int {
    let widest = max_width_of(lines);
    let cap = if term_width >= 4 { term_width - 4 } else { 0 };
    let m = if widest < cap { widest } else { cap };
    if m > 20 { m } else { 20 }
}

/// The widest of the lines, by measured width.
pub open spec fn max_width_of(lines: Seq<Seq<char>>) -> int
    decreases lines.len(),
{
    if lines.len() == 0 {
        0
    } else {
        let rest = max_width_of(lines.drop_last());
        let w = spec_str_width(lines.last()) as int;
        if w > rest { w } else { rest }
    }
}

/// One content row of the overlay: the line cut with `...` to the inner
/// width, padded, between bars.
pub open spec fn overlay_row(line: Seq<char>, inner: usize) -> Seq<char> {
    let t = truncate_to_width_spec(line, inner);
    let w = spec_str_width(t);
    "|"@ + t + repeat_char(' ', if w < inner { (inner - w) as nat } else { 0 }) + "|"@
}

/// The overlay's top and bottom border.
pub open spec fn overlay_border(inner: usize) -> Seq<char> {
    "+"@ + repeat_char('-', inner as nat) + "+"@
}

fn overlay_row_exec(line: &str, inner: usize) -> (r: String)
    ensures
        r@ == overlay_row(line@, inner),
{
    let t = truncate_to_width(line, inner);
    let w = str_width(t.as_str());
    let mut row = String::new();
    push_str(&mut row, "|");
    push_str(&mut row, t.as_str());
    push_repeat(&mut row, ' ', if w < inner { inner - w } else { 0 });
    push_str(&mut row, "|");
    row
}

/// The overlay for a terminal of `term_width` by `term_height` cells:
/// none when it is narrower than 8 or lower than 6; else a box of the
/// inner width (see `overlay_inner_width`) plus the border, six rows
/// high, centred (sizes taken modulo 2^16, as `as u16` does).
#[verifier::spinoff_prover]
#[verifier::rlimit(40)]
pub fn overlay_box(term_width: u32, term_height: u32, info: &OverlayInfo, size_text: &str) -> (r: Option<OverlayBox>)
    ensures
        (term_width < 8 || term_height < 6) ==> r is None,
        !(term_width < 8 || term_height < 6) ==> (r matches Some(b) && ({
            let lines = overlay_lines(*info, size_text@);
            let inner = overlay_inner_width(lines, term_width);
            let box_w = if inner + 2 > u16::MAX { u16::MAX as int } else { inner + 2 };
            let tw = term_width % 65536;
            let th = term_height % 65536;
            &&& b.start_x == (if tw > box_w { tw - box_w } else { 0 }) / 2
            &&& b.start_y == (if th > 6 { th - 6 } else { 0 }) / 2
            &&& b.rows@.len() == 6
            &&& b.rows@[0]@ == overlay_border(inner as usize)
            &&& b.rows@[5]@ == overlay_border(inner as usize)
            &&& forall|k: int| 0 <= k < 4 ==> (#[trigger] b.rows@[k + 1])@ == overlay_row(lines[k], inner as usize)
        })),
{
    if term_width < 8 || term_height < 6 {
        return None;
    }
    let mut l0 = String::new();
    push_str(&mut l0, "Name: ");
    push_str(&mut l0, info.file_name.as_str());
    let mut l1 = String::new();
    push_str(&mut l1, "Format: ");
    push_str(&mut l1, info.format.as_str());
    let mut l2 = String::new();
    push_str(&mut l2, "Dimensions: ");
    push_decimal(&mut l2, info.image_dimensions.0 as u64);
    push_str(&mut l2, "x");
    push_decimal(&mut l2, info.image_dimensions.1 as u64);
    let mut l3 = String::new();
    push_str(&mut l3, "Size: ");
    push_str(&mut l3, size_text);
    let ghost lines = overlay_lines(*info, size_text@);
    assert(lines[0] == l0@ && lines[1] == l1@ && lines[2] == l2@ && lines[3] == l3@);
    let w0 = str_width(l0.as_str());
    let w1 = str_width(l1.as_str());
    let w2 = str_width(l2.as_str());
    let w3 = str_width(l3.as_str());
    let mut widest = w0;
    if w1 > widest {
        widest = w1;
    }
    if w2 > widest {
        widest = w2;
    }
    if w3 > widest {
        widest = w3;
    }
    proof {
        assert(lines.drop_last().drop_last().drop_last().drop_last() =~= Seq::<Seq<char>>::empty());
        assert(lines.drop_last().drop_last().drop_last().last() == lines[0]);
        assert(lines.drop_last().drop_last().last() == lines[1]);
        assert(lines.drop_last().last() == lines[2]);
        assert(lines.last() == lines[3]);
        reveal_with_fuel(max_width_of, 5);
        assert(max_width_of(lines) == widest);
    }
    let cap: usize = if term_width >= 4 {
        (term_width - 4) as usize
    } else {
        0
    };
    let m = if widest < cap {
        widest
    } else {
        cap
    };
    let inner: usize = if m > 20 {
        m
    } else {
        20
    };
    assert(inner <= u32::MAX);
    let box_w: u16 = if inner + 2 > 65535 {
        u16::MAX
    } else {
        (inner + 2) as u16
    };
    let tw: u16 = (term_width % 65536) as u16;
    let th: u16 = (term_height % 65536) as u16;
    let start_x = (if tw > box_w {
        tw - box_w
    } else {
        0
    }) / 2;
    let start_y = (if th > 6 {
        th - 6
    } else {
        0
    }) / 2;
    let mut top = String::new();
    push_str(&mut top, "+");
    push_repeat(&mut top, '-', inner);
    push_str(&mut top, "+");
    let mut bottom = String::new();
    push_str(&mut bottom, "+");
    push_repeat(&mut bottom, '-', inner);
    push_str(&mut bottom, "+");
    let mut rows: Vec<String> = Vec::new();
    rows.push(top);
    rows.push(overlay_row_exec(l0.as_str(), inner));
    rows.push(overlay_row_exec(l1.as_str(), inner));
    rows.push(overlay_row_exec(l2.as_str(), inner));
    rows.push(overlay_row_exec(l3.as_str(), inner));
    rows.push(bottom);
    let b = OverlayBox { start_x, start_y, rows };
    assert(forall|k: int| 0 <= k < 4 ==> (#[trigger] b.rows@[k + 1])@ == overlay_row(lines[k], inner as usize)) by {
        assert(b.rows@[1]@ == overlay_row(lines[0], inner));
        assert(b.rows@[2]@ == overlay_row(lines[1], inner));
        assert(b.rows@[3]@ == overlay_row(lines[2], inner));
        assert(b.rows@[4]@ == overlay_row(lines[3], inner));
    }
    Some(b)
}

} // verus!

verus! {

/// How a sidebar row is coloured.
#[derive(Debug, Clone, Copy, PartialEq, Eq, Structural)]
pub enum RowStyle {
    /// The row under the cursor.
    Cursor,
    /// The row of the current image.
    CurrentImage,
    Normal,
}

/// The text of a sidebar entry: the cursor mark, two spaces per level,
/// the directory mark (`-` expanded, `+` collapsed) and the name, with a
/// `/` after directories.
pub open spec fn entry_text(e: FileTreeEntry) -> Seq<char> {
    let indent = if e.depth * 2 > usize::MAX { usize::MAX as nat } else { (e.depth * 2) as nat };
    (if e.is_cursor { ">"@ } else { " "@ }) + repeat_char(' ', indent) + (if e.is_dir {
        if e.is_expanded { "- "@ } else { "+ "@ }
    } else {
        "  "@
    }) + e.name@ + (if e.is_dir { "/"@ } else { Seq::empty() })
}

/// The first entry under the cursor, or 0.
pub open spec fn cursor_entry(entries: Seq<FileTreeEntry>) -> int
    decreases entries.len(),
{
    if entries.len() == 0 {
        0
    } else if entries[0].is_cursor {
        0
    } else if exists|k: int| 0 <= k < entries.len() && (#[trigger] entries[k]).is_cursor {
        1 + cursor_entry(entries.drop_first())
    } else {
        0
    }
}

/// The first entry shown: 0 when all fit, else the cursor's entry less
/// half the rows, kept within the list.
pub open spec fn first_shown(cursor: int, len: int, rows: int) -> int {
    if len <= rows {
        0
    } else {
        let a = if cursor > rows / 2 { cursor - rows / 2 } else { 0 };
        if a < len - rows { a } else { len - rows }
    }
}

/// Row `row` of the sidebar: the entry shown there cut with an ellipsis
/// and padded to the width, or blanks; and its colouring.
pub open spec fn sidebar_row(entries: Seq<FileTreeEntry>, start: int, row: int, width: usize) -> (Seq<char>, RowStyle) {
    let i = start + row;
    if 0 <= i < entries.len() {
        let e = entries[i];
        (
            padded(truncate_with_ellipsis_spec(entry_text(e), width), width),
            if e.is_cursor {
                RowStyle::Cursor
            } else if e.is_current_image {
                RowStyle::CurrentImage
            } else {
                RowStyle::Normal
            },
        )
    } else {
        (padded(truncate_with_ellipsis_spec(Seq::empty(), width), width), RowStyle::Normal)
    }
}

fn entry_text_exec(e: &FileTreeEntry) -> (r: String)
    ensures
        r@ == entry_text(*e),
{
    let mut s = String::new();
    push_str(&mut s, if e.is_cursor { ">" } else { " " });
    let indent: usize = if e.depth > usize::MAX / 2 {
        usize::MAX
    } else {
        e.depth * 2
    };
    push_repeat(&mut s, ' ', indent);
    push_str(&mut s, if e.is_dir {
        if e.is_expanded {
            "- "
        } else {
            "+ "
        }
    } else {
        "  "
    });
    push_str(&mut s, e.name.as_str());
    if e.is_dir {
        push_str(&mut s, "/");
    }
    proof {
        reveal_strlit("");
    }
    s
}

/// The rows of the sidebar for a terminal `term_height` rows high (less
/// the header and status bar rows), `filetree_width` cells wide, scrolled
/// so that the cursor's entry stays centred where it can.
pub fn render_filetree(entries: &Vec<FileTreeEntry>, filetree_width: u16, term_height: u32) -> (r: Vec<(String, RowStyle)>)
    ensures
        ({
            let rows = if term_height >= 2 { term_height - 2 } else { 0 };
            let start = first_shown(cursor_entry(entries@), entries@.len() as int, rows as int);
            &&& r@.len() == rows
            &&& forall|k: int| 0 <= k < rows ==> (#[trigger] r@[k]).0@ == sidebar_row(entries@, start, k, filetree_width as usize).0
                && r@[k].1 == sidebar_row(entries@, start, k, filetree_width as usize).1
        }),
{
    let rows: usize = if term_height >= 2 {
        (term_height - 2) as usize
    } else {
        0
    };
    let width = filetree_width as usize;
    let mut cursor_index: usize = 0;
    let mut j: usize = 0;
    while j < entries.len()
        invariant
            j <= entries@.len(),
            cursor_index == 0,
            forall|k: int| 0 <= k < j ==> !(#[trigger] entries@[k]).is_cursor,
        ensures
            j <= entries@.len(),
            forall|k: int| 0 <= k < j ==> !(#[trigger] entries@[k]).is_cursor,
            j < entries@.len() ==> entries@[j as int].is_cursor,
        decreases entries@.len() - j,
    {
        if entries[j].is_cursor {
            break;
        }
        j = j + 1;
    }
    proof {
        lemma_cursor_entry(entries@, j as int);
    }
    cursor_index = j;
    if cursor_index == entries.len() {
        cursor_index = 0;
    }
    let start: usize = if entries.len() <= rows {
        0
    } else {
        let half = rows / 2;
        let a = if cursor_index > half {
            cursor_index - half
        } else {
            0
        };
        let b = entries.len() - rows;
        if a < b {
            a
        } else {
            b
        }
    };
    let mut out: Vec<(String, RowStyle)> = Vec::new();
    let mut row: usize = 0;
    let n = entries.len();
    while row < rows
        invariant
            row <= rows,
            n == entries@.len(),
            start as int == first_shown(cursor_entry(entries@), entries@.len() as int, rows as int),
            out@.len() == row,
            width == filetree_width as usize,
            forall|k: int| 0 <= k < row ==> (#[trigger] out@[k]).0@ == sidebar_row(entries@, start as int, k, width).0
                && out@[k].1 == sidebar_row(entries@, start as int, k, width).1,
        decreases rows - row,
    {
        let i: usize = if start <= usize::MAX - row {
            start + row
        } else {
            usize::MAX
        };
        let (raw, style) = if start <= usize::MAX - row && i < entries.len() {
            let e = &entries[i];
            let style = if e.is_cursor {
                RowStyle::Cursor
            } else if e.is_current_image {
                RowStyle::CurrentImage
            } else {
                RowStyle::Normal
            };
            (entry_text_exec(e), style)
        } else {
            (String::new(), RowStyle::Normal)
        };
        proof {
            reveal_strlit("");
        }
        let mut line = truncate_with_ellipsis(raw.as_str(), width);
        pad_to_width(&mut line, width);
        out.push((line, style));
        assert(out@[row as int].0@ == sidebar_row(entries@, start as int, row as int, width).0);
        row = row + 1;
    }
    out
}

/// The first cursor entry, found by scanning.
proof fn lemma_cursor_entry(entries: Seq<FileTreeEntry>, j: int)
    requires
        0 <= j <= entries.len(),
        forall|k: int| 0 <= k < j ==> !(#[trigger] entries[k]).is_cursor,
        j < entries.len() ==> entries[j].is_cursor,
    ensures
        cursor_entry(entries) == if j < entries.len() { j } else { 0 },
    decreases entries.len(),
{
    if entries.len() > 0 && !entries[0].is_cursor {
        if j < entries.len() {
            assert(entries.drop_first()[j - 1] == entries[j]);
            assert forall|k: int| 0 <= k < j - 1 implies !(#[trigger] entries.drop_first()[k]).is_cursor by {
                assert(entries.drop_first()[k] == entries[k + 1]);
            }
            lemma_cursor_entry(entries.drop_first(), j - 1);
        } else {
            assert(!(exists|k: int| 0 <= k < entries.len() && (#[trigger] entries[k]).is_cursor));
        }
    }
}


/// A click on the sidebar selects the entry drawn on the clicked row: for
/// a tree and the entries `render_entries` gives for it (the cursor's
/// entry marked), the window through which `set_cursor_by_screen_row`
/// reads a terminal `term_height` rows high starts at the entry that
/// `render_filetree` draws on its first row, and a click on screen row
/// `row` (1 for the first list row) that shows an entry selects the entry
/// drawn there.
pub proof fn lemma_click_selects_drawn_entry(t: SidebarTree, entries: Seq<FileTreeEntry>, row: u16, term_height: u16)
    requires
        t.wf(),
        entries.len() == t.visible().len(),
        forall|k: int| 0 <= k < entries.len() ==> (#[trigger] entries[k]).is_cursor == (k == t.cursor()),
    ensures
        ({
            let rows: int = if term_height >= 2 {
                term_height - 2
            } else {
                0
            };
            let start = first_shown(cursor_entry(entries), entries.len() as int, rows);
            &&& window_start(t.cursor(), t.visible().len(), rows as nat) == start
            &&& 1 <= row <= rows && start + row - 1 < entries.len() ==> screen_row_target(t, row, term_height) == start
                + row - 1
        }),
{
    if entries.len() > 0 {
        lemma_cursor_entry(entries, t.cursor() as int);
    } else {
        lemma_cursor_entry(entries, 0);
    }
}

} // verus!

verus! {

/// What drawing a whole frame takes, besides the options.
#[derive(Debug, Clone, Copy, PartialEq, Eq, Structural)]
pub struct FrameRenderInput {
    pub current_index: usize,
    pub term_width: u16,
    pub term_height: u16,
}

/// What drawing a whole frame measured.
#[derive(Debug, Clone, Copy)]
pub struct FrameRenderMetrics {
    pub dirty_tiles: Option<usize>,
    pub placement: (u16, u16, u32, u32),
}

/// Where the parts of the screen go.
#[derive(Debug, Clone, Copy, PartialEq, Eq, Structural)]
pub struct FrameLayout {
    /// The column where the image area starts (right of the sidebar).
    pub image_start_x: u16,
    /// The image area's width.
    pub available_width: u32,
    /// The image area's height (less the header and status bar rows).
    pub available_height: u32,
    /// The sidebar's width (at least 1).
    pub sidebar_width: u16,
}

/// The layout of a terminal of `term_width` by `term_height` cells: the
/// image area starts right of the sidebar, when it is shown, and spans the
/// rows between the header and the status bar.
pub fn frame_layout(term_width: u16, term_height: u16, sidebar_visible: bool, sidebar_size: u16) -> (r: FrameLayout)
    ensures
        r.sidebar_width == (if sidebar_size >= 1 { sidebar_size } else { 1 }),
        r.image_start_x == (if sidebar_visible { r.sidebar_width } else { 0 }),
        r.available_width == (if term_width >= r.image_start_x { term_width - r.image_start_x } else { 0 }),
        r.available_height == (if term_height >= 2 { term_height - 2 } else { 0 }),
{
    let sidebar_width: u16 = if sidebar_size >= 1 {
        sidebar_size
    } else {
        1
    };
    let image_start_x: u16 = if sidebar_visible {
        sidebar_width
    } else {
        0
    };
    let available_width: u32 = if term_width >= image_start_x {
        (term_width - image_start_x) as u32
    } else {
        0
    };
    let available_height: u32 = if term_height >= 2 {
        (term_height - 2) as u32
    } else {
        0
    };
    FrameLayout { image_start_x, available_width, available_height, sidebar_width }
}

/// The message shown when an image is too large to display.
pub open spec fn size_limit_message() -> Seq<char> {
    "Image size exceeds limit"@
}

/// Whether the status message reports an image over the size limit.
pub fn is_image_size_limit_error(status_message: Option<&str>) -> (r: bool)
    ensures
        r == (status_message matches Some(m) && m@ == size_limit_message()),
{
    match status_message {
        Some(m) => {
            let a = str_chars(m);
            let b = str_chars("Image size exceeds limit");
            crate::paths::chars_equal(a.as_slice(), b.as_slice())
        },
        None => false,
    }
}

/// The size in pixels of a placement, 8 by 16 pixels a cell, saturating.
pub fn placement_to_pixel_size(placement: (u16, u16, u32, u32)) -> (r: (u32, u32))
    ensures
        r.0 == (if placement.2 * 8 > u32::MAX { u32::MAX as int } else { placement.2 * 8 }),
        r.1 == (if placement.3 * 16 > u32::MAX { u32::MAX as int } else { placement.3 * 16 }),
{
    let w = if placement.2 > u32::MAX / 8 {
        u32::MAX
    } else {
        placement.2 * 8
    };
    let h = if placement.3 > u32::MAX / 16 {
        u32::MAX
    } else {
        placement.3 * 16
    };
    (w, h)
}

/// Where a frame's status message goes.
#[derive(Debug, Clone, Copy, PartialEq, Eq, Structural)]
pub enum MessagePlacement {
    Nowhere,
    /// At the image area's top-left corner (the size-limit error).
    TopLeft,
    /// Centred over the image.
    Center,
}

/// Where the status message goes: the size-limit error at the top left;
/// any other message centred over the image, unless the image is skipped.
pub fn message_placement(has_message: bool, size_limit_error: bool, skip_image: bool) -> (r: MessagePlacement)
    ensures
        r == if !has_message {
            MessagePlacement::Nowhere
        } else if size_limit_error {
            MessagePlacement::TopLeft
        } else if !skip_image {
            MessagePlacement::Center
        } else {
            MessagePlacement::Nowhere
        },
{
    if !has_message {
        MessagePlacement::Nowhere
    } else if size_limit_error {
        MessagePlacement::TopLeft
    } else if !skip_image {
        MessagePlacement::Center
    } else {
        MessagePlacement::Nowhere
    }
}

/// What the status bar row shows.
#[derive(Debug, Clone, Copy, PartialEq, Eq, Structural)]
pub enum StatusbarPlan {
    /// It is hidden: clear the row.
    Cleared,
    /// The size-limit error: no time, no message.
    SizeLimit,
    /// Leave it as it is (a skipped image without a message).
    Unchanged,
    /// The time taken and the message, if any.
    Normal,
}

/// What the status bar row shows for a frame.
pub fn statusbar_plan(visible: bool, size_limit_error: bool, skip_image: bool, has_message: bool) -> (r: StatusbarPlan)
    ensures
        r == if !visible {
            StatusbarPlan::Cleared
        } else if size_limit_error {
            StatusbarPlan::SizeLimit
        } else if skip_image && !has_message {
            StatusbarPlan::Unchanged
        } else {
            StatusbarPlan::Normal
        },
{
    if !visible {
        StatusbarPlan::Cleared
    } else if size_limit_error {
        StatusbarPlan::SizeLimit
    } else if skip_image && !has_message {
        StatusbarPlan::Unchanged
    } else {
        StatusbarPlan::Normal
    }
}

/// Whether a skipped image is taken off the screen: on the size-limit
/// error, or when it is not to be preserved.
pub fn skipped_image_cleared(size_limit_error: bool, preserve_image: bool) -> (r: bool)
    ensures
        r == (size_limit_error || !preserve_image),
{
    size_limit_error || !preserve_image
}

/// Whether the overlay is drawn: it is on, the image is drawn, and there
/// is a current image.
pub fn overlay_shown(overlay_visible: bool, skip_image: bool, current_index: usize, image_count: usize) -> (r: bool)
    ensures
        r == (overlay_visible && !skip_image && current_index < image_count),
{
    overlay_visible && !skip_image && current_index < image_count
}

} // verus!
