//! The Kitty graphics protocol: the escape sequences that upload, place,
//! patch and delete the shown image, the transmission medium chosen for a
//! configured transport mode, and the upload payload for each medium.
use vstd::prelude::*;
use crate::config::TransportMode;
use vstd::string::StringSliceAdditionalSpecFns;
use crate::text::{push_str, push_decimal, decimal_seq, str_chars, to_lower_chars};

verus! {

/// The image id under which the viewer shows its one image.
pub const KITTY_IMAGE_ID: u32 = 1;

/// The transmission medium actually used.
#[derive(Debug, Clone, Copy, PartialEq, Eq, Structural)]
pub enum ResolvedTransport {
    /// `t=d`: the base64 image data itself.
    Direct,
    /// `t=f`: the base64 path of a file.
    File,
    /// `t=t`: the base64 path of a temporary file.
    TempFile,
    /// `t=s`: the base64 name of a POSIX shared memory object.
    SharedMemory,
}

/// The pixel format of an upload.
#[derive(Debug, Clone, Copy, PartialEq, Eq, Structural)]
pub enum UploadPixelFormat {
    /// An encoded image file (PNG and the like), `f=100`.
    Png,
    /// Raw 8-bit RGBA, `f=32`.
    Rgba,
}

/// What an upload sends.
#[derive(Debug)]
pub struct UploadPayload {
    pub transport: ResolvedTransport,
    /// The base64 text that follows the control data.
    pub payload: String,
    /// The byte size of the image data.
    pub data_size: usize,
    pub pixel_format: UploadPixelFormat,
    /// Width and height in pixels (used by raw RGBA uploads).
    pub pixel_width: u32,
    pub pixel_height: u32,
}

/// `x` in decimal.
pub open spec fn dec(x: nat) -> Seq<char> {
    decimal_seq(x)
}

/// `ESC _ G a=d,i=<id> ESC \`: delete the shown image.
pub open spec fn delete_command() -> Seq<char> {
    "\x1b_Ga=d,i="@ + dec(KITTY_IMAGE_ID as nat) + "\x1b\\"@
}

/// The command that deletes the shown image from the terminal's memory.
pub fn send_delete(image_id: u32) -> (r: String)
    ensures
        r@ == delete_command(),
{
    let mut s = String::new();
    push_str(&mut s, "\x1b_Ga=d,i=");
    push_decimal(&mut s, KITTY_IMAGE_ID as u64);
    push_str(&mut s, "\x1b\\");
    s
}

/// `,C=1,c=<w>,r=<h>,i=<id>;<payload> ESC \`: the tail of an upload that
/// shows the image over `w` by `h` cells without moving the cursor.
pub open spec fn upload_tail(width_cells: u32, height_cells: u32, payload: Seq<char>) -> Seq<char> {
    "C=1,c="@ + dec(width_cells as nat) + ",r="@ + dec(height_cells as nat) + ",i="@ + dec(KITTY_IMAGE_ID as nat)
        + ";"@ + payload + "\x1b\\"@
}

/// The command that uploads `p` and shows it over the placement's cells:
/// raw RGBA (`f=32` with its pixel size) or an image file (`f=100`), sent
/// directly (`t=d`), as a file (`t=f`), a temporary file (`t=t`) or shared
/// memory (`t=s` with its byte size).
pub open spec fn upload_command(width_cells: u32, height_cells: u32, p: UploadPayload) -> Seq<char> {
    let tail = upload_tail(width_cells, height_cells, p.payload@);
    match p.transport {
        ResolvedTransport::Direct => if p.pixel_format == UploadPixelFormat::Rgba {
            "\x1b_Ga=T,f=32,t=d,s="@ + dec(p.pixel_width as nat) + ",v="@ + dec(p.pixel_height as nat) + ","@ + tail
        } else {
            "\x1b_Ga=T,f=100,t=d,"@ + tail
        },
        ResolvedTransport::File => "\x1b_Ga=T,f=100,t=f,"@ + tail,
        ResolvedTransport::TempFile => "\x1b_Ga=T,f=100,t=t,"@ + tail,
        ResolvedTransport::SharedMemory => "\x1b_Ga=T,f=100,t=s,s="@ + dec(p.data_size as nat) + ","@ + tail,
    }
}

fn push_upload_tail(s: &mut String, width_cells: u32, height_cells: u32, payload: &str)
    ensures
        final(s)@ == old(s)@ + upload_tail(width_cells, height_cells, payload@),
{
    push_str(s, "C=1,c=");
    push_decimal(s, width_cells as u64);
    push_str(s, ",r=");
    push_decimal(s, height_cells as u64);
    push_str(s, ",i=");
    push_decimal(s, KITTY_IMAGE_ID as u64);
    push_str(s, ";");
    push_str(s, payload);
    push_str(s, "\x1b\\");
}

/// The command that uploads the payload and shows it at `placement`
/// (start column, start row, width and height in cells).
pub fn send_upload(placement: (u16, u16, u32, u32), image_id: u32, upload_payload: &UploadPayload) -> (r: String)
    ensures
        r@ == upload_command(placement.2, placement.3, *upload_payload),
{
    let (_, _, w, h) = placement;
    let mut s = String::new();
    match upload_payload.transport {
        ResolvedTransport::Direct => {
            if upload_payload.pixel_format == UploadPixelFormat::Rgba {
                push_str(&mut s, "\x1b_Ga=T,f=32,t=d,s=");
                push_decimal(&mut s, upload_payload.pixel_width as u64);
                push_str(&mut s, ",v=");
                push_decimal(&mut s, upload_payload.pixel_height as u64);
                push_str(&mut s, ",");
            } else {
                push_str(&mut s, "\x1b_Ga=T,f=100,t=d,");
            }
        },
        ResolvedTransport::File => {
            push_str(&mut s, "\x1b_Ga=T,f=100,t=f,");
        },
        ResolvedTransport::TempFile => {
            push_str(&mut s, "\x1b_Ga=T,f=100,t=t,");
        },
        ResolvedTransport::SharedMemory => {
            push_str(&mut s, "\x1b_Ga=T,f=100,t=s,s=");
            push_decimal(&mut s, upload_payload.data_size as u64);
            push_str(&mut s, ",");
        },
    }
    push_upload_tail(&mut s, w, h, upload_payload.payload.as_str());
    s
}

/// `ESC _ G a=p,C=1,c=<w>,r=<h>,i=<id> ESC \`: show the uploaded image again
/// over `w` by `h` cells.
pub open spec fn place_command(width_cells: u32, height_cells: u32) -> Seq<char> {
    "\x1b_Ga=p,C=1,c="@ + dec(width_cells as nat) + ",r="@ + dec(height_cells as nat) + ",i="@ + dec(
        KITTY_IMAGE_ID as nat,
    ) + "\x1b\\"@
}

/// The command that places the uploaded image at `placement`.
pub fn send_place(placement: (u16, u16, u32, u32), image_id: u32) -> (r: String)
    ensures
        r@ == place_command(placement.2, placement.3),
{
    let (_, _, w, h) = placement;
    let mut s = String::new();
    push_str(&mut s, "\x1b_Ga=p,C=1,c=");
    push_decimal(&mut s, w as u64);
    push_str(&mut s, ",r=");
    push_decimal(&mut s, h as u64);
    push_str(&mut s, ",i=");
    push_decimal(&mut s, KITTY_IMAGE_ID as u64);
    push_str(&mut s, "\x1b\\");
    s
}

/// `ESC _ G a=f,f=32,i=<id>,x=<x>,y=<y>,s=<w>,v=<h>,C=1;<payload> ESC \`:
/// paint a raw RGBA rectangle over the uploaded image.
pub open spec fn patch_command(x: u32, y: u32, w: u32, h: u32, payload: Seq<char>) -> Seq<char> {
    "\x1b_Ga=f,f=32,i="@ + dec(KITTY_IMAGE_ID as nat) + ",x="@ + dec(x as nat) + ",y="@ + dec(y as nat) + ",s="@
        + dec(w as nat) + ",v="@ + dec(h as nat) + ",C=1;"@ + payload + "\x1b\\"@
}

/// The command that paints the RGBA rectangle `encoded_payload` (base64)
/// of `patch_width` by `patch_height` pixels at `(offset_x, offset_y)`.
pub fn send_patch_rgba(
    image_id: u32,
    offset_x: u32,
    offset_y: u32,
    patch_width: u32,
    patch_height: u32,
    encoded_payload: &str,
) -> (r: String)
    ensures
        r@ == patch_command(offset_x, offset_y, patch_width, patch_height, encoded_payload@),
{
    let mut s = String::new();
    push_str(&mut s, "\x1b_Ga=f,f=32,i=");
    push_decimal(&mut s, KITTY_IMAGE_ID as u64);
    push_str(&mut s, ",x=");
    push_decimal(&mut s, offset_x as u64);
    push_str(&mut s, ",y=");
    push_decimal(&mut s, offset_y as u64);
    push_str(&mut s, ",s=");
    push_decimal(&mut s, patch_width as u64);
    push_str(&mut s, ",v=");
    push_decimal(&mut s, patch_height as u64);
    push_str(&mut s, ",C=1;");
    push_str(&mut s, encoded_payload);
    push_str(&mut s, "\x1b\\");
    s
}


/// The character for a six-bit value in the standard base64 alphabet:
/// `A`-`Z`, `a`-`z`, `0`-`9`, `+`, `/`.
pub open spec fn base64_digit(v: int) -> char {
    if v < 26 {
        (65 + v) as char
    } else if v < 52 {
        (71 + v) as char
    } else if v < 62 {
        (v - 4) as char
    } else if v == 62 {
        '+'
    } else {
        '/'
    }
}

/// The standard base64 encoding (RFC 4648), with `=` padding, of `data`:
/// each group of three bytes becomes four characters of six bits each; a
/// last group of one or two bytes is padded.
pub open spec fn spec_base64(data: Seq<u8>) -> Seq<char>
    decreases data.len(),
{
    if data.len() == 0 {
        Seq::empty()
    } else if data.len() == 1 {
        let a = data[0] as int;
        seq![base64_digit(a / 4), base64_digit((a % 4) * 16), '=', '=']
    } else if data.len() == 2 {
        let a = data[0] as int;
        let b = data[1] as int;
        seq![base64_digit(a / 4), base64_digit((a % 4) * 16 + b / 16), base64_digit((b % 16) * 4), '=']
    } else {
        let a = data[0] as int;
        let b = data[1] as int;
        let c = data[2] as int;
        seq![
            base64_digit(a / 4),
            base64_digit((a % 4) * 16 + b / 16),
            base64_digit((b % 16) * 4 + c / 64),
            base64_digit(c % 64),
        ] + spec_base64(data.skip(3))
    }
}

/// Calls `base64::Engine::encode` with the `STANDARD` engine. The contract
/// claims that the result is `spec_base64` of the bytes and, as
/// the crate's `encoded_len` with padding computes it, four characters for
/// every three bytes or part thereof; `requires` keeps that length within
/// `usize`, where the crate would panic.
#[verifier::external_body]
pub(crate) fn base64_encode(data: &[u8]) -> (r: String)
    requires
        4 * ((data@.len() + 2) / 3) <= usize::MAX,
    ensures
        r@ == spec_base64(data@),
        r@.len() == 4 * ((data@.len() + 2) / 3),
{
    base64::Engine::encode(&base64::engine::general_purpose::STANDARD, data)
}

/// The medium for a configured mode: `auto` and `shared_memory` use shared
/// memory where it is available and send directly otherwise; the others
/// are used as configured.
pub open spec fn resolve_transport_spec(mode: TransportMode, shared_memory_available: bool) -> ResolvedTransport {
    match mode {
        TransportMode::Auto | TransportMode::SharedMemory => if shared_memory_available {
            ResolvedTransport::SharedMemory
        } else {
            ResolvedTransport::Direct
        },
        TransportMode::Direct => ResolvedTransport::Direct,
        TransportMode::File => ResolvedTransport::File,
        TransportMode::TempFile => ResolvedTransport::TempFile,
    }
}

/// See `resolve_transport_spec`.
pub fn resolve_transport_mode(mode: TransportMode, shared_memory_available: bool) -> (r: ResolvedTransport)
    ensures
        r == resolve_transport_spec(mode, shared_memory_available),
{
    match mode {
        TransportMode::Auto | TransportMode::SharedMemory => if shared_memory_available {
            ResolvedTransport::SharedMemory
        } else {
            ResolvedTransport::Direct
        },
        TransportMode::Direct => ResolvedTransport::Direct,
        TransportMode::File => ResolvedTransport::File,
        TransportMode::TempFile => ResolvedTransport::TempFile,
    }
}

/// `needle` occurs in `hay`.
pub open spec fn has_substring(hay: Seq<char>, needle: Seq<char>) -> bool {
    exists|i: int| 0 <= i && i + needle.len() <= hay.len() && #[trigger] hay.subrange(i, i + needle.len()) == needle
}

/// Whether `needle` occurs in `hay`.
pub fn contains_chars(hay: &Vec<char>, needle: &Vec<char>) -> (r: bool)
    ensures
        r == has_substring(hay@, needle@),
{
    let n = needle.len();
    if n > hay.len() {
        return false;
    }
    if n == 0 {
        assert(hay@.subrange(0, 0int + needle@.len()) =~= needle@);
        return true;
    }
    let len = hay.len();
    let mut i: usize = 0;
    let last = hay.len() - n;
    while i <= last
        invariant
            last == hay@.len() - n,
            last < usize::MAX,
            len == hay@.len(),
            n >= 1,
            n == needle@.len(),
            n <= hay@.len(),
            i <= hay@.len() - n + 1,
            forall|j: int| 0 <= j < i ==> #[trigger] hay@.subrange(j, j + n) != needle@,
        decreases hay@.len() - i,
    {
        let mut k: usize = 0;
        let mut same = true;
        while k < n
            invariant
                n == needle@.len(),
                i <= last,
                last == hay@.len() - n,
                last + n <= usize::MAX,
                k <= n,
                same == (forall|m: int| 0 <= m < k ==> hay@[i + m] == needle@[m]),
            decreases n - k,
        {
            if hay[i + k] != needle[k] {
                same = false;
            }
            k = k + 1;
        }
        if same {
            assert(hay@.subrange(i as int, i + needle@.len()) =~= needle@);
            return true;
        }
        assert(hay@.subrange(i as int, i + n) != needle@) by {
            let m = choose|m: int| 0 <= m < n && hay@[i + m] != needle@[m];
            assert(hay@.subrange(i as int, i + n)[m] == hay@[i + m]);
        }
        i = i + 1;
    }
    assert forall|j: int| 0 <= j && j + needle@.len() <= hay@.len() implies #[trigger] hay@.subrange(j, j + needle@.len()) != needle@ by {
        assert(j < i);
    }
    false
}

/// Whether the terminal is one known to take images through shared
/// memory: `TERM_PROGRAM` names WezTerm or kitty, or `TERM` names WezTerm
/// or `xterm-kitty` (case aside).
pub fn is_shared_memory_terminal(term_program: &str, term: &str) -> (r: bool)
    ensures
        r == (has_substring(crate::text::lower_seq(term_program@), "wezterm"@)
            || has_substring(crate::text::lower_seq(term_program@), "kitty"@)
            || has_substring(crate::text::lower_seq(term@), "wezterm"@)
            || has_substring(crate::text::lower_seq(term@), "xterm-kitty"@)),
{
    let tp = to_lower_chars(str_chars(term_program).as_slice());
    let t = to_lower_chars(str_chars(term).as_slice());
    let wezterm = str_chars("wezterm");
    let kitty = str_chars("kitty");
    let xterm_kitty = str_chars("xterm-kitty");
    contains_chars(&tp, &wezterm) || contains_chars(&tp, &kitty) || contains_chars(&t, &wezterm) || contains_chars(
        &t,
        &xterm_kitty,
    )
}

/// Whether shared memory can carry images: a POSIX system, not over SSH,
/// in a terminal known to take it.
pub fn can_enable_shared_memory(posix: bool, ssh_session: bool, shared_memory_terminal: bool) -> (r: bool)
    ensures
        r == (posix && !ssh_session && shared_memory_terminal),
{
    posix && !ssh_session && shared_memory_terminal
}

/// Whether the session runs over SSH, given which of `SSH_CONNECTION`,
/// `SSH_CLIENT` and `SSH_TTY` are set.
pub fn is_ssh_session(ssh_connection: bool, ssh_client: bool, ssh_tty: bool) -> (r: bool)
    ensures
        r == (ssh_connection || ssh_client || ssh_tty),
{
    ssh_connection || ssh_client || ssh_tty
}

/// The payload that sends `encoded_payload`, the base64 of an encoded
/// image of `data_size` bytes, directly.
pub open spec fn direct_payload(p: UploadPayload, encoded_payload: Seq<char>, data_size: usize) -> bool {
    &&& p.transport == ResolvedTransport::Direct
    &&& p.payload@ == encoded_payload
    &&& p.data_size == data_size
    &&& p.pixel_format == UploadPixelFormat::Png
    &&& p.pixel_width == 0
    &&& p.pixel_height == 0
}

/// The upload payload for `requested`: the file, temporary file or shared
/// memory object that the image data was written to (`written`, its path
/// or name) is sent as the base64 of its name; when none was written, or
/// the medium is direct, the encoded image is sent directly.
pub fn prepare_upload_payload(
    requested: ResolvedTransport,
    encoded_payload: &str,
    data_size: usize,
    written: Option<&str>,
) -> (r: UploadPayload)
    requires
        written matches Some(w) ==> 4 * ((w.spec_bytes().len() + 2) / 3) <= usize::MAX,
    ensures
        match (requested, written) {
            (ResolvedTransport::Direct, _) => direct_payload(r, encoded_payload@, data_size),
            (_, None) => direct_payload(r, encoded_payload@, data_size),
            (t, Some(w)) => r.transport == t && r.payload@ == spec_base64(w.spec_bytes()) && r.data_size == data_size
                && r.pixel_format == UploadPixelFormat::Png && r.pixel_width == 0 && r.pixel_height == 0,
        },
{
    let direct = |e: &str| -> (p: UploadPayload)
        ensures
            direct_payload(p, e@, data_size),
        {
            let mut s = String::new();
            push_str(&mut s, e);
            UploadPayload {
                transport: ResolvedTransport::Direct,
                payload: s,
                data_size,
                pixel_format: UploadPixelFormat::Png,
                pixel_width: 0,
                pixel_height: 0,
            }
        };
    match requested {
        ResolvedTransport::Direct => direct(encoded_payload),
        _ => match written {
            Some(name) => UploadPayload {
                transport: requested,
                payload: base64_encode(name.as_bytes()),
                data_size,
                pixel_format: UploadPixelFormat::Png,
                pixel_width: 0,
                pixel_height: 0,
            },
            None => direct(encoded_payload),
        },
    }
}

/// The files and shared memory object that uploads went through.
#[derive(Debug)]
pub struct SharedMemoryState {
    /// The file reused by every `file` upload, once chosen.
    pub file_path: Option<String>,
    /// The temporary file of the last `temp_file` upload.
    pub temp_file_path: Option<String>,
    /// The shared memory object of the last `shared_memory` upload.
    pub segment_name: Option<String>,
}

impl SharedMemoryState {
    /// A state with nothing written yet.
    pub fn new() -> (r: Self)
        ensures
            r.file_path is None && r.temp_file_path is None && r.segment_name is None,
    {
        SharedMemoryState { file_path: None, temp_file_path: None, segment_name: None }
    }

    /// The path to write an upload to: a temporary upload goes to the
    /// fresh path `fresh`; a file upload reuses the file chosen before, or
    /// else takes `fresh`. The choice is recorded.
    pub fn file_target(&mut self, temp_file: bool, fresh: String) -> (r: String)
        ensures
            temp_file ==> r == fresh && final(self).temp_file_path == Some(fresh)
                && final(self).file_path == old(self).file_path,
            !temp_file ==> r == (match old(self).file_path {
                Some(p) => p,
                None => fresh,
            }) && final(self).file_path == Some(r) && final(self).temp_file_path == old(self).temp_file_path,
            final(self).segment_name == old(self).segment_name,
    {
        if temp_file {
            self.temp_file_path = Some(fresh.clone());
            fresh
        } else {
            let path = match &self.file_path {
                Some(p) => p.clone(),
                None => fresh,
            };
            self.file_path = Some(path.clone());
            path
        }
    }

    /// Records the shared memory object of the last upload.
    pub fn record_segment(&mut self, name: String)
        ensures
            final(self).segment_name == Some(name),
            final(self).file_path == old(self).file_path,
            final(self).temp_file_path == old(self).temp_file_path,
    {
        self.segment_name = Some(name);
    }
}

} // verus!
