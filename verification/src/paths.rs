//! Image paths: the file-name and extension rules that decide which files
//! the viewer lists, and the natural comparison of two paths by name.
//!
//! Paths are carried as `String`s; the final component of a path is what
//! `std::path::Path::file_name` returns for it.
use vstd::prelude::*;
use crate::text::{lower_seq, trim_seq, str_chars, trim_chars, to_lower_chars};
use crate::natural::{natural_order, natural_order_chars, ordering_of};
use std::cmp::Ordering;

verus! {

/// The final component of a path, as `std::path::Path::file_name` gives it
/// (`None` when the path ends in `..` or has no component).
pub uninterp spec fn spec_file_name(path: Seq<char>) -> Option<Seq<char>>;

/// Calls `std::path::Path::file_name` on `path`. The contract claims only
/// that the result is the named `spec_file_name` of the path's characters;
/// what that name is on given paths is left to the standard library.
#[verifier::external_body]
pub fn path_file_name(path: &str) -> (r: Option<String>)
    ensures
        match r {
            Some(n) => spec_file_name(path@) == Some(n@),
            None => spec_file_name(path@) is None,
        },
{
    std::path::Path::new(path).file_name().and_then(|n| n.to_str()).map(|n| n.to_string())
}

/// The parent of a path, as `std::path::Path::parent` gives it (`None` for
/// a root or an empty path).
pub uninterp spec fn spec_parent(path: Seq<char>) -> Option<Seq<char>>;

/// Calls `std::path::Path::parent` on `path`. The contract claims only that
/// the result is the named `spec_parent` of the path's characters.
#[verifier::external_body]
pub fn path_parent(path: &str) -> (r: Option<String>)
    ensures
        match r {
            Some(p) => spec_parent(path@) == Some(p@),
            None => spec_parent(path@) is None,
        },
{
    std::path::Path::new(path).parent().and_then(|p| p.to_str()).map(|p| p.to_string())
}

/// The path `base` joined with `rest`, as `std::path::Path::join` gives it.
pub uninterp spec fn spec_path_join(base: Seq<char>, rest: Seq<char>) -> Seq<char>;

/// Calls `std::path::Path::join`. The contract claims only that the result
/// is the named `spec_path_join` of the two texts (two UTF-8 texts join to
/// UTF-8, so the conversion back loses nothing).
#[verifier::external_body]
pub(crate) fn path_join(base: &str, rest: &str) -> (r: String)
    ensures
        r@ == spec_path_join(base@, rest@),
{
    std::path::Path::new(base).join(rest).to_string_lossy().into_owned()
}

/// The file name of a path, or the empty text when it has none.
pub open spec fn name_of(path: Seq<char>) -> Seq<char> {
    match spec_file_name(path) {
        Some(n) => n,
        None => Seq::empty(),
    }
}

/// Index of the last `'.'` in `s`, or `-1` when there is none.
pub open spec fn last_dot(s: Seq<char>) -> int
    decreases s.len(),
{
    if s.len() == 0 {
        -1
    } else if s.last() == '.' {
        s.len() - 1
    } else {
        last_dot(s.drop_last())
    }
}

/// The extension of a file name, following the rule that
/// `Path::extension` documents: none without an embedded `.`, none when the
/// only `.` is the first character, else everything after the last `.`.
pub open spec fn extension_of_name(name: Seq<char>) -> Option<Seq<char>> {
    let d = last_dot(name);
    if d <= 0 {
        None
    } else {
        Some(name.skip(d + 1))
    }
}

/// The extension of a path.
pub open spec fn extension_of(path: Seq<char>) -> Option<Seq<char>> {
    match spec_file_name(path) {
        Some(n) => extension_of_name(n),
        None => None,
    }
}

/// Number of leading `'.'` characters (`trim_start_matches('.')`).
pub open spec fn leading_dots(s: Seq<char>) -> nat
    decreases s.len(),
{
    if s.len() > 0 && s[0] == '.' {
        1 + leading_dots(s.drop_first())
    } else {
        0
    }
}

/// A configured extension as the matcher reads it: trimmed, without
/// leading dots, lower-cased.
pub open spec fn normalized_extension(allowed: Seq<char>) -> Seq<char> {
    let t = trim_seq(allowed);
    lower_seq(t.skip(leading_dots(t) as int))
}

/// Whether one configured extension accepts the extension `ext`.
pub open spec fn extension_matches(ext: Seq<char>, allowed: Seq<char>) -> bool {
    normalized_extension(allowed).len() > 0 && lower_seq(ext) == normalized_extension(allowed)
}

/// Whether a path names an image file for the configured extensions.
pub open spec fn is_image_path_spec(path: Seq<char>, extensions: Seq<Seq<char>>) -> bool {
    match extension_of(path) {
        Some(ext) => exists|i: int| 0 <= i < extensions.len() && extension_matches(ext, #[trigger] extensions[i]),
        None => false,
    }
}

proof fn lemma_last_dot(s: Seq<char>)
    ensures
        -1 <= last_dot(s) < s.len(),
        last_dot(s) >= 0 ==> s[last_dot(s)] == '.',
        forall|k: int| last_dot(s) < k < s.len() ==> #[trigger] s[k] != '.',
    decreases s.len(),
{
    if s.len() > 0 && s.last() != '.' {
        lemma_last_dot(s.drop_last());
        assert forall|k: int| last_dot(s) < k < s.len() implies #[trigger] s[k] != '.' by {
            if k < s.len() - 1 {
                assert(s[k] == s.drop_last()[k]);
            }
        }
    }
}

proof fn lemma_last_dot_at(s: Seq<char>, d: int)
    requires
        -1 <= d < s.len(),
        d >= 0 ==> s[d] == '.',
        forall|k: int| d < k < s.len() ==> #[trigger] s[k] != '.',
    ensures
        last_dot(s) == d,
    decreases s.len(),
{
    if s.len() > 0 && d < s.len() - 1 {
        let t = s.drop_last();
        assert forall|k: int| d < k < t.len() implies #[trigger] t[k] != '.' by {
            assert(t[k] == s[k]);
        }
        if d >= 0 {
            assert(t[d] == s[d]);
        }
        lemma_last_dot_at(t, d);
    }
}

proof fn lemma_leading_dots_at(s: Seq<char>, i: int)
    requires
        0 <= i <= s.len(),
        forall|k: int| 0 <= k < i ==> #[trigger] s[k] == '.',
        i == s.len() || s[i] != '.',
    ensures
        leading_dots(s) == i,
    decreases i,
{
    if i > 0 {
        let d = s.drop_first();
        assert forall|k: int| 0 <= k < i - 1 implies #[trigger] d[k] == '.' by {
            assert(d[k] == s[k + 1]);
        }
        if i - 1 < d.len() {
            assert(d[i - 1] == s[i]);
        }
        lemma_leading_dots_at(d, i - 1);
    }
}

/// The extension of a file name given as characters.
fn extension_chars(name: &Vec<char>) -> (r: Option<Vec<char>>)
    ensures
        match r {
            Some(e) => extension_of_name(name@) == Some(e@),
            None => extension_of_name(name@) is None,
        },
{
    let mut k: usize = name.len();
    while k > 0 && name[k - 1] != '.'
        invariant
            k <= name.len(),
            forall|m: int| k <= m < name.len() ==> #[trigger] name@[m] != '.',
        decreases k,
    {
        k = k - 1;
    }
    proof {
        lemma_last_dot_at(name@, k - 1);
    }
    if k <= 1 {
        return None;
    }
    let mut out: Vec<char> = Vec::new();
    let mut i: usize = k;
    while i < name.len()
        invariant
            k <= i <= name.len(),
            out@ == name@.subrange(k as int, i as int),
        decreases name.len() - i,
    {
        out.push(name[i]);
        assert(name@.subrange(k as int, i + 1) == name@.subrange(k as int, i as int).push(name@[i as int]));
        i = i + 1;
    }
    assert(out@ == name@.skip(k as int));
    Some(out)
}

/// A configured extension, normalised for matching.
fn normalize_extension(allowed: &str) -> (r: Vec<char>)
    ensures
        r@ == normalized_extension(allowed@),
{
    let chars = str_chars(allowed);
    let t = trim_chars(chars.as_slice());
    let mut i: usize = 0;
    while i < t.len() && t[i] == '.'
        invariant
            i <= t.len(),
            forall|k: int| 0 <= k < i ==> #[trigger] t@[k] == '.',
        decreases t.len() - i,
    {
        i = i + 1;
    }
    proof {
        lemma_leading_dots_at(t@, i as int);
    }
    let mut rest: Vec<char> = Vec::new();
    let mut j: usize = i;
    while j < t.len()
        invariant
            i <= j <= t.len(),
            rest@ == t@.subrange(i as int, j as int),
        decreases t.len() - j,
    {
        rest.push(t[j]);
        assert(t@.subrange(i as int, j + 1) == t@.subrange(i as int, j as int).push(t@[j as int]));
        j = j + 1;
    }
    assert(rest@ == t@.skip(i as int));
    to_lower_chars(rest.as_slice())
}

/// Element-wise equality of two character vectors.
pub fn chars_equal(a: &[char], b: &[char]) -> (r: bool)
    ensures
        r == (a@ == b@),
{
    if a.len() != b.len() {
        return false;
    }
    let mut i: usize = 0;
    while i < a.len()
        invariant
            a.len() == b.len(),
            0 <= i <= a.len(),
            forall|k: int| 0 <= k < i ==> a@[k] == b@[k],
        decreases a.len() - i,
    {
        if a[i] != b[i] {
            return false;
        }
        i = i + 1;
    }
    assert(a@ == b@);
    true
}

/// Whether `path` names an image file: its extension, lower-cased, equals
/// one of the configured extensions after trimming, dropping leading dots
/// and lower-casing; empty configured extensions match nothing.
pub fn is_image_path(path: &str, extensions: &[String]) -> (r: bool)
    ensures
        r == is_image_path_spec(path@, extensions@.map_values(|e: String| e@)),
{
    let ghost exts = extensions@.map_values(|e: String| e@);
    let name = match path_file_name(path) {
        Some(n) => n,
        None => {
            return false;
        },
    };
    let name_chars = str_chars(name.as_str());
    let ext = match extension_chars(&name_chars) {
        Some(e) => e,
        None => {
            return false;
        },
    };
    let ext_lower = to_lower_chars(ext.as_slice());
    let mut i: usize = 0;
    while i < extensions.len()
        invariant
            0 <= i <= extensions.len(),
            exts == extensions@.map_values(|e: String| e@),
            extension_of(path@) == Some(ext@),
            ext_lower@ == lower_seq(ext@),
            forall|k: int| 0 <= k < i ==> !extension_matches(ext@, #[trigger] exts[k]),
        decreases extensions.len() - i,
    {
        let allowed = normalize_extension(extensions[i].as_str());
        assert(exts[i as int] == extensions@[i as int]@);
        if allowed.len() > 0 && chars_equal(ext_lower.as_slice(), allowed.as_slice()) {
            assert(extension_matches(ext@, exts[i as int]));
            return true;
        }
        i = i + 1;
    }
    false
}

/// The file name of a path as characters (empty when it has none).
pub fn file_name_chars(path: &str) -> (r: Vec<char>)
    ensures
        r@ == name_of(path@),
{
    match path_file_name(path) {
        Some(n) => str_chars(n.as_str()),
        None => Vec::new(),
    }
}

/// The extension of a path, as `std::path::Path::extension` gives it.
pub fn path_extension(path: &str) -> (r: Option<Vec<char>>)
    ensures
        match r {
            Some(e) => extension_of(path@) == Some(e@),
            None => extension_of(path@) is None,
        },
{
    match path_file_name(path) {
        Some(n) => {
            let chars = str_chars(n.as_str());
            extension_chars(&chars)
        },
        None => None,
    }
}

/// Compares two paths in natural order of their file names.
pub fn natural_compare_paths_by_name(a: &str, b: &str) -> (r: Ordering)
    ensures
        r == ordering_of(natural_order(name_of(a@), name_of(b@))),
{
    let an = file_name_chars(a);
    let bn = file_name_chars(b);
    let c = natural_order_chars(&an, &bn);
    if c < 0 {
        Ordering::Less
    } else if c == 0 {
        Ordering::Equal
    } else {
        Ordering::Greater
    }
}

} // verus!
