//! Sorting the image list by name, modification time or size, ascending
//! or descending, with ties broken by natural name order. The sort is
//! stable: entries that compare equal keep their relative order.
use vstd::prelude::*;
use crate::natural::{
    natural_order, lemma_natural_order_antisymmetric,
    lemma_natural_order_transitive, natural_order_chars,
};
use crate::paths::{name_of, file_name_chars};

verus! {

/// The key by which the image list is sorted.
#[derive(Debug, Clone, Copy, PartialEq, Eq, Structural)]
pub enum SortField {
    Natural,
    ModifiedTime,
    Size,
}

/// An image file with the metadata that sorting reads: its path, its
/// modification time in milliseconds since the Unix epoch and its size in
/// bytes (both 0 when the file system could not report them).
#[derive(Debug)]
pub struct ImageFile {
    pub path: String,
    pub modified_ms: u128,
    pub size: u64,
}

impl Clone for ImageFile {
    fn clone(&self) -> (r: Self)
        ensures
            r == *self,
    {
        ImageFile { path: self.path.clone(), modified_ms: self.modified_ms, size: self.size }
    }
}

/// Three-way comparison of two integers.
pub open spec fn three_way(x: int, y: int) -> int {
    if x < y {
        -1
    } else if x == y {
        0
    } else {
        1
    }
}

/// The comparison that the list is sorted by: the field's key, ties broken
/// by natural name order, and the whole reversed when descending.
pub open spec fn entry_order(field: SortField, descending: bool, x: ImageFile, y: ImageFile) -> int {
    let by_name = natural_order(name_of(x.path@), name_of(y.path@));
    let primary = match field {
        SortField::Natural => by_name,
        SortField::ModifiedTime => three_way(x.modified_ms as int, y.modified_ms as int),
        SortField::Size => three_way(x.size as int, y.size as int),
    };
    let o = if primary != 0 {
        primary
    } else {
        by_name
    };
    if descending {
        -o
    } else {
        o
    }
}

/// `p` is a permutation of `0..n`.
pub open spec fn is_permutation(p: Seq<int>, n: nat) -> bool {
    &&& p.len() == n
    &&& forall|k: int| 0 <= k < n ==> 0 <= #[trigger] p[k] < n
    &&& forall|k: int, l: int| 0 <= k < l < n ==> #[trigger] p[k] != #[trigger] p[l]
}

/// `new` is `before` stably sorted: a rearrangement of it, in order, with
/// entries that compare equal in the order they came in.
pub open spec fn stably_sorted(
    before: Seq<ImageFile>,
    new: Seq<ImageFile>,
    field: SortField,
    descending: bool,
) -> bool {
    exists|p: Seq<int>|
        #![trigger is_permutation(p, before.len())]
        is_permutation(p, before.len()) && new.len() == before.len() && (forall|k: int|
            0 <= k < new.len() ==> new[k] == before[#[trigger] p[k]]) && (forall|k: int, l: int|
            0 <= k < l < new.len() ==> entry_order(field, descending, #[trigger] new[k], #[trigger] new[l]) < 0
                || (entry_order(field, descending, new[k], new[l]) == 0 && p[k] < p[l]))
}

/// Swapping two entries negates their comparison.
pub proof fn lemma_entry_order_antisymmetric(
    field: SortField,
    descending: bool,
    x: ImageFile,
    y: ImageFile,
)
    ensures
        entry_order(field, descending, x, y) == -entry_order(field, descending, y, x),
{
    lemma_natural_order_antisymmetric(name_of(x.path@), name_of(y.path@));
}

/// The sort order is transitive, and strict when either step is strict.
pub proof fn lemma_entry_order_transitive(
    field: SortField,
    descending: bool,
    x: ImageFile,
    y: ImageFile,
    z: ImageFile,
)
    requires
        entry_order(field, descending, x, y) <= 0,
        entry_order(field, descending, y, z) <= 0,
    ensures
        entry_order(field, descending, x, z) <= 0,
        (entry_order(field, descending, x, y) < 0 || entry_order(field, descending, y, z) < 0)
            ==> entry_order(field, descending, x, z) < 0,
{
    let nx = name_of(x.path@);
    let ny = name_of(y.path@);
    let nz = name_of(z.path@);
    lemma_natural_order_antisymmetric(nx, ny);
    lemma_natural_order_antisymmetric(ny, nz);
    lemma_natural_order_antisymmetric(nx, nz);
    if descending {
        // z <= y <= x in the ascending order
        if natural_order(nz, ny) <= 0 && natural_order(ny, nx) <= 0 {
            lemma_natural_order_transitive(nz, ny, nx);
        }
    } else {
        if natural_order(nx, ny) <= 0 && natural_order(ny, nz) <= 0 {
            lemma_natural_order_transitive(nx, ny, nz);
        }
    }
}

/// Executable comparison of two entries, as `-1`, `0` or `1`.
pub fn compare_entries(field: SortField, descending: bool, x: &ImageFile, y: &ImageFile) -> (r: i8)
    ensures
        r as int == entry_order(field, descending, *x, *y),
{
    let xn = file_name_chars(x.path.as_str());
    let yn = file_name_chars(y.path.as_str());
    let by_name = natural_order_chars(&xn, &yn);
    let primary: i8 = match field {
        SortField::Natural => by_name,
        SortField::ModifiedTime => if x.modified_ms < y.modified_ms {
            -1
        } else if x.modified_ms == y.modified_ms {
            0
        } else {
            1
        },
        SortField::Size => if x.size < y.size {
            -1
        } else if x.size == y.size {
            0
        } else {
            1
        },
    };
    let o: i8 = if primary != 0 {
        primary
    } else {
        by_name
    };
    if descending {
        -o
    } else {
        o
    }
}

/// Sorts the image list in place by `sort_field`, reversed when
/// `descending`, breaking ties by natural name order; the sort is stable.
pub fn sort_image_files(image_files: &mut Vec<ImageFile>, sort_field: SortField, descending: bool)
    ensures
        stably_sorted(old(image_files)@, final(image_files)@, sort_field, descending),
{
    let ghost orig = image_files@;
    let mut src: Vec<ImageFile> = Vec::new();
    std::mem::swap(image_files, &mut src);
    assert(src@ == orig);
    let mut out: Vec<ImageFile> = Vec::new();
    let ghost mut perm: Seq<int> = Seq::empty();
    let n = src.len();
    let mut i: usize = 0;
    while i < n
        invariant
            0 <= i <= n,
            n == orig.len(),
            src@ == orig.skip(i as int),
            out.len() == i,
            perm.len() == i,
            forall|k: int| 0 <= k < i ==> 0 <= #[trigger] perm[k] < i,
            forall|k: int, l: int| 0 <= k < l < i ==> #[trigger] perm[k] != #[trigger] perm[l],
            forall|k: int| 0 <= k < i ==> out@[k] == orig[#[trigger] perm[k]],
            forall|k: int, l: int|
                0 <= k < l < i ==> entry_order(sort_field, descending, #[trigger] out@[k], #[trigger] out@[l]) < 0
                    || (entry_order(sort_field, descending, out@[k], out@[l]) == 0 && perm[k] < perm[l]),
        decreases n - i,
    {
        let x = src.remove(0);
        assert(x == orig[i as int]);
        assert(src@ == orig.skip(i + 1));
        let mut pos: usize = out.len();
        while pos > 0 && compare_entries(sort_field, descending, &out[pos - 1], &x) > 0
            invariant
                pos <= out.len(),
                out.len() == i,
                forall|m: int| pos <= m < out.len() ==> entry_order(sort_field, descending, #[trigger] out@[m], x) > 0,
            decreases pos,
        {
            pos = pos - 1;
        }
        proof {
            // every entry before `pos` is at most `x`
            if pos > 0 {
                assert forall|k: int| 0 <= k < pos implies entry_order(sort_field, descending, #[trigger] out@[k], x) <= 0 by {
                    if k < pos - 1 {
                        lemma_entry_order_transitive(sort_field, descending, out@[k], out@[pos - 1], x);
                    }
                }
            }
        }
        let ghost old_out = out@;
        let ghost old_perm = perm;
        out.insert(pos, x);
        proof {
            perm = old_perm.insert(pos as int, i as int);
            assert forall|k: int| 0 <= k < i + 1 implies 0 <= #[trigger] perm[k] < i + 1 by {
                if k < pos {
                    assert(perm[k] == old_perm[k]);
                } else if k > pos {
                    assert(perm[k] == old_perm[k - 1]);
                }
            }
            assert forall|k: int, l: int| 0 <= k < l < i + 1 implies #[trigger] perm[k] != #[trigger] perm[l] by {
                if k < pos {
                    assert(perm[k] == old_perm[k]);
                } else if k > pos {
                    assert(perm[k] == old_perm[k - 1]);
                }
                if l < pos {
                    assert(perm[l] == old_perm[l]);
                } else if l > pos {
                    assert(perm[l] == old_perm[l - 1]);
                }
            }
            assert forall|k: int| 0 <= k < i + 1 implies out@[k] == orig[#[trigger] perm[k]] by {
                if k < pos {
                    assert(perm[k] == old_perm[k]);
                    assert(out@[k] == old_out[k]);
                } else if k > pos {
                    assert(perm[k] == old_perm[k - 1]);
                    assert(out@[k] == old_out[k - 1]);
                }
            }
            assert forall|k: int, l: int|
                0 <= k < l < i + 1 implies entry_order(sort_field, descending, #[trigger] out@[k], #[trigger] out@[l]) < 0
                    || (entry_order(sort_field, descending, out@[k], out@[l]) == 0 && perm[k] < perm[l]) by {
                let ok = if k < pos { k } else { k - 1 };
                let ol = if l < pos { l } else { l - 1 };
                if k < pos {
                    assert(perm[k] == old_perm[k]);
                    assert(out@[k] == old_out[k]);
                } else if k > pos {
                    assert(perm[k] == old_perm[k - 1]);
                    assert(out@[k] == old_out[k - 1]);
                }
                if l < pos {
                    assert(perm[l] == old_perm[l]);
                    assert(out@[l] == old_out[l]);
                } else if l > pos {
                    assert(perm[l] == old_perm[l - 1]);
                    assert(out@[l] == old_out[l - 1]);
                }
                if l == pos {
                    assert(out@[l] == x);
                    assert(old_perm[k] < i);
                } else if k == pos {
                    assert(out@[k] == x);
                    assert(entry_order(sort_field, descending, old_out[ol], x) > 0);
                    lemma_entry_order_antisymmetric(sort_field, descending, x, old_out[ol]);
                } else {
                    assert(old_perm[ok] == perm[k]);
                    assert(old_perm[ol] == perm[l]);
                }
            }
        }
        i = i + 1;
    }
    assert(src@.len() == 0);
    assert(is_permutation(perm, orig.len()));
    *image_files = out;
}

/// Index of the first entry whose path is `path`, if any.
pub fn position_of_path(image_files: &Vec<ImageFile>, path: &String) -> (r: Option<usize>)
    ensures
        match r {
            Some(k) => k < image_files.len() && image_files@[k as int].path@ == path@ && forall|m: int|
                0 <= m < k ==> #[trigger] image_files@[m].path@ != path@,
            None => forall|m: int| 0 <= m < image_files.len() ==> #[trigger] image_files@[m].path@ != path@,
        },
{
    let mut k: usize = 0;
    while k < image_files.len()
        invariant
            k <= image_files.len(),
            forall|m: int| 0 <= m < k ==> #[trigger] image_files@[m].path@ != path@,
        decreases image_files.len() - k,
    {
        if image_files[k].path == *path {
            return Some(k);
        }
        k = k + 1;
    }
    None
}

} // verus!
