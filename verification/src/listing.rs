//! Directory listings and the sidebar nodes built from them: directories
//! first, then image files, each group in natural order of file names,
//! numbered in preorder.
use vstd::prelude::*;
use crate::natural::{
    natural_order, natural_order_chars, lemma_natural_order_antisymmetric,
    lemma_natural_order_transitive,
};
use crate::paths::{name_of, file_name_chars, is_image_path, is_image_path_spec};
use crate::sorting::is_permutation;
use crate::filetree::TreeNode;
use crate::paths::{spec_file_name, path_file_name};
use crate::text::push_str;

verus! {

/// One entry of a directory listing, as read from the file system.
#[derive(Debug)]
pub struct DirEntry {
    pub path: String,
    /// The path names a directory (links followed).
    pub is_dir: bool,
    /// The path names a regular file (links followed).
    pub is_file: bool,
    /// For a directory, its own entries (empty when it could not be read).
    pub entries: Vec<DirEntry>,
}

/// Natural order of two paths by file name, as -1, 0 or 1.
pub open spec fn name_order(a: Seq<char>, b: Seq<char>) -> int {
    natural_order(name_of(a), name_of(b))
}

/// `new` holds the indices of `before` stably sorted by the natural order of
/// the file names of the entries they point to.
pub open spec fn sorted_by_name(entries: Seq<DirEntry>, before: Seq<usize>, new: Seq<usize>) -> bool {
    exists|p: Seq<int>|
        #![trigger is_permutation(p, before.len())]
        is_permutation(p, before.len()) && new.len() == before.len() && (forall|k: int|
            0 <= k < new.len() ==> new[k] == before[#[trigger] p[k]]) && (forall|k: int, l: int|
            0 <= k < l < new.len() ==> name_order(
                entries[#[trigger] new[k] as int].path@,
                entries[#[trigger] new[l] as int].path@,
            ) < 0 || (name_order(entries[new[k] as int].path@, entries[new[l] as int].path@) == 0
                && p[k] < p[l]))
}

/// Where insertion sort puts entry `x` into the sorted list `s`: after the
/// last entry whose name does not come after its own.
pub open spec fn insert_pos(entries: Seq<DirEntry>, s: Seq<usize>, x: usize) -> int
    decreases s.len(),
{
    if s.len() == 0 {
        0
    } else if name_order(entries[s.last() as int].path@, entries[x as int].path@) > 0 {
        insert_pos(entries, s.drop_last(), x)
    } else {
        s.len() as int
    }
}

/// The indices `idx` sorted by insertion, in natural order of the names
/// of the entries they point to (equal names keep their order).
pub open spec fn isort(entries: Seq<DirEntry>, idx: Seq<usize>) -> Seq<usize>
    decreases idx.len(),
{
    if idx.len() == 0 {
        Seq::empty()
    } else {
        let s = isort(entries, idx.drop_last());
        s.insert(insert_pos(entries, s, idx.last()), idx.last())
    }
}

proof fn lemma_insert_pos_bound(entries: Seq<DirEntry>, s: Seq<usize>, x: usize)
    ensures
        0 <= insert_pos(entries, s, x) <= s.len(),
    decreases s.len(),
{
    if s.len() > 0 && name_order(entries[s.last() as int].path@, entries[x as int].path@) > 0 {
        lemma_insert_pos_bound(entries, s.drop_last(), x);
    }
}

/// Whether the file name of `a` comes after that of `b` in natural order.
fn name_after(a: &str, b: &str) -> (r: bool)
    ensures
        r == (name_order(a@, b@) > 0),
{
    let an = file_name_chars(a);
    let bn = file_name_chars(b);
    natural_order_chars(&an, &bn) > 0
}

/// Sorts entry indices stably by the natural order of the entries' file
/// names.
#[verifier::rlimit(40)]
fn sort_indices_by_name(entries: &Vec<DirEntry>, idx: Vec<usize>) -> (r: Vec<usize>)
    requires
        forall|k: int| 0 <= k < idx@.len() ==> #[trigger] idx@[k] < entries@.len(),
    ensures
        sorted_by_name(entries@, idx@, r@),
        r@ == isort(entries@, idx@),
        forall|k: int| 0 <= k < r@.len() ==> #[trigger] r@[k] < entries@.len(),
{
    let ghost orig = idx@;
    let ghost es = entries@;
    let mut out: Vec<usize> = Vec::new();
    let ghost mut perm: Seq<int> = Seq::empty();
    let n = idx.len();
    let mut i: usize = 0;
    while i < n
        invariant
            0 <= i <= n,
            n == orig.len(),
            es == entries@,
            forall|k: int| 0 <= k < orig.len() ==> #[trigger] orig[k] < es.len(),
            idx@ == orig,
            out@.len() == i,
            out@ == isort(es, orig.take(i as int)),
            forall|k: int| 0 <= k < i ==> #[trigger] out@[k] < es.len(),
            perm.len() == i,
            forall|k: int| 0 <= k < i ==> 0 <= #[trigger] perm[k] < i,
            forall|k: int, l: int| 0 <= k < l < i ==> #[trigger] perm[k] != #[trigger] perm[l],
            forall|k: int| 0 <= k < i ==> out@[k] == orig[#[trigger] perm[k]],
            forall|k: int, l: int|
                0 <= k < l < i ==> name_order(es[#[trigger] out@[k] as int].path@, es[#[trigger] out@[l] as int].path@) < 0
                    || (name_order(es[out@[k] as int].path@, es[out@[l] as int].path@) == 0 && perm[k] < perm[l]),
        decreases n - i,
    {
        let x = idx[i];
        let mut pos: usize = out.len();
        assert(out@.take(out@.len() as int) == out@);
        while pos > 0 && name_after(entries[out[pos - 1]].path.as_str(), entries[x].path.as_str())
            invariant
                pos <= out@.len(),
                out@.len() == i,
                es == entries@,
                x < es.len(),
                forall|k: int| 0 <= k < i ==> #[trigger] out@[k] < es.len(),
                forall|k: int| 0 <= k < i ==> out@[k] == orig[#[trigger] perm[k]],
                forall|k: int| 0 <= k < i ==> 0 <= #[trigger] perm[k] < i,
                forall|k: int| 0 <= k < orig.len() ==> #[trigger] orig[k] < es.len(),
                forall|m: int| pos <= m < out@.len() ==> name_order(es[#[trigger] out@[m] as int].path@, es[x as int].path@) > 0,
                insert_pos(es, out@, x) == insert_pos(es, out@.take(pos as int), x),
            decreases pos,
        {
            proof {
                let m = pos - 1;
                assert(out@[m] == orig[perm[m]]);
                assert(out@.take(pos as int).drop_last() == out@.take(m));
                assert(out@.take(pos as int).last() == out@[m]);
            }
            pos = pos - 1;
        }
        proof {
            if pos > 0 {
                assert(out@.take(pos as int).last() == out@[pos - 1]);
            }
            assert(insert_pos(es, out@, x) == pos);
            assert(orig.take(i + 1).drop_last() == orig.take(i as int));
            assert(orig.take(i + 1).last() == x);
        }
        proof {
            if pos > 0 {
                assert(out@[pos - 1] == orig[perm[pos - 1]]);
                assert forall|k: int| 0 <= k < pos implies name_order(es[#[trigger] out@[k] as int].path@, es[x as int].path@) <= 0 by {
                    assert(out@[k] == orig[perm[k]]);
                    if k < pos - 1 {
                        let a = name_of(es[out@[k] as int].path@);
                        let b = name_of(es[out@[pos - 1] as int].path@);
                        let c = name_of(es[x as int].path@);
                        lemma_natural_order_transitive(a, b, c);
                    }
                }
            }
        }
        let ghost old_out = out@;
        let ghost old_perm = perm;
        out.insert(pos, x);
        proof {
            assert(out@ == isort(es, orig.take(i + 1)));
            perm = old_perm.insert(pos as int, i as int);
            assert forall|k: int| 0 <= k < i + 1 implies 0 <= #[trigger] perm[k] < i + 1 by {
                if k < pos {
                    assert(perm[k] == old_perm[k]);
                } else if k > pos {
                    assert(perm[k] == old_perm[k - 1]);
                }
            }
            assert forall|k: int, l: int| 0 <= k < l < i + 1 implies #[trigger] perm[k] != #[trigger] perm[l] by {
                if k < pos {
                    assert(perm[k] == old_perm[k]);
                } else if k > pos {
                    assert(perm[k] == old_perm[k - 1]);
                }
                if l < pos {
                    assert(perm[l] == old_perm[l]);
                } else if l > pos {
                    assert(perm[l] == old_perm[l - 1]);
                }
            }
            assert forall|k: int| 0 <= k < i + 1 implies out@[k] == orig[#[trigger] perm[k]] by {
                if k < pos {
                    assert(perm[k] == old_perm[k]);
                    assert(out@[k] == old_out[k]);
                } else if k > pos {
                    assert(perm[k] == old_perm[k - 1]);
                    assert(out@[k] == old_out[k - 1]);
                }
            }
            assert forall|k: int, l: int|
                0 <= k < l < i + 1 implies name_order(es[#[trigger] out@[k] as int].path@, es[#[trigger] out@[l] as int].path@) < 0
                    || (name_order(es[out@[k] as int].path@, es[out@[l] as int].path@) == 0 && perm[k] < perm[l]) by {
                let ok = if k < pos { k } else { k - 1 };
                let ol = if l < pos { l } else { l - 1 };
                if k < pos {
                    assert(perm[k] == old_perm[k]);
                    assert(out@[k] == old_out[k]);
                } else if k > pos {
                    assert(perm[k] == old_perm[k - 1]);
                    assert(out@[k] == old_out[k - 1]);
                }
                if l < pos {
                    assert(perm[l] == old_perm[l]);
                    assert(out@[l] == old_out[l]);
                } else if l > pos {
                    assert(perm[l] == old_perm[l - 1]);
                    assert(out@[l] == old_out[l - 1]);
                }
                if l == pos {
                    assert(out@[l] == x);
                    assert(old_perm[k] < i);
                } else if k == pos {
                    assert(out@[k] == x);
                    assert(name_order(es[old_out[ol] as int].path@, es[x as int].path@) > 0);
                    lemma_natural_order_antisymmetric(
                        name_of(es[x as int].path@),
                        name_of(es[old_out[ol] as int].path@),
                    );
                } else {
                    assert(old_perm[ok] == perm[k]);
                    assert(old_perm[ol] == perm[l]);
                }
            }
            assert forall|k: int| 0 <= k < i + 1 implies #[trigger] out@[k] < es.len() by {
                assert(out@[k] == orig[perm[k]]);
            }
        }
        i = i + 1;
    }
    assert(is_permutation(perm, orig.len()));
    assert(orig.take(n as int) == orig);
    proof {
        assert forall|k: int| 0 <= k < out@.len() implies #[trigger] out@[k] < entries@.len() by {
            assert(out@[k] == orig[perm[k]]);
        }
    }
    out
}


/// How deeply a listing nests: 0 for an empty one, else one more than its
/// deepest subdirectory listing.
pub open spec fn listing_height(entries: Seq<DirEntry>) -> nat
    decreases entries,
{
    if entries.len() == 0 {
        0
    } else {
        let last = entries[entries.len() - 1];
        proof {
            broadcast use vstd::std_specs::vec::group_vec_axioms;
            assert(decreases_to!(entries => entries[entries.len() - 1]));
            assert(decreases_to!(last => last.entries));
            assert(decreases_to!(last.entries => last.entries@));
        }
        let sub = 1 + listing_height(last.entries@);
        let rest = listing_height(entries.subrange(0, entries.len() - 1));
        if sub > rest {
            sub
        } else {
            rest
        }
    }
}

/// Every subdirectory listing is at least one level less deep.
pub proof fn lemma_listing_height(entries: Seq<DirEntry>, i: int)
    requires
        0 <= i < entries.len(),
    ensures
        listing_height(entries) >= 1 + listing_height(entries[i].entries@),
    decreases entries.len(),
{
    if i < entries.len() - 1 {
        let rest = entries.subrange(0, entries.len() - 1);
        assert(rest[i] == entries[i]);
        lemma_listing_height(rest, i);
    }
}

/// Indices below `n` of the directory entries.
pub open spec fn dir_indices(entries: Seq<DirEntry>, n: int) -> Seq<usize>
    decreases n,
{
    if n <= 0 {
        Seq::empty()
    } else if entries[n - 1].is_dir {
        dir_indices(entries, n - 1).push((n - 1) as usize)
    } else {
        dir_indices(entries, n - 1)
    }
}

/// Indices below `n` of the image files.
pub open spec fn image_indices(entries: Seq<DirEntry>, exts: Seq<Seq<char>>, n: int) -> Seq<usize>
    decreases n,
{
    if n <= 0 {
        Seq::empty()
    } else if !entries[n - 1].is_dir && is_image_path_spec(entries[n - 1].path@, exts) {
        image_indices(entries, exts, n - 1).push((n - 1) as usize)
    } else {
        image_indices(entries, exts, n - 1)
    }
}

/// The name shown for a path: its file name, or `unknown` when it has none.
pub open spec fn node_name(path: Seq<char>) -> Seq<char> {
    match spec_file_name(path) {
        Some(n) => n,
        None => seq!['u', 'n', 'k', 'n', 'o', 'w', 'n'],
    }
}

/// The name shown for a path; see `node_name`.
pub fn node_name_exec(path: &str) -> (r: String)
    ensures
        r@ == node_name(path@),
{
    match path_file_name(path) {
        Some(n) => n,
        None => {
            let mut s = String::new();
            push_str(&mut s, "unknown");
            proof {
                reveal_strlit("unknown");
            }
            s
        },
    }
}

/// Nodes `lo..hi` form the subtrees of `children`, which hang from
/// `parent` at depth `depth`: each node hangs from `parent` (and is one of
/// `children`) or from an earlier directory of the range, which lists it
/// among its children; children come after their parent and stay in range.
pub open spec fn segment_ok(
    nodes: Seq<TreeNode>,
    lo: int,
    hi: int,
    parent: Option<usize>,
    children: Seq<usize>,
    depth: int,
) -> bool {
    &&& 0 <= lo <= hi <= nodes.len()
    &&& forall|k: int|
        0 <= k < children.len() ==> lo <= #[trigger] children[k] < hi && nodes[children[k] as int].parent == parent
            && nodes[children[k] as int].depth == depth
    &&& forall|k: int, l: int| 0 <= k < l < children.len() ==> #[trigger] children[k] < #[trigger] children[l]
    &&& forall|i: int|
        lo <= i < hi ==> ((#[trigger] nodes[i]).parent == parent && children.contains(i as usize)) || (
        nodes[i].parent matches Some(p) && lo <= p < i && nodes[p as int].is_dir
            && nodes[p as int].children@.contains(i as usize) && nodes[i].depth == nodes[p as int].depth + 1)
    &&& forall|i: int, k: int|
        lo <= i < hi && 0 <= k < nodes[i].children@.len() ==> {
            let c = #[trigger] nodes[i].children@[k];
            i < c < hi && nodes[c as int].parent == Some(i as usize)
        }
}


/// Node `n` shows listing entry `e`.
pub open spec fn node_shows(n: TreeNode, e: DirEntry) -> bool {
    &&& n.path@ == e.path@
    &&& n.name@ == node_name(e.path@)
    &&& n.is_dir == e.is_dir
}

/// `children` are the nodes for the entries of a listing: first its
/// directories, then its image files, each group stably sorted by the
/// natural order of file names.
pub open spec fn lists_entries(
    nodes: Seq<TreeNode>,
    children: Seq<usize>,
    entries: Seq<DirEntry>,
    exts: Seq<Seq<char>>,
) -> bool {
    exists|sd: Seq<usize>, sf: Seq<usize>|
        #![trigger sorted_by_name(entries, dir_indices(entries, entries.len() as int), sd), sorted_by_name(entries, image_indices(entries, exts, entries.len() as int), sf)]
        sorted_by_name(entries, dir_indices(entries, entries.len() as int), sd) && sorted_by_name(
            entries,
            image_indices(entries, exts, entries.len() as int),
            sf,
        ) && children.len() == sd.len() + sf.len() && (forall|k: int|
            0 <= k < children.len() ==> children[k] < nodes.len() && node_shows(
                nodes[#[trigger] children[k] as int],
                entries[(sd + sf)[k] as int],
            ))
}

/// The children of one level show the listing in order: the directories
/// in the order `sd`, then the image files in the order `sf`, both sorted
/// by name.
pub open spec fn level_lists(
    nodes: Seq<TreeNode>,
    children: Seq<usize>,
    entries: Seq<DirEntry>,
    exts: Seq<Seq<char>>,
    sd: Seq<usize>,
    sf: Seq<usize>,
) -> bool {
    &&& sorted_by_name(entries, dir_indices(entries, entries.len() as int), sd)
    &&& sorted_by_name(entries, image_indices(entries, exts, entries.len() as int), sf)
    &&& children.len() == sd.len() + sf.len()
    &&& forall|k: int|
        0 <= k < children.len() ==> children[k] < nodes.len() && node_shows(
            nodes[#[trigger] children[k] as int],
            entries[(sd + sf)[k] as int],
        )
}

/// `children` and the nodes below them show the whole listing: each level
/// as `level_lists` says, and each directory's node has children that show
/// that directory's own listing, all the way down.
pub open spec fn tree_lists(
    nodes: Seq<TreeNode>,
    children: Seq<usize>,
    entries: Seq<DirEntry>,
    exts: Seq<Seq<char>>,
) -> bool
    decreases entries,
{
    proof {
        broadcast use vstd::std_specs::vec::group_vec_axioms;
    }
    exists|sd: Seq<usize>, sf: Seq<usize>|
        #![trigger level_lists(nodes, children, entries, exts, sd, sf)]
        level_lists(nodes, children, entries, exts, sd, sf) && forall|k: int|
            0 <= k < sd.len() && k < children.len() && sd[k] < entries.len() ==> tree_lists(
                nodes,
                nodes[#[trigger] children[k] as int].children@,
                entries[sd[k] as int].entries@,
                exts,
            )
}

/// Path `p` is that of entry `e` or of an entry anywhere below it.
pub open spec fn from_entry(p: Seq<char>, e: DirEntry) -> bool
    decreases e, 1int,
{
    proof {
        broadcast use vstd::std_specs::vec::group_vec_axioms;
        assert(decreases_to!(e => e.entries));
        assert(decreases_to!(e.entries => e.entries@));
    }
    e.path@ == p || (e.is_dir && in_listing(p, e.entries@))
}

/// Path `p` is that of an entry of the listing or of one below it.
pub open spec fn in_listing(p: Seq<char>, entries: Seq<DirEntry>) -> bool
    decreases entries, 0int,
{
    exists|j: int| 0 <= j < entries.len() && from_entry(p, #[trigger] entries[j])
}

/// No path occurs twice in the listing, counting every level below it: no
/// path is shared by two entries or what lies below them, and no
/// directory's path recurs below it. A listing read from a file system is
/// such.
pub open spec fn distinct_paths(entries: Seq<DirEntry>) -> bool
    decreases entries,
{
    proof {
        broadcast use vstd::std_specs::vec::group_vec_axioms;
    }
    &&& forall|j: int, k: int, p: Seq<char>|
        0 <= j < entries.len() && 0 <= k < entries.len() && j != k ==> !(#[trigger] from_entry(p, entries[j])
            && #[trigger] from_entry(p, entries[k]))
    &&& forall|j: int|
        0 <= j < entries.len() && (#[trigger] entries[j]).is_dir ==> !in_listing(entries[j].path@, entries[j].entries@)
            && distinct_paths(entries[j].entries@)
}

/// Nodes `lo..hi` only have children later in that range.
pub open spec fn closed_range(nodes: Seq<TreeNode>, lo: int, hi: int) -> bool {
    forall|i: int, k: int|
        lo <= i < hi && 0 <= k < nodes[i].children@.len() ==> i < #[trigger] nodes[i].children@[k] < hi
}

/// What `tree_lists` says of children in a closed range stays true when
/// the nodes of that range are kept and others change or are added.
proof fn lemma_tree_lists_frame(
    n: Seq<TreeNode>,
    n2: Seq<TreeNode>,
    lo: int,
    hi: int,
    children: Seq<usize>,
    entries: Seq<DirEntry>,
    exts: Seq<Seq<char>>,
)
    requires
        0 <= lo <= hi <= n.len() <= n2.len(),
        forall|i: int| lo <= i < hi ==> #[trigger] n2[i] == n[i],
        forall|k: int| 0 <= k < children.len() ==> lo <= #[trigger] children[k] < hi,
        closed_range(n, lo, hi),
        tree_lists(n, children, entries, exts),
    ensures
        tree_lists(n2, children, entries, exts),
    decreases entries,
{
    broadcast use vstd::std_specs::vec::group_vec_axioms;
    let (sd, sf) = choose|sd: Seq<usize>, sf: Seq<usize>|
        level_lists(n, children, entries, exts, sd, sf) && forall|k: int|
            0 <= k < sd.len() && k < children.len() && sd[k] < entries.len() ==> tree_lists(
                n,
                n[#[trigger] children[k] as int].children@,
                entries[sd[k] as int].entries@,
                exts,
            );
    assert forall|k: int| 0 <= k < children.len() implies children[k] < n2.len() && node_shows(
        n2[#[trigger] children[k] as int],
        entries[(sd + sf)[k] as int],
    ) by {
        assert(n2[children[k] as int] == n[children[k] as int]);
    }
    assert(level_lists(n2, children, entries, exts, sd, sf));
    assert forall|k: int| 0 <= k < sd.len() && k < children.len() && sd[k] < entries.len() implies tree_lists(
        n2,
        n2[#[trigger] children[k] as int].children@,
        entries[sd[k] as int].entries@,
        exts,
    ) by {
        let c = children[k] as int;
        assert(n2[c] == n[c]);
        let cc = n[c].children@;
        assert forall|j: int| 0 <= j < cc.len() implies lo <= #[trigger] cc[j] < hi by {
            assert(c < n[c].children@[j] < hi);
        }
        assert(decreases_to!(entries => entries[sd[k] as int]));
        assert(decreases_to!(entries[sd[k] as int] => entries[sd[k] as int].entries));
        assert(decreases_to!(entries[sd[k] as int].entries => entries[sd[k] as int].entries@));
        lemma_tree_lists_frame(n, n2, lo, hi, cc, entries[sd[k] as int].entries@, exts);
    }
}

/// Directory indices point at directories of the listing.
proof fn lemma_dir_indices(entries: Seq<DirEntry>, n: int)
    requires
        n <= entries.len(),
        entries.len() <= usize::MAX,
    ensures
        forall|k: int|
            0 <= k < dir_indices(entries, n).len() ==> #[trigger] dir_indices(entries, n)[k] < n
                && entries[dir_indices(entries, n)[k] as int].is_dir,
    decreases n,
{
    if n > 0 {
        lemma_dir_indices(entries, n - 1);
        let prev = dir_indices(entries, n - 1);
        let cur = dir_indices(entries, n);
        assert forall|k: int| 0 <= k < cur.len() implies #[trigger] cur[k] < n && entries[cur[k] as int].is_dir by {
            if k < prev.len() {
                assert(cur[k] == prev[k]);
            }
        }
    }
}

/// Image indices point at image files of the listing.
proof fn lemma_image_indices(entries: Seq<DirEntry>, exts: Seq<Seq<char>>, n: int)
    requires
        n <= entries.len(),
        entries.len() <= usize::MAX,
    ensures
        forall|k: int|
            0 <= k < image_indices(entries, exts, n).len() ==> #[trigger] image_indices(entries, exts, n)[k] < n
                && !entries[image_indices(entries, exts, n)[k] as int].is_dir,
    decreases n,
{
    if n > 0 {
        lemma_image_indices(entries, exts, n - 1);
        let prev = image_indices(entries, exts, n - 1);
        let cur = image_indices(entries, exts, n);
        assert forall|k: int| 0 <= k < cur.len() implies #[trigger] cur[k] < n && !entries[cur[k] as int].is_dir by {
            if k < prev.len() {
                assert(cur[k] == prev[k]);
            }
        }
    }
}

proof fn lemma_dir_indices_increasing(entries: Seq<DirEntry>, n: int)
    requires
        n <= entries.len(),
        entries.len() <= usize::MAX,
    ensures
        forall|k: int, l: int|
            0 <= k < l < dir_indices(entries, n).len() ==> #[trigger] dir_indices(entries, n)[k] < #[trigger] dir_indices(
                entries,
                n,
            )[l],
    decreases n,
{
    if n > 0 {
        lemma_dir_indices_increasing(entries, n - 1);
        lemma_dir_indices(entries, n - 1);
        let prev = dir_indices(entries, n - 1);
        let cur = dir_indices(entries, n);
        assert forall|k: int, l: int| 0 <= k < l < cur.len() implies #[trigger] cur[k] < #[trigger] cur[l] by {
            assert(cur[k] == prev[k]);
            if l < prev.len() {
                assert(cur[l] == prev[l]);
            }
        }
    }
}

proof fn lemma_image_indices_increasing(entries: Seq<DirEntry>, exts: Seq<Seq<char>>, n: int)
    requires
        n <= entries.len(),
        entries.len() <= usize::MAX,
    ensures
        forall|k: int, l: int|
            0 <= k < l < image_indices(entries, exts, n).len() ==> #[trigger] image_indices(entries, exts, n)[k]
                < #[trigger] image_indices(entries, exts, n)[l],
    decreases n,
{
    if n > 0 {
        lemma_image_indices_increasing(entries, exts, n - 1);
        lemma_image_indices(entries, exts, n - 1);
        let prev = image_indices(entries, exts, n - 1);
        let cur = image_indices(entries, exts, n);
        assert forall|k: int, l: int| 0 <= k < l < cur.len() implies #[trigger] cur[k] < #[trigger] cur[l] by {
            assert(cur[k] == prev[k]);
            if l < prev.len() {
                assert(cur[l] == prev[l]);
            }
        }
    }
}

/// Sorting an index list without repeats gives one without repeats.
proof fn lemma_sorted_distinct(entries: Seq<DirEntry>, before: Seq<usize>, new: Seq<usize>)
    requires
        sorted_by_name(entries, before, new),
        forall|k: int, l: int| 0 <= k < l < before.len() ==> #[trigger] before[k] < #[trigger] before[l],
    ensures
        forall|k: int, l: int| 0 <= k < l < new.len() ==> #[trigger] new[k] != #[trigger] new[l],
{
    let p = choose|p: Seq<int>|
        #![trigger is_permutation(p, before.len())]
        is_permutation(p, before.len()) && new.len() == before.len() && (forall|k: int|
            0 <= k < new.len() ==> new[k] == before[#[trigger] p[k]]) && (forall|k: int, l: int|
            0 <= k < l < new.len() ==> name_order(
                entries[#[trigger] new[k] as int].path@,
                entries[#[trigger] new[l] as int].path@,
            ) < 0 || (name_order(entries[new[k] as int].path@, entries[new[l] as int].path@) == 0
                && p[k] < p[l]));
    assert forall|k: int, l: int| 0 <= k < l < new.len() implies #[trigger] new[k] != #[trigger] new[l] by {
        assert(new[k] == before[p[k]]);
        assert(new[l] == before[p[l]]);
        assert(p[k] != p[l]);
        if p[k] < p[l] {
            assert(before[p[k]] < before[p[l]]);
        } else {
            assert(before[p[l]] < before[p[k]]);
        }
    }
}

/// The entries of a sorted index list are those of the unsorted one.
proof fn lemma_sorted_members(entries: Seq<DirEntry>, before: Seq<usize>, new: Seq<usize>, k: int)
    requires
        sorted_by_name(entries, before, new),
        0 <= k < new.len(),
    ensures
        exists|j: int| 0 <= j < before.len() && before[j] == new[k],
{
    let p = choose|p: Seq<int>|
        #![trigger is_permutation(p, before.len())]
        is_permutation(p, before.len()) && new.len() == before.len() && (forall|k: int|
            0 <= k < new.len() ==> new[k] == before[#[trigger] p[k]]) && (forall|k: int, l: int|
            0 <= k < l < new.len() ==> name_order(
                entries[#[trigger] new[k] as int].path@,
                entries[#[trigger] new[l] as int].path@,
            ) < 0 || (name_order(entries[new[k] as int].path@, entries[new[l] as int].path@) == 0
                && p[k] < p[l]));
    assert(new[k] == before[p[k]]);
}

/// A directory node pushed after a valid range, followed by its own
/// subtree, extends the range by one child.
proof fn lemma_segment_push_dir(
    n0: Seq<TreeNode>,
    n2: Seq<TreeNode>,
    n3: Seq<TreeNode>,
    lo: int,
    parent: Option<usize>,
    children: Seq<usize>,
    depth: int,
    sub: Seq<usize>,
)
    requires
        segment_ok(n0, lo, n0.len() as int, parent, children, depth),
        n0.len() == n0.len(),
        parent matches Some(p) ==> p < lo,
        n2.len() > n0.len(),
        n2.subrange(0, n0.len() as int) == n0,
        n2[n0.len() as int].parent == parent,
        n2[n0.len() as int].depth == depth,
        n2[n0.len() as int].is_dir,
        segment_ok(n2, n0.len() + 1int, n2.len() as int, Some(n0.len() as usize), sub, depth + 1),
        n3.len() == n2.len(),
        n3.len() <= usize::MAX,
        forall|i: int| 0 <= i < n2.len() && i != n0.len() ==> n3[i] == n2[i],
        n3[n0.len() as int].parent == parent,
        n3[n0.len() as int].depth == depth,
        n3[n0.len() as int].is_dir,
        n3[n0.len() as int].children@ == sub,
    ensures
        segment_ok(n3, lo, n3.len() as int, parent, children.push(n0.len() as usize), depth),
{
    let id = n0.len() as int;
    let hi = n3.len() as int;
    let c2 = children.push(id as usize);
    assert forall|i: int| lo <= i < id implies n3[i] == n0[i] by {
        assert(n2.subrange(0, id)[i] == n2[i]);
    }
    assert forall|k: int|
        0 <= k < c2.len() implies lo <= #[trigger] c2[k] < hi && n3[c2[k] as int].parent == parent
            && n3[c2[k] as int].depth == depth by {
        if k < children.len() {
            assert(c2[k] == children[k]);
            assert(lo <= children[k] < id);
            assert(n3[children[k] as int] == n0[children[k] as int]);
        } else {
            assert(c2[k] == id as usize);
        }
    }
    assert forall|k: int, l: int| 0 <= k < l < c2.len() implies #[trigger] c2[k] < #[trigger] c2[l] by {
        assert(c2[k] == children[k]);
        assert(lo <= children[k] < id);
        if l < children.len() {
            assert(c2[l] == children[l]);
        } else {
            assert(c2[l] == id as usize);
        }
    }
    assert forall|i: int|
        lo <= i < hi implies ((#[trigger] n3[i]).parent == parent && c2.contains(i as usize)) || (
        n3[i].parent matches Some(p) && lo <= p < i && n3[p as int].is_dir
            && n3[p as int].children@.contains(i as usize) && n3[i].depth == n3[p as int].depth + 1) by {
        if i < id {
            assert(n3[i] == n0[i]);
            if n0[i].parent == parent && children.contains(i as usize) {
                let j = choose|j: int| 0 <= j < children.len() && children[j] == i as usize;
                assert(c2[j] == i as usize);
            } else {
                let p = n0[i].parent->0 as int;
                assert(n3[p] == n0[p]);
            }
        } else if i == id {
            assert(c2[children.len() as int] == i as usize);
        } else {
            assert(n3[i] == n2[i]);
            if n2[i].parent == Some(id as usize) && sub.contains(i as usize) {
            } else {
                let p = n2[i].parent->0 as int;
                assert(n3[p] == n2[p]);
            }
        }
    }
    assert forall|i: int, k: int|
        lo <= i < hi && 0 <= k < n3[i].children@.len() implies {
            let c = #[trigger] n3[i].children@[k];
            i < c < hi && n3[c as int].parent == Some(i as usize)
        } by {
        let c = n3[i].children@[k];
        if i < id {
            assert(n3[i] == n0[i]);
            assert(c < id);
            assert(n3[c as int] == n0[c as int]);
        } else if i == id {
            assert(sub[k] == c);
            assert(n3[c as int] == n2[c as int]);
        } else {
            assert(n3[i] == n2[i]);
            assert(n3[c as int] == n2[c as int]);
        }
    }
}

/// A file node pushed after a valid range extends it by one child.
proof fn lemma_segment_push_file(
    n0: Seq<TreeNode>,
    n1: Seq<TreeNode>,
    lo: int,
    parent: Option<usize>,
    children: Seq<usize>,
    depth: int,
)
    requires
        segment_ok(n0, lo, n0.len() as int, parent, children, depth),
        parent matches Some(p) ==> p < lo,
        n1.len() == n0.len() + 1,
        n1.len() <= usize::MAX,
        n1.subrange(0, n0.len() as int) == n0,
        n1[n0.len() as int].parent == parent,
        n1[n0.len() as int].depth == depth,
        n1[n0.len() as int].children@.len() == 0,
    ensures
        segment_ok(n1, lo, n1.len() as int, parent, children.push(n0.len() as usize), depth),
{
    let id = n0.len() as int;
    let hi = n1.len() as int;
    let c2 = children.push(id as usize);
    assert forall|i: int| 0 <= i < id implies n1[i] == n0[i] by {
        assert(n1.subrange(0, id)[i] == n1[i]);
    }
    assert forall|k: int|
        0 <= k < c2.len() implies lo <= #[trigger] c2[k] < hi && n1[c2[k] as int].parent == parent
            && n1[c2[k] as int].depth == depth by {
        if k < children.len() {
            assert(c2[k] == children[k]);
            assert(lo <= children[k] < id);
            assert(n1[children[k] as int] == n0[children[k] as int]);
        } else {
            assert(c2[k] == id as usize);
        }
    }
    assert forall|k: int, l: int| 0 <= k < l < c2.len() implies #[trigger] c2[k] < #[trigger] c2[l] by {
        assert(c2[k] == children[k]);
        assert(lo <= children[k] < id);
        if l < children.len() {
            assert(c2[l] == children[l]);
        } else {
            assert(c2[l] == id as usize);
        }
    }
    assert forall|i: int|
        lo <= i < hi implies ((#[trigger] n1[i]).parent == parent && c2.contains(i as usize)) || (
        n1[i].parent matches Some(p) && lo <= p < i && n1[p as int].is_dir
            && n1[p as int].children@.contains(i as usize) && n1[i].depth == n1[p as int].depth + 1) by {
        if i < id {
            if n0[i].parent == parent && children.contains(i as usize) {
                let j = choose|j: int| 0 <= j < children.len() && children[j] == i as usize;
                assert(c2[j] == i as usize);
            } else {
                let p = n0[i].parent->0 as int;
                assert(n1[p] == n0[p]);
            }
        } else {
            assert(c2[children.len() as int] == i as usize);
        }
    }
    assert forall|i: int, k: int|
        lo <= i < hi && 0 <= k < n1[i].children@.len() implies {
            let c = #[trigger] n1[i].children@[k];
            i < c < hi && n1[c as int].parent == Some(i as usize)
        } by {
        let c = n1[i].children@[k];
        if i < id {
            assert(n1[c as int] == n0[c as int]);
        }
    }
}


/// Splits a listing into its directories and its image files, as index
/// lists in listing order.
fn partition_entries(entries: &Vec<DirEntry>, extensions: &[String]) -> (r: (Vec<usize>, Vec<usize>))
    ensures
        r.0@ == dir_indices(entries@, entries@.len() as int),
        r.1@ == image_indices(entries@, extensions@.map_values(|e: String| e@), entries@.len() as int),
{
    let ghost exts = extensions@.map_values(|e: String| e@);
    let mut dirs: Vec<usize> = Vec::new();
    let mut files: Vec<usize> = Vec::new();
    let mut i: usize = 0;
    while i < entries.len()
        invariant
            i <= entries@.len(),
            exts == extensions@.map_values(|e: String| e@),
            dirs@ == dir_indices(entries@, i as int),
            files@ == image_indices(entries@, exts, i as int),
        decreases entries@.len() - i,
    {
        if entries[i].is_dir {
            dirs.push(i);
        } else if is_image_path(entries[i].path.as_str(), extensions) {
            files.push(i);
        }
        i = i + 1;
    }
    (dirs, files)
}

/// Builds the nodes for a listing below `parent` at `depth`: the
/// directories first, each followed by the nodes of its own listing, then
/// the image files; each group in natural order of file names. The new
/// nodes are appended to `nodes`; the ids of those that hang directly from
/// `parent` are returned.
#[verifier::spinoff_prover]
#[verifier::rlimit(50)]
pub fn build_tree_nodes(
    entries: &Vec<DirEntry>,
    parent: Option<usize>,
    depth: usize,
    nodes: &mut Vec<TreeNode>,
    extensions: &[String],
) -> (children: Vec<usize>)
    requires
        depth + listing_height(entries@) <= usize::MAX,
        parent matches Some(p) ==> p < old(nodes)@.len(),
    ensures
        final(nodes)@.len() >= old(nodes)@.len(),
        final(nodes)@.subrange(0, old(nodes)@.len() as int) == old(nodes)@,
        segment_ok(
            final(nodes)@,
            old(nodes)@.len() as int,
            final(nodes)@.len() as int,
            parent,
            children@,
            depth as int,
        ),
        lists_entries(final(nodes)@, children@, entries@, extensions@.map_values(|e: String| e@)),
        tree_lists(final(nodes)@, children@, entries@, extensions@.map_values(|e: String| e@)),
        forall|i: int|
            old(nodes)@.len() <= i < final(nodes)@.len() ==> in_listing(#[trigger] final(nodes)@[i].path@, entries@),
        distinct_paths(entries@) ==> forall|x: int, y: int|
            old(nodes)@.len() <= x < y < final(nodes)@.len() ==> #[trigger] final(nodes)@[x].path@
                != #[trigger] final(nodes)@[y].path@,
    decreases entries@,
{
    let ghost exts = extensions@.map_values(|e: String| e@);
    let ghost lo = nodes@.len() as int;
    let ghost start = nodes@;
    let _ = entries.len();
    let (dirs0, files0) = partition_entries(entries, extensions);
    proof {
        lemma_dir_indices(entries@, entries@.len() as int);
        lemma_image_indices(entries@, exts, entries@.len() as int);
    }
    let dirs = sort_indices_by_name(entries, dirs0);
    let files = sort_indices_by_name(entries, files0);
    let ghost order = dirs@ + files@;
    let ghost mut pos: Seq<int> = Seq::empty();
    proof {
        let di = dir_indices(entries@, entries@.len() as int);
        let fi = image_indices(entries@, exts, entries@.len() as int);
        lemma_dir_indices_increasing(entries@, entries@.len() as int);
        lemma_image_indices_increasing(entries@, exts, entries@.len() as int);
        lemma_sorted_distinct(entries@, di, dirs@);
        lemma_sorted_distinct(entries@, fi, files@);
        assert forall|j: int| 0 <= j < dirs@.len() implies #[trigger] dirs@[j] < entries@.len()
            && entries@[dirs@[j] as int].is_dir by {
            lemma_sorted_members(entries@, di, dirs@, j);
            let w = choose|w: int| 0 <= w < di.len() && di[w] == dirs@[j];
            assert(di[w] < entries@.len());
        }
        assert forall|j: int| 0 <= j < files@.len() implies #[trigger] files@[j] < entries@.len()
            && !entries@[files@[j] as int].is_dir by {
            lemma_sorted_members(entries@, fi, files@, j);
            let w = choose|w: int| 0 <= w < fi.len() && fi[w] == files@[j];
            assert(fi[w] < entries@.len());
        }
        assert forall|j: int, l: int| 0 <= j < l < order.len() implies #[trigger] order[j] != #[trigger] order[l] by {
            if l < dirs@.len() {
                assert(dirs@[j] != dirs@[l]);
            } else if j >= dirs@.len() {
                assert(files@[j - dirs@.len()] != files@[l - dirs@.len()]);
            } else {
                assert(entries@[order[j] as int].is_dir);
                assert(!entries@[order[l] as int].is_dir);
            }
        }
        assert forall|j: int| 0 <= j < order.len() implies #[trigger] order[j] < entries@.len() by {
            if j >= dirs@.len() {
                assert(order[j] == files@[j - dirs@.len()]);
            }
        }
        assert(nodes@.len() - lo == 0);
    }
    let mut children: Vec<usize> = Vec::new();
    let mut k: usize = 0;
    while k < dirs.len()
        invariant
            k <= dirs@.len(),
            exts == extensions@.map_values(|e: String| e@),
            order == dirs@ + files@,
            depth + listing_height(entries@) <= usize::MAX,
            parent matches Some(p) ==> p < lo,
            lo == start.len(),
            nodes@.len() >= lo,
            nodes@.subrange(0, lo) == start,
            sorted_by_name(entries@, dir_indices(entries@, entries@.len() as int), dirs@),
            forall|j: int| 0 <= j < dirs@.len() ==> #[trigger] dirs@[j] < entries@.len() && entries@[dirs@[j] as int].is_dir,
            segment_ok(nodes@, lo, nodes@.len() as int, parent, children@, depth as int),
            children@.len() == k,
            forall|j: int| 0 <= j < k ==> tree_lists(
                nodes@,
                nodes@[#[trigger] children@[j] as int].children@,
                entries@[dirs@[j] as int].entries@,
                exts,
            ),
            forall|j: int| 0 <= j < k ==> children@[j] < nodes@.len() && node_shows(
                nodes@[#[trigger] children@[j] as int],
                entries@[order[j] as int],
            ),
            forall|j: int, l: int| 0 <= j < l < order.len() ==> #[trigger] order[j] != #[trigger] order[l],
            forall|j: int| 0 <= j < order.len() ==> #[trigger] order[j] < entries@.len(),
            pos.len() == nodes@.len() - lo,
            distinct_paths(entries@) ==> forall|x: int, y: int|
                lo <= x < y < nodes@.len() ==> #[trigger] nodes@[x].path@ != #[trigger] nodes@[y].path@,
            forall|x: int|
                0 <= x < pos.len() ==> 0 <= #[trigger] pos[x] < k && from_entry(
                    nodes@[lo + x].path@,
                    entries@[order[pos[x]] as int],
                ),
        decreases dirs@.len() - k,
    {
        let ei = dirs[k];
        proof {
            lemma_sorted_members(entries@, dir_indices(entries@, entries@.len() as int), dirs@, k as int);
        }
        let e = &entries[ei];
        let ghost n0 = nodes@;
        let id = nodes.len();
        nodes.push(TreeNode {
            name: node_name_exec(e.path.as_str()),
            path: e.path.clone(),
            is_dir: true,
            depth,
            parent,
            children: Vec::new(),
        });
        proof {
            lemma_listing_height(entries@, ei as int);
            broadcast use vstd::std_specs::vec::group_vec_axioms;
            assert(decreases_to!(entries@ => entries@[ei as int]));
            assert(decreases_to!(entries@[ei as int] => entries@[ei as int].entries));
            assert(decreases_to!(entries@[ei as int].entries => entries@[ei as int].entries@));
        }
        let sub = build_tree_nodes(&e.entries, Some(id), depth + 1, nodes, extensions);
        let ghost n2 = nodes@;
        let _ = nodes.len();
        nodes.set(id, TreeNode {
            name: node_name_exec(e.path.as_str()),
            path: e.path.clone(),
            is_dir: true,
            depth,
            parent,
            children: sub,
        });
        proof {
            assert(n2.subrange(0, id as int + 1)[id as int] == n2[id as int]);
            assert(n2.subrange(0, id as int) == n0) by {
                assert forall|i: int| 0 <= i < id implies n2.subrange(0, id as int)[i] == n0[i] by {
                    assert(n2.subrange(0, id as int + 1)[i] == n2[i]);
                }
            }
            lemma_segment_push_dir(n0, n2, nodes@, lo, parent, children@, depth as int, sub@);
            assert forall|i: int| id + 1 <= i < n2.len() implies #[trigger] nodes@[i] == n2[i] by {}
            lemma_tree_lists_frame(n2, nodes@, id + 1, n2.len() as int, sub@, e.entries@, exts);
            assert forall|i: int| lo <= i < id implies #[trigger] nodes@[i] == n0[i] by {
                assert(n2.subrange(0, id as int)[i] == n2[i]);
            }
            assert forall|j: int| 0 <= j < k implies tree_lists(
                nodes@,
                nodes@[#[trigger] children@[j] as int].children@,
                entries@[dirs@[j] as int].entries@,
                exts,
            ) by {
                let c = children@[j] as int;
                assert(lo <= c < id);
                let cc = n0[c].children@;
                assert forall|q: int| 0 <= q < cc.len() implies lo <= #[trigger] cc[q] < id by {
                    assert(c < n0[c].children@[q] < id);
                }
                lemma_tree_lists_frame(n0, nodes@, lo, id as int, cc, entries@[dirs@[j] as int].entries@, exts);
            }
            assert forall|i: int| 0 <= i < lo implies nodes@.subrange(0, lo)[i] == start[i] by {
                assert(n0.subrange(0, lo)[i] == start[i]);
                assert(n2.subrange(0, id as int)[i] == n2[i]);
            }
            assert(nodes@.subrange(0, lo) =~= start);
        }
        let ghost c_old = children@;
        children.push(id);
        proof {
            assert forall|j: int| 0 <= j < k + 1 implies children@[j] < nodes@.len() && node_shows(
                nodes@[#[trigger] children@[j] as int],
                entries@[order[j] as int],
            ) by {
                if j < k {
                    assert(children@[j] == c_old[j]);
                    assert(c_old[j] < id);
                    assert(n2.subrange(0, id as int)[c_old[j] as int] == n2[c_old[j] as int]);
                    assert(nodes@[c_old[j] as int] == n2[c_old[j] as int]);
                } else {
                    assert(children@[j] == id);
                    assert(order[j] == dirs@[j]);
                }
            }
            assert forall|j: int| 0 <= j < k + 1 implies tree_lists(
                nodes@,
                nodes@[#[trigger] children@[j] as int].children@,
                entries@[dirs@[j] as int].entries@,
                exts,
            ) by {
                if j < k {
                    assert(children@[j] == c_old[j]);
                } else {
                    assert(children@[j] == id);
                    assert(nodes@[id as int].children@ == sub@);
                    assert(e.entries@ == entries@[dirs@[j] as int].entries@);
                }
            }
            let nn = nodes@;
            let ek = entries@[order[k as int] as int];
            assert(order[k as int] == dirs@[k as int]);
            assert(ek == *e);
            assert(ek.is_dir);
            assert forall|i: int| lo <= i < id implies #[trigger] nn[i] == n0[i] by {
                assert(n2.subrange(0, id as int)[i] == n2[i]);
            }
            assert(nn[id as int].path@ == e.path@);
            assert forall|i: int| id < i < nn.len() implies in_listing(#[trigger] nn[i].path@, e.entries@) by {
                assert(nn[i] == n2[i]);
            }
            let new_pos = pos + Seq::new((nn.len() - id) as nat, |i: int| k as int);
            assert forall|x: int| 0 <= x < new_pos.len() implies 0 <= #[trigger] new_pos[x] < k + 1 && from_entry(
                nn[lo + x].path@,
                entries@[order[new_pos[x]] as int],
            ) by {
                if x < pos.len() {
                    assert(new_pos[x] == pos[x]);
                    assert(nn[lo + x] == n0[lo + x]);
                } else {
                    assert(new_pos[x] == k);
                    if lo + x > id {
                        assert(in_listing(nn[lo + x].path@, e.entries@));
                    }
                }
            }
            if distinct_paths(entries@) {
                assert(distinct_paths(ek.entries@) && !in_listing(ek.path@, ek.entries@));
                assert forall|x: int, y: int| lo <= x < y < nn.len() implies #[trigger] nn[x].path@
                    != #[trigger] nn[y].path@ by {
                    let px = nn[x].path@;
                    let py = nn[y].path@;
                    assert(from_entry(px, entries@[order[new_pos[x - lo]] as int]));
                    assert(from_entry(py, entries@[order[new_pos[y - lo]] as int]));
                    if y < id {
                        assert(nn[x] == n0[x] && nn[y] == n0[y]);
                    } else if x < id {
                        assert(new_pos[x - lo] < k);
                        assert(new_pos[y - lo] == k);
                        let a = order[new_pos[x - lo]] as int;
                        let b = order[new_pos[y - lo]] as int;
                        assert(a != b);
                        if px == py {
                            assert(from_entry(px, entries@[a]) && from_entry(px, entries@[b]));
                        }
                    } else if x == id {
                        assert(in_listing(py, ek.entries@));
                    } else {
                        assert(nn[x] == n2[x] && nn[y] == n2[y]);
                    }
                }
            }
            pos = new_pos;
        }
        k = k + 1;
    }
    let mut m: usize = 0;
    while m < files.len()
        invariant
            m <= files@.len(),
            k == dirs@.len(),
            exts == extensions@.map_values(|e: String| e@),
            order == dirs@ + files@,
            parent matches Some(p) ==> p < lo,
            lo == start.len(),
            nodes@.len() >= lo,
            nodes@.subrange(0, lo) == start,
            sorted_by_name(entries@, dir_indices(entries@, entries@.len() as int), dirs@),
            sorted_by_name(entries@, image_indices(entries@, exts, entries@.len() as int), files@),
            forall|j: int| 0 <= j < files@.len() ==> #[trigger] files@[j] < entries@.len() && !entries@[files@[j] as int].is_dir,
            segment_ok(nodes@, lo, nodes@.len() as int, parent, children@, depth as int),
            children@.len() == k + m,
            forall|j: int| 0 <= j < k ==> tree_lists(
                nodes@,
                nodes@[#[trigger] children@[j] as int].children@,
                entries@[dirs@[j] as int].entries@,
                exts,
            ),
            forall|j: int| 0 <= j < k + m ==> children@[j] < nodes@.len() && node_shows(
                nodes@[#[trigger] children@[j] as int],
                entries@[order[j] as int],
            ),
            forall|j: int, l: int| 0 <= j < l < order.len() ==> #[trigger] order[j] != #[trigger] order[l],
            forall|j: int| 0 <= j < order.len() ==> #[trigger] order[j] < entries@.len(),
            pos.len() == nodes@.len() - lo,
            distinct_paths(entries@) ==> forall|x: int, y: int|
                lo <= x < y < nodes@.len() ==> #[trigger] nodes@[x].path@ != #[trigger] nodes@[y].path@,
            forall|x: int|
                0 <= x < pos.len() ==> 0 <= #[trigger] pos[x] < k + m && from_entry(
                    nodes@[lo + x].path@,
                    entries@[order[pos[x]] as int],
                ),
        decreases files@.len() - m,
    {
        let ei = files[m];
        proof {
            lemma_sorted_members(entries@, image_indices(entries@, exts, entries@.len() as int), files@, m as int);
        }
        let e = &entries[ei];
        let ghost n0 = nodes@;
        let id = nodes.len();
        nodes.push(TreeNode {
            name: node_name_exec(e.path.as_str()),
            path: e.path.clone(),
            is_dir: false,
            depth,
            parent,
            children: Vec::new(),
        });
        let _ = nodes.len();
        proof {
            assert(nodes@.subrange(0, id as int) =~= n0);
            lemma_segment_push_file(n0, nodes@, lo, parent, children@, depth as int);
            assert forall|j: int| 0 <= j < k implies tree_lists(
                nodes@,
                nodes@[#[trigger] children@[j] as int].children@,
                entries@[dirs@[j] as int].entries@,
                exts,
            ) by {
                let c = children@[j] as int;
                assert(lo <= c < id);
                let cc = n0[c].children@;
                assert forall|q: int| 0 <= q < cc.len() implies lo <= #[trigger] cc[q] < id by {
                    assert(c < n0[c].children@[q] < id);
                }
                assert forall|i: int| lo <= i < id implies #[trigger] nodes@[i] == n0[i] by {}
                lemma_tree_lists_frame(n0, nodes@, lo, id as int, cc, entries@[dirs@[j] as int].entries@, exts);
            }
            assert forall|i: int| 0 <= i < lo implies nodes@.subrange(0, lo)[i] == start[i] by {
                assert(n0.subrange(0, lo)[i] == start[i]);
            }
            assert(nodes@.subrange(0, lo) =~= start);
        }
        let ghost c_old = children@;
        children.push(id);
        proof {
            assert forall|j: int| 0 <= j < k + m + 1 implies children@[j] < nodes@.len() && node_shows(
                nodes@[#[trigger] children@[j] as int],
                entries@[order[j] as int],
            ) by {
                if j < k + m {
                    assert(children@[j] == c_old[j]);
                    assert(nodes@[c_old[j] as int] == n0[c_old[j] as int]);
                } else {
                    assert(children@[j] == id);
                    assert(order[j] == files@[m as int]);
                }
            }
            let nn = nodes@;
            let km = (k + m) as int;
            assert(order[km] == files@[m as int]);
            assert(nn[id as int].path@ == entries@[order[km] as int].path@);
            assert forall|i: int| lo <= i < id implies #[trigger] nn[i] == n0[i] by {}
            let new_pos = pos.push(km);
            assert forall|x: int| 0 <= x < new_pos.len() implies 0 <= #[trigger] new_pos[x] < km + 1 && from_entry(
                nn[lo + x].path@,
                entries@[order[new_pos[x]] as int],
            ) by {
                if x < pos.len() {
                    assert(new_pos[x] == pos[x]);
                    assert(nn[lo + x] == n0[lo + x]);
                } else {
                    assert(new_pos[x] == km);
                }
            }
            if distinct_paths(entries@) {
                assert forall|x: int, y: int| lo <= x < y < nn.len() implies #[trigger] nn[x].path@
                    != #[trigger] nn[y].path@ by {
                    let px = nn[x].path@;
                    let py = nn[y].path@;
                    assert(from_entry(px, entries@[order[new_pos[x - lo]] as int]));
                    assert(from_entry(py, entries@[order[new_pos[y - lo]] as int]));
                    if y < id {
                        assert(nn[x] == n0[x] && nn[y] == n0[y]);
                    } else {
                        assert(new_pos[x - lo] < km);
                        assert(new_pos[y - lo] == km);
                        let a = order[new_pos[x - lo]] as int;
                        let b = order[new_pos[y - lo]] as int;
                        assert(a != b);
                        if px == py {
                            assert(from_entry(px, entries@[a]) && from_entry(px, entries@[b]));
                        }
                    }
                }
            }
            pos = new_pos;
        }
        m = m + 1;
    }
    proof {
        assert(sorted_by_name(entries@, dir_indices(entries@, entries@.len() as int), dirs@)
            && sorted_by_name(entries@, image_indices(entries@, exts, entries@.len() as int), files@));
        assert(level_lists(nodes@, children@, entries@, exts, dirs@, files@));
        assert forall|i: int| lo <= i < nodes@.len() implies in_listing(#[trigger] nodes@[i].path@, entries@) by {
            let j = order[pos[i - lo]] as int;
            assert(from_entry(nodes@[lo + (i - lo)].path@, entries@[j]));
            assert(lo + (i - lo) == i);
        }
    }
    children
}


/// A range that covers all nodes and hangs from no parent is a well-formed,
/// linked tree whose roots are the range's children.
pub proof fn lemma_segment_is_tree(nodes: Seq<TreeNode>, roots: Seq<usize>, depth: int)
    requires
        segment_ok(nodes, 0, nodes.len() as int, None, roots, depth),
    ensures
        crate::filetree::tree_shape(nodes, roots),
        crate::filetree::tree_linked(nodes, roots),
{
    assert forall|id: int| 0 <= id < nodes.len() implies match #[trigger] nodes[id].parent {
        Some(p) => p < id,
        None => true,
    } by {
        if nodes[id].parent is Some {
            assert(!(nodes[id].parent == None::<usize>));
        }
    }
    assert forall|i: int| 0 <= i < roots.len() implies #[trigger] roots[i] < nodes.len() && nodes[roots[i] as int].parent is None by {
    }
}


/// The image files of a listing, in the order the viewer goes through
/// them: the listing's own image files, sorted by name, then those of each
/// subdirectory, the subdirectories sorted by name.
pub open spec fn collected(entries: Seq<DirEntry>, exts: Seq<Seq<char>>) -> Seq<Seq<char>>
    decreases entries, 1int, 0int,
{
    let n = entries.len() as int;
    let files = isort(entries, image_indices(entries, exts, n));
    let dirs = isort(entries, dir_indices(entries, n));
    files.map_values(|i: usize| entries[i as int].path@) + collected_dirs(entries, dirs, exts, 0)
}

/// The image files under the subdirectories `dirs[k..]` of a listing.
pub open spec fn collected_dirs(entries: Seq<DirEntry>, dirs: Seq<usize>, exts: Seq<Seq<char>>, k: int) -> Seq<Seq<char>>
    decreases entries, 0int, dirs.len() - k,
{
    if k < 0 || k >= dirs.len() || dirs[k] >= entries.len() {
        Seq::empty()
    } else {
        let e = entries[dirs[k] as int];
        proof {
            broadcast use vstd::std_specs::vec::group_vec_axioms;
            assert(decreases_to!(entries => entries[dirs[k] as int]));
            assert(decreases_to!(e => e.entries));
            assert(decreases_to!(e.entries => e.entries@));
        }
        collected(e.entries@, exts) + collected_dirs(entries, dirs, exts, k + 1)
    }
}

/// The paths of the image files of a listing, in the viewer's order; see
/// `collected`.
pub fn collect_image_files(entries: &Vec<DirEntry>, extensions: &[String]) -> (r: Vec<String>)
    ensures
        r@.map_values(|s: String| s@) == collected(entries@, extensions@.map_values(|e: String| e@)),
    decreases entries@,
{
    let ghost exts = extensions@.map_values(|e: String| e@);
    let _ = entries.len();
    let (dirs0, files0) = partition_entries(entries, extensions);
    proof {
        lemma_dir_indices(entries@, entries@.len() as int);
        lemma_image_indices(entries@, exts, entries@.len() as int);
    }
    let dirs = sort_indices_by_name(entries, dirs0);
    let files = sort_indices_by_name(entries, files0);
    let mut out: Vec<String> = Vec::new();
    let mut k: usize = 0;
    while k < files.len()
        invariant
            k <= files@.len(),
            forall|j: int| 0 <= j < files@.len() ==> #[trigger] files@[j] < entries@.len(),
            out@.map_values(|s: String| s@) == files@.take(k as int).map_values(|i: usize| entries@[i as int].path@),
        decreases files@.len() - k,
    {
        let ghost before = out@;
        out.push(entries[files[k]].path.clone());
        proof {
            assert(files@.take(k + 1) == files@.take(k as int).push(files@[k as int]));
            assert(out@.map_values(|s: String| s@) == before.map_values(|s: String| s@).push(entries@[files@[k as int] as int].path@));
        }
        k = k + 1;
    }
    assert(files@.take(files@.len() as int) == files@);
    let ghost head = out@.map_values(|s: String| s@);
    let mut d: usize = 0;
    assert(collected_dirs(entries@, dirs@, exts, 0) == collected_dirs(entries@, dirs@, exts, 0));
    while d < dirs.len()
        invariant
            d <= dirs@.len(),
            exts == extensions@.map_values(|e: String| e@),
            forall|j: int| 0 <= j < dirs@.len() ==> #[trigger] dirs@[j] < entries@.len(),
            out@.map_values(|s: String| s@) + collected_dirs(entries@, dirs@, exts, d as int)
                == head + collected_dirs(entries@, dirs@, exts, 0),
        decreases dirs@.len() - d,
    {
        let e = &entries[dirs[d]];
        proof {
            broadcast use vstd::std_specs::vec::group_vec_axioms;
            assert(decreases_to!(entries@ => entries@[dirs@[d as int] as int]));
            assert(decreases_to!(entries@[dirs@[d as int] as int] => entries@[dirs@[d as int] as int].entries));
            assert(decreases_to!(entries@[dirs@[d as int] as int].entries => entries@[dirs@[d as int] as int].entries@));
        }
        let sub = collect_image_files(&e.entries, extensions);
        let ghost before = out@;
        let mut m: usize = 0;
        while m < sub.len()
            invariant
                m <= sub@.len(),
                out@.map_values(|s: String| s@) == before.map_values(|s: String| s@) + sub@.take(m as int).map_values(|s: String| s@),
            decreases sub@.len() - m,
        {
            let ghost b2 = out@;
            out.push(sub[m].clone());
            proof {
                assert(sub@.take(m + 1) == sub@.take(m as int).push(sub@[m as int]));
                assert(out@.map_values(|s: String| s@) == b2.map_values(|s: String| s@).push(sub@[m as int]@));
            }
            m = m + 1;
        }
        assert(sub@.take(sub@.len() as int) == sub@);
        d = d + 1;
    }
    assert(out@.map_values(|s: String| s@) == head + collected_dirs(entries@, dirs@, exts, 0));
    out
}

/// Whether a listing holds an image file (a regular file with an image
/// extension), as the check before opening a directory does.
pub fn has_image_file(entries: &Vec<DirEntry>, extensions: &[String]) -> (r: bool)
    ensures
        r == exists|i: int|
            0 <= i < entries@.len() && (#[trigger] entries@[i]).is_file && is_image_path_spec(
                entries@[i].path@,
                extensions@.map_values(|e: String| e@),
            ),
{
    let mut i: usize = 0;
    while i < entries.len()
        invariant
            i <= entries@.len(),
            forall|j: int| 0 <= j < i ==> !((#[trigger] entries@[j]).is_file && is_image_path_spec(
                entries@[j].path@,
                extensions@.map_values(|e: String| e@),
            )),
        decreases entries@.len() - i,
    {
        if entries[i].is_file && is_image_path(entries[i].path.as_str(), extensions) {
            return true;
        }
        i = i + 1;
    }
    false
}

/// Whether two paths are equal as `std::path::Path` compares them (by
/// their components).
pub uninterp spec fn spec_path_eq(a: Seq<char>, b: Seq<char>) -> bool;

/// Calls `PartialEq` of `std::path::Path`. The contract claims only the
/// named `spec_path_eq` of the two texts.
#[verifier::external_body]
fn path_eq(a: &str, b: &str) -> (r: bool)
    ensures
        r == spec_path_eq(a@, b@),
{
    std::path::Path::new(a) == std::path::Path::new(b)
}

/// `r` is where the viewer starts in `files` for an opened file `target`:
/// the first position of a path equal to it, or 0 when there is none.
pub open spec fn start_index_ok(files: Seq<String>, target: Seq<char>, r: usize) -> bool {
    &&& (exists|k: int| 0 <= k < files.len() && spec_path_eq(#[trigger] files[k]@, target)) ==> {
        &&& r < files.len()
        &&& spec_path_eq(files[r as int]@, target)
        &&& forall|m: int| 0 <= m < r ==> !spec_path_eq(#[trigger] files[m]@, target)
    }
    &&& !(exists|k: int| 0 <= k < files.len() && spec_path_eq(#[trigger] files[k]@, target)) ==> r == 0
}

/// Where the viewer starts in `files` for an opened file `target`; see
/// `start_index_ok`.
pub fn resolve_start_index(files: &Vec<String>, target: &str) -> (r: usize)
    ensures
        start_index_ok(files@, target@, r),
{
    let mut i: usize = 0;
    while i < files.len()
        invariant
            i <= files@.len(),
            forall|m: int| 0 <= m < i ==> !spec_path_eq(#[trigger] files@[m]@, target@),
        decreases files@.len() - i,
    {
        if path_eq(files[i].as_str(), target) {
            return i;
        }
        i = i + 1;
    }
    0
}

/// Why no image list could be made.
#[derive(Debug, Clone, Copy, PartialEq, Eq, Structural)]
pub enum StartError {
    /// The current directory holds no image file directly.
    NoImagesInCurrentDirectory,
    /// The directory given holds no image file directly.
    NoImagesInDirectory,
    /// The file given has no parent directory.
    NoParentDirectory,
}

/// Where the image list is read from: the directory, the error when it
/// holds no image file directly (when that is checked), and the file that
/// was opened, if one was.
#[derive(Debug)]
pub struct StartPlan {
    pub dir: String,
    pub check: Option<StartError>,
    pub opened_file: Option<String>,
}

/// The plan for a command-line path (`path_is_dir` when it names a
/// directory): no path reads the current directory, a directory reads
/// itself, both checked for images; a file reads its parent and starts
/// at it, where a bare file name (an empty parent) stands in the current
/// directory.
pub open spec fn start_plan_ok(path: Option<Seq<char>>, path_is_dir: bool, current_dir: Seq<char>, r: Result<StartPlan, StartError>) -> bool {
    match path {
        None => r matches Ok(plan) && plan.dir@ == current_dir && plan.check == Some(StartError::NoImagesInCurrentDirectory)
            && plan.opened_file is None,
        Some(p) => if path_is_dir {
            r matches Ok(plan) && plan.dir@ == p && plan.check == Some(StartError::NoImagesInDirectory)
                && plan.opened_file is None
        } else {
            match crate::paths::spec_parent(p) {
                Some(q) => if q.len() == 0 {
                    r matches Ok(plan) && plan.dir@ == current_dir && plan.check is None && (plan.opened_file matches Some(
                        f,
                    ) && f@ == crate::paths::spec_path_join(current_dir, p))
                } else {
                    r matches Ok(plan) && plan.dir@ == q && plan.check is None && (plan.opened_file matches Some(f)
                        && f@ == p)
                },
                None => r == Err::<StartPlan, StartError>(StartError::NoParentDirectory),
            }
        },
    }
}

/// Plans where the image list comes from; see `start_plan_ok`.
pub fn plan_image_start(path: Option<String>, path_is_dir: bool, current_dir: String) -> (r: Result<StartPlan, StartError>)
    ensures
        start_plan_ok(
            match path {
                Some(p) => Some(p@),
                None => None,
            },
            path_is_dir,
            current_dir@,
            r,
        ),
{
    match path {
        None => Ok(StartPlan { dir: current_dir, check: Some(StartError::NoImagesInCurrentDirectory), opened_file: None }),
        Some(p) => {
            if path_is_dir {
                Ok(StartPlan { dir: p, check: Some(StartError::NoImagesInDirectory), opened_file: None })
            } else {
                match crate::paths::path_parent(p.as_str()) {
                    Some(q) => if crate::text::str_chars(q.as_str()).len() == 0 {
                        let opened = crate::paths::path_join(current_dir.as_str(), p.as_str());
                        Ok(StartPlan { dir: current_dir, check: None, opened_file: Some(opened) })
                    } else {
                        Ok(StartPlan { dir: q, check: None, opened_file: Some(p) })
                    },
                    None => Err(StartError::NoParentDirectory),
                }
            }
        },
    }
}

/// Whether the plan's directory may be read for images: a checked
/// directory whose own listing `top` has no image file fails with the
/// plan's error.
pub fn check_start_dir(plan: &StartPlan, top: &Vec<DirEntry>, extensions: &[String]) -> (r: Result<(), StartError>)
    ensures
        ({
            let exts = extensions@.map_values(|e: String| e@);
            let has_images = exists|i: int|
                0 <= i < top@.len() && (#[trigger] top@[i]).is_file && is_image_path_spec(top@[i].path@, exts);
            match plan.check {
                Some(e) if !has_images => r == Err::<(), StartError>(e),
                _ => r == Ok::<(), StartError>(()),
            }
        }),
{
    match plan.check {
        Some(e) => {
            if !has_image_file(top, extensions) {
                return Err(e);
            }
        },
        None => {},
    }
    Ok(())
}

/// Sorting keeps the number of indices.
proof fn lemma_isort_len(entries: Seq<DirEntry>, idx: Seq<usize>)
    ensures
        isort(entries, idx).len() == idx.len(),
    decreases idx.len(),
{
    if idx.len() > 0 {
        lemma_isort_len(entries, idx.drop_last());
        lemma_insert_pos_bound(entries, isort(entries, idx.drop_last()), idx.last());
    }
}

/// A listing with an image file (not a directory) among its first `n`
/// entries has an image index.
proof fn lemma_image_indices_nonempty(entries: Seq<DirEntry>, exts: Seq<Seq<char>>, n: int, i: int)
    requires
        0 <= i < n,
        !entries[i].is_dir,
        is_image_path_spec(entries[i].path@, exts),
    ensures
        image_indices(entries, exts, n).len() > 0,
    decreases n,
{
    if i < n - 1 {
        lemma_image_indices_nonempty(entries, exts, n - 1, i);
    }
}

/// The image list and where to start, from the plan's directory, whose
/// listing with every subdirectory is `listing`. A checked directory
/// without an image file among its own entries fails with the plan's
/// error; otherwise the images are those of `collected`, and the start is
/// the opened file's position, or 0. Where the directory itself holds an
/// image, the list is not empty and the start lies within it.
pub fn resolve_image_start(plan: &StartPlan, listing: &Vec<DirEntry>, extensions: &[String]) -> (r: Result<
    (Vec<String>, usize),
    StartError,
>)
    ensures
        ({
            let exts = extensions@.map_values(|e: String| e@);
            let has_images = exists|i: int|
                0 <= i < listing@.len() && (#[trigger] listing@[i]).is_file && is_image_path_spec(
                    listing@[i].path@,
                    exts,
                );
            match plan.check {
                Some(e) if !has_images => r == Err::<(Vec<String>, usize), StartError>(e),
                _ => r matches Ok((files, start)) && files@.map_values(|f: String| f@) == collected(listing@, exts)
                    && match plan.opened_file {
                    Some(t) => start_index_ok(files@, t@, start),
                    None => start == 0,
                },
            }
        }),
        ({
            let exts = extensions@.map_values(|e: String| e@);
            (exists|i: int|
                0 <= i < listing@.len() && !(#[trigger] listing@[i]).is_dir && is_image_path_spec(
                    listing@[i].path@,
                    exts,
                )) ==> (r matches Ok((files, start)) ==> files@.len() > 0 && start < files@.len())
        }),
{
    match check_start_dir(plan, listing, extensions) {
        Err(e) => {
            return Err(e);
        },
        Ok(()) => {},
    }
    let files = collect_image_files(listing, extensions);
    let start = match &plan.opened_file {
        Some(t) => resolve_start_index(&files, t.as_str()),
        None => 0,
    };
    proof {
        let exts = extensions@.map_values(|e: String| e@);
        let entries = listing@;
        if exists|i: int| 0 <= i < entries.len() && !(#[trigger] entries[i]).is_dir && is_image_path_spec(
            entries[i].path@,
            exts,
        ) {
            let i = choose|i: int| 0 <= i < entries.len() && !(#[trigger] entries[i]).is_dir && is_image_path_spec(
                entries[i].path@,
                exts,
            );
            let n = entries.len() as int;
            lemma_image_indices_nonempty(entries, exts, n, i);
            lemma_isort_len(entries, image_indices(entries, exts, n));
            assert(collected(entries, exts).len() >= isort(entries, image_indices(entries, exts, n)).len());
            assert(files@.map_values(|f: String| f@).len() == files@.len());
        }
    }
    Ok((files, start))
}

} // verus!
