use vstd::prelude::*;

use crate::laws::{law_counts_by_kind, law_root_size_is_total};
use crate::options::ScanOptions;
use crate::walk::{
    child_indices, children_between, dirs_in, files_size, insert_pos, keep_at_most, lemma_child_step, lemma_file_end, lemma_files_split, lemma_files_within,
    lemma_next_skip, lemma_path_child, lemma_subtree_files, names_view, shown_children,
    sort_by_size, subtree_end, total_size, valid_walk, walk_path, walk_size, WalkItem,
};

verus! {

/// A file or directory of the scanned tree, with the size of everything below it.
pub struct Entry {
    /// The last component of the entry's path.
    pub name: String,
    /// The components of the entry's absolute path: those of the scanned root,
    /// then those below it, the entry's own name last.
    pub path: Vec<String>,
    /// The length of a file, or the total length of the files below a directory.
    pub size: u64,
    /// Whether the entry is a directory.
    pub is_dir: bool,
    /// The largest children of a directory, largest first.
    pub children: Vec<Entry>,
    /// How many levels below the scanned root the entry lies.
    pub depth: usize,
}

/// What a scan reports.
pub struct ScanResult {
    /// The name of the scanned root.
    pub root_name: String,
    /// The size of the scanned root.
    pub root_size: u64,
    /// The kept children of the scanned root, largest first.
    pub entries: Vec<Entry>,
    /// How many files the walk met.
    pub total_files: u64,
    /// How many directories the walk met, the root included when it is one.
    pub total_dirs: u64,
}

/// `e` is the entry of item `i` of the walk `w`: its name, path, size, kind and
/// depth are those of the item, and its children are the entries of the
/// children that the item keeps, in the order `shown_children` gives.
#[verifier::opaque]
pub open spec fn entry_matches(
    e: Entry,
    root: Seq<Seq<char>>,
    w: Seq<WalkItem>,
    i: int,
    top_n: Option<usize>,
) -> bool
    decreases e,
{
    let shown = shown_children(w, i, top_n);
    &&& e.name@ == w[i].name@
    &&& names_view(e.path@) == root + walk_path(w, i)
    &&& e.size == walk_size(w, i)
    &&& e.is_dir == w[i].is_dir
    &&& e.depth == w[i].depth
    &&& e.children@.len() == shown.len()
    &&& forall|k: int|
        0 <= k < shown.len() ==> entry_matches(#[trigger] e.children@[k], root, w, shown[k], top_n)
}

/// `es` are the entries of the items `idx` of the walk `w`, in that order.
pub open spec fn entries_match(
    es: Seq<Entry>,
    root: Seq<Seq<char>>,
    w: Seq<WalkItem>,
    idx: Seq<int>,
    top_n: Option<usize>,
) -> bool {
    &&& es.len() == idx.len()
    &&& forall|k: int| 0 <= k < idx.len() ==> entry_matches(#[trigger] es[k], root, w, idx[k], top_n)
}

/// `r` is what a scan that walked `w` reports.
pub open spec fn scan_matches(
    r: ScanResult,
    root: Seq<Seq<char>>,
    w: Seq<WalkItem>,
    top_n: Option<usize>,
) -> bool {
    &&& r.root_name@ == w[0].name@
    &&& r.root_size == walk_size(w, 0)
    &&& entries_match(r.entries@, root, w, shown_children(w, 0, top_n), top_n)
    &&& r.total_dirs == dirs_in(w, w.len() as int)
    &&& r.total_files == w.len() - dirs_in(w, w.len() as int)
}

/// Builds the entry of item `i`, which lies below the root, and returns it
/// with the index just past its subtree.
fn build_entry(
    items: &Vec<WalkItem>,
    i: usize,
    parent_path: &Vec<String>,
    Ghost(root): Ghost<Seq<Seq<char>>>,
    top_n: Option<usize>,
) -> (res: (Entry, usize))
    requires
        valid_walk(items@),
        total_size(items@) <= u64::MAX,
        0 < i < items.len(),
        names_view(parent_path@).push(items@[i as int].name@) == root + walk_path(items@, i as int),
    ensures
        res.1 == subtree_end(items@, i as int),
        res.0.size == walk_size(items@, i as int),
        entry_matches(res.0, root, items@, i as int, top_n),
    decreases items.len() - i, 1nat,
{
    reveal(entry_matches);
    let item = &items[i];
    let mut path = parent_path.clone();
    let name = item.name.clone();
    path.push(item.name.clone());
    proof {
        assert(names_view(path@) =~= names_view(parent_path@).push(items@[i as int].name@));
    }
    if item.is_dir {
        let (children, end, size) = build_children(items, i, &path, Ghost(root), top_n);
        (Entry { name, path, size, is_dir: true, children, depth: item.depth }, end)
    } else {
        proof {
            lemma_file_end(items@, i as int);
        }
        let children: Vec<Entry> = Vec::new();
        proof {
            assert(child_indices(items@, i as int) =~= Seq::<int>::empty());
            assert(sort_by_size(items@, child_indices(items@, i as int)) =~= Seq::<int>::empty());
        }
        (Entry { name, path, size: item.size, is_dir: false, children, depth: item.depth }, i + 1)
    }
}

/// Inserts the entry of item `j` among entries ordered by size, after those
/// at least as large and before the first smaller one.
fn insert_by_size(
    kids: &mut Vec<Entry>,
    Ghost(order): Ghost<Seq<int>>,
    child: Entry,
    Ghost(w): Ghost<Seq<WalkItem>>,
    Ghost(j): Ghost<int>,
    Ghost(root): Ghost<Seq<Seq<char>>>,
    Ghost(top_n): Ghost<Option<usize>>,
)
    requires
        entries_match(old(kids)@, root, w, order, top_n),
        entry_matches(child, root, w, j, top_n),
    ensures
        entries_match(final(kids)@, root, w, order.insert(insert_pos(w, order, j, 0), j), top_n),
{
    proof {
        reveal(entry_matches);
    }
    let mut p: usize = 0;
    while p < kids.len() && !(kids[p].size < child.size)
        invariant
            p <= kids.len(),
            entries_match(kids@, root, w, order, top_n),
            child.size == walk_size(w, j),
            insert_pos(w, order, j, 0) == insert_pos(w, order, j, p as int),
        decreases kids.len() - p,
    {
        proof {
            reveal(entry_matches);
            assert(entry_matches(kids@[p as int], root, w, order[p as int], top_n));
        }
        p = p + 1;
    }
    let ghost old_kids = kids@;
    kids.insert(p, child);
    proof {
        let new_order = order.insert(p as int, j);
        order.insert_ensures(p as int, j);
        old_kids.insert_ensures(p as int, kids@[p as int]);
        assert forall|k: int| 0 <= k < new_order.len() implies entry_matches(
            #[trigger] kids@[k],
            root,
            w,
            new_order[k],
            top_n,
        ) by {
            if k > p {
                assert(kids@[k] == old_kids[k - 1]);
                assert(new_order[k] == order[k - 1]);
            }
        }
    }
}

/// Drops all but the first `top_n` entries.
fn keep_largest(
    kids: &mut Vec<Entry>,
    Ghost(order): Ghost<Seq<int>>,
    Ghost(w): Ghost<Seq<WalkItem>>,
    Ghost(root): Ghost<Seq<Seq<char>>>,
    top_n: Option<usize>,
)
    requires
        entries_match(old(kids)@, root, w, order, top_n),
    ensures
        entries_match(final(kids)@, root, w, keep_at_most(order, top_n), top_n),
{
    let ghost sorted = kids@;
    match top_n {
        Some(t) => {
            kids.truncate(t);
        },
        None => {},
    }
    proof {
        let kept = keep_at_most(order, top_n);
        assert forall|k: int| 0 <= k < kept.len() implies entry_matches(
            #[trigger] kids@[k],
            root,
            w,
            kept[k],
            top_n,
        ) by {
            assert(kids@[k] == sorted[k]);
            assert(kept[k] == order[k]);
        }
    }
}

/// Builds the kept children of directory `i` and returns them with the index
/// just past the directory's subtree and the directory's size.
fn build_children(
    items: &Vec<WalkItem>,
    i: usize,
    path: &Vec<String>,
    Ghost(root): Ghost<Seq<Seq<char>>>,
    top_n: Option<usize>,
) -> (res: (Vec<Entry>, usize, u64))
    requires
        valid_walk(items@),
        total_size(items@) <= u64::MAX,
        i < items.len(),
        items@[i as int].is_dir,
        names_view(path@) == root + walk_path(items@, i as int),
    ensures
        res.1 == subtree_end(items@, i as int),
        res.2 == walk_size(items@, i as int),
        entries_match(res.0@, root, items@, shown_children(items@, i as int, top_n), top_n),
    decreases items.len() - i, 0nat,
{
    let ghost w = items@;
    let n = items.len();
    let d = items[i].depth;
    let mut kids: Vec<Entry> = Vec::new();
    let ghost mut order: Seq<int> = Seq::empty();
    let mut total: u64 = 0;
    let mut j = i + 1;
    proof {
        assert(children_between(w, d as int, i + 1, j as int) =~= Seq::<int>::empty());
    }
    while j < n && items[j].depth > d
        invariant
            w == items@,
            n == w.len(),
            valid_walk(w),
            total_size(w) <= u64::MAX,
            i < n,
            w[i as int].is_dir,
            d == w[i as int].depth,
            names_view(path@) == root + walk_path(w, i as int),
            i < j <= n,
            forall|k: int| i < k < j ==> #[trigger] w[k].depth > d,
            j < n ==> w[j as int].depth <= d + 1,
            total == files_size(w, i + 1, j as int),
            order == sort_by_size(w, children_between(w, d as int, i + 1, j as int)),
            entries_match(kids@, root, w, order, top_n),
        decreases n - j,
    {
        proof {
            if j == i + 1 {
                assert(w[j as int].depth <= w[j - 1].depth + 1);
            }
            lemma_path_child(w, i as int, j as int);
            assert((root + walk_path(w, i as int)).push(w[j as int].name@) =~= root + walk_path(
                w,
                j as int,
            ));
        }
        let (child, nj) = build_entry(items, j, path, Ghost(root), top_n);
        proof {
            lemma_child_step(w, i as int, j as int);
        }
        let csize = child.size;
        total = total + csize;
        insert_by_size(&mut kids, Ghost(order), child, Ghost(w), Ghost(j as int), Ghost(root), Ghost(top_n));
        proof {
            order = order.insert(insert_pos(w, order, j as int, 0), j as int);
        }
        j = nj;
    }
    proof {
        lemma_next_skip(w, d as int, i + 1, j as int);
        assert(children_between(w, d as int, i + 1, j as int) == child_indices(w, i as int));
    }
    keep_largest(&mut kids, Ghost(order), Ghost(w), Ghost(root), top_n);
    (kids, j, total)
}

/// Counts the directories of the walk.
fn count_dirs(items: &Vec<WalkItem>) -> (r: u64)
    ensures
        r == dirs_in(items@, items.len() as int),
        r <= items.len(),
{
    let mut count: u64 = 0;
    let mut k: usize = 0;
    while k < items.len()
        invariant
            k <= items.len(),
            count == dirs_in(items@, k as int),
            count <= k,
        decreases items.len() - k,
    {
        if items[k].is_dir {
            count = count + 1;
        }
        k = k + 1;
    }
    count
}

/// Turns a pre-order walk of the tree at `root_path` (the components of its
/// absolute path) into the scan's report: the root's size, the
/// children that the root keeps with their own kept children, and the numbers
/// of files and directories met.
pub fn scan_walk(root_path: &Vec<String>, items: &Vec<WalkItem>, options: &ScanOptions) -> (r:
    ScanResult)
    requires
        valid_walk(items@),
        total_size(items@) <= u64::MAX,
    ensures
        scan_matches(r, names_view(root_path@), items@, options.top_n),
        r.root_size == total_size(items@),
        r.total_dirs == items@.filter(|x: WalkItem| x.is_dir).len(),
        r.total_files == items@.filter(|x: WalkItem| !x.is_dir).len(),
{
    proof {
        law_root_size_is_total(items@);
        law_counts_by_kind(items@);
    }
    let dirs = count_dirs(items);
    let files = items.len() as u64 - dirs;
    let root = &items[0];
    let root_name = root.name.clone();
    if root.is_dir {
        let path = root_path.clone();
        proof {
            assert(names_view(path@) =~= names_view(root_path@) + walk_path(items@, 0));
        }
        let (entries, _end, size) = build_children(
            items,
            0,
            &path,
            Ghost(names_view(root_path@)),
            options.top_n,
        );
        ScanResult { root_name, root_size: size, entries, total_files: files, total_dirs: dirs }
    } else {
        let entries: Vec<Entry> = Vec::new();
        proof {
            assert(child_indices(items@, 0) =~= Seq::<int>::empty());
            assert(sort_by_size(items@, child_indices(items@, 0)) =~= Seq::<int>::empty());
        }
        ScanResult {
            root_name,
            root_size: root.size,
            entries,
            total_files: files,
            total_dirs: dirs,
        }
    }
}

/// Whether `items` is a pre-order walk (see `valid_walk`).
pub fn is_valid_walk(items: &Vec<WalkItem>) -> (r: bool)
    ensures
        r == valid_walk(items@),
{
    if items.len() == 0 || items[0].depth != 0 {
        return false;
    }
    let mut k: usize = 1;
    while k < items.len()
        invariant
            1 <= k <= items.len(),
            items@[0].depth == 0,
            forall|i: int| 1 <= i < k ==> 1 <= #[trigger] items@[i].depth <= items@[i - 1].depth + 1,
            forall|i: int|
                1 <= i < k && #[trigger] items@[i].depth == items@[i - 1].depth + 1 ==> items@[i
                    - 1].is_dir,
        decreases items.len() - k,
    {
        let prev = &items[k - 1];
        let cur = &items[k];
        if cur.depth == 0 || cur.depth - 1 > prev.depth {
            assert(!(1 <= items@[k as int].depth <= items@[k - 1].depth + 1));
            return false;
        }
        if cur.depth - 1 == prev.depth && !prev.is_dir {
            assert(items@[k as int].depth == items@[k - 1].depth + 1);
            return false;
        }
        k = k + 1;
    }
    true
}

/// The total length of the files of the walk, when it fits in a `u64`.
fn walk_total(items: &Vec<WalkItem>) -> (r: Option<u64>)
    ensures
        r is Some <==> total_size(items@) <= u64::MAX,
        r matches Some(t) ==> t == total_size(items@),
{
    let ghost w = items@;
    let mut total: u64 = 0;
    let mut k: usize = 0;
    while k < items.len()
        invariant
            w == items@,
            k <= w.len(),
            total == files_size(w, 0, k as int),
        decreases items.len() - k,
    {
        proof {
            lemma_files_split(w, 0, k as int, k + 1);
            assert(files_size(w, k + 1, k + 1) == 0);
        }
        if !items[k].is_dir {
            match total.checked_add(items[k].size) {
                Some(t) => {
                    total = t;
                },
                None => {
                    proof {
                        lemma_files_within(w, 0, 0, k + 1, w.len() as int);
                    }
                    return None;
                },
            }
        }
        k = k + 1;
    }
    Some(total)
}

/// Like `scan_walk`, for any list of items: `None` when they are not a
/// pre-order walk or the total length of their files does not fit in a `u64`.
pub fn scan_walk_checked(
    root_path: &Vec<String>,
    items: &Vec<WalkItem>,
    options: &ScanOptions,
) -> (r: Option<ScanResult>)
    ensures
        r is Some <==> valid_walk(items@) && total_size(items@) <= u64::MAX,
        r matches Some(s) ==> scan_matches(s, names_view(root_path@), items@, options.top_n),
{
    if !is_valid_walk(items) {
        return None;
    }
    match walk_total(items) {
        Some(_) => Some(scan_walk(root_path, items, options)),
        None => None,
    }
}

/// The report on a root that could not be read: nothing was found in it.
pub fn scan_unreadable_root(root_name: String) -> (r: ScanResult)
    ensures
        r.root_name@ == root_name@,
        r.root_size == 0,
        r.entries@.len() == 0,
        r.total_files == 0,
        r.total_dirs == 0,
{
    ScanResult { root_name, root_size: 0, entries: Vec::new(), total_files: 0, total_dirs: 0 }
}

} // verus!
