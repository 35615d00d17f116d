use vstd::prelude::*;

verus! {

/// One item of a pre-order walk of a directory tree: the root comes first at
/// depth 0, and every directory comes right before its contents.
pub struct WalkItem {
    /// The last component of the item's path (for the root, its whole name).
    pub name: String,
    /// How many levels below the root the item lies.
    pub depth: usize,
    /// Whether the item is a directory; anything else counts as a file.
    pub is_dir: bool,
    /// The length of a file in bytes; not read for directories.
    pub size: u64,
}

/// `w` is a pre-order walk: it starts with the root at depth 0, every later item
/// lies below the root, each item is at most one level deeper than the one
/// before it, and only a directory is followed by a deeper item.
pub open spec fn valid_walk(w: Seq<WalkItem>) -> bool {
    &&& w.len() > 0
    &&& w[0].depth == 0
    &&& forall|i: int| 1 <= i < w.len() ==> 1 <= #[trigger] w[i].depth <= w[i - 1].depth + 1
    &&& forall|i: int|
        1 <= i < w.len() && #[trigger] w[i].depth == w[i - 1].depth + 1 ==> w[i - 1].is_dir
}

/// The first index at or after `k` whose item lies at depth `d` or above
/// (`w.len()` when there is none).
pub open spec fn next_at_or_above(w: Seq<WalkItem>, d: int, k: int) -> int
    decreases w.len() - k,
{
    if k >= w.len() || w[k].depth <= d {
        k
    } else {
        next_at_or_above(w, d, k + 1)
    }
}

/// The index just past the subtree of item `i`: the items strictly between `i`
/// and it are exactly those that lie below `i`.
pub open spec fn subtree_end(w: Seq<WalkItem>, i: int) -> int {
    next_at_or_above(w, w[i].depth as int, i + 1)
}

/// The total length of the files among the items `lo..hi`.
pub open spec fn files_size(w: Seq<WalkItem>, lo: int, hi: int) -> nat
    decreases hi - lo,
{
    if lo >= hi {
        0
    } else {
        (if w[lo].is_dir { 0 } else { w[lo].size as nat }) + files_size(w, lo + 1, hi)
    }
}

/// The size of item `i`: the length of a file, or for a directory the total
/// length of all files below it.
pub open spec fn walk_size(w: Seq<WalkItem>, i: int) -> nat {
    if w[i].is_dir {
        files_size(w, i + 1, subtree_end(w, i))
    } else {
        w[i].size as nat
    }
}

/// The total length of all files of the walk.
pub open spec fn total_size(w: Seq<WalkItem>) -> nat {
    files_size(w, 0, w.len() as int)
}

/// The indices among `lo..hi`, in walk order, of the items at depth `d + 1`.
pub open spec fn children_between(w: Seq<WalkItem>, d: int, lo: int, hi: int) -> Seq<int>
    decreases hi - lo,
{
    if lo >= hi {
        Seq::empty()
    } else {
        (if w[lo].depth == d + 1 {
            seq![lo]
        } else {
            Seq::empty()
        }) + children_between(w, d, lo + 1, hi)
    }
}

/// The indices of the direct children of item `i`, in walk order.
pub open spec fn child_indices(w: Seq<WalkItem>, i: int) -> Seq<int> {
    if w[i].is_dir {
        children_between(w, w[i].depth as int, i + 1, subtree_end(w, i))
    } else {
        Seq::empty()
    }
}

/// The position at which index `k` goes into `sorted`: the first position at
/// or after `p` whose item is smaller than item `k`.
pub open spec fn insert_pos(w: Seq<WalkItem>, sorted: Seq<int>, k: int, p: int) -> int
    decreases sorted.len() - p,
{
    if p >= sorted.len() || walk_size(w, sorted[p]) < walk_size(w, k) {
        p
    } else {
        insert_pos(w, sorted, k, p + 1)
    }
}

/// The indices `s` ordered by size, largest first; indices of equal size keep
/// their order in `s`.
pub open spec fn sort_by_size(w: Seq<WalkItem>, s: Seq<int>) -> Seq<int>
    decreases s.len(),
{
    if s.len() == 0 {
        s
    } else {
        let r = sort_by_size(w, s.drop_last());
        r.insert(insert_pos(w, r, s.last(), 0), s.last())
    }
}

/// The children of item `i` that its entry keeps: the largest first, at most
/// `top_n` of them when a limit is given.
pub open spec fn shown_children(w: Seq<WalkItem>, i: int, top_n: Option<usize>) -> Seq<int> {
    keep_at_most(sort_by_size(w, child_indices(w, i)), top_n)
}

/// The first `top_n` elements of `s`, or all of them when there are fewer or
/// no limit is given.
pub open spec fn keep_at_most<T>(s: Seq<T>, top_n: Option<usize>) -> Seq<T> {
    match top_n {
        Some(n) => if n < s.len() {
            s.take(n as int)
        } else {
            s
        },
        None => s,
    }
}

/// The index of the last item before index `k` that lies at depth `d`, or -1.
pub open spec fn last_at_depth(w: Seq<WalkItem>, d: int, k: int) -> int
    decreases k,
{
    if k <= 0 {
        -1
    } else if w[k - 1].depth == d {
        k - 1
    } else {
        last_at_depth(w, d, k - 1)
    }
}

/// The names on the way from the root down to item `i`, the root excluded and
/// item `i` included: at level `l` stands the nearest item at that depth.
pub open spec fn walk_path(w: Seq<WalkItem>, i: int) -> Seq<Seq<char>> {
    Seq::new(w[i].depth as nat, |l: int| w[last_at_depth(w, l + 1, i + 1)].name@)
}

/// The number of directories among the first `n` items.
pub open spec fn dirs_in(w: Seq<WalkItem>, n: int) -> nat
    decreases n,
{
    if n <= 0 {
        0
    } else {
        dirs_in(w, n - 1) + if w[n - 1].is_dir { 1nat } else { 0nat }
    }
}

/// The views of a vector of names.
pub open spec fn names_view(v: Seq<String>) -> Seq<Seq<char>> {
    v.map_values(|s: String| s@)
}

// ---------------------------------------------------------------------------
// Facts about the walk's structure.

/// Where the scan from `a` for depth `d` stops, and what it passes over.
pub proof fn lemma_next(w: Seq<WalkItem>, d: int, a: int)
    requires
        0 <= a <= w.len(),
    ensures
        a <= next_at_or_above(w, d, a) <= w.len(),
        forall|k: int| a <= k < next_at_or_above(w, d, a) ==> #[trigger] w[k].depth > d,
        next_at_or_above(w, d, a) < w.len() ==> w[next_at_or_above(w, d, a)].depth <= d,
    decreases w.len() - a,
{
    if a < w.len() && w[a].depth > d {
        lemma_next(w, d, a + 1);
    }
}

/// The scan for depth `d` passes over items that lie deeper than `d`.
pub proof fn lemma_next_skip(w: Seq<WalkItem>, d: int, a: int, b: int)
    requires
        0 <= a <= b <= w.len(),
        forall|k: int| a <= k < b ==> #[trigger] w[k].depth > d,
    ensures
        next_at_or_above(w, d, a) == next_at_or_above(w, d, b),
    decreases b - a,
{
    if a < b {
        lemma_next_skip(w, d, a + 1, b);
    }
}

/// The file total over a range is the sum of the totals of its two parts.
pub proof fn lemma_files_split(w: Seq<WalkItem>, a: int, b: int, c: int)
    requires
        a <= b <= c,
    ensures
        files_size(w, a, c) == files_size(w, a, b) + files_size(w, b, c),
    decreases b - a,
{
    if a < b {
        lemma_files_split(w, a + 1, b, c);
    }
}

/// The file total over a range is at most the total over a range around it.
pub proof fn lemma_files_within(w: Seq<WalkItem>, a: int, b: int, c: int, e: int)
    requires
        a <= b <= c <= e,
    ensures
        files_size(w, b, c) <= files_size(w, a, e),
{
    lemma_files_split(w, a, b, e);
    lemma_files_split(w, b, c, e);
}

/// The children found in a range are those of its first part followed by
/// those of its second part.
pub proof fn lemma_children_split(w: Seq<WalkItem>, d: int, a: int, b: int, c: int)
    requires
        a <= b <= c,
    ensures
        children_between(w, d, a, c) == children_between(w, d, a, b) + children_between(
            w,
            d,
            b,
            c,
        ),
    decreases b - a,
{
    if a < b {
        lemma_children_split(w, d, a + 1, b, c);
        assert(children_between(w, d, a, c) == children_between(w, d, a, b) + children_between(
            w,
            d,
            b,
            c,
        ));
    } else {
        assert(children_between(w, d, a, b) =~= Seq::<int>::empty());
        assert(children_between(w, d, a, c) =~= children_between(w, d, a, b) + children_between(
            w,
            d,
            b,
            c,
        ));
    }
}

/// A range without items at depth `d + 1` holds no children.
pub proof fn lemma_children_none(w: Seq<WalkItem>, d: int, a: int, b: int)
    requires
        forall|k: int| a <= k < b ==> #[trigger] w[k].depth != d + 1,
    ensures
        children_between(w, d, a, b) == Seq::<int>::empty(),
    decreases b - a,
{
    if a < b {
        lemma_children_none(w, d, a + 1, b);
        assert(children_between(w, d, a, b) =~= Seq::<int>::empty());
    }
}

/// The children found in a range are indices within it, in increasing order,
/// of items at depth `d + 1`.
pub proof fn lemma_children_members(w: Seq<WalkItem>, d: int, a: int, b: int)
    ensures
        forall|t: int|
            0 <= t < children_between(w, d, a, b).len() ==> a <= #[trigger] children_between(
                w,
                d,
                a,
                b,
            )[t] < b && w[children_between(w, d, a, b)[t]].depth == d + 1,
        forall|t: int, u: int|
            0 <= t < u < children_between(w, d, a, b).len() ==> #[trigger] children_between(
                w,
                d,
                a,
                b,
            )[t] < #[trigger] children_between(w, d, a, b)[u],
    decreases b - a,
{
    if a < b {
        lemma_children_members(w, d, a + 1, b);
        let rest = children_between(w, d, a + 1, b);
        let c = children_between(w, d, a, b);
        if w[a].depth == d + 1 {
            assert(c =~= seq![a] + rest);
            assert forall|t: int| 0 < t < c.len() implies c[t] == rest[t - 1] by {}
        } else {
            assert(c =~= rest);
        }
    }
}

/// The search for depth `l` backwards from `b` passes over items at other depths.
pub proof fn lemma_last_skip(w: Seq<WalkItem>, l: int, a: int, b: int)
    requires
        0 <= a <= b,
        forall|k: int| a <= k < b ==> #[trigger] w[k].depth != l,
    ensures
        last_at_depth(w, l, b) == last_at_depth(w, l, a),
    decreases b - a,
{
    if a < b {
        lemma_last_skip(w, l, a, b - 1);
    }
}

/// A file has no items below it.
pub proof fn lemma_file_end(w: Seq<WalkItem>, j: int)
    requires
        valid_walk(w),
        0 <= j < w.len(),
        !w[j].is_dir,
    ensures
        subtree_end(w, j) == j + 1,
{
    if j + 1 < w.len() {
        assert(w[j + 1].depth <= w[j].depth + 1);
    }
}

/// The path of a child is the path of its parent followed by the child's name.
pub proof fn lemma_path_child(w: Seq<WalkItem>, i: int, j: int)
    requires
        0 <= i < j < w.len(),
        forall|k: int| i < k < j ==> #[trigger] w[k].depth > w[i].depth,
        w[j].depth == w[i].depth + 1,
    ensures
        walk_path(w, j) == walk_path(w, i).push(w[j].name@),
{
    let d = w[i].depth as int;
    assert forall|l: int| 0 <= l < d implies #[trigger] last_at_depth(w, l + 1, j + 1)
        == last_at_depth(w, l + 1, i + 1) by {
        assert forall|k: int| i + 1 <= k < j + 1 implies #[trigger] w[k].depth != l + 1 by {
            if k < j {
                assert(w[k].depth > d);
            }
        }
        lemma_last_skip(w, l + 1, i + 1, j + 1);
    }
    assert(last_at_depth(w, d + 1, j + 1) == j);
    assert(walk_path(w, j) =~= walk_path(w, i).push(w[j].name@));
}

/// The size of a subtree is the file total over the subtree's range,
/// including the item itself.
pub proof fn lemma_subtree_files(w: Seq<WalkItem>, j: int)
    requires
        valid_walk(w),
        0 <= j < w.len(),
    ensures
        j < subtree_end(w, j) <= w.len(),
        files_size(w, j, subtree_end(w, j)) == walk_size(w, j),
{
    lemma_next(w, w[j].depth as int, j + 1);
    if !w[j].is_dir {
        lemma_file_end(w, j);
        assert(files_size(w, j + 1, j + 1) == 0);
    }
}

/// What building one child of directory `i` adds: the child's subtree ends
/// within the directory's, its files join the directory's total, and its index
/// joins the directory's sorted children at its place by size.
pub proof fn lemma_child_step(w: Seq<WalkItem>, i: int, j: int)
    requires
        valid_walk(w),
        total_size(w) <= u64::MAX,
        0 <= i < j < w.len(),
        forall|k: int| i < k < j ==> #[trigger] w[k].depth > w[i].depth,
        w[j].depth == w[i].depth + 1,
    ensures
        j < subtree_end(w, j) <= w.len(),
        files_size(w, i + 1, subtree_end(w, j)) == files_size(w, i + 1, j) + walk_size(w, j),
        files_size(w, i + 1, subtree_end(w, j)) <= u64::MAX,
        forall|k: int| i < k < subtree_end(w, j) ==> #[trigger] w[k].depth > w[i].depth,
        subtree_end(w, j) < w.len() ==> w[subtree_end(w, j)].depth <= w[i].depth + 1,
        ({
            let r = sort_by_size(w, children_between(w, w[i].depth as int, i + 1, j));
            sort_by_size(w, children_between(w, w[i].depth as int, i + 1, subtree_end(w, j)))
                == r.insert(insert_pos(w, r, j, 0), j)
        }),
{
    let d = w[i].depth as int;
    let nj = subtree_end(w, j);
    lemma_subtree_files(w, j);
    lemma_next(w, d + 1, j + 1);
    lemma_files_split(w, i + 1, j, nj);
    lemma_files_within(w, 0, i + 1, nj, w.len() as int);
    lemma_children_split(w, d, i + 1, j, nj);
    lemma_children_split(w, d, j, j + 1, nj);
    lemma_children_none(w, d, j + 1, nj);
    assert(children_between(w, d, j, j + 1) =~= seq![j]);
    let s = children_between(w, d, i + 1, nj);
    assert(s.drop_last() =~= children_between(w, d, i + 1, j));
    assert(s.last() == j);
    assert forall|k: int| i < k < nj implies #[trigger] w[k].depth > d by {
        if k > j {
            assert(w[k].depth > d + 1);
        }
    }
}

} // verus!
