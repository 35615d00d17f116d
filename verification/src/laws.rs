use vstd::prelude::*;

use crate::walk::{
    child_indices, children_between, files_size, insert_pos, keep_at_most, lemma_children_members,
    lemma_children_none, lemma_children_split, lemma_files_split, lemma_next, lemma_next_skip,
    lemma_path_child, lemma_subtree_files, shown_children, sort_by_size, subtree_end, total_size,
    valid_walk, walk_path, walk_size, WalkItem, dirs_in,
};

verus! {

broadcast use {
    vstd::seq_lib::to_multiset_insert,
    vstd::seq_lib::to_multiset_build,
    vstd::seq_lib::to_multiset_contains,
};

/// The sum of the sizes of the items `s`.
pub open spec fn sizes_sum(w: Seq<WalkItem>, s: Seq<int>) -> nat
    decreases s.len(),
{
    if s.len() == 0 {
        0
    } else {
        walk_size(w, s[0]) + sizes_sum(w, s.drop_first())
    }
}

/// The items `s` are ordered by size, largest first.
pub open spec fn sizes_descending(w: Seq<WalkItem>, s: Seq<int>) -> bool {
    forall|k: int, l: int|
        0 <= k < l < s.len() ==> walk_size(w, #[trigger] s[k]) >= walk_size(w, #[trigger] s[l])
}

/// Items of equal size keep their walk order.
pub open spec fn ties_in_walk_order(w: Seq<WalkItem>, s: Seq<int>) -> bool {
    forall|k: int, l: int|
        0 <= k < l < s.len() && walk_size(w, #[trigger] s[k]) == walk_size(w, #[trigger] s[l])
            ==> s[k] < s[l]
}

// ---------------------------------------------------------------------------
// Sizes

/// The files from a child boundary `j` to the end `e` of the parent's subtree
/// add up to the sizes of the children that start in between.
proof fn lemma_children_sum(w: Seq<WalkItem>, d: int, j: int, e: int)
    requires
        valid_walk(w),
        0 < j <= e <= w.len(),
        forall|k: int| j <= k < e ==> #[trigger] w[k].depth > d,
        j < e ==> w[j].depth == d + 1,
        e < w.len() ==> w[e].depth <= d,
    ensures
        files_size(w, j, e) == sizes_sum(w, children_between(w, d, j, e)),
    decreases e - j,
{
    if j < e {
        let nj = subtree_end(w, j);
        lemma_subtree_files(w, j);
        lemma_next(w, d + 1, j + 1);
        if e < nj {
            assert(w[e].depth > d + 1);
        }
        lemma_files_split(w, j, nj, e);
        lemma_children_split(w, d, j, nj, e);
        lemma_children_split(w, d, j, j + 1, nj);
        lemma_children_none(w, d, j + 1, nj);
        assert(children_between(w, d, j, j + 1) =~= seq![j]);
        lemma_children_sum(w, d, nj, e);
        let rest = children_between(w, d, nj, e);
        assert((seq![j] + rest).drop_first() =~= rest);
    } else {
        assert(children_between(w, d, j, e) =~= Seq::<int>::empty());
    }
}

/// A directory's size is the sum of the sizes of all its children, kept or not.
pub proof fn law_dir_size_is_sum_of_children(w: Seq<WalkItem>, i: int)
    requires
        valid_walk(w),
        0 <= i < w.len(),
        w[i].is_dir,
    ensures
        walk_size(w, i) == sizes_sum(w, child_indices(w, i)),
{
    let d = w[i].depth as int;
    let e = subtree_end(w, i);
    lemma_next(w, d, i + 1);
    if i + 1 < e {
        assert(w[i + 1].depth <= w[i].depth + 1);
    }
    lemma_children_sum(w, d, i + 1, e);
}

/// The root's size is the total length of all files of the walk.
pub proof fn law_root_size_is_total(w: Seq<WalkItem>)
    requires
        valid_walk(w),
    ensures
        walk_size(w, 0) == total_size(w),
{
    if w[0].is_dir {
        assert forall|k: int| 1 <= k < w.len() implies #[trigger] w[k].depth > 0 by {}
        lemma_next_skip(w, 0, 1, w.len() as int);
        lemma_files_split(w, 0, 1, w.len() as int);
        assert(files_size(w, 1, 1) == 0);
    } else {
        if w.len() > 1 {
            assert(w[1].depth <= w[0].depth + 1);
        }
        assert(files_size(w, 1, 1) == 0);
    }
}

/// A child is never larger than its parent directory.
pub proof fn law_child_not_larger(w: Seq<WalkItem>, i: int, k: int)
    requires
        valid_walk(w),
        0 <= i < w.len(),
        0 <= k < child_indices(w, i).len(),
    ensures
        walk_size(w, child_indices(w, i)[k]) <= walk_size(w, i),
{
    law_dir_size_is_sum_of_children(w, i);
    lemma_sum_part(w, child_indices(w, i), k);
}

/// An element's size is at most the sum over a sequence that holds it.
proof fn lemma_sum_part(w: Seq<WalkItem>, s: Seq<int>, k: int)
    requires
        0 <= k < s.len(),
    ensures
        walk_size(w, s[k]) <= sizes_sum(w, s),
    decreases s.len(),
{
    if k > 0 {
        lemma_sum_part(w, s.drop_first(), k - 1);
    }
}

// ---------------------------------------------------------------------------
// Children

/// The children of a directory lie one level below it, inside its subtree,
/// in walk order.
pub proof fn law_children_one_level_below(w: Seq<WalkItem>, i: int)
    requires
        valid_walk(w),
        0 <= i < w.len(),
    ensures
        forall|k: int|
            0 <= k < child_indices(w, i).len() ==> i < #[trigger] child_indices(w, i)[k]
                < subtree_end(w, i) && w[child_indices(w, i)[k]].depth == w[i].depth + 1,
        forall|k: int, l: int|
            0 <= k < l < child_indices(w, i).len() ==> #[trigger] child_indices(w, i)[k]
                < #[trigger] child_indices(w, i)[l],
{
    if w[i].is_dir {
        lemma_children_members(w, w[i].depth as int, i + 1, subtree_end(w, i));
    }
}

/// A child's path is its parent's path followed by the child's name.
pub proof fn law_child_path(w: Seq<WalkItem>, i: int, k: int)
    requires
        valid_walk(w),
        0 <= i < w.len(),
        0 <= k < child_indices(w, i).len(),
    ensures
        walk_path(w, child_indices(w, i)[k]) == walk_path(w, i).push(
            w[child_indices(w, i)[k]].name@,
        ),
{
    law_children_one_level_below(w, i);
    lemma_next(w, w[i].depth as int, i + 1);
    lemma_path_child(w, i, child_indices(w, i)[k]);
}

/// A file has no children.
pub proof fn law_file_has_no_children(w: Seq<WalkItem>, i: int, top_n: Option<usize>)
    requires
        0 <= i < w.len(),
        !w[i].is_dir,
    ensures
        shown_children(w, i, top_n).len() == 0,
{
}

/// Where `k` goes into a sorted sequence: after the elements at least as
/// large, before the first smaller one.
proof fn lemma_insert_pos(w: Seq<WalkItem>, r: Seq<int>, x: int, a: int)
    requires
        0 <= a <= r.len(),
    ensures
        a <= insert_pos(w, r, x, a) <= r.len(),
        forall|q: int|
            a <= q < insert_pos(w, r, x, a) ==> walk_size(w, #[trigger] r[q]) >= walk_size(w, x),
        insert_pos(w, r, x, a) < r.len() ==> walk_size(w, r[insert_pos(w, r, x, a)]) < walk_size(
            w,
            x,
        ),
    decreases r.len() - a,
{
    if a < r.len() && walk_size(w, r[a]) >= walk_size(w, x) {
        lemma_insert_pos(w, r, x, a + 1);
    }
}

/// Sorting keeps the elements, orders them largest first, and keeps equal
/// sizes in the order of increasing input.
proof fn lemma_sort(w: Seq<WalkItem>, s: Seq<int>)
    ensures
        sort_by_size(w, s).to_multiset() == s.to_multiset(),
        sort_by_size(w, s).len() == s.len(),
        sizes_descending(w, sort_by_size(w, s)),
        (forall|k: int, l: int| 0 <= k < l < s.len() ==> #[trigger] s[k] < #[trigger] s[l])
            ==> ties_in_walk_order(w, sort_by_size(w, s)),
    decreases s.len(),
{
    if s.len() > 0 {
        let init = s.drop_last();
        let x = s.last();
        let r = sort_by_size(w, init);
        lemma_sort(w, init);
        let p = insert_pos(w, r, x, 0);
        lemma_insert_pos(w, r, x, 0);
        let t = r.insert(p, x);
        r.insert_ensures(p, x);
        assert(s =~= init.push(x));
        assert(t.to_multiset() == s.to_multiset());
        assert forall|k: int, l: int| 0 <= k < l < t.len() implies walk_size(w, #[trigger] t[k])
            >= walk_size(w, #[trigger] t[l]) by {
            if l < p {
                assert(t[k] == r[k] && t[l] == r[l]);
            } else if l == p {
                assert(t[k] == r[k]);
            } else if k < p {
                assert(t[k] == r[k] && t[l] == r[l - 1]);
            } else if k == p {
                assert(t[l] == r[l - 1]);
                assert(walk_size(w, r[p]) >= walk_size(w, r[l - 1]));
            } else {
                assert(t[k] == r[k - 1] && t[l] == r[l - 1]);
            }
        }
        if forall|k: int, l: int| 0 <= k < l < s.len() ==> #[trigger] s[k] < #[trigger] s[l] {
            assert forall|k: int, l: int| 0 <= k < l < init.len() implies #[trigger] init[k]
                < #[trigger] init[l] by {
                assert(init[k] == s[k] && init[l] == s[l]);
            }
            assert forall|q: int| 0 <= q < r.len() implies #[trigger] r[q] < x by {
                assert(r.to_multiset().count(r[q]) > 0);
                assert(init.to_multiset().count(r[q]) > 0);
                assert(init.contains(r[q]));
                let m = choose|m: int| 0 <= m < init.len() && init[m] == r[q];
                assert(s[m] < s[s.len() - 1]);
            }
            assert forall|k: int, l: int|
                0 <= k < l < t.len() && walk_size(w, #[trigger] t[k]) == walk_size(
                    w,
                    #[trigger] t[l],
                ) implies t[k] < t[l] by {
                if l < p {
                    assert(t[k] == r[k] && t[l] == r[l]);
                } else if l == p {
                    assert(t[k] == r[k]);
                } else if k < p {
                    assert(t[k] == r[k] && t[l] == r[l - 1]);
                    assert(walk_size(w, r[p]) >= walk_size(w, r[l - 1]));
                } else if k == p {
                    assert(t[l] == r[l - 1]);
                    assert(walk_size(w, r[p]) >= walk_size(w, r[l - 1]));
                } else {
                    assert(t[k] == r[k - 1] && t[l] == r[l - 1]);
                }
            }
        }
    }
}

/// A directory keeps its children largest first; children of equal size keep
/// their walk order.
pub proof fn law_children_largest_first(w: Seq<WalkItem>, i: int, top_n: Option<usize>)
    requires
        valid_walk(w),
        0 <= i < w.len(),
    ensures
        sizes_descending(w, shown_children(w, i, top_n)),
        ties_in_walk_order(w, shown_children(w, i, top_n)),
{
    law_children_one_level_below(w, i);
    lemma_sort(w, child_indices(w, i));
    let s = sort_by_size(w, child_indices(w, i));
    let kept = shown_children(w, i, top_n);
    assert forall|k: int, l: int| 0 <= k < l < kept.len() implies walk_size(w, #[trigger] kept[k])
        >= walk_size(w, #[trigger] kept[l]) by {
        assert(kept[k] == s[k] && kept[l] == s[l]);
    }
    assert forall|k: int, l: int|
        0 <= k < l < kept.len() && walk_size(w, #[trigger] kept[k]) == walk_size(
            w,
            #[trigger] kept[l],
        ) implies kept[k] < kept[l] by {
        assert(kept[k] == s[k] && kept[l] == s[l]);
    }
}

/// A directory keeps `top_n` of its children, or all of them when it has
/// fewer or no limit is given; every child it keeps is one of its children,
/// and none is kept twice.
pub proof fn law_kept_children(w: Seq<WalkItem>, i: int, top_n: Option<usize>)
    requires
        valid_walk(w),
        0 <= i < w.len(),
    ensures
        shown_children(w, i, top_n).len() == match top_n {
            Some(n) => if n < child_indices(w, i).len() {
                n as int
            } else {
                child_indices(w, i).len() as int
            },
            None => child_indices(w, i).len() as int,
        },
        forall|k: int|
            0 <= k < shown_children(w, i, top_n).len() ==> child_indices(w, i).contains(
                #[trigger] shown_children(w, i, top_n)[k],
            ),
        shown_children(w, i, top_n).no_duplicates(),
{
    let c = child_indices(w, i);
    let s = sort_by_size(w, c);
    let kept = shown_children(w, i, top_n);
    law_children_one_level_below(w, i);
    lemma_sort(w, c);
    assert forall|k: int| 0 <= k < kept.len() implies c.contains(#[trigger] kept[k]) by {
        assert(kept[k] == s[k]);
        assert(s.to_multiset().count(s[k]) > 0);
        assert(c.to_multiset().count(s[k]) > 0);
    }
    assert(c.no_duplicates());
    c.lemma_multiset_has_no_duplicates();
    s.lemma_multiset_has_no_duplicates_conv();
    assert forall|k: int, l: int| 0 <= k < l < kept.len() implies kept[k] != kept[l] by {
        assert(kept[k] == s[k] && kept[l] == s[l]);
    }
}

/// With a larger limit a directory keeps the same children first, and more.
pub proof fn law_larger_limit_extends(w: Seq<WalkItem>, i: int, small: usize, large: usize)
    requires
        small <= large,
    ensures
        shown_children(w, i, Some(small)).len() <= shown_children(w, i, Some(large)).len(),
        shown_children(w, i, Some(small)) == shown_children(w, i, Some(large)).take(
            shown_children(w, i, Some(small)).len() as int,
        ),
{
    let s = sort_by_size(w, child_indices(w, i));
    assert(keep_at_most(s, Some(small)) =~= keep_at_most(s, Some(large)).take(
        keep_at_most(s, Some(small)).len() as int,
    ));
}

// ---------------------------------------------------------------------------
// Counts

/// Among the first `n` items, those counted as directories are those that
/// are directories, and the rest are the items that are not.
proof fn lemma_dirs_counted(
    w: Seq<WalkItem>,
    n: int,
    is_dir: spec_fn(WalkItem) -> bool,
    not_dir: spec_fn(WalkItem) -> bool,
)
    requires
        0 <= n <= w.len(),
        forall|x: WalkItem| #[trigger] is_dir(x) == x.is_dir,
        forall|x: WalkItem| #[trigger] not_dir(x) == !x.is_dir,
    ensures
        dirs_in(w, n) == w.take(n).filter(is_dir).len(),
        n - dirs_in(w, n) == w.take(n).filter(not_dir).len(),
    decreases n,
{
    reveal(Seq::filter);
    if n > 0 {
        lemma_dirs_counted(w, n - 1, is_dir, not_dir);
        assert(w.take(n).drop_last() =~= w.take(n - 1));
        assert(w.take(n).last() == w[n - 1]);
    } else {
        assert(w.take(n) =~= Seq::<WalkItem>::empty());
    }
}

/// The directory count of a walk is the number of its items that are
/// directories, and the file count is the number of the others, whatever
/// their sizes.
pub proof fn law_counts_by_kind(w: Seq<WalkItem>)
    ensures
        dirs_in(w, w.len() as int) == w.filter(|x: WalkItem| x.is_dir).len(),
        w.len() - dirs_in(w, w.len() as int) == w.filter(|x: WalkItem| !x.is_dir).len(),
{
    lemma_dirs_counted(w, w.len() as int, |x: WalkItem| x.is_dir, |x: WalkItem| !x.is_dir);
    assert(w.take(w.len() as int) =~= w);
}

/// Adding an item to a walk adds one to the directory count when the item is
/// a directory and leaves it unchanged otherwise, whatever the item's size.
pub proof fn law_count_after_push(w: Seq<WalkItem>, x: WalkItem)
    ensures
        x.is_dir ==> dirs_in(w.push(x), w.len() + 1int) == dirs_in(w, w.len() as int) + 1,
        !x.is_dir ==> dirs_in(w.push(x), w.len() + 1int) == dirs_in(w, w.len() as int),
{
    let v = w.push(x);
    lemma_dirs_counted(v, v.len() as int, |y: WalkItem| y.is_dir, |y: WalkItem| !y.is_dir);
    lemma_dirs_counted(w, w.len() as int, |y: WalkItem| y.is_dir, |y: WalkItem| !y.is_dir);
    reveal(Seq::filter);
    assert(v.take(v.len() as int) =~= v);
    assert(w.take(w.len() as int) =~= w);
    assert(v.drop_last() =~= w);
    assert(v.last() == x);
}

} // verus!
