use vstd::prelude::*;

use crate::options::ScanOptions;
use crate::tree::Entry;
use crate::walk::keep_at_most;

verus! {

/// Whether an entry is shown: it reaches the size threshold, it is a
/// directory or files are shown, and it is not an empty file.
pub open spec fn is_visible(e: Entry, options: ScanOptions) -> bool {
    &&& match options.min_size {
        Some(m) => e.size >= m,
        None => true,
    }
    &&& e.is_dir || options.show_files
    &&& e.size > 0 || e.is_dir
}

/// The indices, in order, of the shown entries among the first `n`.
pub open spec fn visible_prefix(es: Seq<Entry>, options: ScanOptions, n: int) -> Seq<int>
    decreases n,
{
    if n <= 0 {
        Seq::empty()
    } else {
        visible_prefix(es, options, n - 1) + if is_visible(es[n - 1], options) {
            seq![n - 1]
        } else {
            Seq::empty()
        }
    }
}

/// The indices of the entries that are shown: those that pass the filters,
/// at most `top_n` of them.
pub open spec fn visible_indices(es: Seq<Entry>, options: ScanOptions) -> Seq<int> {
    keep_at_most(visible_prefix(es, options, es.len() as int), options.top_n)
}

/// The largest size among the entries `vis`, 0 when there are none.
pub open spec fn max_size(es: Seq<Entry>, vis: Seq<int>) -> u64
    decreases vis.len(),
{
    if vis.len() == 0 {
        0
    } else {
        let m = max_size(es, vis.drop_last());
        let s = es[vis.last()].size;
        if s > m {
            s
        } else {
            m
        }
    }
}

/// The size that a bar of full width stands for among sibling entries: the
/// largest shown size, or 1 when nothing is shown.
pub open spec fn bar_reference(es: Seq<Entry>, vis: Seq<int>) -> u64 {
    if vis.len() == 0 {
        1
    } else {
        max_size(es, vis)
    }
}

/// The text drawn for the ancestors of a line: a blank column below each
/// ancestor that was the last of its siblings, a vertical bar below the others.
pub open spec fn ancestors_text(ancestors: Seq<bool>) -> Seq<char>
    decreases ancestors.len(),
{
    if ancestors.len() == 0 {
        Seq::empty()
    } else {
        ancestors_text(ancestors.drop_last()) + if ancestors.last() {
            "    "@
        } else {
            " │  "@
        }
    }
}

/// The text in front of an entry's icon: the ancestors' columns, then a corner
/// for the last of its siblings or a branch for the others.
pub open spec fn prefix_text(ancestors: Seq<bool>, is_last: bool) -> Seq<char> {
    ancestors_text(ancestors) + if is_last {
        "└── "@
    } else {
        "├── "@
    }
}

/// A vector of indices as integers.
pub open spec fn indices_view(v: Seq<usize>) -> Seq<int> {
    v.map_values(|k: usize| k as int)
}

/// The indices of the entries that are shown, in order.
pub fn visible_entries(entries: &Vec<Entry>, options: &ScanOptions) -> (r: Vec<usize>)
    ensures
        indices_view(r@) == visible_indices(entries@, *options),
{
    let mut r: Vec<usize> = Vec::new();
    let mut k: usize = 0;
    while k < entries.len()
        invariant
            k <= entries.len(),
            indices_view(r@) == visible_prefix(entries@, *options, k as int),
        decreases entries.len() - k,
    {
        let e = &entries[k];
        let size_ok = match options.min_size {
            Some(m) => e.size >= m,
            None => true,
        };
        let ghost before = r@;
        if size_ok && (e.is_dir || options.show_files) && (e.size > 0 || e.is_dir) {
            r.push(k);
            proof {
                assert(indices_view(r@) =~= indices_view(before)
                    + seq![k as int]);
            }
        } else {
            proof {
                assert(visible_prefix(entries@, *options, k + 1) =~= visible_prefix(
                    entries@,
                    *options,
                    k as int,
                ));
            }
        }
        k = k + 1;
    }
    match options.top_n {
        Some(n) => {
            let ghost all = r@;
            r.truncate(n);
            proof {
                assert(indices_view(r@) =~= keep_at_most(
                    indices_view(all),
                    options.top_n,
                ));
            }
        },
        None => {},
    }
    r
}

/// The indices among the first `n` that pass the filters lie below `n`, in
/// increasing order.
pub proof fn lemma_visible_prefix(es: Seq<Entry>, options: ScanOptions, n: int)
    requires
        0 <= n,
    ensures
        forall|t: int|
            0 <= t < visible_prefix(es, options, n).len() ==> 0 <= #[trigger] visible_prefix(
                es,
                options,
                n,
            )[t] < n && is_visible(es[visible_prefix(es, options, n)[t]], options),
        forall|t: int, u: int|
            0 <= t < u < visible_prefix(es, options, n).len() ==> #[trigger] visible_prefix(
                es,
                options,
                n,
            )[t] < #[trigger] visible_prefix(es, options, n)[u],
    decreases n,
{
    if n > 0 {
        lemma_visible_prefix(es, options, n - 1);
        let prev = visible_prefix(es, options, n - 1);
        let cur = visible_prefix(es, options, n);
        if is_visible(es[n - 1], options) {
            assert(cur =~= prev.push(n - 1));
        } else {
            assert(cur =~= prev);
        }
    }
}

/// The shown entries are entries that pass the filters, in their order, at
/// most `top_n` of them.
pub proof fn law_visible_entries(es: Seq<Entry>, options: ScanOptions)
    ensures
        forall|t: int|
            0 <= t < visible_indices(es, options).len() ==> 0 <= #[trigger] visible_indices(
                es,
                options,
            )[t] < es.len() && is_visible(es[visible_indices(es, options)[t]], options),
        forall|t: int, u: int|
            0 <= t < u < visible_indices(es, options).len() ==> #[trigger] visible_indices(
                es,
                options,
            )[t] < #[trigger] visible_indices(es, options)[u],
        options.top_n matches Some(n) ==> visible_indices(es, options).len() <= n,
{
    let vp = visible_prefix(es, options, es.len() as int);
    lemma_visible_prefix(es, options, es.len() as int);
    let vis = visible_indices(es, options);
    assert forall|t: int| 0 <= t < vis.len() implies vis[t] == vp[t] by {}
}

/// With a size threshold every shown entry, file or directory, reaches it;
/// without `show_files` every shown entry is a directory; no shown file is
/// empty.
pub proof fn law_shown_entries_pass_filters(es: Seq<Entry>, options: ScanOptions, t: int)
    requires
        0 <= t < visible_indices(es, options).len(),
    ensures
        0 <= visible_indices(es, options)[t] < es.len(),
        options.min_size matches Some(m) ==> es[visible_indices(es, options)[t]].size >= m,
        !options.show_files ==> es[visible_indices(es, options)[t]].is_dir,
        !es[visible_indices(es, options)[t]].is_dir ==> es[visible_indices(es, options)[t]].size > 0,
{
    law_visible_entries(es, options);
}

/// Without a limit, every entry that reaches the threshold, is a directory
/// or a non-empty file shown with files, is shown.
pub proof fn law_passing_entries_shown(es: Seq<Entry>, options: ScanOptions, k: int)
    requires
        options.top_n is None,
        0 <= k < es.len(),
        options.min_size matches Some(m) ==> es[k].size >= m,
        es[k].is_dir || (options.show_files && es[k].size > 0),
    ensures
        visible_indices(es, options).contains(k),
{
    lemma_visible_contains(es, options, es.len() as int, k);
}

/// An entry among the first `n` that passes the filters is among the indices
/// kept from them.
proof fn lemma_visible_contains(es: Seq<Entry>, options: ScanOptions, n: int, k: int)
    requires
        0 <= k < n,
        is_visible(es[k], options),
    ensures
        visible_prefix(es, options, n).contains(k),
    decreases n,
{
    let prev = visible_prefix(es, options, n - 1);
    if k == n - 1 {
        assert(visible_prefix(es, options, n) =~= prev.push(k));
        assert(visible_prefix(es, options, n)[prev.len() as int] == k);
    } else {
        lemma_visible_contains(es, options, n - 1, k);
        let i = choose|i: int| 0 <= i < prev.len() && prev[i] == k;
        assert(visible_prefix(es, options, n)[i] == k);
    }
}

/// The largest size among entries is one of their sizes and no smaller than
/// any of them.
pub proof fn law_max_size_is_largest(es: Seq<Entry>, vis: Seq<int>)
    ensures
        forall|t: int| 0 <= t < vis.len() ==> es[#[trigger] vis[t]].size <= max_size(es, vis),
        vis.len() > 0 ==> exists|t: int| 0 <= t < vis.len() && es[#[trigger] vis[t]].size == max_size(es, vis),
    decreases vis.len(),
{
    if vis.len() > 0 {
        let init = vis.drop_last();
        law_max_size_is_largest(es, init);
        assert forall|t: int| 0 <= t < vis.len() implies es[#[trigger] vis[t]].size <= max_size(es, vis) by {
            if t < vis.len() - 1 {
                assert(vis[t] == init[t]);
            }
        }
        if es[vis.last()].size > max_size(es, init) || init.len() == 0 {
            assert(es[vis[vis.len() - 1]].size == max_size(es, vis));
        } else {
            let t = choose|t: int| 0 <= t < init.len() && es[#[trigger] init[t]].size == max_size(es, init);
            assert(vis[t] == init[t]);
        }
    }
}

/// The size that a full bar stands for among the shown entries `vis`.
pub fn bar_reference_of(entries: &Vec<Entry>, vis: &Vec<usize>) -> (r: u64)
    requires
        forall|t: int| 0 <= t < vis.len() ==> #[trigger] vis@[t] < entries.len(),
    ensures
        r == bar_reference(entries@, indices_view(vis@)),
{
    let ghost ivis = indices_view(vis@);
    if vis.len() == 0 {
        return 1;
    }
    let mut m: u64 = 0;
    let mut t: usize = 0;
    while t < vis.len()
        invariant
            t <= vis.len(),
            ivis == indices_view(vis@),
            forall|q: int| 0 <= q < vis.len() ==> #[trigger] vis@[q] < entries.len(),
            m == max_size(entries@, ivis.take(t as int)),
        decreases vis.len() - t,
    {
        let s = entries[vis[t]].size;
        proof {
            assert(ivis.take(t + 1).drop_last() =~= ivis.take(t as int));
        }
        if s > m {
            m = s;
        }
        t = t + 1;
    }
    proof {
        assert(ivis.take(vis.len() as int) =~= ivis);
    }
    m
}

/// The text in front of an entry's icon (see `prefix_text`).
pub fn tree_prefix(ancestors: &Vec<bool>, is_last: bool) -> (r: String)
    ensures
        r@ == prefix_text(ancestors@, is_last),
{
    let mut r = String::new();
    let mut k: usize = 0;
    while k < ancestors.len()
        invariant
            k <= ancestors.len(),
            r@ == ancestors_text(ancestors@.take(k as int)),
        decreases ancestors.len() - k,
    {
        proof {
            assert(ancestors@.take(k + 1).drop_last() =~= ancestors@.take(k as int));
        }
        if ancestors[k] {
            r.append("    ");
        } else {
            r.append(" │  ");
        }
        k = k + 1;
    }
    proof {
        assert(ancestors@.take(ancestors.len() as int) =~= ancestors@);
    }
    if is_last {
        r.append("└── ");
    } else {
        r.append("├── ");
    }
    r
}

/// One line of the tree display.
pub struct TreeLine {
    /// The tree drawing in front of the icon.
    pub prefix: String,
    /// Whether the line shows a directory.
    pub is_dir: bool,
    /// The entry's name.
    pub name: String,
    /// The entry's size.
    pub size: u64,
    /// The size that a bar of full width stands for on this line.
    pub reference: u64,
    /// The size of the parent directory, when the line lies below one.
    pub parent_size: Option<u64>,
}

/// What a line of the tree display holds.
pub struct LineModel {
    pub prefix: Seq<char>,
    pub is_dir: bool,
    pub name: Seq<char>,
    pub size: u64,
    pub reference: u64,
    pub parent_size: Option<u64>,
}

impl View for TreeLine {
    type V = LineModel;

    open spec fn view(&self) -> LineModel {
        LineModel {
            prefix: self.prefix@,
            is_dir: self.is_dir,
            name: self.name@,
            size: self.size,
            reference: self.reference,
            parent_size: self.parent_size,
        }
    }
}

/// The views of a list of lines.
pub open spec fn lines_view(ls: Seq<TreeLine>) -> Seq<LineModel> {
    ls.map_values(|l: TreeLine| l@)
}

/// The lines that show the entries `es` below ancestors `ancestors`: one line
/// per shown entry, each directory's line followed by the lines of its own
/// children.
pub open spec fn layout(
    es: Seq<Entry>,
    options: ScanOptions,
    ancestors: Seq<bool>,
    parent_size: Option<u64>,
) -> Seq<LineModel>
    decreases es, 1nat, 0int,
{
    let vis = visible_indices(es, options);
    layout_from(es, options, ancestors, parent_size, vis, bar_reference(es, vis), 0)
}

/// The lines of the shown entries `vis[t..]` and of what lies below them.
pub open spec fn layout_from(
    es: Seq<Entry>,
    options: ScanOptions,
    ancestors: Seq<bool>,
    parent_size: Option<u64>,
    vis: Seq<int>,
    reference: u64,
    t: int,
) -> Seq<LineModel>
    decreases es, 0nat, vis.len() - t,
{
    if t < 0 || t >= vis.len() || !(0 <= vis[t] < es.len()) {
        Seq::empty()
    } else {
        let e = es[vis[t]];
        let is_last = t == vis.len() - 1;
        let line = LineModel {
            prefix: prefix_text(ancestors, is_last),
            is_dir: e.is_dir,
            name: e.name@,
            size: e.size,
            reference,
            parent_size,
        };
        let below = if e.is_dir && e.children@.len() > 0 {
            layout(e.children@, options, ancestors.push(is_last), Some(e.size))
        } else {
            Seq::empty()
        };
        seq![line] + below + layout_from(
            es,
            options,
            ancestors,
            parent_size,
            vis,
            reference,
            t + 1,
        )
    }
}

/// Appends the lines that show `entries` below `ancestors` (see `layout`).
fn layout_into(
    entries: &Vec<Entry>,
    options: &ScanOptions,
    ancestors: &Vec<bool>,
    parent_size: Option<u64>,
    out: &mut Vec<TreeLine>,
)
    ensures
        lines_view(final(out)@) == lines_view(old(out)@) + layout(
            entries@,
            *options,
            ancestors@,
            parent_size,
        ),
    decreases entries@, 1nat, 0int,
{
    let ghost start = lines_view(out@);
    let vis = visible_entries(entries, options);
    let ghost ivis = indices_view(vis@);
    proof {
        lemma_visible_prefix(entries@, *options, entries.len() as int);
        assert forall|t: int| 0 <= t < vis.len() implies #[trigger] vis@[t] < entries.len() by {
            let vp = visible_prefix(entries@, *options, entries.len() as int);
            assert(ivis[t] == vis@[t] as int);
            match options.top_n {
                Some(n) => {
                    if n < vp.len() {
                        assert(ivis == vp.take(n as int));
                    } else {
                        assert(ivis == vp);
                    }
                },
                None => {
                    assert(ivis == vp);
                },
            }
            assert(ivis.len() == vis.len());
            assert(t < vp.len());
            assert(ivis[t] == vp[t]);
        }
    }
    let reference = bar_reference_of(entries, &vis);
    let count = vis.len();
    let mut t: usize = 0;
    while t < count
        invariant
            count == vis.len(),
            ivis == indices_view(vis@),
            ivis == visible_indices(entries@, *options),
            reference == bar_reference(entries@, ivis),
            forall|q: int| 0 <= q < vis.len() ==> #[trigger] vis@[q] < entries.len(),
            t <= count,
            lines_view(out@) + layout_from(
                entries@,
                *options,
                ancestors@,
                parent_size,
                ivis,
                reference,
                t as int,
            ) == start + layout(entries@, *options, ancestors@, parent_size),
        decreases count - t,
    {
        let e = &entries[vis[t]];
        let is_last = t == count - 1;
        let prefix = tree_prefix(ancestors, is_last);
        let ghost before = lines_view(out@);
        out.push(
            TreeLine {
                prefix,
                is_dir: e.is_dir,
                name: e.name.clone(),
                size: e.size,
                reference,
                parent_size,
            },
        );
        proof {
            assert(lines_view(out@) =~= before.push(out@.last()@));
        }
        let ghost mid = lines_view(out@);
        if e.is_dir && !e.children.is_empty() {
            let mut next = ancestors.clone();
            next.push(is_last);
            proof {
                assert(next@ =~= ancestors@.push(is_last));
            }
            layout_into(&e.children, options, &next, Some(e.size), out);
        } else {
            proof {
                assert(lines_view(out@) =~= mid + Seq::<LineModel>::empty());
            }
        }
        proof {
            let rest = layout_from(
                entries@,
                *options,
                ancestors@,
                parent_size,
                ivis,
                reference,
                t + 1,
            );
            let here = layout_from(
                entries@,
                *options,
                ancestors@,
                parent_size,
                ivis,
                reference,
                t as int,
            );
            assert(ivis[t as int] == vis@[t as int] as int);
            let below = if e.is_dir && e.children@.len() > 0 {
                layout(e.children@, *options, ancestors@.push(is_last), Some(e.size))
            } else {
                Seq::empty()
            };
            assert(here == seq![mid.last()] + below + rest);
            assert(lines_view(out@) =~= mid + below);
            assert(mid =~= before.push(mid.last()));
            assert(lines_view(out@) + rest =~= before + here);
        }
        t = t + 1;
    }
    proof {
        assert(layout_from(entries@, *options, ancestors@, parent_size, ivis, reference, t as int)
            =~= Seq::<LineModel>::empty());
        assert(lines_view(out@) =~= start + layout(entries@, *options, ancestors@, parent_size));
    }
}

/// The lines of the tree display of a scan's entries, the top level first.
pub fn tree_lines(entries: &Vec<Entry>, options: &ScanOptions) -> (r: Vec<TreeLine>)
    ensures
        lines_view(r@) == layout(entries@, *options, Seq::empty(), None),
{
    let mut out: Vec<TreeLine> = Vec::new();
    let ancestors: Vec<bool> = Vec::new();
    proof {
        assert(lines_view(out@) =~= Seq::<LineModel>::empty());
    }
    layout_into(entries, options, &ancestors, None, &mut out);
    proof {
        assert(Seq::<LineModel>::empty() + layout(entries@, *options, ancestors@, None) =~= layout(
            entries@,
            *options,
            Seq::empty(),
            None,
        ));
    }
    out
}

/// The line of the `t`-th shown entry of a level comes first among the lines
/// from it on: it names that entry, and it carries the corner exactly when the
/// entry is the last shown one, whatever entries are hidden after it; a
/// branch otherwise.
pub proof fn law_corner_on_last_shown(
    es: Seq<Entry>,
    options: ScanOptions,
    ancestors: Seq<bool>,
    parent_size: Option<u64>,
    t: int,
)
    requires
        0 <= t < visible_indices(es, options).len(),
    ensures
        ({
            let vis = visible_indices(es, options);
            let lines = layout_from(
                es,
                options,
                ancestors,
                parent_size,
                vis,
                bar_reference(es, vis),
                t,
            );
            &&& lines.len() > 0
            &&& lines[0].name == es[vis[t]].name@
            &&& t == vis.len() - 1 ==> lines[0].prefix == ancestors_text(ancestors) + "└── "@
            &&& t < vis.len() - 1 ==> lines[0].prefix == ancestors_text(ancestors) + "├── "@
        }),
{
    law_visible_entries(es, options);
}

/// The lines of a level start with the line of its first shown entry.
pub proof fn law_layout_starts_with_first_shown(
    es: Seq<Entry>,
    options: ScanOptions,
    ancestors: Seq<bool>,
    parent_size: Option<u64>,
)
    ensures
        visible_indices(es, options).len() == 0 ==> layout(es, options, ancestors, parent_size).len()
            == 0,
        visible_indices(es, options).len() > 0 ==> layout(es, options, ancestors, parent_size).len()
            > 0 && layout(es, options, ancestors, parent_size)[0].name == es[visible_indices(
            es,
            options,
        )[0]].name@,
{
    law_visible_entries(es, options);
}

/// Whether `x` begins with `p`.
pub open spec fn starts_with(x: Seq<char>, p: Seq<char>) -> bool {
    p.len() <= x.len() && x.take(p.len() as int) == p
}

/// The column drawn below an entry: blank below the last shown sibling, a
/// vertical bar below the others.
pub open spec fn column_text(is_last: bool) -> Seq<char> {
    if is_last {
        "    "@
    } else {
        " │  "@
    }
}

/// Every line of a level begins with the drawing of its ancestors.
proof fn lemma_layout_prefixed(
    es: Seq<Entry>,
    options: ScanOptions,
    ancestors: Seq<bool>,
    parent_size: Option<u64>,
)
    ensures
        forall|k: int|
            0 <= k < layout(es, options, ancestors, parent_size).len() ==> starts_with(
                #[trigger] layout(es, options, ancestors, parent_size)[k].prefix,
                ancestors_text(ancestors),
            ),
    decreases es, 1nat, 0int,
{
    let vis = visible_indices(es, options);
    lemma_layout_from_prefixed(es, options, ancestors, parent_size, vis, bar_reference(es, vis), 0);
}

/// Every line from the `t`-th shown entry on begins with the drawing of the
/// ancestors.
proof fn lemma_layout_from_prefixed(
    es: Seq<Entry>,
    options: ScanOptions,
    ancestors: Seq<bool>,
    parent_size: Option<u64>,
    vis: Seq<int>,
    reference: u64,
    t: int,
)
    ensures
        forall|k: int|
            0 <= k < layout_from(es, options, ancestors, parent_size, vis, reference, t).len()
                ==> starts_with(
                #[trigger] layout_from(es, options, ancestors, parent_size, vis, reference, t)[k].prefix,
                ancestors_text(ancestors),
            ),
    decreases es, 0nat, vis.len() - t,
{
    if t < 0 || t >= vis.len() || !(0 <= vis[t] < es.len()) {
    } else {
        let e = es[vis[t]];
        let is_last = t == vis.len() - 1;
        let a = ancestors_text(ancestors);
        let lines = layout_from(es, options, ancestors, parent_size, vis, reference, t);
        let rest = layout_from(es, options, ancestors, parent_size, vis, reference, t + 1);
        lemma_layout_from_prefixed(es, options, ancestors, parent_size, vis, reference, t + 1);
        let below = if e.is_dir && e.children@.len() > 0 {
            layout(e.children@, options, ancestors.push(is_last), Some(e.size))
        } else {
            Seq::empty()
        };
        if e.is_dir && e.children@.len() > 0 {
            lemma_layout_prefixed(e.children@, options, ancestors.push(is_last), Some(e.size));
        }
        assert(ancestors.push(is_last).drop_last() =~= ancestors);
        let a2 = ancestors_text(ancestors.push(is_last));
        assert(a2 == a + column_text(is_last));
        assert forall|k: int| 0 <= k < lines.len() implies starts_with(#[trigger] lines[k].prefix, a) by {
            if k == 0 {
                assert(lines[0].prefix == prefix_text(ancestors, is_last));
                assert(prefix_text(ancestors, is_last).take(a.len() as int) =~= a);
            } else if k < 1 + below.len() {
                assert(lines[k] == below[k - 1]);
                assert(starts_with(below[k - 1].prefix, a2));
                assert(below[k - 1].prefix.take(a.len() as int) =~= a2.take(a.len() as int));
                assert(a2.take(a.len() as int) =~= a);
            } else {
                assert(lines[k] == rest[k - 1 - below.len()]);
            }
        }
    }
}

/// The lines below the `t`-th shown entry of a level, those of its own
/// children, continue the ancestors' drawing with a blank column when the
/// entry is the last shown one and a vertical bar otherwise.
pub proof fn law_column_below_entry(
    es: Seq<Entry>,
    options: ScanOptions,
    ancestors: Seq<bool>,
    parent_size: Option<u64>,
    t: int,
)
    requires
        0 <= t < visible_indices(es, options).len(),
    ensures
        ({
            let vis = visible_indices(es, options);
            let r = bar_reference(es, vis);
            let lines = layout_from(es, options, ancestors, parent_size, vis, r, t);
            let rest = layout_from(es, options, ancestors, parent_size, vis, r, t + 1);
            forall|k: int|
                1 <= k < lines.len() - rest.len() ==> starts_with(
                    #[trigger] lines[k].prefix,
                    ancestors_text(ancestors) + column_text(t == vis.len() - 1),
                )
        }),
{
    law_visible_entries(es, options);
    let vis = visible_indices(es, options);
    let e = es[vis[t]];
    let is_last = t == vis.len() - 1;
    if e.is_dir && e.children@.len() > 0 {
        lemma_layout_prefixed(e.children@, options, ancestors.push(is_last), Some(e.size));
        assert(ancestors.push(is_last).drop_last() =~= ancestors);
        let r = bar_reference(es, vis);
        let lines = layout_from(es, options, ancestors, parent_size, vis, r, t);
        let below = layout(e.children@, options, ancestors.push(is_last), Some(e.size));
        assert forall|k: int| 1 <= k < 1 + below.len() implies lines[k] == below[k - 1] by {}
    }
}

} // verus!
