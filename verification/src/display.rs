//! From the full listing to what is shown: filter, rank, prefer the deeper
//! entries over their ancestors, cut to the limit.

use crate::args::{parse_size, Args};
use crate::path::{is_strict_ancestor, EntryPath};
use crate::rank::{
    lemma_pool_step, lemma_ranked_same_items, lemma_ranked_sorted, lesser, placed, rank_place,
    ranked,
};
use crate::scanner::{item_views, Item, ItemView};
use vstd::prelude::*;

verus! {

/// How far `path` lies beneath `root`, counted in components; 0 for a path
/// that is no longer than the root.
pub open spec fn relative_depth(path: Seq<Seq<char>>, root: Seq<Seq<char>>) -> int {
    if path.len() > root.len() {
        path.len() - root.len()
    } else {
        0
    }
}

/// Whether an item passes the two filters: it has at least `min` bytes, and
/// lies at most `depth` beneath the root. A filter that is not set lets
/// every item pass.
pub open spec fn passes(
    item: ItemView,
    root: Seq<Seq<char>>,
    min: Option<u64>,
    depth: Option<usize>,
) -> bool {
    &&& (min matches Some(m) ==> item.size >= m)
    &&& (depth matches Some(d) ==> relative_depth(item.path, root) <= d)
}

/// The items that pass the filters, in their order.
pub open spec fn kept(
    items: Seq<ItemView>,
    root: Seq<Seq<char>>,
    min: Option<u64>,
    depth: Option<usize>,
) -> Seq<ItemView> {
    items.filter(|i: ItemView| passes(i, root, min, depth))
}

/// The pool from which the report is chosen: of the items that pass the
/// filters, the `5 * limit` largest, largest first.
pub open spec fn candidates(
    items: Seq<ItemView>,
    root: Seq<Seq<char>>,
    min: Option<u64>,
    depth: Option<usize>,
    limit: usize,
) -> Seq<ItemView> {
    let r = ranked(kept(items, root, min, depth));
    r.take(lesser(5 * limit, r.len() as int))
}

/// Whether `path` lies strictly above the path of some item of the pool.
pub open spec fn overshadowed(path: Seq<Seq<char>>, pool: Seq<ItemView>) -> bool {
    exists|j: int| 0 <= j < pool.len() && is_strict_ancestor(path, (#[trigger] pool[j]).path)
}

/// The items of `part` that lie above no item of the pool, in their order.
pub open spec fn surviving_of(part: Seq<ItemView>, pool: Seq<ItemView>) -> Seq<ItemView> {
    part.filter(|c: ItemView| !overshadowed(c.path, pool))
}

/// The items of the pool that lie above no other item of it, in their order.
pub open spec fn surviving(pool: Seq<ItemView>) -> Seq<ItemView> {
    surviving_of(pool, pool)
}

/// What is shown: the surviving candidates, at most `limit` of them.
pub open spec fn report_of(
    items: Seq<ItemView>,
    root: Seq<Seq<char>>,
    min: Option<u64>,
    depth: Option<usize>,
    limit: usize,
) -> Seq<ItemView> {
    let s = surviving(candidates(items, root, min, depth, limit));
    s.take(lesser(limit as int, s.len() as int))
}

/// The items that the positions `best` pick out of `items`.
pub open spec fn chosen(items: Seq<Item>, best: Seq<usize>) -> Seq<ItemView> {
    Seq::new(best.len(), |k: int| items[best[k] as int]@)
}

/// Whether the item passes the two filters.
pub fn keeps(item: &Item, root: &EntryPath, min: Option<u64>, depth: Option<usize>) -> (r: bool)
    ensures
        r == passes(item@, root@, min, depth),
{
    let big = match min {
        Some(m) => item.size >= m,
        None => true,
    };
    let near = match depth {
        Some(d) => {
            let n = item.path.depth();
            let r = root.depth();
            n <= r || n - r <= d
        },
        None => true,
    };
    big && near
}

proof fn lemma_kept_step(
    items: Seq<ItemView>,
    root: Seq<Seq<char>>,
    min: Option<u64>,
    depth: Option<usize>,
    i: int,
)
    requires
        0 <= i < items.len(),
    ensures
        kept(items.take(i + 1), root, min, depth) == if passes(items[i], root, min, depth) {
            kept(items.take(i), root, min, depth).push(items[i])
        } else {
            kept(items.take(i), root, min, depth)
        },
{
    reveal(Seq::filter);
    assert(items.take(i + 1).drop_last() =~= items.take(i));
}

/// The positions in `items` of the candidates, largest first.
fn pick_candidates(
    items: &Vec<Item>,
    root: &EntryPath,
    min: Option<u64>,
    depth: Option<usize>,
    limit: usize,
) -> (best: Vec<usize>)
    ensures
        forall|k: int| 0 <= k < best@.len() ==> (#[trigger] best@[k]) < items@.len(),
        chosen(items@, best@) == candidates(item_views(items@), root@, min, depth, limit),
{
    let cap: usize = if limit > usize::MAX / 5 {
        usize::MAX
    } else {
        limit * 5
    };
    let ghost views = item_views(items@);
    let mut best: Vec<usize> = Vec::new();
    let mut i: usize = 0;
    while i < items.len()
        invariant
            i <= items@.len(),
            views == item_views(items@),
            cap == lesser(5 * limit, usize::MAX as int),
            best@.len() <= i,
            forall|k: int| 0 <= k < best@.len() ==> (#[trigger] best@[k]) < i,
            chosen(items@, best@) == ({
                let r = ranked(kept(views.take(i as int), root@, min, depth));
                r.take(lesser(5 * limit, r.len() as int))
            }),
        decreases items@.len() - i,
    {
        let ghost before = kept(views.take(i as int), root@, min, depth);
        let ghost r = ranked(before);
        let ghost cut = chosen(items@, best@);
        let ghost x = views[i as int];
        proof {
            lemma_kept_step(views, root@, min, depth, i as int);
            lemma_ranked_sorted(before);
            lemma_pool_step(r, x, 5 * limit);
        }
        if keeps(&items[i], root, min, depth) {
            let size = items[i].size;
            let mut p: usize = best.len();
            assert(cut.take(p as int) =~= cut);
            while p > 0 && items[best[p - 1]].size < size
                invariant
                    p <= best@.len(),
                    cut == chosen(items@, best@),
                    forall|k: int| 0 <= k < best@.len() ==> (#[trigger] best@[k]) < items@.len(),
                    rank_place(cut, size) == rank_place(cut.take(p as int), size),
                decreases p,
            {
                proof {
                    assert(cut.take(p as int).drop_last() =~= cut.take(p - 1));
                }
                p -= 1;
            }
            proof {
                assert(before.push(x).drop_last() =~= before);
                lemma_ranked_sorted(before.push(x));
            }
            if p < cap {
                best.insert(p, i);
                if best.len() > cap {
                    best.pop();
                }
            }
        }
        i += 1;
    }
    assert(views.take(items@.len() as int) =~= views);
    best
}

proof fn lemma_surviving_step(pool: Seq<ItemView>, a: int)
    requires
        0 <= a < pool.len(),
    ensures
        surviving_of(pool.take(a + 1), pool) == if overshadowed(pool[a].path, pool) {
            surviving_of(pool.take(a), pool)
        } else {
            surviving_of(pool.take(a), pool).push(pool[a])
        },
{
    reveal(Seq::filter);
    assert(pool.take(a + 1).drop_last() =~= pool.take(a));
}

/// Whether the candidate at place `a` lies above another candidate.
fn is_overshadowed(items: &Vec<Item>, best: &Vec<usize>, a: usize) -> (r: bool)
    requires
        a < best@.len(),
        forall|k: int| 0 <= k < best@.len() ==> (#[trigger] best@[k]) < items@.len(),
    ensures
        r == overshadowed(chosen(items@, best@)[a as int].path, chosen(items@, best@)),
{
    let ghost pool = chosen(items@, best@);
    let mine = &items[best[a]].path;
    let mut b: usize = 0;
    while b < best.len()
        invariant
            b <= best@.len(),
            a < best@.len(),
            pool == chosen(items@, best@),
            mine@ == pool[a as int].path,
            forall|k: int| 0 <= k < best@.len() ==> (#[trigger] best@[k]) < items@.len(),
            forall|j: int| 0 <= j < b ==> !is_strict_ancestor(mine@, (#[trigger] pool[j]).path),
        decreases best@.len() - b,
    {
        if mine.is_ancestor_of(&items[best[b]].path) {
            assert(is_strict_ancestor(mine@, pool[b as int].path));
            return true;
        }
        b += 1;
    }
    false
}

/// Chooses what to show of a listing.
///
/// The items that pass the two filters are ranked by size, largest first;
/// the first `5 * limit` of them are the candidates; a candidate that lies
/// above another candidate is left out; of the rest, the first `limit` are
/// shown.
pub fn report(
    items: &Vec<Item>,
    root: &EntryPath,
    min_size: Option<u64>,
    max_depth: Option<usize>,
    limit: usize,
) -> (out: Vec<Item>)
    ensures
        item_views(out@) == report_of(item_views(items@), root@, min_size, max_depth, limit),
{
    let best = pick_candidates(items, root, min_size, max_depth, limit);
    let ghost pool = chosen(items@, best@);
    let mut out: Vec<Item> = Vec::new();
    let mut a: usize = 0;
    while a < best.len()
        invariant
            a <= best@.len(),
            pool == chosen(items@, best@),
            forall|k: int| 0 <= k < best@.len() ==> (#[trigger] best@[k]) < items@.len(),
            item_views(out@) == ({
                let s = surviving_of(pool.take(a as int), pool);
                s.take(lesser(limit as int, s.len() as int))
            }),
        decreases best@.len() - a,
    {
        let ghost s = surviving_of(pool.take(a as int), pool);
        proof {
            lemma_surviving_step(pool, a as int);
        }
        if out.len() < limit {
            if !is_overshadowed(items, &best, a) {
                let from = &items[best[a]];
                let ghost shown = out@;
                proof {
                    assert(item_views(shown).len() == shown.len());
                }
                out.push(
                    Item { path: from.path.duplicate(), size: from.size, is_dir: from.is_dir },
                );
                proof {
                    assert(s.take(s.len() as int) =~= s);
                }
            }
        }
        a += 1;
    }
    assert(pool.take(best@.len() as int) =~= pool);
    out
}

/// How a size is to be set off in the report.
#[derive(Clone, Copy, Debug, PartialEq, Eq, Structural)]
pub enum SizeTone {
    /// More than a gigabyte.
    Huge,
    /// More than a hundred megabytes.
    Large,
    /// Anything smaller.
    Plain,
}

/// The tone of a size.
pub open spec fn tone_of(size: u64) -> SizeTone {
    if size > 1_000_000_000 {
        SizeTone::Huge
    } else if size > 100_000_000 {
        SizeTone::Large
    } else {
        SizeTone::Plain
    }
}

/// One line of the report.
#[derive(Debug)]
pub struct Row {
    pub size_text: String,
    pub tone: SizeTone,
    pub is_dir: bool,
    pub path: EntryPath,
}

/// A line of the report as the contracts see it.
pub struct RowView {
    pub size_text: Seq<char>,
    pub tone: SizeTone,
    pub is_dir: bool,
    pub path: Seq<Seq<char>>,
}

impl View for Row {
    type V = RowView;

    open spec fn view(&self) -> RowView {
        RowView {
            size_text: self.size_text@,
            tone: self.tone,
            is_dir: self.is_dir,
            path: self.path@,
        }
    }
}

/// The whole report: its lines, the number of unreadable nodes where there
/// were any, and the grand total as text.
#[derive(Debug)]
pub struct Report {
    pub rows: Vec<Row>,
    pub warning: Option<u64>,
    pub total_text: String,
}

/// The text that `humansize` writes for a size in decimal units.
pub uninterp spec fn decimal_size_text(size: u64) -> Seq<char>;

/// Calls `humansize::format_size` with the options `DECIMAL`. The text it
/// gives depends on the size alone; the contract gives that text a name and
/// says nothing of what it holds.
#[verifier::external_body]
fn format_decimal(size: u64) -> (text: String)
    ensures
        text@ == decimal_size_text(size),
{
    humansize::format_size(size, humansize::DECIMAL)
}

/// The tone of a size.
pub fn tone(size: u64) -> (t: SizeTone)
    ensures
        t == tone_of(size),
{
    if size > 1_000_000_000 {
        SizeTone::Huge
    } else if size > 100_000_000 {
        SizeTone::Large
    } else {
        SizeTone::Plain
    }
}

/// The line for an item whose size was written as `size_text`.
pub fn row_of(item: Item, size_text: String) -> (row: Row)
    ensures
        row@ == (RowView {
            size_text: size_text@,
            tone: tone_of(item.size),
            is_dir: item.is_dir,
            path: item.path@,
        }),
{
    let t = tone(item.size);
    Row { size_text, tone: t, is_dir: item.is_dir, path: item.path }
}

/// The line that the report holds for a shown item.
pub open spec fn row_for(item: ItemView) -> RowView {
    RowView {
        size_text: decimal_size_text(item.size),
        tone: tone_of(item.size),
        is_dir: item.is_dir,
        path: item.path,
    }
}

/// The report on a listing: one line for each item that `report` chooses
/// under the filters of `args`, in that order; the count of unreadable nodes
/// where it is not 0; and the grand total.
pub fn display_results(items: Vec<Item>, total_size: u64, errors: u64, args: &Args) -> (r: Report)
    ensures
        ({
            let shown = report_of(
                item_views(items@),
                args.path@,
                args.min_bytes(),
                args.depth,
                args.limit,
            );
            &&& r.rows@.len() == shown.len()
            &&& forall|k: int| 0 <= k < shown.len() ==> (#[trigger] r.rows@[k])@ == row_for(shown[k])
        }),
        r.warning == if errors > 0 {
            Some(errors)
        } else {
            None
        },
        r.total_text@ == decimal_size_text(total_size),
{
    let min = match &args.min_size {
        Some(text) => parse_size(text.as_str()),
        None => None,
    };
    let shown = report(&items, &args.path, min, args.depth, args.limit);
    let mut rows: Vec<Row> = Vec::new();
    let mut k: usize = 0;
    while k < shown.len()
        invariant
            k <= shown@.len(),
            rows@.len() == k,
            forall|j: int| 0 <= j < k ==> (#[trigger] rows@[j])@ == row_for(shown@[j]@),
        decreases shown@.len() - k,
    {
        let from = &shown[k];
        let item = Item { path: from.path.duplicate(), size: from.size, is_dir: from.is_dir };
        let text = format_decimal(item.size);
        rows.push(row_of(item, text));
        k += 1;
    }
    assert forall|j: int| 0 <= j < shown@.len() implies item_views(shown@)[j] == shown@[j]@ by {}
    let warning = if errors > 0 {
        Some(errors)
    } else {
        None
    };
    Report { rows, warning, total_text: format_decimal(total_size) }
}

/// Every candidate is an item that passes the filters.
pub proof fn lemma_candidates_are_kept(
    items: Seq<ItemView>,
    root: Seq<Seq<char>>,
    min: Option<u64>,
    depth: Option<usize>,
    limit: usize,
    i: int,
)
    requires
        0 <= i < candidates(items, root, min, depth, limit).len(),
    ensures
        items.contains(candidates(items, root, min, depth, limit)[i]),
        passes(candidates(items, root, min, depth, limit)[i], root, min, depth),
{
    broadcast use vstd::seq_lib::group_to_multiset_ensures;

    let pred = |i: ItemView| passes(i, root, min, depth);
    let k = kept(items, root, min, depth);
    let r = ranked(k);
    let e = candidates(items, root, min, depth, limit)[i];
    lemma_ranked_same_items(k);
    assert(r.to_multiset().count(e) > 0);
    items.lemma_filter_contains_rev(pred, e);
}

/// Every item shown is a candidate above which no candidate lies.
pub proof fn lemma_shown_are_candidates(
    items: Seq<ItemView>,
    root: Seq<Seq<char>>,
    min: Option<u64>,
    depth: Option<usize>,
    limit: usize,
    i: int,
)
    requires
        0 <= i < report_of(items, root, min, depth, limit).len(),
    ensures
        candidates(items, root, min, depth, limit).contains(
            report_of(items, root, min, depth, limit)[i],
        ),
        !overshadowed(
            report_of(items, root, min, depth, limit)[i].path,
            candidates(items, root, min, depth, limit),
        ),
{
    let pool = candidates(items, root, min, depth, limit);
    let pred = |c: ItemView| !overshadowed(c.path, pool);
    let e = report_of(items, root, min, depth, limit)[i];
    pool.lemma_filter_contains_rev(pred, e);
}

/// Of the items shown, none lies strictly above another.
pub proof fn law_shown_are_apart(
    items: Seq<ItemView>,
    root: Seq<Seq<char>>,
    min: Option<u64>,
    depth: Option<usize>,
    limit: usize,
    i: int,
    j: int,
)
    requires
        0 <= i < report_of(items, root, min, depth, limit).len(),
        0 <= j < report_of(items, root, min, depth, limit).len(),
    ensures
        !is_strict_ancestor(
            report_of(items, root, min, depth, limit)[i].path,
            report_of(items, root, min, depth, limit)[j].path,
        ),
{
    lemma_shown_are_candidates(items, root, min, depth, limit, j);
}

/// Every item shown is an item of the listing and passes both filters: it
/// has at least the least size, and it lies no deeper beneath the root than
/// the depth allows. No more items are shown than the limit.
pub proof fn law_shown_pass_filters(
    items: Seq<ItemView>,
    root: Seq<Seq<char>>,
    min: Option<u64>,
    depth: Option<usize>,
    limit: usize,
    i: int,
)
    requires
        0 <= i < report_of(items, root, min, depth, limit).len(),
    ensures
        report_of(items, root, min, depth, limit).len() <= limit,
        items.contains(report_of(items, root, min, depth, limit)[i]),
        min matches Some(m) ==> report_of(items, root, min, depth, limit)[i].size >= m,
        depth matches Some(d) ==> relative_depth(
            report_of(items, root, min, depth, limit)[i].path,
            root,
        ) <= d,
{
    let pool = candidates(items, root, min, depth, limit);
    let out = report_of(items, root, min, depth, limit);
    lemma_shown_are_candidates(items, root, min, depth, limit, i);
    let at = choose|at: int| 0 <= at < pool.len() && pool[at] == out[i];
    lemma_candidates_are_kept(items, root, min, depth, limit, at);
}

/// The root lies 0 beneath itself, and what stands directly in it lies 1
/// beneath it.
pub proof fn law_depth_counts_from_root(root: Seq<Seq<char>>, name: Seq<char>)
    ensures
        relative_depth(root, root) == 0,
        relative_depth(root.push(name), root) == 1,
{
}

/// The items of at least `size` bytes, in their order.
pub open spec fn at_least(items: Seq<ItemView>, size: u64) -> Seq<ItemView> {
    items.filter(|i: ItemView| i.size >= size)
}

/// Raising the least size only takes items away: what passes the higher
/// bound is what passes the lower one, less the items under the higher
/// bound. So neither the items kept nor the candidates grow in number.
pub proof fn law_raising_least_size(
    items: Seq<ItemView>,
    root: Seq<Seq<char>>,
    lower: Option<u64>,
    higher: u64,
    depth: Option<usize>,
    limit: usize,
)
    requires
        lower matches Some(l) ==> l <= higher,
    ensures
        kept(items, root, Some(higher), depth) == at_least(
            kept(items, root, lower, depth),
            higher,
        ),
        kept(items, root, Some(higher), depth).len() <= kept(items, root, lower, depth).len(),
        candidates(items, root, Some(higher), depth, limit).len() <= candidates(
            items,
            root,
            lower,
            depth,
            limit,
        ).len(),
    decreases items.len(),
{
    reveal(Seq::filter);
    if items.len() > 0 {
        law_raising_least_size(items.drop_last(), root, lower, higher, depth, limit);
        let before = kept(items.drop_last(), root, lower, depth);
        if passes(items.last(), root, lower, depth) {
            assert(before.push(items.last()).drop_last() =~= before);
        }
    }
    lemma_ranked_sorted(kept(items, root, lower, depth));
    lemma_ranked_sorted(kept(items, root, Some(higher), depth));
}

/// Lowering the limit never shows more than the new limit allows, and a
/// limit of 0 shows nothing.
pub proof fn law_limit_bounds(
    items: Seq<ItemView>,
    root: Seq<Seq<char>>,
    min: Option<u64>,
    depth: Option<usize>,
    limit: usize,
)
    ensures
        report_of(items, root, min, depth, limit).len() <= limit,
        limit == 0 ==> report_of(items, root, min, depth, limit) == Seq::<ItemView>::empty(),
{
}

} // verus!
