//! Exact cumulative sizes from a flat walk of a directory tree.

use crate::path::{is_prefix, is_strict_ancestor, path_hash, EntryPath};
use std::collections::HashMap;
use vstd::prelude::*;

verus! {

/// One node of the tree, with its size in bytes: a file's own length, or for
/// a directory the lengths of all files beneath it.
#[derive(Debug)]
pub struct Item {
    pub path: EntryPath,
    pub size: u64,
    pub is_dir: bool,
}

/// An item as the contracts see it.
pub struct ItemView {
    pub path: Seq<Seq<char>>,
    pub size: u64,
    pub is_dir: bool,
}

impl View for Item {
    type V = ItemView;

    open spec fn view(&self) -> ItemView {
        ItemView { path: self.path@, size: self.size, is_dir: self.is_dir }
    }
}

/// The views of a sequence of items.
pub open spec fn item_views(items: Seq<Item>) -> Seq<ItemView> {
    Seq::new(items.len(), |i: int| items[i]@)
}

/// What a scan found: every file and every directory that holds a file, the
/// root left out; the bytes of all files; and how many nodes could not be read.
#[derive(Debug)]
pub struct ScanResult {
    pub items: Vec<Item>,
    pub total_size: u64,
    pub errors: u64,
}

/// What the walk met at one node.
#[derive(Debug)]
pub enum Visit {
    /// A file whose length could be read.
    File { path: EntryPath, size: u64 },
    /// A node that could be read and is no file.
    Other,
    /// A node that could not be read.
    Unreadable,
}

/// A file at `file` adds its bytes to the directory `dir`: `dir` lies
/// strictly above the file, and, where the file lies beneath the root, not
/// above the root.
pub open spec fn credits(root: Seq<Seq<char>>, file: Seq<Seq<char>>, dir: Seq<Seq<char>>) -> bool {
    is_strict_ancestor(dir, file) && !(is_strict_ancestor(root, file) && dir.len() < root.len())
}

impl Visit {
    /// The bytes that the visit adds to the grand total.
    pub open spec fn bytes(&self) -> nat {
        match self {
            Visit::File { size, .. } => *size as nat,
            _ => 0,
        }
    }

    /// The bytes that the visit adds to the directory `dir`.
    pub open spec fn bytes_for(&self, root: Seq<Seq<char>>, dir: Seq<Seq<char>>) -> nat {
        match self {
            Visit::File { path, size } => if credits(root, path@, dir) {
                *size as nat
            } else {
                0
            },
            _ => 0,
        }
    }

    /// Whether the visit is a file that adds to the directory `dir`.
    pub open spec fn reaches(&self, root: Seq<Seq<char>>, dir: Seq<Seq<char>>) -> bool {
        match self {
            Visit::File { path, .. } => credits(root, path@, dir),
            _ => false,
        }
    }
}

/// The bytes of all files among the visits.
pub open spec fn file_total(visits: Seq<Visit>) -> nat
    decreases visits.len(),
{
    if visits.len() == 0 {
        0
    } else {
        file_total(visits.drop_last()) + visits.last().bytes()
    }
}

/// How many of the visits could not be read.
pub open spec fn error_count(visits: Seq<Visit>) -> nat
    decreases visits.len(),
{
    if visits.len() == 0 {
        0
    } else {
        error_count(visits.drop_last()) + if visits.last() is Unreadable {
            1nat
        } else {
            0nat
        }
    }
}

/// The files among the visits, in the order of the walk.
pub open spec fn file_items(visits: Seq<Visit>) -> Seq<ItemView>
    decreases visits.len(),
{
    if visits.len() == 0 {
        Seq::empty()
    } else {
        match visits.last() {
            Visit::File { path, size } => file_items(visits.drop_last()).push(
                ItemView { path: path@, size: size, is_dir: false },
            ),
            _ => file_items(visits.drop_last()),
        }
    }
}

/// The bytes of the files that add to the directory `dir`.
pub open spec fn dir_size(root: Seq<Seq<char>>, visits: Seq<Visit>, dir: Seq<Seq<char>>) -> nat
    decreases visits.len(),
{
    if visits.len() == 0 {
        0
    } else {
        dir_size(root, visits.drop_last(), dir) + visits.last().bytes_for(root, dir)
    }
}

/// Whether some file among the visits adds to the directory `dir`.
pub open spec fn dir_reached(root: Seq<Seq<char>>, visits: Seq<Visit>, dir: Seq<Seq<char>>) -> bool {
    exists|i: int| 0 <= i < visits.len() && (#[trigger] visits[i]).reaches(root, dir)
}

/// Whether the scan lists the directory `dir`: some file adds to it, and it
/// is not the root.
pub open spec fn dir_listed(root: Seq<Seq<char>>, visits: Seq<Visit>, dir: Seq<Seq<char>>) -> bool {
    dir != root && dir_reached(root, visits, dir)
}

proof fn lemma_file_total_grows(visits: Seq<Visit>, n: int)
    requires
        0 <= n <= visits.len(),
    ensures
        file_total(visits.take(n)) <= file_total(visits),
    decreases visits.len() - n,
{
    if n < visits.len() {
        lemma_file_total_grows(visits, n + 1);
        assert(visits.take(n + 1).drop_last() =~= visits.take(n));
    } else {
        assert(visits.take(n) =~= visits);
    }
}

proof fn lemma_dir_size_below_total(root: Seq<Seq<char>>, visits: Seq<Visit>, dir: Seq<Seq<char>>)
    ensures
        dir_size(root, visits, dir) <= file_total(visits),
    decreases visits.len(),
{
    if visits.len() > 0 {
        lemma_dir_size_below_total(root, visits.drop_last(), dir);
    }
}

proof fn lemma_error_count_below_len(visits: Seq<Visit>)
    ensures
        error_count(visits) <= visits.len(),
    decreases visits.len(),
{
    if visits.len() > 0 {
        lemma_error_count_below_len(visits.drop_last());
    }
}

/// The place in the walk of the first file that adds to `dir`, counted from
/// 0; it says nothing of a directory that no file adds to.
pub open spec fn first_reach(root: Seq<Seq<char>>, visits: Seq<Visit>, dir: Seq<Seq<char>>) -> int
    decreases visits.len(),
{
    if visits.len() == 0 {
        0
    } else if dir_reached(root, visits.drop_last(), dir) {
        first_reach(root, visits.drop_last(), dir)
    } else {
        visits.len() - 1
    }
}

/// The order in which directories are listed: the one that the walk added to
/// first comes first, and of two that the same file was the first to add to,
/// the deeper one.
pub open spec fn listed_before(
    root: Seq<Seq<char>>,
    visits: Seq<Visit>,
    a: Seq<Seq<char>>,
    b: Seq<Seq<char>>,
) -> bool {
    let fa = first_reach(root, visits, a);
    let fb = first_reach(root, visits, b);
    fa < fb || (fa == fb && a.len() > b.len())
}

proof fn lemma_reached_step(root: Seq<Seq<char>>, visits: Seq<Visit>, dir: Seq<Seq<char>>)
    requires
        visits.len() > 0,
    ensures
        dir_reached(root, visits, dir) <==> dir_reached(root, visits.drop_last(), dir)
            || visits.last().reaches(root, dir),
{
    let before = visits.drop_last();
    if dir_reached(root, visits, dir) {
        let i = choose|i: int| 0 <= i < visits.len() && (#[trigger] visits[i]).reaches(root, dir);
        if i < visits.len() - 1 {
            assert(before[i].reaches(root, dir));
        }
    }
}

proof fn lemma_unreached_is_empty(root: Seq<Seq<char>>, visits: Seq<Visit>, dir: Seq<Seq<char>>)
    requires
        !dir_reached(root, visits, dir),
    ensures
        dir_size(root, visits, dir) == 0,
    decreases visits.len(),
{
    if visits.len() > 0 {
        lemma_unreached_is_empty(root, visits.drop_last(), dir);
    }
}

proof fn lemma_first_reach_bounds(root: Seq<Seq<char>>, visits: Seq<Visit>, dir: Seq<Seq<char>>)
    requires
        dir_reached(root, visits, dir),
    ensures
        0 <= first_reach(root, visits, dir) < visits.len(),
        visits[first_reach(root, visits, dir)].reaches(root, dir),
        forall|j: int|
            0 <= j < first_reach(root, visits, dir) ==> !(#[trigger] visits[j]).reaches(root, dir),
    decreases visits.len(),
{
    let before = visits.drop_last();
    if dir_reached(root, before, dir) {
        lemma_first_reach_bounds(root, before, dir);
    }
    assert forall|j: int| 0 <= j < first_reach(root, visits, dir) implies !(
    #[trigger] visits[j]).reaches(root, dir) by {
        assert(visits[j] == before[j]);
    }
}

/// The running tally: `paths` and `sizes` hold, side by side, the listed
/// directories of `done` in listing order, each with its bytes so far.
spec fn tallied(
    paths: Seq<EntryPath>,
    sizes: Seq<u64>,
    root: Seq<Seq<char>>,
    done: Seq<Visit>,
) -> bool {
    &&& paths.len() == sizes.len()
    &&& forall|x: int|
        0 <= x < paths.len() ==> dir_listed(root, done, (#[trigger] paths[x])@) && sizes[x]
            == dir_size(root, done, paths[x]@)
    &&& forall|x: int, y: int|
        0 <= x < y < paths.len() ==> listed_before(
            root,
            done,
            (#[trigger] paths[x])@,
            (#[trigger] paths[y])@,
        )
    &&& forall|dir: Seq<Seq<char>>| #[trigger]
        dir_listed(root, done, dir) ==> exists|x: int|
            0 <= x < paths.len() && (#[trigger] paths[x])@ == dir
}

/// The tally while the file at `file` with `size` bytes, which follows
/// `done` in `now`, is being added: its ancestors of `low` components or more
/// have their share, the others not yet.
spec fn tallying(
    paths: Seq<EntryPath>,
    sizes: Seq<u64>,
    root: Seq<Seq<char>>,
    done: Seq<Visit>,
    now: Seq<Visit>,
    file: Seq<Seq<char>>,
    size: u64,
    low: int,
) -> bool {
    &&& paths.len() == sizes.len()
    &&& forall|x: int|
        0 <= x < paths.len() ==> {
            let d = (#[trigger] paths[x])@;
            &&& d != root
            &&& dir_reached(root, done, d) || (is_strict_ancestor(d, file) && d.len() >= low)
            &&& sizes[x] == dir_size(root, done, d) + if is_strict_ancestor(d, file) && d.len()
                >= low {
                size as int
            } else {
                0
            }
        }
    &&& forall|x: int, y: int|
        0 <= x < y < paths.len() ==> listed_before(
            root,
            now,
            (#[trigger] paths[x])@,
            (#[trigger] paths[y])@,
        )
    &&& forall|dir: Seq<Seq<char>>| #[trigger]
        dir_listed(root, done, dir) ==> exists|x: int|
            0 <= x < paths.len() && (#[trigger] paths[x])@ == dir
    &&& forall|j: int|
        low <= j < file.len() ==> exists|x: int|
            0 <= x < paths.len() && (#[trigger] paths[x])@ == #[trigger] file.take(j)
}

/// Whether the place `x` is among the places of a bucket.
spec fn holds(bucket: Seq<usize>, x: int) -> bool {
    exists|j: int| 0 <= j < bucket.len() && #[trigger] bucket[j] == x
}

/// The index of the tally: under the hash code of each path it holds the
/// place of that path among `paths`, and it holds no place beyond them.
spec fn indexed(paths: Seq<EntryPath>, index: Map<u64, Vec<usize>>) -> bool {
    &&& forall|x: int|
        0 <= x < paths.len() ==> {
            let h = path_hash((#[trigger] paths[x])@);
            index.contains_key(h) && holds(index[h]@, x)
        }
    &&& forall|h: u64, j: int|
        index.contains_key(h) && 0 <= j < index[h]@.len() ==> (#[trigger] index[h]@[j])
            < paths.len()
}

/// Where the first `k` components of `file` stand among `paths`, if they do.
fn find(
    paths: &Vec<EntryPath>,
    index: &HashMap<u64, Vec<usize>>,
    file: &EntryPath,
    k: usize,
    h: u64,
) -> (r: Option<usize>)
    requires
        indexed(paths@, index@),
        k <= file@.len(),
        h == path_hash(file@.take(k as int)),
    ensures
        match r {
            Some(x) => x < paths@.len() && paths@[x as int]@ == file@.take(k as int),
            None => forall|x: int|
                0 <= x < paths@.len() ==> (#[trigger] paths@[x])@ != file@.take(k as int),
        },
{
    let ghost dir = file@.take(k as int);
    match index.get(&h) {
        None => None,
        Some(bucket) => {
            let mut j: usize = 0;
            while j < bucket.len()
                invariant
                    j <= bucket@.len(),
                    k <= file@.len(),
                    dir == file@.take(k as int),
                    index@.contains_key(h),
                    bucket == index@[h],
                    indexed(paths@, index@),
                    forall|t: int| 0 <= t < j ==> paths@[(#[trigger] bucket@[t]) as int]@ != dir,
                decreases bucket@.len() - j,
            {
                let x = bucket[j];
                if paths[x].depth() == k {
                    if paths[x].agrees_upto(file, k) {
                        return Some(x);
                    }
                    assert(paths@[x as int]@.take(k as int) =~= paths@[x as int]@);
                }
                j += 1;
            }
            None
        },
    }
}

/// Puts a directory that the tally does not hold yet at its end.
fn enter(
    paths: &mut Vec<EntryPath>,
    sizes: &mut Vec<u64>,
    index: &mut HashMap<u64, Vec<usize>>,
    dir: EntryPath,
    size: u64,
    h: u64,
)
    requires
        indexed(old(paths)@, old(index)@),
        h == path_hash(dir@),
    ensures
        final(paths)@ == old(paths)@.push(dir),
        final(sizes)@ == old(sizes)@.push(size),
        indexed(final(paths)@, final(index)@),
{
    let x = paths.len();
    let mut bucket = match index.remove(&h) {
        Some(b) => b,
        None => Vec::new(),
    };
    let ghost held = bucket@;
    bucket.push(x);
    let ghost grown = bucket@;
    index.insert(h, bucket);
    paths.push(dir);
    sizes.push(size);
    proof {
        assert(grown[held.len() as int] == x);
        assert forall|y: int| 0 <= y < paths@.len() implies {
            let g = path_hash((#[trigger] paths@[y])@);
            index@.contains_key(g) && holds(index@[g]@, y)
        } by {
            let g = path_hash(paths@[y]@);
            if y < x {
                if g == h {
                    let t = choose|t: int| 0 <= t < held.len() && #[trigger] held[t] == y;
                    assert(grown[t] == y);
                }
            }
        }
    }
}

/// A visit that is the file at `file` with `size` bytes.
spec fn is_file_visit(v: Visit, file: Seq<Seq<char>>, size: u64) -> bool {
    match v {
        Visit::File { path, size: s } => path@ == file && s == size,
        _ => false,
    }
}

proof fn lemma_tally_new(
    paths: Seq<EntryPath>,
    sizes: Seq<u64>,
    root: Seq<Seq<char>>,
    now: Seq<Visit>,
    file: Seq<Seq<char>>,
    size: u64,
    low: int,
    dir: EntryPath,
)
    requires
        now.len() > 0,
        is_file_visit(now.last(), file, size),
        0 < low <= file.len(),
        tallying(paths, sizes, root, now.drop_last(), now, file, size, low),
        dir@ == file.take(low - 1),
        dir@ != root,
        forall|x: int| 0 <= x < paths.len() ==> (#[trigger] paths[x])@ != dir@,
    ensures
        tallying(paths.push(dir), sizes.push(size), root, now.drop_last(), now, file, size, low - 1),
{
    let done = now.drop_last();
    let d = dir@;
    let paths2 = paths.push(dir);
    if dir_reached(root, done, d) {
        assert(dir_listed(root, done, d));
    }
    lemma_unreached_is_empty(root, done, d);
    assert forall|x: int, y: int| 0 <= x < y < paths2.len() implies listed_before(
        root,
        now,
        (#[trigger] paths2[x])@,
        (#[trigger] paths2[y])@,
    ) by {
        if y >= paths.len() {
            let e = paths[x]@;
            if dir_reached(root, done, e) {
                lemma_first_reach_bounds(root, done, e);
            }
        }
    }
    assert forall|e: Seq<Seq<char>>| #[trigger] dir_listed(root, done, e) implies exists|y: int|
        0 <= y < paths2.len() && (#[trigger] paths2[y])@ == e by {
        let y = choose|y: int| 0 <= y < paths.len() && (#[trigger] paths[y])@ == e;
        assert(paths2[y]@ == e);
    }
    assert forall|j: int| low - 1 <= j < file.len() implies exists|y: int|
        0 <= y < paths2.len() && (#[trigger] paths2[y])@ == #[trigger] file.take(j) by {
        if j == low - 1 {
            assert(paths2[paths.len() as int]@ == file.take(j));
        } else {
            let y = choose|y: int| 0 <= y < paths.len() && (#[trigger] paths[y])@ == file.take(j);
            assert(paths2[y]@ == file.take(j));
        }
    }
}

proof fn lemma_tally_end(
    paths: Seq<EntryPath>,
    sizes: Seq<u64>,
    root: Seq<Seq<char>>,
    now: Seq<Visit>,
    file: Seq<Seq<char>>,
    size: u64,
    low: int,
)
    requires
        now.len() > 0,
        is_file_visit(now.last(), file, size),
        0 <= low <= file.len(),
        tallying(paths, sizes, root, now.drop_last(), now, file, size, low),
        low == 0 || file.take(low - 1) == root,
    ensures
        tallied(paths, sizes, root, now),
{
    let done = now.drop_last();
    assert forall|d: Seq<Seq<char>>| #[trigger] dir_listed(root, now, d) implies exists|x: int|
        0 <= x < paths.len() && (#[trigger] paths[x])@ == d by {
        lemma_reached_step(root, now, d);
        if dir_reached(root, done, d) {
            assert(dir_listed(root, done, d));
        }
    }
}

/// Adds the bytes of one file to every directory above it, from its parent
/// upwards, and stops below the root.
fn credit_ancestors(
    paths: &mut Vec<EntryPath>,
    sizes: &mut Vec<u64>,
    index: &mut HashMap<u64, Vec<usize>>,
    root: &EntryPath,
    file: &EntryPath,
    size: u64,
    Ghost(now): Ghost<Seq<Visit>>,
)
    requires
        now.len() > 0,
        is_file_visit(now.last(), file@, size),
        tallied(old(paths)@, old(sizes)@, root@, now.drop_last()),
        indexed(old(paths)@, old(index)@),
        file_total(now) <= u64::MAX,
    ensures
        tallied(final(paths)@, final(sizes)@, root@, now),
        indexed(final(paths)@, final(index)@),
{
    let ghost done = now.drop_last();
    let n = file.depth();
    let hashes = file.prefix_hashes();
    let mut low: usize = n;
    while low > 0
        invariant_except_break
            tallying(paths@, sizes@, root@, done, now, file@, size, low as int),
        invariant
            low <= n == file@.len(),
            now.len() > 0,
            done == now.drop_last(),
            is_file_visit(now.last(), file@, size),
            file_total(now) <= u64::MAX,
            indexed(paths@, index@),
            hashes@.len() == n + 1,
            forall|k: int| 0 <= k <= n ==> (#[trigger] hashes@[k]) == path_hash(file@.take(k)),
        ensures
            tallying(paths@, sizes@, root@, done, now, file@, size, low as int),
            low == 0 || file@.take(low - 1) == root@,
            indexed(paths@, index@),
        decreases low,
    {
        let k = low - 1;
        if root.depth() == k {
            if file.agrees_upto(root, k) {
                break;
            }
            assert(root@.take(k as int) =~= root@);
        }
        match find(paths, index, file, k, hashes[k]) {
            Some(x) => {
                let held = sizes[x];
                proof {
                    lemma_dir_size_below_total(root@, done, file@.take(k as int));
                }
                sizes.set(x, held + size);
            },
            None => {
                let dir = file.take(k);
                proof {
                    lemma_tally_new(paths@, sizes@, root@, now, file@, size, low as int, dir);
                }
                enter(paths, sizes, index, dir, size, hashes[k]);
            },
        }
        low -= 1;
    }
    proof {
        lemma_tally_end(paths@, sizes@, root@, now, file@, size, low as int);
    }
}

proof fn lemma_tally_idle(
    paths: Seq<EntryPath>,
    sizes: Seq<u64>,
    root: Seq<Seq<char>>,
    now: Seq<Visit>,
)
    requires
        now.len() > 0,
        !(now.last() is File),
        tallied(paths, sizes, root, now.drop_last()),
    ensures
        tallied(paths, sizes, root, now),
{
    let done = now.drop_last();
    assert forall|d: Seq<Seq<char>>|
        dir_reached(root, now, d) == dir_reached(root, done, d) by {
        lemma_reached_step(root, now, d);
    }
    assert forall|d: Seq<Seq<char>>| #[trigger] dir_listed(root, now, d) implies exists|x: int|
        0 <= x < paths.len() && (#[trigger] paths[x])@ == d by {
        assert(dir_listed(root, done, d));
    }
}

/// What a list of items must be to be the listing of a walk: first the files
/// in the order of the walk, then every listed directory once, with its
/// bytes, in listing order.
pub open spec fn is_listing(items: Seq<ItemView>, root: Seq<Seq<char>>, visits: Seq<Visit>) -> bool {
    let n = file_items(visits).len() as int;
    &&& n <= items.len()
    &&& items.take(n) == file_items(visits)
    &&& forall|k: int|
        n <= k < items.len() ==> {
            &&& (#[trigger] items[k]).is_dir
            &&& dir_listed(root, visits, items[k].path)
            &&& items[k].size == dir_size(root, visits, items[k].path)
        }
    &&& forall|j: int, k: int|
        n <= j < k < items.len() ==> listed_before(
            root,
            visits,
            (#[trigger] items[j]).path,
            (#[trigger] items[k]).path,
        )
    &&& forall|dir: Seq<Seq<char>>| #[trigger]
        dir_listed(root, visits, dir) ==> exists|k: int|
            n <= k < items.len() && (#[trigger] items[k]).path == dir
}

/// Whether the bytes of all files among the visits fit the machine's
/// largest number.
pub fn sizes_fit(visits: &Vec<Visit>) -> (r: bool)
    ensures
        r == (file_total(visits@) <= u64::MAX),
{
    let mut total: u64 = 0;
    let mut i: usize = 0;
    while i < visits.len()
        invariant
            i <= visits@.len(),
            total == file_total(visits@.take(i as int)),
        decreases visits@.len() - i,
    {
        proof {
            assert(visits@.take(i + 1).drop_last() =~= visits@.take(i as int));
            lemma_file_total_grows(visits@, i + 1);
        }
        match &visits[i] {
            Visit::File { path: _, size } => {
                if *size > u64::MAX - total {
                    return false;
                }
                total = total + *size;
            },
            _ => {},
        }
        i += 1;
    }
    assert(visits@.take(visits@.len() as int) =~= visits@);
    true
}

/// Turns what a walk of the tree under `root_path` met, node by node, into
/// the sizes of its files and directories.
///
/// Every readable file is listed with its length and adds that length to the
/// grand total and to each directory above it, from its parent up to the
/// root. The directories that hold a file follow the files, the root left
/// out. Unreadable nodes are counted and add nothing.
pub fn scan(root_path: &EntryPath, visits: &Vec<Visit>) -> (r: ScanResult)
    requires
        file_total(visits@) <= u64::MAX,
    ensures
        r.total_size == file_total(visits@),
        r.errors == error_count(visits@),
        is_listing(item_views(r.items@), root_path@, visits@),
{
    let mut items: Vec<Item> = Vec::new();
    let mut paths: Vec<EntryPath> = Vec::new();
    let mut sizes: Vec<u64> = Vec::new();
    let mut index: HashMap<u64, Vec<usize>> = HashMap::new();
    let mut total: u64 = 0;
    let mut errors: u64 = 0;
    let mut i: usize = 0;
    while i < visits.len()
        invariant
            i <= visits@.len(),
            file_total(visits@) <= u64::MAX,
            total == file_total(visits@.take(i as int)),
            errors == error_count(visits@.take(i as int)),
            item_views(items@) == file_items(visits@.take(i as int)),
            tallied(paths@, sizes@, root_path@, visits@.take(i as int)),
            indexed(paths@, index@),
        decreases visits@.len() - i,
    {
        let ghost done = visits@.take(i as int);
        let ghost now = visits@.take(i + 1);
        proof {
            assert(now.drop_last() =~= done);
            lemma_file_total_grows(visits@, i + 1);
            lemma_error_count_below_len(done);
        }
        match &visits[i] {
            Visit::File { path, size } => {
                total = total + *size;
                items.push(Item { path: path.duplicate(), size: *size, is_dir: false });
                credit_ancestors(
                    &mut paths,
                    &mut sizes,
                    &mut index,
                    root_path,
                    path,
                    *size,
                    Ghost(now),
                );
            },
            Visit::Other => {
                proof {
                    lemma_tally_idle(paths@, sizes@, root_path@, now);
                }
            },
            Visit::Unreadable => {
                errors = errors + 1;
                proof {
                    lemma_tally_idle(paths@, sizes@, root_path@, now);
                }
            },
        }
        i += 1;
    }
    assert(visits@.take(visits@.len() as int) =~= visits@);
    let ghost files = items@;
    let mut x: usize = 0;
    while x < paths.len()
        invariant
            x <= paths@.len(),
            paths@.len() == sizes@.len(),
            items@.len() == files.len() + x,
            item_views(files) == file_items(visits@),
            forall|k: int| 0 <= k < files.len() ==> items@[k] == files[k],
            forall|k: int|
                0 <= k < x ==> (#[trigger] items@[files.len() + k])@ == (ItemView {
                    path: paths@[k]@,
                    size: sizes@[k],
                    is_dir: true,
                }),
        decreases paths@.len() - x,
    {
        items.push(Item { path: paths[x].duplicate(), size: sizes[x], is_dir: true });
        x += 1;
    }
    proof {
        let views = item_views(items@);
        let n = file_items(visits@).len() as int;
        assert(views.take(n) =~= file_items(visits@)) by {}
        assert forall|k: int| n <= k < views.len() implies {
            &&& (#[trigger] views[k]).is_dir
            &&& dir_listed(root_path@, visits@, views[k].path)
            &&& views[k].size == dir_size(root_path@, visits@, views[k].path)
        } by {
            assert(items@[files.len() + (k - n)]@.path == paths@[k - n]@);
        }
        assert forall|j: int, k: int| n <= j < k < views.len() implies listed_before(
            root_path@,
            visits@,
            (#[trigger] views[j]).path,
            (#[trigger] views[k]).path,
        ) by {
            assert(items@[files.len() + (j - n)]@.path == paths@[j - n]@);
            assert(items@[files.len() + (k - n)]@.path == paths@[k - n]@);
        }
        assert forall|dir: Seq<Seq<char>>| #[trigger]
            dir_listed(root_path@, visits@, dir) implies exists|k: int|
            n <= k < views.len() && (#[trigger] views[k]).path == dir by {
            let y = choose|y: int| 0 <= y < paths@.len() && (#[trigger] paths@[y])@ == dir;
            assert(views[n + y].path == dir);
        }
    }
    ScanResult { items, total_size: total, errors }
}

/// Every file among the visits lies strictly beneath the root, as in a walk
/// of the tree under the root.
pub open spec fn all_beneath(root: Seq<Seq<char>>, visits: Seq<Visit>) -> bool {
    forall|i: int|
        0 <= i < visits.len() ==> ((#[trigger] visits[i]) matches Visit::File { path, .. }
            ==> is_strict_ancestor(root, path@))
}

impl Visit {
    /// The bytes of the visit if it is a file anywhere beneath `dir`.
    pub open spec fn bytes_under(&self, dir: Seq<Seq<char>>) -> nat {
        match self {
            Visit::File { path, size } => if is_strict_ancestor(dir, path@) {
                *size as nat
            } else {
                0
            },
            _ => 0,
        }
    }
}

/// The bytes of all files that lie anywhere beneath `dir`.
pub open spec fn bytes_beneath(visits: Seq<Visit>, dir: Seq<Seq<char>>) -> nat
    decreases visits.len(),
{
    if visits.len() == 0 {
        0
    } else {
        bytes_beneath(visits.drop_last(), dir) + visits.last().bytes_under(dir)
    }
}

/// In a walk of the tree under the root, the bytes that the root itself
/// gathers are the grand total.
pub proof fn law_root_holds_total(root: Seq<Seq<char>>, visits: Seq<Visit>)
    requires
        all_beneath(root, visits),
    ensures
        dir_size(root, visits, root) == file_total(visits),
    decreases visits.len(),
{
    if visits.len() > 0 {
        let before = visits.drop_last();
        law_root_holds_total(root, before);
    }
}

/// In a walk of the tree under the root, the size of the root and of every
/// directory beneath it is the sum of the sizes of all files anywhere
/// beneath that directory.
pub proof fn law_directory_holds_its_files(
    root: Seq<Seq<char>>,
    visits: Seq<Visit>,
    dir: Seq<Seq<char>>,
)
    requires
        all_beneath(root, visits),
        is_prefix(root, dir),
    ensures
        dir_size(root, visits, dir) == bytes_beneath(visits, dir),
    decreases visits.len(),
{
    if visits.len() > 0 {
        let before = visits.drop_last();
        law_directory_holds_its_files(root, before, dir);
    }
}

/// In a walk of the tree under the root, every directory that is listed
/// lies strictly beneath the root.
pub proof fn law_listed_lie_beneath_root(
    root: Seq<Seq<char>>,
    visits: Seq<Visit>,
    dir: Seq<Seq<char>>,
)
    requires
        all_beneath(root, visits),
        dir_listed(root, visits, dir),
    ensures
        is_strict_ancestor(root, dir),
{
    let i = choose|i: int| 0 <= i < visits.len() && (#[trigger] visits[i]).reaches(root, dir);
    match visits[i] {
        Visit::File { path, .. } => {
            assert(root =~= dir.take(root.len() as int));
        },
        _ => {},
    }
}

/// The sum over the visits of what `weight` gives for each.
pub open spec fn weighed(visits: Seq<Visit>, weight: spec_fn(Visit) -> nat) -> nat
    decreases visits.len(),
{
    if visits.len() == 0 {
        0
    } else {
        weighed(visits.drop_last(), weight) + weight(visits.last())
    }
}

proof fn lemma_weighed_without(visits: Seq<Visit>, weight: spec_fn(Visit) -> nat, k: int)
    requires
        0 <= k < visits.len(),
    ensures
        weighed(visits, weight) == weighed(visits.remove(k), weight) + weight(visits[k]),
    decreases visits.len(),
{
    if k < visits.len() - 1 {
        lemma_weighed_without(visits.drop_last(), weight, k);
        assert(visits.remove(k).drop_last() =~= visits.drop_last().remove(k));
    }
}

proof fn lemma_weighed_any_order(a: Seq<Visit>, b: Seq<Visit>, weight: spec_fn(Visit) -> nat)
    requires
        a.to_multiset() == b.to_multiset(),
    ensures
        weighed(a, weight) == weighed(b, weight),
    decreases a.len(),
{
    broadcast use vstd::seq_lib::group_to_multiset_ensures;

    vstd::seq_lib::to_multiset_len(a);
    if a.len() > 0 {
        let x = a.last();
        assert(b.to_multiset().count(x) > 0);
        let k = choose|k: int| 0 <= k < b.len() && b[k] == x;
        assert(a.remove(a.len() - 1) =~= a.drop_last());
        lemma_weighed_any_order(a.drop_last(), b.remove(k), weight);
        lemma_weighed_without(b, weight, k);
    }
}

proof fn lemma_sums_are_weighed(root: Seq<Seq<char>>, visits: Seq<Visit>, dir: Seq<Seq<char>>)
    ensures
        file_total(visits) == weighed(visits, |v: Visit| v.bytes()),
        error_count(visits) == weighed(
            visits,
            |v: Visit|
                if v is Unreadable {
                    1nat
                } else {
                    0nat
                },
        ),
        dir_size(root, visits, dir) == weighed(visits, |v: Visit| v.bytes_for(root, dir)),
        bytes_beneath(visits, dir) == weighed(visits, |v: Visit| v.bytes_under(dir)),
    decreases visits.len(),
{
    if visits.len() > 0 {
        lemma_sums_are_weighed(root, visits.drop_last(), dir);
    }
}

/// The order of the walk does not count: two walks that met the same nodes
/// give the same grand total, the same count of unreadable nodes, and the
/// same directories with the same sizes.
pub proof fn law_any_order(
    root: Seq<Seq<char>>,
    a: Seq<Visit>,
    b: Seq<Visit>,
    dir: Seq<Seq<char>>,
)
    requires
        a.to_multiset() == b.to_multiset(),
    ensures
        file_total(a) == file_total(b),
        error_count(a) == error_count(b),
        dir_size(root, a, dir) == dir_size(root, b, dir),
        bytes_beneath(a, dir) == bytes_beneath(b, dir),
        dir_listed(root, a, dir) == dir_listed(root, b, dir),
{
    broadcast use vstd::seq_lib::group_to_multiset_ensures;

    lemma_sums_are_weighed(root, a, dir);
    lemma_sums_are_weighed(root, b, dir);
    lemma_weighed_any_order(a, b, |v: Visit| v.bytes());
    lemma_weighed_any_order(
        a,
        b,
        |v: Visit|
            if v is Unreadable {
                1nat
            } else {
                0nat
            },
    );
    lemma_weighed_any_order(a, b, |v: Visit| v.bytes_for(root, dir));
    lemma_weighed_any_order(a, b, |v: Visit| v.bytes_under(dir));
    if dir_reached(root, a, dir) {
        let i = choose|i: int| 0 <= i < a.len() && (#[trigger] a[i]).reaches(root, dir);
        assert(b.to_multiset().count(a[i]) > 0);
    }
    if dir_reached(root, b, dir) {
        let i = choose|i: int| 0 <= i < b.len() && (#[trigger] b[i]).reaches(root, dir);
        assert(a.to_multiset().count(b[i]) > 0);
    }
}

} // verus!
