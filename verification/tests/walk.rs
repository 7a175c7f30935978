use spacehog::args::Args;
use spacehog::display::{display_results, keeps, report, row_of, tone, SizeTone};
use spacehog::path::EntryPath;
use spacehog::scanner::{scan, sizes_fit, Item, ScanResult, Visit};

fn path(text: &str) -> EntryPath {
    if text.is_empty() {
        return EntryPath::new(Vec::new());
    }
    EntryPath::new(text.split('/').map(String::from).collect())
}

fn file(text: &str, size: u64) -> Visit {
    Visit::File { path: path(text), size }
}

fn text_of(p: &EntryPath) -> String {
    p.components.join("/")
}

fn listing(r: &[Item]) -> Vec<(String, u64, bool)> {
    r.iter().map(|i| (text_of(&i.path), i.size, i.is_dir)).collect()
}

fn small_tree() -> Vec<Visit> {
    vec![
        Visit::Other,
        Visit::Other,
        file("root/a/b.txt", 500),
        file("root/a/c.txt", 300),
        file("root/d.txt", 200),
    ]
}

fn scanned() -> ScanResult {
    scan(&path("root"), &small_tree())
}

#[test]
fn scan_sums_files_and_directories() {
    let r = scanned();
    assert_eq!(r.total_size, 1000);
    assert_eq!(r.errors, 0);
    assert_eq!(
        listing(&r.items),
        vec![
            ("root/a/b.txt".to_string(), 500, false),
            ("root/a/c.txt".to_string(), 300, false),
            ("root/d.txt".to_string(), 200, false),
            ("root/a".to_string(), 800, true),
        ]
    );
}

#[test]
fn report_prefers_children() {
    let r = scanned();
    let shown = report(&r.items, &path("root"), None, None, 10);
    assert_eq!(
        listing(&shown),
        vec![
            ("root/a/b.txt".to_string(), 500, false),
            ("root/a/c.txt".to_string(), 300, false),
            ("root/d.txt".to_string(), 200, false),
        ]
    );
}

#[test]
fn report_with_least_size() {
    let r = scanned();
    let args = Args {
        path: path("root"),
        limit: 10,
        min_size: Some("400".to_string()),
        depth: None,
    };
    let total = r.total_size;
    let shown = display_results(r.items, total, r.errors, &args);
    assert_eq!(shown.rows.len(), 1);
    assert_eq!(text_of(&shown.rows[0].path), "root/a/b.txt");
    assert_eq!(shown.rows[0].size_text, "500 B");
    assert_eq!(shown.total_text, "1 kB");
    assert_eq!(shown.warning, None);
}

#[test]
fn directory_stays_when_no_child_is_a_candidate() {
    let r = scanned();
    let shown = report(&r.items, &path("root"), Some(600), None, 10);
    assert_eq!(listing(&shown), vec![("root/a".to_string(), 800, true)]);
}

#[test]
fn limit_of_nothing_shows_nothing() {
    let r = scanned();
    assert!(report(&r.items, &path("root"), None, None, 0).is_empty());
    assert!(report(&r.items, &path("root"), Some(1), Some(1), 0).is_empty());
}

#[test]
fn limit_cuts_after_suppression() {
    let r = scanned();
    let shown = report(&r.items, &path("root"), None, None, 2);
    assert_eq!(
        listing(&shown),
        vec![("root/a/b.txt".to_string(), 500, false), ("root/a/c.txt".to_string(), 300, false)]
    );
}

#[test]
fn pool_is_five_times_the_limit() {
    let mut visits = Vec::new();
    for k in 0..10u64 {
        visits.push(file(&format!("r/d/c{}", k), 10));
    }
    visits.push(file("r/e1", 50));
    visits.push(file("r/e2", 40));
    visits.push(file("r/e3", 30));
    visits.push(file("r/e4", 20));
    let r = scan(&path("r"), &visits);
    let one = report(&r.items, &path("r"), None, None, 1);
    assert_eq!(listing(&one), vec![("r/d".to_string(), 100, true)]);
    let two = report(&r.items, &path("r"), None, None, 2);
    assert_eq!(
        listing(&two),
        vec![("r/e1".to_string(), 50, false), ("r/e2".to_string(), 40, false)]
    );
}

#[test]
fn chain_of_directories_leaves_the_file() {
    let r = scan(&path("r"), &vec![file("r/a/b/c/d/e/f", 10)]);
    assert_eq!(r.items.len(), 6);
    let shown = report(&r.items, &path("r"), None, None, 1);
    assert_eq!(listing(&shown), vec![("r/a/b/c/d/e/f".to_string(), 10, false)]);
    let short = report(&r.items, &path("r"), None, Some(2), 3);
    assert_eq!(listing(&short), vec![("r/a/b".to_string(), 10, true)]);
}

#[test]
fn depth_filter_counts_from_the_root() {
    let r = scanned();
    let shown = report(&r.items, &path("root"), None, Some(1), 10);
    assert_eq!(
        listing(&shown),
        vec![("root/a".to_string(), 800, true), ("root/d.txt".to_string(), 200, false)]
    );
    let all = report(&r.items, &path("root"), None, Some(2), 10);
    assert_eq!(all.len(), 3);
    let none_dropped_above = report(&r.items, &path("x/y/z/w"), None, Some(0), 10);
    assert_eq!(none_dropped_above.len(), 3);
}

#[test]
fn keeps_applies_both_filters() {
    let item = Item { path: path("root/a/b.txt"), size: 500, is_dir: false };
    assert!(keeps(&item, &path("root"), None, None));
    assert!(keeps(&item, &path("root"), Some(500), Some(2)));
    assert!(!keeps(&item, &path("root"), Some(501), Some(2)));
    assert!(!keeps(&item, &path("root"), Some(500), Some(1)));
    assert!(keeps(&item, &path("p/q/r"), None, Some(0)));
}

#[test]
fn equal_sizes_keep_their_order() {
    let visits = vec![file("r/x", 5), file("r/y", 7), file("r/z", 5), file("r/w", 7)];
    let r = scan(&path("r"), &visits);
    let shown = report(&r.items, &path("r"), None, None, 10);
    assert_eq!(
        listing(&shown),
        vec![
            ("r/y".to_string(), 7, false),
            ("r/w".to_string(), 7, false),
            ("r/x".to_string(), 5, false),
            ("r/z".to_string(), 5, false),
        ]
    );
}

#[test]
fn unreadable_nodes_are_counted() {
    let visits = vec![Visit::Unreadable, file("r/x", 5), Visit::Unreadable, Visit::Other];
    let r = scan(&path("r"), &visits);
    assert_eq!(r.errors, 2);
    assert_eq!(r.total_size, 5);
    assert_eq!(listing(&r.items), vec![("r/x".to_string(), 5, false)]);
    let args = Args { path: path("r"), limit: 10, min_size: None, depth: None };
    let shown = display_results(r.items, 5, 2, &args);
    assert_eq!(shown.warning, Some(2));
}

#[test]
fn nothing_walked_gives_nothing() {
    let r = scan(&path("r"), &Vec::new());
    assert_eq!(r.total_size, 0);
    assert_eq!(r.errors, 0);
    assert!(r.items.is_empty());
}

#[test]
fn directories_come_in_the_order_they_were_reached() {
    let visits = vec![file("r/a/b/c/f", 1), file("r/z/g", 2), file("r/a/h", 4), file("r/a/b/i", 8)];
    let r = scan(&path("r"), &visits);
    assert_eq!(r.total_size, 15);
    assert_eq!(
        listing(&r.items)[4..].to_vec(),
        vec![
            ("r/a/b/c".to_string(), 1, true),
            ("r/a/b".to_string(), 9, true),
            ("r/a".to_string(), 13, true),
            ("r/z".to_string(), 2, true),
        ]
    );
}

#[test]
fn order_of_the_walk_does_not_change_the_sizes() {
    let mut back = small_tree();
    back.reverse();
    let r = scan(&path("root"), &back);
    assert_eq!(r.total_size, 1000);
    let dirs: Vec<(String, u64, bool)> =
        listing(&r.items).into_iter().filter(|i| i.2).collect();
    assert_eq!(dirs, vec![("root/a".to_string(), 800, true)]);
}

#[test]
fn file_beside_the_root_reaches_every_ancestor() {
    let visits = vec![file("x/y/f", 3)];
    let r = scan(&path("root"), &visits);
    assert_eq!(
        listing(&r.items),
        vec![
            ("x/y/f".to_string(), 3, false),
            ("x/y".to_string(), 3, true),
            ("x".to_string(), 3, true),
            ("".to_string(), 3, true),
        ]
    );
}

#[test]
fn empty_file_still_lists_its_directory() {
    let r = scan(&path("r"), &vec![file("r/a/e", 0)]);
    assert_eq!(
        listing(&r.items),
        vec![("r/a/e".to_string(), 0, false), ("r/a".to_string(), 0, true)]
    );
}

#[test]
fn sizes_fit_tells_overflow() {
    assert!(sizes_fit(&small_tree()));
    assert!(sizes_fit(&vec![file("r/a", u64::MAX)]));
    assert!(!sizes_fit(&vec![file("r/a", u64::MAX), Visit::Other, file("r/b", 1)]));
    let r = scan(&path("r"), &vec![file("r/d/a", u64::MAX - 1), file("r/d/b", 1)]);
    assert_eq!(r.total_size, u64::MAX);
    assert_eq!(r.items[2].size, u64::MAX);
}

#[test]
fn tones_change_above_the_marks() {
    assert_eq!(tone(0), SizeTone::Plain);
    assert_eq!(tone(100_000_000), SizeTone::Plain);
    assert_eq!(tone(100_000_001), SizeTone::Large);
    assert_eq!(tone(1_000_000_000), SizeTone::Large);
    assert_eq!(tone(1_000_000_001), SizeTone::Huge);
}

#[test]
fn rows_carry_text_tone_and_kind() {
    let row = row_of(Item { path: path("r/a"), size: 2_000_000_000, is_dir: true }, "2 GB".to_string());
    assert_eq!(row.size_text, "2 GB");
    assert_eq!(row.tone, SizeTone::Huge);
    assert!(row.is_dir);
    assert_eq!(text_of(&row.path), "r/a");
}

#[test]
fn sizes_are_written_in_decimal_units() {
    let items = vec![
        Item { path: path("r/big"), size: 1_500_000_000, is_dir: false },
        Item { path: path("r/mid"), size: 150_000_000, is_dir: false },
        Item { path: path("r/small"), size: 1_500, is_dir: false },
    ];
    let args = Args { path: path("r"), limit: 10, min_size: Some("bogus".to_string()), depth: None };
    let shown = display_results(items, 1_650_001_500, 0, &args);
    let texts: Vec<&str> = shown.rows.iter().map(|r| r.size_text.as_str()).collect();
    assert_eq!(texts, vec!["1.50 GB", "150 MB", "1.50 kB"]);
    let tones: Vec<SizeTone> = shown.rows.iter().map(|r| r.tone).collect();
    assert_eq!(tones, vec![SizeTone::Huge, SizeTone::Large, SizeTone::Plain]);
    assert_eq!(shown.total_text, "1.65 GB");
}

#[test]
fn paths_compare_by_components() {
    let a = path("r/a");
    let b = path("r/a/b");
    let c = path("r/ab");
    assert!(a.is_ancestor_of(&b));
    assert!(!b.is_ancestor_of(&a));
    assert!(!a.is_ancestor_of(&a));
    assert!(!a.is_ancestor_of(&c));
    assert!(a.same_as(&path("r/a")));
    assert!(!a.same_as(&c));
    assert_eq!(b.depth(), 3);
    assert!(b.take(2).same_as(&a));
    assert!(b.duplicate().same_as(&b));
    assert!(b.agrees_upto(&c, 1));
    assert!(!b.agrees_upto(&c, 2));
    assert!(path("").is_ancestor_of(&a));
}

#[test]
fn shown_items_never_hold_one_another() {
    let mut visits = Vec::new();
    for d in 0..4u64 {
        for f in 0..3u64 {
            visits.push(file(&format!("r/d{}/s/f{}", d, f), 10 * d + f + 1));
        }
        visits.push(file(&format!("r/d{}/top", d), 7));
    }
    let r = scan(&path("r"), &visits);
    for limit in 0..12usize {
        let shown = report(&r.items, &path("r"), None, None, limit);
        assert!(shown.len() <= limit);
        for a in shown.iter() {
            for b in shown.iter() {
                assert!(!a.path.is_ancestor_of(&b.path));
            }
        }
    }
}

#[test]
fn raising_the_least_size_only_takes_away() {
    let r = scanned();
    let mut last = usize::MAX;
    for min in [0u64, 200, 201, 300, 500, 501, 800, 801] {
        let flat: Vec<Item> = r
            .items
            .iter()
            .filter(|i| !i.is_dir)
            .map(|i| Item { path: i.path.duplicate(), size: i.size, is_dir: false })
            .collect();
        let shown = report(&flat, &path("root"), Some(min), None, 10);
        assert!(shown.len() <= last);
        assert!(shown.iter().all(|i| i.size >= min));
        last = shown.len();
    }
    assert_eq!(last, 0);
}

#[test]
fn many_directories_keep_exact_sizes() {
    let mut visits = Vec::new();
    for d in 0..300u64 {
        visits.push(file(&format!("r/p{}/q{}/a", d % 7, d), d));
        visits.push(file(&format!("r/p{}/q{}/b", d % 7, d), 1));
    }
    let r = scan(&path("r"), &visits);
    assert_eq!(r.total_size, (0..300u64).sum::<u64>() + 300);
    assert_eq!(r.items.len(), 600 + 300 + 7);
    for item in r.items.iter().filter(|i| i.is_dir) {
        let under: u64 = visits
            .iter()
            .map(|v| match v {
                Visit::File { path, size } if item.path.is_ancestor_of(path) => *size,
                _ => 0,
            })
            .sum();
        assert_eq!(item.size, under);
    }
}

#[test]
fn prefix_hashes_agree_for_equal_prefixes() {
    let a = path("r/a/b");
    let b = path("r/a/c");
    let ha = a.prefix_hashes();
    let hb = b.prefix_hashes();
    assert_eq!(ha.len(), 4);
    assert_eq!(ha[0], 0);
    assert_eq!(ha[..3], hb[..3]);
    assert_eq!(a.take(2).prefix_hashes()[2], ha[2]);
}
