use sizr::analysis::{analyze, inclusion};
use sizr::item::Item;
use sizr::order::sort_by_size;
use sizr::report::{display_results, kind_label, make_row, Report};
use sizr::scan::{ScanError, Visit, VisitKind};

fn item(path: &str, size: u64, is_directory: bool) -> Item {
    Item { path: path.to_string(), size, is_directory }
}

fn paths(items: &[Item]) -> Vec<String> {
    items.iter().map(|item| item.path.clone()).collect()
}

fn numbered(count: u64) -> Vec<Item> {
    (0..count).map(|n| item(&format!("f{}", n), 1000 - n, false)).collect()
}

fn small_tree() -> Vec<Visit> {
    vec![
        Visit { path: "root".to_string(), depth: 0, kind: VisitKind::Directory },
        Visit { path: "root/a.txt".to_string(), depth: 1, kind: VisitKind::File { size: 100 } },
        Visit { path: "root/sub".to_string(), depth: 1, kind: VisitKind::Directory },
        Visit { path: "root/sub/b.txt".to_string(), depth: 2, kind: VisitKind::File { size: 200 } },
    ]
}

fn lines(report: &Report) -> Vec<(usize, String, String, bool)> {
    report
        .rows
        .iter()
        .map(|row| (row.rank, row.path.clone(), row.size.clone(), row.is_directory))
        .collect()
}

#[test]
fn sorting_puts_the_largest_first() {
    let items = vec![item("a", 3, false), item("b", 10, true), item("c", 0, false), item("d", 7, false)];
    let ranked = sort_by_size(&items);
    assert_eq!(paths(&ranked), vec!["b", "d", "a", "c"]);
    assert_eq!(ranked[0].size, 10);
    assert!(ranked[0].is_directory);
    assert_eq!(paths(&items), vec!["a", "b", "c", "d"]);
}

#[test]
fn sorting_keeps_the_order_of_equal_sizes() {
    let items = vec![
        item("a", 5, false),
        item("b", 9, false),
        item("c", 5, true),
        item("d", 9, true),
        item("e", 5, false),
        item("f", 1, false),
        item("g", 9, false),
    ];
    let ranked = sort_by_size(&items);
    assert_eq!(paths(&ranked), vec!["b", "d", "g", "a", "c", "e", "f"]);
}

#[test]
fn sorting_nothing_and_one() {
    assert!(sort_by_size(&Vec::new()).is_empty());
    assert_eq!(paths(&sort_by_size(&vec![item("only", 4, false)])), vec!["only"]);
}

#[test]
fn sorting_many_items_agrees_with_a_stable_sort() {
    let mut items = Vec::new();
    let mut seed: u64 = 12345;
    for n in 0..1000 {
        seed = seed.wrapping_mul(6364136223846793005).wrapping_add(1442695040888963407);
        items.push(item(&format!("p{}", n), (seed >> 33) % 50, n % 3 == 0));
    }
    let ranked = sort_by_size(&items);
    let mut expected = items.clone();
    expected.sort_by(|a, b| b.size.cmp(&a.size));
    assert_eq!(paths(&ranked), paths(&expected));
    for (one, other) in ranked.iter().zip(expected.iter()) {
        assert_eq!(one.size, other.size);
        assert_eq!(one.is_directory, other.is_directory);
    }
}

#[test]
fn sorting_an_ascending_and_a_descending_run() {
    let up: Vec<Item> = (0..17).map(|n| item(&format!("u{}", n), n, false)).collect();
    let ranked = sort_by_size(&up);
    let sizes: Vec<u64> = ranked.iter().map(|item| item.size).collect();
    assert_eq!(sizes, (0..17).rev().collect::<Vec<u64>>());
    let down = sort_by_size(&ranked);
    assert_eq!(paths(&down), paths(&ranked));
}

#[test]
fn the_limit_caps_the_rows() {
    let report = display_results(&numbered(25), 10);
    assert_eq!(report.rows.len(), 10);
    assert_eq!(report.more, 15);
    assert_eq!(report.rows[0].path, "f0");
    assert_eq!(report.rows[9].path, "f9");
}

#[test]
fn a_limit_that_is_not_reached_shows_all() {
    let exactly = display_results(&numbered(10), 10);
    assert_eq!(exactly.rows.len(), 10);
    assert_eq!(exactly.more, 0);
    let fewer = display_results(&numbered(3), 10);
    assert_eq!(fewer.rows.len(), 3);
    assert_eq!(fewer.more, 0);
    let one_more = display_results(&numbered(11), 10);
    assert_eq!(one_more.rows.len(), 10);
    assert_eq!(one_more.more, 1);
}

#[test]
fn a_limit_of_nothing_shows_nothing() {
    let report = display_results(&numbered(4), 0);
    assert!(report.rows.is_empty());
    assert_eq!(report.more, 4);
    assert_eq!(report.total, 1000 + 999 + 998 + 997);
}

#[test]
fn nothing_to_show() {
    let report = display_results(&Vec::new(), 10);
    assert!(report.rows.is_empty());
    assert_eq!(report.more, 0);
    assert_eq!(report.total, 0);
}

#[test]
fn ranks_count_from_one() {
    let report = display_results(&numbered(3), 10);
    let ranks: Vec<usize> = report.rows.iter().map(|row| row.rank).collect();
    assert_eq!(ranks, vec![1, 2, 3]);
}

#[test]
fn the_total_counts_files_alone() {
    let items = vec![item("root/sub/b.txt", 200, false), item("root/sub", 200, true), item("root/a.txt", 100, false)];
    let report = display_results(&items, 10);
    assert_eq!(report.total, 300);
    let files = vec![item("root/sub/b.txt", 200, false), item("root/a.txt", 100, false)];
    assert_eq!(display_results(&files, 10).total, 300);
    let directories = vec![item("root/sub", 200, true)];
    assert_eq!(display_results(&directories, 10).total, 0);
}

#[test]
fn the_total_counts_what_is_not_shown() {
    let report = display_results(&numbered(25), 2);
    let all: u64 = (0..25).map(|n| 1000 - n).sum();
    assert_eq!(report.total, all);
}

#[test]
fn the_total_may_be_the_largest_number() {
    let items = vec![item("a", u64::MAX - 5, false), item("d", u64::MAX, true), item("b", 5, false)];
    assert_eq!(display_results(&items, 1).total, u64::MAX);
}

#[test]
fn sizes_are_written_in_decimal_units() {
    let items = vec![
        item("a", 1_000_000, false),
        item("b", 1536, false),
        item("c", 999, true),
        item("d", 0, false),
        item("e", 2_500_000_000, false),
    ];
    let report = display_results(&items, 10);
    let texts: Vec<&str> = report.rows.iter().map(|row| row.size.as_str()).collect();
    assert_eq!(texts, vec!["1 MB", "1.54 kB", "999 B", "0 B", "2.50 GB"]);
}

#[test]
fn rows_keep_the_kind() {
    let report = display_results(&vec![item("d", 2, true), item("f", 1, false)], 10);
    assert!(report.rows[0].is_directory);
    assert!(!report.rows[1].is_directory);
    assert_eq!(kind_label(report.rows[0].is_directory), "DIR");
    assert_eq!(kind_label(report.rows[1].is_directory), "FILE");
}

#[test]
fn short_paths_are_shown_whole() {
    let path = "a".repeat(47);
    let row = make_row(1, &item(&path, 1, false), "1 B".to_string());
    assert_eq!(row.path, path);
    assert_eq!(row.size, "1 B");
    assert_eq!(row.rank, 1);
    let empty = make_row(2, &item("", 1, true), String::new());
    assert_eq!(empty.path, "");
    assert!(empty.is_directory);
}

#[test]
fn long_paths_are_cut_at_the_front() {
    let path = "/home/user/projects/archive/2024/reports/quarterly/summary.txt";
    assert_eq!(path.len(), 62);
    let row = make_row(7, &item(path, 1, false), "x".to_string());
    assert_eq!(row.path, "...s/archive/2024/reports/quarterly/summary.txt");
    assert_eq!(row.path.len(), 47);
    let just_over = "b".repeat(48);
    let cut = make_row(1, &item(&just_over, 1, false), "x".to_string());
    assert_eq!(cut.path, format!("...{}", "b".repeat(44)));
}

#[test]
fn long_paths_are_cut_between_characters() {
    let path = "\u{00e9}".repeat(50);
    let row = make_row(1, &item(&path, 1, false), "x".to_string());
    assert_eq!(row.path, format!("...{}", "\u{00e9}".repeat(44)));
    let whole = "\u{00e9}".repeat(47);
    assert_eq!(make_row(1, &item(&whole, 1, false), "x".to_string()).path, whole);
}

#[test]
fn both_kinds_are_listed_unless_one_is_asked_for() {
    assert_eq!(inclusion(false, false), (true, true));
    assert_eq!(inclusion(true, false), (false, true));
    assert_eq!(inclusion(false, true), (true, false));
    assert_eq!(inclusion(true, true), (false, true));
}

#[test]
fn the_small_tree_from_walk_to_report() {
    let report = analyze(&small_tree(), true, true, 0, 10).unwrap();
    assert_eq!(
        lines(&report),
        vec![
            (1, "root/sub/b.txt".to_string(), "200 B".to_string(), false),
            (2, "root/sub".to_string(), "200 B".to_string(), true),
            (3, "root/a.txt".to_string(), "100 B".to_string(), false),
        ]
    );
    assert_eq!(report.more, 0);
    assert_eq!(report.total, 300);
}

#[test]
fn the_total_is_the_same_with_and_without_directories() {
    let with = analyze(&small_tree(), true, true, 0, 10).unwrap();
    let without = analyze(&small_tree(), true, false, 0, 10).unwrap();
    assert_eq!(with.total, 300);
    assert_eq!(without.total, 300);
    assert_eq!(without.rows.len(), 2);
    let directories = analyze(&small_tree(), false, true, 0, 10).unwrap();
    assert_eq!(directories.total, 0);
    assert_eq!(directories.rows.len(), 1);
}

#[test]
fn the_total_counts_the_listed_files() {
    let report = analyze(&small_tree(), true, true, 150, 1).unwrap();
    assert_eq!(report.total, 200);
    assert_eq!(report.rows.len(), 1);
    assert_eq!(report.more, 1);
}

#[test]
fn a_failed_scan_gives_no_report() {
    let mut visits = small_tree();
    visits.push(Visit { path: "root/x".to_string(), depth: 1, kind: VisitKind::FileWithoutSize });
    match analyze(&visits, true, true, 0, 10) {
        Err(ScanError::MetadataReadFailure { path }) => assert_eq!(path, "root/x"),
        Ok(_) => panic!("the scan went on"),
    }
}
