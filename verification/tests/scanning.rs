use sizr::item::Item;
use sizr::paths::ancestor_chain;
use sizr::scan::{
    credit, directory_sizes, recorded_size, scan_directory, sum_file_bytes, ScanError, Visit, VisitKind,
};
use vstd::hash_map::StringHashMap;

fn file(path: &str, depth: usize, size: u64) -> Visit {
    Visit { path: path.to_string(), depth, kind: VisitKind::File { size } }
}

fn directory(path: &str, depth: usize) -> Visit {
    Visit { path: path.to_string(), depth, kind: VisitKind::Directory }
}

fn entry(path: &str, depth: usize, kind: VisitKind) -> Visit {
    Visit { path: path.to_string(), depth, kind }
}

fn held(sizes: &StringHashMap<u64>, path: &str) -> Option<u64> {
    sizes.get(path).copied()
}

fn shape(items: &[Item]) -> Vec<(String, u64, bool)> {
    items.iter().map(|item| (item.path.clone(), item.size, item.is_directory)).collect()
}

fn row(path: &str, size: u64, is_directory: bool) -> (String, u64, bool) {
    (path.to_string(), size, is_directory)
}

fn small_tree() -> Vec<Visit> {
    vec![
        directory("root", 0),
        file("root/a.txt", 1, 100),
        directory("root/sub", 1),
        file("root/sub/b.txt", 2, 200),
    ]
}

fn deep_tree() -> Vec<Visit> {
    vec![
        directory("top", 0),
        directory("top/empty", 1),
        directory("top/one", 1),
        file("top/one/x.bin", 2, 40),
        directory("top/one/two", 2),
        file("top/one/two/y.bin", 3, 2),
        directory("top/one/two/three", 3),
        file("top/one/two/three/z.bin", 4, 1000),
        file("top/w.bin", 1, 7),
    ]
}

#[test]
fn the_chain_goes_up_to_the_root() {
    assert_eq!(ancestor_chain("root/sub/b.txt", 2), vec!["root/sub".to_string(), "root".to_string()]);
    assert_eq!(ancestor_chain("root/a.txt", 1), vec!["root".to_string()]);
    assert_eq!(ancestor_chain("./a/b/c", 3), vec!["./a/b".to_string(), "./a".to_string(), ".".to_string()]);
}

#[test]
fn the_chain_stops_at_the_root() {
    assert_eq!(ancestor_chain("/home/user/data/f", 1), vec!["/home/user/data".to_string()]);
    assert_eq!(ancestor_chain("/home/user/data/f", 2), vec!["/home/user/data".to_string(), "/home/user".to_string()]);
    assert_eq!(ancestor_chain("root", 0), Vec::<String>::new());
}

#[test]
fn the_chain_ends_where_the_path_ends() {
    assert_eq!(ancestor_chain("a", 5), vec![String::new()]);
    assert_eq!(ancestor_chain("/a", 5), vec!["/".to_string()]);
    assert_eq!(ancestor_chain("", 3), Vec::<String>::new());
    assert_eq!(ancestor_chain("/", 3), Vec::<String>::new());
}

#[test]
fn credit_adds_to_each_directory() {
    let mut sizes: StringHashMap<u64> = StringHashMap::new();
    credit(&mut sizes, &vec!["r/a".to_string(), "r".to_string()], 5);
    credit(&mut sizes, &vec!["r/b".to_string(), "r".to_string()], 7);
    credit(&mut sizes, &vec![], 100);
    assert_eq!(held(&sizes, "r"), Some(12));
    assert_eq!(held(&sizes, "r/a"), Some(5));
    assert_eq!(held(&sizes, "r/b"), Some(7));
    assert_eq!(held(&sizes, "r/c"), None);
    assert_eq!(sizes.len(), 3);
}

#[test]
fn credit_of_nothing_makes_an_entry() {
    let mut sizes: StringHashMap<u64> = StringHashMap::new();
    credit(&mut sizes, &vec!["r".to_string()], 0);
    assert_eq!(held(&sizes, "r"), Some(0));
}

#[test]
fn directory_sizes_of_the_small_tree() {
    let sizes = directory_sizes(&small_tree());
    assert_eq!(held(&sizes, "root"), Some(300));
    assert_eq!(held(&sizes, "root/sub"), Some(200));
    assert_eq!(held(&sizes, "root/a.txt"), None);
    assert_eq!(held(&sizes, ""), None);
    assert_eq!(sizes.len(), 2);
}

#[test]
fn directory_sizes_sum_all_files_below() {
    let sizes = directory_sizes(&deep_tree());
    assert_eq!(held(&sizes, "top"), Some(1049));
    assert_eq!(held(&sizes, "top/one"), Some(1042));
    assert_eq!(held(&sizes, "top/one/two"), Some(1002));
    assert_eq!(held(&sizes, "top/one/two/three"), Some(1000));
    assert_eq!(held(&sizes, "top/empty"), None);
}

#[test]
fn directory_sizes_do_not_depend_on_the_order_of_the_walk() {
    let mut visits = deep_tree();
    visits.reverse();
    let sizes = directory_sizes(&visits);
    assert_eq!(held(&sizes, "top"), Some(1049));
    assert_eq!(held(&sizes, "top/one"), Some(1042));
    assert_eq!(held(&sizes, "top/one/two"), Some(1002));
    assert_eq!(held(&sizes, "top/one/two/three"), Some(1000));
}

#[test]
fn nothing_above_the_root_is_touched() {
    let visits = vec![
        directory("/srv/data", 0),
        file("/srv/data/a", 1, 3),
        file("/srv/data/d/b", 2, 4),
    ];
    let sizes = directory_sizes(&visits);
    assert_eq!(held(&sizes, "/srv/data"), Some(7));
    assert_eq!(held(&sizes, "/srv/data/d"), Some(4));
    assert_eq!(held(&sizes, "/srv"), None);
    assert_eq!(held(&sizes, "/"), None);
    assert_eq!(sizes.len(), 2);
}

#[test]
fn a_root_that_is_a_file_has_no_directory() {
    let visits = vec![file("notes.txt", 0, 12)];
    let sizes = directory_sizes(&visits);
    assert_eq!(sizes.len(), 0);
    let items = scan_directory(&visits, true, true, 0).unwrap();
    assert_eq!(shape(&items), vec![row("notes.txt", 12, false)]);
}

#[test]
fn files_and_directories_of_the_small_tree() {
    let items = scan_directory(&small_tree(), true, true, 0).unwrap();
    assert_eq!(
        shape(&items),
        vec![
            row("root/sub/b.txt", 200, false),
            row("root/sub", 200, true),
            row("root/a.txt", 100, false),
        ]
    );
    let total: u64 = items.iter().filter(|item| !item.is_directory).map(|item| item.size).sum();
    assert_eq!(total, 300);
}

#[test]
fn files_only_lists_no_directory() {
    let items = scan_directory(&deep_tree(), true, false, 0).unwrap();
    assert_eq!(
        shape(&items),
        vec![
            row("top/one/two/three/z.bin", 1000, false),
            row("top/one/x.bin", 40, false),
            row("top/w.bin", 7, false),
            row("top/one/two/y.bin", 2, false),
        ]
    );
    assert!(items.iter().all(|item| !item.is_directory));
}

#[test]
fn directories_only_lists_no_file() {
    let items = scan_directory(&deep_tree(), false, true, 0).unwrap();
    assert_eq!(
        shape(&items),
        vec![
            row("top/one", 1042, true),
            row("top/one/two", 1002, true),
            row("top/one/two/three", 1000, true),
            row("top/empty", 0, true),
        ]
    );
}

#[test]
fn neither_kind_lists_nothing() {
    let items = scan_directory(&deep_tree(), false, false, 0).unwrap();
    assert!(items.is_empty());
}

#[test]
fn the_root_is_never_listed() {
    let items = scan_directory(&deep_tree(), true, true, 0).unwrap();
    assert!(items.iter().all(|item| item.path != "top"));
    assert_eq!(items.len(), 8);
}

#[test]
fn the_threshold_leaves_out_what_is_smaller() {
    let items = scan_directory(&deep_tree(), true, true, 41).unwrap();
    assert_eq!(
        shape(&items),
        vec![
            row("top/one", 1042, true),
            row("top/one/two", 1002, true),
            row("top/one/two/three/z.bin", 1000, false),
            row("top/one/two/three", 1000, true),
        ]
    );
    assert!(items.iter().all(|item| item.size >= 41));
}

#[test]
fn the_threshold_is_inclusive() {
    let at = scan_directory(&small_tree(), true, true, 200).unwrap();
    assert_eq!(shape(&at), vec![row("root/sub/b.txt", 200, false), row("root/sub", 200, true)]);
    let above = scan_directory(&small_tree(), true, true, 201).unwrap();
    assert!(above.is_empty());
}

#[test]
fn a_small_directory_is_left_out_beside_its_large_sibling() {
    let visits = vec![
        directory("r", 0),
        directory("r/small", 1),
        file("r/small/s", 2, 10),
        directory("r/large", 1),
        file("r/large/l", 2, 500),
    ];
    let items = scan_directory(&visits, true, true, 100).unwrap();
    assert_eq!(shape(&items), vec![row("r/large/l", 500, false), row("r/large", 500, true)]);
}

#[test]
fn the_listing_is_sorted_by_size_descending() {
    let items = scan_directory(&deep_tree(), true, true, 0).unwrap();
    for pair in items.windows(2) {
        assert!(pair[0].size >= pair[1].size);
    }
}

#[test]
fn equal_sizes_keep_files_first_and_the_order_of_the_walk() {
    let visits = vec![
        directory("r", 0),
        directory("r/d2", 1),
        file("r/d2/f2", 2, 5),
        directory("r/d1", 1),
        file("r/d1/f1", 2, 5),
        file("r/f0", 1, 5),
    ];
    let items = scan_directory(&visits, true, true, 0).unwrap();
    assert_eq!(
        shape(&items),
        vec![
            row("r/d2/f2", 5, false),
            row("r/d1/f1", 5, false),
            row("r/f0", 5, false),
            row("r/d2", 5, true),
            row("r/d1", 5, true),
        ]
    );
}

#[test]
fn an_empty_directory_has_no_bytes() {
    let visits = vec![directory("r", 0), directory("r/void", 1), directory("r/void/deeper", 2)];
    let items = scan_directory(&visits, true, true, 0).unwrap();
    assert_eq!(shape(&items), vec![row("r/void", 0, true), row("r/void/deeper", 0, true)]);
    let none = scan_directory(&visits, true, true, 1).unwrap();
    assert!(none.is_empty());
}

#[test]
fn an_empty_walk_lists_nothing() {
    let items = scan_directory(&Vec::new(), true, true, 0).unwrap();
    assert!(items.is_empty());
}

#[test]
fn a_file_without_size_fails_the_scan() {
    let visits = vec![
        directory("r", 0),
        file("r/a", 1, 1),
        entry("r/b", 1, VisitKind::FileWithoutSize),
        entry("r/c", 1, VisitKind::FileWithoutSize),
    ];
    match scan_directory(&visits, true, true, 0) {
        Err(ScanError::MetadataReadFailure { path }) => assert_eq!(path, "r/b"),
        Ok(_) => panic!("the scan went on"),
    }
    match scan_directory(&visits, false, true, 1000) {
        Err(ScanError::MetadataReadFailure { path }) => assert_eq!(path, "r/b"),
        Ok(_) => panic!("the scan went on"),
    }
}

#[test]
fn what_could_not_be_read_is_passed_over() {
    let visits = vec![
        directory("r", 0),
        entry("r/gone", 1, VisitKind::Unreadable),
        entry("", 0, VisitKind::Unreadable),
        entry("r/socket", 1, VisitKind::Other),
        file("r/f", 1, 9),
    ];
    let items = scan_directory(&visits, true, true, 0).unwrap();
    assert_eq!(shape(&items), vec![row("r/f", 9, false)]);
}

#[test]
fn deeply_nested_paths_reach_every_level() {
    let mut visits = vec![directory("d0", 0)];
    let mut path = "d0".to_string();
    for level in 1..60 {
        path = format!("{}/d{}", path, level);
        visits.push(directory(&path, level));
    }
    visits.push(file(&format!("{}/leaf", path), 60, 11));
    let sizes = directory_sizes(&visits);
    assert_eq!(sizes.len(), 60);
    for visit in &visits[..60] {
        assert_eq!(held(&sizes, &visit.path), Some(11));
    }
    let items = scan_directory(&visits, false, true, 0).unwrap();
    assert_eq!(items.len(), 59);
    assert!(items.iter().all(|item| item.size == 11 && item.is_directory));
}

#[test]
fn the_bytes_of_all_files_are_summed() {
    assert_eq!(sum_file_bytes(&small_tree()), Some(300));
    assert_eq!(sum_file_bytes(&deep_tree()), Some(1049));
    assert_eq!(sum_file_bytes(&Vec::new()), Some(0));
}

#[test]
fn a_sum_beyond_the_largest_number_is_none() {
    let visits = vec![file("r/a", 1, u64::MAX), file("r/b", 1, 1)];
    assert_eq!(sum_file_bytes(&visits), None);
    let fits = vec![file("r/a", 1, u64::MAX - 1), file("r/b", 1, 1), directory("r/c", 1)];
    assert_eq!(sum_file_bytes(&fits), Some(u64::MAX));
    assert_eq!(held(&directory_sizes(&fits), "r"), Some(u64::MAX));
}

#[test]
fn credit_counts_a_directory_each_time_it_stands() {
    let mut sizes: StringHashMap<u64> = StringHashMap::new();
    credit(&mut sizes, &vec!["r".to_string(), "r/a".to_string(), "r".to_string()], 4);
    assert_eq!(held(&sizes, "r"), Some(8));
    assert_eq!(held(&sizes, "r/a"), Some(4));
}

#[test]
fn a_directory_without_an_entry_holds_no_bytes() {
    let sizes = directory_sizes(&deep_tree());
    assert_eq!(recorded_size(&sizes, "top/one"), 1042);
    assert_eq!(recorded_size(&sizes, "top/empty"), 0);
    assert_eq!(recorded_size(&sizes, "elsewhere"), 0);
}
