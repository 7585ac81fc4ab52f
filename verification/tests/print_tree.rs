use disk_tree::{FileTree, Probe, TreePath};

const TESTT: &str = "C:/programation/L3/IN 512 prog système/testt";

fn directory(names: &[&str]) -> Probe {
    Probe::Directory { names: names.iter().map(|name| name.to_string()).collect() }
}

fn record(path: &str, probe: Probe) -> (TreePath, Probe) {
    (TreePath::parse(path), probe)
}

fn tree_of(root: &str, disk: Vec<(TreePath, Probe)>) -> FileTree {
    FileTree::new(&TreePath::parse(root), &disk).unwrap()
}

fn testt() -> FileTree {
    let at = |tail: &str| format!("{}{}", TESTT, tail);
    let disk = vec![
        record(&at(""), directory(&["doss1", "doss2"])),
        record(&at("/doss1"), directory(&["txt2.txt", "dossloin"])),
        record(&at("/doss1/txt2.txt"), Probe::File { length: 1768 }),
        record(&at("/doss1/dossloin"), directory(&["dossloin2"])),
        record(&at("/doss1/dossloin/dossloin2"), directory(&["txt1.txt", "txtloin.txt"])),
        record(&at("/doss1/dossloin/dossloin2/txt1.txt"), Probe::File { length: 1 }),
        record(&at("/doss1/dossloin/dossloin2/txtloin.txt"), Probe::File { length: 118 }),
        record(&at("/doss2"), directory(&["txt3.txt"])),
        record(&at("/doss2/txt3.txt"), Probe::File { length: 42 }),
    ];
    tree_of(TESTT, disk)
}

fn mixed() -> FileTree {
    tree_of(
        "r",
        vec![
            record("r", directory(&["logs", "docs", "c", "deep"])),
            record("r/logs", directory(&["b.log"])),
            record("r/logs/b.log", Probe::File { length: 2000 }),
            record("r/docs", directory(&["a.txt"])),
            record("r/docs/a.txt", Probe::File { length: 10 }),
            record("r/c", Probe::File { length: 5 }),
            record("r/deep", directory(&["er"])),
            record("r/deep/er", directory(&["notes.txt", "x.log", "more.txt"])),
            record("r/deep/er/notes.txt", Probe::File { length: 3 }),
            record("r/deep/er/x.log", Probe::File { length: 4 }),
            record("r/deep/er/more.txt", Probe::File { length: 300 }),
        ],
    )
}

#[test]
fn the_larger_children_come_first() {
    let at = |tail: &str| format!("{}{}", TESTT, tail);
    assert_eq!(
        testt().show(),
        vec![
            format!("1.9 KB\t{}", at("")),
            format!("\t1.8 KB\t{}", at("/doss1")),
            format!("\t\t1.7 KB\t{}", at("/doss1/txt2.txt")),
            format!("\t\t119 B\t{}", at("/doss1/dossloin")),
            format!("\t\t\t119 B\t{}", at("/doss1/dossloin/dossloin2")),
            format!("\t\t\t\t118 B\t{}", at("/doss1/dossloin/dossloin2/txtloin.txt")),
            format!("\t\t\t\t1 B\t{}", at("/doss1/dossloin/dossloin2/txt1.txt")),
            format!("\t42 B\t{}", at("/doss2")),
            format!("\t\t42 B\t{}", at("/doss2/txt3.txt")),
        ]
    );
}

#[test]
fn the_lexicographic_report_goes_by_path() {
    let at = |tail: &str| format!("{}{}", TESTT, tail);
    assert_eq!(
        testt().show_lexicographic(),
        vec![
            format!("1.9 KB\t{}", at("")),
            format!("\t1.8 KB\t{}", at("/doss1")),
            format!("\t\t119 B\t{}", at("/doss1/dossloin")),
            format!("\t\t\t119 B\t{}", at("/doss1/dossloin/dossloin2")),
            format!("\t\t\t\t1 B\t{}", at("/doss1/dossloin/dossloin2/txt1.txt")),
            format!("\t\t\t\t118 B\t{}", at("/doss1/dossloin/dossloin2/txtloin.txt")),
            format!("\t\t1.7 KB\t{}", at("/doss1/txt2.txt")),
            format!("\t42 B\t{}", at("/doss2")),
            format!("\t\t42 B\t{}", at("/doss2/txt3.txt")),
        ]
    );
}

#[test]
fn children_of_one_size_keep_the_order_of_the_listing() {
    let tree = tree_of(
        "d",
        vec![
            record("d", directory(&["z", "a", "m", "b"])),
            record("d/z", Probe::File { length: 5 }),
            record("d/a", Probe::File { length: 5 }),
            record("d/m", Probe::File { length: 7 }),
            record("d/b", Probe::File { length: 5 }),
        ],
    );
    assert_eq!(tree.show(), vec!["22 B\td", "\t7 B\td/m", "\t5 B\td/z", "\t5 B\td/a", "\t5 B\td/b"]);
    assert_eq!(
        tree.show_lexicographic(),
        vec!["22 B\td", "\t5 B\td/a", "\t5 B\td/b", "\t7 B\td/m", "\t5 B\td/z"]
    );
}

#[test]
fn paths_are_ordered_as_their_texts_are() {
    let tree = tree_of(
        "d",
        vec![
            record("d", directory(&["b", "ab", "a", "B", "é", "a.b", "a b"])),
            record("d/b", Probe::File { length: 1 }),
            record("d/ab", Probe::File { length: 2 }),
            record("d/a", Probe::File { length: 3 }),
            record("d/B", Probe::File { length: 4 }),
            record("d/é", Probe::File { length: 5 }),
            record("d/a.b", Probe::File { length: 6 }),
            record("d/a b", Probe::File { length: 7 }),
        ],
    );
    let lines = tree.show_lexicographic();
    let mut expected = vec!["d/b", "d/ab", "d/a", "d/B", "d/é", "d/a.b", "d/a b"];
    expected.sort();
    assert_eq!(expected, vec!["d/B", "d/a", "d/a b", "d/a.b", "d/ab", "d/b", "d/é"]);
    let shown: Vec<&str> = lines[1..].iter().map(|line| line.rsplit('\t').next().unwrap()).collect();
    assert_eq!(shown, expected);
}

#[test]
fn sizes_never_grow_along_the_children_of_a_directory() {
    let tree = mixed();
    let lines = tree.show();
    assert_eq!(lines.len(), 11);
    for (_, directory) in tree.directory() {
        let mut children: Vec<TreePath> = tree.get_children(&directory).unwrap().to_vec();
        children.sort_by_key(|child| lines.iter().position(|line| line.ends_with(&format!("\t{}", child.display()))).unwrap());
        for pair in children.windows(2) {
            assert!(tree.get_size(&pair[0]).unwrap() >= tree.get_size(&pair[1]).unwrap());
        }
    }
}

#[test]
fn a_filter_keeps_the_files_of_its_extension_and_what_leads_to_them() {
    let tree = mixed();
    assert_eq!(
        tree.show_filter(".txt"),
        vec![
            "2.3 KB\tr",
            "\t307 B\tr/deep",
            "\t\t307 B\tr/deep/er",
            "\t\t\t300 B\tr/deep/er/more.txt",
            "\t\t\t3 B\tr/deep/er/notes.txt",
            "\t10 B\tr/docs",
            "\t\t10 B\tr/docs/a.txt",
        ]
    );
    assert_eq!(
        tree.show_filter_lexicographic(".txt"),
        vec![
            "2.3 KB\tr",
            "\t307 B\tr/deep",
            "\t\t307 B\tr/deep/er",
            "\t\t\t300 B\tr/deep/er/more.txt",
            "\t\t\t3 B\tr/deep/er/notes.txt",
            "\t10 B\tr/docs",
            "\t\t10 B\tr/docs/a.txt",
        ]
    );
    assert_eq!(
        tree.show_filter(".log"),
        vec![
            "2.3 KB\tr",
            "\t2.0 KB\tr/logs",
            "\t\t2.0 KB\tr/logs/b.log",
            "\t307 B\tr/deep",
            "\t\t307 B\tr/deep/er",
            "\t\t\t4 B\tr/deep/er/x.log",
        ]
    );
}

#[test]
fn a_filter_that_matches_nothing_gives_no_line() {
    let tree = mixed();
    assert!(tree.show_filter(".md").is_empty());
    assert!(tree.show_filter_lexicographic(".md").is_empty());
    assert!(tree.show_filter("txt").is_empty());
    assert!(tree.show_filter("").is_empty());
    assert!(tree.show_filter(".c").is_empty());
}

#[test]
fn a_file_without_extension_does_not_fail_a_filtered_report() {
    let tree = tree_of(
        "r",
        vec![
            record("r", directory(&["Makefile", ".hidden", "a.txt"])),
            record("r/Makefile", Probe::File { length: 1 }),
            record("r/.hidden", Probe::File { length: 2 }),
            record("r/a.txt", Probe::File { length: 4 }),
        ],
    );
    assert_eq!(tree.show_filter(".txt"), vec!["7 B\tr", "\t4 B\tr/a.txt"]);
    assert!(tree.show_filter(".hidden").is_empty());
}

#[test]
fn the_report_of_a_file_is_its_own_line() {
    let tree = tree_of("notes.txt", vec![record("notes.txt", Probe::File { length: 2048 })]);
    assert_eq!(tree.show(), vec!["2.0 KB\tnotes.txt"]);
    assert_eq!(tree.show_lexicographic(), vec!["2.0 KB\tnotes.txt"]);
    assert_eq!(tree.show_filter(".txt"), vec!["2.0 KB\tnotes.txt"]);
    assert!(tree.show_filter_lexicographic(".log").is_empty());
}

#[test]
fn a_name_listed_twice_is_shown_twice() {
    let tree = tree_of(
        "r",
        vec![record("r", directory(&["x", "x"])), record("r/x", Probe::File { length: 1 })],
    );
    assert_eq!(tree.show(), vec!["1 B\tr", "\t1 B\tr/x", "\t1 B\tr/x"]);
}
