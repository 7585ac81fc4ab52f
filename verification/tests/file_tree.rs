use disk_tree::{disk_fits, EntryNode, FileTree, Probe, Scan, Size, TreeError, TreePath};

const TESTT: &str = "C:/programation/L3/IN 512 prog système/testt";

fn directory(names: &[&str]) -> Probe {
    Probe::Directory { names: names.iter().map(|name| name.to_string()).collect() }
}

fn record(path: &str, probe: Probe) -> (TreePath, Probe) {
    (TreePath::parse(path), probe)
}

/// The records of a small directory: two files of 1768 and 42 bytes, and two
/// more, of 1 and 118 bytes, three directories down.
fn testt() -> Vec<(TreePath, Probe)> {
    let at = |tail: &str| format!("{}{}", TESTT, tail);
    vec![
        record(&at(""), directory(&["doss1", "doss2"])),
        record(&at("/doss1"), directory(&["txt2.txt", "dossloin"])),
        record(&at("/doss1/txt2.txt"), Probe::File { length: 1768 }),
        record(&at("/doss1/dossloin"), directory(&["dossloin2"])),
        record(&at("/doss1/dossloin/dossloin2"), directory(&["txt1.txt", "txtloin.txt"])),
        record(&at("/doss1/dossloin/dossloin2/txt1.txt"), Probe::File { length: 1 }),
        record(&at("/doss1/dossloin/dossloin2/txtloin.txt"), Probe::File { length: 118 }),
        record(&at("/doss2"), directory(&["txt3.txt"])),
        record(&at("/doss2/txt3.txt"), Probe::File { length: 42 }),
    ]
}

fn probe_of(disk: &[(TreePath, Probe)], path: &str) -> Probe {
    let path = TreePath::parse(path);
    disk.iter().rev().find(|record| record.0 == path).map(|record| record.1.clone()).unwrap_or(Probe::Missing)
}

fn sorted_texts(paths: &[TreePath]) -> Vec<String> {
    let mut texts: Vec<String> = paths.iter().map(|path| path.display()).collect();
    texts.sort();
    texts
}

#[test]
fn should_create_entry_node() {
    let disk = testt();
    let path = "C:/programation/L3/IN 512 prog système/testt/doss1/dossloin/dossloin2/txt1.txt";
    let a = EntryNode::new(&TreePath::parse(path), &probe_of(&disk, path));
    assert_eq!(a.unwrap(),
    EntryNode::Fichier { nom: TreePath::parse("C:/programation/L3/IN 512 prog système/testt/doss1/dossloin/dossloin2/txt1.txt"), taille: Size::new(1)});
    let path = "C:/programation/L3/IN 512 prog système/testt/doss1/dossloin";
    let a = EntryNode::new(&TreePath::parse(path), &probe_of(&disk, path));
    let vec: Vec<TreePath> = vec![TreePath::parse("C:/programation/L3/IN 512 prog système/testt/doss1/dossloin/dossloin2")];
    assert_eq!(a.unwrap(),
    EntryNode::Dossier { nom: TreePath::parse("C:/programation/L3/IN 512 prog système/testt/doss1/dossloin"), enfant: (vec) });
}

#[test]
fn not_valid_path() {
    let disk = testt();
    let a = EntryNode::new(&TreePath::parse("Not a valid path"), &probe_of(&disk, "Not a valid path"));
    assert!(a.is_err())
}

#[test]
fn should_create_file_tree() {
    let disk = testt();
    let tree = FileTree::new(&TreePath::parse("C:/programation/L3/IN 512 prog système/testt"), &disk);
    assert!(tree.is_ok());
    assert!(FileTree::new(&TreePath::parse("erreur"), &disk).is_err());
}

#[test]
fn should_get_root() {
    let disk = testt();
    let tree = FileTree::new(&TreePath::parse("C:/programation/L3/IN 512 prog système/testt/doss1/dossloin"), &disk);
    assert_eq!(tree.unwrap().get_root(), &TreePath::parse("C:/programation/L3/IN 512 prog système/testt/doss1/dossloin"))
}

#[test]
fn should_get_children() {
    let disk = testt();
    let tree = FileTree::new(&TreePath::parse("C:/programation/L3/IN 512 prog système/testt"), &disk).unwrap();
    let res = vec![TreePath::parse("C:/programation/L3/IN 512 prog système/testt/doss1/dossloin/dossloin2")];
    assert_eq!(tree.get_children(&TreePath::parse("C:/programation/L3/IN 512 prog système/testt/doss1/dossloin")).unwrap(), res);
    assert!(tree.get_children(&TreePath::parse("Not a valid path")).is_none())
}

#[test]
fn should_return_files() {
    let disk = testt();
    let tree = FileTree::new(&TreePath::parse("C:/programation/L3/IN 512 prog système/testt"), &disk).unwrap();
    let mut res = vec![TreePath::parse("C:/programation/L3/IN 512 prog système/testt\\doss1\\txt2.txt"), TreePath::parse("C:/programation/L3/IN 512 prog système/testt\\doss1\\dossloin\\txt1.txt"), TreePath::parse("C:/programation/L3/IN 512 prog système/testt\\doss2\\txt3.txt"), TreePath::parse("C:/programation/L3/IN 512 prog système/testt\\doss1\\dossloin\\dossloin2\\txtloin.txt")];
    assert_eq!(tree.files().sort(), res.sort());
    assert_eq!(
        sorted_texts(&tree.files()),
        vec![
            format!("{}/doss1/dossloin/dossloin2/txt1.txt", TESTT),
            format!("{}/doss1/dossloin/dossloin2/txtloin.txt", TESTT),
            format!("{}/doss1/txt2.txt", TESTT),
            format!("{}/doss2/txt3.txt", TESTT),
        ]
    );
}

#[test]
fn should_get_size() {
    let disk = testt();
    let tree = FileTree::new(&TreePath::parse("C:/programation/L3/IN 512 prog système/testt"), &disk).unwrap();
    let res = Size::new(1887);
    assert_eq!(tree.get_size(&TreePath::parse("C:/programation/L3/IN 512 prog système/testt/doss1")).unwrap(), res);
    let res = Size::new(119);
    assert_eq!(tree.get_size(&TreePath::parse("C:/programation/L3/IN 512 prog système/testt/doss1/dossloin")).unwrap(), res);
    assert!(tree.get_size(&TreePath::parse("Not a Valid path")).is_none());
}

#[test]
fn a_tree_of_one_file_has_one_entry() {
    let disk = vec![record("notes.txt", Probe::File { length: 77 })];
    let root = TreePath::parse("notes.txt");
    let tree = FileTree::new(&root, &disk).unwrap();
    assert_eq!(tree.files(), vec![root.clone()]);
    assert!(tree.directory().is_empty());
    assert_eq!(tree.get_size(&root), Some(Size::new(77)));
    assert!(tree.get_children(&root).is_none());
    assert_eq!(tree.get_root(), &root);
}

#[test]
fn a_missing_root_is_an_invalid_path() {
    let disk = testt();
    assert_eq!(FileTree::new(&TreePath::parse("nowhere"), &disk).err(), Some(TreeError::InvalidPath));
    assert_eq!(FileTree::new(&TreePath::parse("nowhere"), &Vec::new()).err(), Some(TreeError::InvalidPath));
    let special = vec![record("dev", directory(&["null"])), record("dev/null", Probe::Missing)];
    assert_eq!(FileTree::new(&TreePath::parse("dev"), &special).err(), Some(TreeError::InvalidPath));
}

#[test]
fn what_cannot_be_read_is_an_io_error() {
    let locked = vec![record("home", directory(&["secret"])), record("home/secret", Probe::Unreadable)];
    assert_eq!(FileTree::new(&TreePath::parse("home"), &locked).err(), Some(TreeError::IOError));
    assert_eq!(FileTree::new(&TreePath::parse("home/secret"), &locked).err(), Some(TreeError::IOError));
    assert_eq!(
        EntryNode::new(&TreePath::parse("home/secret"), &Probe::Unreadable),
        Err(TreeError::IOError)
    );
    assert_eq!(EntryNode::new(&TreePath::parse("gone"), &Probe::Missing), Err(TreeError::InvalidPath));
}

#[test]
fn a_listed_path_without_a_record_fails_the_walk() {
    let disk = vec![record("a", directory(&["b", "c"])), record("a/b", Probe::File { length: 1 })];
    assert_eq!(FileTree::new(&TreePath::parse("a"), &disk).err(), Some(TreeError::InvalidPath));
}

#[test]
fn every_child_has_an_entry() {
    let disk = testt();
    let tree = FileTree::new(&TreePath::parse(TESTT), &disk).unwrap();
    let mut seen = 0;
    for (_, directory) in tree.directory() {
        for child in tree.get_children(&directory).unwrap() {
            assert!(tree.is_valid_path(child).is_ok());
            assert!(tree.get_size(child).is_some());
            seen += 1;
        }
    }
    assert_eq!(seen, 8);
    assert_eq!(tree.is_valid_path(&TreePath::parse("elsewhere")), Err(TreeError::InvalidPath));
}

#[test]
fn a_directory_holds_what_its_files_hold() {
    let disk = testt();
    let tree = FileTree::new(&TreePath::parse(TESTT), &disk).unwrap();
    for (size, directory) in tree.directory() {
        let mut sum = Size::new(0);
        for file in tree.files() {
            if file.starts_with(&directory) {
                sum = sum + tree.get_size(&file).unwrap();
            }
        }
        assert_eq!(size, sum);
        assert_eq!(tree.get_size(&directory), Some(sum));
    }
    assert_eq!(tree.get_size(&TreePath::parse(TESTT)), Some(Size::new(1929)));
    assert_eq!(tree.get_size(&TreePath::parse(&format!("{}/doss2", TESTT))), Some(Size::new(42)));
    let empty = vec![record("void", directory(&["hollow"])), record("void/hollow", directory(&[]))];
    let tree = FileTree::new(&TreePath::parse("void"), &empty).unwrap();
    assert_eq!(tree.get_size(&TreePath::parse("void")), Some(Size::new(0)));
    assert_eq!(
        tree.directory(),
        vec![(Size::new(0), TreePath::parse("void")), (Size::new(0), TreePath::parse("void/hollow"))]
    );
}

#[test]
fn sizes_go_by_segments_and_not_by_letters() {
    let disk = vec![
        record("r", directory(&["ab", "abc"])),
        record("r/ab", directory(&["x"])),
        record("r/ab/x", Probe::File { length: 5 }),
        record("r/abc", Probe::File { length: 100 }),
    ];
    let tree = FileTree::new(&TreePath::parse("r"), &disk).unwrap();
    assert_eq!(tree.get_size(&TreePath::parse("r/ab")), Some(Size::new(5)));
    assert_eq!(tree.get_size(&TreePath::parse("r/abc")), Some(Size::new(100)));
    assert_eq!(tree.get_size(&TreePath::parse("r")), Some(Size::new(105)));
}

#[test]
fn of_two_records_the_later_counts_and_what_is_not_reached_is_left_out() {
    let disk = vec![
        record("r", directory(&["old"])),
        record("r/old", Probe::File { length: 1 }),
        record("r", directory(&["new", "new"])),
        record("r/new", Probe::File { length: 2 }),
        record("stray", Probe::File { length: 9 }),
    ];
    let tree = FileTree::new(&TreePath::parse("r"), &disk).unwrap();
    assert_eq!(tree.files(), vec![TreePath::parse("r/new")]);
    assert_eq!(tree.get_size(&TreePath::parse("r")), Some(Size::new(2)));
    assert!(tree.is_valid_path(&TreePath::parse("stray")).is_err());
    assert_eq!(
        tree.get_children(&TreePath::parse("r")).unwrap(),
        vec![TreePath::parse("r/new"), TreePath::parse("r/new")]
    );
}

#[test]
fn a_scan_is_fed_step_by_step() {
    let disk = testt();
    let mut scan = Scan::start(&TreePath::parse(TESTT));
    assert!(Scan::start(&TreePath::parse(TESTT)).finish().is_none());
    let mut looks = 0;
    while let Some(path) = scan.next_path() {
        let probe = probe_of(&disk, &path.display());
        assert_eq!(scan.visit_dir(&probe), Ok(()));
        looks += 1;
    }
    assert_eq!(looks, 9);
    assert_eq!(scan.visit_dir(&Probe::Missing), Ok(()));
    let tree = scan.finish().unwrap();
    let whole = FileTree::new(&TreePath::parse(TESTT), &disk).unwrap();
    assert_eq!(sorted_texts(&tree.files()), sorted_texts(&whole.files()));
    assert_eq!(tree.get_size(tree.get_root()), Some(Size::new(1929)));
}

#[test]
fn a_scan_stops_where_a_probe_makes_no_entry() {
    let mut scan = Scan::start(&TreePath::parse("top"));
    assert_eq!(scan.visit_dir(&directory(&["in"])), Ok(()));
    assert_eq!(scan.next_path(), Some(TreePath::parse("top/in")));
    assert_eq!(scan.visit_dir(&Probe::Unreadable), Err(TreeError::IOError));
    assert_eq!(scan.next_path(), Some(TreePath::parse("top/in")));
    assert_eq!(scan.visit_dir(&Probe::Missing), Err(TreeError::InvalidPath));
    assert!(scan.finish().is_none());
}

#[test]
fn a_scan_whose_bytes_do_not_fit_gives_no_tree() {
    let mut scan = Scan::start(&TreePath::parse("big"));
    assert_eq!(scan.visit_dir(&directory(&["a", "b"])), Ok(()));
    while scan.next_path().is_some() {
        assert_eq!(scan.visit_dir(&Probe::File { length: u64::MAX }), Ok(()));
    }
    assert!(scan.finish().is_none());
}

#[test]
fn the_walk_takes_the_last_name_of_a_listing_first() {
    let disk = vec![
        record("a", directory(&["b", "c", "d"])),
        record("a/b", Probe::File { length: 1 }),
        record("a/c", directory(&["x", "y"])),
        record("a/c/x", Probe::File { length: 2 }),
        record("a/c/y", Probe::File { length: 3 }),
        record("a/d", Probe::File { length: 4 }),
    ];
    let tree = FileTree::new(&TreePath::parse("a"), &disk).unwrap();
    let files: Vec<String> = tree.files().iter().map(|file| file.display()).collect();
    assert_eq!(files, vec!["a/d", "a/c/y", "a/c/x", "a/b"]);
    assert_eq!(
        tree.directory(),
        vec![(Size::new(10), TreePath::parse("a")), (Size::new(5), TreePath::parse("a/c"))]
    );
}

#[test]
fn of_two_failures_the_walk_returns_the_one_it_meets_first() {
    let missing_last = vec![record("a", directory(&["locked", "gone"])), record("a/locked", Probe::Unreadable)];
    assert_eq!(FileTree::new(&TreePath::parse("a"), &missing_last).err(), Some(TreeError::InvalidPath));
    let locked_last = vec![record("a", directory(&["gone", "locked"])), record("a/locked", Probe::Unreadable)];
    assert_eq!(FileTree::new(&TreePath::parse("a"), &locked_last).err(), Some(TreeError::IOError));
}

#[test]
fn a_disk_fits_where_its_files_add_up_within_64_bits() {
    assert!(disk_fits(&testt()));
    assert!(disk_fits(&Vec::new()));
    let full = vec![
        record("big", directory(&["a", "b"])),
        record("big/a", Probe::File { length: u64::MAX - 1 }),
        record("big/b", Probe::File { length: 1 }),
    ];
    assert!(disk_fits(&full));
    assert_eq!(
        FileTree::new(&TreePath::parse("big"), &full).unwrap().get_size(&TreePath::parse("big")),
        Some(Size::new(u64::MAX))
    );
    let over = vec![
        record("big", directory(&["a", "b"])),
        record("big/a", Probe::File { length: u64::MAX }),
        record("big/b", Probe::File { length: 1 }),
    ];
    assert!(!disk_fits(&over));
}
