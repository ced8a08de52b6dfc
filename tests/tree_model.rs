use dirman::text::{chars_of, parse_usize, split_segments, split_words};
use dirman::tree::{DirTree, File, TreeError};

fn c(s: &str) -> Vec<char> {
    chars_of(s)
}

fn names(t: &DirTree, dir: usize) -> (Vec<String>, Vec<String>) {
    let files = t.nodes[dir].files.iter().map(|f| f.name.iter().collect()).collect();
    let dirs = t.nodes[dir]
        .directories
        .iter()
        .map(|&d| t.nodes[d].name.iter().collect())
        .collect();
    (files, dirs)
}

fn file(name: &str) -> File {
    File { name: c(name), modified: 0, size: 0 }
}

#[test]
fn insertions_stay_sorted_and_unique() {
    let mut t = DirTree::new(c("root"), 0);
    for n in ["m.txt", "b.txt", "z.txt", "a.txt"] {
        assert!(t.insert_file(0, file(n)).is_ok());
    }
    for n in ["q", "c", "x"] {
        assert!(t.insert_directory(0, c(n), 0).is_ok());
    }
    assert_eq!(t.insert_file(0, file("b.txt")), Err(TreeError::NameTaken));
    assert_eq!(t.insert_file(0, file("q")), Err(TreeError::NameTaken));
    assert_eq!(t.insert_directory(0, c("a.txt"), 0), Err(TreeError::NameTaken));
    let (files, dirs) = names(&t, 0);
    assert_eq!(files, vec!["a.txt", "b.txt", "m.txt", "z.txt"]);
    assert_eq!(dirs, vec!["c", "q", "x"]);

    let k = t.find_file(0, &c("m.txt")).unwrap();
    let removed = t.remove_file(0, k);
    assert_eq!(removed.name, c("m.txt"));
    let (files, _) = names(&t, 0);
    assert_eq!(files, vec!["a.txt", "b.txt", "z.txt"]);

    let q = t.nodes[0].directories[1];
    assert_eq!(t.rename_directory(q, c("a")), Ok(()));
    let (_, dirs) = names(&t, 0);
    assert_eq!(dirs, vec!["a", "c", "x"]);
    let x = t.nodes[0].directories[2];
    assert_eq!(t.rename_directory(x, c("c")), Err(TreeError::NameTaken));
    assert_eq!(t.rename_directory(0, c("other")), Err(TreeError::IsRoot));
    assert_eq!(t.detach_directory(x), Ok(()));
    let (_, dirs) = names(&t, 0);
    assert_eq!(dirs, vec!["a", "c"]);
    assert_eq!(t.detach_directory(0), Err(TreeError::IsRoot));
}

#[test]
fn insert_returns_sorted_position() {
    let mut t = DirTree::new(c("root"), 0);
    assert_eq!(t.insert_file(0, file("b")), Ok(0));
    assert_eq!(t.insert_file(0, file("a")), Ok(0));
    assert_eq!(t.insert_file(0, file("c")), Ok(2));
    assert_eq!(t.insert_directory(0, c("d"), 0), Ok(1));
}

/// root/{a/x, b/c/x}
fn two_x() -> (DirTree, usize, usize, usize) {
    let mut t = DirTree::new(c("root"), 0);
    let a = t.insert_directory(0, c("a"), 0).unwrap();
    let b = t.insert_directory(0, c("b"), 0).unwrap();
    let x1 = t.insert_directory(a, c("x"), 0).unwrap();
    let bc = t.insert_directory(b, c("c"), 0).unwrap();
    let x2 = t.insert_directory(bc, c("x"), 0).unwrap();
    let _ = x1;
    (t, b, x1, x2)
}

#[test]
fn resolve_finds_both_and_closing_hides_one() {
    let (t, b, x1, x2) = two_x();
    let none: Vec<usize> = Vec::new();
    assert_eq!(t.resolve(&none, &c("x")), vec![x1, x2]);
    assert_eq!(t.resolve(&none, &c("b/x")), vec![x2]);
    assert_eq!(t.resolve(&none, &c("a/x")), vec![x1]);
    assert_eq!(t.resolve(&none, &c("nothing")), Vec::<usize>::new());
    let closed = vec![b];
    assert_eq!(t.resolve(&closed, &c("x")), vec![x1]);
    assert_eq!(t.resolve(&closed, &c("b")), vec![b]);
}

#[test]
fn resolve_is_exact_and_case_sensitive() {
    let (t, _, _, _) = two_x();
    let none: Vec<usize> = Vec::new();
    assert_eq!(t.resolve(&none, &c("X")), Vec::<usize>::new());
    assert_eq!(t.resolve(&none, &c("root")), vec![0]);
    assert_eq!(t.resolve(&none, &c("a//x")), Vec::<usize>::new());
}

#[test]
fn within_and_paths() {
    let (t, b, x1, x2) = two_x();
    assert!(t.is_within(b, x2));
    assert!(t.is_within(0, x1));
    assert!(!t.is_within(b, x1));
    assert!(t.is_within(x2, x2));
    let p: Vec<String> = t.path_of(x2).iter().map(|n| n.iter().collect()).collect();
    assert_eq!(p, vec!["b", "c", "x"]);
    assert!(t.path_of(0).is_empty());
}

#[test]
fn words_and_segments() {
    let ws: Vec<String> = split_words(&c("  move  a.txt\tdir ")).iter().map(|w| w.iter().collect()).collect();
    assert_eq!(ws, vec!["move", "a.txt", "dir"]);
    assert!(split_words(&c(" \t ")).is_empty());
    let ss: Vec<String> = split_segments(&c("a//b/")).iter().map(|w| w.iter().collect()).collect();
    assert_eq!(ss, vec!["a", "", "b", ""]);
}

#[test]
fn index_parsing() {
    assert_eq!(parse_usize(&c("12")), Some(12));
    assert_eq!(parse_usize(&c("+3")), Some(3));
    assert_eq!(parse_usize(&c("")), None);
    assert_eq!(parse_usize(&c("+")), None);
    assert_eq!(parse_usize(&c("-1")), None);
    assert_eq!(parse_usize(&c("1a")), None);
    assert_eq!(parse_usize(&c("18446744073709551615")), Some(usize::MAX));
    assert_eq!(parse_usize(&c("18446744073709551616")), None);
}
