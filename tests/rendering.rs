use dirman::render::{detail_lines, file_size_to_str};
use dirman::text::chars_of;
use dirman::tree::{DirTree, File};
use dirman::view::Color;

fn text(l: &[dirman::view::ColoredString]) -> String {
    l.iter().flat_map(|p| p.string.iter()).collect()
}

#[test]
fn sizes_in_units() {
    assert_eq!(file_size_to_str(0), "0 B");
    assert_eq!(file_size_to_str(1023), "1023 B");
    assert_eq!(file_size_to_str(1024), "1 KB");
    assert_eq!(file_size_to_str(5 * 1024 * 1024 + 7), "5 MB");
    assert_eq!(file_size_to_str(3 * 1024 * 1024 * 1024), "3 GB");
    assert_eq!(file_size_to_str(u64::MAX), "17179869183 GB");
}

#[test]
fn empty_directory_listing() {
    let t = DirTree::new(chars_of("root"), 0);
    let lines = detail_lines(&t, 0);
    assert_eq!(lines.len(), 1);
    assert_eq!(text(&lines[0]), "This directory is empty");
}

#[test]
fn listing_shows_dates_sizes_and_names() {
    let mut t = DirTree::new(chars_of("root"), 0);
    // 2021-03-04 15:06 UTC
    t.insert_file(0, File { name: chars_of("b.txt"), modified: 1614870360, size: 2048 }).unwrap();
    t.insert_file(0, File { name: chars_of("a.txt"), modified: 0, size: 12 }).unwrap();
    t.insert_directory(0, chars_of("sub"), 1614816000).unwrap();
    let lines = detail_lines(&t, 0);
    let all: Vec<String> = lines.iter().map(|l| text(l)).collect();
    assert_eq!(
        all,
        vec![
            "Last Modified           Size  Name",
            "‾‾‾‾‾‾‾‾‾‾‾‾‾           ‾‾‾‾  ‾‾‾‾",
            "- Files -",
            "01/01/1970 12:00 AM     12 B  a.txt",
            "03/04/2021 03:06 PM     2 KB  b.txt",
            "",
            "- Directories -",
            "03/04/2021 12:00 AM           sub",
        ]
    );
    assert_eq!(lines[0][0].color, Some(Color::Cyan));
    assert_eq!(lines[3][0].color, None);
}

#[test]
fn listing_before_the_epoch() {
    let mut t = DirTree::new(chars_of("root"), 0);
    t.insert_file(0, File { name: chars_of("old"), modified: -86400 * 365, size: 0 }).unwrap();
    let lines = detail_lines(&t, 0);
    assert_eq!(text(&lines[3]), "01/01/1969 12:00 AM      0 B  old");
}
