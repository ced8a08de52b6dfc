use dirman::render::tree_lines;
use dirman::state::{Change, FsKind, Notice, Pending, StateManager, Stamp, Step};
use dirman::text::chars_of;
use dirman::tree::{DirTree, File};
use dirman::view::Vector2;

fn c(s: &str) -> Vec<char> {
    chars_of(s)
}

fn s(v: &[char]) -> String {
    v.iter().collect()
}

fn path(p: &[Vec<char>]) -> Vec<String> {
    p.iter().map(|n| s(n)).collect()
}

fn file(name: &str) -> File {
    File { name: c(name), modified: 0, size: 10 }
}

/// root/{dup, logs/{dup, inner}, notes.txt}, logs holding app.log
fn sample() -> (StateManager, usize, usize, usize, usize) {
    let mut t = DirTree::new(c("root"), 0);
    let dup1 = t.insert_directory(0, c("dup"), 0).unwrap();
    let logs = t.insert_directory(0, c("logs"), 0).unwrap();
    let dup2 = t.insert_directory(logs, c("dup"), 0).unwrap();
    let inner = t.insert_directory(logs, c("inner"), 0).unwrap();
    t.insert_file(0, file("notes.txt")).unwrap();
    t.insert_file(logs, file("app.log")).unwrap();
    let m = StateManager::init(Vector2 { x: 80, y: 24 }, t);
    (m, dup1, logs, dup2, inner)
}

fn run(m: &mut StateManager, cmd: &str) -> Step {
    m.process_command(&c(cmd))
}

fn notice(step: Step) -> Notice {
    match step {
        Step::Done(n) => n,
        Step::Perform(..) => panic!("expected a notice"),
    }
}

fn tree_text(m: &StateManager) -> Vec<String> {
    tree_lines(&m.tree, &m.marks)
        .iter()
        .map(|l| l.iter().flat_map(|p| p.string.iter()).collect())
        .collect()
}

#[test]
fn disambiguation_enter_second_candidate() {
    let (mut m, dup1, _, dup2, _) = sample();
    assert_eq!(notice(run(&mut m, "enter dup")), Notice::Ambiguous);
    assert_eq!(m.marks.ambiguous, vec![dup1, dup2]);
    assert!(matches!(m.pending, Pending::Disambiguation { .. }));
    let lines = tree_text(&m);
    assert_eq!(lines[1], "├─ dup: 0");
    assert_eq!(lines[3], "   ├─ dup: 1");
    assert_eq!(notice(run(&mut m, "7")), Notice::AskIndex);
    assert_eq!(notice(run(&mut m, "1")), Notice::Title);
    assert_eq!(m.marks.current, dup2);
    assert!(matches!(m.pending, Pending::Idle));
    assert!(m.marks.ambiguous.is_empty());
}

#[test]
fn disambiguation_cancel_keeps_current() {
    let (mut m, _, _, _, _) = sample();
    assert_eq!(notice(run(&mut m, "enter dup")), Notice::Ambiguous);
    assert_eq!(notice(run(&mut m, "cancel")), Notice::Title);
    assert_eq!(m.marks.current, 0);
    assert!(matches!(m.pending, Pending::Idle));
    assert!(m.marks.ambiguous.is_empty());
}

#[test]
fn remove_directory_needs_confirmation() {
    let (mut m, _, logs, _, inner) = sample();
    assert_eq!(notice(run(&mut m, "enter inner")), Notice::Title);
    assert_eq!(m.marks.current, inner);
    assert_eq!(notice(run(&mut m, "remove logs")), Notice::ConfirmRemoval);
    assert_eq!(m.marks.to_remove, Some(logs));
    assert_eq!(tree_text(&m)[2], "└─ logs x");
    assert_eq!(notice(run(&mut m, "maybe")), Notice::AskYesNo);
    assert_eq!(notice(run(&mut m, "no")), Notice::Title);
    assert!(m.tree.nodes[0].directories.contains(&logs));
    assert_eq!(m.tree.nodes[logs].files.len(), 1);
    assert_eq!(notice(run(&mut m, "remove logs")), Notice::ConfirmRemoval);
    match run(&mut m, "yes") {
        Step::Perform(a, ch) => {
            assert_eq!(a.kind, FsKind::RemoveDirAll);
            assert_eq!(path(&a.from), vec!["logs"]);
            assert!(a.to.is_empty());
            assert_eq!(m.apply(ch, Stamp { modified: 0, size: 0 }), Notice::Title);
        }
        Step::Done(_) => panic!("expected a removal"),
    }
    assert!(!m.tree.nodes[0].directories.contains(&logs));
    assert_eq!(m.marks.current, 0);
    assert!(matches!(m.pending, Pending::Idle));
    assert_eq!(m.marks.to_remove, None);
}

#[test]
fn root_cannot_be_renamed_or_removed() {
    let (mut m, _, _, _, _) = sample();
    assert_eq!(notice(run(&mut m, "rename root top")), Notice::CannotRenameRoot);
    assert_eq!(notice(run(&mut m, "remove root")), Notice::CannotRemoveRoot);
    assert!(matches!(m.pending, Pending::Idle));
}

#[test]
fn new_file_when_taken_and_when_free() {
    let (mut m, _, _, _, _) = sample();
    assert_eq!(notice(run(&mut m, "new file notes.txt")), Notice::AlreadyExists);
    assert_eq!(notice(run(&mut m, "new file logs")), Notice::AlreadyExists);
    assert_eq!(m.tree.nodes[0].files.len(), 1);
    match run(&mut m, "new file foo.txt") {
        Step::Perform(a, ch) => {
            assert_eq!(a.kind, FsKind::CreateFile);
            assert_eq!(path(&a.from), vec!["foo.txt"]);
            assert_eq!(m.apply(ch, Stamp { modified: 5, size: 0 }), Notice::Title);
        }
        Step::Done(_) => panic!("expected a creation"),
    }
    let names: Vec<String> = m.tree.nodes[0].files.iter().map(|f| s(&f.name)).collect();
    assert_eq!(names, vec!["foo.txt", "notes.txt"]);
    assert_eq!(m.tree.nodes[0].files[0].size, 0);
    assert_eq!(m.tree.nodes[0].files[0].modified, 5);
}

#[test]
fn new_directory_goes_in_place() {
    let (mut m, _, _, _, _) = sample();
    match run(&mut m, "new directory alpha") {
        Step::Perform(a, ch) => {
            assert_eq!(a.kind, FsKind::CreateDir);
            assert_eq!(m.apply(ch, Stamp { modified: 0, size: 0 }), Notice::Title);
        }
        Step::Done(_) => panic!("expected a creation"),
    }
    let first = m.tree.nodes[0].directories[0];
    assert_eq!(s(&m.tree.nodes[first].name), "alpha");
    assert_eq!(notice(run(&mut m, "new thing x")), Notice::UsageNew);
}

#[test]
fn usage_and_unknown_commands() {
    let (mut m, _, _, _, _) = sample();
    assert_eq!(notice(run(&mut m, "   ")), Notice::EnterCommand);
    assert_eq!(notice(run(&mut m, "enter")), Notice::UsageEnter);
    assert_eq!(notice(run(&mut m, "open a b")), Notice::UsageOpen);
    assert_eq!(notice(run(&mut m, "close")), Notice::UsageClose);
    assert_eq!(notice(run(&mut m, "move a")), Notice::UsageMove);
    assert_eq!(notice(run(&mut m, "copy a")), Notice::UsageCopy);
    assert_eq!(notice(run(&mut m, "rename a")), Notice::UsageRename);
    assert_eq!(notice(run(&mut m, "remove")), Notice::UsageRemove);
    assert_eq!(notice(run(&mut m, "fly away")), Notice::InvalidCommand);
    assert_eq!(notice(run(&mut m, "enter nowhere")), Notice::DoesNotExist);
    assert_eq!(notice(run(&mut m, "move ghost.txt logs")), Notice::MoveMissing);
    assert_eq!(notice(run(&mut m, "copy ghost.txt logs")), Notice::CopyMissing);
    assert_eq!(notice(run(&mut m, "rename notes.txt logs")), Notice::NameTaken);
}

#[test]
fn move_into_directory_with_same_name_picks_suffix() {
    let (mut m, _, logs, _, _) = sample();
    m.tree.insert_file(logs, file("notes.txt")).unwrap();
    match run(&mut m, "move notes.txt logs") {
        Step::Perform(a, ch) => {
            assert_eq!(a.kind, FsKind::Rename);
            assert_eq!(path(&a.from), vec!["notes.txt"]);
            assert_eq!(path(&a.to), vec!["logs", "notes_1.txt"]);
            assert!(matches!(ch, Change::MoveFile { .. }));
            assert_eq!(m.apply(ch, Stamp { modified: 0, size: 0 }), Notice::Title);
        }
        Step::Done(_) => panic!("expected a move"),
    }
    assert!(m.tree.nodes[0].files.is_empty());
    let names: Vec<String> = m.tree.nodes[logs].files.iter().map(|f| s(&f.name)).collect();
    assert_eq!(names, vec!["app.log", "notes.txt", "notes_1.txt"]);
}

#[test]
fn copy_leaves_the_source_in_place() {
    let (mut m, _, logs, _, _) = sample();
    match run(&mut m, "copy notes.txt logs") {
        Step::Perform(a, ch) => {
            assert_eq!(a.kind, FsKind::Copy);
            assert_eq!(path(&a.to), vec!["logs", "notes.txt"]);
            assert_eq!(m.apply(ch, Stamp { modified: 0, size: 10 }), Notice::Title);
        }
        Step::Done(_) => panic!("expected a copy"),
    }
    assert_eq!(m.tree.nodes[0].files.len(), 1);
    assert_eq!(m.tree.nodes[logs].files.len(), 2);
}

#[test]
fn copy_name_search() {
    let (mut m, _, logs, _, _) = sample();
    m.tree.insert_file(logs, file("a.tar.gz")).unwrap();
    m.tree.insert_file(logs, file("a.tar_1.gz")).unwrap();
    m.tree.insert_file(logs, file(".hidden")).unwrap();
    assert_eq!(s(&m.get_copy_path(logs, &c("a.tar.gz"))), "a.tar_2.gz");
    assert_eq!(s(&m.get_copy_path(logs, &c(".hidden"))), ".hidden_1");
    assert_eq!(s(&m.get_copy_path(logs, &c("fresh"))), "fresh");
    assert_eq!(s(&m.get_copy_path(logs, &c("inner"))), "inner_1");
}

#[test]
fn rename_directory_and_file() {
    let (mut m, _, logs, _, _) = sample();
    match run(&mut m, "rename logs archive") {
        Step::Perform(a, ch) => {
            assert_eq!(path(&a.from), vec!["logs"]);
            assert_eq!(path(&a.to), vec!["archive"]);
            assert_eq!(m.apply(ch, Stamp { modified: 0, size: 0 }), Notice::Title);
        }
        Step::Done(_) => panic!("expected a rename"),
    }
    assert_eq!(s(&m.tree.nodes[logs].name), "archive");
    assert_eq!(m.tree.nodes[0].directories[0], logs);
    match run(&mut m, "rename notes.txt a.txt") {
        Step::Perform(a, ch) => {
            assert_eq!(path(&a.to), vec!["a.txt"]);
            assert_eq!(m.apply(ch, Stamp { modified: 0, size: 0 }), Notice::Title);
        }
        Step::Done(_) => panic!("expected a rename"),
    }
    assert_eq!(s(&m.tree.nodes[0].files[0].name), "a.txt");
    assert_eq!(m.tree.nodes[0].files[0].size, 10);
}

#[test]
fn close_hides_and_hoists_current() {
    let (mut m, dup1, logs, _, inner) = sample();
    assert_eq!(notice(run(&mut m, "enter inner")), Notice::Title);
    assert_eq!(notice(run(&mut m, "close logs")), Notice::Title);
    assert_eq!(m.marks.current, logs);
    assert_eq!(m.marks.closed, vec![logs]);
    assert_eq!(tree_text(&m), vec!["root", "├─ dup", "└─ logs +"]);
    assert_eq!(notice(run(&mut m, "enter dup")), Notice::Title);
    assert_eq!(m.marks.current, dup1);
    assert_eq!(notice(run(&mut m, "enter inner")), Notice::DoesNotExist);
    assert_eq!(notice(run(&mut m, "open logs")), Notice::Title);
    assert!(m.marks.closed.is_empty());
    assert_eq!(notice(run(&mut m, "enter inner")), Notice::Title);
    assert_eq!(m.marks.current, inner);
}

#[test]
fn remove_file_right_away() {
    let (mut m, _, _, _, _) = sample();
    match run(&mut m, "remove notes.txt") {
        Step::Perform(a, ch) => {
            assert_eq!(a.kind, FsKind::RemoveFile);
            assert_eq!(path(&a.from), vec!["notes.txt"]);
            assert_eq!(m.apply(ch, Stamp { modified: 0, size: 0 }), Notice::Title);
        }
        Step::Done(_) => panic!("expected a removal"),
    }
    assert!(m.tree.nodes[0].files.is_empty());
}

#[test]
fn stale_change_is_refused() {
    let (mut m, _, _, _, _) = sample();
    let ch = Change::NewFile { dir: 0, name: c("notes.txt") };
    assert_eq!(m.apply(ch, Stamp { modified: 0, size: 0 }), Notice::NameTaken);
    let ch = Change::RemoveFile { dir: 99, name: c("x") };
    assert_eq!(m.apply(ch, Stamp { modified: 0, size: 0 }), Notice::DoesNotExist);
    assert_eq!(m.tree.nodes[0].files.len(), 1);
}

#[test]
fn rendering_twice_gives_the_same_lines() {
    let (mut m, _, _, _, _) = sample();
    run(&mut m, "enter dup");
    let a = tree_text(&m);
    let b = tree_text(&m);
    assert_eq!(a, b);
    assert_eq!(a.len(), 5);
}

#[test]
fn tree_view_marks_and_branches() {
    let (mut m, _, _, _, _) = sample();
    assert_eq!(tree_text(&m), vec!["root", "├─ dup", "└─ logs", "   ├─ dup", "   └─ inner"]);
    let lines = tree_lines(&m.tree, &m.marks);
    assert_eq!(lines[0][0].color, Some(dirman::view::Color::Blue));
    assert_eq!(lines[1][1].color, None);
    run(&mut m, "close logs");
    let lines = tree_lines(&m.tree, &m.marks);
    assert_eq!(lines.len(), 3);
    assert_eq!(lines[2].len(), 3);
    assert_eq!(lines[2][1].color, Some(dirman::view::Color::DarkGray));
}
