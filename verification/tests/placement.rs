use bear_to_markdown::placement::{
    file_is_stale, stale_files, unique_path, ListedFile, Mode, Placement,
};

fn strings(items: &[&str]) -> Vec<String> {
    items.iter().map(|item| item.to_string()).collect()
}

fn used(placement: Placement) -> String {
    match placement {
        Placement::Use(name) => name,
        Placement::Probe(name) => panic!("still probing {name}"),
    }
}

fn probed(placement: Placement) -> String {
    match placement {
        Placement::Probe(name) => name,
        Placement::Use(name) => panic!("already using {name}"),
    }
}

fn file(path: &[&str]) -> ListedFile {
    ListedFile { path: strings(path), identity: path.join("/") }
}

#[test]
fn names_get_numerical_suffixes() {
    let taken = Some("other".to_string());
    let none = Vec::new();
    assert_eq!(probed(unique_path(Mode::Copy, "a.tar.gz", &vec![], &none)), "a.tar.gz");
    assert_eq!(probed(unique_path(Mode::Copy, "a.tar.gz", &vec![taken.clone()], &none)), "a.tar (2).gz");
    assert_eq!(
        probed(unique_path(Mode::Copy, "noext", &vec![taken.clone(), taken.clone()], &none)),
        "noext (3)"
    );
    assert_eq!(used(unique_path(Mode::Copy, "a.md", &vec![taken, None], &none)), "a (2).md");
    assert_eq!(used(unique_path(Mode::Copy, "a.md", &vec![None], &none)), "a.md");
}

#[test]
fn existing_files_are_overwritten_unless_copying() {
    let there = Some("old".to_string());
    let none = Vec::new();
    for mode in [Mode::Update, Mode::Mirror] {
        assert_eq!(used(unique_path(mode, "a.md", &vec![there.clone()], &none)), "a.md");
    }
    assert_eq!(probed(unique_path(Mode::Copy, "a.md", &vec![there], &none)), "a (2).md");
}

#[test]
fn what_the_export_wrote_is_not_overwritten() {
    let written = strings(&["mine"]);
    let mine = Some("mine".to_string());
    let old = Some("old".to_string());
    for mode in [Mode::Update, Mode::Mirror] {
        assert_eq!(probed(unique_path(mode, "a.md", &vec![mine.clone()], &written)), "a (2).md");
        assert_eq!(used(unique_path(mode, "a.md", &vec![mine.clone(), old.clone()], &written)), "a (2).md");
    }
}

#[test]
fn only_mirroring_deletes() {
    let listing = vec![
        file(&["Old.md"]),
        file(&["work", "New.md"]),
        file(&["assets", "Old", "x.png"]),
        file(&["work", "assets", "New", "y.png"]),
        file(&["notes.txt"]),
        file(&[".obsidian", "plugin.md"]),
        file(&[".hidden.md"]),
        file(&["assets", "loose.png"]),
        file(&["assets", "Old", ".dot"]),
    ];
    let written = strings(&["work/New.md", "work/assets/New/y.png"]);
    assert_eq!(stale_files(Mode::Mirror, &listing, &written), vec![0, 2, 8]);
    assert!(stale_files(Mode::Update, &listing, &written).is_empty());
    assert!(stale_files(Mode::Copy, &listing, &written).is_empty());
    assert!(file_is_stale(Mode::Mirror, &listing[0], &written));
    assert!(!file_is_stale(Mode::Mirror, &listing[1], &written));
    assert!(!file_is_stale(Mode::Mirror, &file(&[]), &written));
}
