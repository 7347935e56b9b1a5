use bear_to_markdown::export::{assets_prefix, note_contents, note_file_name, Exporter};
use bear_to_markdown::import::{AttachmentRewriter, Import, ImportEvent};
use bear_to_markdown::links::LinkEscapes;
use bear_to_markdown::note_export::{ExportEvent, NoteExport, Phase};
use bear_to_markdown::patterns::{find, BEAR_TOKEN_PATTERN, MARKDOWN_LINK_PATTERN};
use bear_to_markdown::placement::Mode;
use bear_to_markdown::rewriting::{rewrite_links, rewrite_tokens, Imported, Rewriting};
use std::collections::BTreeMap;

fn note(title: &str, text: &str, tags: &[&str]) -> bear_to_markdown::notes::Note {
    bear_to_markdown::notes::Note {
        title: title.to_string(),
        text: text.to_string(),
        tags: tags.iter().map(|tag| tag.to_string()).collect(),
        created: "2001-01-01T00:00:00Z".to_string(),
        modified: "2001-01-01T00:00:00Z".to_string(),
    }
}

fn directories(paths: &[&str]) -> Vec<Vec<String>> {
    paths.iter().map(|path| path.split('/').map(|name| name.to_string()).collect()).collect()
}

fn new_exporter(flat: bool, mode: Mode) -> Exporter {
    Exporter { flat, mode, attachment_dirs: directories(&["S/Images", "S/Files"]) }
}

fn rewriter() -> AttachmentRewriter {
    let source_dirs = directories(&["S/Images", "S/Files"]);
    AttachmentRewriter::new(Mode::Copy, source_dirs, vec!["assets".to_string()], LinkEscapes::new())
}

fn imported(link: &str, name: &str) -> Option<Imported> {
    Some(Imported { link: link.to_string(), name: name.to_string() })
}

/// Files by their path in the output directory; a path is its own identity.
struct Disk {
    files: BTreeMap<String, String>,
    store: Vec<Vec<&'static str>>,
    written: Vec<String>,
    copies: usize,
    missing: Vec<String>,
}

impl Disk {
    fn new(store: Vec<Vec<&'static str>>) -> Disk {
        Disk { files: BTreeMap::new(), store, written: Vec::new(), copies: 0, missing: Vec::new() }
    }

    fn existing(&self, path: &str) -> Option<String> {
        self.files.get(path).map(|_| path.to_string())
    }

    fn export(&mut self, mut export: NoteExport) -> usize {
        loop {
            let directory: String =
                export.directory().iter().map(|segment| format!("{segment}/")).collect();
            if let Some(target) = export.missing() {
                self.missing.push(target);
            }
            let event = match export.phase() {
                Phase::Directory => ExportEvent::DirectoryReady,
                Phase::Naming { name, .. } => {
                    ExportEvent::NameProbed(self.existing(&format!("{directory}{name}")))
                }
                Phase::Importing { name, import, .. } => {
                    let assets = format!("{directory}{}", assets_prefix(name).join("/"));
                    match import {
                        Import::FindSource { source, path } => ExportEvent::Imported(
                            ImportEvent::Source(self.store[*source].contains(&path.as_str())),
                        ),
                        Import::CreateDirectory { .. } => {
                            ExportEvent::Imported(ImportEvent::Directory(true))
                        }
                        Import::ProbeName { name, .. } => ExportEvent::Imported(
                            ImportEvent::Probed(self.existing(&format!("{assets}/{name}"))),
                        ),
                        Import::CopyFile { path, name, .. } => {
                            let target = format!("{assets}/{name}");
                            self.files.insert(target.clone(), format!("copy of {path}"));
                            self.copies += 1;
                            ExportEvent::Imported(ImportEvent::Copied(Some(target)))
                        }
                        Import::Done { .. } => ExportEvent::Continue,
                    }
                }
                Phase::Writing { name, contents, .. } => {
                    let path = format!("{directory}{name}");
                    self.files.insert(path.clone(), contents.clone());
                    ExportEvent::Written(path)
                }
                Phase::Done { attachments } => return *attachments,
            };
            export = export.resume(event, &mut self.written);
        }
    }

    fn body(&self, path: &str) -> &str {
        let (_, body) = self.files[path].split_once("---\n\n").unwrap();
        body
    }
}

#[test]
fn nested_tags_become_nested_directories() {
    let exporter = new_exporter(false, Mode::Copy);
    assert_eq!(exporter.note_directory(&note("t", "", &["work/projects", "b"])), vec!["work", "projects"]);
    assert_eq!(exporter.note_directory(&note("t", "", &["a//b"])), vec!["a", "b"]);
    assert!(exporter.note_directory(&note("t", "", &[])).is_empty());
    let flat = new_exporter(true, Mode::Copy);
    assert!(flat.note_directory(&note("t", "", &["work"])).is_empty());
}

#[test]
fn files_of_notes() {
    assert_eq!(note_file_name(&note("a/b", "", &[])), "a b.md");
    assert_eq!(assets_prefix("Note (2).md"), vec!["assets", "Note (2)"]);
    let plain = note("t", "", &[]);
    let front = "---\ntitle: \"t\"\ncreated: 2001-01-01T00:00:00Z\nmodified: 2001-01-01T00:00:00Z\n---\n\n";
    assert_eq!(note_contents(&plain, "body"), format!("{front}body\n"));
    assert_eq!(note_contents(&plain, "body\n"), format!("{front}body\n"));
    assert_eq!(note_contents(&plain, ""), front);
}

#[test]
fn tokens_become_markdown() {
    let tokens = find(BEAR_TOKEN_PATTERN, "a [image:x] b [file:y] c [image:z] d");
    let outcomes = vec![imported("l/x", "x"), imported("l/y", "y"), None];
    assert_eq!(rewrite_tokens(&tokens, &outcomes), "a ![x](l/x) b [y](l/y) c [image:z] d");
    assert_eq!(rewrite_tokens(&tokens, &Vec::new()), "a [image:x] b [file:y] c [image:z] d");
}

#[test]
fn links_are_retargeted() {
    let links = find(MARKDOWN_LINK_PATTERN, "[](x) ![](y) [label](z) [web](https://a.b)");
    let outcomes = vec![imported("l/x", "x"), imported("l/y", "y"), imported("l/z", "z"), None];
    assert_eq!(
        rewrite_links(&links, &outcomes),
        "[x](l/x) ![](l/y) [label](l/z) [web](https://a.b)"
    );
}

#[test]
fn rewriting_asks_for_every_target() {
    let rewriting = Rewriting::start("[image:a b.png] [](c%20d)");
    assert_eq!(rewriting.target().unwrap(), "a b.png");
    assert_eq!(rewriting.missing(&None).unwrap(), "a b.png");
    assert!(rewriting.missing(&imported("l", "n")).is_none());
    let rewriting = rewriting.resume(imported("l/a", "a"));
    assert_eq!(rewriting.target().unwrap(), "l/a");
    assert!(rewriting.missing(&None).is_none());
    let rewriting = rewriting.resume(None);
    assert_eq!(rewriting.target().unwrap(), "c%20d");
    assert!(rewriting.text().is_none());
    let rewriting = rewriting.resume(imported("l/c", "c d"));
    assert!(rewriting.target().is_none());
    assert_eq!(rewriting.text().unwrap(), "![a](l/a) [c d](l/c)");
}

#[test]
fn text_without_references_is_done_at_once() {
    assert_eq!(Rewriting::start("plain (text)\n").text().unwrap(), "plain (text)\n");
}

#[test]
fn targets_outside_the_store_are_refused() {
    let rewriter = rewriter();
    for target in ["../x", "a/%2E%2E/b", "/etc/passwd", "%2Fx", "./x", "%FF", "."] {
        assert!(matches!(rewriter.import(target), Import::Done { outcome: None, .. }), "{target}");
    }
    match rewriter.import("a%20b/%C3%B6.png") {
        Import::FindSource { source, path } => assert_eq!((source, path.as_str()), (0, "a b/ö.png")),
        _ => panic!("not looked for"),
    }
    match rewriter.import("100%") {
        Import::FindSource { source, path } => assert_eq!((source, path.as_str()), (0, "100%")),
        _ => panic!("not looked for"),
    }
}

#[test]
fn failures_on_disk_end_an_import() {
    let mut rewriter = rewriter();
    let mut written = Vec::new();
    let import = rewriter.import("x.png");
    let import = rewriter.resume(import, ImportEvent::Source(false), &mut written);
    let import = rewriter.resume(import, ImportEvent::Source(true), &mut written);
    assert!(matches!(import, Import::CreateDirectory { source: 1, .. }));
    let failed = rewriter.resume(import, ImportEvent::Directory(false), &mut written);
    assert!(matches!(failed, Import::Done { outcome: None, .. }));

    let import = rewriter.import("x.png");
    let import = rewriter.resume(import, ImportEvent::Source(false), &mut written);
    assert!(matches!(import, Import::FindSource { source: 1, .. }));
    let import = rewriter.resume(import, ImportEvent::Source(false), &mut written);
    assert!(matches!(import, Import::Done { outcome: None, .. }));

    let import = rewriter.import("d/x.png");
    let import = rewriter.resume(import, ImportEvent::Source(true), &mut written);
    let import = rewriter.resume(import, ImportEvent::Directory(true), &mut written);
    let import = rewriter.resume(import, ImportEvent::Source(false), &mut written);
    let import = rewriter.resume(import, ImportEvent::Probed(Some("old".to_string())), &mut written);
    match &import {
        Import::ProbeName { name, .. } => assert_eq!(name, "x (2).png"),
        _ => panic!("not probing"),
    }
    let import = rewriter.resume(import, ImportEvent::Probed(None), &mut written);
    let import = rewriter.resume(import, ImportEvent::Copied(None), &mut written);
    assert!(matches!(import, Import::Done { outcome: None, .. }));
    assert_eq!(rewriter.attachments(), 0);
    assert!(written.is_empty());
}

#[test]
fn a_note_and_its_attachments_are_exported() {
    let exporter = new_exporter(false, Mode::Copy);
    let mut disk = Disk::new(vec![vec!["u1/pic one.png"], vec!["u2/doc.pdf"]]);
    let text = "# T\n[image:u1/pic one.png] [](u2/doc.pdf) [again](u1/pic%20one.png) [file:gone] [w](https://x.y)";
    let count = disk.export(exporter.export(note("My: Note", text, &["work/a"]), LinkEscapes::new()));
    assert_eq!(count, 2);
    assert_eq!(disk.copies, 2);
    assert_eq!(disk.missing, vec!["gone"]);
    assert_eq!(
        disk.body("work/a/My Note.md"),
        "# T\n![pic one.png](assets/My%20Note/pic%20one.png) [doc.pdf](assets/My%20Note/doc.pdf) \
         [again](assets/My%20Note/pic%20one.png) [file:gone] [w](https://x.y)\n"
    );
    assert_eq!(disk.files["work/a/assets/My Note/doc.pdf"], "copy of u2/doc.pdf");
    assert_eq!(
        disk.written,
        vec!["work/a/assets/My Note/pic one.png", "work/a/assets/My Note/doc.pdf", "work/a/My Note.md"]
    );
}

#[test]
fn copying_keeps_files_and_updating_replaces_them() {
    for (mode, expected) in [
        (Mode::Copy, vec!["N (2).md", "N (3).md", "N.md"]),
        (Mode::Update, vec!["N (2).md", "N.md"]),
        (Mode::Mirror, vec!["N (2).md", "N.md"]),
    ] {
        let exporter = new_exporter(false, mode);
        let mut disk = Disk::new(vec![vec![], vec![]]);
        disk.files.insert("N.md".to_string(), "old".to_string());
        disk.export(exporter.export(note("N", "one", &[]), LinkEscapes::new()));
        disk.export(exporter.export(note("N", "two", &[]), LinkEscapes::new()));
        let names: Vec<&str> = disk.files.keys().map(|name| name.as_str()).collect();
        assert_eq!(names, expected);
        assert_eq!(disk.files["N.md"] == "old", mode == Mode::Copy);
    }
}

#[test]
fn attachments_of_equal_names_are_kept_apart() {
    let exporter = new_exporter(true, Mode::Update);
    let mut disk = Disk::new(vec![vec!["a/x.png", "b/x.png", "b//x.png"], vec![]]);
    let text = "[image:a/x.png][image:b//x.png][image:b/x.png]";
    let count = disk.export(exporter.export(note("N", text, &[]), LinkEscapes::new()));
    assert_eq!(count, 2);
    assert_eq!(
        disk.body("N.md"),
        "![x.png](assets/N/x.png)![x.png](assets/N/x%20%282%29.png)![x.png](assets/N/x%20%282%29.png)\n"
    );
}

#[test]
fn answers_to_other_questions_change_nothing() {
    let exporter = new_exporter(true, Mode::Copy);
    let mut written = Vec::new();
    let export = exporter.export(note("N", "", &[]), LinkEscapes::new());
    let export = export.resume(ExportEvent::Continue, &mut written);
    assert!(matches!(export.phase(), Phase::Directory));
    let export = export.resume(ExportEvent::Written("x".to_string()), &mut written);
    assert!(matches!(export.phase(), Phase::Directory));
    assert!(written.is_empty());
}

#[test]
fn the_first_directory_that_has_a_file_supplies_it() {
    let mut rewriter = rewriter();
    let mut written = Vec::new();
    let import = rewriter.import("x.png");
    assert!(matches!(import, Import::FindSource { source: 0, .. }));
    let import = rewriter.resume(import, ImportEvent::Source(true), &mut written);
    assert!(matches!(import, Import::CreateDirectory { source: 0, .. }));

    let none = AttachmentRewriter::new(Mode::Copy, Vec::new(), vec!["assets".to_string()], LinkEscapes::new());
    assert!(matches!(none.import("x.png"), Import::Done { outcome: None, .. }));
}

#[test]
fn missing_images_of_markdown_links_are_reported() {
    let mut disk = Disk::new(vec![vec!["here.png"], vec![]]);
    let text = "![](photo%20one.png) ![alt](dir/gone.png) ![](here.png) [image:lost.png]";
    let count = disk.export(new_exporter(true, Mode::Copy).export(note("N", text, &[]), LinkEscapes::new()));
    assert_eq!(count, 1);
    assert_eq!(disk.missing, vec!["lost.png", "photo%20one.png", "dir/gone.png"]);
    assert_eq!(
        disk.body("N.md"),
        "![](photo%20one.png) ![alt](dir/gone.png) ![](assets/N/here.png) [image:lost.png]\n"
    );
}

#[test]
fn links_to_elsewhere_are_not_reported() {
    let mut disk = Disk::new(vec![vec!["a b.png"], vec![]]);
    let text = "[w](https://x.y/z.png) [m](mailto:a@b.c) [up](../x) [root](/x) [image:a b.png] \
                [h](#top) [q](?x=1) [s](www.x.com/y)";
    let count = disk.export(new_exporter(true, Mode::Copy).export(note("N", text, &[]), LinkEscapes::new()));
    assert_eq!(count, 1);
    assert!(disk.missing.is_empty());
    assert_eq!(
        disk.body("N.md"),
        "[w](https://x.y/z.png) [m](mailto:a@b.c) [up](../x) [root](/x) ![a b.png](assets/N/a%20b.png) \
         [h](#top) [q](?x=1) [s](www.x.com/y)\n"
    );
}

#[test]
fn only_a_file_that_was_not_found_is_reported_of_a_link() {
    for (text, has_file, expected) in [
        ("[](x.png)", true, None),
        ("[](x.png)", false, Some("x.png".to_string())),
        ("[image:x.png]", true, Some("x.png".to_string())),
        ("[image:x.png]", false, Some("x.png".to_string())),
    ] {
        let mut written = Vec::new();
        let mut export = new_exporter(true, Mode::Copy).export(note("N", text, &[]), LinkEscapes::new());
        loop {
            let event = match export.phase() {
                Phase::Directory => ExportEvent::DirectoryReady,
                Phase::Naming { .. } => ExportEvent::NameProbed(None),
                Phase::Importing { import: Import::Done { outcome, found }, .. } => {
                    assert!(outcome.is_none());
                    assert_eq!(*found, has_file);
                    break;
                }
                Phase::Importing { import: Import::FindSource { .. }, .. } => {
                    ExportEvent::Imported(ImportEvent::Source(has_file))
                }
                Phase::Importing { .. } => ExportEvent::Imported(ImportEvent::Directory(false)),
                _ => unreachable!(),
            };
            assert!(export.missing().is_none());
            export = export.resume(event, &mut written);
        }
        assert_eq!(export.missing(), expected);
    }
}

#[test]
fn a_file_reached_in_two_ways_is_copied_once() {
    let exporter = Exporter { flat: true, mode: Mode::Copy, attachment_dirs: directories(&["S", "S/F"]) };
    let mut disk = Disk::new(vec![vec!["F/x", "F//x"], vec!["x", "F/x"]]);
    let text = "[file:F/x] [file:x] [again](F//x)";
    let count = disk.export(exporter.export(note("N", text, &[]), LinkEscapes::new()));
    assert_eq!(count, 1);
    assert_eq!(disk.copies, 1);
    assert_eq!(disk.body("N.md"), "[x](assets/N/x) [x](assets/N/x) [again](assets/N/x)\n");

    let exporter = Exporter { flat: true, mode: Mode::Copy, attachment_dirs: directories(&["S", "T"]) };
    let mut disk = Disk::new(vec![vec!["x"], vec!["y/x"]]);
    let count = disk.export(exporter.export(note("N", "[file:x] [file:y/x]", &[]), LinkEscapes::new()));
    assert_eq!(count, 2);
    assert_eq!(disk.body("N.md"), "[x](assets/N/x) [x](assets/N/x%20%282%29)\n");
}

#[test]
fn a_colon_behind_a_slash_is_no_scheme() {
    let rewriter = rewriter();
    assert!(rewriter.is_missing("dir/a:b.png"));
    assert!(!rewriter.is_missing("a:b.png"));
    assert!(rewriter.is_missing("plain.png"));
    assert!(!rewriter.is_missing("../plain.png"));
    assert!(!rewriter.is_missing("#plain.png"));
    assert!(rewriter.is_missing("%23plain.png"));
    assert!(rewriter.is_missing("www"));
}
