use bear_to_markdown::paths::{
    path_components, path_descends_only, path_file_name, sanitize_file_name, stem_and_extension,
    MAX_NAME_CHARS,
};
use bear_to_markdown::text::{
    chars_of, decimal_string, holds, is_control, is_whitespace, joined, same, same_list,
    split_at_each, string_of, trimmed, trimmed_end, trimmed_start, without_empty, CharClass,
};
use bear_to_markdown::titles::derive_title;

fn strings(items: &[&str]) -> Vec<String> {
    items.iter().map(|item| item.to_string()).collect()
}

#[test]
fn character_classes_agree_with_std() {
    for code in 0..0x110000u32 {
        if let Some(c) = char::from_u32(code) {
            assert_eq!(is_whitespace(c), c.is_whitespace());
            assert_eq!(is_control(c), c.is_control());
        }
    }
}

#[test]
fn trimming_takes_the_class_off_the_ends() {
    assert_eq!(trimmed_start("##a#", CharClass::One('#')), "a#");
    assert_eq!(trimmed_end("a/b//", CharClass::One('/')), "a/b");
    assert_eq!(trimmed(" . a.b . ", CharClass::DotOrSpace), "a.b");
    assert_eq!(trimmed("\u{3000}x\t", CharClass::Whitespace), "x");
    assert_eq!(trimmed("   ", CharClass::Whitespace), "");
}

#[test]
fn splitting_and_joining() {
    let pieces = split_at_each("/a//ö/", CharClass::One('/'));
    assert_eq!(pieces, strings(&["", "a", "", "ö", ""]));
    assert_eq!(split_at_each("", CharClass::One('/')), strings(&[""]));
    assert_eq!(joined(&pieces, "/"), "/a//ö/");
    assert_eq!(without_empty(&pieces), strings(&["a", "ö"]));
    assert_eq!(joined(&Vec::new(), "/"), "");
}

#[test]
fn small_text_functions() {
    let chars = chars_of("häß");
    assert_eq!(chars, vec!['h', 'ä', 'ß']);
    assert_eq!(string_of(&chars, 1, 3), "äß");
    assert_eq!(decimal_string(0), "0");
    assert_eq!(decimal_string(10), "10");
    assert_eq!(decimal_string(usize::MAX), format!("{}", usize::MAX));
    assert!(same("a", "a") && !same("a", "b"));
    assert!(holds(&strings(&["a", "b"]), &"b".to_string()));
    assert!(!holds(&strings(&["a"]), &"b".to_string()));
    assert!(same_list(&strings(&["a", "b"]), &strings(&["a", "b"])));
    assert!(!same_list(&strings(&["a", "b"]), &strings(&["a", "c"])));
    assert!(!same_list(&strings(&["a"]), &strings(&["a", "b"])));
}

#[test]
fn forbidden_characters_become_single_spaces() {
    assert_eq!(sanitize_file_name("a/b\\c:d*e?f\"g<h>i|j"), "a b c d e f g h i j");
    assert_eq!(sanitize_file_name("tab\tnew\nline\u{7}bell"), "tab new line bell");
    assert_eq!(sanitize_file_name("  two   words "), "two words");
    assert_eq!(sanitize_file_name("Größe\u{a0}und\u{2003}Maß"), "Größe und Maß");
}

#[test]
fn dots_and_spaces_are_trimmed_from_names() {
    assert_eq!(sanitize_file_name(".hidden"), "hidden");
    assert_eq!(sanitize_file_name("... dots ..."), "dots");
    assert_eq!(sanitize_file_name("a.b"), "a.b");
    assert_eq!(sanitize_file_name(".."), "Untitled");
    assert_eq!(sanitize_file_name("./../"), "Untitled");
    assert_eq!(sanitize_file_name(""), "Untitled");
    assert_eq!(sanitize_file_name("///"), "Untitled");
}

#[test]
fn long_names_are_cut_by_characters() {
    let long = "ä".repeat(200);
    assert_eq!(sanitize_file_name(&long), "ä".repeat(MAX_NAME_CHARS));
    assert_eq!(MAX_NAME_CHARS, 120);
    let exact = "x".repeat(120);
    assert_eq!(sanitize_file_name(&exact), exact);
    // The cut may leave a space at the end.
    let cut = format!("{} tail", "x".repeat(119));
    assert_eq!(sanitize_file_name(&cut), format!("{} ", "x".repeat(119)));
}

#[test]
fn titles_come_from_the_first_line_with_content() {
    assert_eq!(derive_title("# Hello\nbody"), "Hello");
    assert_eq!(derive_title("\n\n###\n  \n## Second ##\n"), "Second ##");
    assert_eq!(derive_title("plain"), "plain");
    assert_eq!(derive_title(" # not stripped"), "# not stripped");
    assert_eq!(derive_title("#\r\n# Windows\r\n"), "Windows");
    assert_eq!(derive_title(""), "Untitled");
    assert_eq!(derive_title("###\n#\n \t"), "Untitled");
}

#[test]
fn path_parts_agree_with_std() {
    for path in [
        "a/b.png", "a//b/", "./a", "a/./b", "/a", "..", "a/..", "../a", ".", "", "a", "a/b/..", "/", "a/.",
        "..a", "a..", "..a/b",
    ] {
        let std_path = std::path::Path::new(path);
        let normal: Vec<String> = std_path
            .components()
            .filter(|c| matches!(c, std::path::Component::Normal(_) | std::path::Component::ParentDir))
            .map(|c| c.as_os_str().to_string_lossy().into_owned())
            .collect();
        assert_eq!(path_components(path), normal, "{path}");
        assert_eq!(
            path_file_name(path),
            std_path.file_name().map(|name| name.to_string_lossy().into_owned()),
            "{path}"
        );
        assert_eq!(
            path_descends_only(path),
            std_path.components().all(|c| matches!(c, std::path::Component::Normal(_))),
            "{path}"
        );
    }
}

#[test]
fn stems_and_extensions_agree_with_std() {
    for name in [
        "a.png", "a.tar.gz", "noext", ".hidden", ".hidden.txt", "a.", "..a", "dir/x.y", "..", "", "x.md/",
    ] {
        let std_path = std::path::Path::new(name);
        let stem = std_path.file_stem().unwrap_or_default().to_string_lossy().into_owned();
        let extension = std_path
            .extension()
            .map(|extension| format!(".{}", extension.to_string_lossy()))
            .unwrap_or_default();
        assert_eq!(stem_and_extension(name), (stem, extension), "{name}");
    }
}
