use bear_to_markdown::front_matter::front_matter;
use bear_to_markdown::notes::{
    column_query, is_encrypted, load_notes, note_title, notes_query, Note, NoteRow,
};
use bear_to_markdown::timestamps::from_core_data_timestamp;

fn row(encrypted: Option<i64>, title: Option<&str>, text: &str) -> NoteRow {
    NoteRow {
        encrypted,
        title: title.map(|title| title.to_string()),
        text: text.to_string(),
        created: Some(0),
        modified: None,
    }
}

#[test]
fn core_data_time_starts_in_2001() {
    assert_eq!(from_core_data_timestamp(0).unwrap(), "2001-01-01T00:00:00Z");
    assert_eq!(from_core_data_timestamp(86_400_999).unwrap(), "2001-01-02T00:00:00Z");
    assert_eq!(from_core_data_timestamp(-1).unwrap(), "2000-12-31T23:59:59Z");
    assert_eq!(from_core_data_timestamp(-26_479_504_000).unwrap(), "2000-02-29T12:34:56Z");
    assert_eq!(from_core_data_timestamp(725_760_000_000).unwrap(), "2024-01-01T00:00:00Z");
}

#[test]
fn timestamps_at_the_edges() {
    assert_eq!(from_core_data_timestamp(-62_167_219_200_000 - 978_307_200_000).unwrap(), "0000-01-01T00:00:00Z");
    assert_eq!(from_core_data_timestamp(253_402_300_799_999 - 978_307_200_000).unwrap(), "9999-12-31T23:59:59Z");
    assert_eq!(from_core_data_timestamp(253_402_300_800_000 - 978_307_200_000).unwrap(), "+10000-01-01T00:00:00Z");
    assert!(from_core_data_timestamp(i64::MAX).is_none());
    assert!(from_core_data_timestamp(i64::MIN).is_none());
    assert!(from_core_data_timestamp(9_000_000_000_000_000).is_none());
}

#[test]
fn encrypted_notes_are_skipped_and_counted() {
    let rows = vec![
        row(None, Some("One"), "#a text"),
        row(Some(1), None, ""),
        row(Some(0), Some(" \t"), "# Two\n#b/c"),
    ];
    let loaded = load_notes(&rows).unwrap();
    assert_eq!(loaded.encrypted, 1);
    assert_eq!(loaded.notes.len(), 2);
    assert_eq!(loaded.notes[0].title, "One");
    assert_eq!(loaded.notes[0].tags, vec!["a"]);
    assert_eq!(loaded.notes[0].text, "#a text");
    assert_eq!(loaded.notes[0].created, "2001-01-01T00:00:00Z");
    assert_eq!(loaded.notes[0].modified, "2001-01-01T00:00:00Z");
    assert_eq!(loaded.notes[1].title, "Two");
    assert_eq!(loaded.notes[1].tags, vec!["b/c"]);
}

#[test]
fn notes_with_impossible_timestamps_are_not_loaded() {
    let mut bad = row(None, None, "x");
    bad.created = Some(i64::MAX);
    assert!(load_notes(&vec![bad]).is_none());
    let mut skipped = row(Some(2), None, "x");
    skipped.modified = Some(i64::MAX);
    assert_eq!(load_notes(&vec![skipped]).unwrap().encrypted, 1);
}

#[test]
fn encryption_flags() {
    assert!(!is_encrypted(None) && !is_encrypted(Some(0)));
    assert!(is_encrypted(Some(1)) && is_encrypted(Some(-1)));
}

#[test]
fn titles_of_notes() {
    assert_eq!(note_title(&Some(" Own ".to_string()), "# Other"), " Own ");
    assert_eq!(note_title(&Some("\u{a0}".to_string()), "# Other"), "Other");
    assert_eq!(note_title(&None, "\n"), "Untitled");
}

#[test]
fn queries() {
    assert_eq!(
        notes_query(true, false, false),
        "SELECT ZTITLE, ZTEXT, ZCREATIONDATE, ZMODIFICATIONDATE, ZENCRYPTED AS encrypted \
         FROM ZSFNOTE WHERE ZTEXT IS NOT NULL AND ZTRASHED = 0 AND ZARCHIVED = 0 ORDER BY ZCREATIONDATE"
    );
    assert_eq!(
        notes_query(false, true, false),
        "SELECT ZTITLE, ZTEXT, ZCREATIONDATE, ZMODIFICATIONDATE, 0 AS encrypted \
         FROM ZSFNOTE WHERE ZTEXT IS NOT NULL AND ZARCHIVED = 0 ORDER BY ZCREATIONDATE"
    );
    assert_eq!(
        notes_query(false, true, true),
        "SELECT ZTITLE, ZTEXT, ZCREATIONDATE, ZMODIFICATIONDATE, 0 AS encrypted \
         FROM ZSFNOTE WHERE ZTEXT IS NOT NULL ORDER BY ZCREATIONDATE"
    );
    assert_eq!(column_query("ZSFNOTE", "ZENCRYPTED"), "SELECT ZENCRYPTED FROM ZSFNOTE LIMIT 0");
}

#[test]
fn front_matter_holds_title_timestamps_and_tags() {
    let mut note = Note {
        title: "A \"quoted\" back\\slash".to_string(),
        text: String::new(),
        tags: vec!["work/projects".to_string(), "b".to_string()],
        created: "2001-01-01T00:00:00Z".to_string(),
        modified: "2002-01-01T00:00:00Z".to_string(),
    };
    assert_eq!(
        front_matter(&note),
        "---\ntitle: \"A \\\"quoted\\\" back\\\\slash\"\ncreated: 2001-01-01T00:00:00Z\n\
         modified: 2002-01-01T00:00:00Z\ntags:\n  - work/projects\n  - b\n---\n\n"
    );
    note.tags.clear();
    note.title = "T".to_string();
    assert_eq!(
        front_matter(&note),
        "---\ntitle: \"T\"\ncreated: 2001-01-01T00:00:00Z\nmodified: 2002-01-01T00:00:00Z\n---\n\n"
    );
}

#[test]
fn including_more_leaves_conditions_out() {
    let conditions = |trashed, archived| {
        let query = notes_query(true, trashed, archived);
        let (_, rest) = query.split_once(" WHERE ").unwrap();
        let (conditions, _) = rest.split_once(" ORDER BY ").unwrap();
        conditions.split(" AND ").map(|condition| condition.to_string()).collect::<Vec<String>>()
    };
    assert_eq!(conditions(false, false), vec!["ZTEXT IS NOT NULL", "ZTRASHED = 0", "ZARCHIVED = 0"]);
    for (trashed, archived) in [(true, false), (false, true), (true, true)] {
        let all = conditions(false, false);
        assert!(conditions(trashed, archived).iter().all(|condition| all.contains(condition)));
    }
    assert_eq!(conditions(false, true), vec!["ZTEXT IS NOT NULL", "ZTRASHED = 0"]);
}

#[test]
fn tags_can_be_read_back_from_front_matter() {
    let mut note = Note {
        title: "T: - x".to_string(),
        text: "one".to_string(),
        tags: vec!["b/c".to_string(), "a".to_string(), "größe".to_string()],
        created: "2001-01-01T00:00:00Z".to_string(),
        modified: "2001-01-01T00:00:00Z".to_string(),
    };
    let first = front_matter(&note);
    let items: Vec<&str> = first.lines().filter_map(|line| line.strip_prefix("  - ")).collect();
    assert_eq!(items, note.tags);
    note.title = "T\n  - x".to_string();
    let broken = front_matter(&note);
    let items: Vec<&str> = broken.lines().filter_map(|line| line.strip_prefix("  - ")).collect();
    assert_eq!(items, vec!["x\"", "b/c", "a", "größe"]);
    note.title = "T: - x".to_string();
    note.text = "another".to_string();
    assert_eq!(front_matter(&note), first);
}

#[test]
fn notes_in_the_years_0_to_9999_are_loaded() {
    let mut old = row(None, None, "x");
    old.created = Some(-62_167_219_200_000 - 978_307_200_000);
    old.modified = Some(253_402_300_799_999 - 978_307_200_000);
    let loaded = load_notes(&vec![old, row(None, None, "y")]).unwrap();
    assert_eq!(loaded.notes[0].created, "0000-01-01T00:00:00Z");
    assert_eq!(loaded.notes[0].modified, "9999-12-31T23:59:59Z");
    assert_eq!(loaded.notes[1].created, "2001-01-01T00:00:00Z");
    let mut bad = row(None, None, "x");
    bad.modified = Some(i64::MIN);
    assert!(load_notes(&vec![bad, row(None, None, "y")]).is_none());
}
