//! Notes, as they are read from Bear's database and as they are written.
use crate::patterns::{is_search, regex_captures, TAG_PATTERN};
use crate::tags::{
    extract_tags, is_tag, law_tags_are_in_order_of_appearance, law_tags_are_those_in_the_text,
    tag_stands_at, tags_in,
};
use crate::text::{
    join, joined, lemma_trim_is_part, option_view, trim, trimmed, views, whitespace, CharClass,
};
use crate::timestamps::{
    core_data_text, from_core_data_timestamp, is_rfc3339_time, rfc3339_text, CORE_DATA_EPOCH_MILLIS,
    YEAR_0_MILLIS, YEAR_10000_MILLIS,
};
use crate::titles::{derive_title, derived_title};
use vstd::prelude::*;

verus! {

/// A note to be exported.
pub struct Note {
    pub title: String,
    pub text: String,
    pub tags: Vec<String>,
    /// When the note was created, in the format of RFC 3339.
    pub created: String,
    /// When the note was last modified, in the format of RFC 3339.
    pub modified: String,
}

/// What a [`Note`] holds.
pub struct NoteView {
    pub title: Seq<char>,
    pub text: Seq<char>,
    pub tags: Seq<Seq<char>>,
    pub created: Seq<char>,
    pub modified: Seq<char>,
}

impl View for Note {
    type V = NoteView;

    open spec fn view(&self) -> NoteView {
        NoteView {
            title: self.title@,
            text: self.text@,
            tags: views(self.tags@),
            created: self.created@,
            modified: self.modified@,
        }
    }
}

/// A row of the notes table.
pub struct NoteRow {
    /// Not zero if the note is encrypted, and its text so not readable.
    pub encrypted: Option<i64>,
    pub title: Option<String>,
    pub text: String,
    /// When the note was created: a Core Data timestamp in milliseconds.
    pub created: Option<i64>,
    /// When the note was last modified: a Core Data timestamp in milliseconds.
    pub modified: Option<i64>,
}

/// What a [`NoteRow`] holds.
pub struct NoteRowView {
    pub encrypted: Option<i64>,
    pub title: Option<Seq<char>>,
    pub text: Seq<char>,
    pub created: Option<i64>,
    pub modified: Option<i64>,
}

impl View for NoteRow {
    type V = NoteRowView;

    open spec fn view(&self) -> NoteRowView {
        NoteRowView {
            encrypted: self.encrypted,
            title: option_view(self.title),
            text: self.text@,
            created: self.created,
            modified: self.modified,
        }
    }
}

/// The notes that could be read, and the number of those that could not.
pub struct LoadedNotes {
    pub notes: Vec<Note>,
    /// How many notes were skipped because they are encrypted.
    pub encrypted: usize,
}

/// Whether the flag of a note says that it is encrypted.
pub open spec fn encrypted(flag: Option<i64>) -> bool {
    flag is Some && flag->0 != 0
}

/// Whether the flag of a note says that it is encrypted.
pub fn is_encrypted(flag: Option<i64>) -> (res: bool)
    ensures
        res == encrypted(flag),
{
    match flag {
        Some(flag) => flag != 0,
        None => false,
    }
}

/// The title of a note: its own unless that is missing or blank.
pub open spec fn title_of(title: Option<Seq<char>>, text: Seq<char>) -> Seq<char> {
    if title is Some && trim(title->0, CharClass::Whitespace).len() > 0 {
        title->0
    } else {
        derived_title(text)
    }
}

/// The text of a timestamp of the notes table; one that is missing counts as
/// the start of Core Data's time.
pub open spec fn timestamp_text(millis: Option<i64>) -> Option<Seq<char>> {
    match millis {
        Some(millis) => core_data_text(millis as int),
        None => core_data_text(0),
    }
}

/// Whether both timestamps of a row can be written.
pub open spec fn is_datable(row: NoteRowView) -> bool {
    timestamp_text(row.created) is Some && timestamp_text(row.modified) is Some
}

/// The milliseconds of a timestamp since the start of the year 0; one that is
/// missing counts as the start of Core Data's time.
pub open spec fn millis_since_year_0(millis: Option<i64>) -> int {
    CORE_DATA_EPOCH_MILLIS - YEAR_0_MILLIS + match millis {
        Some(millis) => millis as int,
        None => 0,
    }
}

/// Whether a timestamp lies in the years 0 to 9999.
pub open spec fn has_four_digit_year(millis: Option<i64>) -> bool {
    0 <= millis_since_year_0(millis) < YEAR_10000_MILLIS - YEAR_0_MILLIS
}

/// Whether both timestamps of a row lie in the years 0 to 9999.
pub open spec fn has_four_digit_years(row: NoteRowView) -> bool {
    has_four_digit_year(row.created) && has_four_digit_year(row.modified)
}

/// Whether a text is the time of a timestamp in the format of RFC 3339, if the
/// timestamp lies in the years 0 to 9999.
pub open spec fn tells_time(text: Seq<char>, millis: Option<i64>) -> bool {
    has_four_digit_year(millis) ==> is_rfc3339_time(text, millis_since_year_0(millis) / 1000)
}

/// Whether the timestamps of a note are those of a row.
pub open spec fn is_dated(note: NoteView, row: NoteRowView) -> bool {
    tells_time(note.created, row.created) && tells_time(note.modified, row.modified)
}

/// The note that a row stands for.
pub open spec fn note_of(row: NoteRowView) -> NoteView {
    NoteView {
        title: title_of(row.title, row.text),
        text: row.text,
        tags: tags_in(row.text),
        created: timestamp_text(row.created)->0,
        modified: timestamp_text(row.modified)->0,
    }
}

/// The rows of the notes that can be read.
pub open spec fn readable(rows: Seq<NoteRowView>) -> Seq<NoteRowView> {
    rows.filter(|row: NoteRowView| !encrypted(row.encrypted))
}

/// The title of a note: its own unless that is missing or blank.
pub fn note_title(title: &Option<String>, text: &str) -> (res: String)
    ensures
        res@ == title_of(option_view(*title), text@),
{
    match title {
        Some(title) => {
            if trimmed(title.as_str(), CharClass::Whitespace).as_str().is_empty() {
                derive_title(text)
            } else {
                title.clone()
            }
        },
        None => derive_title(text),
    }
}

fn timestamp(millis: Option<i64>) -> (res: Option<String>)
    ensures
        option_view(res) == timestamp_text(millis),
        has_four_digit_year(millis) ==> res is Some,
        res is Some ==> tells_time(res->0@, millis),
{
    match millis {
        Some(millis) => from_core_data_timestamp(millis),
        None => from_core_data_timestamp(0),
    }
}

/// Whether the tags of a note are such as the search of its text finds.
pub open spec fn is_well_tagged(note: NoteView) -> bool {
    &&& is_search(TAG_PATTERN@, note.text, regex_captures(TAG_PATTERN@, note.text))
    &&& forall|i: int| 0 <= i < note.tags.len() ==> is_tag(#[trigger] note.tags[i])
}

/// The note that a row stands for, unless a timestamp cannot be written.
fn note_from_row(row: &NoteRow) -> (res: Option<Note>)
    ensures
        match res {
            Some(note) => is_datable(row@) && note@ == note_of(row@) && is_well_tagged(note@) && is_dated(
                note@,
                row@,
            ),
            None => !is_datable(row@) && !has_four_digit_years(row@),
        },
{
    match (timestamp(row.created), timestamp(row.modified)) {
        (Some(created), Some(modified)) => Some(
            Note {
                title: note_title(&row.title, row.text.as_str()),
                text: row.text.clone(),
                tags: extract_tags(row.text.as_str()),
                created,
                modified,
            },
        ),
        _ => None,
    }
}

/// The notes that the rows of the notes table stand for. Encrypted notes are
/// skipped, since Bear does not store their text in readable form. Nothing is
/// returned if a timestamp of a note is too far away to be written; none in the
/// years 0 to 9999 is.
pub fn load_notes(rows: &Vec<NoteRow>) -> (res: Option<LoadedNotes>)
    ensures
        res is Some <==> forall|i: int|
            0 <= i < rows@.len() && !encrypted(rows@[i].encrypted) ==> is_datable((#[trigger] rows@[i])@),
        forall|i: int|
            0 <= i < rows@.len() && !encrypted(rows@[i].encrypted) && has_four_digit_years(
                (#[trigger] rows@[i])@,
            ) ==> is_datable(rows@[i]@),
        res matches Some(loaded) ==> {
            &&& loaded.notes@.map_values(|note: Note| note@) == readable(
                rows@.map_values(|row: NoteRow| row@),
            ).map_values(|row: NoteRowView| note_of(row))
            &&& loaded.encrypted == rows@.len() - loaded.notes@.len()
            &&& forall|i: int|
                0 <= i < loaded.notes@.len() ==> is_well_tagged((#[trigger] loaded.notes@[i])@)
            &&& forall|i: int|
                0 <= i < loaded.notes@.len() ==> is_dated(
                    (#[trigger] loaded.notes@[i])@,
                    readable(rows@.map_values(|row: NoteRow| row@))[i],
                )
        },
{
    let ghost all = rows@.map_values(|row: NoteRow| row@);
    let mut notes: Vec<Note> = Vec::new();
    let mut skipped: usize = 0;
    let mut datable: bool = true;
    for i in 0..rows.len()
        invariant
            all == rows@.map_values(|row: NoteRow| row@),
            datable <==> forall|j: int|
                0 <= j < i && !encrypted(rows@[j].encrypted) ==> is_datable((#[trigger] rows@[j])@),
            forall|j: int|
                0 <= j < i && !encrypted(rows@[j].encrypted) && has_four_digit_years(
                    (#[trigger] rows@[j])@,
                ) ==> is_datable(rows@[j]@),
            skipped <= i,
            datable ==> {
                &&& notes@.map_values(|note: Note| note@) == readable(all.take(i as int)).map_values(
                    |row: NoteRowView| note_of(row),
                )
                &&& skipped == i - notes@.len()
                &&& forall|j: int| 0 <= j < notes@.len() ==> is_well_tagged((#[trigger] notes@[j])@)
                &&& forall|j: int|
                    0 <= j < notes@.len() ==> is_dated(
                        (#[trigger] notes@[j])@,
                        readable(all.take(i as int))[j],
                    )
            },
    {
        let ghost before = notes@.map_values(|note: Note| note@);
        let ghost kept = readable(all.take(i as int));
        proof {
            reveal(Seq::filter);
            assert(all.take(i + 1).drop_last() == all.take(i as int));
            assert(all.take(i + 1).last() == rows@[i as int]@);
        }
        if is_encrypted(rows[i].encrypted) {
            skipped = skipped + 1;
            assert(readable(all.take(i + 1)) == kept);
        } else {
            match note_from_row(&rows[i]) {
                Some(note) => {
                    notes.push(note);
                },
                None => {
                    datable = false;
                },
            }
            assert(readable(all.take(i + 1)) == kept.push(all[i as int]));
            if datable {
                assert(notes@.map_values(|note: Note| note@) == before.push(note_of(all[i as int])));
            }
        }
    }
    assert(all.take(all.len() as int) == all);
    if datable {
        Some(LoadedNotes { notes, encrypted: skipped })
    } else {
        None
    }
}

/// What a note must meet to be exported.
pub open spec fn conditions(include_trashed: bool, include_archived: bool) -> Seq<Seq<char>> {
    seq!["ZTEXT IS NOT NULL"@] + (if include_trashed {
        Seq::empty()
    } else {
        seq!["ZTRASHED = 0"@]
    }) + (if include_archived {
        Seq::empty()
    } else {
        seq!["ZARCHIVED = 0"@]
    })
}

/// The query for the notes. The column `ZENCRYPTED` does not exist in older
/// Bear schemas; without it no note is encrypted.
pub fn notes_query(has_encrypted: bool, include_trashed: bool, include_archived: bool) -> (res: String)
    ensures
        res@ == "SELECT ZTITLE, ZTEXT, ZCREATIONDATE, ZMODIFICATIONDATE, "@ + (if has_encrypted {
            "ZENCRYPTED"@
        } else {
            "0"@
        }) + " AS encrypted FROM ZSFNOTE WHERE "@ + join(
            conditions(include_trashed, include_archived),
            " AND "@,
        ) + " ORDER BY ZCREATIONDATE"@,
{
    let mut required: Vec<String> = Vec::new();
    required.push("ZTEXT IS NOT NULL".to_owned());
    if !include_trashed {
        required.push("ZTRASHED = 0".to_owned());
    }
    if !include_archived {
        required.push("ZARCHIVED = 0".to_owned());
    }
    assert(views(required@) == conditions(include_trashed, include_archived));
    let mut query = "SELECT ZTITLE, ZTEXT, ZCREATIONDATE, ZMODIFICATIONDATE, ".to_owned();
    if has_encrypted {
        query.push_str("ZENCRYPTED");
    } else {
        query.push_str("0");
    }
    query.push_str(" AS encrypted FROM ZSFNOTE WHERE ");
    query.push_str(joined(&required, " AND ").as_str());
    query.push_str(" ORDER BY ZCREATIONDATE");
    query
}

/// A query that can be prepared only if `table` has a column `column`.
pub fn column_query(table: &str, column: &str) -> (res: String)
    ensures
        res@ == "SELECT "@ + column@ + " FROM "@ + table@ + " LIMIT 0"@,
{
    let mut query = "SELECT ".to_owned();
    query.push_str(column);
    query.push_str(" FROM ");
    query.push_str(table);
    query.push_str(" LIMIT 0");
    query
}

/// A note as it is stored: a row of the notes table with the columns that the
/// conditions speak of.
pub struct StoredNote {
    pub encrypted: Option<i64>,
    pub title: Option<Seq<char>>,
    pub text: Option<Seq<char>>,
    pub created: Option<i64>,
    pub modified: Option<i64>,
    pub trashed: Option<i64>,
    pub archived: Option<i64>,
}

/// Whether a stored note meets a condition of the query.
pub open spec fn meets(stored: StoredNote, condition: Seq<char>) -> bool {
    if condition == "ZTRASHED = 0"@ {
        stored.trashed == Some(0i64)
    } else if condition == "ZARCHIVED = 0"@ {
        stored.archived == Some(0i64)
    } else {
        condition == "ZTEXT IS NOT NULL"@ && stored.text is Some
    }
}

/// Whether the query selects a stored note: it meets every condition.
pub open spec fn is_selected(stored: StoredNote, include_trashed: bool, include_archived: bool) -> bool {
    forall|i: int|
        0 <= i < conditions(include_trashed, include_archived).len() ==> meets(
            stored,
            #[trigger] conditions(include_trashed, include_archived)[i],
        )
}

/// The row that the query yields for a stored note.
pub open spec fn row_of(stored: StoredNote) -> NoteRowView {
    NoteRowView {
        encrypted: stored.encrypted,
        title: stored.title,
        text: stored.text->0,
        created: stored.created,
        modified: stored.modified,
    }
}

/// The notes that are exported from a table, which is given in the order in
/// which the query yields its rows.
pub open spec fn exported(
    table: Seq<StoredNote>,
    include_trashed: bool,
    include_archived: bool,
) -> Seq<NoteView> {
    readable(
        table.filter(|stored: StoredNote| is_selected(stored, include_trashed, include_archived)).map_values(
            |stored: StoredNote| row_of(stored),
        ),
    ).map_values(|row: NoteRowView| note_of(row))
}

/// Switching on an include flag only removes conditions.
pub proof fn law_including_more_removes_conditions(
    include_trashed: bool,
    include_archived: bool,
    more_trashed: bool,
    more_archived: bool,
    i: int,
)
    requires
        include_trashed ==> more_trashed,
        include_archived ==> more_archived,
        0 <= i < conditions(more_trashed, more_archived).len(),
    ensures
        conditions(include_trashed, include_archived).contains(conditions(more_trashed, more_archived)[i]),
{
    let fewer = conditions(include_trashed, include_archived);
    let condition = conditions(more_trashed, more_archived)[i];
    assert(fewer[0] == "ZTEXT IS NOT NULL"@);
    assert(!include_trashed ==> fewer[1] == "ZTRASHED = 0"@);
    assert(!include_archived ==> fewer[fewer.len() - 1] == "ZARCHIVED = 0"@);
    if i == 0 {
        assert(fewer[0] == condition);
    } else if i == 1 && !more_trashed {
        assert(fewer[1] == condition);
    } else {
        assert(fewer[fewer.len() - 1] == condition);
    }
}

/// What a query selects, a query that includes more selects too; and what only
/// the latter selects is in the trash, or archived, as a flag that was switched
/// on says.
pub proof fn law_including_more_selects_more(
    stored: StoredNote,
    include_trashed: bool,
    include_archived: bool,
    more_trashed: bool,
    more_archived: bool,
)
    requires
        include_trashed ==> more_trashed,
        include_archived ==> more_archived,
    ensures
        is_selected(stored, include_trashed, include_archived) ==> is_selected(
            stored,
            more_trashed,
            more_archived,
        ),
        is_selected(stored, more_trashed, more_archived) && !is_selected(
            stored,
            include_trashed,
            include_archived,
        ) ==> {
            ||| more_trashed && !include_trashed && stored.trashed != Some(0i64)
            ||| more_archived && !include_archived && stored.archived != Some(0i64)
        },
{
    reveal_strlit("ZTEXT IS NOT NULL");
    reveal_strlit("ZTRASHED = 0");
    reveal_strlit("ZARCHIVED = 0");
    assert("ZTEXT IS NOT NULL"@.len() != "ZTRASHED = 0"@.len());
    assert("ZTEXT IS NOT NULL"@.len() != "ZARCHIVED = 0"@.len());
    assert("ZTRASHED = 0"@.len() != "ZARCHIVED = 0"@.len());
    let fewer = conditions(include_trashed, include_archived);
    let more = conditions(more_trashed, more_archived);
    if is_selected(stored, include_trashed, include_archived) {
        assert forall|i: int| 0 <= i < more.len() implies meets(stored, #[trigger] more[i]) by {
            law_including_more_removes_conditions(
                include_trashed,
                include_archived,
                more_trashed,
                more_archived,
                i,
            );
            let k = choose|k: int| 0 <= k < fewer.len() && fewer[k] == more[i];
            assert(meets(stored, fewer[k]));
        }
    } else if is_selected(stored, more_trashed, more_archived) {
        let k = choose|k: int| 0 <= k < fewer.len() && !meets(stored, #[trigger] fewer[k]);
        assert(more[0] == "ZTEXT IS NOT NULL"@);
        assert(meets(stored, more[0]));
        assert(!more_trashed ==> more[1] == "ZTRASHED = 0"@ && meets(stored, more[1]));
        assert(!more_archived ==> more[more.len() - 1] == "ZARCHIVED = 0"@ && meets(
            stored,
            more[more.len() - 1],
        ));
    }
}

proof fn lemma_exported_last(table: Seq<StoredNote>, include_trashed: bool, include_archived: bool)
    requires
        table.len() > 0,
    ensures
        exported(table, include_trashed, include_archived) == if is_selected(
            table.last(),
            include_trashed,
            include_archived,
        ) && !encrypted(table.last().encrypted) {
            exported(table.drop_last(), include_trashed, include_archived).push(
                note_of(row_of(table.last())),
            )
        } else {
            exported(table.drop_last(), include_trashed, include_archived)
        },
{
    reveal(Seq::filter);
    let select = |stored: StoredNote| is_selected(stored, include_trashed, include_archived);
    let to_row = |stored: StoredNote| row_of(stored);
    let to_note = |row: NoteRowView| note_of(row);
    let rows = table.filter(select).map_values(to_row);
    let before = table.drop_last().filter(select).map_values(to_row);
    if select(table.last()) {
        assert(table.filter(select) == table.drop_last().filter(select).push(table.last()));
        assert(rows == before.push(row_of(table.last())));
        assert(rows.drop_last() == before);
        assert(rows.last() == row_of(table.last()));
        if !encrypted(table.last().encrypted) {
            assert(readable(rows) == readable(before).push(rows.last()));
            assert(readable(rows).map_values(to_note) == readable(before).map_values(to_note).push(
                note_of(rows.last()),
            ));
        } else {
            assert(readable(rows) == readable(before));
        }
    } else {
        assert(table.filter(select) == table.drop_last().filter(select));
    }
}

/// Switching on an include flag can only add notes: every note that was
/// exported without it is exported with it, as often.
pub proof fn law_including_more_adds_notes(
    table: Seq<StoredNote>,
    include_trashed: bool,
    include_archived: bool,
    more_trashed: bool,
    more_archived: bool,
)
    requires
        include_trashed ==> more_trashed,
        include_archived ==> more_archived,
    ensures
        exported(table, include_trashed, include_archived).to_multiset().subset_of(
            exported(table, more_trashed, more_archived).to_multiset(),
        ),
    decreases table.len(),
{
    broadcast use vstd::seq_lib::group_to_multiset_ensures;

    let fewer = exported(table, include_trashed, include_archived);
    let more = exported(table, more_trashed, more_archived);
    if table.len() == 0 {
        reveal(Seq::filter);
        assert(fewer == Seq::<NoteView>::empty());
        assert(more == Seq::<NoteView>::empty());
    } else {
        let rest = table.drop_last();
        law_including_more_adds_notes(
            rest,
            include_trashed,
            include_archived,
            more_trashed,
            more_archived,
        );
        law_including_more_selects_more(
            table.last(),
            include_trashed,
            include_archived,
            more_trashed,
            more_archived,
        );
        lemma_exported_last(table, include_trashed, include_archived);
        lemma_exported_last(table, more_trashed, more_archived);
        let fewer_before = exported(rest, include_trashed, include_archived).to_multiset();
        let more_before = exported(rest, more_trashed, more_archived).to_multiset();
        assert forall|note: NoteView| fewer.to_multiset().count(note) <= more.to_multiset().count(note) by {
            assert(fewer_before.count(note) <= more_before.count(note));
        }
    }
}

/// What a note and a row hold is what their fields hold.
pub proof fn law_views_are_of_the_fields(note: Note, row: NoteRow)
    ensures
        note@.title == note.title@ && note@.text == note.text@ && note@.tags == views(note.tags@),
        note@.created == note.created@ && note@.modified == note.modified@,
        row@.encrypted == row.encrypted && row@.title == option_view(row.title) && row@.text == row.text@,
        row@.created == row.created && row@.modified == row.modified,
{
}

/// A note says what its row says. Its text is that of the row, its tags are those
/// that stand in the text, each once and in the order of their first appearance,
/// and its title is that of the row if that has anything but white space.
pub proof fn law_note_says_what_its_row_says(row: NoteRowView, tag: Seq<char>, a: int, b: int)
    ensures
        note_of(row).text == row.text,
        note_of(row).tags.contains(tag) <==> exists|i: int| #[trigger] tag_stands_at(row.text, tag, i),
        note_of(row).tags.no_duplicates(),
        0 <= a < b < note_of(row).tags.len() ==> exists|i: int|
            #[trigger] tag_stands_at(row.text, note_of(row).tags[a], i) && forall|j: int|
                #[trigger] tag_stands_at(row.text, note_of(row).tags[b], j) ==> i < j,
        row.title matches Some(title) && (exists|i: int| 0 <= i < title.len() && !whitespace(#[trigger] title[i]))
            ==> note_of(row).title == row.title->0,
        row.title is None || (forall|i: int| 0 <= i < row.title->0.len() ==> whitespace(#[trigger] row.title->0[i]))
            ==> note_of(row).title == derived_title(row.text),
{
    law_tags_are_those_in_the_text(row.text, tag);
    if 0 <= a < b < tags_in(row.text).len() {
        law_tags_are_in_order_of_appearance(row.text, a, b);
    }
    if let Some(title) = row.title {
        let span = lemma_trim_is_part(title, CharClass::Whitespace);
        let kept = trim(title, CharClass::Whitespace);
        assert(kept.len() > 0 ==> kept.first() == title[span.0]);
    }
}

/// The timestamps of a note are those of its row: milliseconds since the start
/// of 2001, which is 978,307,200 seconds after the Unix epoch. One that is missing
/// counts as that start.
pub proof fn law_note_has_timestamps_of_its_row(row: NoteRowView)
    requires
        is_datable(row),
    ensures
        Some(note_of(row).created) == rfc3339_text(
            978_307_200_000 + if row.created is Some {
                row.created->0 as int
            } else {
                0
            },
        ),
        Some(note_of(row).modified) == rfc3339_text(
            978_307_200_000 + if row.modified is Some {
                row.modified->0 as int
            } else {
                0
            },
        ),
{
}

/// Which timestamps can be written: every one whose time can be, no others; and
/// which of them lie in the years 0 to 9999, in milliseconds since the start of
/// 2001.
pub proof fn law_which_rows_are_datable(row: NoteRowView, millis: i64)
    ensures
        is_datable(row) <==> timestamp_text(row.created) is Some && timestamp_text(row.modified) is Some,
        978_307_200_000 + millis <= i64::MAX ==> timestamp_text(Some(millis)) == rfc3339_text(
            978_307_200_000 + millis,
        ),
        978_307_200_000 + millis > i64::MAX ==> timestamp_text(Some(millis)) is None,
        timestamp_text(None) == timestamp_text(Some(0)),
        has_four_digit_year(Some(millis)) <==> -63_145_526_400_000 <= millis < 252_423_993_600_000,
        has_four_digit_year(None),
{
}

/// Every note is loaded but the encrypted ones, whose flag is there and not
/// zero: one more row is one more note, behind the others, or none.
pub proof fn law_only_encrypted_notes_are_left_out(rows: Seq<NoteRowView>, row: NoteRowView)
    ensures
        readable(Seq::empty()) == Seq::<NoteRowView>::empty(),
        row.encrypted is Some && row.encrypted->0 != 0 ==> readable(rows.push(row)) == readable(rows),
        row.encrypted is None || row.encrypted->0 == 0 ==> readable(rows.push(row)) == readable(rows).push(row),
{
    reveal(Seq::filter);
    assert(rows.push(row).drop_last() == rows);
    assert(readable(Seq::empty()) =~= Seq::<NoteRowView>::empty());
}

/// A note is selected if it has a text, is not in the trash unless those are
/// included, and is not archived unless those are included; and this is what the
/// query asks for, and no more.
pub proof fn law_what_is_selected(stored: StoredNote, include_trashed: bool, include_archived: bool)
    ensures
        is_selected(stored, include_trashed, include_archived) <==> {
            &&& stored.text is Some
            &&& include_trashed || stored.trashed == Some(0i64)
            &&& include_archived || stored.archived == Some(0i64)
        },
        conditions(include_trashed, include_archived).contains("ZTEXT IS NOT NULL"@),
        conditions(include_trashed, include_archived).contains("ZTRASHED = 0"@) <==> !include_trashed,
        conditions(include_trashed, include_archived).contains("ZARCHIVED = 0"@) <==> !include_archived,
        conditions(include_trashed, include_archived).len() == 1 + (if include_trashed {
            0int
        } else {
            1
        }) + (if include_archived {
            0int
        } else {
            1
        }),
{
    reveal_strlit("ZTEXT IS NOT NULL");
    reveal_strlit("ZTRASHED = 0");
    reveal_strlit("ZARCHIVED = 0");
    assert("ZTEXT IS NOT NULL"@.len() != "ZTRASHED = 0"@.len());
    assert("ZTEXT IS NOT NULL"@.len() != "ZARCHIVED = 0"@.len());
    assert("ZTRASHED = 0"@.len() != "ZARCHIVED = 0"@.len());
    let all = conditions(include_trashed, include_archived);
    assert(all[0] == "ZTEXT IS NOT NULL"@);
    assert(!include_trashed ==> all[1] == "ZTRASHED = 0"@);
    assert(!include_archived ==> all[all.len() - 1] == "ZARCHIVED = 0"@);
    if is_selected(stored, include_trashed, include_archived) {
        assert(meets(stored, all[0]));
        assert(!include_trashed ==> meets(stored, all[1]));
        assert(!include_archived ==> meets(stored, all[all.len() - 1]));
    }
}

} // verus!
