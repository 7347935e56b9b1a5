//! Where a note goes, and what its file holds.
use crate::front_matter::{front_matter, front_matter_of};
use crate::notes::{Note, NoteView};
use crate::paths::{
    extension, extension_start, file_name, is_last_dot, law_sanitized_is_safe, sanitize_file_name,
    sanitized, stem, stem_and_extension,
};
use crate::placement::{candidate, is_attachment_path, is_hidden, is_note_path, Mode};
use crate::tags::is_tag;
use crate::text::{
    chars_of, decimal, join, law_joined_pieces_can_be_split, lemma_all_non_empty,
    lemma_split_without_separator, non_empty, split, split_at_each, views, without_empty, CharClass,
};
use vstd::prelude::*;

verus! {

/// How notes are exported.
pub struct Exporter {
    /// Put all notes directly into the output directory instead of one
    /// directory per tag.
    pub flat: bool,
    pub mode: Mode,
    /// The directories that attachments may come from, in the order in which
    /// they are searched: of each, the names that lead to it from the directory
    /// of Bear's database.
    pub attachment_dirs: Vec<Vec<String>>,
}

/// The directories from the output directory to a note: one for each part of
/// its first tag, or none if it has no tag or `flat` is set.
pub open spec fn directory_of(flat: bool, tags: Seq<Seq<char>>) -> Seq<Seq<char>> {
    if flat || tags.len() == 0 {
        Seq::empty()
    } else {
        non_empty(split(tags[0], CharClass::One('/'))).map_values(|part: Seq<char>| sanitized(part))
    }
}

/// The file name of a note, before it is made unique.
pub open spec fn note_name(title: Seq<char>) -> Seq<char> {
    sanitized(title) + ".md"@
}

/// The directory of a note's attachments as seen from the note.
pub open spec fn assets_of(name: Seq<char>) -> Seq<Seq<char>> {
    seq!["assets"@, stem(name)]
}

/// What a note's file holds: the front matter and the body, with a newline at
/// the end.
pub open spec fn contents_of(note: NoteView, body: Seq<char>) -> Seq<char> {
    let contents = front_matter_of(note) + body;
    if contents.last() == '\n' {
        contents
    } else {
        contents.push('\n')
    }
}

impl Exporter {
    /// Notes live in a directory tree derived from their first tag; untagged
    /// notes go directly into the output directory. The result leads from the
    /// output directory to the note.
    pub fn note_directory(&self, note: &Note) -> (res: Vec<String>)
        ensures
            views(res@) == directory_of(self.flat, note@.tags),
    {
        let mut directory: Vec<String> = Vec::new();
        assert(views(directory@) == Seq::<Seq<char>>::empty());
        if self.flat || note.tags.len() == 0 {
            return directory;
        }
        let parts = without_empty(&split_at_each(note.tags[0].as_str(), CharClass::One('/')));
        for i in 0..parts.len()
            invariant
                directory@.len() == i,
                forall|j: int| 0 <= j < i ==> (#[trigger] directory@[j])@ == sanitized(parts@[j]@),
        {
            directory.push(sanitize_file_name(parts[i].as_str()));
        }
        assert(views(directory@) == views(parts@).map_values(|part: Seq<char>| sanitized(part)));
        directory
    }
}

/// The file name of a note, before it is made unique.
pub fn note_file_name(note: &Note) -> (res: String)
    ensures
        res@ == note_name(note@.title),
{
    let mut name = sanitize_file_name(note.title.as_str());
    name.push_str(".md");
    name
}

/// The directory for the attachments of the note in the file called `name`,
/// as seen from that file.
pub fn assets_prefix(name: &str) -> (res: Vec<String>)
    ensures
        views(res@) == assets_of(name@),
{
    let (stem, _) = stem_and_extension(name);
    let mut prefix: Vec<String> = Vec::new();
    prefix.push("assets".to_owned());
    prefix.push(stem);
    assert(views(prefix@) == assets_of(name@));
    prefix
}

/// What the file of a note holds, given its rewritten text.
pub fn note_contents(note: &Note, body: &str) -> (res: String)
    ensures
        res@ == contents_of(note@, body@),
{
    let mut contents = front_matter(note);
    contents.push_str(body);
    let chars = chars_of(contents.as_str());
    let count: usize = chars.len();
    proof {
        reveal_strlit("---\n\n");
    }
    if chars[count - 1] != '\n' {
        contents.push('\n');
    }
    contents
}

/// A note stays inside the output directory: every directory that leads to it
/// is a single component that is neither `.` nor `..`.
pub proof fn law_note_stays_inside_output(flat: bool, tags: Seq<Seq<char>>, i: int)
    requires
        0 <= i < directory_of(flat, tags).len(),
    ensures
        directory_of(flat, tags)[i].len() > 0,
        !is_hidden(directory_of(flat, tags)[i]),
        !directory_of(flat, tags)[i].contains('/'),
{
    let part = non_empty(split(tags[0], CharClass::One('/')))[i];
    law_sanitized_is_safe(part);
}

proof fn lemma_first_piece(s: Seq<char>, class: CharClass)
    requires
        s.len() > 0,
        !class.holds(s[0]),
    ensures
        split(s, class).len() > 0,
        split(s, class)[0].len() > 0,
    decreases s.len(),
{
    if s.len() > 1 {
        lemma_first_piece(s.drop_last(), class);
    } else {
        assert(s.drop_last() == Seq::<char>::empty());
        assert(split(Seq::<char>::empty(), class) == seq![Seq::<char>::empty()]);
        assert(split(s, class).last() == Seq::<char>::empty().push(s[0]));
    }
}

/// A tagged note goes into a directory: unless `flat` is set, at least one
/// directory leads to it.
pub proof fn law_tagged_note_has_directory(tags: Seq<Seq<char>>)
    requires
        tags.len() > 0,
        is_tag(tags[0]),
    ensures
        directory_of(false, tags).len() > 0,
{
    broadcast use vstd::seq_lib::group_filter_ensures;

    let pieces = split(tags[0], CharClass::One('/'));
    let keep = |piece: Seq<char>| piece.len() > 0;
    lemma_first_piece(tags[0], CharClass::One('/'));
    assert(keep(pieces[0]));
    assert(pieces.filter(keep).contains(pieces[0]));
}

/// The file of a note always ends with a newline.
pub proof fn law_contents_end_with_newline(note: NoteView, body: Seq<char>)
    ensures
        contents_of(note, body).len() > 0,
        contents_of(note, body).last() == '\n',
{
    reveal_strlit("---\n\n");
}

/// A name of at least two characters without a slash is its own file name.
proof fn lemma_own_file_name(name: Seq<char>)
    requires
        !name.contains('/'),
        name.len() > 2,
    ensures
        file_name(name) == Some(name),
{
    reveal_strlit(".");
    reveal_strlit("..");
    assert forall|i: int| 0 <= i < name.len() implies !CharClass::One('/').holds(#[trigger] name[i]) by {
        assert(name.contains(name[i]));
    }
    lemma_split_without_separator(name, CharClass::One('/'));
    reveal(Seq::filter);
    let keep = |part: Seq<char>| part.len() > 0 && part != "."@;
    assert(seq![name].drop_last() == Seq::<Seq<char>>::empty());
    assert(Seq::<Seq<char>>::empty().filter(keep) == Seq::<Seq<char>>::empty());
    assert(keep(name));
    assert(seq![name].filter(keep) == seq![name]);
}

/// The parts of a Markdown file name.
proof fn lemma_markdown_name(base: Seq<char>)
    requires
        base.len() > 0,
        !base.contains('/'),
    ensures
        file_name(base + ".md"@) == Some(base + ".md"@),
        stem(base + ".md"@) == base,
        extension(base + ".md"@) == ".md"@,
{
    reveal_strlit(".md");
    let name = base + ".md"@;
    assert forall|i: int| 0 <= i < name.len() implies #[trigger] name[i] != '/' by {
        if i < base.len() {
            assert(base.contains(base[i]));
        }
    }
    lemma_own_file_name(name);
    assert(is_last_dot(name, base.len() as int));
    assert(extension_start(name) == base.len());
    assert(name.take(base.len() as int) == base);
    assert(name.skip(base.len() as int) == ".md"@);
}

proof fn lemma_candidate_is_markdown(title: Seq<char>, attempt: nat) -> (base: Seq<char>)
    ensures
        candidate(note_name(title), attempt) == base + ".md"@,
        base.len() > 0,
        !base.contains('/'),
        !is_hidden(base),
{
    law_sanitized_is_safe(title);
    let clean = sanitized(title);
    assert forall|i: int| 0 <= i < clean.len() implies #[trigger] clean[i] != '/' by {}
    lemma_markdown_name(clean);
    if attempt == 0 {
        clean
    } else {
        reveal_strlit(" (");
        reveal_strlit(")");
        let number = decimal(attempt + 1);
        lemma_decimal_has_no_slash(attempt + 1);
        let base = clean + " ("@ + number + ")"@;
        assert forall|i: int| 0 <= i < base.len() implies #[trigger] base[i] != '/' by {
            let after = i - clean.len() - 2;
            if 0 <= after < number.len() {
                assert(base[i] == number[after]);
            }
        }
        assert(base[0] == clean[0]);
        base
    }
}

proof fn lemma_decimal_has_no_slash(n: nat)
    ensures
        forall|i: int| 0 <= i < decimal(n).len() ==> #[trigger] decimal(n)[i] != '/',
    decreases n,
{
    if n >= 10 {
        let before = decimal(n / 10);
        lemma_decimal_has_no_slash(n / 10);
        assert forall|i: int| 0 <= i < decimal(n).len() implies #[trigger] decimal(n)[i] != '/' by {
            if i < before.len() {
                assert(decimal(n)[i] == before[i]);
            }
        }
    }
}

proof fn lemma_note_path(directory: Seq<Seq<char>>, base: Seq<char>)
    requires
        forall|i: int| 0 <= i < directory.len() ==> !is_hidden(#[trigger] directory[i]),
        base.len() > 0,
        !base.contains('/'),
        !is_hidden(base),
    ensures
        is_note_path(directory.push(base + ".md"@)),
{
    let name = base + ".md"@;
    lemma_markdown_name(base);
    let path = directory.push(name);
    assert forall|i: int| 0 <= i < path.len() - 1 implies !is_hidden(#[trigger] path[i]) by {
        assert(path[i] == directory[i]);
    }
    assert(path.last() == name);
    assert(name[0] == base[0]);
}

proof fn lemma_attachment_path(directory: Seq<Seq<char>>, base: Seq<char>, attachment: Seq<char>)
    requires
        forall|i: int| 0 <= i < directory.len() ==> !is_hidden(#[trigger] directory[i]),
        !is_hidden(base),
    ensures
        is_attachment_path((directory + seq!["assets"@, base]).push(attachment)),
{
    reveal_strlit("assets");
    let path = (directory + seq!["assets"@, base]).push(attachment);
    assert forall|i: int| 0 <= i < path.len() - 1 implies !is_hidden(#[trigger] path[i]) by {
        if i < directory.len() {
            assert(path[i] == directory[i]);
        }
    }
}

/// What the export writes, a later mirroring knows for what it is: every name
/// that a note may get makes it a note, and every file in the directory of its
/// attachments an attachment.
pub proof fn law_exported_files_are_recognised(
    flat: bool,
    note: NoteView,
    attempt: nat,
    attachment: Seq<char>,
)
    ensures
        is_note_path(directory_of(flat, note.tags).push(candidate(note_name(note.title), attempt))),
        is_attachment_path(
            (directory_of(flat, note.tags) + assets_of(candidate(note_name(note.title), attempt))).push(
                attachment,
            ),
        ),
{
    let directory = directory_of(flat, note.tags);
    let base = lemma_candidate_is_markdown(note.title, attempt);
    assert forall|i: int| 0 <= i < directory.len() implies !is_hidden(#[trigger] directory[i]) by {
        law_note_stays_inside_output(flat, note.tags, i);
    }
    lemma_markdown_name(base);
    lemma_note_path(directory, base);
    lemma_attachment_path(directory, base, attachment);
}

/// Notes with different file names have different directories for their
/// attachments.
pub proof fn law_attachments_are_kept_apart(
    title: Seq<char>,
    attempt: nat,
    other_title: Seq<char>,
    other_attempt: nat,
)
    requires
        candidate(note_name(title), attempt) != candidate(note_name(other_title), other_attempt),
    ensures
        assets_of(candidate(note_name(title), attempt)) != assets_of(
            candidate(note_name(other_title), other_attempt),
        ),
{
    let base = lemma_candidate_is_markdown(title, attempt);
    let other = lemma_candidate_is_markdown(other_title, other_attempt);
    lemma_markdown_name(base);
    lemma_markdown_name(other);
    let assets = assets_of(base + ".md"@);
    let others = assets_of(other + ".md"@);
    assert(assets[1] == base);
    assert(others[1] == other);
}

/// The directories that lead to a note are the parts of its first tag, one for
/// each part between slashes that is not empty, in that order and each made
/// safe. So if the parts are safe names already, the path of the directory is
/// the tag itself. No directory leads to a note without tags, nor to any note if
/// `flat` is set.
pub proof fn law_directories_are_parts_of_first_tag(parts: Seq<Seq<char>>, more: Seq<Seq<char>>)
    requires
        parts.len() > 0,
        forall|k: int| 0 <= k < parts.len() ==> !(#[trigger] parts[k]).contains('/'),
    ensures
        directory_of(false, seq![join(parts, "/"@)] + more) == parts.filter(
            |part: Seq<char>| part != Seq::<char>::empty(),
        ).map_values(|part: Seq<char>| sanitized(part)),
        (forall|k: int|
            0 <= k < parts.len() ==> (#[trigger] parts[k]).len() > 0 && sanitized(parts[k]) == parts[k])
            ==> directory_of(false, seq![join(parts, "/"@)] + more) == parts,
        directory_of(false, Seq::empty()) == Seq::<Seq<char>>::empty(),
        directory_of(true, more) == Seq::<Seq<char>>::empty(),
{
    reveal_strlit("/");
    assert("/"@ =~= seq!['/']);
    law_joined_pieces_can_be_split(parts, '/');
    let keep = |part: Seq<char>| part.len() > 0;
    let named = |part: Seq<char>| part != Seq::<char>::empty();
    let safe = |part: Seq<char>| sanitized(part);
    assert forall|part: Seq<char>| #[trigger] keep(part) == named(part) by {
        assert(part.len() == 0 ==> part =~= Seq::<char>::empty());
    }
    assert(keep =~= named);
    let tags = seq![join(parts, "/"@)] + more;
    assert(tags[0] == join(parts, "/"@));
    assert(directory_of(false, tags) == parts.filter(named).map_values(safe));
    if forall|k: int|
        0 <= k < parts.len() ==> (#[trigger] parts[k]).len() > 0 && sanitized(parts[k]) == parts[k] {
        lemma_all_non_empty(parts);
        assert(parts.filter(named) == parts);
        assert(parts.map_values(safe) =~= parts);
    }
}

/// The file of a note holds its front matter and then the body, and nothing else
/// but for a newline at the end if there would be none.
pub proof fn law_contents_are_front_matter_and_body(note: NoteView, body: Seq<char>)
    ensures
        body.len() == 0 || body.last() == '\n' ==> contents_of(note, body) == front_matter_of(note) + body,
        body.len() > 0 && body.last() != '\n' ==> contents_of(note, body) == front_matter_of(note) + body
            + seq!['\n'],
{
    reveal_strlit("---\n\n");
    let front = front_matter_of(note);
    assert(front.last() == '\n');
    assert(body.len() == 0 ==> front + body == front);
    assert(body.len() > 0 ==> (front + body).last() == body.last());
    assert((front + body).push('\n') == front + body + seq!['\n']);
}

/// The attachments of a note are next to it, in a directory of `assets` that is
/// called like the note's file; and that file is called like the note, if its
/// title is a safe name.
pub proof fn law_assets_are_called_like_the_note(title: Seq<char>, base: Seq<char>)
    requires
        base.len() > 0,
        !base.contains('/'),
    ensures
        assets_of(base + seq!['.', 'm', 'd']) == seq![seq!['a', 's', 's', 'e', 't', 's'], base],
        note_name(title) == sanitized(title) + seq!['.', 'm', 'd'],
{
    reveal_strlit(".md");
    reveal_strlit("assets");
    assert(".md"@ =~= seq!['.', 'm', 'd']);
    assert("assets"@ =~= seq!['a', 's', 's', 'e', 't', 's']);
    lemma_markdown_name(base);
}

} // verus!
