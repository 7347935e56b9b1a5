//! The front matter of an exported note.
use crate::notes::{Note, NoteView};
use crate::text::{
    chars_of, law_split_at_separator, lemma_split_without_separator, split, views, CharClass,
};
use vstd::prelude::*;

verus! {

/// A character inside double quotes: backslash and double quote are escaped.
pub open spec fn escaped_char(c: char) -> Seq<char> {
    if c == '\\' || c == '"' {
        seq!['\\', c]
    } else {
        seq![c]
    }
}

/// A text inside double quotes.
pub open spec fn escaped(s: Seq<char>) -> Seq<char>
    decreases s.len(),
{
    if s.len() == 0 {
        Seq::empty()
    } else {
        escaped(s.drop_last()) + escaped_char(s.last())
    }
}

/// The list of tags, one line for each.
pub open spec fn tag_lines(tags: Seq<Seq<char>>) -> Seq<char>
    decreases tags.len(),
{
    if tags.len() == 0 {
        Seq::empty()
    } else {
        tag_lines(tags.drop_last()) + "  - "@ + tags.last() + "\n"@
    }
}

/// The front matter of a note: its title in double quotes, its timestamps,
/// and its tags if it has any.
pub open spec fn front_matter_of(note: NoteView) -> Seq<char> {
    "---\n"@ + "title: \""@ + escaped(note.title) + "\"\n"@ + "created: "@ + note.created + "\n"@
        + "modified: "@ + note.modified + "\n"@ + (if note.tags.len() == 0 {
        Seq::empty()
    } else {
        "tags:\n"@ + tag_lines(note.tags)
    }) + "---\n\n"@
}

fn escape(s: &str) -> (res: String)
    ensures
        res@ == escaped(s@),
{
    let chars = chars_of(s);
    let mut result = String::new();
    for i in 0..chars.len()
        invariant
            result@ == escaped(chars@.take(i as int)),
    {
        assert(chars@.take(i + 1).drop_last() == chars@.take(i as int));
        let c = chars[i];
        if c == '\\' || c == '"' {
            result.push('\\');
        }
        result.push(c);
        assert(result@ == escaped(chars@.take(i + 1)));
    }
    assert(chars@.take(chars@.len() as int) == chars@);
    result
}

/// YAML front matter understood by Obsidian, Logseq, and similar apps.
pub fn front_matter(note: &Note) -> (res: String)
    ensures
        res@ == front_matter_of(note@),
{
    let mut result = "---\n".to_owned();
    result.push_str("title: \"");
    result.push_str(escape(note.title.as_str()).as_str());
    result.push_str("\"\n");
    result.push_str("created: ");
    result.push_str(note.created.as_str());
    result.push_str("\n");
    result.push_str("modified: ");
    result.push_str(note.modified.as_str());
    result.push_str("\n");
    let ghost head = result@;
    if note.tags.len() > 0 {
        let mut lines = String::new();
        for i in 0..note.tags.len()
            invariant
                lines@ == tag_lines(views(note.tags@).take(i as int)),
        {
            assert(views(note.tags@).take(i + 1).drop_last() == views(note.tags@).take(i as int));
            lines.push_str("  - ");
            lines.push_str(note.tags[i].as_str());
            lines.push_str("\n");
        }
        assert(views(note.tags@).take(note.tags@.len() as int) == views(note.tags@));
        result.push_str("tags:\n");
        result.push_str(lines.as_str());
        assert(result@ == head + ("tags:\n"@ + tag_lines(views(note.tags@))));
    } else {
        assert(result@ == head + Seq::<char>::empty());
    }
    result.push_str("---\n\n");
    result
}

/// What stands in double quotes, and what follows: up to the first double
/// quote without a backslash before it, each backslash standing for the
/// character behind it.
pub open spec fn quoted(s: Seq<char>) -> Option<(Seq<char>, Seq<char>)>
    decreases s.len(),
{
    if s.len() == 0 {
        None
    } else if s[0] == '"' {
        Some((Seq::empty(), s.skip(1)))
    } else if s[0] == '\\' {
        if s.len() < 2 {
            None
        } else {
            match quoted(s.skip(2)) {
                Some((text, rest)) => Some((seq![s[1]] + text, rest)),
                None => None,
            }
        }
    } else {
        match quoted(s.skip(1)) {
            Some((text, rest)) => Some((seq![s[0]] + text, rest)),
            None => None,
        }
    }
}

proof fn lemma_escaped_concat(a: Seq<char>, b: Seq<char>)
    ensures
        escaped(a + b) == escaped(a) + escaped(b),
    decreases b.len(),
{
    if b.len() == 0 {
        assert(a + b == a);
    } else {
        lemma_escaped_concat(a, b.drop_last());
        assert((a + b).drop_last() == a + b.drop_last());
    }
}

proof fn lemma_escaped_can_be_read_back(text: Seq<char>, rest: Seq<char>)
    ensures
        quoted(escaped(text) + seq!['"'] + rest) == Some((text, rest)),
    decreases text.len(),
{
    let all = escaped(text) + seq!['"'] + rest;
    if text.len() == 0 {
        assert(all.skip(1) == rest);
        assert(text == Seq::<char>::empty());
    } else {
        let first = text.first();
        let tail = text.drop_first();
        lemma_escaped_can_be_read_back(tail, rest);
        assert(text == seq![first] + tail);
        lemma_escaped_concat(seq![first], tail);
        assert(seq![first].drop_last() == Seq::<char>::empty());
        assert(escaped(Seq::<char>::empty()) == Seq::<char>::empty());
        assert(escaped(seq![first]) == escaped_char(first));
        let after = escaped(tail) + seq!['"'] + rest;
        if first == '\\' || first == '"' {
            assert(all.skip(2) == after);
        } else {
            assert(all.skip(1) == after);
        }
    }
}

/// The title can be read back from the front matter: whatever characters it
/// holds, the text in double quotes stands for it, and ends where its line does.
pub proof fn law_title_can_be_read_back(note: NoteView)
    ensures
        "---\ntitle: \""@.is_prefix_of(front_matter_of(note)),
        quoted(front_matter_of(note).skip("---\ntitle: \""@.len() as int)) matches Some((title, rest))
            && title == note.title && rest.len() > 0 && rest[0] == '\n',
{
    reveal_strlit("---\ntitle: \"");
    reveal_strlit("---\n");
    reveal_strlit("title: \"");
    reveal_strlit("\"\n");
    let all = front_matter_of(note);
    let start = "---\ntitle: \""@;
    let end = start.len() as int + escaped(note.title).len();
    let rest = all.skip(end + 1);
    assert(start == "---\n"@ + "title: \""@);
    assert(all[end] == '"');
    assert(all.skip(start.len() as int) == escaped(note.title) + seq!['"'] + rest);
    lemma_escaped_can_be_read_back(note.title, rest);
    assert(rest[0] == all[end + 1]);
}

/// The tags that a text lists: of its lines, those that begin with `  - `,
/// without that.
pub open spec fn listed_tags(text: Seq<char>) -> Seq<Seq<char>> {
    items_of(split(text, CharClass::One('\n')))
}

/// Of some lines, those that begin with `  - `, without that.
pub open spec fn items_of(lines: Seq<Seq<char>>) -> Seq<Seq<char>> {
    lines.filter(|line: Seq<char>| "  - "@.is_prefix_of(line)).map_values(|line: Seq<char>| line.skip(4))
}

proof fn lemma_split_at_line_break(a: Seq<char>, b: Seq<char>)
    ensures
        split(a + "\n"@ + b, CharClass::One('\n')) == split(a, CharClass::One('\n')) + split(
            b,
            CharClass::One('\n'),
        ),
{
    reveal_strlit("\n");
    assert("\n"@ == seq!['\n']);
    law_split_at_separator(a, '\n', b, CharClass::One('\n'));
}

proof fn lemma_items_concat(a: Seq<Seq<char>>, b: Seq<Seq<char>>)
    ensures
        items_of(a + b) == items_of(a) + items_of(b),
{
    let is_item = |line: Seq<char>| "  - "@.is_prefix_of(line);
    Seq::filter_distributes_over_add(a, b, is_item);
    assert(items_of(a + b) =~= items_of(a) + items_of(b));
}

proof fn lemma_items_of_line(line: Seq<char>)
    ensures
        items_of(seq![line]) == if "  - "@.is_prefix_of(line) {
            seq![line.skip(4)]
        } else {
            Seq::empty()
        },
{
    reveal(Seq::filter);
    let is_item = |line: Seq<char>| "  - "@.is_prefix_of(line);
    assert(seq![line].drop_last() == Seq::<Seq<char>>::empty());
    assert(Seq::<Seq<char>>::empty().filter(is_item) == Seq::<Seq<char>>::empty());
    if is_item(line) {
        assert(seq![line].filter(is_item) == seq![line]);
    } else {
        assert(seq![line].filter(is_item) == Seq::<Seq<char>>::empty());
    }
    assert(items_of(seq![line]) =~= if is_item(line) {
        seq![line.skip(4)]
    } else {
        Seq::empty()
    });
}

/// Whether a text is one line.
pub open spec fn is_one_line(s: Seq<char>) -> bool {
    !s.contains('\n')
}

/// What a text lists is what its first line lists, and then the rest.
proof fn lemma_first_line(line: Seq<char>, rest: Seq<char>)
    requires
        is_one_line(line),
    ensures
        listed_tags(line + "\n"@ + rest) == if "  - "@.is_prefix_of(line) {
            seq![line.skip(4)] + listed_tags(rest)
        } else {
            listed_tags(rest)
        },
{
    let class = CharClass::One('\n');
    assert forall|i: int| 0 <= i < line.len() implies !class.holds(#[trigger] line[i]) by {
        assert(line.contains(line[i]));
    }
    lemma_split_without_separator(line, class);
    lemma_split_at_line_break(line, rest);
    lemma_items_concat(seq![line], split(rest, class));
    lemma_items_of_line(line);
    assert(Seq::<Seq<char>>::empty() + listed_tags(rest) == listed_tags(rest));
}

proof fn lemma_tag_lines_first(tags: Seq<Seq<char>>)
    requires
        tags.len() > 0,
    ensures
        tag_lines(tags) == "  - "@ + tags.first() + "\n"@ + tag_lines(tags.drop_first()),
    decreases tags.len(),
{
    if tags.len() == 1 {
        assert(tag_lines(tags.drop_last()) == Seq::<char>::empty());
        assert(tag_lines(tags.drop_first()) == Seq::<char>::empty());
        assert(tags.first() == tags.last());
    } else {
        let middle = tags.drop_first().drop_last();
        lemma_tag_lines_first(tags.drop_last());
        assert(tags.drop_last().drop_first() == middle);
        assert(tags.drop_last().first() == tags.first());
        assert(tags.drop_first().last() == tags.last());
        assert(tag_lines(tags) =~= "  - "@ + tags.first() + "\n"@ + (tag_lines(middle) + "  - "@ + tags.last()
            + "\n"@));
    }
}

proof fn lemma_tag_lines_list_tags(tags: Seq<Seq<char>>, rest: Seq<char>)
    requires
        forall|i: int| 0 <= i < tags.len() ==> is_one_line(#[trigger] tags[i]),
    ensures
        listed_tags(tag_lines(tags) + rest) == tags + listed_tags(rest),
    decreases tags.len(),
{
    reveal_strlit("  - ");
    if tags.len() == 0 {
        assert(tag_lines(tags) + rest == rest);
        assert(tags + listed_tags(rest) == listed_tags(rest));
    } else {
        let line = "  - "@ + tags.first();
        let after = tag_lines(tags.drop_first()) + rest;
        assert forall|i: int| 0 <= i < tags.drop_first().len() implies is_one_line(
            #[trigger] tags.drop_first()[i],
        ) by {
            assert(is_one_line(tags[i + 1]));
        }
        lemma_tag_lines_list_tags(tags.drop_first(), rest);
        lemma_tag_lines_first(tags);
        assert(tag_lines(tags) + rest == line + "\n"@ + after);
        assert(is_one_line(tags[0]));
        assert forall|i: int| 0 <= i < line.len() implies #[trigger] line[i] != '\n' by {
            if i >= 4 {
                assert(line[i] == tags.first()[i - 4]);
                assert(tags.first().contains(tags.first()[i - 4]));
            }
        }
        lemma_first_line(line, after);
        assert("  - "@.is_prefix_of(line));
        assert(line.skip(4) == tags.first());
        assert(seq![tags.first()] + (tags.drop_first() + listed_tags(rest)) == tags + listed_tags(rest));
    }
}

proof fn lemma_escaped_is_one_line(s: Seq<char>)
    requires
        is_one_line(s),
    ensures
        is_one_line(escaped(s)),
    decreases s.len(),
{
    if s.len() > 0 {
        let before = s.drop_last();
        assert forall|i: int| 0 <= i < before.len() implies #[trigger] before[i] != '\n' by {
            assert(s.contains(s[i]));
        }
        lemma_escaped_is_one_line(before);
        assert(s.contains(s[s.len() - 1]));
        assert forall|i: int| 0 <= i < escaped(s).len() implies #[trigger] escaped(s)[i] != '\n' by {
            if i < escaped(before).len() {
                assert(escaped(before).contains(escaped(before)[i]));
            }
        }
    }
}

/// A line that does not begin with a space lists nothing.
proof fn lemma_labelled_line(label: Seq<char>, value: Seq<char>, rest: Seq<char>)
    requires
        label.len() > 0,
        label[0] != ' ',
        is_one_line(label),
        is_one_line(value),
    ensures
        listed_tags(label + value + "\n"@ + rest) == listed_tags(rest),
{
    reveal_strlit("  - ");
    let line = label + value;
    assert forall|i: int| 0 <= i < line.len() implies #[trigger] line[i] != '\n' by {
        if i < label.len() {
            assert(label.contains(label[i]));
        } else {
            assert(value.contains(value[i - label.len()]));
        }
    }
    assert(line[0] != "  - "@[0]);
    lemma_first_line(line, rest);
}

proof fn lemma_end_lists_nothing()
    ensures
        listed_tags("---\n\n"@) == Seq::<Seq<char>>::empty(),
        listed_tags(Seq::<char>::empty()) == Seq::<Seq<char>>::empty(),
{
    reveal_strlit("---\n\n");
    reveal_strlit("\n");
    reveal_strlit("---");
    reveal_strlit("  - ");
    let none = Seq::<char>::empty();
    assert("---\n\n"@ == "---"@ + none + "\n"@ + (none + "\n"@ + none));
    lemma_labelled_line("---"@, none, none + "\n"@ + none);
    lemma_first_line(none, none);
    lemma_split_without_separator(none, CharClass::One('\n'));
    lemma_items_of_line(none);
}

/// The front matter of a note up to its tags: the title and the timestamps.
pub open spec fn heading_of(note: NoteView) -> Seq<char> {
    "---\n"@ + "title: \""@ + escaped(note.title) + "\"\n"@ + "created: "@ + note.created + "\n"@
        + "modified: "@ + note.modified + "\n"@
}

proof fn lemma_heading_lists_nothing(note: NoteView)
    requires
        is_one_line(note.title),
        is_one_line(note.created),
        is_one_line(note.modified),
    ensures
        listed_tags(heading_of(note)) == Seq::<Seq<char>>::empty(),
{
    reveal_strlit("---\n");
    reveal_strlit("---");
    reveal_strlit("\n");
    reveal_strlit("title: \"");
    reveal_strlit("\"\n");
    reveal_strlit("\"");
    reveal_strlit("created: ");
    reveal_strlit("modified: ");
    let none = Seq::<char>::empty();
    let modified = "modified: "@ + note.modified + "\n"@ + none;
    let created = "created: "@ + note.created + "\n"@ + modified;
    let title = escaped(note.title) + "\""@;
    let titled = "title: \""@ + title + "\n"@ + created;
    assert(heading_of(note) =~= "---"@ + none + "\n"@ + titled);
    lemma_escaped_is_one_line(note.title);
    assert forall|i: int| 0 <= i < title.len() implies #[trigger] title[i] != '\n' by {
        if i < escaped(note.title).len() {
            assert(escaped(note.title).contains(escaped(note.title)[i]));
        }
    }
    lemma_labelled_line("---"@, none, titled);
    lemma_labelled_line("title: \""@, title, created);
    lemma_labelled_line("created: "@, note.created, modified);
    lemma_labelled_line("modified: "@, note.modified, none);
    lemma_end_lists_nothing();
}

/// The tags can be read back from the front matter, in order, if each is one
/// line: the lines below the title and the timestamps that begin with `  - `
/// are those of the tags. No line above them begins so if the title and the
/// timestamps are one line each.
pub proof fn law_tags_can_be_read_back(note: NoteView)
    requires
        forall|i: int| 0 <= i < note.tags.len() ==> is_one_line(#[trigger] note.tags[i]),
    ensures
        listed_tags(front_matter_of(note)) == listed_tags(heading_of(note)) + note.tags,
        front_matter_of(note).skip(heading_of(note).len() as int) == if note.tags.len() == 0 {
            "---\n\n"@
        } else {
            "tags:\n"@ + tag_lines(note.tags) + "---\n\n"@
        },
        is_one_line(note.title) && is_one_line(note.created) && is_one_line(note.modified)
            ==> listed_tags(front_matter_of(note)) == note.tags,
{
    reveal_strlit("\n");
    reveal_strlit("tags:\n");
    reveal_strlit("tags:");
    let none = Seq::<char>::empty();
    let class = CharClass::One('\n');
    let end = "---\n\n"@;
    let listing = if note.tags.len() == 0 {
        end
    } else {
        "tags:"@ + none + "\n"@ + (tag_lines(note.tags) + end)
    };
    let heading = heading_of(note);
    let above = heading.drop_last();
    assert(heading == above + "\n"@ + none);
    assert(front_matter_of(note) =~= above + "\n"@ + listing);
    assert(front_matter_of(note).skip(heading.len() as int) =~= if note.tags.len() == 0 {
        end
    } else {
        "tags:\n"@ + tag_lines(note.tags) + end
    });
    lemma_split_at_line_break(above, none);
    lemma_items_concat(split(above, class), split(none, class));
    lemma_split_at_line_break(above, listing);
    lemma_items_concat(split(above, class), split(listing, class));
    lemma_end_lists_nothing();
    assert(listed_tags(heading) =~= listed_tags(above));
    if note.tags.len() > 0 {
        lemma_labelled_line("tags:"@, none, tag_lines(note.tags) + end);
        lemma_tag_lines_list_tags(note.tags, end);
    }
    assert(listed_tags(listing) =~= note.tags);
    if is_one_line(note.title) && is_one_line(note.created) && is_one_line(note.modified) {
        lemma_heading_lists_nothing(note);
        assert(listed_tags(front_matter_of(note)) =~= note.tags);
    }
}

/// The front matter does not depend on the text of a note.
pub proof fn law_front_matter_ignores_text(note: NoteView, text: Seq<char>)
    ensures
        front_matter_of(NoteView { text, ..note }) == front_matter_of(note),
{
}

/// The front matter says what the note says, and nothing else: behind the title,
/// which stands in double quotes, come the timestamps as they are, and then the
/// tags if there are any.
pub proof fn law_front_matter_says_what_the_note_says(note: NoteView)
    ensures
        ({
            let start = "---\ntitle: \""@;
            let end = "---\n\n"@;
            let listing = if note.tags.len() == 0 {
                end
            } else {
                "tags:\n"@ + tag_lines(note.tags) + end
            };
            &&& start.is_prefix_of(front_matter_of(note))
            &&& front_matter_of(note).skip(start.len() as int) == escaped(note.title)
                + "\"\ncreated: "@ + note.created + "\nmodified: "@ + note.modified + "\n"@ + listing
            &&& quoted(front_matter_of(note).skip(start.len() as int)) == Some(
                (
                    note.title,
                    "\ncreated: "@ + note.created + "\nmodified: "@ + note.modified + "\n"@ + listing,
                ),
            )
        }),
{
    reveal_strlit("---\ntitle: \"");
    reveal_strlit("---\n");
    reveal_strlit("title: \"");
    reveal_strlit("\"\n");
    reveal_strlit("\n");
    reveal_strlit("created: ");
    reveal_strlit("modified: ");
    reveal_strlit("\"\ncreated: ");
    reveal_strlit("\ncreated: ");
    reveal_strlit("\nmodified: ");
    let start = "---\ntitle: \""@;
    let end = "---\n\n"@;
    let listing = if note.tags.len() == 0 {
        end
    } else {
        "tags:\n"@ + tag_lines(note.tags) + end
    };
    let all = front_matter_of(note);
    let rest = "\ncreated: "@ + note.created + "\nmodified: "@ + note.modified + "\n"@ + listing;
    assert(start =~= "---\n"@ + "title: \""@);
    assert("\"\n"@ + "created: "@ =~= "\"\ncreated: "@);
    assert("\n"@ + "modified: "@ =~= "\nmodified: "@);
    assert("\"\ncreated: "@ =~= seq!['"'] + "\ncreated: "@);
    assert(all.take(start.len() as int) =~= start);
    assert(all.skip(start.len() as int) =~= escaped(note.title) + "\"\ncreated: "@ + note.created
        + "\nmodified: "@ + note.modified + "\n"@ + listing);
    assert(all.skip(start.len() as int) =~= escaped(note.title) + seq!['"'] + rest);
    lemma_escaped_can_be_read_back(note.title, rest);
}

/// Inside double quotes every character stands for itself but the double quote
/// and the backslash, which have a backslash before them.
pub proof fn law_only_quotes_and_backslashes_are_escaped(a: Seq<char>, c: char, b: Seq<char>)
    ensures
        escaped(a + seq![c] + b) == escaped(a) + (if c as u32 == 34 || c as u32 == 92 {
            seq!['\\', c]
        } else {
            seq![c]
        }) + escaped(b),
        escaped(Seq::empty()) == Seq::<char>::empty(),
{
    lemma_escaped_concat(a + seq![c], b);
    lemma_escaped_concat(a, seq![c]);
    assert(seq![c].drop_last() == Seq::<char>::empty());
    assert(escaped(Seq::<char>::empty()) == Seq::<char>::empty());
    assert(escaped(seq![c]) =~= escaped_char(c));
}

/// Every tag has a line of its own, in the order of the tags.
pub proof fn law_every_tag_has_a_line(a: Seq<Seq<char>>, tag: Seq<char>, b: Seq<Seq<char>>)
    ensures
        tag_lines(a + seq![tag] + b) == tag_lines(a) + (seq![' ', ' ', '-', ' '] + tag + seq!['\n'])
            + tag_lines(b),
        tag_lines(Seq::empty()) == Seq::<char>::empty(),
    decreases b.len(),
{
    reveal_strlit("  - ");
    reveal_strlit("\n");
    assert("  - "@ =~= seq![' ', ' ', '-', ' ']);
    assert("\n"@ =~= seq!['\n']);
    let all = a + seq![tag] + b;
    if b.len() == 0 {
        assert(all.drop_last() == a);
        assert(all.last() == tag);
        assert(tag_lines(all) =~= tag_lines(a) + (seq![' ', ' ', '-', ' '] + tag + seq!['\n']) + tag_lines(b));
    } else {
        law_every_tag_has_a_line(a, tag, b.drop_last());
        assert(all.drop_last() == a + seq![tag] + b.drop_last());
        assert(all.last() == b.last());
        assert(tag_lines(all) =~= tag_lines(a) + (seq![' ', ' ', '-', ' '] + tag + seq!['\n']) + tag_lines(b));
    }
}

} // verus!
