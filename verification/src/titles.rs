//! The title of a note.
use crate::text::{
    law_split_at_separator, lemma_non_empty_concat, lemma_non_empty_one, lemma_split_without_separator,
    lemma_trim_extra_end, lemma_trim_extra_start, non_empty, split, split_at_each, trim, trim_start,
    trimmed, trimmed_start, views, whitespace, CharClass,
};
use vstd::prelude::*;

verus! {

/// What a line of a note says: the line without `#` at its start, and then
/// without white space at its ends.
pub open spec fn line_content(line: Seq<char>) -> Seq<char> {
    trim(trim_start(line, CharClass::One('#')), CharClass::Whitespace)
}

/// What the lines of a note say, but for those that say nothing.
pub open spec fn line_contents(text: Seq<char>) -> Seq<Seq<char>> {
    non_empty(split(text, CharClass::One('\n')).map_values(|line: Seq<char>| line_content(line)))
}

/// The title of a note that has none of its own: what its first line with any
/// content says.
pub open spec fn derived_title(text: Seq<char>) -> Seq<char> {
    if line_contents(text).len() == 0 {
        "Untitled"@
    } else {
        line_contents(text)[0]
    }
}

/// The title of a note that has none of its own.
pub fn derive_title(text: &str) -> (res: String)
    ensures
        res@ == derived_title(text@),
{
    let lines = split_at_each(text, CharClass::One('\n'));
    let ghost contents = views(lines@).map_values(|line: Seq<char>| line_content(line));
    for i in 0..lines.len()
        invariant
            contents == views(lines@).map_values(|line: Seq<char>| line_content(line)),
            contents == split(text@, CharClass::One('\n')).map_values(|line: Seq<char>| line_content(line)),
            non_empty(contents.take(i as int)).len() == 0,
    {
        let content = trimmed(
            trimmed_start(lines[i].as_str(), CharClass::One('#')).as_str(),
            CharClass::Whitespace,
        );
        assert(content@ == contents[i as int]);
        proof {
            lemma_first_non_empty(contents, i as int);
        }
        if !content.as_str().is_empty() {
            return content;
        }
    }
    assert(contents.take(contents.len() as int) == contents);
    "Untitled".to_owned()
}

proof fn lemma_first_non_empty(pieces: Seq<Seq<char>>, i: int)
    requires
        0 <= i < pieces.len(),
        non_empty(pieces.take(i)).len() == 0,
    ensures
        pieces[i].len() == 0 ==> non_empty(pieces.take(i + 1)).len() == 0,
        pieces[i].len() > 0 ==> non_empty(pieces).len() > 0 && non_empty(pieces)[0] == pieces[i],
{
    let keep = |piece: Seq<char>| piece.len() > 0;
    assert(pieces.take(i + 1).drop_last() == pieces.take(i));
    assert(pieces == pieces.take(i + 1) + pieces.skip(i + 1));
    Seq::filter_distributes_over_add(pieces.take(i + 1), pieces.skip(i + 1), keep);
    reveal(Seq::filter);
    assert(pieces.take(i + 1).filter(keep) == if pieces[i].len() > 0 {
        pieces.take(i).filter(keep).push(pieces[i])
    } else {
        pieces.take(i).filter(keep)
    });
}

proof fn lemma_marks_are_left_out(marks: nat, rest: Seq<char>)
    requires
        rest.len() > 0 ==> rest[0] != '#',
    ensures
        trim_start(Seq::new(marks, |i: int| '#') + rest, CharClass::One('#')) == rest,
    decreases marks,
{
    let line = Seq::new(marks, |i: int| '#') + rest;
    if marks == 0 {
        assert(line == rest);
    } else {
        lemma_marks_are_left_out((marks - 1) as nat, rest);
        assert(line.first() == '#');
        assert(line.drop_first() == Seq::new((marks - 1) as nat, |i: int| '#') + rest);
    }
}

proof fn lemma_spaces_are_left_out(before: Seq<char>, content: Seq<char>, behind: Seq<char>)
    requires
        forall|i: int| 0 <= i < before.len() ==> whitespace(#[trigger] before[i]),
        forall|i: int| 0 <= i < behind.len() ==> whitespace(#[trigger] behind[i]),
        content.len() > 0 ==> !whitespace(content.first()) && !whitespace(content.last()),
    ensures
        trim(before + content + behind, CharClass::Whitespace) == content,
    decreases before.len() + behind.len(),
{
    let class = CharClass::Whitespace;
    if behind.len() > 0 {
        let fewer = behind.drop_last();
        assert forall|i: int| 0 <= i < fewer.len() implies whitespace(#[trigger] fewer[i]) by {
            assert(fewer[i] == behind[i]);
        }
        lemma_spaces_are_left_out(before, content, fewer);
        assert(whitespace(behind[behind.len() - 1]));
        assert(before + content + behind == (before + content + fewer).push(behind.last()));
        lemma_trim_extra_end(before + content + fewer, behind.last(), class);
    } else if before.len() > 0 {
        let fewer = before.drop_first();
        assert forall|i: int| 0 <= i < fewer.len() implies whitespace(#[trigger] fewer[i]) by {
            assert(fewer[i] == before[i + 1]);
        }
        lemma_spaces_are_left_out(fewer, content, behind);
        assert(whitespace(before[0]));
        assert(before + content + behind == seq![before[0]] + (fewer + content + behind));
        lemma_trim_extra_start(before[0], fewer + content + behind, class);
    } else {
        assert(before + content + behind == content);
    }
}

/// The title of a note that has none of its own is what its first line says that
/// says anything: the line but for `#`s at its start and white space around the
/// rest. A line that says nothing is passed over, and where no line says
/// anything the title is `Untitled`.
pub proof fn law_title_is_what_first_line_says(
    marks: nat,
    before: Seq<char>,
    content: Seq<char>,
    behind: Seq<char>,
    rest: Seq<char>,
)
    requires
        forall|i: int| 0 <= i < before.len() ==> whitespace(#[trigger] before[i]) && before[i] != '\n',
        forall|i: int| 0 <= i < behind.len() ==> whitespace(#[trigger] behind[i]) && behind[i] != '\n',
        !content.contains('\n'),
        content.len() > 0 ==> !whitespace(content.first()) && !whitespace(content.last()),
        content.len() > 0 && before.len() == 0 ==> content.first() != '#',
    ensures
        ({
            let line = Seq::new(marks, |i: int| '#') + before + content + behind;
            &&& content.len() > 0 ==> derived_title(line) == content && derived_title(
                line + seq!['\n'] + rest,
            ) == content
            &&& content.len() == 0 ==> derived_title(line) == "Untitled"@ && derived_title(
                line + seq!['\n'] + rest,
            ) == derived_title(rest)
        }),
{
    let class = CharClass::One('\n');
    let says = |line: Seq<char>| line_content(line);
    let signs = Seq::new(marks, |i: int| '#');
    let line = signs + before + content + behind;
    let spaced = before + content + behind;
    assert(line == signs + spaced);
    if before.len() > 0 {
        assert(spaced[0] == before[0]);
    } else if content.len() > 0 {
        assert(spaced[0] == content[0]);
    } else if behind.len() > 0 {
        assert(spaced[0] == behind[0]);
    }
    lemma_marks_are_left_out(marks, spaced);
    lemma_spaces_are_left_out(before, content, behind);
    assert(line_content(line) == content);
    assert forall|i: int| 0 <= i < line.len() implies !class.holds(#[trigger] line[i]) by {
        let k = i - signs.len();
        let m = k - before.len();
        if 0 <= k < before.len() {
            assert(line[i] == before[k]);
        } else if 0 <= m < content.len() {
            assert(line[i] == content[m]);
            assert(content.contains(content[m]));
        } else if m >= content.len() {
            assert(line[i] == behind[m - content.len()]);
        }
    }
    lemma_split_without_separator(line, class);
    law_split_at_separator(line, '\n', rest, class);
    assert(split(line, class).map_values(says) =~= seq![content]);
    assert((seq![line] + split(rest, class)).map_values(says) =~= seq![content] + split(
        rest,
        class,
    ).map_values(says));
    lemma_non_empty_one(content);
    lemma_non_empty_concat(seq![content], split(rest, class).map_values(says));
    assert(content.len() == 0 ==> line_contents(line + seq!['\n'] + rest) =~= line_contents(rest));
}

} // verus!
